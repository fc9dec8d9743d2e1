use mdsevent_tcp_bridge::overlay::{split_frames, topic_for, OverlayError, TOPIC_PREFIX};

#[test]
fn topic_is_prefix_and_event() {
    assert_eq!(topic_for("TEST_EVENT"), b"mdsevent.TEST_EVENT".to_vec());
    assert!(topic_for("X").starts_with(TOPIC_PREFIX.as_bytes()));
}

#[test]
fn frames_must_be_three() {
    let frames = vec![b"t".to_vec(), b"{}".to_vec(), vec![1, 2, 3]];
    assert_eq!(split_frames(frames), Ok((b"{}".to_vec(), vec![1, 2, 3])));
    assert_eq!(split_frames(vec![b"t".to_vec()]), Err(OverlayError::FrameCount(1)));
    assert_eq!(split_frames(vec![vec![]; 4]), Err(OverlayError::FrameCount(4)));
}
