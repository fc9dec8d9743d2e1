//! The overlay message: a topic frame, a metadata frame and the datagram frame.
//! The metadata itself is written as JSON outside the library; here are the fields the
//! bridge decides on, the topic of a message, and the check of an incoming message's frames.

use vstd::prelude::*;
use vstd::utf8::encode_utf8;

verus! {

/// The prefix of every overlay topic; subscribers subscribe to it.
pub const TOPIC_PREFIX: &'static str = "mdsevent.";

/// The metadata of an overlay message that the bridge decides on (the send time, which
/// nothing decides on, travels beside it).
#[derive(Debug, Clone)]
pub struct OverlayMeta {
    /// The event's id: the originating site and a random token.
    pub id: String,
    /// The site where the event entered the overlay.
    pub origin: String,
    /// The bridge that sent this copy.
    pub sender: String,
    /// The UDP port that bridge sends multicast datagrams from.
    pub sender_udp_port: u16,
    /// How many times the message was relayed.
    pub hops: u32,
    /// The event name.
    pub event: String,
    /// The site that relayed this copy, if any.
    pub via: Option<String>,
}

/// Why an incoming overlay message is refused.
#[derive(Debug, Clone, Copy, PartialEq, Eq, Structural)]
pub enum OverlayError {
    /// A message has three frames; this one had this many.
    FrameCount(usize),
}

/// The topic frame of a message about `event`: the prefix, then the event name, as UTF-8.
pub fn topic_for(event: &str) -> (topic: Vec<u8>)
    ensures
        topic@ == encode_utf8(TOPIC_PREFIX@) + encode_utf8(event@),
        topic@.take(encode_utf8(TOPIC_PREFIX@).len() as int) == encode_utf8(TOPIC_PREFIX@),
{
    let prefix = TOPIC_PREFIX.as_bytes();
    let name = event.as_bytes();
    let mut topic: Vec<u8> = Vec::new();
    let n = prefix.len();
    for i in 0..n
        invariant
            n == prefix@.len(),
            topic@ == prefix@.take(i as int),
    {
        assert(prefix@.take(i + 1) =~= topic@.push(prefix@[i as int]));
        topic.push(prefix[i]);
    }
    let m = name.len();
    for j in 0..m
        invariant
            m == name@.len(),
            n == prefix@.len(),
            topic@ == prefix@.take(n as int) + name@.take(j as int),
    {
        assert(prefix@.take(n as int) + name@.take(j + 1) =~= topic@.push(name@[j as int]));
        topic.push(name[j]);
    }
    assert(prefix@.take(n as int) =~= prefix@);
    assert(name@.take(m as int) =~= name@);
    assert(topic@.take(n as int) =~= prefix@);
    topic
}

/// The metadata frame and the datagram frame of a message, which must have exactly three
/// frames (the topic frame being the first).
pub fn split_frames(frames: Vec<Vec<u8>>) -> (r: Result<(Vec<u8>, Vec<u8>), OverlayError>)
    ensures
        frames@.len() == 3 ==> (r matches Ok((meta, datagram)) && meta == frames@[1] && datagram
            == frames@[2]),
        frames@.len() != 3 ==> r == Err::<(Vec<u8>, Vec<u8>), OverlayError>(
            OverlayError::FrameCount(frames@.len() as usize),
        ),
{
    let n = frames.len();
    if n != 3 {
        return Err(OverlayError::FrameCount(n));
    }
    let mut frames = frames;
    let datagram = frames.pop();
    let meta = frames.pop();
    match (meta, datagram) {
        (Some(meta), Some(datagram)) => Ok((meta, datagram)),
        _ => Err(OverlayError::FrameCount(n)),
    }
}

} // verus!
