use mdsevent_tcp_bridge::bridge::{event_id_for, BridgeState};
use mdsevent_tcp_bridge::config::{BridgeConfig, Cli};
use mdsevent_tcp_bridge::multicast::MulticastConfig;
use mdsevent_tcp_bridge::overlay::OverlayMeta;
use mdsevent_tcp_bridge::wire::encode_udp_event;

fn cli(site: &str, bridge: Option<&str>, forward_remote: bool, max_hops: u32) -> Cli {
    Cli {
        site_id: site.to_string(),
        bridge_id: bridge.map(|b| b.to_string()),
        udp_port: 4001,
        udp_address_setting: "239.10.10.0-15".to_string(),
        udp_bind_ip: "0.0.0.0".to_string(),
        udp_send_bind_ip: "0.0.0.0".to_string(),
        udp_interface_ip: None,
        udp_ttl: 1,
        udp_loop: true,
        pub_bind: "tcp://0.0.0.0:5600".to_string(),
        sub_connect: vec!["tcp://127.0.0.1:5601".to_string()],
        forward_remote,
        max_hops,
        seen_ttl_seconds: 60,
        seen_max_entries: 1000,
        poll_ms: 10,
        log_level: "info".to_string(),
    }
}

fn state(site: &str, bridge: &str, forward_remote: bool, max_hops: u32, send_port: u16) -> BridgeState {
    let cfg = BridgeConfig::from_cli(cli(site, Some(bridge), forward_remote, max_hops), "unused".to_string());
    let mcast = MulticastConfig::parse(&cfg.udp_address_setting).expect("setting should parse");
    BridgeState::new(&cfg, mcast, send_port)
}

const SEC: u64 = 1_000_000_000;

fn remote_meta(id: &str, sender: &str, port: u16, hops: u32) -> OverlayMeta {
    OverlayMeta {
        id: id.to_string(),
        origin: "BD".to_string(),
        sender: sender.to_string(),
        sender_udp_port: port,
        hops,
        event: "TEST_EVENT".to_string(),
        via: None,
    }
}

#[test]
fn config_from_cli_settles_bridge_id() {
    let cfg = BridgeConfig::from_cli(cli("AC", None, false, 4), "host:42".to_string());
    assert_eq!(cfg.bridge_id, "host:42");
    assert_eq!(cfg.site_id, "AC");
    assert_eq!(cfg.udp_port, 4001);
    assert_eq!(cfg.sub_connect, vec!["tcp://127.0.0.1:5601".to_string()]);
    let cfg = BridgeConfig::from_cli(cli("AC", Some("AC-1"), false, 4), "host:42".to_string());
    assert_eq!(cfg.bridge_id, "AC-1");
    assert_eq!(cfg.poll_sleep_ms(), 10);
    assert_eq!(cfg.seen_ttl_nanos(), 60 * SEC);
    let mut c = cli("AC", None, false, 4);
    c.poll_ms = 0;
    c.seen_ttl_seconds = u64::MAX;
    let cfg = BridgeConfig::from_cli(c, "h:1".to_string());
    assert_eq!(cfg.poll_sleep_ms(), 1);
    assert_eq!(cfg.seen_ttl_nanos(), u64::MAX);
}

#[test]
fn event_ids_name_the_site() {
    assert_eq!(event_id_for("AC", "0123abcd"), "AC:0123abcd");
    let s = state("AC", "AC-1", false, 4, 41000);
    let id = s.new_event_id();
    assert!(id.starts_with("AC:"));
    assert_eq!(id.len(), 3 + 32);
    assert!(id[3..].chars().all(|c| c.is_ascii_hexdigit() && !c.is_ascii_uppercase()));
    assert_ne!(id, s.new_event_id());
}

#[test]
fn udp_from_known_bridge_port_is_dropped() {
    let mut s = state("AC", "AC-1", false, 4, 41000);
    let datagram = encode_udp_event("TEST_EVENT", b"abc");
    assert!(s.admit_udp(41000, &datagram, 0).is_none());
    let meta = s.admit_udp(50000, &datagram, 0).expect("a local event is taken in");
    assert_eq!(meta.origin, "AC");
    assert_eq!(meta.sender, "AC-1");
    assert_eq!(meta.sender_udp_port, 41000);
    assert_eq!(meta.hops, 0);
    assert_eq!(meta.event, "TEST_EVENT");
    assert!(meta.via.is_none());
    assert!(meta.id.starts_with("AC:"));
    // A port learned from the overlay is known from then on.
    let remote = remote_meta("BD:1", "BD-1", 42000, 0);
    assert!(s.admit_overlay(&remote, 0));
    assert!(s.admit_udp(42000, &datagram, 0).is_none());
}

#[test]
fn malformed_udp_is_dropped() {
    let mut s = state("AC", "AC-1", false, 4, 41000);
    assert!(s.admit_udp_with_id(50000, b"\x00\x00\x00\x05TEST", "AC:x".to_string(), 0).is_none());
    let meta = s
        .admit_udp_with_id(50000, &encode_udp_event("EV", b""), "AC:y".to_string(), 0)
        .expect("well-formed");
    assert_eq!(meta.id, "AC:y");
    assert_eq!(meta.event, "EV");
}

#[test]
fn overlay_message_delivered_once() {
    let mut s = state("AC", "AC-1", false, 4, 41000);
    let meta = remote_meta("BD:1", "BD-1", 42000, 0);
    assert!(s.admit_overlay(&meta, 10 * SEC));
    let relay = s.relay(meta.clone());
    assert_eq!(relay.target, [239, 10, 10, 2]);
    assert_eq!(relay.port, 4001);
    assert!(relay.forward.is_none());
    // The same id again, from another bridge, within the time-to-live.
    let again = remote_meta("BD:1", "XY-1", 43000, 1);
    assert!(!s.admit_overlay(&again, 69 * SEC));
    // After the time-to-live it is taken in again.
    assert!(s.admit_overlay(&again, 71 * SEC));
}

#[test]
fn own_messages_are_not_admitted() {
    let mut s = state("AC", "AC-1", false, 4, 41000);
    let own = remote_meta("AC:1", "AC-1", 41000, 0);
    assert!(!s.admit_overlay(&own, 0));
}

#[test]
fn originated_event_echo_is_not_admitted() {
    let mut s = state("AC", "AC-1", true, 4, 41000);
    let meta = s
        .admit_udp_with_id(50000, &encode_udp_event("EV", b"p"), "AC:abc".to_string(), 100 * SEC)
        .expect("well-formed");
    let echo = OverlayMeta {
        sender: "BD-1".to_string(),
        sender_udp_port: 42000,
        hops: 1,
        via: Some("BD".to_string()),
        ..meta
    };
    assert!(!s.admit_overlay(&echo, 101 * SEC));
}

#[test]
fn relay_forwards_within_hop_limit() {
    let s = state("AC", "AC-1", true, 2, 41000);
    let relay = s.relay(remote_meta("BD:1", "BD-1", 42000, 1));
    let f = relay.forward.expect("one hop below the limit is relayed");
    assert_eq!(f.hops, 2);
    assert_eq!(f.via.as_deref(), Some("AC"));
    assert_eq!(f.sender, "AC-1");
    assert_eq!(f.sender_udp_port, 41000);
    assert_eq!(f.id, "BD:1");
    assert_eq!(f.origin, "BD");
    assert_eq!(f.event, "TEST_EVENT");
    let relay = s.relay(remote_meta("BD:2", "BD-1", 42000, 2));
    assert!(relay.forward.is_none());
    let quiet = state("AC", "AC-1", false, 2, 41000);
    assert!(quiet.relay(remote_meta("BD:3", "BD-1", 42000, 0)).forward.is_none());
}
