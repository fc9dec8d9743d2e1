use mdsevent_tcp_bridge::multicast::{AddressError, MulticastConfig, OctetField};

fn octets(cfg: &MulticastConfig, idx: u8) -> [u8; 4] {
    cfg.ip_for_index(idx)
}

#[test]
fn parse_single_address() {
    let cfg = MulticastConfig::parse("239.10.10.11").expect("parse should succeed");
    assert_eq!(cfg.range_start, 11);
    assert_eq!(cfg.range_end, 11);
    assert_eq!(octets(&cfg, 7), [239, 10, 10, 7]);
}

#[test]
fn parse_compat_any_case_and_spaces() {
    for setting in ["compat", "COMPAT", " Compat\t", "\u{3000}cOmPaT\n"] {
        let cfg = MulticastConfig::parse(setting).expect("compat should parse");
        assert_eq!(cfg.range_start, 0);
        assert_eq!(cfg.range_end, 255);
        assert_eq!(octets(&cfg, 9), [225, 0, 0, 9]);
    }
}

#[test]
fn parse_range_setting() {
    let cfg = MulticastConfig::parse(" 224.1.2.3-40 ").expect("range should parse");
    assert_eq!(cfg.range_start, 3);
    assert_eq!(cfg.range_end, 40);
    assert_eq!(octets(&cfg, 3), [224, 1, 2, 3]);
}

#[test]
fn parse_plus_sign_and_leading_zeros() {
    let cfg = MulticastConfig::parse("+239.010.0010.+5").expect("signs and zeros parse");
    assert_eq!(octets(&cfg, cfg.range_start), [239, 10, 10, 5]);
}

#[test]
fn parse_errors() {
    assert_eq!(
        MulticastConfig::parse("").err(),
        Some(AddressError::NotAnInteger(OctetField::Octet1))
    );
    assert_eq!(
        MulticastConfig::parse("239").err(),
        Some(AddressError::Missing(OctetField::Octet2))
    );
    assert_eq!(
        MulticastConfig::parse("239.1").err(),
        Some(AddressError::Missing(OctetField::Octet3))
    );
    assert_eq!(
        MulticastConfig::parse("239.1.2").err(),
        Some(AddressError::Missing(OctetField::Octet4))
    );
    assert_eq!(
        MulticastConfig::parse("239.1.2.3.4").err(),
        Some(AddressError::TooManyOctets)
    );
    assert_eq!(
        MulticastConfig::parse("256.1.2.3").err(),
        Some(AddressError::OutOfRange(OctetField::Octet1))
    );
    assert_eq!(
        MulticastConfig::parse("65536.1.2.3").err(),
        Some(AddressError::NotAnInteger(OctetField::Octet1))
    );
    assert_eq!(
        MulticastConfig::parse("1.-2.3.4").err(),
        Some(AddressError::NotAnInteger(OctetField::Octet2))
    );
    assert_eq!(
        MulticastConfig::parse("1.2.+.4").err(),
        Some(AddressError::NotAnInteger(OctetField::Octet3))
    );
    assert_eq!(
        MulticastConfig::parse("1.2.3.x").err(),
        Some(AddressError::NotAnInteger(OctetField::Octet4))
    );
    assert_eq!(
        MulticastConfig::parse("1.2.3.300").err(),
        Some(AddressError::OutOfRange(OctetField::Octet4))
    );
    assert_eq!(
        MulticastConfig::parse("1.2.3.-5").err(),
        Some(AddressError::NotAnInteger(OctetField::RangeStart))
    );
    assert_eq!(
        MulticastConfig::parse("1.2.3.5-").err(),
        Some(AddressError::NotAnInteger(OctetField::RangeEnd))
    );
    assert_eq!(
        MulticastConfig::parse("1.2.3.5-999").err(),
        Some(AddressError::OutOfRange(OctetField::RangeEnd))
    );
    assert_eq!(
        MulticastConfig::parse("1.2.3.9-5").err(),
        Some(AddressError::RangeReversed)
    );
    // The first failing check wins: octet 1 is read before the count of parts.
    assert_eq!(
        MulticastConfig::parse("x").err(),
        Some(AddressError::NotAnInteger(OctetField::Octet1))
    );
    // Inner white space is not trimmed.
    assert_eq!(
        MulticastConfig::parse("1. 2.3.4").err(),
        Some(AddressError::NotAnInteger(OctetField::Octet2))
    );
}

#[test]
fn mapping_spreads_over_range() {
    let cfg = MulticastConfig::parse("239.10.10.0-15").expect("range should parse");
    assert_eq!(cfg.event_to_multicast("TEST_EVENT"), [239, 10, 10, 2]);
    assert_eq!(cfg.event_to_multicast("A"), [239, 10, 10, 4]);
    assert_eq!(cfg.event_to_multicast("EVENT_1"), [239, 10, 10, 1]);
    let cfg = MulticastConfig::parse("239.10.10.10-20").expect("range should parse");
    assert_eq!(cfg.event_to_multicast("TEST_EVENT"), [239, 10, 10, 11]);
    assert_eq!(cfg.event_to_multicast("EVENT_1"), [239, 10, 10, 10]);
    let cfg = MulticastConfig::parse("239.10.10.0-254").expect("range should parse");
    assert_eq!(cfg.event_to_multicast("TEST_EVENT"), [239, 10, 10, 32]);
    assert_eq!(cfg.event_to_multicast(""), [239, 10, 10, 0]);
}

#[test]
fn groups_cover_range() {
    let cfg = MulticastConfig::parse("239.10.10.3-5").expect("range should parse");
    assert_eq!(
        cfg.groups(),
        vec![[239, 10, 10, 3], [239, 10, 10, 4], [239, 10, 10, 5]]
    );
    let cfg = MulticastConfig::parse("compat").expect("compat should parse");
    let groups = cfg.groups();
    assert_eq!(groups.len(), 256);
    assert_eq!(groups[255], [225, 0, 0, 255]);
}

#[test]
fn mapped_group_is_joined() {
    for setting in ["239.10.10.7", "239.10.10.3-9", "224.0.0.0-254", "239.1.2.200-201"] {
        let cfg = MulticastConfig::parse(setting).expect("setting should parse");
        let groups = cfg.groups();
        for name in ["", "A", "TEST_EVENT", "EVENT_1", "a much longer event name"] {
            let ip = cfg.event_to_multicast(name);
            assert!(groups.contains(&ip), "{setting} {name}");
            assert!(cfg.range_start <= ip[3] && ip[3] <= cfg.range_end);
        }
    }
}
