use coconet::addr::Ipv4Addr;
use coconet::protocol::{data_protocol, identify_protocol, port_mapping, Topic};
use coconet::settings::{
    env_u64, env_usize, respect_df, upnp_enabled, DEFAULT_BATCH_BYTES, DEFAULT_BATCH_INTERVAL, DEFAULT_BATCH_PACKETS,
};

#[test]
fn defaults_of_the_batch() {
    assert_eq!(DEFAULT_BATCH_BYTES, 48 * 1024);
    assert_eq!(DEFAULT_BATCH_PACKETS, 128);
    assert_eq!(DEFAULT_BATCH_INTERVAL, 2);
}

#[test]
fn numbers_from_the_environment() {
    assert_eq!(env_usize(None, 5), 5);
    assert_eq!(env_usize(Some("12"), 5), 12);
    assert_eq!(env_usize(Some("12k"), 5), 5);
    assert_eq!(env_usize(Some("-1"), 5), 5);
    assert_eq!(env_u64(None, 2), 2);
    assert_eq!(env_u64(Some("18446744073709551615"), 2), u64::MAX);
    assert_eq!(env_u64(Some("18446744073709551616"), 2), 2);
    assert_eq!(env_u64(Some(""), 2), 2);
}

#[test]
fn the_dont_fragment_flag_is_respected_unless_the_setting_says_no() {
    for yes in [None, Some("1"), Some("TRUE"), Some("yes"), Some("On"), Some("maybe"), Some("")] {
        assert!(respect_df(yes));
    }
    for no in ["0", "false", "No", "OFF"] {
        assert!(!respect_df(Some(no)));
    }
}

#[test]
fn port_mapping_can_be_switched_off() {
    let ip = Ipv4Addr { a: 192, b: 168, c: 1, d: 5 };
    for on in [None, Some("1"), Some("no"), Some("off"), Some("")] {
        assert!(upnp_enabled(on));
        let m = port_mapping(on, ip, 36826).unwrap();
        assert_eq!((m.external_port, m.local_ip, m.local_port), (36826, ip, 36826));
        assert_eq!((m.lease, m.description), (3600, "coconet-quic"));
    }
    for off in ["0", "false", "False"] {
        assert!(!upnp_enabled(Some(off)));
        assert!(port_mapping(Some(off), ip, 36826).is_none());
    }
}

#[test]
fn names_on_the_network() {
    assert_eq!(Topic::Packets.name(), "coconet/packets");
    assert_eq!(Topic::Announce.name(), "coconet/announce");
    for t in [Topic::Packets, Topic::Announce] {
        assert_eq!(Topic::from_name(t.name()), Some(t));
    }
    assert_eq!(Topic::from_name("coconet/"), None);
    assert_eq!(data_protocol(), "/coconet/data/1");
    assert_eq!(identify_protocol(), "coconet/0.1.0");
}
