use coconet::addr::{
    goes_through_relay, is_public_ipv4, is_public_udp_quic, listen_address, rebuild_udp_quic, udp_ip_port, udp_quic_text,
    Ipv4Addr, Multiaddr, Protocol,
};
use coconet::collections::{Ident, KeySet};

const PEER: &str = "QmYyQSo1c1Ym7orWxLYvCrM2EmxFTANf8wXmmE7DWjhx5N";

fn addr(text: &str) -> Multiaddr {
    Multiaddr::parse(text).expect(text)
}

fn ip(a: u8, b: u8, c: u8, d: u8) -> Ipv4Addr {
    Ipv4Addr { a, b, c, d }
}

#[test]
fn addresses_as_numbers() {
    assert_eq!(ip(10, 99, 0, 42).to_u32(), 0x0a63_002a);
    assert_eq!(Ipv4Addr::from_u32(0xc0a8_01fe), ip(192, 168, 1, 254));
    assert_eq!(ip(1, 20, 255, 0).text(), "1.20.255.0");
}

#[test]
fn multiaddresses_are_read_and_written() {
    let a = addr("/ip4/1.2.3.4/udp/36826/quic-v1");
    assert_eq!(a.parts.len(), 3);
    assert!(matches!(a.parts[0], Protocol::Ip4(i) if i == ip(1, 2, 3, 4)));
    assert!(matches!(a.parts[1], Protocol::Udp(36826)));
    assert!(matches!(a.parts[2], Protocol::QuicV1));
    for text in [
        "/ip4/1.2.3.4/udp/36826/quic-v1",
        "/ip4/1.2.3.4/tcp/80",
        "/ip6/fd00::1/udp/7/quic-v1",
        "/dns4/example.org/udp/1/quic-v1",
    ] {
        assert_eq!(addr(text).text().unwrap(), text);
    }
    let relayed = format!("/ip4/1.2.3.4/udp/5/quic-v1/p2p/{PEER}/p2p-circuit/p2p/{PEER}");
    let a = addr(&relayed);
    assert_eq!(a.parts.len(), 6);
    assert!(matches!(a.parts[4], Protocol::P2pCircuit));
    assert_eq!(a.text().unwrap(), relayed);
    for text in ["1.2.3.4", "/ip4/1.2.3", "/ip4/1.2.3.4/udp", "/nothing/1", "/ip4/1.2.3.4/udp/65536"] {
        assert!(Multiaddr::parse(text).is_none());
    }
    let broken = Multiaddr { parts: vec![Protocol::Other(vec![0xff, 0xff, 0x7f, 1])] };
    assert!(broken.text().is_none());
}

#[test]
fn public_and_set_aside_addresses() {
    for (a, b, c) in [
        (0, 1, 3), (10, 0, 3), (10, 255, 3), (100, 64, 3), (100, 127, 3), (127, 0, 3), (169, 254, 3), (172, 16, 3),
        (172, 31, 3), (192, 0, 0), (192, 0, 2), (192, 168, 3), (198, 18, 3), (198, 19, 3), (198, 51, 100), (203, 0, 113),
        (224, 0, 3), (240, 1, 3), (255, 255, 255),
    ] {
        assert!(!is_public_ipv4(ip(a, b, c, 4)), "{a}.{b}.{c}");
    }
    for (a, b, c) in [
        (1, 1, 3), (9, 255, 3), (11, 0, 3), (100, 63, 3), (100, 128, 3), (126, 0, 3), (128, 0, 3), (169, 253, 3),
        (172, 15, 3), (172, 32, 3), (192, 0, 1), (192, 0, 3), (192, 1, 3), (192, 2, 1), (192, 2, 2), (192, 3, 3),
        (192, 167, 3), (198, 17, 3), (198, 20, 3), (198, 50, 3), (198, 51, 99), (198, 51, 101), (203, 0, 112),
        (203, 0, 114), (203, 1, 113), (223, 255, 3), (47, 122, 3),
    ] {
        assert!(is_public_ipv4(ip(a, b, c, 4)), "{a}.{b}.{c}");
    }
}

#[test]
fn which_addresses_can_be_dialled_directly() {
    assert!(is_public_udp_quic(&addr("/ip4/47.122.60.162/udp/36826/quic-v1")));
    assert!(is_public_udp_quic(&addr("/ip4/192.2.1.1/udp/4001/quic-v1")));
    assert!(is_public_udp_quic(&addr(&format!("/ip4/47.122.60.162/udp/36826/quic-v1/p2p/{PEER}"))));
    for text in [
        "/ip4/192.168.1.2/udp/36826/quic-v1",
        "/ip4/47.122.60.162/udp/36826",
        "/ip4/47.122.60.162/tcp/36826",
        "/ip6/2001:db8::1/udp/36826/quic-v1",
        "/ip4/47.122.60.162/udp/36826/quic",
        "/ip4/47.122.60.162/quic-v1",
    ] {
        assert!(!is_public_udp_quic(&addr(text)), "{text}");
    }
    let relayed = addr(&format!("/ip4/47.122.60.162/udp/36826/quic-v1/p2p/{PEER}/p2p-circuit"));
    assert!(!is_public_udp_quic(&relayed));
    assert!(goes_through_relay(&relayed));
    assert!(!goes_through_relay(&addr("/ip4/1.2.3.4/udp/1/quic-v1")));
    // the last address counts
    assert!(is_public_udp_quic(&addr("/ip4/10.0.0.1/ip4/1.2.3.4/udp/1/quic-v1")));
    assert!(!is_public_udp_quic(&addr("/ip4/1.2.3.4/udp/1/quic-v1/ip4/10.0.0.1")));
}

#[test]
fn endpoints_and_canonical_forms() {
    let long = addr(&format!("/ip4/10.1.2.3/udp/7/quic-v1/p2p/{PEER}"));
    assert_eq!(udp_ip_port(&long), Some((ip(10, 1, 2, 3), 7)));
    assert_eq!(rebuild_udp_quic(&long).unwrap().text().unwrap(), "/ip4/10.1.2.3/udp/7/quic-v1");
    let canonical = rebuild_udp_quic(&long).unwrap();
    assert!(rebuild_udp_quic(&canonical).unwrap().same(&canonical));
    // without QUIC the endpoint still counts
    assert_eq!(rebuild_udp_quic(&addr("/ip4/10.1.2.3/udp/7")).unwrap().text().unwrap(), "/ip4/10.1.2.3/udp/7/quic-v1");
    // what follows QUIC does not
    let twice = addr("/ip4/1.1.1.1/udp/1/quic-v1/ip4/2.2.2.2/udp/2");
    assert_eq!(udp_ip_port(&twice), Some((ip(1, 1, 1, 1), 1)));
    for text in ["/ip4/1.2.3.4/tcp/1", "/ip6/::1/udp/1/quic-v1", "/quic-v1/ip4/1.2.3.4/udp/1"] {
        assert!(udp_ip_port(&addr(text)).is_none());
        assert!(rebuild_udp_quic(&addr(text)).is_none());
    }
    assert_eq!(udp_quic_text(ip(1, 2, 3, 4), 5), "/ip4/1.2.3.4/udp/5/quic-v1");
}

#[test]
fn where_a_node_listens() {
    assert_eq!(listen_address(0).text().unwrap(), "/ip4/0.0.0.0/udp/0/quic-v1");
    assert_eq!(listen_address(36826).text().unwrap(), "/ip4/0.0.0.0/udp/36826/quic-v1");
}

#[test]
fn addresses_are_compared_by_their_components() {
    let a = addr("/ip4/1.2.3.4/udp/1/quic-v1");
    assert!(a.same(&a.dup()));
    assert!(!a.same(&addr("/ip4/1.2.3.4/udp/2/quic-v1")));
    assert!(!a.same(&addr("/ip4/1.2.3.4/udp/1")));
    assert!(!a.same(&addr("/ip4/1.2.3.5/udp/1/quic-v1")));
    let p = addr(&format!("/p2p/{PEER}"));
    assert!(p.same(&p.dup()));
    assert!(!p.same(&addr("/tcp/5")));
}

#[test]
fn sets_keep_the_order_of_addition() {
    let mut set: KeySet<String> = KeySet::new();
    assert!(set.insert(String::from("b")));
    assert!(set.insert(String::from("a")));
    assert!(!set.insert(String::from("b")));
    assert!(set.insert(String::from("c")));
    assert_eq!(set.len(), 3);
    assert!(set.contains(&String::from("a")));
    assert!(set.remove(&String::from("a")));
    assert!(!set.remove(&String::from("a")));
    assert_eq!((set.get(0).as_str(), set.get(1).as_str()), ("b", "c"));
}
