use coconet::addr::Ipv4Addr;
use coconet::ipam::{
    cidr_text, derive_ip_from_peerid, host_from_hash, interface_address, whoami_line, IpamError, Ipv4Net,
};
use coconet::peer::{derive_local_peer_id, generate_identity, PeerId};

fn net(a: u8, b: u8, c: u8, d: u8, prefix: u8) -> Ipv4Net {
    Ipv4Net { addr: Ipv4Addr { a, b, c, d }.to_u32(), prefix }
}

#[test]
fn networks_are_parsed() {
    assert_eq!(Ipv4Net::parse("10.99.0.0/16").unwrap(), net(10, 99, 0, 0, 16));
    assert_eq!(Ipv4Net::parse("10.99.7.1/255.255.255.0").unwrap(), net(10, 99, 7, 1, 24));
    assert_eq!(Ipv4Net::parse("1.2.3.4").unwrap(), net(1, 2, 3, 4, 32));
    assert_eq!(Ipv4Net::parse("1.2.3.4/33").unwrap_err(), "invalid prefix");
    assert_eq!(Ipv4Net::parse("fd00::/64").unwrap_err(), "invalid address: fd00::");
}

#[test]
fn bounds_of_a_network() {
    for prefix in 0..33u8 {
        let n = net(10, 99, 37, 200, prefix);
        let theirs = format!("10.99.37.200/{prefix}").parse::<ipnetwork::Ipv4Network>().unwrap();
        assert_eq!(n.network(), u32::from(theirs.network()));
        assert_eq!(n.broadcast(), u32::from(theirs.broadcast()));
        assert_eq!(n.mask(), u32::from(theirs.mask()));
        assert_eq!(n.size(), 1u64 << (32 - prefix));
    }
}

#[test]
fn a_hash_selects_a_host() {
    assert_eq!(host_from_hash(net(10, 99, 0, 0, 16), 0).unwrap().text(), "10.99.0.1");
    assert_eq!(host_from_hash(net(10, 99, 0, 0, 16), 65533).unwrap().text(), "10.99.255.254");
    assert_eq!(host_from_hash(net(10, 99, 0, 0, 16), 65534).unwrap().text(), "10.99.0.1");
    assert_eq!(host_from_hash(net(192, 168, 1, 7, 30), 0x1_0000_0001).unwrap().text(), "192.168.1.6");
    assert_eq!(host_from_hash(net(1, 2, 3, 4, 0), 0xffff_fffd).unwrap().text(), "255.255.255.254");
}

#[test]
fn derived_addresses_are_hosts_of_the_network() {
    for prefix in 0..31u8 {
        let n = net(172, 16, 5, 9, prefix);
        for hash in [0u64, 1, 2, 0xffff_ffff, 0x1234_5678_9abc_def0, u64::MAX] {
            let ip = host_from_hash(n, hash).unwrap().to_u32();
            assert!(n.network() < ip && ip < n.broadcast());
        }
    }
}

#[test]
fn small_networks_have_no_hosts() {
    assert!(matches!(host_from_hash(net(10, 0, 0, 0, 31), 5), Err(IpamError::TooSmall)));
    let peer = PeerId { bytes: vec![1, 2, 3] };
    for cidr in ["10.0.0.0/31", "10.0.0.0/32", "10.0.0.0"] {
        let e = derive_ip_from_peerid(cidr, &peer).unwrap_err();
        assert_eq!(e.message(), "CIDR too small for host allocation (/31 or /32)");
    }
}

#[test]
fn what_is_no_network_is_refused() {
    let peer = PeerId { bytes: vec![1, 2, 3] };
    let e = derive_ip_from_peerid("10.0.0.0/x", &peer).unwrap_err();
    assert_eq!(e.message(), "invalid CIDR: invalid prefix");
    let e = interface_address("10.0.0/8", Ipv4Addr { a: 1, b: 2, c: 3, d: 4 }).unwrap_err();
    assert_eq!(e.message(), "invalid CIDR: invalid address: 10.0.0");
}

#[test]
fn the_address_of_a_peer_is_derived_from_its_identifier() {
    // the hash of no bytes is 0x2d06800538d394c2
    let nobody = PeerId { bytes: Vec::new() };
    assert_eq!(derive_ip_from_peerid("10.99.0.0/16", &nobody).unwrap().text(), "10.99.6.107");
    let text = "QmYyQSo1c1Ym7orWxLYvCrM2EmxFTANf8wXmmE7DWjhx5N";
    let peer = PeerId::parse(text).unwrap();
    let hash = xxhash_rust::xxh3::xxh3_64(&peer.bytes);
    let ip = derive_ip_from_peerid("10.99.0.0/16", &peer).unwrap();
    assert_eq!(ip, host_from_hash(net(10, 99, 0, 0, 16), hash).unwrap());
    assert_eq!(ip, derive_ip_from_peerid("10.99.0.0/16", &peer).unwrap());
}

#[test]
fn addresses_are_written_with_their_prefix() {
    let ip = Ipv4Addr { a: 10, b: 99, c: 0, d: 42 };
    assert_eq!(cidr_text(ip, 16), "10.99.0.42/16");
    assert_eq!(interface_address("10.99.0.0/16", ip).unwrap(), "10.99.0.42/16");
    assert_eq!(Ipv4Net::parse(&cidr_text(ip, 16)).unwrap(), net(10, 99, 0, 42, 16));
}

#[test]
fn a_node_says_who_it_is() {
    let ip = Ipv4Addr { a: 10, b: 99, c: 0, d: 42 };
    assert_eq!(whoami_line("12D3Koo", ip), "peer_id=12D3Koo ip=10.99.0.42");
    let peer = derive_local_peer_id(&generate_identity());
    let ip = derive_ip_from_peerid("10.99.0.0/16", &peer).unwrap();
    assert_eq!((ip.a, ip.b), (10, 99));
}
