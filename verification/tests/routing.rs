use coconet::routing::{downlink, parse_ip_meta, ports_of, uplink, HostRoutes, Uplink};

fn ipv4(len: usize, flags: u8) -> Vec<u8> {
    let mut pkt = vec![0u8; len];
    pkt[0] = 0x45;
    pkt[2] = (len >> 8) as u8;
    pkt[3] = len as u8;
    pkt[6] = flags;
    pkt[9] = 6;
    pkt[12..20].copy_from_slice(&[10, 99, 0, 1, 10, 99, 200, 7]);
    pkt
}

fn ipv6(len: usize) -> Vec<u8> {
    let mut pkt = vec![0u8; len];
    pkt[0] = 0x60;
    pkt[6] = 58;
    pkt[8] = 0xfd;
    pkt[23] = 1;
    pkt[24] = 0xfe;
    pkt[25] = 0x80;
    pkt[39] = 0x42;
    pkt
}

#[test]
fn what_an_ipv4_header_says() {
    let meta = parse_ip_meta(&ipv4(20, 0)).unwrap();
    assert_eq!(meta.src, "10.99.0.1");
    assert_eq!(meta.dst, "10.99.200.7");
    assert_eq!(meta.version, "ipv4");
    assert_eq!(meta.proto, 6);
}

#[test]
fn what_an_ipv6_header_says() {
    let meta = parse_ip_meta(&ipv6(40)).unwrap();
    assert_eq!(meta.src, "fd00::1");
    assert_eq!(meta.dst, "fe80::42");
    assert_eq!(meta.version, "ipv6");
    assert_eq!(meta.proto, 58);
}

#[test]
fn what_is_no_ip_packet() {
    assert!(parse_ip_meta(&[]).is_none());
    assert!(parse_ip_meta(&ipv4(20, 0)[..19]).is_none());
    assert!(parse_ip_meta(&ipv6(40)[..39]).is_none());
    let mut other = ipv4(40, 0);
    other[0] = 0x55;
    assert!(parse_ip_meta(&other).is_none());
}

#[test]
fn reads_from_the_interface_are_forwarded() {
    let mut buf = vec![0u8; 100];
    buf[..20].copy_from_slice(&ipv4(20, 0));
    assert!(matches!(uplink(&buf, 0), Uplink::Closed));
    match uplink(&buf, 20) {
        Uplink::Forward { packet, meta, ports } => {
            assert!(ports.is_none());
            assert_eq!(&packet[..], &buf[..20]);
            assert_eq!(meta.unwrap().dst, "10.99.200.7");
        }
        Uplink::Closed => panic!("closed"),
    }
    match uplink(&buf, 3) {
        Uplink::Forward { packet, meta, .. } => {
            assert_eq!(&packet[..], &buf[..3]);
            assert!(meta.is_none());
        }
        Uplink::Closed => panic!("closed"),
    }
}

#[test]
fn packets_for_the_interface() {
    let long = ipv4(1500, 0);
    let d = downlink(&long, 1400, true);
    assert_eq!(d.meta.unwrap().version, "ipv4");
    let frags = d.fragments.unwrap();
    assert_eq!(frags.len(), 2);
    assert_eq!((frags[0].len(), frags[1].len()), (1396, 124));
    assert!(!d.oversized);
    assert!(downlink(&ipv4(1400, 0), 1400, true).fragments.is_none());
    // the sender forbids it
    assert!(downlink(&ipv4(1500, 0x40), 1400, true).fragments.is_none());
    assert!(downlink(&ipv4(1500, 0x40), 1400, false).fragments.is_some());
}

#[test]
fn long_ipv6_packets_are_reported_and_stay_whole() {
    let d = downlink(&ipv6(1401), 1400, true);
    assert!(d.oversized && d.fragments.is_none());
    let d = downlink(&ipv6(1400), 1400, true);
    assert!(!d.oversized && d.fragments.is_none());
    let mut other = ipv6(1500);
    other[0] = 0;
    let d = downlink(&other, 1400, true);
    assert!(!d.oversized && d.fragments.is_none() && d.meta.is_none());
}

#[test]
fn a_host_gets_its_route_once() {
    let mut routes = HostRoutes::new();
    let meta = parse_ip_meta(&ipv4(20, 0)).unwrap();
    assert_eq!(routes.note(&meta), Some(String::from("10.99.200.7")));
    assert_eq!(routes.note(&meta), None);
    let mut other = ipv4(20, 0);
    other[19] = 8;
    assert_eq!(routes.note(&parse_ip_meta(&other).unwrap()), Some(String::from("10.99.200.8")));
    assert_eq!(routes.note(&parse_ip_meta(&ipv6(40)).unwrap()), None);
}

#[test]
fn ports_of_tcp_and_udp() {
    let mut pkt = ipv4(24, 0);
    pkt[20..24].copy_from_slice(&[0x8f, 0xda, 0x00, 0x35]);
    assert_eq!(ports_of(&pkt), Some((36826, 53)));
    pkt[9] = 17;
    assert_eq!(ports_of(&pkt), Some((36826, 53)));
    assert_eq!(downlink(&pkt, 1400, true).ports, Some((36826, 53)));
    match uplink(&pkt, 24) {
        Uplink::Forward { ports, .. } => assert_eq!(ports, Some((36826, 53))),
        Uplink::Closed => panic!("closed"),
    }
    // cut short
    assert_eq!(ports_of(&pkt[..23]), None);
    // another protocol
    pkt[9] = 1;
    assert_eq!(ports_of(&pkt), None);
    pkt[9] = 6;
    // the first fragment has ports, a later one has none
    pkt[6] = 0x20;
    assert_eq!(ports_of(&pkt), Some((36826, 53)));
    pkt[7] = 1;
    assert_eq!(ports_of(&pkt), None);
    pkt[7] = 0;
    pkt[6] = 0x01;
    assert_eq!(ports_of(&pkt), None);
    pkt[6] = 0x40;
    // options come first
    let mut long = ipv4(28, 0);
    long[0] = 0x46;
    long[24..28].copy_from_slice(&[0, 1, 0, 2]);
    assert_eq!(ports_of(&long), Some((1, 2)));
    long[0] = 0x44;
    assert_eq!(ports_of(&long), None);
    assert_eq!(ports_of(&[]), None);
}

#[test]
fn ports_over_ipv6() {
    let mut pkt = ipv6(44);
    assert_eq!(ports_of(&pkt), None);
    pkt[6] = 17;
    pkt[40..44].copy_from_slice(&[1, 2, 3, 4]);
    assert_eq!(ports_of(&pkt), Some((0x102, 0x304)));
    assert_eq!(ports_of(&pkt[..43]), None);
    pkt[0] = 0x50;
    assert_eq!(ports_of(&pkt), None);
}

#[test]
fn ports_behind_ipv6_extension_headers() {
    // hop-by-hop options, then a routing header of 16 bytes, then TCP
    let mut pkt = ipv6(68);
    pkt[6] = 0;
    pkt[40] = 43;
    pkt[41] = 0;
    pkt[48] = 6;
    pkt[49] = 1;
    pkt[64..68].copy_from_slice(&[1, 2, 3, 4]);
    assert_eq!(ports_of(&pkt), Some((0x102, 0x304)));
    assert_eq!(ports_of(&pkt[..67]), None);
    assert_eq!(ports_of(&pkt[..60]), None);
    assert_eq!(ports_of(&pkt[..45]), None);
    // the protocol behind them counts
    pkt[48] = 58;
    assert_eq!(ports_of(&pkt), None);
    assert_eq!(parse_ip_meta(&pkt).unwrap().proto, 0);
    // a fragment header: the first fragment has ports, a later one has none
    let mut frag = ipv6(52);
    frag[6] = 44;
    frag[40] = 17;
    frag[41] = 0xff;
    frag[43] = 1;
    frag[48..52].copy_from_slice(&[0, 1, 0, 2]);
    assert_eq!(ports_of(&frag), Some((1, 2)));
    frag[43] = 8;
    assert_eq!(ports_of(&frag), None);
    // an authentication header counts words of four bytes
    let mut auth = ipv6(56);
    auth[6] = 51;
    auth[40] = 6;
    auth[41] = 1;
    auth[52..56].copy_from_slice(&[0, 3, 0, 4]);
    assert_eq!(ports_of(&auth), Some((3, 4)));
    auth[41] = 2;
    assert_eq!(ports_of(&auth), None);
}
