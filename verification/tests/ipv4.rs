use coconet::ipv4::{ipv4_checksum, ipv4_fragment_if_needed};

fn packet(header_len: usize, payload_len: usize, flags: u8) -> Vec<u8> {
    let total = header_len + payload_len;
    let mut pkt = vec![0u8; total];
    pkt[0] = 0x40 | (header_len / 4) as u8;
    pkt[1] = 0x10;
    pkt[2] = (total >> 8) as u8;
    pkt[3] = total as u8;
    pkt[4] = 0x12;
    pkt[5] = 0x34;
    pkt[6] = flags;
    pkt[8] = 64;
    pkt[9] = 17;
    pkt[12] = 10;
    pkt[13] = 99;
    pkt[15] = 1;
    pkt[16] = 10;
    pkt[17] = 99;
    pkt[19] = 2;
    for i in 20..header_len {
        pkt[i] = 0xa0 + (i - 20) as u8;
    }
    for i in 0..payload_len {
        pkt[header_len + i] = i as u8;
    }
    pkt
}

fn header_sum(header: &[u8]) -> u32 {
    let mut sum: u32 = 0;
    for pair in header.chunks(2) {
        sum += (pair[0] as u32) << 8 | pair[1] as u32;
    }
    while sum >> 16 != 0 {
        sum = (sum & 0xffff) + (sum >> 16);
    }
    sum
}

#[test]
fn checksum_of_a_known_header() {
    let mut h = vec![
        0x45u8, 0x00, 0x00, 0x73, 0x00, 0x00, 0x40, 0x00, 0x40, 0x11, 0xb8, 0x61, 0xc0, 0xa8, 0x00, 0x01, 0xc0, 0xa8,
        0x00, 0xc7,
    ];
    assert_eq!(ipv4_checksum(&mut h), 0xb861);
    assert_eq!(&h[10..12], &[0, 0]);
    assert_eq!(&h[12..], &[0xc0, 0xa8, 0x00, 0x01, 0xc0, 0xa8, 0x00, 0xc7]);
}

#[test]
fn checksum_of_an_odd_length_pads_with_zero() {
    let mut odd = vec![0u8; 13];
    odd[12] = 0x12;
    assert_eq!(ipv4_checksum(&mut odd), !0x1200);
    assert_eq!(ipv4_checksum(&mut vec![0u8; 12]), 0xffff);
}

#[test]
fn checksum_makes_the_header_valid() {
    let mut h = packet(28, 0, 0);
    let sum = ipv4_checksum(&mut h);
    h[10] = (sum >> 8) as u8;
    h[11] = sum as u8;
    assert_eq!(header_sum(&h), 0xffff);
}

#[test]
fn a_long_packet_is_cut_at_multiples_of_eight() {
    let mut pkt = packet(20, 30, 0);
    pkt[1] = 0;
    let frags = ipv4_fragment_if_needed(&pkt, 39, false).expect("fragments");
    assert_eq!(frags.len(), 2);
    assert_eq!(&frags[0][..10], &[0x45, 0, 0, 36, 0x12, 0x34, 0x20, 0, 64, 17]);
    assert_eq!(&frags[1][..10], &[0x45, 0, 0, 34, 0x12, 0x34, 0, 2, 64, 17]);
    assert_eq!(&frags[0][10..12], &[0x33, 0xcd]);
    assert_eq!(&frags[1][10..12], &[0x53, 0xcd]);
    assert_eq!(&frags[0][12..20], &pkt[12..20]);
    assert_eq!(&frags[0][20..], &pkt[20..36]);
    assert_eq!(&frags[1][20..], &pkt[36..50]);
}

#[test]
fn fragments_carry_the_payload_and_fit() {
    let pkt = packet(28, 3000, 0);
    let frags = ipv4_fragment_if_needed(&pkt, 1300, true).expect("fragments");
    assert_eq!(frags.len(), 3);
    let mut joined: Vec<u8> = Vec::new();
    for (k, f) in frags.iter().enumerate() {
        assert!(f.len() <= 1300);
        assert_eq!(f[0], 0x47);
        assert_eq!(f[1], 0x10);
        if k == 0 {
            assert_eq!(&f[20..28], &pkt[20..28]);
        }
        assert_eq!((f[2] as usize) << 8 | f[3] as usize, f.len());
        let field = (f[6] as usize) << 8 | f[7] as usize;
        assert_eq!(field & 0x1fff, joined.len() / 8);
        assert_eq!(field & 0x2000 != 0, k < 2);
        assert_eq!(header_sum(&f[..28]), 0xffff);
        joined.extend_from_slice(&f[28..]);
        assert!(ipv4_fragment_if_needed(f, 1300, false).is_none());
    }
    assert_eq!(joined, &pkt[28..]);
}

#[test]
fn the_dont_fragment_flag_counts_where_it_is_respected() {
    let pkt = packet(20, 100, 0x40);
    assert!(ipv4_fragment_if_needed(&pkt, 60, true).is_none());
    let frags = ipv4_fragment_if_needed(&pkt, 60, false).expect("fragments");
    assert_eq!(frags.len(), 3);
    assert_eq!(frags[0][6], 0x20);
    assert_eq!(frags[2][6], 0);
}

#[test]
fn packets_that_are_left_alone() {
    let fits = packet(20, 40, 0);
    assert!(ipv4_fragment_if_needed(&fits, 60, false).is_none());
    assert!(ipv4_fragment_if_needed(&fits, 59, false).is_some());
    // no room for eight bytes
    assert!(ipv4_fragment_if_needed(&fits, 27, false).is_none());
    assert!(ipv4_fragment_if_needed(&fits, 28, false).is_some());
    assert!(ipv4_fragment_if_needed(&fits, 20, false).is_none());
    assert!(ipv4_fragment_if_needed(&fits, 0, false).is_none());
    // not IPv4
    let mut other = packet(20, 40, 0);
    other[0] = 0x65;
    assert!(ipv4_fragment_if_needed(&other, 40, false).is_none());
    // a header shorter than the least, or longer than the packet
    let mut bad = packet(20, 4, 0);
    bad[0] = 0x44;
    assert!(ipv4_fragment_if_needed(&bad, 10, false).is_none());
    bad[0] = 0x4f;
    assert!(ipv4_fragment_if_needed(&bad, 10, false).is_none());
    // header only, and a declared length without payload
    assert!(ipv4_fragment_if_needed(&packet(20, 0, 0), 10, false).is_none());
    let mut empty = packet(20, 40, 0);
    empty[3] = 20;
    assert!(ipv4_fragment_if_needed(&empty, 40, false).is_none());
}

#[test]
fn the_declared_length_bounds_the_payload() {
    let mut pkt = packet(20, 40, 0);
    pkt[3] = 30;
    let short = ipv4_fragment_if_needed(&pkt, 40, false).expect("fragments");
    assert_eq!(short.len(), 1);
    assert_eq!(&short[0][20..], &pkt[20..30]);
    assert_eq!(short[0][6], 0);
    pkt[3] = 200;
    let long = ipv4_fragment_if_needed(&pkt, 40, false).expect("fragments");
    assert_eq!(long.len(), 3);
    assert_eq!(&long[2][20..], &pkt[52..60]);
}

#[test]
fn a_fragment_that_is_cut_again_keeps_its_place() {
    // more fragments follow: every piece says so
    let mut pkt = packet(20, 40, 0x20);
    pkt[7] = 5;
    let frags = ipv4_fragment_if_needed(&pkt, 44, false).expect("fragments");
    assert_eq!(frags.len(), 2);
    assert_eq!(&frags[0][6..8], &[0x20, 5]);
    assert_eq!(&frags[1][6..8], &[0x20, 8]);
    // the last fragment: its last piece is the last
    let mut pkt = packet(20, 40, 0x01);
    pkt[7] = 0xff;
    let frags = ipv4_fragment_if_needed(&pkt, 44, false).expect("fragments");
    assert_eq!(&frags[0][6..8], &[0x21, 0xff]);
    assert_eq!(&frags[1][6..8], &[0x02, 0x02]);
    assert_eq!(header_sum(&frags[1][..20]), 0xffff);
    // an offset beyond the field wraps around
    let mut pkt = packet(20, 40, 0x1f);
    pkt[7] = 0xfe;
    let frags = ipv4_fragment_if_needed(&pkt, 44, false).expect("fragments");
    assert_eq!(&frags[0][6..8], &[0x3f, 0xfe]);
    assert_eq!(&frags[1][6..8], &[0x00, 0x01]);
}

#[test]
fn cutting_twice_keeps_every_byte_in_its_place() {
    let pkt = packet(20, 1000, 0);
    let mut whole = vec![0u8; 1000];
    let mut last = 0;
    for f in ipv4_fragment_if_needed(&pkt, 500, false).expect("fragments") {
        for g in ipv4_fragment_if_needed(&f, 100, false).unwrap_or(vec![f]) {
            let field = (g[6] as usize) << 8 | g[7] as usize;
            let at = (field & 0x1fff) * 8;
            whole[at..at + g.len() - 20].copy_from_slice(&g[20..]);
            if field & 0x2000 == 0 {
                last += 1;
                assert_eq!(at + g.len() - 20, 1000);
            }
        }
    }
    assert_eq!(last, 1);
    assert_eq!(whole, &pkt[20..]);
}

#[test]
fn later_fragments_have_the_options_with_the_copied_flag() {
    let mut pkt = packet(36, 100, 0);
    // no operation, a timestamp that stays with the first, a copied option, the end of the list
    let options = [1, 68, 4, 5, 0, 131, 7, 4, 9, 8, 7, 6, 0, 68, 4, 2];
    let later = [1, 1, 1, 1, 1, 131, 7, 4, 9, 8, 7, 6, 0, 68, 4, 2];
    pkt[20..36].copy_from_slice(&options);
    let frags = ipv4_fragment_if_needed(&pkt, 84, false).expect("fragments");
    assert_eq!(frags.len(), 3);
    assert_eq!(&frags[0][20..36], &options);
    for f in &frags[1..] {
        assert_eq!(&f[20..36], &later);
        assert_eq!(header_sum(&f[..36]), 0xffff);
    }
    // what a later fragment has, its own fragments have
    for f in ipv4_fragment_if_needed(&frags[1], 52, false).expect("fragments") {
        assert_eq!(&f[20..36], &later);
    }
    // an option that is not inside the area: it and what follows stay
    let mut bad = packet(28, 100, 0);
    bad[20..28].copy_from_slice(&[7, 3, 4, 68, 9, 0, 0, 0]);
    let frags = ipv4_fragment_if_needed(&bad, 84, false).expect("fragments");
    assert_eq!(&frags[1][20..28], &[1, 1, 1, 68, 9, 0, 0, 0]);
    bad[20..28].copy_from_slice(&[7, 1, 4, 68, 2, 0, 0, 0]);
    let frags = ipv4_fragment_if_needed(&bad, 84, false).expect("fragments");
    assert_eq!(&frags[1][20..28], &bad[20..28]);
}
