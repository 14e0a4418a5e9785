use bytes::Bytes;
use coconet::addr::Multiaddr;
use coconet::batch::unpack;
use coconet::dial::{time_since, DialTable, ConnTable, DIAL_COOLDOWN};
use coconet::node::{parse_all, Action, AnnounceMsg, Clock, NodeState, ANNOUNCE_COOLDOWN};
use coconet::peer::{derive_local_peer_id, generate_identity, PeerId};

const PEER: &str = "QmYyQSo1c1Ym7orWxLYvCrM2EmxFTANf8wXmmE7DWjhx5N";
const PUBLIC: &str = "/ip4/47.122.60.162/udp/36826/quic-v1";

fn addr(text: &str) -> Multiaddr {
    Multiaddr::parse(text).expect(text)
}

fn addrs(texts: &[&str]) -> Vec<Multiaddr> {
    texts.iter().map(|t| addr(t)).collect()
}

fn peer(n: u8) -> PeerId {
    PeerId { bytes: vec![0x12, 1, n] }
}

fn at(now: u64) -> Clock {
    Clock { now, unix_secs: 1_700_000_000 }
}

fn node() -> NodeState {
    NodeState::new(derive_local_peer_id(&generate_identity()), 100, 3)
}

fn show(actions: &[Action]) -> Vec<String> {
    actions
        .iter()
        .map(|a| match a {
            Action::Publish(data) => format!("publish {:?}", data.to_vec()),
            Action::SendDirect(p, data) => format!("send {:?} {:?}", p.bytes, data),
            Action::Deliver(data) => format!("deliver {:?}", data.to_vec()),
            Action::Acknowledge => String::from("ack"),
            Action::AddAddress(p, a) => format!("know {:?} {}", p.bytes, a.text().unwrap()),
            Action::Dial(a) => format!("dial {}", a.text().unwrap()),
            Action::AddExternalAddress(a) => format!("external {}", a.text().unwrap()),
            Action::Announce(msg) => format!("announce {} {}", msg.addrs.join(" "), msg.ts),
            Action::BootstrapDht => String::from("bootstrap"),
            Action::CloseConnection(c) => format!("close {c}"),
            Action::MapPort(ip, port) => format!("map {}:{port}", ip.text()),
            Action::Stop => String::from("stop"),
        })
        .collect()
}

fn packets(actions: &[Action]) -> Vec<Vec<u8>> {
    let mut out = Vec::new();
    for a in actions {
        if let Action::Publish(data) = a {
            out.extend(unpack(data.to_vec()).iter().map(|p| p.to_vec()));
        }
    }
    out
}

#[test]
fn packets_wait_for_the_next_tick() {
    let mut n = node();
    assert!(n.on_tick().is_empty());
    assert!(n.on_tun_packet(Bytes::from_static(b"ab")).is_empty());
    assert!(n.on_tun_packet(Bytes::from_static(b"c")).is_empty());
    let out = n.on_tick();
    assert_eq!(show(&out), vec!["publish [67, 79, 1, 0, 2, 0, 2, 97, 98, 0, 1, 99]"]);
    assert!(n.on_tick().is_empty());
}

#[test]
fn a_full_batch_is_sent_first() {
    let mut n = node();
    for i in 0..3u8 {
        assert!(n.on_tun_packet(Bytes::copy_from_slice(&[i])).is_empty());
    }
    let out = n.on_tun_packet(Bytes::copy_from_slice(&[3]));
    assert_eq!(packets(&out), vec![vec![0], vec![1], vec![2]]);
    assert_eq!(packets(&n.on_tick()), vec![vec![3]]);
    // by size: 2 + 46 waits, another 48 + 2 would reach 100
    assert!(n.on_tun_packet(Bytes::from(vec![1; 46])).is_empty());
    assert_eq!(packets(&n.on_tun_packet(Bytes::from(vec![2; 50]))), vec![vec![1; 46]]);
    assert_eq!(packets(&n.on_tick()), vec![vec![2; 50]]);
    assert!(n.on_tun_packet(Bytes::from(vec![1; 46])).is_empty());
    assert!(n.on_tun_packet(Bytes::from(vec![2; 49])).is_empty());
}

#[test]
fn a_large_packet_goes_out_by_itself() {
    let mut n = node();
    assert!(n.on_tun_packet(Bytes::from_static(b"ab")).is_empty());
    let out = n.on_tun_packet(Bytes::from(vec![7; 51]));
    assert_eq!(out.len(), 2);
    assert_eq!(packets(&out), vec![b"ab".to_vec(), vec![7; 51]]);
    assert!(n.on_tick().is_empty());
}

#[test]
fn the_end_of_the_interface_stops_the_node() {
    let mut n = node();
    assert_eq!(show(&n.on_tun_closed()), vec!["stop"]);
    n.on_tun_packet(Bytes::from_static(b"x"));
    assert_eq!(show(&n.on_tun_closed()), vec!["publish [67, 79, 1, 0, 1, 0, 1, 120]", "stop"]);
}

#[test]
fn direct_peers_are_served_directly() {
    let mut n = node();
    assert!(!n.is_direct(&peer(1)));
    n.on_connection(&peer(1), 10, &addr(PUBLIC), at(0));
    assert!(n.is_direct(&peer(1)) && !n.is_direct(&peer(2)));
    n.on_connection(&peer(2), 11, &addr(PUBLIC), at(0));
    n.on_connection(&peer(1), 12, &addr(PUBLIC), at(0));
    n.on_tun_packet(Bytes::from_static(b"x"));
    assert_eq!(
        show(&n.on_tick()),
        vec!["send [18, 1, 1] [67, 79, 1, 0, 1, 0, 1, 120]", "send [18, 1, 2] [67, 79, 1, 0, 1, 0, 1, 120]"]
    );
    // a large packet still goes to the mesh
    assert_eq!(show(&n.on_tun_packet(Bytes::from(vec![7; 51]))).len(), 1);
}

#[test]
fn messages_are_unpacked() {
    let local = derive_local_peer_id(&generate_identity());
    let n = NodeState::new(local.clone(), 100, 3);
    let batch = b"CO\x01\x00\x02\x00\x01a\x00\x01b".to_vec();
    assert_eq!(show(&n.on_gossip_data(None, batch.clone())), vec!["deliver [97]", "deliver [98]"]);
    assert_eq!(show(&n.on_gossip_data(Some(peer(1)), b"xy".to_vec())), vec!["deliver [120, 121]"]);
    assert!(n.on_gossip_data(Some(local), batch.clone()).is_empty());
    assert_eq!(show(&n.on_data_request(batch)), vec!["deliver [97]", "deliver [98]", "ack"]);
}

#[test]
fn a_direct_connection_replaces_those_through_a_relay() {
    let mut n = node();
    let relayed = addr(&format!("{PUBLIC}/p2p/{PEER}/p2p-circuit"));
    assert!(n.on_connection(&peer(1), 1, &relayed, at(0)).is_empty());
    assert!(n.on_connection(&peer(2), 2, &relayed, at(0)).is_empty());
    assert!(n.on_connection(&peer(1), 3, &relayed, at(0)).is_empty());
    assert_eq!(show(&n.on_connection(&peer(1), 4, &addr(PUBLIC), at(0))), vec!["close 1", "close 3"]);
    assert!(n.on_connection(&peer(1), 5, &addr(PUBLIC), at(0)).is_empty());
    assert_eq!(show(&n.on_connection(&peer(1), 6, &relayed, at(0))), vec!["close 6"]);
    assert_eq!(show(&n.on_connection(&peer(2), 7, &addr(PUBLIC), at(0))), vec!["close 2"]);
}

#[test]
fn identified_peers_are_dialled() {
    let mut n = node();
    let relayed = format!("{PUBLIC}/p2p/{PEER}/p2p-circuit");
    let listen = addrs(&["/ip4/192.168.1.2/udp/5/quic-v1", &relayed, &format!("{PUBLIC}/p2p/{PEER}"), PUBLIC]);
    let seen = addr("/ip4/9.9.9.9/udp/9/quic-v1");
    let know = |a: &str| format!("know [18, 1, 1] {a}");
    let mut expected = vec![
        know("/ip4/192.168.1.2/udp/5/quic-v1"),
        know(&relayed),
        format!("dial {relayed}"),
        know(&format!("{PUBLIC}/p2p/{PEER}")),
        format!("dial {PUBLIC}"),
        know(PUBLIC),
        String::from("external /ip4/9.9.9.9/udp/9/quic-v1"),
        String::from("bootstrap"),
    ];
    assert_eq!(show(&n.on_identify(&peer(1), &listen, &seen, at(0))), expected);
    // within the cooldown nothing is dialled again
    n.bootstrap_started();
    let rest: Vec<String> =
        expected.iter().filter(|e| !e.starts_with("dial") && *e != "bootstrap").cloned().collect();
    assert_eq!(show(&n.on_identify(&peer(1), &listen, &seen, at(DIAL_COOLDOWN - 1))), rest);
    // after it, everything is
    expected.pop();
    assert_eq!(show(&n.on_identify(&peer(1), &listen, &seen, at(DIAL_COOLDOWN))), expected);
    // another peer has a cooldown of its own
    let out = show(&n.on_identify(&peer(2), &listen, &seen, at(DIAL_COOLDOWN)));
    assert_eq!(out.iter().filter(|e| e.starts_with("dial")).count(), 2);
    // with a direct connection nothing is dialled
    n.on_connection(&peer(1), 4, &addr(PUBLIC), at(DIAL_COOLDOWN));
    assert_eq!(show(&n.on_identify(&peer(1), &listen, &seen, at(10 * DIAL_COOLDOWN))), rest);
}

#[test]
fn neighbours_are_dialled_at_private_addresses() {
    let found = vec![
        (peer(1), addr(&format!("/ip4/192.168.1.2/udp/5/quic-v1/p2p/{PEER}"))),
        (peer(2), addr("/ip4/192.168.1.3/tcp/80")),
    ];
    assert_eq!(
        show(&NodeState::on_mdns_discovered(&found)),
        vec![
            format!("know [18, 1, 1] /ip4/192.168.1.2/udp/5/quic-v1/p2p/{PEER}"),
            String::from("dial /ip4/192.168.1.2/udp/5/quic-v1"),
            String::from("know [18, 1, 2] /ip4/192.168.1.3/tcp/80"),
            String::from("dial /ip4/192.168.1.3/tcp/80"),
        ]
    );
}

#[test]
fn a_node_announces_its_public_addresses() {
    let mut n = node();
    assert!(n.on_reachability_change(at(0)).is_empty());
    let private = "/ip4/192.168.1.2/udp/5/quic-v1";
    assert_eq!(
        show(&n.on_listen_address(&addr(private), at(0))),
        vec![format!("external {private}"), String::from("map 192.168.1.2:5")]
    );
    let said = format!("announce {PUBLIC} 1700000000");
    assert_eq!(show(&n.on_external_address(&addr(&format!("{PUBLIC}/p2p/{PEER}")), at(0))), vec![said.clone()]);
    // not published: it is tried again, and the address is kept once
    assert_eq!(show(&n.on_external_address(&addr(PUBLIC), at(1))), vec![said.clone()]);
    assert_eq!(show(&n.on_connection(&peer(1), 1, &addr(PUBLIC), at(1))), vec![said.clone()]);
    assert!(n.on_connection(&peer(2), 2, &addr(PUBLIC), at(1)).is_empty());
    n.announce_published(5);
    assert!(n.on_reachability_change(at(4 + ANNOUNCE_COOLDOWN)).is_empty());
    assert_eq!(show(&n.on_reachability_change(at(5 + ANNOUNCE_COOLDOWN))), vec![said]);
    assert_eq!(
        show(&n.on_listen_address(&addr("/ip4/8.8.8.8/udp/1/quic-v1"), at(5 + ANNOUNCE_COOLDOWN))),
        vec![
            String::from("external /ip4/8.8.8.8/udp/1/quic-v1"),
            format!("announce {PUBLIC} /ip4/8.8.8.8/udp/1/quic-v1 1700000000"),
            String::from("map 8.8.8.8:1"),
        ]
    );
    assert_eq!(show(&n.on_listen_address(&addr("/ip4/1.1.1.1/tcp/1"), at(6))), vec!["external /ip4/1.1.1.1/tcp/1"]);
}

#[test]
fn an_announced_node_is_dialled() {
    let sender_id = derive_local_peer_id(&generate_identity());
    let mut sender = NodeState::new(sender_id.clone(), 100, 3);
    let out = sender.on_external_address(&addr(PUBLIC), at(0));
    let msg = match &out[0] {
        Action::Announce(msg) => msg.clone(),
        _ => panic!("no announcement"),
    };
    assert_eq!(msg.peer, sender_id.text().unwrap());
    let mut receiver = node();
    let out = receiver.on_announcement(None, msg.clone(), 7);
    assert_eq!(
        show(&out),
        vec![format!("know {:?} {PUBLIC}", sender_id.bytes), format!("dial {PUBLIC}")]
    );
    assert!(receiver.on_announcement(None, msg.clone(), 8).is_empty());
    assert_eq!(receiver.on_announcement(Some(peer(9)), msg.clone(), 7 + DIAL_COOLDOWN).len(), 2);
    // the sender does not dial itself
    assert!(sender.on_announcement(None, msg.clone(), 7).is_empty());
    assert!(sender.on_announcement(Some(sender_id), msg, 7).is_empty());
}

#[test]
fn announcements_are_read_with_care() {
    let mut n = node();
    let addrs = ["bad", "/ip4/10.0.0.1/udp/1/quic-v1", PUBLIC, "/ip4/1.2.3.4/tcp/1"];
    let msg = AnnounceMsg { peer: PEER.to_string(), addrs: addrs.iter().map(|a| a.to_string()).collect(), ts: 0 };
    let id = PeerId::parse(PEER).unwrap();
    assert_eq!(
        show(&n.on_announcement(None, msg.clone(), 0)),
        vec![format!("know {:?} {PUBLIC}", id.bytes), format!("dial {PUBLIC}")]
    );
    let nobody = AnnounceMsg { peer: String::from("nobody"), ..msg };
    assert!(n.on_announcement(None, nobody, 0).is_empty());
    assert!(n.dial_announced(&id, &vec![addr(PUBLIC)], 1).is_empty());
    assert_eq!(n.dial_announced(&peer(3), &vec![addr(PUBLIC)], 1).len(), 2);
}

#[test]
fn bootstrap_addresses_that_parse() {
    let texts = vec![PUBLIC.to_string(), String::from("bad"), String::from("/ip4/1.2.3.4/tcp/1")];
    let parsed: Vec<String> = parse_all(&texts).iter().map(|a| a.text().unwrap()).collect();
    assert_eq!(parsed, vec![PUBLIC, "/ip4/1.2.3.4/tcp/1"]);
}

#[test]
fn tables_of_dials_and_relays() {
    assert_eq!(time_since(7, 3), 4);
    assert_eq!(time_since(3, 7), 0);
    let mut dials = DialTable::new();
    assert!(dials.try_dial(&peer(1), &addr(PUBLIC), 0));
    assert!(!dials.try_dial(&peer(1), &addr(PUBLIC), DIAL_COOLDOWN - 1));
    assert!(dials.try_dial(&peer(2), &addr(PUBLIC), 1));
    dials.expire(&peer(1), DIAL_COOLDOWN);
    assert!(dials.try_dial(&peer(1), &addr(PUBLIC), 1));
    assert!(!dials.try_dial(&peer(2), &addr(PUBLIC), DIAL_COOLDOWN));
    let mut relays = ConnTable::new();
    relays.push(peer(1), 1);
    relays.push(peer(2), 2);
    relays.push(peer(1), 3);
    assert_eq!(relays.take_peer(&peer(1)), vec![1, 3]);
    assert!(relays.take_peer(&peer(1)).is_empty());
    relays.push(peer(2), 4);
    relays.push(peer(3), 4);
    relays.remove(&peer(2), 4);
    assert!(relays.has(&peer(2)) && relays.has(&peer(3)) && !relays.has(&peer(1)));
    assert_eq!(relays.take_peer(&peer(2)), vec![2]);
    assert!(!relays.has(&peer(2)));
}

#[test]
fn a_stream_arrives_whole_and_in_order() {
    let mut n = node();
    let mut sent = Vec::new();
    let mut got = Vec::new();
    for i in 0..60usize {
        let pkt = vec![i as u8; (i * 7) % 64];
        got.extend(packets(&n.on_tun_packet(Bytes::from(pkt.clone()))));
        sent.push(pkt);
    }
    got.extend(packets(&n.on_tick()));
    assert_eq!(got, sent);
}

#[test]
fn an_announced_address_also_rests_for_identification() {
    let mut n = node();
    let id = PeerId::parse(PEER).unwrap();
    assert_eq!(n.dial_announced(&id, &vec![addr(PUBLIC)], 0).len(), 2);
    let seen = addr("/ip4/9.9.9.9/udp/9/quic-v1");
    n.on_identify(&peer(1), &vec![addr(PUBLIC)], &seen, at(5));
    let out = n.on_identify(&id, &vec![addr(PUBLIC)], &seen, at(DIAL_COOLDOWN - 1));
    assert!(!show(&out).iter().any(|e| e.starts_with("dial")));
    let out = n.on_identify(&id, &vec![addr(PUBLIC)], &seen, at(DIAL_COOLDOWN));
    assert!(show(&out).iter().any(|e| e.starts_with("dial")));
}

#[test]
fn the_relay_is_the_fallback() {
    let mut n = node();
    let relayed = addr(&format!("{PUBLIC}/p2p/{PEER}/p2p-circuit"));
    let seen = addr("/ip4/9.9.9.9/udp/9/quic-v1");
    n.on_connection(&peer(1), 1, &addr(PUBLIC), at(0));
    n.on_connection(&peer(1), 2, &addr(PUBLIC), at(0));
    // one of two direct connections goes: nothing changes
    n.on_connection_closed(&peer(1), 1);
    assert!(n.is_direct(&peer(1)));
    assert_eq!(show(&n.on_connection(&peer(1), 3, &relayed, at(0))), vec!["close 3"]);
    n.on_connection_closed(&peer(1), 3);
    // another peer's connection of the same number is another one
    n.on_connection_closed(&peer(2), 2);
    assert!(n.is_direct(&peer(1)));
    // the last one goes
    n.on_connection_closed(&peer(1), 2);
    assert!(!n.is_direct(&peer(1)));
    assert!(n.on_connection(&peer(1), 4, &relayed, at(0)).is_empty());
    let out = show(&n.on_identify(&peer(1), &vec![addr(PUBLIC), relayed], &seen, at(0)));
    assert_eq!(out.iter().filter(|e| e.starts_with("dial")).count(), 2);
    n.on_tun_packet(Bytes::from_static(b"x"));
    assert_eq!(show(&n.on_tick()), vec!["publish [67, 79, 1, 0, 1, 0, 1, 120]"]);
    // and a direct connection takes over again
    assert_eq!(show(&n.on_connection(&peer(1), 5, &addr(PUBLIC), at(0))), vec!["close 4"]);
    assert!(n.is_direct(&peer(1)));
}

#[test]
fn a_relay_connection_stays_on_record_until_it_is_replaced() {
    let mut n = node();
    let relayed = addr(&format!("{PUBLIC}/p2p/{PEER}/p2p-circuit"));
    n.on_connection(&peer(1), 1, &relayed, at(0));
    n.on_connection(&peer(1), 2, &relayed, at(0));
    n.on_connection_closed(&peer(1), 1);
    assert_eq!(show(&n.on_connection(&peer(1), 3, &addr(PUBLIC), at(0))), vec!["close 1", "close 2"]);
    assert!(n.on_connection(&peer(1), 4, &addr(PUBLIC), at(0)).is_empty());
}

#[test]
fn an_address_is_dialled_once_per_cooldown() {
    let mut n = node();
    let id = PeerId::parse(PEER).unwrap();
    let seen = addr("/ip4/9.9.9.9/udp/9/quic-v1");
    let target = format!("dial {PUBLIC}");
    let mut times: Vec<u64> = Vec::new();
    for step in 0..40u64 {
        let now = step * (DIAL_COOLDOWN / 7);
        let listen = vec![addr(PUBLIC), addr(&format!("{PUBLIC}/p2p/{PEER}"))];
        let out = if step % 2 == 0 {
            n.on_identify(&id, &listen, &seen, at(now))
        } else {
            n.dial_announced(&id, &vec![addr(PUBLIC), addr(PUBLIC)], now)
        };
        for _ in show(&out).iter().filter(|e| **e == target) {
            times.push(now);
        }
    }
    assert!(times.len() >= 5);
    assert!(times.windows(2).all(|w| w[1] - w[0] >= DIAL_COOLDOWN));
}

#[test]
fn a_public_address_near_a_reserved_network_is_dialled() {
    let mut n = node();
    let near = "/ip4/192.2.1.1/udp/4001/quic-v1";
    let msg = AnnounceMsg { peer: PEER.to_string(), addrs: vec![near.to_string()], ts: 0 };
    assert_eq!(show(&n.on_announcement(None, msg, 0))[1], format!("dial {near}"));
}
