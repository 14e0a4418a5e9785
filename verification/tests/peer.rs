use coconet::acl::Acl;
use coconet::config::Config;
use coconet::peer::{derive_local_peer_id, generate_identity, node_identity, peer_id_from, Keypair, PeerId};
use coconet::wire::{copy_bytes, push_be16, push_range, read_be16, read_be32, same_bytes};

const PEER: &str = "QmYyQSo1c1Ym7orWxLYvCrM2EmxFTANf8wXmmE7DWjhx5N";

#[test]
fn identifiers_are_read_and_written() {
    let peer = PeerId::parse(PEER).unwrap();
    assert_eq!(peer.bytes.len(), 34);
    assert_eq!(&peer.bytes[..2], &[0x12, 0x20]);
    assert_eq!(peer.text().unwrap(), PEER);
    for text in ["", "hello", "QmYyQSo1c1Ym7orWxLYvCrM2EmxFTANf8wXmmE7DWjhx5"] {
        assert!(PeerId::parse(text).is_none());
    }
    assert!(PeerId { bytes: vec![0x12, 0x20, 1] }.text().is_none());
}

#[test]
fn an_identity_has_its_peer() {
    let keys = generate_identity();
    let peer = peer_id_from(&keys);
    assert_eq!(peer.bytes.len(), 38);
    assert_eq!(&peer.bytes[..2], &[0x00, 0x24]);
    let text = peer.text().unwrap();
    assert_eq!(PeerId::parse(&text).unwrap().bytes, peer.bytes);
    assert_eq!(peer_id_from(&keys).bytes, peer.bytes);
    let again = Keypair::from_encoding(keys.encoding().to_vec()).unwrap();
    assert_eq!(peer_id_from(&again).bytes, peer.bytes);
    let theirs = libp2p::identity::Keypair::from_protobuf_encoding(keys.encoding()).unwrap();
    assert_eq!(theirs.public().to_peer_id().to_string(), text);
    assert!(Keypair::from_encoding(vec![1, 2, 3]).is_none());
}

#[test]
fn a_node_keeps_its_identifier() {
    let keys = generate_identity();
    let id = derive_local_peer_id(&keys);
    assert_eq!(id.bytes, peer_id_from(&keys).bytes);
    assert_eq!(id.bytes, derive_local_peer_id(&keys).bytes);
    // the identity that is kept is the one that comes back
    let again = node_identity(Some(keys.encoding().to_vec())).unwrap();
    assert_eq!(derive_local_peer_id(&again).bytes, id.bytes);
    assert!(node_identity(Some(vec![1, 2, 3])).is_none());
    // without one, another is drawn
    let other = node_identity(None).unwrap();
    assert_ne!(derive_local_peer_id(&other).bytes, id.bytes);
}

#[test]
fn access_is_granted_and_taken_back() {
    let one = PeerId { bytes: vec![1] };
    let two = PeerId { bytes: vec![2] };
    let mut acl = Acl::new();
    assert!(!acl.is_allowed(&one));
    acl.allow(one.clone());
    acl.allow(one.clone());
    assert!(acl.is_allowed(&one));
    assert!(!acl.is_allowed(&two));
    acl.revoke(&two);
    assert!(acl.is_allowed(&one));
    acl.revoke(&one);
    assert!(!acl.is_allowed(&one));
    assert!(!Acl::default().is_allowed(&one));
}

#[test]
fn the_configuration_starts_empty() {
    let c = Config::default();
    assert_eq!(c.cidr, "");
    assert!(c.bootstrap.is_empty());
    assert!(!c.relay);
}

#[test]
fn numbers_in_network_order() {
    assert_eq!(read_be16(0x12, 0x34), 0x1234);
    assert_eq!(read_be32(0x12, 0x34, 0x56, 0x78), 0x1234_5678);
    let mut out = vec![9u8];
    push_be16(&mut out, 0xfedc);
    push_range(&mut out, &[1, 2, 3, 4], 1, 3);
    assert_eq!(out, vec![9, 0xfe, 0xdc, 2, 3]);
    for n in [0u16, 1, 255, 256, 65535] {
        let mut bytes = Vec::new();
        push_be16(&mut bytes, n);
        assert_eq!(read_be16(bytes[0], bytes[1]), n);
    }
    assert_eq!(copy_bytes(&out), out);
    assert!(same_bytes(&[1, 2], &[1, 2]));
    assert!(!same_bytes(&[1, 2], &[1, 3]));
    assert!(!same_bytes(&[1, 2], &[1]));
}
