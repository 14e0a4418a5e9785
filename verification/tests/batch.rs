use bytes::Bytes;
use coconet::batch::{unpack, BatchBuilder, HDR_LEN};
use coconet::frame::{encode_frame, payload_len};

fn contents(list: &[Bytes]) -> Vec<Vec<u8>> {
    list.iter().map(|b| b.to_vec()).collect()
}

#[test]
fn packets_come_out_as_they_went_in() {
    let mut batch = BatchBuilder::with_capacity(64);
    assert!(batch.is_empty());
    assert_eq!((batch.count(), batch.payload_size()), (0, 0));
    for pkt in [&b"one"[..], b"", b"three"] {
        assert!(batch.add(&Bytes::copy_from_slice(pkt)));
    }
    assert!(!batch.is_empty());
    assert_eq!((batch.count(), batch.payload_size()), (3, 14));
    let data = batch.take();
    assert_eq!(&data[..], b"CO\x01\x00\x03\x00\x03one\x00\x00\x00\x05three");
    assert_eq!(contents(&unpack(data.to_vec())), vec![b"one".to_vec(), Vec::new(), b"three".to_vec()]);
    // the builder starts anew
    assert!(batch.is_empty());
    assert!(batch.take().is_empty());
    batch.add(&Bytes::from_static(b"x"));
    assert_eq!(&batch.take()[..], b"CO\x01\x00\x01\x00\x01x");
}

#[test]
fn a_batch_grows_beyond_its_capacity() {
    let mut batch = BatchBuilder::with_capacity(0);
    let pkt = Bytes::from(vec![7u8; 5000]);
    for _ in 0..300 {
        assert!(batch.add(&pkt));
    }
    let data = batch.take();
    assert_eq!(data.len(), HDR_LEN + 300 * 5002);
    assert_eq!(&data[3..5], &[1, 44]);
    let out = unpack(data.to_vec());
    assert_eq!(out.len(), 300);
    assert!(out.iter().all(|p| p == &pkt));
}

#[test]
fn a_batch_counts_to_65535() {
    let mut batch = BatchBuilder::with_capacity(16);
    let pkt = Bytes::new();
    for _ in 0..65535 {
        assert!(batch.add(&pkt));
    }
    assert!(!batch.add(&pkt));
    assert_eq!(batch.count(), u16::MAX);
    assert_eq!(unpack(batch.take().to_vec()).len(), 65535);
}

#[test]
fn other_messages_are_one_packet() {
    for data in [&b"hello world"[..], b"", b"CO\x01\x00", b"CO\x02\x00\x00", b"XO\x01\x00\x01"] {
        assert_eq!(contents(&unpack(data.to_vec())), vec![data.to_vec()]);
    }
}

#[test]
fn a_damaged_batch_gives_what_is_whole() {
    assert!(unpack(b"CO\x01\x00\x00".to_vec()).is_empty());
    assert!(unpack(b"CO\x01\x00\x02\x00".to_vec()).is_empty());
    let cut = b"CO\x01\x00\x03\x00\x02ab\x00\x05cd";
    assert_eq!(contents(&unpack(cut.to_vec())), vec![b"ab".to_vec()]);
    let more = b"CO\x01\x00\x01\x00\x02ab\x00\x02cd";
    assert_eq!(contents(&unpack(more.to_vec())), vec![b"ab".to_vec()]);
}

#[test]
fn frames_say_their_length() {
    assert_eq!(encode_frame(b""), vec![0, 0, 0, 0]);
    let frame = encode_frame(&vec![9u8; 70000]);
    assert_eq!(&frame[..5], &[0, 1, 0x11, 0x70, 9]);
    assert_eq!(frame.len(), 70004);
    assert_eq!(payload_len(&frame[..4]), 70000);
    assert_eq!(payload_len(&[0xff, 0xff, 0xff, 0xff]), u32::MAX);
}

#[test]
fn a_packet_that_is_sent_by_itself_is_no_batch() {
    for first in [0x45u8, 0x46, 0x4f, 0x60, 0x6f] {
        let mut pkt = vec![0u8; 60];
        pkt[0] = first;
        pkt[1] = b'O';
        pkt[2] = 1;
        assert_eq!(contents(&unpack(pkt.clone())), vec![pkt]);
    }
}
