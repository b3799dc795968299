use bytes::Bytes;
use quic_transport_qa::probe::{now_ns, stamped_message, Probe};
use quic_transport_qa::wire::{
    filler, gossip_frame, make_payload, message, message_len, read_gossip, rtt_sample, same_bytes,
    text_message,
};

#[test]
fn payload_starts_with_the_time_and_is_padded() {
    let p = make_payload(20, 0x0102_0304);
    assert_eq!(p.len(), 20);
    assert_eq!(&p[..], &[0, 0, 0, 0, 0, 0, 0, 0, 0, 0, 0, 0, 1, 2, 3, 4, 0, 0, 0, 0]);
    assert_eq!(make_payload(0, u128::MAX).as_ref(), &[0xFF; 16]);
    assert_eq!(make_payload(16, 7).len(), 16);
    let ts = 1_700_000_000_123_456_789u128;
    assert_eq!(&make_payload(256, ts)[..16], &ts.to_be_bytes());
}

#[test]
fn round_trip_is_the_time_between() {
    let p = make_payload(64, 1_000);
    assert_eq!(rtt_sample(&p, 1_750), Some(750));
    assert_eq!(rtt_sample(&p, 1_000), None);
    assert_eq!(rtt_sample(&p, 999), None);
    assert_eq!(rtt_sample(&Bytes::from(vec![0u8; 15]), 5), None);
    assert_eq!(rtt_sample(&Bytes::from(vec![0u8; 16]), 5), Some(5));
    assert_eq!(rtt_sample(&make_payload(16, 0), u128::MAX), Some(u128::MAX));
}

#[test]
fn gossip_frames_read_back() {
    let f = gossip_frame(0x0102_0304, 0x0506_0708_090A_0B0C);
    assert_eq!(f.as_ref(), &[1, 2, 3, 4, 5, 6, 7, 8, 9, 10, 11, 12]);
    assert_eq!(read_gossip(&f), Some((0x0102_0304, 0x0506_0708_090A_0B0C)));
    for (from, seq) in [(0, 0), (5, 1), (u32::MAX, u64::MAX)] {
        assert_eq!(read_gossip(&gossip_frame(from, seq)), Some((from, seq)));
    }
    assert_eq!(read_gossip(&Bytes::from(vec![0u8; 11])), None);
    assert_eq!(read_gossip(&Bytes::from(vec![0u8; 13])), Some((0, 0)));
}

#[test]
fn fillers_and_messages_hold_their_bytes() {
    assert_eq!(filler(0xCC, 64).as_ref(), &[0xCC; 64]);
    assert_eq!(filler(1, 0).len(), 0);
    assert_eq!(message(vec![9, 8, 7]).as_ref(), &[9, 8, 7]);
    assert_eq!(message_len(&filler(3, 1000)), 1000);
    assert_eq!(text_message("größe").as_ref(), "größe".as_bytes());
    assert!(same_bytes(&text_message("ab"), &message(vec![97, 98])));
    assert!(!same_bytes(&text_message("ab"), &message(vec![97])));
}

#[test]
fn probes_count_every_message_and_time_the_stamped_ones() {
    let mut p = Probe::new();
    p.on_message(&stamped_message(32, Some(100)), Some(400));
    p.on_message(&Bytes::from_static(b"short"), Some(500));
    p.on_message(&stamped_message(32, Some(600)), Some(500));
    p.on_message(&stamped_message(32, None), Some(9));
    p.on_message(&stamped_message(32, Some(3)), None);
    assert_eq!(p.acked, 5);
    assert_eq!(p.rtt_ns, vec![300, 9]);
    assert_eq!(now_ns(Some(5)), 5);
    assert_eq!(now_ns(None), 0);
}
