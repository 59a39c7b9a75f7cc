use diode::proto::{decode_packet, Packet, CHUNK_SIZE};
use diode::send::{udp_flow_id, udp_fragments};
use diode::udp_forward::UdpForwardState;

fn packets(data: &[u8], nanos: u128) -> Vec<Packet> {
    let id = udp_flow_id(nanos);
    udp_fragments(data, &id).iter().map(|p| decode_packet(p).unwrap()).collect()
}

#[test]
fn reassembles_a_fragmented_datagram() {
    let data: Vec<u8> = (0..2500u32).map(|i| (i % 251) as u8).collect();
    let mut fwd = UdpForwardState::new(0);
    let ps = packets(&data, 1);
    assert_eq!(ps.len(), 3);
    assert!(fwd.on_packet(&ps[0], 1).is_none());
    assert!(fwd.on_packet(&ps[1], 2).is_none());
    assert_eq!(fwd.on_packet(&ps[2], 3), Some(data.clone()));
    // A retransmission is reassembled again.
    assert!(fwd.on_packet(&ps[0], 4).is_none());
    assert!(fwd.on_packet(&ps[1], 5).is_none());
    assert_eq!(fwd.on_packet(&ps[2], 6), Some(data));
}

#[test]
fn single_fragment_datagram() {
    let mut fwd = UdpForwardState::new(0);
    let ps = packets(b"hello", 9);
    assert_eq!(fwd.on_packet(&ps[0], 1), Some(b"hello".to_vec()));
}

#[test]
fn foreign_flow_cannot_preempt_until_stale() {
    let a = vec![1u8; CHUNK_SIZE * 2];
    let b = vec![2u8; 10];
    let pa = packets(&a, 100);
    let pb = packets(&b, 200);
    let mut fwd = UdpForwardState::new(0);
    assert!(fwd.on_packet(&pa[0], 10).is_none());
    // A different flow's first fragment is ignored while `a` is fresh.
    assert!(fwd.on_packet(&pb[0], 20).is_none());
    assert_eq!(fwd.on_packet(&pa[1], 30), Some(a.clone()));
    // After more than two seconds a new flow may take over.
    assert!(fwd.on_packet(&pa[0], 40).is_none());
    assert_eq!(fwd.on_packet(&pb[0], 40 + 2_000_000_001), Some(b));
}

#[test]
fn out_of_order_fragment_is_dropped() {
    let a = vec![3u8; CHUNK_SIZE * 3];
    let pa = packets(&a, 5);
    let mut fwd = UdpForwardState::new(0);
    assert!(fwd.on_packet(&pa[0], 1).is_none());
    assert!(fwd.on_packet(&pa[2], 2).is_none());
    assert!(fwd.on_packet(&pa[1], 3).is_none());
    assert_eq!(fwd.on_packet(&pa[2], 4), Some(a));
}

#[test]
fn oversized_or_zero_declared_size_is_ignored() {
    let id = udp_flow_id(1);
    let mut p = decode_packet(&udp_fragments(b"abc", &id)[0]).unwrap();
    p.path_hash = b"00000000000000000000000004194305".to_vec();
    let mut fwd = UdpForwardState::new(0);
    assert!(fwd.on_packet(&p, 1).is_none());
    p.path_hash = b"00000000000000000000000000000000".to_vec();
    assert!(fwd.on_packet(&p, 1).is_none());
    p.path_hash = b"0000000000000000000000000000000x".to_vec();
    assert!(fwd.on_packet(&p, 1).is_none());
}
