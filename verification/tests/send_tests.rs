use diode::proto::{decode_packet, decode_parity_field, EMPTY_HASH, PKG_TYPE_DATA, PKG_TYPE_END, PKG_TYPE_PARITY, PKG_TYPE_START};
use diode::send::{
    end_packet, next_backoff_ms, pacer_reserve, parity_packets, start_packet, udp_flow_id,
    udp_fragments, FileSender,
};

#[test]
fn start_packet_fields() {
    let hash = diode::hashing::md5_hex(b"a/b.txt");
    assert_eq!(hash, "239f5314ae50beaabc7a58bd2c979a06");
    let p = start_packet(1234, "a/b.txt", &hash, 100);
    let d = decode_packet(&p).unwrap();
    assert_eq!(d.pkg_type, PKG_TYPE_START);
    assert_eq!(d.count, 1234);
    assert_eq!(d.path_hash, hash.as_bytes().to_vec());
    assert_eq!(decode_parity_field(&d.data_hash), Some(100));
    assert_eq!(d.data, b"a/b.txt".to_vec());
}

#[test]
fn end_packet_fields() {
    let digest = "0123456789abcdef0123456789abcdef";
    let p = end_packet("x", 3, digest);
    let d = decode_packet(&p).unwrap();
    assert_eq!(d.pkg_type, PKG_TYPE_END);
    assert_eq!(d.count, 3);
    assert_eq!(d.path_hash, EMPTY_HASH.as_bytes().to_vec());
    assert_eq!(d.data_hash, digest.as_bytes().to_vec());
}

#[test]
fn file_sender_numbers_chunks_and_batches_parity() {
    let mut s = FileSender::new("f");
    let mut buf = Vec::new();
    s.data_packet_into(&mut buf, b"abc");
    let d = decode_packet(&buf).unwrap();
    assert_eq!(d.pkg_type, PKG_TYPE_DATA);
    assert_eq!(d.count, 0);
    assert_eq!(d.data_hash, diode::hashing::md5_hex(b"abc").as_bytes().to_vec());
    for i in 0..999u64 {
        assert_eq!(s.count(), i);
        assert!(s.chunk_sent(vec![i as u8; 940]).is_none());
    }
    let parity = s.chunk_sent(vec![7u8; 940]).unwrap().unwrap();
    assert_eq!(parity.len(), 100);
    let p0 = decode_packet(&parity[0]).unwrap();
    assert_eq!(p0.pkg_type, PKG_TYPE_PARITY);
    assert_eq!(p0.count, 0);
    assert_eq!(p0.data.len(), 960);
    assert_eq!(s.count(), 1000);
    assert!(s.finish().is_none());
    assert!(s.chunk_sent(vec![1u8; 10]).is_none());
    let last = s.finish().unwrap().unwrap();
    let l0 = decode_packet(&last[99]).unwrap();
    assert_eq!(l0.count, 199);
    let e = decode_packet(&s.end_packet("f")).unwrap();
    assert_eq!(e.count, 1001);
    let first: Vec<u8> = (0..999u64).flat_map(|i| vec![i as u8; 940]).chain(vec![7u8; 940]).collect();
    let mut acc = EMPTY_HASH.as_bytes().to_vec();
    acc.extend_from_slice(&first);
    let d1 = diode::hashing::md5_hex(&acc);
    let mut acc2 = d1.into_bytes();
    acc2.extend_from_slice(&[1u8; 10]);
    assert_eq!(e.data_hash, diode::hashing::md5_hex(&acc2).into_bytes());
}

#[test]
fn parity_packets_of_empty_batch_or_no_parity() {
    let hash = diode::hashing::md5_hex(b"f");
    assert_eq!(parity_packets(&hash, &vec![], 100, 0).unwrap().len(), 0);
    assert_eq!(parity_packets(&hash, &vec![vec![1u8; 5]], 0, 0).unwrap().len(), 0);
    let ps = parity_packets(&hash, &vec![vec![1u8; 5], vec![2u8; 940]], 3, 4).unwrap();
    assert_eq!(ps.len(), 3);
    assert_eq!(decode_packet(&ps[2]).unwrap().count, 14);
}

#[test]
fn udp_fragments_split_at_chunk_size() {
    let data = vec![5u8; 2000];
    let id = udp_flow_id(123);
    assert_eq!(id, diode::hashing::md5_hex(b"123"));
    let frags = udp_fragments(&data, &id);
    assert_eq!(frags.len(), 3);
    let f2 = decode_packet(&frags[2]).unwrap();
    assert_eq!(f2.count, 2);
    assert_eq!(f2.data.len(), 120);
    assert_eq!(f2.path_hash, b"00000000000000000000000000002000".to_vec());
    assert_eq!(udp_fragments(&[], &id).len(), 0);
}

#[test]
fn backoff_doubles_up_to_the_cap() {
    assert_eq!(next_backoff_ms(1, 250), 2);
    assert_eq!(next_backoff_ms(128, 250), 250);
    assert_eq!(next_backoff_ms(250, 250), 250);
    assert_eq!(next_backoff_ms(u64::MAX, 7), 7);
    assert_eq!(next_backoff_ms(5, 0), 0);
}

#[test]
fn pacer_takes_the_later_slot() {
    assert_eq!(pacer_reserve(100, 50, 10), (100, 110));
    assert_eq!(pacer_reserve(10, 50, 10), (50, 60));
    assert_eq!(pacer_reserve(u64::MAX - 1, 0, 10), (u64::MAX - 1, u64::MAX));
}

#[test]
fn send_plan_order_and_resends() {
    let mut s = FileSender::new("p");
    let start = s.start_sends("p", 1880);
    assert_eq!(start.len(), 1);
    assert_eq!(start[0].times, diode::send::CONTROL_RESEND);
    assert_eq!(start[0].times, 3);
    assert!(start[0].required);
    assert_eq!(decode_packet(&start[0].packet).unwrap().pkg_type, PKG_TYPE_START);
    for i in 0..2u64 {
        let sends = s.chunk_sends(vec![i as u8; 940]);
        assert_eq!(sends.len(), 1);
        assert!(sends[0].required && sends[0].times == 1);
        let d = decode_packet(&sends[0].packet).unwrap();
        assert_eq!(d.pkg_type, PKG_TYPE_DATA);
        assert_eq!(d.count, i);
    }
    let end = s.end_sends("p");
    assert_eq!(end.len(), 101);
    for (k, o) in end[..100].iter().enumerate() {
        assert!(!o.required && o.times == 1);
        let d = decode_packet(&o.packet).unwrap();
        assert_eq!(d.pkg_type, PKG_TYPE_PARITY);
        assert_eq!(d.count, k as u64);
    }
    assert!(end[100].required);
    assert_eq!(end[100].times, 3);
    let e = decode_packet(&end[100].packet).unwrap();
    assert_eq!(e.pkg_type, PKG_TYPE_END);
    assert_eq!(e.count, 2);
}

#[test]
fn udp_sends_repeat_the_whole_sequence() {
    let data = vec![5u8; 2000];
    let id = udp_flow_id(42);
    let one = udp_fragments(&data, &id);
    let all = diode::send::udp_sends(&data, &id);
    assert_eq!(one.len(), 3);
    assert_eq!(all.len(), 6);
    assert_eq!(all[..3].to_vec(), one);
    assert_eq!(all[3..].to_vec(), one);
}

#[test]
fn pacer_slots_move_forward_by_the_interval() {
    let (s1, n1) = pacer_reserve(0, 100, 50);
    let (s2, n2) = pacer_reserve(n1, 120, 50);
    let (s3, _) = pacer_reserve(n2, 400, 50);
    assert_eq!((s1, s2, s3), (100, 150, 400));
    assert_eq!(pacer_reserve(u64::MAX - 1, 0, 50), (u64::MAX - 1, u64::MAX));
}
