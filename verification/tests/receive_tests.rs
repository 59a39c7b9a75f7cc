use diode::receive::{packet_action, PacketAction};
use diode::proto::{decode_packet, Packet, CHUNK_SIZE, EMPTY_HASH};
use diode::receive::{
    advance_to_batch, batch_data_size, batch_for_data, batch_for_parity, begin_transfer,
    buffer_data, buffer_parity, finalize_current_batch, finish_file, handle_data_packet,
    handle_parity_packet, is_chunk_valid, log_safe, new_file, partial_path, record_open_failure,
    record_udp_bytes, reset_transfer, FinalizeError, ReceiveState, StartDecision, Stats,
    BUFFER_BYTE_LIMIT,
};
use diode::send::FileSender;

fn start(state: &mut ReceiveState, stats: &mut Stats, path: &str, size: u64) -> Vec<u8> {
    let p = path.to_string();
    match new_file(state, stats, &p) {
        StartDecision::Accepted { aborted: None } => {}
        _ => panic!("start refused"),
    }
    let hash = diode::hashing::md5_hex(path.as_bytes()).into_bytes();
    begin_transfer(state, p, size, hash.clone(), 100);
    hash
}

fn sender_packets(file: &[u8], path: &str) -> (Vec<Packet>, Vec<Packet>) {
    let (data, parity, _) = sender_transfer(file, path);
    (data, parity)
}

fn sender_transfer(file: &[u8], path: &str) -> (Vec<Packet>, Vec<Packet>, Packet) {
    let mut s = FileSender::new(path);
    let mut data = Vec::new();
    let mut parity = Vec::new();
    for chunk in file.chunks(CHUNK_SIZE) {
        let mut buf = Vec::new();
        s.data_packet_into(&mut buf, chunk);
        data.push(decode_packet(&buf).unwrap());
        if let Some(ps) = s.chunk_sent(chunk.to_vec()) {
            for p in ps.unwrap() {
                parity.push(decode_packet(&p).unwrap());
            }
        }
    }
    if let Some(ps) = s.finish() {
        for p in ps.unwrap() {
            parity.push(decode_packet(&p).unwrap());
        }
    }
    let end = decode_packet(&s.end_packet(path)).unwrap();
    (data, parity, end)
}

#[test]
fn log_safe_strips_control_characters() {
    assert_eq!(log_safe("a\nb\tc\u{7}d é"), "ab\tcd ");
    assert_eq!(log_safe(":ok"), ":ok");
}

#[test]
fn batch_numbers() {
    assert_eq!(batch_for_data(999), 0);
    assert_eq!(batch_for_data(1000), 1);
    assert_eq!(batch_for_parity(99), 0);
    assert_eq!(batch_for_parity(250), 2);
}

#[test]
fn batch_sizes() {
    assert_eq!(batch_data_size(0, 0), 0);
    assert_eq!(batch_data_size(0, 940), 1);
    assert_eq!(batch_data_size(0, 941), 2);
    assert_eq!(batch_data_size(0, 940 * 1000), 1000);
    assert_eq!(batch_data_size(1, 940 * 1000), 0);
    assert_eq!(batch_data_size(1, 940 * 1001), 1);
    assert_eq!(batch_data_size(u64::MAX, u64::MAX), 0);
}

#[test]
fn partial_paths() {
    assert_eq!(partial_path("out", "a/b"), "out/a/b.partial");
    assert_eq!(partial_path("out/", "x"), "out/x.partial");
    assert_eq!(partial_path("", "x"), "x.partial");
    assert_eq!(partial_path("out", "/abs"), "/abs.partial");
}

#[test]
fn start_decisions() {
    let mut state = ReceiveState::new();
    let mut stats = Stats::new();
    let bad = "../etc/passwd".to_string();
    assert!(matches!(new_file(&mut state, &mut stats, &bad), StartDecision::Rejected { aborted: None, .. }));
    assert_eq!(stats.files_failed, 1);
    start(&mut state, &mut stats, "f", 10);
    let same = "f".to_string();
    assert!(matches!(new_file(&mut state, &mut stats, &same), StartDecision::AlreadyReceiving));
    let other = "g".to_string();
    match new_file(&mut state, &mut stats, &other) {
        StartDecision::Accepted { aborted: Some(p) } => assert_eq!(p, "f"),
        _ => panic!("expected the previous transfer to be aborted"),
    }
    assert_eq!(stats.files_failed, 2);
    assert!(state.file_path.is_none());
    record_open_failure(&mut stats);
    assert_eq!(stats.files_failed, 3);
}

#[test]
fn reset_counts_the_transfer() {
    let mut state = ReceiveState::new();
    let mut stats = Stats::new();
    reset_transfer(&mut state, &mut stats, true);
    assert_eq!(stats.files_transferred, 0);
    start(&mut state, &mut stats, "f", 10);
    reset_transfer(&mut state, &mut stats, true);
    assert_eq!(stats.files_transferred, 1);
    assert!(state.file_path.is_none());
    record_udp_bytes(&mut stats, 5);
    assert_eq!(stats.total_transferred, 5);
}

#[test]
fn chunk_validation() {
    let mut state = ReceiveState::new();
    let mut stats = Stats::new();
    start(&mut state, &mut stats, "f", 3000);
    let (data, parity) = sender_packets(&vec![1u8; 3000], "f");
    assert!(is_chunk_valid(&data[0], &state, 1));
    assert!(is_chunk_valid(&parity[0], &state, 3));
    assert!(!is_chunk_valid(&parity[0], &state, 1));
    let mut wrong_hash = data[0].clone_fields();
    wrong_hash.data_hash[0] ^= 1;
    assert!(!is_chunk_valid(&wrong_hash, &state, 1));
    let mut wrong_path = data[0].clone_fields();
    wrong_path.path_hash[0] ^= 1;
    assert!(!is_chunk_valid(&wrong_path, &state, 1));
}

trait CloneFields {
    fn clone_fields(&self) -> Packet;
}

impl CloneFields for Packet {
    fn clone_fields(&self) -> Packet {
        Packet {
            pkg_type: self.pkg_type,
            count: self.count,
            path_hash: self.path_hash.clone(),
            data_hash: self.data_hash.clone(),
            data: self.data.clone(),
        }
    }
}

#[test]
fn buffering_respects_duplicates_and_the_cap() {
    let mut state = ReceiveState::new();
    let mut stats = Stats::new();
    let p = Packet { pkg_type: 1, count: 3, path_hash: vec![], data_hash: vec![], data: vec![1, 2, 3] };
    buffer_data(&mut state, &mut stats, p.clone_fields());
    assert_eq!(state.bytes_buffered, 3);
    assert_eq!(stats.total_transferred, 3);
    buffer_data(&mut state, &mut stats, p.clone_fields());
    assert_eq!(state.bytes_buffered, 3);
    state.bytes_buffered = BUFFER_BYTE_LIMIT - 1;
    let q = Packet { pkg_type: 3, count: 4, path_hash: vec![], data_hash: vec![], data: vec![0; 960] };
    buffer_parity(&mut state, q, 4);
    assert!(state.failed);
    assert!(state.parity_buffer.is_empty());
}

#[test]
fn whole_file_without_loss() {
    let file: Vec<u8> = (0..2500u32).map(|i| (i % 253) as u8).collect();
    let mut state = ReceiveState::new();
    let mut stats = Stats::new();
    start(&mut state, &mut stats, "f", file.len() as u64);
    let (data, _parity, end) = sender_transfer(&file, "f");
    for p in data {
        let (w, e) = handle_data_packet(&mut state, &mut stats, p);
        assert!(w.is_empty() && e.is_none());
    }
    assert_eq!(state.bytes_transferred, 2500);
    let plan = finish_file(&mut state, &end.data_hash).unwrap();
    assert_eq!(plan.rel_path, "f");
    assert!(!plan.failed);
    assert!(!plan.digest_mismatch);
    let w = plan.write.unwrap();
    assert_eq!(w.offset, 0);
    assert_eq!(w.bytes, file);
}

#[test]
fn batch_reconstruction_in_order() {
    let file: Vec<u8> = (0..(940 * 1000 + 2000) as u32).map(|i| (i % 249) as u8).collect();
    let mut state = ReceiveState::new();
    let mut stats = Stats::new();
    start(&mut state, &mut stats, "big", file.len() as u64);
    let (data, parity, end) = sender_transfer(&file, "big");
    let mut writes = Vec::new();
    let lost = |i: usize| i % 17 == 3 || i == 1001;
    for (i, p) in data.into_iter().enumerate().take(1000) {
        if !lost(i) {
            let (w, e) = handle_data_packet(&mut state, &mut stats, p);
            assert!(e.is_none());
            writes.extend(w);
        }
    }
    let mut parity = parity.into_iter();
    for p in parity.by_ref().take(100) {
        let (w, e) = handle_parity_packet(&mut state, p);
        assert!(e.is_none());
        writes.extend(w);
    }
    let (data, _) = sender_packets(&file, "big");
    for (i, p) in data.into_iter().enumerate().skip(1000) {
        if !lost(i) {
            let (w, e) = handle_data_packet(&mut state, &mut stats, p);
            assert!(e.is_none());
            writes.extend(w);
        }
    }
    for p in parity {
        let (w, e) = handle_parity_packet(&mut state, p);
        assert!(e.is_none());
        writes.extend(w);
    }
    assert_eq!(writes.len(), 1);
    assert_eq!(writes[0].offset, 0);
    assert_eq!(writes[0].bytes, file[..940 * 1000].to_vec());
    let plan = finish_file(&mut state, &end.data_hash).unwrap();
    assert!(!plan.failed);
    let w = plan.write.unwrap();
    assert_eq!(w.offset, 940 * 1000);
    assert_eq!(w.bytes, file[940 * 1000..].to_vec());
}

#[test]
fn missing_chunks_without_parity_fail() {
    let mut state = ReceiveState::new();
    let mut stats = Stats::new();
    let p = "f".to_string();
    new_file(&mut state, &mut stats, &p);
    begin_transfer(&mut state, p, 2000, vec![], 0);
    assert_eq!(
        finalize_current_batch(&mut state).err(),
        Some(FinalizeError::FecDisabled { batch: 0, missing: 3 })
    );
    state.parity_per_batch = 100;
    assert_eq!(
        finalize_current_batch(&mut state).err(),
        Some(FinalizeError::Insufficient { batch: 0, data: 0, parity: 0, need: 3 })
    );
    let (w, e) = advance_to_batch(&mut state, 2);
    assert!(w.is_empty());
    assert_eq!(e, Some(FinalizeError::Insufficient { batch: 0, data: 0, parity: 0, need: 3 }));
    assert!(state.failed);
    let plan = finish_file(&mut state, EMPTY_HASH.as_bytes()).unwrap();
    assert!(plan.failed);
    assert!(plan.write.is_none());
}

#[test]
fn short_chunk_is_reported() {
    let mut state = ReceiveState::new();
    let mut stats = Stats::new();
    let p = "f".to_string();
    new_file(&mut state, &mut stats, &p);
    begin_transfer(&mut state, p, 2000, vec![], 0);
    let mk = |count: u64, n: usize| Packet { pkg_type: 1, count, path_hash: vec![], data_hash: vec![], data: vec![1; n] };
    buffer_data(&mut state, &mut stats, mk(0, 940));
    buffer_data(&mut state, &mut stats, mk(1, 100));
    buffer_data(&mut state, &mut stats, mk(2, 120));
    assert_eq!(
        finalize_current_batch(&mut state).err(),
        Some(FinalizeError::ChunkTooShort { chunk: 1, len: 100, expected: 940 })
    );
}

#[test]
fn end_digest_mismatch_fails_the_transfer() {
    let file: Vec<u8> = (0..3000u32).map(|i| (i % 251) as u8).collect();
    let mut state = ReceiveState::new();
    let mut stats = Stats::new();
    start(&mut state, &mut stats, "g", file.len() as u64);
    let (data, _parity, end) = sender_transfer(&file, "g");
    assert_ne!(end.data_hash, EMPTY_HASH.as_bytes().to_vec());
    for p in data {
        handle_data_packet(&mut state, &mut stats, p);
    }
    let mut wrong = end.data_hash.clone();
    wrong[0] = if wrong[0] == b'a' { b'b' } else { b'a' };
    let plan = finish_file(&mut state, &wrong).unwrap();
    assert!(plan.failed);
    assert!(plan.digest_mismatch);
    assert!(plan.write.is_none());
    assert!(state.failed);
}

#[test]
fn empty_file_digest_is_the_empty_hash() {
    let mut state = ReceiveState::new();
    let mut stats = Stats::new();
    start(&mut state, &mut stats, "e", 0);
    let (_, _, end) = sender_transfer(&[], "e");
    assert_eq!(end.data_hash, EMPTY_HASH.as_bytes().to_vec());
    let plan = finish_file(&mut state, &end.data_hash).unwrap();
    assert!(!plan.failed);
    assert!(plan.write.is_none());
}

#[test]
fn rejected_path_gets_a_safe_marker() {
    let mut state = ReceiveState::new();
    let mut stats = Stats::new();
    let bad = "../etc/pass wd".to_string();
    match new_file(&mut state, &mut stats, &bad) {
        StartDecision::Rejected { aborted: None, marker } => {
            assert_eq!(marker, "rejected-..etcpasswd.failed");
            assert!(diode::proto::is_safe_rel_path(&marker));
        }
        _ => panic!("unsafe path accepted"),
    }
    assert_eq!(stats.files_failed, 1);
}

#[test]
fn long_last_chunk_is_cut_and_lost_chunk_rebuilt() {
    let mut state = ReceiveState::new();
    let mut stats = Stats::new();
    let hash = start(&mut state, &mut stats, "t", 1000);
    let hash_str = String::from_utf8(hash.clone()).unwrap();
    let c0: Vec<u8> = (0..940u32).map(|i| (i % 241) as u8).collect();
    let c1: Vec<u8> = (0..100u32).map(|i| (i % 13 + 1) as u8).collect();
    let parity = diode::send::parity_packets(&hash_str, &vec![c0.clone(), c1.clone()], 100, 0).unwrap();
    assert_eq!(parity.len(), 100);
    let d1 = diode::proto::encode_packet(
        diode::proto::PKG_TYPE_DATA,
        1,
        &hash_str,
        &diode::hashing::md5_hex(&c1),
        &c1,
    );
    let (w, e) = handle_data_packet(&mut state, &mut stats, decode_packet(&d1).unwrap());
    assert!(w.is_empty() && e.is_none());
    for p in parity.iter().take(3) {
        let (w, e) = handle_parity_packet(&mut state, decode_packet(p).unwrap());
        assert!(w.is_empty() && e.is_none());
    }
    let mut expected = c0.clone();
    expected.extend_from_slice(&c1[..60]);
    let mut acc = EMPTY_HASH.as_bytes().to_vec();
    acc.extend_from_slice(&expected);
    let digest = diode::hashing::md5_hex(&acc);
    let plan = finish_file(&mut state, digest.as_bytes()).unwrap();
    assert!(!plan.failed);
    let w = plan.write.unwrap();
    assert_eq!(w.offset, 0);
    assert_eq!(w.bytes, expected);
}

#[test]
fn packet_dispatch() {
    let mut state = ReceiveState::new();
    let mut stats = Stats::new();
    assert_eq!(packet_action(&state, 0, false), PacketAction::Start);
    assert_eq!(packet_action(&state, 1, false), PacketAction::Ignore);
    assert_eq!(packet_action(&state, 4, false), PacketAction::Ignore);
    assert_eq!(packet_action(&state, 4, true), PacketAction::ForwardUdp);
    start(&mut state, &mut stats, "d", 5);
    assert_eq!(packet_action(&state, 1, false), PacketAction::Data);
    assert_eq!(packet_action(&state, 3, false), PacketAction::Parity);
    assert_eq!(packet_action(&state, 2, false), PacketAction::End);
    assert_eq!(packet_action(&state, 9, true), PacketAction::Ignore);
}
