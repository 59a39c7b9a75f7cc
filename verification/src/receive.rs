//! The receiver's state machine: validating chunks, buffering one FEC batch
//! at a time, reconstructing and laying out each finished batch, and the
//! bookkeeping of transfers and statistics. Everything that touches the
//! file system is left to the caller, which carries out the writes and
//! renames that these functions plan.

use vstd::prelude::*;
use vstd::string::{StrSliceExecFns, StringExecFns};
use std::collections::BTreeMap;
use crate::ascii::ascii_chars;
use crate::fec::{index_given, indexed_view, restored_view, rs_decode, rs_restored_of};
use crate::batch_recovery::{
    batch_content, file_batch_bytes, file_batch_chunks, lemma_batch_from_chunks,
    lemma_decode_inputs_consistent, lemma_file_as_chunks, lemma_restored_available,
    shards_from_chunks, shards_from_file,
};
use crate::send::{
    content_digest_step, digest_step, empty_hash_bytes, lemma_empty_hash_bytes, padded_batch,
};
use crate::hashing::{md5_hex, md5_hex_bytes};
use crate::proto::{
    append_bytes, safe_rel_path, EMPTY_HASH, is_safe_rel_path, Packet, PacketView, BATCH_DATA_CHUNKS,
    BATCH_PARITY_CHUNKS, CHUNK_SIZE, PKG_TYPE_DATA, PKG_TYPE_END, PKG_TYPE_PARITY,
    PKG_TYPE_START, PKG_TYPE_UDP, SHARD_SIZE,
};

verus! {

/// Safety cap on memory held for the current batch.
pub const BUFFER_BYTE_LIMIT: usize = 8388608;

/// The receiver's state for the transfer in progress.
pub struct ReceiveState {
    pub bytes_transferred: u64,
    pub file_path: Option<String>,
    pub file_size: u64,
    pub parity_per_batch: u64,
    pub path_hash: Option<Vec<u8>>,
    /// Index of the batch currently being collected.
    pub current_batch: u64,
    /// Data chunks for the current batch, keyed by absolute chunk count.
    pub data_buffer: BTreeMap<u64, Vec<u8>>,
    /// Parity shards for the current batch, keyed by index within the batch.
    pub parity_buffer: BTreeMap<u64, Vec<u8>>,
    pub bytes_buffered: usize,
    pub failed: bool,
    /// Content digest of the batches finalized so far (see
    /// `content_digest`), checked against the END packet.
    pub digest: String,
}

/// The contents of a [`ReceiveState`].
pub struct ReceiveView {
    pub bytes_transferred: u64,
    pub file_path: Option<Seq<char>>,
    pub file_size: u64,
    pub parity_per_batch: u64,
    pub path_hash: Option<Seq<u8>>,
    pub current_batch: u64,
    pub data: Map<u64, Seq<u8>>,
    pub parity: Map<u64, Seq<u8>>,
    pub bytes_buffered: usize,
    pub failed: bool,
    pub digest: Seq<u8>,
}

/// The byte contents of a map of byte vectors.
pub open spec fn buffer_view(m: Map<u64, Vec<u8>>) -> Map<u64, Seq<u8>> {
    m.map_values(|v: Vec<u8>| v@)
}

impl View for ReceiveState {
    type V = ReceiveView;

    open spec fn view(&self) -> ReceiveView {
        ReceiveView {
            bytes_transferred: self.bytes_transferred,
            file_path: match self.file_path {
                Some(p) => Some(p@),
                None => None,
            },
            file_size: self.file_size,
            parity_per_batch: self.parity_per_batch,
            path_hash: match self.path_hash {
                Some(h) => Some(h@),
                None => None,
            },
            current_batch: self.current_batch,
            data: buffer_view(self.data_buffer@),
            parity: buffer_view(self.parity_buffer@),
            bytes_buffered: self.bytes_buffered,
            failed: self.failed,
            digest: vstd::utf8::encode_utf8(self.digest@),
        }
    }
}

/// The receiver is idle whenever no transfer is in progress.
pub open spec fn idle_unless_receiving(v: ReceiveView) -> bool {
    v.file_path is None ==> v == idle_view()
}

/// The state of a receiver with no transfer in progress.
pub open spec fn idle_view() -> ReceiveView {
    ReceiveView {
        bytes_transferred: 0,
        file_path: None,
        file_size: 0,
        parity_per_batch: 0,
        path_hash: None,
        current_batch: 0,
        data: Map::empty(),
        parity: Map::empty(),
        bytes_buffered: 0,
        failed: false,
        digest: empty_hash_bytes(),
    }
}

/// The total length of the byte strings in `m` under keys `lo` to
/// `lo + n - 1`.
pub open spec fn range_bytes(m: Map<u64, Seq<u8>>, lo: nat, n: nat) -> nat
    decreases n,
{
    if n == 0 {
        0
    } else {
        let k = lo + n - 1;
        range_bytes(m, lo, (n - 1) as nat) + if k <= u64::MAX && m.contains_key(k as u64) {
            m[k as u64].len()
        } else {
            0
        }
    }
}

/// The total length of all the byte strings in `m`, under every key.
pub open spec fn map_bytes(m: Map<u64, Seq<u8>>) -> nat {
    range_bytes(m, 0, (u64::MAX + 1) as nat)
}

/// The bytes held in the batch buffers: every buffered data chunk and
/// parity shard.
pub open spec fn buffered_total(v: ReceiveView) -> nat {
    map_bytes(v.data) + map_bytes(v.parity)
}

/// The buffer accounting: the buffered-bytes counter is exactly the bytes
/// held in the buffers, and stays within the cap.
pub open spec fn buffer_inv(v: ReceiveView) -> bool {
    &&& v.bytes_buffered <= BUFFER_BYTE_LIMIT
    &&& v.bytes_buffered == buffered_total(v)
}

proof fn lemma_range_empty(lo: nat, n: nat)
    ensures
        range_bytes(Map::<u64, Seq<u8>>::empty(), lo, n) == 0,
    decreases n,
{
    if n > 0 {
        lemma_range_empty(lo, (n - 1) as nat);
    }
}

/// Empty batch buffers holding no bytes satisfy the invariant.
proof fn lemma_empty_buffers_wf(v: ReceiveView)
    requires
        v.data == Map::<u64, Seq<u8>>::empty(),
        v.parity == Map::<u64, Seq<u8>>::empty(),
        v.bytes_buffered == 0,
    ensures
        receive_wf(v),
{
    lemma_range_empty(0, (u64::MAX + 1) as nat);
}

proof fn lemma_range_insert(m: Map<u64, Seq<u8>>, lo: nat, n: nat, k: u64, d: Seq<u8>)
    requires
        !m.contains_key(k),
    ensures
        range_bytes(m.insert(k, d), lo, n) == range_bytes(m, lo, n) + if lo <= k < lo + n {
            d.len()
        } else {
            0
        },
    decreases n,
{
    if n > 0 {
        lemma_range_insert(m, lo, (n - 1) as nat, k, d);
    }
}

/// The invariant that the receiver keeps: buffered bytes stay under the
/// cap and are exactly the bytes of the buffered chunks and shards,
/// buffered data chunks belong to the current batch and have a valid DATA
/// size, and buffered parity shards have an in-batch index and exactly the
/// shard size.
pub open spec fn receive_wf(v: ReceiveView) -> bool {
    &&& buffer_inv(v)
    &&& v.data.dom().finite()
    &&& v.parity.dom().finite()
    &&& forall|k: u64|
        #[trigger] v.data.contains_key(k) ==> {
            &&& k / 1000 == v.current_batch
            &&& 1 <= v.data[k].len() <= CHUNK_SIZE
        }
    &&& forall|k: u64|
        #[trigger] v.parity.contains_key(k) ==> {
            &&& k < 100
            &&& v.parity[k].len() == SHARD_SIZE
        }
}

impl ReceiveState {
    /// A receiver with no transfer in progress.
    pub fn new() -> (s: Self)
        ensures
            s@ == idle_view(),
    {
        let s = ReceiveState {
            bytes_transferred: 0,
            file_path: None,
            file_size: 0,
            parity_per_batch: 0,
            path_hash: None,
            current_batch: 0,
            data_buffer: BTreeMap::new(),
            parity_buffer: BTreeMap::new(),
            bytes_buffered: 0,
            failed: false,
            digest: String::from_str(EMPTY_HASH),
        };
        proof {
            lemma_empty_hash_bytes();
        }
        assert(s@.data =~= Map::<u64, Seq<u8>>::empty());
        assert(s@.parity =~= Map::<u64, Seq<u8>>::empty());
        s
    }
}

/// Receiver statistics.
pub struct Stats {
    pub files_transferred: usize,
    pub files_failed: usize,
    pub total_transferred: u64,
}

impl Stats {
    /// All counters zero.
    pub fn new() -> (s: Self)
        ensures
            s.files_transferred == 0,
            s.files_failed == 0,
            s.total_transferred == 0,
    {
        Stats { files_transferred: 0, files_failed: 0, total_transferred: 0 }
    }
}

/// Characters that may reach the log from a remote string: ASCII graphic
/// characters, space and horizontal tab.
pub open spec fn log_safe_char(c: char) -> bool {
    ('!' <= c <= '~') || c == ' ' || c == '\t'
}

/// Strips every character of `s` but ASCII graphic characters, space and
/// tab, so that a string from a remote START payload cannot inject control
/// characters into log framing.
pub fn log_safe(s: &str) -> (safe: String)
    ensures
        safe@ == s@.filter(|c: char| log_safe_char(c)),
{
    let mut out = String::new();
    let ghost pred = |c: char| log_safe_char(c);
    for c in it: s.chars()
        invariant
            it.seq() == s@,
            pred == (|c: char| log_safe_char(c)),
            out@ == s@.take(it.index() as int).filter(pred),
    {
        let ghost i = it.index();
        proof {
            reveal(Seq::filter);
            assert(c == s@[i as int]);
            assert(s@.take(i + 1).drop_last() =~= s@.take(i as int));
            assert(s@.take(i + 1).last() == c);
        }
        if ('!' <= c && c <= '~') || c == ' ' || c == '\t' {
            out.push(c);
        }
        proof {
            reveal(Seq::filter);
            assert(out@ == s@.take(i + 1).filter(pred));
        }
    }
    assert(s@.take(s@.len() as int) =~= s@);
    out
}


/// `x + 1`, or `x` at the top of the range.
pub open spec fn inc_sat(x: usize) -> usize {
    if x < usize::MAX {
        (x + 1) as usize
    } else {
        x
    }
}

/// `x + y`, or `u64::MAX` where that overflows.
pub open spec fn add_sat_u64(x: u64, y: nat) -> u64 {
    if x + y <= u64::MAX {
        (x + y) as u64
    } else {
        u64::MAX
    }
}

/// A chunk may enter the batch buffer: its path hash matches the transfer's
/// (once one is known), a DATA chunk holds 1 to CHUNK_SIZE bytes, a PARITY
/// shard exactly SHARD_SIZE bytes, and the data hash field is the MD5 hex
/// digest of the payload.
pub open spec fn chunk_valid(p: PacketView, path_hash: Option<Seq<u8>>, pkg_type: u8) -> bool {
    &&& (path_hash matches Some(h) ==> p.path_hash == h)
    &&& (pkg_type == PKG_TYPE_DATA ==> 1 <= p.data.len() <= CHUNK_SIZE)
    &&& (pkg_type == PKG_TYPE_PARITY ==> p.data.len() == SHARD_SIZE)
    &&& p.data_hash == md5_hex_bytes(p.data)
}

/// Whether two byte strings are equal.
pub fn bytes_equal(a: &[u8], b: &[u8]) -> (eq: bool)
    ensures
        eq == (a@ == b@),
{
    if a.len() != b.len() {
        return false;
    }
    let mut i: usize = 0;
    while i < a.len()
        invariant
            i <= a@.len(),
            a@.len() == b@.len(),
            forall|j: int| 0 <= j < i ==> a@[j] == b@[j],
        decreases a@.len() - i,
    {
        if a[i] != b[i] {
            return false;
        }
        i = i + 1;
    }
    assert(a@ =~= b@);
    true
}

/// Validates a chunk against the current transfer and the expected payload
/// length for the packet type (see [`chunk_valid`]).
pub fn is_chunk_valid(packet: &Packet, state: &ReceiveState, pkg_type: u8) -> (valid: bool)
    ensures
        valid == chunk_valid(packet@, state@.path_hash, pkg_type),
{
    if let Some(ph) = &state.path_hash {
        if !bytes_equal(packet.path_hash.as_slice(), ph.as_slice()) {
            return false;
        }
    }
    let len = packet.data.len();
    if pkg_type == PKG_TYPE_DATA && !(1 <= len && len <= CHUNK_SIZE) {
        return false;
    }
    if pkg_type == PKG_TYPE_PARITY && len != SHARD_SIZE {
        return false;
    }
    let expected = md5_hex(packet.data.as_slice());
    bytes_equal(expected.as_str().as_bytes(), packet.data_hash.as_slice())
}

/// The batch that DATA chunk `count` belongs to.
pub fn batch_for_data(count: u64) -> (batch: u64)
    ensures
        batch == count / BATCH_DATA_CHUNKS as u64,
{
    count / BATCH_DATA_CHUNKS as u64
}

/// The batch that PARITY shard `count` belongs to.
pub fn batch_for_parity(count: u64) -> (batch: u64)
    ensures
        batch == count / BATCH_PARITY_CHUNKS as u64,
{
    count / BATCH_PARITY_CHUNKS as u64
}

/// Number of CHUNK_SIZE chunks that a file of `file_size` bytes takes.
pub open spec fn total_chunks(file_size: u64) -> nat {
    ((file_size + 939) / 940) as nat
}

/// Number of data chunks in batch `batch_idx` of a file of `file_size`
/// bytes: BATCH_DATA_CHUNKS, fewer for the last batch, none past the end.
pub open spec fn batch_len(batch_idx: u64, file_size: u64) -> nat {
    let total = total_chunks(file_size);
    let start = batch_idx * 1000;
    if start >= total {
        0
    } else if total - start < 1000 {
        (total - start) as nat
    } else {
        1000
    }
}

/// Number of data chunks in batch `batch_idx` (see [`batch_len`]).
pub fn batch_data_size(batch_idx: u64, file_size: u64) -> (n: usize)
    ensures
        n == batch_len(batch_idx, file_size),
        n <= BATCH_DATA_CHUNKS,
{
    let total: u64 = file_size / 940 + if file_size % 940 != 0 {
        1u64
    } else {
        0u64
    };
    assert(total == total_chunks(file_size));
    let start: u128 = batch_idx as u128 * 1000;
    if start >= total as u128 {
        0
    } else {
        let rest: u128 = total as u128 - start;
        if rest < 1000 {
            rest as usize
        } else {
            1000
        }
    }
}

/// The effect of buffering DATA chunk `count` with payload `data`:
/// nothing if that count is buffered already; the transfer marked failed if
/// the buffered bytes would pass the cap; otherwise the chunk is buffered
/// and counted in the transfer's and the statistics' byte totals.
pub open spec fn buffered_data(o: ReceiveView, st: Stats, count: u64, data: Seq<u8>) -> (
    ReceiveView,
    Stats,
) {
    if o.data.contains_key(count) {
        (o, st)
    } else if o.bytes_buffered + data.len() > BUFFER_BYTE_LIMIT {
        (ReceiveView { failed: true, ..o }, st)
    } else {
        (
            ReceiveView {
                bytes_buffered: (o.bytes_buffered + data.len()) as usize,
                bytes_transferred: add_sat_u64(o.bytes_transferred, data.len()),
                data: o.data.insert(count, data),
                ..o
            },
            Stats { total_transferred: add_sat_u64(st.total_transferred, data.len()), ..st },
        )
    }
}

/// The effect of buffering a PARITY shard under `idx_in_batch`: nothing if
/// that index is buffered already; the transfer marked failed if the
/// buffered bytes would pass the cap; otherwise the shard is buffered.
pub open spec fn buffered_parity(o: ReceiveView, idx_in_batch: u64, data: Seq<u8>) -> ReceiveView {
    if o.parity.contains_key(idx_in_batch) {
        o
    } else if o.bytes_buffered + data.len() > BUFFER_BYTE_LIMIT {
        ReceiveView { failed: true, ..o }
    } else {
        ReceiveView {
            bytes_buffered: (o.bytes_buffered + data.len()) as usize,
            parity: o.parity.insert(idx_in_batch, data),
            ..o
        }
    }
}

/// Buffers a validated DATA chunk of the current batch, unless its count is
/// already buffered. If it would take the buffered bytes past the cap, the
/// transfer is marked failed instead.
pub fn buffer_data(state: &mut ReceiveState, stats: &mut Stats, packet: Packet)
    ensures
        (final(state)@, *final(stats)) == buffered_data(
            old(state)@,
            *old(stats),
            packet.count,
            packet.data@,
        ),
        receive_wf(old(state)@) && 1 <= packet.data@.len() <= CHUNK_SIZE && packet.count / 1000
            == old(state)@.current_batch ==> receive_wf(final(state)@),
        buffer_inv(old(state)@) ==> buffer_inv(final(state)@),
{
    if state.data_buffer.contains_key(&packet.count) {
        return;
    }
    let len = packet.data.len();
    if state.bytes_buffered.saturating_add(len) > BUFFER_BYTE_LIMIT {
        state.failed = true;
        proof {
            assert(state@.data =~= old(state)@.data);
            assert(state@.parity =~= old(state)@.parity);
        }
        return;
    }
    state.bytes_buffered = state.bytes_buffered.saturating_add(len);
    state.bytes_transferred = state.bytes_transferred.saturating_add(len as u64);
    stats.total_transferred = stats.total_transferred.saturating_add(len as u64);
    let ghost d = packet.data@;
    state.data_buffer.insert(packet.count, packet.data);
    proof {
        assert(state@.data =~= old(state)@.data.insert(packet.count, d));
        assert(state@.parity =~= old(state)@.parity);
        lemma_range_insert(old(state)@.data, 0, (u64::MAX + 1) as nat, packet.count, d);
    }
}

/// Buffers a validated PARITY shard of the current batch under its index
/// within the batch, unless that index is already buffered. If it would
/// take the buffered bytes past the cap, the transfer is marked failed
/// instead.
pub fn buffer_parity(state: &mut ReceiveState, packet: Packet, idx_in_batch: u64)
    ensures
        final(state)@ == buffered_parity(old(state)@, idx_in_batch, packet.data@),
        receive_wf(old(state)@) && packet.data@.len() == SHARD_SIZE && idx_in_batch < 100
            ==> receive_wf(final(state)@),
        buffer_inv(old(state)@) ==> buffer_inv(final(state)@),
{
    if state.parity_buffer.contains_key(&idx_in_batch) {
        return;
    }
    let len = packet.data.len();
    if state.bytes_buffered.saturating_add(len) > BUFFER_BYTE_LIMIT {
        state.failed = true;
        proof {
            assert(state@.data =~= old(state)@.data);
            assert(state@.parity =~= old(state)@.parity);
        }
        return;
    }
    state.bytes_buffered = state.bytes_buffered.saturating_add(len);
    let ghost d = packet.data@;
    state.parity_buffer.insert(idx_in_batch, packet.data);
    proof {
        assert(state@.parity =~= old(state)@.parity.insert(idx_in_batch, d));
        assert(state@.data =~= old(state)@.data);
        lemma_range_insert(old(state)@.parity, 0, (u64::MAX + 1) as nat, idx_in_batch, d);
    }
}

/// Ends the transfer in progress, if any, counting it as transferred or as
/// failed, and returns the receiver to the idle state.
pub fn reset_transfer(state: &mut ReceiveState, stats: &mut Stats, success: bool)
    ensures
        idle_unless_receiving(old(state)@) ==> idle_unless_receiving(final(state)@),
        final(state)@ == idle_view(),
        *final(stats) == (if old(state)@.file_path is None {
            *old(stats)
        } else if success {
            Stats { files_transferred: inc_sat(old(stats).files_transferred), ..*old(stats) }
        } else {
            Stats { files_failed: inc_sat(old(stats).files_failed), ..*old(stats) }
        }),
{
    if state.file_path.is_some() {
        if success {
            stats.files_transferred = stats.files_transferred.saturating_add(1);
        } else {
            stats.files_failed = stats.files_failed.saturating_add(1);
        }
    }
    *state = ReceiveState::new();
}


/// Length of the last chunk of a file of `file_size` bytes.
pub open spec fn last_chunk_len(file_size: u64) -> nat {
    if file_size % 940 == 0 {
        940
    } else {
        (file_size % 940) as nat
    }
}

/// Length that chunk `abs` of a file of `file_size` bytes has.
pub open spec fn expected_chunk_len(file_size: u64, abs: nat) -> nat {
    if abs + 1 == total_chunks(file_size) {
        last_chunk_len(file_size)
    } else {
        940
    }
}

/// Why a batch could not be reconstructed or laid out.
#[derive(Debug, Clone, Copy, PartialEq, Eq, Structural)]
pub enum FinalizeError {
    /// Chunks are missing and the transfer carries no parity.
    FecDisabled { batch: u64, missing: usize },
    /// Fewer data and parity shards arrived than the batch has chunks.
    Insufficient { batch: u64, data: usize, parity: usize, need: usize },
    /// The Reed-Solomon decoder refused the shards.
    FecFailed { batch: u64 },
    /// A buffered chunk is shorter than its place in the file.
    ChunkTooShort { chunk: u64, len: usize, expected: usize },
    /// A reconstructed chunk is shorter than its place in the file.
    RestoredTooShort { chunk: u64, len: usize, expected: usize },
    /// A chunk is neither buffered nor reconstructed.
    StillMissing { chunk: u64 },
}

/// Bytes to write at `offset` of the output file.
#[derive(Debug)]
pub struct BatchWrite {
    pub offset: u64,
    pub bytes: Vec<u8>,
}

/// A chunk zero-padded (or cut) to SHARD_SIZE bytes, as the FEC coder
/// takes it.
pub open spec fn padded_shard(chunk: Seq<u8>) -> Seq<u8> {
    let n = if chunk.len() < SHARD_SIZE {
        chunk.len()
    } else {
        SHARD_SIZE as nat
    };
    chunk.take(n as int) + Seq::new((SHARD_SIZE - n) as nat, |i: int| 0u8)
}

/// The original shards handed to the decoder: for each of the first `n`
/// chunks of the batch starting at chunk `start` that is buffered, its
/// index within the batch and its padded bytes, in index order.
pub open spec fn fec_originals(data: Map<u64, Seq<u8>>, start: nat, n: nat) -> Seq<
    (usize, Seq<u8>),
>
    decreases n,
{
    if n == 0 {
        Seq::empty()
    } else {
        let prev = fec_originals(data, start, (n - 1) as nat);
        let k = start + n - 1;
        if k <= u64::MAX && data.contains_key(k as u64) {
            prev.push(((n - 1) as usize, padded_shard(data[k as u64])))
        } else {
            prev
        }
    }
}

/// The recovery shards handed to the decoder: each buffered parity shard
/// with index below `n` and below the transfer's parity count, cut to
/// SHARD_SIZE bytes, in index order.
pub open spec fn fec_recoveries(parity: Map<u64, Seq<u8>>, parity_per_batch: usize, n: nat) -> Seq<
    (usize, Seq<u8>),
>
    decreases n,
{
    if n == 0 {
        Seq::empty()
    } else {
        let prev = fec_recoveries(parity, parity_per_batch, (n - 1) as nat);
        let j = (n - 1) as u64;
        if parity.contains_key(j) && j < parity_per_batch && parity[j].len() >= SHARD_SIZE {
            prev.push(((n - 1) as usize, parity[j].take(SHARD_SIZE as int)))
        } else {
            prev
        }
    }
}

/// The bytes that chunk `i` of the batch starting at chunk `start`
/// contributes: the buffered chunk if there is one, else the restored one,
/// cut to the chunk's length in the file.
pub open spec fn chunk_bytes(
    data: Map<u64, Seq<u8>>,
    restored: Map<usize, Seq<u8>>,
    file_size: u64,
    start: nat,
    i: nat,
) -> Result<Seq<u8>, FinalizeError> {
    let abs = start + i;
    let expected = expected_chunk_len(file_size, abs);
    if abs <= u64::MAX && data.contains_key(abs as u64) {
        let c = data[abs as u64];
        if c.len() < expected {
            Err(
                FinalizeError::ChunkTooShort {
                    chunk: abs as u64,
                    len: c.len() as usize,
                    expected: expected as usize,
                },
            )
        } else {
            Ok(c.take(expected as int))
        }
    } else if restored.contains_key(i as usize) {
        let c = restored[i as usize];
        if c.len() < expected {
            Err(
                FinalizeError::RestoredTooShort {
                    chunk: abs as u64,
                    len: c.len() as usize,
                    expected: expected as usize,
                },
            )
        } else {
            Ok(c.take(expected as int))
        }
    } else {
        Err(FinalizeError::StillMissing { chunk: abs as u64 })
    }
}

/// The first `n` chunks of the batch laid out in order, or the first
/// chunk's error.
pub open spec fn batch_bytes(
    data: Map<u64, Seq<u8>>,
    restored: Map<usize, Seq<u8>>,
    file_size: u64,
    start: nat,
    n: nat,
) -> Result<Seq<u8>, FinalizeError>
    decreases n,
{
    if n == 0 {
        Ok(Seq::empty())
    } else {
        match batch_bytes(data, restored, file_size, start, (n - 1) as nat) {
            Err(e) => Err(e),
            Ok(prefix) => match chunk_bytes(data, restored, file_size, start, (n - 1) as nat) {
                Err(e) => Err(e),
                Ok(c) => Ok(prefix + c),
            },
        }
    }
}

/// The chunks that the decoder restores for the current batch, or why they
/// cannot be had: none are needed if every chunk is buffered; otherwise FEC
/// must be enabled, enough shards must have arrived, and the decoder must
/// accept them.
pub open spec fn restored_chunks(v: ReceiveView) -> Result<Map<usize, Seq<u8>>, FinalizeError> {
    let n = batch_len(v.current_batch, v.file_size);
    let start = v.current_batch * 1000;
    let ppb = v.parity_per_batch as usize;
    let data_received = v.data.dom().len();
    let parity_received = v.parity.dom().len();
    if data_received >= n {
        Ok(Map::empty())
    } else if ppb == 0 {
        Err(
            FinalizeError::FecDisabled {
                batch: v.current_batch,
                missing: (n - data_received) as usize,
            },
        )
    } else if data_received + parity_received < n {
        Err(
            FinalizeError::Insufficient {
                batch: v.current_batch,
                data: data_received as usize,
                parity: parity_received as usize,
                need: n as usize,
            },
        )
    } else {
        match rs_restored_of(
            n as usize,
            ppb,
            fec_originals(v.data, start as nat, n),
            fec_recoveries(v.parity, ppb, 100),
        ) {
            Some(m) => Ok(m),
            None => Err(FinalizeError::FecFailed { batch: v.current_batch }),
        }
    }
}

/// What finalizing the current batch yields: nothing to write for a batch
/// past the end of the file; otherwise its bytes and their offset in the
/// file, or the reason it failed.
pub open spec fn finalize_result(v: ReceiveView) -> Result<Option<(u64, Seq<u8>)>, FinalizeError> {
    let n = batch_len(v.current_batch, v.file_size);
    let start = v.current_batch * 1000;
    if n == 0 {
        Ok(None)
    } else {
        match restored_chunks(v) {
            Err(e) => Err(e),
            Ok(m) => match batch_bytes(v.data, m, v.file_size, start as nat, n) {
                Err(e) => Err(e),
                Ok(b) => Ok(Some(((start * 940) as u64, b))),
            },
        }
    }
}

/// The state with the batch buffers emptied.
pub open spec fn cleared(v: ReceiveView) -> ReceiveView {
    ReceiveView { data: Map::empty(), parity: Map::empty(), bytes_buffered: 0, ..v }
}

/// The state after finalizing the current batch with result `w`: the batch
/// buffers emptied and, when the batch had bytes, the content digest
/// stepped over them.
pub open spec fn finalized(v: ReceiveView, w: Option<(u64, Seq<u8>)>) -> ReceiveView {
    match w {
        Some(x) => ReceiveView { digest: digest_step(v.digest, x.1), ..cleared(v) },
        None => cleared(v),
    }
}

/// Empties the batch buffers.
fn clear_batch(state: &mut ReceiveState)
    ensures
        final(state)@ == cleared(old(state)@),
        receive_wf(final(state)@),
{
    state.data_buffer.clear();
    state.parity_buffer.clear();
    state.bytes_buffered = 0;
    proof {
        assert(state@.data =~= Map::<u64, Seq<u8>>::empty());
        assert(state@.parity =~= Map::<u64, Seq<u8>>::empty());
        lemma_empty_buffers_wf(state@);
    }
}

/// `chunk` zero-padded (or cut) to SHARD_SIZE bytes.
fn pad_shard(chunk: &Vec<u8>) -> (shard: Vec<u8>)
    ensures
        shard@ == padded_shard(chunk@),
{
    let n = if chunk.len() < SHARD_SIZE {
        chunk.len()
    } else {
        SHARD_SIZE
    };
    let mut shard = Vec::new();
    append_bytes(&mut shard, &chunk.as_slice()[0..n]);
    let mut i = n;
    while i < SHARD_SIZE
        invariant
            n <= i <= SHARD_SIZE,
            shard@ == chunk@.take(n as int) + Seq::new((i - n) as nat, |k: int| 0u8),
        decreases SHARD_SIZE - i,
    {
        shard.push(0u8);
        i = i + 1;
        assert(chunk@.take(n as int) + Seq::new((i - n) as nat, |k: int| 0u8) =~= (chunk@.take(
            n as int,
        ) + Seq::new((i - 1 - n) as nat, |k: int| 0u8)).push(0u8));
    }
    shard
}

/// The original shards for the decoder (see [`fec_originals`]).
fn collect_originals(data: &BTreeMap<u64, Vec<u8>>, start: u64, n: usize) -> (originals: Vec<
    (usize, Vec<u8>),
>)
    requires
        start + n <= u64::MAX,
    ensures
        indexed_view(originals@) == fec_originals(buffer_view(data@), start as nat, n as nat),
{
    let mut originals: Vec<(usize, Vec<u8>)> = Vec::new();
    let mut i: usize = 0;
    while i < n
        invariant
            i <= n,
            start + n <= u64::MAX,
            indexed_view(originals@) == fec_originals(buffer_view(data@), start as nat, i as nat),
        decreases n - i,
    {
        let k: u64 = start + i as u64;
        match data.get(&k) {
            Some(chunk) => {
                let shard = pad_shard(chunk);
                let ghost before = originals@;
                originals.push((i, shard));
                proof {
                    assert(indexed_view(originals@) =~= indexed_view(before).push(
                        (i, padded_shard(buffer_view(data@)[k])),
                    ));
                }
            },
            None => {},
        }
        i = i + 1;
    }
    originals
}

/// The recovery shards for the decoder (see [`fec_recoveries`]).
fn collect_recoveries(parity: &BTreeMap<u64, Vec<u8>>, parity_per_batch: usize) -> (recoveries:
    Vec<(usize, Vec<u8>)>)
    ensures
        indexed_view(recoveries@) == fec_recoveries(buffer_view(parity@), parity_per_batch, 100),
{
    let mut recoveries: Vec<(usize, Vec<u8>)> = Vec::new();
    let mut j: usize = 0;
    while j < 100
        invariant
            j <= 100,
            indexed_view(recoveries@) == fec_recoveries(
                buffer_view(parity@),
                parity_per_batch,
                j as nat,
            ),
        decreases 100 - j,
    {
        let k: u64 = j as u64;
        match parity.get(&k) {
            Some(shard) => {
                if j < parity_per_batch && shard.len() >= SHARD_SIZE {
                    let mut cut = Vec::new();
                    append_bytes(&mut cut, &shard.as_slice()[0..SHARD_SIZE]);
                    let ghost before = recoveries@;
                    recoveries.push((j, cut));
                    proof {
                        assert(indexed_view(recoveries@) =~= indexed_view(before).push(
                            (j, buffer_view(parity@)[k].take(SHARD_SIZE as int)),
                        ));
                    }
                }
            },
            None => {},
        }
        j = j + 1;
    }
    recoveries
}

proof fn lemma_batch_bytes_err_sticks(
    data: Map<u64, Seq<u8>>,
    restored: Map<usize, Seq<u8>>,
    file_size: u64,
    start: nat,
    i: nat,
    n: nat,
)
    requires
        i <= n,
        batch_bytes(data, restored, file_size, start, i) is Err,
    ensures
        batch_bytes(data, restored, file_size, start, n) == batch_bytes(
            data,
            restored,
            file_size,
            start,
            i,
        ),
    decreases n - i,
{
    if i < n {
        lemma_batch_bytes_err_sticks(data, restored, file_size, start, i, (n - 1) as nat);
    }
}

/// Lays out the first `n` chunks of the batch starting at chunk `start`
/// (see [`batch_bytes`]).
fn assemble_batch(
    data: &BTreeMap<u64, Vec<u8>>,
    restored: &BTreeMap<usize, Vec<u8>>,
    file_size: u64,
    start: u64,
    n: usize,
) -> (r: Result<Vec<u8>, FinalizeError>)
    requires
        start + n <= total_chunks(file_size),
    ensures
        match r {
            Ok(b) => batch_bytes(
                buffer_view(data@),
                restored_view(restored@),
                file_size,
                start as nat,
                n as nat,
            ) == Ok::<Seq<u8>, FinalizeError>(b@),
            Err(e) => batch_bytes(
                buffer_view(data@),
                restored_view(restored@),
                file_size,
                start as nat,
                n as nat,
            ) == Err::<Seq<u8>, FinalizeError>(e),
        },
{
    let ghost dv = buffer_view(data@);
    let ghost rv = restored_view(restored@);
    let total: u64 = file_size / 940 + if file_size % 940 != 0 {
        1u64
    } else {
        0u64
    };
    let rem = file_size % 940;
    let last: usize = if rem == 0 {
        CHUNK_SIZE
    } else {
        rem as usize
    };
    let mut bytes: Vec<u8> = Vec::new();
    let mut i: usize = 0;
    while i < n
        invariant
            i <= n,
            start + n <= total_chunks(file_size),
            total == total_chunks(file_size),
            last == last_chunk_len(file_size),
            dv == buffer_view(data@),
            rv == restored_view(restored@),
            batch_bytes(dv, rv, file_size, start as nat, i as nat) == Ok::<Seq<u8>, FinalizeError>(
                bytes@,
            ),
        decreases n - i,
    {
        let abs: u64 = start + i as u64;
        let expected: usize = if abs + 1 == total {
            last
        } else {
            CHUNK_SIZE
        };
        assert(expected == expected_chunk_len(file_size, abs as nat));
        let piece: &[u8] = match data.get(&abs) {
            Some(chunk) => {
                if chunk.len() < expected {
                    let e = FinalizeError::ChunkTooShort { chunk: abs, len: chunk.len(), expected };
                    proof {
                        lemma_batch_bytes_err_sticks(
                            dv,
                            rv,
                            file_size,
                            start as nat,
                            (i + 1) as nat,
                            n as nat,
                        );
                    }
                    return Err(e);
                }
                &chunk.as_slice()[0..expected]
            },
            None => match restored.get(&i) {
                Some(shard) => {
                    if shard.len() < expected {
                        let e = FinalizeError::RestoredTooShort {
                            chunk: abs,
                            len: shard.len(),
                            expected,
                        };
                        proof {
                            lemma_batch_bytes_err_sticks(
                                dv,
                                rv,
                                file_size,
                                start as nat,
                                (i + 1) as nat,
                                n as nat,
                            );
                        }
                        return Err(e);
                    }
                    &shard.as_slice()[0..expected]
                },
                None => {
                    proof {
                        lemma_batch_bytes_err_sticks(
                            dv,
                            rv,
                            file_size,
                            start as nat,
                            (i + 1) as nat,
                            n as nat,
                        );
                    }
                    return Err(FinalizeError::StillMissing { chunk: abs });
                },
            },
        };
        assert(chunk_bytes(dv, rv, file_size, start as nat, i as nat) == Ok::<
            Seq<u8>,
            FinalizeError,
        >(piece@));
        append_bytes(&mut bytes, piece);
        i = i + 1;
    }
    Ok(bytes)
}

/// Reconstructs the current batch from the buffered data and parity and
/// returns its bytes with their offset in the file, clearing the batch
/// buffers (see [`finalize_result`]). A batch past the end of the file
/// yields nothing to write. On error the state is left as it was.
pub fn finalize_current_batch(state: &mut ReceiveState) -> (r: Result<
    Option<BatchWrite>,
    FinalizeError,
>)
    requires
        receive_wf(old(state)@),
    ensures
        match r {
            Ok(None) => {
                &&& finalize_result(old(state)@) == Ok::<
                    Option<(u64, Seq<u8>)>,
                    FinalizeError,
                >(None)
                &&& final(state)@ == cleared(old(state)@)
            },
            Ok(Some(w)) => {
                &&& finalize_result(old(state)@) == Ok::<
                    Option<(u64, Seq<u8>)>,
                    FinalizeError,
                >(Some((w.offset, w.bytes@)))
                &&& final(state)@ == finalized(old(state)@, Some((w.offset, w.bytes@)))
            },
            Err(e) => {
                &&& finalize_result(old(state)@) == Err::<Option<(u64, Seq<u8>)>, FinalizeError>(
                    e,
                )
                &&& final(state)@ == old(state)@
            },
        },
        receive_wf(final(state)@),
        forall|cs: Seq<Seq<u8>>, rec: Seq<Seq<u8>>|
            #[trigger] shards_from_chunks(old(state)@, cs, rec) ==> (r matches Ok(Some(w))
                && w.offset == old(state)@.current_batch * 1000 * 940 && w.bytes@ == batch_content(
                cs,
                old(state)@.file_size,
                (old(state)@.current_batch * 1000) as nat,
                batch_len(old(state)@.current_batch, old(state)@.file_size),
            )),
        forall|f: Seq<u8>, rec: Seq<Seq<u8>>|
            #[trigger] shards_from_file(old(state)@, f, rec) ==> (r matches Ok(Some(w)) && w.offset
                == old(state)@.current_batch * 1000 * 940 && w.bytes@ == file_batch_bytes(
                f,
                old(state)@.current_batch,
            )),
{
    let ghost v = state@;
    let batch = state.current_batch;
    let file_size = state.file_size;
    let parity_per_batch = state.parity_per_batch as usize;
    let data_size = batch_data_size(batch, file_size);
    if data_size == 0 {
        clear_batch(state);
        return Ok(None);
    }
    assert(data_size <= 1000);
    assert(batch * 1000 < total_chunks(file_size));
    let start: u64 = batch * 1000;
    assert(start + data_size <= total_chunks(file_size));
    let data_received = state.data_buffer.len();
    let parity_received = state.parity_buffer.len();
    assert(v.data.dom() =~= state.data_buffer@.dom());
    assert(v.parity.dom() =~= state.parity_buffer@.dom());
    let restored: BTreeMap<usize, Vec<u8>> = if data_received >= data_size {
        let m = BTreeMap::new();
        assert(restored_view(m@) =~= Map::<usize, Seq<u8>>::empty());
        m
    } else {
        if parity_per_batch == 0 {
            return Err(FinalizeError::FecDisabled { batch, missing: data_size - data_received });
        }
        assert(data_received < data_size);
        if data_received.saturating_add(parity_received) < data_size {
            return Err(
                FinalizeError::Insufficient {
                    batch,
                    data: data_received,
                    parity: parity_received,
                    need: data_size,
                },
            );
        }
        let originals = collect_originals(&state.data_buffer, start, data_size);
        let recoveries = collect_recoveries(&state.parity_buffer, parity_per_batch);
        let decoded = rs_decode(data_size, parity_per_batch, originals, recoveries);
        proof {
            assert forall|cs: Seq<Seq<u8>>, rec: Seq<Seq<u8>>| #[trigger]
                shards_from_chunks(v, cs, rec) implies {
                &&& decoded is Ok
                &&& forall|i: usize|
                    i < data_size && !index_given(
                        fec_originals(v.data, (batch * 1000) as nat, data_size as nat),
                        i,
                    ) ==> (#[trigger] restored_view(decoded->Ok_0@).contains_key(i))
                        && restored_view(decoded->Ok_0@)[i] == padded_batch(cs)[i as int]
            } by {
                lemma_decode_inputs_consistent(v, cs, rec);
            }
            assert forall|f: Seq<u8>, rec: Seq<Seq<u8>>| #[trigger]
                shards_from_file(v, f, rec) implies shards_from_chunks(
                v,
                file_batch_chunks(f, batch),
                rec,
            ) by {
                lemma_file_as_chunks(v, f, rec);
            }
        }
        match decoded {
            Ok(m) => m,
            Err(_) => {
                return Err(FinalizeError::FecFailed { batch });
            },
        }
    };
    proof {
        assert forall|cs: Seq<Seq<u8>>, rec: Seq<Seq<u8>>| #[trigger]
            shards_from_chunks(v, cs, rec) implies batch_bytes(
            v.data,
            restored_view(restored@),
            file_size,
            start as nat,
            data_size as nat,
        ) == Ok::<Seq<u8>, FinalizeError>(batch_content(cs, file_size, start as nat, data_size as nat)) by {
            if data_received >= data_size {
                assert(restored_view(restored@) =~= Map::<usize, Seq<u8>>::empty());
            }
            lemma_restored_available(v, cs, rec, restored_view(restored@));
            lemma_batch_from_chunks(
                v.data,
                restored_view(restored@),
                cs,
                file_size,
                start as nat,
                data_size as nat,
            );
        }
        assert forall|f: Seq<u8>, rec: Seq<Seq<u8>>| #[trigger]
            shards_from_file(v, f, rec) implies shards_from_chunks(v, file_batch_chunks(f, batch), rec)
            && batch_content(file_batch_chunks(f, batch), file_size, start as nat, data_size as nat)
            == file_batch_bytes(f, batch) by {
            lemma_file_as_chunks(v, f, rec);
        }
    }
    assert(restored_chunks(v) == Ok::<Map<usize, Seq<u8>>, FinalizeError>(
        restored_view(restored@),
    ));
    let bytes = match assemble_batch(&state.data_buffer, &restored, file_size, start, data_size) {
        Ok(b) => b,
        Err(e) => {
            return Err(e);
        },
    };
    assert(start * 940 <= u64::MAX) by (nonlinear_arith)
        requires
            start < total_chunks(file_size),
            total_chunks(file_size) == (file_size + 939) / 940,
            file_size <= u64::MAX,
    ;
    let offset: u64 = start * 940;
    clear_batch(state);
    let ghost before = state@;
    state.digest = content_digest_step(state.digest.as_str(), bytes.as_slice());
    proof {
        assert(state@.data =~= before.data);
        assert(state@.parity =~= before.parity);
        lemma_empty_buffers_wf(state@);
    }
    Ok(Some(BatchWrite { offset, bytes }))
}


/// The offsets and bytes of planned writes.
pub open spec fn writes_view(ws: Seq<BatchWrite>) -> Seq<(u64, Seq<u8>)> {
    ws.map_values(|w: BatchWrite| (w.offset, w.bytes@))
}

/// The effect of finalizing batches until `target` is the current batch:
/// each finished batch's write, in order; a finalize error marks the
/// transfer failed and stops; nothing happens to a failed transfer.
pub open spec fn advance_result(v: ReceiveView, target: u64) -> (
    ReceiveView,
    Seq<(u64, Seq<u8>)>,
    Option<FinalizeError>,
)
    decreases target - v.current_batch,
{
    if v.failed || v.current_batch >= target {
        (v, Seq::empty(), None)
    } else {
        match finalize_result(v) {
            Err(e) => (ReceiveView { failed: true, ..v }, Seq::empty(), Some(e)),
            Ok(w) => {
                let next = ReceiveView {
                    current_batch: (v.current_batch + 1) as u64,
                    ..finalized(v, w)
                };
                let rest = advance_result(next, target);
                (
                    rest.0,
                    match w {
                        Some(x) => seq![x] + rest.1,
                        None => rest.1,
                    },
                    rest.2,
                )
            },
        }
    }
}

proof fn lemma_advance_keeps_path(v: ReceiveView, target: u64)
    ensures
        advance_result(v, target).0.file_path == v.file_path,
    decreases target - v.current_batch,
{
    if !(v.failed || v.current_batch >= target) {
        if let Ok(w) = finalize_result(v) {
            let next = ReceiveView {
                current_batch: (v.current_batch + 1) as u64,
                ..finalized(v, w)
            };
            lemma_advance_keeps_path(next, target);
        }
    }
}

/// Finalizes the current batch (and any empty intermediate batches) until
/// `target_batch` is the current batch, returning the writes of the
/// finished batches in order. If a finalization fails, the transfer is
/// marked failed and advancing stops (see [`advance_result`]).
pub fn advance_to_batch(state: &mut ReceiveState, target_batch: u64) -> (r: (
    Vec<BatchWrite>,
    Option<FinalizeError>,
))
    requires
        receive_wf(old(state)@),
    ensures
        ({
            let a = advance_result(old(state)@, target_batch);
            &&& final(state)@ == a.0
            &&& writes_view(r.0@) == a.1
            &&& r.1 == a.2
        }),
        receive_wf(final(state)@),
{
    let ghost v0 = state@;
    let mut writes: Vec<BatchWrite> = Vec::new();
    while !state.failed && state.current_batch < target_batch
        invariant
            receive_wf(state@),
            v0 == old(state)@,
            ({
                let a0 = advance_result(v0, target_batch);
                let a = advance_result(state@, target_batch);
                &&& a.0 == a0.0
                &&& writes_view(writes@) + a.1 == a0.1
                &&& a.2 == a0.2
            }),
        decreases target_batch - state.current_batch,
    {
        let ghost before = state@;
        match finalize_current_batch(state) {
            Err(e) => {
                state.failed = true;
                proof {
                    assert(state@.data =~= before.data);
                    assert(state@.parity =~= before.parity);
                    assert(state@ == ReceiveView { failed: true, ..before });
                    assert(finalize_result(before) == Err::<Option<(u64, Seq<u8>)>, FinalizeError>(e));
                    assert(advance_result(before, target_batch) == (
                        ReceiveView { failed: true, ..before },
                        Seq::<(u64, Seq<u8>)>::empty(),
                        Some(e),
                    ));
                    assert(writes_view(writes@) + Seq::<(u64, Seq<u8>)>::empty() =~= writes_view(
                        writes@,
                    ));
                }
                return (writes, Some(e));
            },
            Ok(w) => {
                let ghost ws_before = writes@;
                match w {
                    Some(x) => {
                        writes.push(x);
                    },
                    None => {},
                }
                state.current_batch = state.current_batch + 1;
                proof {
                    let next = ReceiveView {
                        current_batch: (before.current_batch + 1) as u64,
                        ..finalized(before, finalize_result(before)->Ok_0)
                    };
                    assert(state@.data =~= next.data);
                    assert(state@.parity =~= next.parity);
                    assert(state@ == next);
                    lemma_empty_buffers_wf(state@);
                    let rest = advance_result(next, target_batch);
                    match finalize_result(before) {
                        Ok(Some(p)) => {
                            assert(writes_view(writes@) =~= writes_view(ws_before).push(p));
                            assert(writes_view(writes@) + rest.1 =~= writes_view(ws_before) + (seq![p]
                                + rest.1));
                        },
                        _ => {
                            assert(writes@ == ws_before);
                        },
                    }
                }
            },
        }
    }
    proof {
        assert(writes_view(writes@) + Seq::<(u64, Seq<u8>)>::empty() =~= writes_view(writes@));
    }
    (writes, None)
}

/// What handling a DATA packet does to the receiver: while a transfer is
/// in progress and not failed, a valid chunk first finalizes the batches
/// before its own (if it belongs to a later batch) and is then buffered if
/// its batch is the current one.
pub open spec fn data_packet_result(o: ReceiveView, st: Stats, p: PacketView) -> (
    ReceiveView,
    Stats,
    Seq<(u64, Seq<u8>)>,
    Option<FinalizeError>,
) {
    if o.file_path is Some && !o.failed && chunk_valid(p, o.path_hash, PKG_TYPE_DATA) {
        let batch = p.count / 1000;
        let a = if batch > o.current_batch {
            advance_result(o, batch)
        } else {
            (o, Seq::empty(), None)
        };
        let b = if !a.0.failed && batch == a.0.current_batch {
            buffered_data(a.0, st, p.count, p.data)
        } else {
            (a.0, st)
        };
        (b.0, b.1, a.1, a.2)
    } else {
        (o, st, Seq::empty(), None)
    }
}

/// What handling a PARITY packet does to the receiver: like a DATA packet,
/// with batches of BATCH_PARITY_CHUNKS shards and the shard buffered under
/// its index within the batch.
pub open spec fn parity_packet_result(o: ReceiveView, p: PacketView) -> (
    ReceiveView,
    Seq<(u64, Seq<u8>)>,
    Option<FinalizeError>,
) {
    if o.file_path is Some && !o.failed && chunk_valid(p, o.path_hash, PKG_TYPE_PARITY) {
        let batch = p.count / 100;
        let a = if batch > o.current_batch {
            advance_result(o, batch)
        } else {
            (o, Seq::empty(), None)
        };
        let v = if !a.0.failed && batch == a.0.current_batch {
            buffered_parity(a.0, p.count % 100, p.data)
        } else {
            a.0
        };
        (v, a.1, a.2)
    } else {
        (o, Seq::empty(), None)
    }
}

/// Handles a DATA packet (see [`data_packet_result`]), returning the writes
/// of the batches it finished.
pub fn handle_data_packet(state: &mut ReceiveState, stats: &mut Stats, packet: Packet) -> (r: (
    Vec<BatchWrite>,
    Option<FinalizeError>,
))
    requires
        receive_wf(old(state)@),
    ensures
        ({
            let d = data_packet_result(old(state)@, *old(stats), packet@);
            &&& final(state)@ == d.0
            &&& *final(stats) == d.1
            &&& writes_view(r.0@) == d.2
            &&& r.1 == d.3
        }),
        receive_wf(final(state)@),
        idle_unless_receiving(old(state)@) ==> idle_unless_receiving(final(state)@),
{
    proof {
        lemma_advance_keeps_path(state@, packet.count / 1000);
    }
    let ghost pv = packet@;
    if state.file_path.is_some() && !state.failed && is_chunk_valid(&packet, state, PKG_TYPE_DATA) {
        let batch = batch_for_data(packet.count);
        let mut out: (Vec<BatchWrite>, Option<FinalizeError>) = (Vec::new(), None);
        if batch > state.current_batch {
            out = advance_to_batch(state, batch);
        } else {
            assert(writes_view(out.0@) =~= Seq::<(u64, Seq<u8>)>::empty());
        }
        if !state.failed && batch == state.current_batch {
            buffer_data(state, stats, packet);
        }
        out
    } else {
        let out: (Vec<BatchWrite>, Option<FinalizeError>) = (Vec::new(), None);
        assert(writes_view(out.0@) =~= Seq::<(u64, Seq<u8>)>::empty());
        out
    }
}

/// Handles a PARITY packet (see [`parity_packet_result`]), returning the
/// writes of the batches it finished.
pub fn handle_parity_packet(state: &mut ReceiveState, packet: Packet) -> (r: (
    Vec<BatchWrite>,
    Option<FinalizeError>,
))
    requires
        receive_wf(old(state)@),
    ensures
        ({
            let d = parity_packet_result(old(state)@, packet@);
            &&& final(state)@ == d.0
            &&& writes_view(r.0@) == d.1
            &&& r.1 == d.2
        }),
        receive_wf(final(state)@),
        idle_unless_receiving(old(state)@) ==> idle_unless_receiving(final(state)@),
{
    proof {
        lemma_advance_keeps_path(state@, packet.count / 100);
    }
    if state.file_path.is_some() && !state.failed && is_chunk_valid(
        &packet,
        state,
        PKG_TYPE_PARITY,
    ) {
        let batch = batch_for_parity(packet.count);
        let mut out: (Vec<BatchWrite>, Option<FinalizeError>) = (Vec::new(), None);
        if batch > state.current_batch {
            out = advance_to_batch(state, batch);
        } else {
            assert(writes_view(out.0@) =~= Seq::<(u64, Seq<u8>)>::empty());
        }
        if !state.failed && batch == state.current_batch {
            let idx_in_batch = packet.count % BATCH_PARITY_CHUNKS as u64;
            buffer_parity(state, packet, idx_in_batch);
        }
        out
    } else {
        let out: (Vec<BatchWrite>, Option<FinalizeError>) = (Vec::new(), None);
        assert(writes_view(out.0@) =~= Seq::<(u64, Seq<u8>)>::empty());
        out
    }
}


/// The characters of an optional string.
pub open spec fn opt_string_view(s: Option<String>) -> Option<Seq<char>> {
    match s {
        Some(p) => Some(p@),
        None => None,
    }
}

/// A byte kept from a rejected path in the name of its failure marker:
/// an ASCII letter or digit, `-`, `_` or `.`.
pub open spec fn marker_byte(b: u8) -> bool {
    (48 <= b <= 57) || (65 <= b <= 90) || (97 <= b <= 122) || b == 45 || b == 95 || b == 46
}

/// `rejected-`: the start of the name of a rejected path's failure marker.
pub open spec fn marker_prefix() -> Seq<u8> {
    seq![114u8, 101, 106, 101, 99, 116, 101, 100, 45]
}

/// `.failed`: the end of the name of a failure marker.
pub open spec fn failed_suffix() -> Seq<u8> {
    seq![46u8, 102, 97, 105, 108, 101, 100]
}

/// The name of the failure marker for the rejected path `path`:
/// `rejected-`, the path's letters, digits, `-`, `_` and `.` (every
/// separator and other byte left out), then `.failed`. It is a single
/// normal file name, so it stays inside the output directory.
pub open spec fn rejected_marker(path: Seq<u8>) -> Seq<u8> {
    marker_prefix() + path.filter(|b: u8| marker_byte(b)) + failed_suffix()
}

/// The failure-marker name for a rejected path (see [`rejected_marker`]),
/// which is always safe to join onto the output directory.
#[verifier::spinoff_prover]
pub fn rejected_marker_name(path: &str) -> (m: String)
    ensures
        vstd::utf8::encode_utf8(m@) == rejected_marker(vstd::utf8::encode_utf8(path@)),
        safe_rel_path(rejected_marker(vstd::utf8::encode_utf8(path@))),
{
    let b = path.as_bytes();
    let ghost pred = |x: u8| marker_byte(x);
    let mut out: Vec<u8> = Vec::new();
    out.push(114u8);
    out.push(101u8);
    out.push(106u8);
    out.push(101u8);
    out.push(99u8);
    out.push(116u8);
    out.push(101u8);
    out.push(100u8);
    out.push(45u8);
    assert(out@ =~= marker_prefix());
    let mut i: usize = 0;
    while i < b.len()
        invariant
            i <= b@.len(),
            pred == (|x: u8| marker_byte(x)),
            out@ == marker_prefix() + b@.take(i as int).filter(pred),
        decreases b@.len() - i,
    {
        let x = b[i];
        proof {
            reveal(Seq::filter);
            assert(b@.take(i + 1).drop_last() =~= b@.take(i as int));
            assert(b@.take(i + 1).last() == x);
        }
        if (48u8 <= x && x <= 57u8) || (65u8 <= x && x <= 90u8) || (97u8 <= x && x <= 122u8) || x
            == 45u8 || x == 95u8 || x == 46u8 {
            out.push(x);
        }
        i = i + 1;
        proof {
            reveal(Seq::filter);
            assert(out@ =~= marker_prefix() + b@.take(i as int).filter(pred));
        }
    }
    assert(b@.take(i as int) =~= b@);
    out.push(46u8);
    out.push(102u8);
    out.push(97u8);
    out.push(105u8);
    out.push(108u8);
    out.push(101u8);
    out.push(100u8);
    let ghost kept = b@.filter(pred);
    let ghost name = rejected_marker(b@);
    assert(out@ =~= name);
    proof {
        b@.filter_lemma(pred);
        assert forall|k: int| 0 <= k < name.len() implies #[trigger] name[k] < 128 && name[k]
            != 47u8 && name[k] != 0u8 by {
            if 9 <= k < 9 + kept.len() {
                assert(name[k] == kept[k - 9]);
                assert(pred(kept[k - 9]));
            }
        }
        assert(!name.contains(0u8));
        assert(!crate::proto::has_dot_component(name)) by {
            if crate::proto::has_dot_component(name) {
                let k = choose|k: int| crate::proto::dot_component_at(name, k);
                assert(k == 0 || name[k - 1] == 47u8);
                assert(name[0] == 114u8);
            }
        }
    }
    crate::ascii::string_from_ascii(out.as_slice())
}

/// What the receiver decides on a START packet naming `path`.
pub enum StartDecision {
    /// The transfer of `path` is already in progress (a repeated START).
    AlreadyReceiving,
    /// The path is unsafe and the transfer is refused; `aborted` is the
    /// unfinished transfer that the START interrupted, if any, and `marker`
    /// the name of the failure marker that the caller leaves in the output
    /// directory (see [`rejected_marker`]).
    Rejected { aborted: Option<String>, marker: String },
    /// The caller may now open the output file and call
    /// [`begin_transfer`]; `aborted` is the unfinished transfer that the
    /// START interrupted, if any.
    Accepted { aborted: Option<String> },
}

/// Decides on a START packet naming `path`. A repeated START for the file
/// in progress changes nothing. Otherwise an unfinished transfer is ended
/// as failed, and the path is refused (and counted as failed) unless it is
/// safe to join onto the output directory.
pub fn new_file(state: &mut ReceiveState, stats: &mut Stats, path: &String) -> (d: StartDecision)
    ensures
        idle_unless_receiving(old(state)@) ==> idle_unless_receiving(final(state)@),
        ({
            let o = old(state)@;
            let after_abort = if o.file_path is Some {
                Stats { files_failed: inc_sat(old(stats).files_failed), ..*old(stats) }
            } else {
                *old(stats)
            };
            let safe = safe_rel_path(vstd::utf8::encode_utf8(path@));
            match d {
                StartDecision::AlreadyReceiving => {
                    &&& o.file_path == Some(path@)
                    &&& final(state)@ == o
                    &&& *final(stats) == *old(stats)
                },
                StartDecision::Rejected { aborted, marker } => {
                    &&& o.file_path != Some(path@)
                    &&& vstd::utf8::encode_utf8(marker@) == rejected_marker(
                        vstd::utf8::encode_utf8(path@),
                    )
                    &&& safe_rel_path(vstd::utf8::encode_utf8(marker@))
                    &&& opt_string_view(aborted) == o.file_path
                    &&& !safe
                    &&& final(state)@ == idle_view()
                    &&& *final(stats) == (Stats {
                        files_failed: inc_sat(after_abort.files_failed),
                        ..after_abort
                    })
                },
                StartDecision::Accepted { aborted } => {
                    &&& o.file_path != Some(path@)
                    &&& opt_string_view(aborted) == o.file_path
                    &&& safe
                    &&& final(state)@ == (if o.file_path is Some {
                        idle_view()
                    } else {
                        o
                    })
                    &&& *final(stats) == after_abort
                },
            }
        }),
{
    if let Some(cur) = &state.file_path {
        if *cur == *path {
            return StartDecision::AlreadyReceiving;
        }
    }
    let aborted: Option<String> = match &state.file_path {
        Some(p) => Some(p.clone()),
        None => None,
    };
    if aborted.is_some() {
        reset_transfer(state, stats, false);
    }
    if !is_safe_rel_path(path.as_str()) {
        stats.files_failed = stats.files_failed.saturating_add(1);
        reset_transfer(state, stats, false);
        let marker = rejected_marker_name(path.as_str());
        return StartDecision::Rejected { aborted, marker };
    }
    StartDecision::Accepted { aborted }
}

/// Records that the output file for an accepted START could not be opened.
pub fn record_open_failure(stats: &mut Stats)
    ensures
        *final(stats) == (Stats { files_failed: inc_sat(old(stats).files_failed), ..*old(stats) }),
{
    stats.files_failed = stats.files_failed.saturating_add(1);
}

/// Starts receiving `path` once its output file is open: `size` bytes,
/// chunks tagged with `path_hash`, `parity_per_batch` parity shards per
/// batch, from batch 0.
pub fn begin_transfer(
    state: &mut ReceiveState,
    path: String,
    size: u64,
    path_hash: Vec<u8>,
    parity_per_batch: u64,
)
    ensures
        idle_unless_receiving(old(state)@) ==> idle_unless_receiving(final(state)@),
        final(state)@ == (ReceiveView {
            file_path: Some(path@),
            path_hash: Some(path_hash@),
            file_size: size,
            parity_per_batch,
            current_batch: 0,
            ..old(state)@
        }),
{
    let ghost o = state@;
    state.file_path = Some(path);
    state.path_hash = Some(path_hash);
    state.file_size = size;
    state.parity_per_batch = parity_per_batch;
    state.current_batch = 0;
    proof {
        assert(state@.data =~= o.data);
        assert(state@.parity =~= o.parity);
    }
}

/// Counts forwarded UDP payload bytes in the statistics.
pub fn record_udp_bytes(stats: &mut Stats, len: usize)
    ensures
        *final(stats) == (Stats {
            total_transferred: add_sat_u64(old(stats).total_transferred, len as nat),
            ..*old(stats)
        }),
{
    stats.total_transferred = stats.total_transferred.saturating_add(len as u64);
}

/// What remains to do for an END packet: the path of the transfer, the
/// last batch's write (if it was finalized and the content digest agrees),
/// whether the transfer has failed, the finalize error that made it fail
/// (if any), and whether it failed because the content digest differs from
/// the one the END packet carries.
pub struct FinishPlan {
    pub rel_path: String,
    pub write: Option<BatchWrite>,
    pub failed: bool,
    pub error: Option<FinalizeError>,
    pub digest_mismatch: bool,
}

/// The offset and bytes of an optional write.
pub open spec fn opt_write_view(w: Option<BatchWrite>) -> Option<(u64, Seq<u8>)> {
    match w {
        Some(x) => Some((x.offset, x.bytes@)),
        None => None,
    }
}

/// Plans the end of the transfer in progress on an END packet whose
/// data-hash field is `end_digest`: unless the transfer has failed, its
/// last batch is finalized (an error marks it failed), and the content
/// digest of all its batches is compared with `end_digest` (a difference
/// marks it failed). `None` if no transfer is in progress.
pub fn finish_file(state: &mut ReceiveState, end_digest: &[u8]) -> (plan: Option<FinishPlan>)
    requires
        receive_wf(old(state)@),
    ensures
        idle_unless_receiving(old(state)@) ==> idle_unless_receiving(final(state)@),
        receive_wf(final(state)@),
        ({
            let o = old(state)@;
            match plan {
                None => o.file_path is None && final(state)@ == o,
                Some(p) => {
                    &&& o.file_path == Some(p.rel_path@)
                    &&& if o.failed {
                        &&& final(state)@ == o
                        &&& p.failed
                        &&& p.write is None
                        &&& p.error is None
                        &&& !p.digest_mismatch
                    } else {
                        match finalize_result(o) {
                            Ok(w) => {
                                let v = finalized(o, w);
                                if v.digest == end_digest@ {
                                    &&& final(state)@ == v
                                    &&& !p.failed
                                    &&& opt_write_view(p.write) == w
                                    &&& p.error is None
                                    &&& !p.digest_mismatch
                                } else {
                                    &&& final(state)@ == (ReceiveView { failed: true, ..v })
                                    &&& p.failed
                                    &&& p.write is None
                                    &&& p.error is None
                                    &&& p.digest_mismatch
                                }
                            },
                            Err(e) => {
                                &&& final(state)@ == (ReceiveView { failed: true, ..o })
                                &&& p.failed
                                &&& p.write is None
                                &&& p.error == Some(e)
                                &&& !p.digest_mismatch
                            },
                        }
                    }
                },
            }
        }),
{
    let rel_path = match &state.file_path {
        Some(p) => p.clone(),
        None => {
            return None;
        },
    };
    let ghost o = state@;
    let mut write: Option<BatchWrite> = None;
    let mut error: Option<FinalizeError> = None;
    let mut digest_mismatch = false;
    if !state.failed {
        match finalize_current_batch(state) {
            Ok(w) => {
                if bytes_equal(state.digest.as_str().as_bytes(), end_digest) {
                    write = w;
                } else {
                    let ghost v = state@;
                    state.failed = true;
                    digest_mismatch = true;
                    proof {
                        assert(state@.data =~= v.data);
                        assert(state@.parity =~= v.parity);
                    }
                }
            },
            Err(e) => {
                state.failed = true;
                error = Some(e);
                proof {
                    assert(state@.data =~= o.data);
                    assert(state@.parity =~= o.parity);
                }
            },
        }
    }
    Some(FinishPlan { rel_path, write, failed: state.failed, error, digest_mismatch })
}

/// `dir` joined with `rel` as `Path::join` does on Unix: an absolute `rel`
/// replaces `dir`; otherwise a `/` separates them unless `dir` is empty or
/// ends with one.
pub open spec fn joined_path(dir: Seq<char>, rel: Seq<char>) -> Seq<char> {
    if rel.len() > 0 && rel[0] == '/' {
        rel
    } else if dir.len() == 0 || dir.last() == '/' {
        dir + rel
    } else {
        dir.push('/') + rel
    }
}

/// The suffix of the file that a transfer is written to until it is
/// complete.
pub open spec fn partial_suffix() -> Seq<char> {
    seq!['.', 'p', 'a', 'r', 't', 'i', 'a', 'l']
}

/// The path that the file `rel_path` is written to under `output_dir`
/// while it is being received: `rel_path` with `.partial` appended, joined
/// onto `output_dir`.
pub fn partial_path(output_dir: &str, rel_path: &str) -> (p: String)
    ensures
        p@ == joined_path(output_dir@, rel_path@ + partial_suffix()),
{
    let mut name = String::from_str(rel_path);
    name.push('.');
    name.push('p');
    name.push('a');
    name.push('r');
    name.push('t');
    name.push('i');
    name.push('a');
    name.push('l');
    assert(name@ =~= rel_path@ + partial_suffix());
    if !rel_path.is_empty() && rel_path.get_char(0) == '/' {
        return name;
    }
    let n = output_dir.unicode_len();
    let mut out = String::from_str(output_dir);
    if n > 0 && output_dir.get_char(n - 1) != '/' {
        out.push('/');
    }
    out.append(name.as_str());
    out
}

/// What the receiver does with a decoded packet.
#[derive(Debug, Clone, Copy, PartialEq, Eq, Structural)]
pub enum PacketAction {
    /// A START packet: decide on its path ([`new_file`]).
    Start,
    /// A DATA packet of the transfer in progress ([`handle_data_packet`]).
    Data,
    /// A PARITY packet of the transfer in progress
    /// ([`handle_parity_packet`]).
    Parity,
    /// The END packet of the transfer in progress ([`finish_file`]).
    End,
    /// A UDP fragment to hand to the forwarder.
    ForwardUdp,
    /// Anything else: a DATA, PARITY or END packet with no transfer in
    /// progress, a UDP fragment while forwarding is off, or an unknown type.
    Ignore,
}

/// The action for a packet of type `pkg_type`, when a transfer is (`busy`)
/// or is not in progress and UDP forwarding is on or off.
pub open spec fn packet_action_of(busy: bool, pkg_type: u8, udp_forwarding: bool) -> PacketAction {
    if pkg_type == PKG_TYPE_START {
        PacketAction::Start
    } else if pkg_type == PKG_TYPE_DATA && busy {
        PacketAction::Data
    } else if pkg_type == PKG_TYPE_PARITY && busy {
        PacketAction::Parity
    } else if pkg_type == PKG_TYPE_END && busy {
        PacketAction::End
    } else if pkg_type == PKG_TYPE_UDP && udp_forwarding {
        PacketAction::ForwardUdp
    } else {
        PacketAction::Ignore
    }
}

/// Decides what to do with a packet of type `pkg_type` (see
/// [`packet_action_of`]).
pub fn packet_action(state: &ReceiveState, pkg_type: u8, udp_forwarding: bool) -> (a: PacketAction)
    ensures
        a == packet_action_of(state@.file_path is Some, pkg_type, udp_forwarding),
{
    let busy = state.file_path.is_some();
    if pkg_type == PKG_TYPE_START {
        PacketAction::Start
    } else if pkg_type == PKG_TYPE_DATA && busy {
        PacketAction::Data
    } else if pkg_type == PKG_TYPE_PARITY && busy {
        PacketAction::Parity
    } else if pkg_type == PKG_TYPE_END && busy {
        PacketAction::End
    } else if pkg_type == PKG_TYPE_UDP && udp_forwarding {
        PacketAction::ForwardUdp
    } else {
        PacketAction::Ignore
    }
}

/// Dispatch by packet type: a START is always decided on; DATA, PARITY and
/// END are handled exactly when a transfer is in progress; a UDP fragment is
/// forwarded exactly when forwarding is on, whether or not a transfer is in
/// progress; any other type is ignored.
pub proof fn law_packet_dispatch(busy: bool, pkg_type: u8, udp_forwarding: bool)
    ensures
        pkg_type == 0 ==> packet_action_of(busy, pkg_type, udp_forwarding) == PacketAction::Start,
        pkg_type == 1 ==> packet_action_of(busy, pkg_type, udp_forwarding) == (if busy {
            PacketAction::Data
        } else {
            PacketAction::Ignore
        }),
        pkg_type == 3 ==> packet_action_of(busy, pkg_type, udp_forwarding) == (if busy {
            PacketAction::Parity
        } else {
            PacketAction::Ignore
        }),
        pkg_type == 2 ==> packet_action_of(busy, pkg_type, udp_forwarding) == (if busy {
            PacketAction::End
        } else {
            PacketAction::Ignore
        }),
        pkg_type == 4 ==> packet_action_of(busy, pkg_type, udp_forwarding) == (if udp_forwarding {
            PacketAction::ForwardUdp
        } else {
            PacketAction::Ignore
        }),
        pkg_type > 4 ==> packet_action_of(busy, pkg_type, udp_forwarding) == PacketAction::Ignore,
        packet_action_of(true, 4, udp_forwarding) == packet_action_of(false, 4, udp_forwarding),
{
}

/// Buffering a DATA chunk: a count already buffered changes nothing; a new
/// one fails the transfer exactly when the batch buffer's bytes plus the
/// chunk's would pass BUFFER_BYTE_LIMIT (whatever the file's bytes so far),
/// leaving the buffers and counters as they were; otherwise the chunk is
/// added under its count and its length is added to the buffered bytes,
/// the transfer's bytes and the statistics, with nothing else changed.
pub proof fn law_buffer_data_cap(o: ReceiveView, st: Stats, count: u64, data: Seq<u8>)
    ensures
        ({
            let (v, st2) = buffered_data(o, st, count, data);
            &&& o.data.contains_key(count) ==> v == o && st2 == st
            &&& !o.data.contains_key(count) ==> (v.failed == (o.failed || o.bytes_buffered
                + data.len() > 8388608))
            &&& !o.data.contains_key(count) && o.bytes_buffered + data.len() > 8388608 ==> (v
                == ReceiveView { failed: true, ..o } && st2 == st)
            &&& !o.data.contains_key(count) && o.bytes_buffered + data.len() <= 8388608 ==> {
                &&& v.data == o.data.insert(count, data)
                &&& v.bytes_buffered == o.bytes_buffered + data.len()
                &&& v.bytes_transferred as int == if o.bytes_transferred + data.len() <= u64::MAX {
                    o.bytes_transferred + data.len()
                } else {
                    u64::MAX as int
                }
                &&& v.parity == o.parity && v.file_path == o.file_path && v.current_batch
                    == o.current_batch && v.failed == o.failed && v.digest == o.digest
                &&& st2.files_transferred == st.files_transferred && st2.files_failed
                    == st.files_failed
            }
        }),
{
}

/// Buffering a PARITY shard: an index already buffered changes nothing; a
/// new one fails the transfer exactly when the batch buffer's bytes plus
/// the shard's would pass BUFFER_BYTE_LIMIT; otherwise the shard is added
/// under its index and its length added to the buffered bytes.
pub proof fn law_buffer_parity_cap(o: ReceiveView, idx: u64, data: Seq<u8>)
    ensures
        ({
            let v = buffered_parity(o, idx, data);
            &&& o.parity.contains_key(idx) ==> v == o
            &&& !o.parity.contains_key(idx) && o.bytes_buffered + data.len() > 8388608 ==> v
                == ReceiveView { failed: true, ..o }
            &&& !o.parity.contains_key(idx) && o.bytes_buffered + data.len() <= 8388608 ==> v
                == ReceiveView {
                parity: o.parity.insert(idx, data),
                bytes_buffered: (o.bytes_buffered + data.len()) as usize,
                ..o
            }
        }),
{
}

} // verus!
