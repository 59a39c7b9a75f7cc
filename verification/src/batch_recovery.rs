//! Why a batch is written exactly as the sender read it: the shards that
//! the receiver buffers, when they are the file's chunks and the sender's
//! parity shards, always suffice to lay out the batch's bytes, with the
//! FEC decoder restoring whatever chunks were lost.

use vstd::prelude::*;
use crate::fec::{index_given, rs_recovery_of, rs_shards_consistent, uniform_shards};
use crate::receive::{
    batch_bytes, batch_len, chunk_bytes, expected_chunk_len, fec_originals, fec_recoveries,
    last_chunk_len, padded_shard, receive_wf, total_chunks, FinalizeError, ReceiveView,
};
use crate::send::{
    concat_chunks, content_digest, end_digest, fragment, law_end_digest, padded_batch, sender_wf,
    FileSenderView,
};

verus! {

/// The data chunks of batch `b` of file `f`.
pub open spec fn file_batch_chunks(f: Seq<u8>, b: u64) -> Seq<Seq<u8>> {
    Seq::new(
        batch_len(b, f.len() as u64),
        |i: int| fragment(f, (b * 1000 + i) as nat),
    )
}

/// The bytes of batch `b` of file `f`.
pub open spec fn file_batch_bytes(f: Seq<u8>, b: u64) -> Seq<u8> {
    let start = b * 1000;
    let end = (start + batch_len(b, f.len() as u64)) * 940;
    f.subrange(start * 940, if end <= f.len() {
        end
    } else {
        f.len() as int
    })
}

/// The receiver holds a non-empty batch `b` of file `f` with parity
/// enabled at any parity count `p` that the coder supports: every buffered
/// data chunk is the file's chunk with that count, within the batch; every
/// buffered parity shard has an index below `p` and is the sender's
/// recovery shard with that index, computed with `p` recovery shards over
/// the batch's zero-padded chunks; and at least as many shards arrived as
/// the batch has chunks.
pub open spec fn shards_from_file(v: ReceiveView, f: Seq<u8>, rec: Seq<Seq<u8>>) -> bool {
    let b = v.current_batch;
    let n = batch_len(b, v.file_size);
    let start = b * 1000;
    let p = v.parity_per_batch;
    &&& v.file_size == f.len()
    &&& n > 0
    &&& 1 <= p <= 32768
    &&& rs_recovery_of(n as usize, p as usize, padded_batch(file_batch_chunks(f, b))) == Some(rec)
    &&& forall|k: u64|
        #[trigger] v.data.contains_key(k) ==> start <= k < start + n && v.data[k] == fragment(
            f,
            k as nat,
        )
    &&& forall|j: u64|
        #[trigger] v.parity.contains_key(j) ==> j < p && v.parity[j] == rec[j as int]
    &&& v.data.dom().len() + v.parity.dom().len() >= n
}

/// The receiver holds a non-empty batch whose chunks, as the sender read
/// them, are `cs`, with parity enabled at any parity count `p` that the
/// coder supports: each chunk is at least as long as its place in the
/// file; every buffered data chunk is the chunk with that count, within
/// the batch; every buffered parity shard has an index below `p` and is the
/// sender's recovery shard with that index, computed with `p` recovery
/// shards over the zero-padded chunks; and at least as many shards arrived
/// as the batch has chunks.
pub open spec fn shards_from_chunks(v: ReceiveView, cs: Seq<Seq<u8>>, rec: Seq<Seq<u8>>) -> bool {
    let b = v.current_batch;
    let n = batch_len(b, v.file_size);
    let start = b * 1000;
    let p = v.parity_per_batch;
    &&& n > 0
    &&& cs.len() == n
    &&& forall|i: int|
        0 <= i < n ==> (#[trigger] cs[i]).len() >= expected_chunk_len(
            v.file_size,
            (start + i) as nat,
        )
    &&& 1 <= p <= 32768
    &&& rs_recovery_of(n as usize, p as usize, padded_batch(cs)) == Some(rec)
    &&& forall|k: u64|
        #[trigger] v.data.contains_key(k) ==> start <= k < start + n && v.data[k] == cs[k - start]
    &&& forall|j: u64|
        #[trigger] v.parity.contains_key(j) ==> j < p && v.parity[j] == rec[j as int]
    &&& v.data.dom().len() + v.parity.dom().len() >= n
}

/// The bytes that the first `m` chunks `cs` of the batch starting at chunk
/// `start` put in a file of `file_size` bytes: each chunk cut to its
/// length in the file, one after the other.
pub open spec fn batch_content(cs: Seq<Seq<u8>>, file_size: u64, start: nat, m: nat) -> Seq<u8>
    decreases m,
{
    if m == 0 {
        Seq::empty()
    } else {
        batch_content(cs, file_size, start, (m - 1) as nat) + cs[m - 1].take(
            expected_chunk_len(file_size, (start + m - 1) as nat) as int,
        )
    }
}

/// The keys of `s` below `bound`.
pub open spec fn keys_below(s: Set<u64>, bound: nat) -> Set<u64> {
    s.filter(|k: u64| k < bound)
}

pub proof fn lemma_originals_count(data: Map<u64, Seq<u8>>, start: nat, m: nat)
    requires
        data.dom().finite(),
        forall|k: u64| #[trigger] data.contains_key(k) ==> start <= k,
    ensures
        keys_below(data.dom(), start + m).finite(),
        fec_originals(data, start, m).len() == keys_below(data.dom(), start + m).len(),
        keys_below(data.dom(), start + m).len() <= m,
    decreases m,
{
    let dom = data.dom();
    dom.lemma_len_filter(|k: u64| k < start + m);
    if m > 0 {
        lemma_originals_count(data, start, (m - 1) as nat);
        let k = start + m - 1;
        let prev = keys_below(dom, (start + m - 1) as nat);
        if k <= u64::MAX && data.contains_key(k as u64) {
            assert(keys_below(dom, start + m) =~= prev.insert(k as u64));
            assert(!prev.contains(k as u64));
        } else {
            assert(keys_below(dom, start + m) =~= prev);
        }
    } else {
        assert(keys_below(dom, start) =~= Set::<u64>::empty());
    }
}

pub proof fn lemma_missing_key(data: Map<u64, Seq<u8>>, start: nat, m: nat, i: nat)
    requires
        data.dom().finite(),
        forall|k: u64| #[trigger] data.contains_key(k) ==> start <= k,
        i < m,
        !(start + i <= u64::MAX && data.contains_key((start + i) as u64)),
    ensures
        keys_below(data.dom(), start + m).len() < m,
    decreases m,
{
    let dom = data.dom();
    lemma_originals_count(data, start, m);
    lemma_originals_count(data, start, (m - 1) as nat);
    let prev = keys_below(dom, (start + m - 1) as nat);
    let k = start + m - 1;
    if k <= u64::MAX && data.contains_key(k as u64) {
        assert(keys_below(dom, start + m) =~= prev.insert(k as u64));
        lemma_missing_key(data, start, (m - 1) as nat, i);
    } else {
        assert(keys_below(dom, start + m) =~= prev);
    }
}

pub proof fn lemma_originals_elems(data: Map<u64, Seq<u8>>, start: nat, m: nat)
    requires
        m <= 1000,
    ensures
        forall|q: int|
            0 <= q < fec_originals(data, start, m).len() ==> {
                let e = #[trigger] fec_originals(data, start, m)[q];
                &&& e.0 < m
                &&& start + e.0 <= u64::MAX
                &&& data.contains_key((start + e.0) as u64)
                &&& e.1 == padded_shard(data[(start + e.0) as u64])
            },
        forall|q: int, r: int|
            0 <= q < r < fec_originals(data, start, m).len() ==> (#[trigger] fec_originals(
                data,
                start,
                m,
            )[q]).0 < (#[trigger] fec_originals(data, start, m)[r]).0,
        forall|i: usize|
            i < m && start + i <= u64::MAX && data.contains_key((start + i) as u64)
                ==> #[trigger] index_given(fec_originals(data, start, m), i),
    decreases m,
{
    if m > 0 {
        lemma_originals_elems(data, start, (m - 1) as nat);
        let prev = fec_originals(data, start, (m - 1) as nat);
        let cur = fec_originals(data, start, m);
        assert forall|q: int| 0 <= q < cur.len() implies {
            let e = #[trigger] cur[q];
            &&& e.0 < m
            &&& start + e.0 <= u64::MAX
            &&& data.contains_key((start + e.0) as u64)
            &&& e.1 == padded_shard(data[(start + e.0) as u64])
        } by {
            if q < prev.len() {
                assert(cur[q] == prev[q]);
            }
        }
        assert forall|q: int, r: int| 0 <= q < r < cur.len() implies (#[trigger] cur[q]).0 < (
        #[trigger] cur[r]).0 by {
            assert(cur[q] == prev[q]);
            if r < prev.len() {
                assert(cur[r] == prev[r]);
            }
        }
        assert forall|i: usize|
            i < m && start + i <= u64::MAX && data.contains_key(
                (start + i) as u64,
            ) implies #[trigger] index_given(cur, i) by {
            if i < m - 1 {
                assert(index_given(prev, i));
                let q = choose|q: int| 0 <= q < prev.len() && (#[trigger] prev[q]).0 == i;
                assert(cur[q] == prev[q]);
            } else {
                assert(cur[cur.len() - 1].0 == i);
            }
        }
    }
}

pub proof fn lemma_recoveries_count(parity: Map<u64, Seq<u8>>, p: usize, m: nat)
    requires
        parity.dom().finite(),
        forall|k: u64|
            #[trigger] parity.contains_key(k) ==> k < 100 && k < p && parity[k].len() == 960,
        m <= 100,
    ensures
        keys_below(parity.dom(), m).finite(),
        fec_recoveries(parity, p, m).len() == keys_below(parity.dom(), m).len(),
    decreases m,
{
    let dom = parity.dom();
    dom.lemma_len_filter(|k: u64| k < m);
    if m > 0 {
        lemma_recoveries_count(parity, p, (m - 1) as nat);
        let j = (m - 1) as u64;
        let prev = keys_below(dom, (m - 1) as nat);
        if parity.contains_key(j) {
            assert(keys_below(dom, m) =~= prev.insert(j));
            assert(!prev.contains(j));
        } else {
            assert(keys_below(dom, m) =~= prev);
        }
    } else {
        assert(keys_below(dom, 0) =~= Set::<u64>::empty());
    }
}

pub proof fn lemma_recoveries_elems(parity: Map<u64, Seq<u8>>, p: usize, m: nat)
    requires
        m <= 100,
    ensures
        forall|q: int|
            0 <= q < fec_recoveries(parity, p, m).len() ==> {
                let e = #[trigger] fec_recoveries(parity, p, m)[q];
                &&& e.0 < m
                &&& e.0 < p
                &&& parity.contains_key(e.0 as u64)
                &&& parity[e.0 as u64].len() >= 960
                &&& e.1 == parity[e.0 as u64].take(960)
            },
        forall|q: int, r: int|
            0 <= q < r < fec_recoveries(parity, p, m).len() ==> (#[trigger] fec_recoveries(
                parity,
                p,
                m,
            )[q]).0 < (#[trigger] fec_recoveries(parity, p, m)[r]).0,
    decreases m,
{
    if m > 0 {
        lemma_recoveries_elems(parity, p, (m - 1) as nat);
        let prev = fec_recoveries(parity, p, (m - 1) as nat);
        let cur = fec_recoveries(parity, p, m);
        assert forall|q: int| 0 <= q < cur.len() implies {
            let e = #[trigger] cur[q];
            &&& e.0 < m
            &&& e.0 < p
            &&& parity.contains_key(e.0 as u64)
            &&& parity[e.0 as u64].len() >= 960
            &&& e.1 == parity[e.0 as u64].take(960)
        } by {
            if q < prev.len() {
                assert(cur[q] == prev[q]);
            }
        }
        assert forall|q: int, r: int| 0 <= q < r < cur.len() implies (#[trigger] cur[q]).0 < (
        #[trigger] cur[r]).0 by {
            assert(cur[q] == prev[q]);
            if r < prev.len() {
                assert(cur[r] == prev[r]);
            }
        }
    }
}

proof fn lemma_fragment_len(f: Seq<u8>, abs: nat)
    requires
        abs < total_chunks(f.len() as u64),
        f.len() <= u64::MAX,
    ensures
        fragment(f, abs).len() == expected_chunk_len(f.len() as u64, abs),
        abs * 940 < f.len(),
        fragment(f, abs).len() <= 940,
        fragment(f, abs).len() >= 1,
{
    let len = f.len();
    assert(abs * 940 < len) by (nonlinear_arith)
        requires
            abs < (len + 939) / 940,
    ;
    if abs + 1 == total_chunks(len as u64) {
        let q = len / 940;
        let r = len % 940;
        assert(len == q * 940 + r && r < 940);
        if r == 0 {
            assert((len + 939) / 940 == q) by (nonlinear_arith)
                requires
                    len == q * 940,
            ;
            assert(abs == q - 1);
            assert(len - abs * 940 == 940) by (nonlinear_arith)
                requires
                    len == q * 940,
                    abs == q - 1,
            ;
        } else {
            assert((len + 939) / 940 == q + 1) by (nonlinear_arith)
                requires
                    len == q * 940 + r,
                    0 < r < 940,
            ;
            assert(abs == q);
            assert(len - abs * 940 == r);
        }
        assert((abs + 1) * 940 >= len) by (nonlinear_arith)
            requires
                abs + 1 == (len + 939) / 940,
        ;
    } else {
        assert((abs + 1) * 940 < len) by (nonlinear_arith)
            requires
                abs + 1 < (len + 939) / 940,
        ;
    }
}

/// Chunk `i` of the batch is either buffered as `cs[i]`, or restored as
/// `cs[i]` zero-padded.
pub open spec fn chunk_available(
    data: Map<u64, Seq<u8>>,
    restored: Map<usize, Seq<u8>>,
    cs: Seq<Seq<u8>>,
    start: nat,
    i: nat,
) -> bool {
    let abs = start + i;
    ||| (abs <= u64::MAX && data.contains_key(abs as u64) && data[abs as u64] == cs[i as int])
    ||| (!(abs <= u64::MAX && data.contains_key(abs as u64)) && restored.contains_key(i as usize)
        && restored[i as usize] == padded_shard(cs[i as int]))
}

/// Each chunk of the first `m` of the batch is either buffered as its
/// chunk in `cs`, or restored as it zero-padded.
pub open spec fn chunks_available(
    data: Map<u64, Seq<u8>>,
    restored: Map<usize, Seq<u8>>,
    cs: Seq<Seq<u8>>,
    start: nat,
    m: nat,
) -> bool {
    forall|i: nat| i < m ==> #[trigger] chunk_available(data, restored, cs, start, i)
}

proof fn lemma_expected_len_bound(file_size: u64, abs: nat)
    ensures
        expected_chunk_len(file_size, abs) <= 940,
{
}

pub proof fn lemma_batch_from_chunks(
    data: Map<u64, Seq<u8>>,
    restored: Map<usize, Seq<u8>>,
    cs: Seq<Seq<u8>>,
    file_size: u64,
    start: nat,
    m: nat,
)
    requires
        m <= cs.len(),
        forall|i: int|
            0 <= i < m ==> (#[trigger] cs[i]).len() >= expected_chunk_len(
                file_size,
                (start + i) as nat,
            ),
        chunks_available(data, restored, cs, start, m),
    ensures
        batch_bytes(data, restored, file_size, start, m) == Ok::<Seq<u8>, FinalizeError>(
            batch_content(cs, file_size, start, m),
        ),
    decreases m,
{
    if m > 0 {
        let i = (m - 1) as nat;
        let abs = start + i;
        assert(chunks_available(data, restored, cs, start, i));
        lemma_batch_from_chunks(data, restored, cs, file_size, start, i);
        let c = cs[i as int];
        let expected = expected_chunk_len(file_size, abs);
        lemma_expected_len_bound(file_size, abs);
        assert(c.len() >= expected);
        assert(chunk_available(data, restored, cs, start, i));
        if abs <= u64::MAX && data.contains_key(abs as u64) {
            assert(data[abs as u64] == c);
        } else {
            assert(restored[i as usize] == padded_shard(c));
            assert(padded_shard(c).take(expected as int) =~= c.take(expected as int));
        }
        assert(chunk_bytes(data, restored, file_size, start, i) == Ok::<Seq<u8>, FinalizeError>(
            c.take(expected as int),
        ));
    }
}

/// The zero-padded chunks of a batch are uniform shards.
pub proof fn lemma_padded_batch_uniform(chunks: Seq<Seq<u8>>)
    requires
        chunks.len() > 0,
    ensures
        uniform_shards(padded_batch(chunks)),
        forall|i: int| 0 <= i < chunks.len() ==> (#[trigger] padded_batch(chunks)[i]).len() == 960,
{
}


proof fn lemma_dom_below(s: Set<u64>, bound: nat)
    requires
        forall|k: u64| #[trigger] s.contains(k) ==> k < bound,
    ensures
        keys_below(s, bound) == s,
{
    assert(keys_below(s, bound) =~= s);
}

/// With the batch's shards from its chunks and chunks missing, what the
/// receiver hands the decoder is consistent with the sender's encoding.
pub proof fn lemma_decode_inputs_consistent(v: ReceiveView, cs: Seq<Seq<u8>>, rec: Seq<Seq<u8>>)
    requires
        receive_wf(v),
        shards_from_chunks(v, cs, rec),
        v.data.dom().len() < batch_len(v.current_batch, v.file_size),
    ensures
        rs_shards_consistent(
            padded_batch(cs),
            batch_len(v.current_batch, v.file_size) as usize,
            v.parity_per_batch as usize,
            fec_originals(v.data, (v.current_batch * 1000) as nat, batch_len(v.current_batch, v.file_size)),
            fec_recoveries(v.parity, v.parity_per_batch as usize, 100),
        ),
{
    let b = v.current_batch;
    let n = batch_len(b, v.file_size);
    let p = v.parity_per_batch as usize;
    let start = (b * 1000) as nat;
    let all = padded_batch(cs);
    let originals = fec_originals(v.data, start, n);
    let recoveries = fec_recoveries(v.parity, p, 100);
    lemma_padded_batch_uniform(cs);
    lemma_originals_elems(v.data, start, n);
    lemma_recoveries_elems(v.parity, p, 100);
    lemma_originals_count(v.data, start, n);
    lemma_recoveries_count(v.parity, p, 100);
    lemma_dom_below(v.data.dom(), start + n);
    lemma_dom_below(v.parity.dom(), 100);
    assert forall|k: int| 0 <= k < originals.len() implies {
        &&& (#[trigger] originals[k]).0 < n
        &&& originals[k].1 == all[originals[k].0 as int]
    } by {
        let e = originals[k];
        assert(v.data[(start + e.0) as u64] == cs[e.0 as int]);
    }
    assert forall|k: int| 0 <= k < recoveries.len() implies {
        &&& (#[trigger] recoveries[k]).0 < p
        &&& recoveries[k].1 == rs_recovery_of(n as usize, p, all)->Some_0[recoveries[k].0 as int]
    } by {
        let e = recoveries[k];
        assert(v.parity[e.0 as u64] == rec[e.0 as int]);
        assert(v.parity[e.0 as u64].take(960) =~= v.parity[e.0 as u64]);
    }
}

/// With the batch's shards from its chunks, and the decoder's restored
/// chunks (if chunks are missing) restoring every chunk not given, every
/// chunk of the batch is available.
pub proof fn lemma_restored_available(
    v: ReceiveView,
    cs: Seq<Seq<u8>>,
    rec: Seq<Seq<u8>>,
    restored: Map<usize, Seq<u8>>,
)
    requires
        receive_wf(v),
        shards_from_chunks(v, cs, rec),
        v.data.dom().len() >= batch_len(v.current_batch, v.file_size) ==> restored == Map::<
            usize,
            Seq<u8>,
        >::empty(),
        v.data.dom().len() < batch_len(v.current_batch, v.file_size) ==> forall|i: usize|
            i < batch_len(v.current_batch, v.file_size) && !index_given(
                fec_originals(
                    v.data,
                    (v.current_batch * 1000) as nat,
                    batch_len(v.current_batch, v.file_size),
                ),
                i,
            ) ==> (#[trigger] restored.contains_key(i)) && restored[i] == padded_batch(cs)[i as int],
    ensures
        chunks_available(
            v.data,
            restored,
            cs,
            (v.current_batch * 1000) as nat,
            batch_len(v.current_batch, v.file_size),
        ),
{
    let b = v.current_batch;
    let n = batch_len(b, v.file_size);
    let start = (b * 1000) as nat;
    lemma_originals_elems(v.data, start, n);
    lemma_originals_count(v.data, start, n);
    lemma_dom_below(v.data.dom(), start + n);
    assert forall|i: nat| i < n implies #[trigger] chunk_available(
        v.data,
        restored,
        cs,
        start,
        i,
    ) by {
        let abs = start + i;
        if abs <= u64::MAX && v.data.contains_key(abs as u64) {
            assert(v.data[abs as u64] == cs[i as int]);
        } else {
            if v.data.dom().len() >= n {
                lemma_missing_key(v.data, start, n, i);
            } else {
                let originals = fec_originals(v.data, start, n);
                if index_given(originals, i as usize) {
                    let q = choose|q: int| 0 <= q < originals.len() && (#[trigger] originals[q]).0
                        == i as usize;
                    assert(originals[q].0 == i);
                }
                assert(restored.contains_key(i as usize));
                
            }
        }
    }
}


/// The first `m` chunks of a batch starting at chunk `start`, one after
/// the other, are the file's bytes from that chunk on.
proof fn lemma_chunks_concat(f: Seq<u8>, b: u64, m: nat)
    requires
        f.len() <= u64::MAX,
        batch_len(b, f.len() as u64) > 0,
        m <= batch_len(b, f.len() as u64),
    ensures
        concat_chunks(file_batch_chunks(f, b).take(m as int)) == f.subrange(
            (b * 1000 * 940) as int,
            if (b * 1000 + m) * 940 <= f.len() {
                ((b * 1000 + m) * 940) as int
            } else {
                f.len() as int
            },
        ),
    decreases m,
{
    let start = (b * 1000) as nat;
    if m == 0 {
        assert(file_batch_chunks(f, b).take(0) =~= Seq::<Seq<u8>>::empty());
        lemma_fragment_len(f, start);
        assert(f.subrange((start * 940) as int, (start * 940) as int) =~= Seq::<u8>::empty());
    } else {
        let i = (m - 1) as nat;
        lemma_chunks_concat(f, b, i);
        lemma_fragment_len(f, start + i);
        let cs = file_batch_chunks(f, b).take(m as int);
        assert(cs.drop_last() =~= file_batch_chunks(f, b).take(i as int));
        assert(cs.last() == fragment(f, start + i));
        let lo = (start * 940) as int;
        let mid = ((start + i) * 940) as int;
        let hi = if (start + m) * 940 <= f.len() {
            ((start + m) * 940) as int
        } else {
            f.len() as int
        };
        assert(mid < f.len());
        assert(lo <= mid);
        assert(fragment(f, start + i) =~= f.subrange(mid, hi));
        assert(f.subrange(lo, mid) + f.subrange(mid, hi) =~= f.subrange(lo, hi));
    }
}

/// The chunks of batch `b` of a file, one after the other, are the batch's
/// bytes: the sender steps its content digest over the first, and the
/// receiver over the second, which the FEC law gives back on the receiving
/// side.
pub proof fn law_batch_content(f: Seq<u8>, b: u64)
    requires
        f.len() <= u64::MAX,
        batch_len(b, f.len() as u64) > 0,
    ensures
        concat_chunks(file_batch_chunks(f, b)) == file_batch_bytes(f, b),
{
    let n = batch_len(b, f.len() as u64);
    lemma_chunks_concat(f, b, n);
    assert(file_batch_chunks(f, b).take(n as int) =~= file_batch_chunks(f, b));
}

proof fn lemma_file_content(f: Seq<u8>, b: u64, m: nat)
    requires
        f.len() <= u64::MAX,
        batch_len(b, f.len() as u64) > 0,
        m <= batch_len(b, f.len() as u64),
    ensures
        batch_content(file_batch_chunks(f, b), f.len() as u64, (b * 1000) as nat, m) == concat_chunks(
            file_batch_chunks(f, b).take(m as int),
        ),
    decreases m,
{
    if m > 0 {
        let cs = file_batch_chunks(f, b);
        let i = (m - 1) as nat;
        lemma_file_content(f, b, i);
        lemma_fragment_len(f, (b * 1000 + i) as nat);
        assert(cs[i as int] == fragment(f, (b * 1000 + i) as nat));
        assert(cs[i as int].take(expected_chunk_len(f.len() as u64, (b * 1000 + i) as nat) as int)
            =~= cs[i as int]);
        assert(cs.take(m as int).drop_last() =~= cs.take(i as int));
    }
}

/// A batch held as the file's own chunks is a batch held as its sender's
/// chunks, and their content is the file's bytes of the batch.
pub proof fn lemma_file_as_chunks(v: ReceiveView, f: Seq<u8>, rec: Seq<Seq<u8>>)
    requires
        shards_from_file(v, f, rec),
    ensures
        shards_from_chunks(v, file_batch_chunks(f, v.current_batch), rec),
        batch_content(
            file_batch_chunks(f, v.current_batch),
            v.file_size,
            (v.current_batch * 1000) as nat,
            batch_len(v.current_batch, v.file_size),
        ) == file_batch_bytes(f, v.current_batch),
{
    let b = v.current_batch;
    let n = batch_len(b, v.file_size);
    let cs = file_batch_chunks(f, b);
    assert forall|i: int| 0 <= i < n implies (#[trigger] cs[i]).len() >= expected_chunk_len(
        v.file_size,
        (b * 1000 + i) as nat,
    ) by {
        lemma_fragment_len(f, (b * 1000 + i) as nat);
    }
    assert forall|k: u64| #[trigger] v.data.contains_key(k) implies b * 1000 <= k < b * 1000 + n
        && v.data[k] == cs[k - b * 1000] by {
        assert(cs[k - b * 1000] == fragment(f, k as nat));
    }
    lemma_file_content(f, b, n);
    assert(cs.take(n as int) =~= cs);
    law_batch_content(f, b);
}

/// The bytes of every non-empty batch of file `f`, in order.
pub open spec fn file_batches(f: Seq<u8>) -> Seq<Seq<u8>> {
    Seq::new(
        ((total_chunks(f.len() as u64) + 999) / 1000) as nat,
        |b: int| file_batch_bytes(f, b as u64),
    )
}

/// A sender that has sent the chunks of file `f` in order (its complete
/// batches are the file's first batches, and the batch it is collecting
/// holds the rest of the file's chunks) puts in its END packet the content
/// digest of the file's batches: the digest that the receiver reaches by
/// stepping over the batches it writes for the file.
pub proof fn law_end_digest_of_file(f: Seq<u8>, v: FileSenderView)
    requires
        sender_wf(v),
        f.len() <= u64::MAX,
        v.count == total_chunks(f.len() as u64),
        forall|b: int| 0 <= b < v.batches.len() ==> #[trigger] v.batches[b] == file_batch_bytes(
            f,
            b as u64,
        ),
        v.batch == file_batch_chunks(f, v.batch_idx),
    ensures
        end_digest(v) == content_digest(file_batches(f)),
{
    law_end_digest(v);
    let nb = ((total_chunks(f.len() as u64) + 999) / 1000) as nat;
    let fb = file_batches(f);
    if v.batch.len() == 0 {
        assert(nb == v.batch_idx);
        assert(v.batches =~= fb);
    } else {
        assert(nb == v.batch_idx + 1);
        assert(batch_len(v.batch_idx, f.len() as u64) > 0);
        law_batch_content(f, v.batch_idx);
        assert(v.batches.push(concat_chunks(v.batch)) =~= fb);
    }
}

} // verus!
