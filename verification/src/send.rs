//! The sender's packet planning: START/DATA/PARITY/END packets of a file
//! transfer with their batching, the fragments of a forwarded UDP
//! datagram, and the pacing and back-off rules of the send loop.

use vstd::prelude::*;
use vstd::string::{StringExecFns, StringSliceAdditionalSpecFns};
use crate::decimal::{decimal_digits, padded_decimal, push_decimal, push_padded_decimal};
use crate::fec::{rs_counts_supported, rs_encode, rs_recovery_of, shards_view};
use crate::hashing::{md5_hex, md5_hex_bytes};
use crate::proto::{
    encode_packet, encode_packet_into, encode_parity_field, packet_bytes, parity_field,
    BATCH_DATA_CHUNKS, BATCH_PARITY_CHUNKS, CHUNK_SIZE, EMPTY_HASH, PKG_TYPE_DATA, PKG_TYPE_END,
    PKG_TYPE_PARITY, PKG_TYPE_START, PKG_TYPE_UDP, SHARD_SIZE,
};
use crate::receive::padded_shard;

verus! {

/// The bytes of `EMPTY_HASH`: 32 ASCII zeros.
pub open spec fn empty_hash_bytes() -> Seq<u8> {
    Seq::new(32, |i: int| 48u8)
}

pub(crate) proof fn lemma_empty_hash_bytes()
    ensures
        EMPTY_HASH.spec_bytes() == empty_hash_bytes(),
{
    reveal_strlit("00000000000000000000000000000000");
    let c = EMPTY_HASH@;
    assert(c.len() == 32);
    assert forall|i: int| 0 <= i < 32 implies c[i] == '0' by {}
    let b = empty_hash_bytes();
    assert(crate::ascii::ascii_chars(b) =~= c);
    crate::ascii::lemma_ascii_utf8(b);
}

/// The START packet of a transfer: the file size in the count field, the
/// path hash, the parity count per batch in the data-hash field, and the
/// relative path as payload.
pub fn start_packet(filesize: u64, rel_path: &str, rel_path_hash: &str, parity_count: u64) -> (p:
    Vec<u8>)
    requires
        rel_path_hash.spec_bytes().len() == 32,
    ensures
        p@ == packet_bytes(
            PKG_TYPE_START,
            filesize,
            rel_path_hash.spec_bytes(),
            parity_field(parity_count),
            rel_path.spec_bytes(),
        ),
{
    let field = encode_parity_field(parity_count);
    encode_packet(PKG_TYPE_START, filesize, rel_path_hash, field.as_str(), rel_path.as_bytes())
}

/// The bytes of a sequence of chunks, one after the other.
pub open spec fn concat_chunks(cs: Seq<Seq<u8>>) -> Seq<u8>
    decreases cs.len(),
{
    if cs.len() == 0 {
        Seq::empty()
    } else {
        concat_chunks(cs.drop_last()) + cs.last()
    }
}

/// One step of the content digest of a transfer: the MD5 hex digest of the
/// digest so far followed by the bytes of the next batch.
pub open spec fn digest_step(acc: Seq<u8>, batch: Seq<u8>) -> Seq<u8> {
    md5_hex_bytes(acc + batch)
}

/// The content digest of a transfer whose batches hold `batches` bytes, in
/// order: starting from `EMPTY_HASH`, one [`digest_step`] per batch. Both
/// sides compute it, batch by batch, and the END packet carries it.
pub open spec fn content_digest(batches: Seq<Seq<u8>>) -> Seq<u8>
    decreases batches.len(),
{
    if batches.len() == 0 {
        empty_hash_bytes()
    } else {
        digest_step(content_digest(batches.drop_last()), batches.last())
    }
}

/// The bytes of the chunks in `v`, one after the other.
fn concat_vec_chunks(v: &Vec<Vec<u8>>) -> (out: Vec<u8>)
    ensures
        out@ == concat_chunks(shards_view(v@)),
{
    let mut out: Vec<u8> = Vec::new();
    let mut i: usize = 0;
    while i < v.len()
        invariant
            i <= v@.len(),
            out@ == concat_chunks(shards_view(v@).take(i as int)),
        decreases v@.len() - i,
    {
        crate::proto::append_bytes(&mut out, v[i].as_slice());
        i = i + 1;
        assert(shards_view(v@).take(i as int).drop_last() =~= shards_view(v@).take(i - 1));
    }
    assert(shards_view(v@).take(i as int) =~= shards_view(v@));
    out
}

/// The next content digest after `acc` for a batch of `bytes` (see
/// [`digest_step`]); 32 hexadecimal characters.
pub fn content_digest_step(acc: &str, bytes: &[u8]) -> (d: String)
    ensures
        vstd::utf8::encode_utf8(d@) == digest_step(acc.spec_bytes(), bytes@),
        digest_step(acc.spec_bytes(), bytes@).len() == 32,
{
    let mut buf: Vec<u8> = Vec::new();
    crate::proto::append_bytes(&mut buf, acc.as_bytes());
    crate::proto::append_bytes(&mut buf, bytes);
    md5_hex(buf.as_slice())
}

/// The END packet of a transfer: the number of data chunks in the count
/// field, the path-hash field unused, the transfer's content digest in the
/// data-hash field, and the relative path as payload.
pub fn end_packet(rel_path: &str, count: u64, digest: &str) -> (p: Vec<u8>)
    requires
        digest.spec_bytes().len() == 32,
    ensures
        p@ == packet_bytes(
            PKG_TYPE_END,
            count,
            empty_hash_bytes(),
            digest.spec_bytes(),
            rel_path.spec_bytes(),
        ),
{
    proof {
        lemma_empty_hash_bytes();
    }
    encode_packet(PKG_TYPE_END, count, EMPTY_HASH, digest, rel_path.as_bytes())
}

/// Encodes into `buf` the DATA packet for `chunk` with sequence number
/// `count`: the data-hash field is the chunk's MD5 hex digest.
pub fn encode_data_packet_into(buf: &mut Vec<u8>, rel_path_hash: &str, chunk: &[u8], count: u64)
    requires
        rel_path_hash.spec_bytes().len() == 32,
    ensures
        final(buf)@ == packet_bytes(
            PKG_TYPE_DATA,
            count,
            rel_path_hash.spec_bytes(),
            md5_hex_bytes(chunk@),
            chunk@,
        ),
{
    let data_hash = md5_hex(chunk);
    encode_packet_into(buf, PKG_TYPE_DATA, count, rel_path_hash, data_hash.as_str(), chunk);
}

/// The FEC encoder refused a batch.
#[derive(Debug, Clone, Copy, PartialEq, Eq, Structural)]
pub enum ParityError {
    EncodeFailed,
}

/// The PARITY packet for recovery shard `shard` numbered `count`.
pub open spec fn parity_packet_bytes(rel_path_hash: Seq<u8>, count: u64, shard: Seq<u8>) -> Seq<
    u8,
> {
    packet_bytes(PKG_TYPE_PARITY, count, rel_path_hash, md5_hex_bytes(shard), shard)
}

/// The data chunks of a batch zero-padded to SHARD_SIZE.
pub open spec fn padded_batch(payloads: Seq<Seq<u8>>) -> Seq<Seq<u8>> {
    payloads.map_values(|p: Seq<u8>| padded_shard(p))
}

/// The PARITY packets of a batch: for each recovery shard `i` that the
/// encoder computes over the zero-padded data chunks, a packet numbered
/// `batch_idx * parity_count + i`. None for an empty batch or no parity.
pub open spec fn parity_packets_result(
    rel_path_hash: Seq<u8>,
    payloads: Seq<Seq<u8>>,
    parity_count: usize,
    batch_idx: u64,
) -> Result<Seq<Seq<u8>>, ParityError> {
    if payloads.len() == 0 || parity_count == 0 {
        Ok(Seq::empty())
    } else {
        match rs_recovery_of(payloads.len() as usize, parity_count, padded_batch(payloads)) {
            None => Err(ParityError::EncodeFailed),
            Some(rec) => Ok(
                Seq::new(
                    rec.len(),
                    |i: int|
                        parity_packet_bytes(
                            rel_path_hash,
                            (batch_idx * parity_count + i) as u64,
                            rec[i],
                        ),
                ),
            ),
        }
    }
}

/// The bytes of a vector of packets.
pub open spec fn packets_view(v: Seq<Vec<u8>>) -> Seq<Seq<u8>> {
    v.map_values(|p: Vec<u8>| p@)
}

/// Computes the PARITY packets of a batch (see [`parity_packets_result`]).
/// Succeeds whenever the batch and the parity count are within the FEC
/// coder's supported range.
pub fn parity_packets(
    rel_path_hash: &str,
    data_payloads: &Vec<Vec<u8>>,
    parity_count: usize,
    batch_idx: u64,
) -> (r: Result<Vec<Vec<u8>>, ParityError>)
    requires
        rel_path_hash.spec_bytes().len() == 32,
        forall|i: int| 0 <= i < data_payloads@.len() ==> (#[trigger] data_payloads@[i])@.len() <= SHARD_SIZE,
        (batch_idx + 1) * parity_count <= u64::MAX,
    ensures
        match r {
            Ok(ps) => parity_packets_result(
                rel_path_hash.spec_bytes(),
                shards_view(data_payloads@),
                parity_count,
                batch_idx,
            ) == Ok::<Seq<Seq<u8>>, ParityError>(packets_view(ps@)),
            Err(e) => parity_packets_result(
                rel_path_hash.spec_bytes(),
                shards_view(data_payloads@),
                parity_count,
                batch_idx,
            ) == Err::<Seq<Seq<u8>>, ParityError>(e),
        },
        rs_counts_supported(data_payloads@.len() as usize, parity_count) ==> r is Ok,
        data_payloads@.len() > 0 && parity_count > 0 ==> (r matches Ok(ps) ==> ps@.len()
            == parity_count),
{
    let n = data_payloads.len();
    if n == 0 || parity_count == 0 {
        let v: Vec<Vec<u8>> = Vec::new();
        assert(packets_view(v@) =~= Seq::<Seq<u8>>::empty());
        return Ok(v);
    }
    let mut shards: Vec<Vec<u8>> = Vec::new();
    let mut i: usize = 0;
    while i < n
        invariant
            i <= n,
            n == data_payloads@.len(),
            forall|j: int| 0 <= j < data_payloads@.len() ==> (#[trigger] data_payloads@[j])@.len() <= SHARD_SIZE,
            shards_view(shards@) =~= padded_batch(shards_view(data_payloads@).take(i as int)),
        decreases n - i,
    {
        let mut shard: Vec<u8> = Vec::new();
        let data = &data_payloads[i];
        crate::proto::append_bytes(&mut shard, data.as_slice());
        let mut k = data.len();
        while k < SHARD_SIZE
            invariant
                data@.len() <= k <= SHARD_SIZE,
                shard@ == data@ + Seq::new((k - data@.len()) as nat, |j: int| 0u8),
            decreases SHARD_SIZE - k,
        {
            shard.push(0u8);
            k = k + 1;
            assert(data@ + Seq::new((k - data@.len()) as nat, |j: int| 0u8) =~= (data@ + Seq::new(
                (k - 1 - data@.len()) as nat,
                |j: int| 0u8,
            )).push(0u8));
        }
        proof {
            assert(data@.take(data@.len() as int) =~= data@);
            assert(shard@ =~= padded_shard(data@));
        }
        shards.push(shard);
        i = i + 1;
        assert(padded_batch(shards_view(data_payloads@).take(i as int)) =~= padded_batch(
            shards_view(data_payloads@).take(i - 1),
        ).push(padded_shard(data_payloads@[i - 1]@)));
    }
    assert(shards_view(data_payloads@).take(n as int) =~= shards_view(data_payloads@));
    proof {
        if rs_counts_supported(n, parity_count) {
            let pb = padded_batch(shards_view(data_payloads@));
            assert(pb[0].len() == SHARD_SIZE);
            assert(crate::fec::uniform_shards(shards_view(shards@)));
        }
    }
    let recovery = match rs_encode(n, parity_count, shards) {
        Ok(rec) => rec,
        Err(_) => {
            return Err(ParityError::EncodeFailed);
        },
    };
    let ghost rec = shards_view(recovery@);
    assert(batch_idx * parity_count <= u64::MAX) by (nonlinear_arith)
        requires
            (batch_idx + 1) * parity_count <= u64::MAX,
    ;
    let base: u64 = batch_idx * parity_count as u64;
    let mut packets: Vec<Vec<u8>> = Vec::new();
    let mut idx: usize = 0;
    while idx < recovery.len()
        invariant
            idx <= recovery@.len(),
            rel_path_hash.spec_bytes().len() == 32,
            recovery@.len() == parity_count,
            rec == shards_view(recovery@),
            base == batch_idx * parity_count,
            (batch_idx + 1) * parity_count <= u64::MAX,
            packets_view(packets@) =~= Seq::new(
                idx as nat,
                |i: int| parity_packet_bytes(rel_path_hash.spec_bytes(), (base + i) as u64, rec[i]),
            ),
        decreases recovery@.len() - idx,
    {
        let parity = &recovery[idx];
        let parity_hash = md5_hex(parity.as_slice());
        assert(base + idx <= u64::MAX) by (nonlinear_arith)
            requires
                base == batch_idx * parity_count,
                (batch_idx + 1) * parity_count <= u64::MAX,
                idx < parity_count,
        ;
        let p = encode_packet(
            PKG_TYPE_PARITY,
            base + idx as u64,
            rel_path_hash,
            parity_hash.as_str(),
            parity.as_slice(),
        );
        let ghost before = packets@;
        packets.push(p);
        idx = idx + 1;
        proof {
            assert(parity@ == rec[idx - 1]);
            assert(packets_view(packets@) =~= packets_view(before).push(p@));
        }
    }
    proof {
        let res = parity_packets_result(
            rel_path_hash.spec_bytes(),
            shards_view(data_payloads@),
            parity_count,
            batch_idx,
        );
        assert(packets_view(packets@) =~= res->Ok_0);
    }
    Ok(packets)
}


/// The progress of one file transfer on the sender's side.
pub struct FileSender {
    rel_path_hash: String,
    count: u64,
    batch_idx: u64,
    batch_payloads: Vec<Vec<u8>>,
    digest: String,
    /// The bytes of each complete batch sent so far.
    batches: Ghost<Seq<Seq<u8>>>,
}

/// The contents of a [`FileSender`]: the path-hash bytes, the number of
/// data chunks sent, the index of the batch being collected, its chunks,
/// and the content digest of the complete batches sent so far.
pub struct FileSenderView {
    pub rel_path_hash: Seq<u8>,
    pub count: u64,
    pub batch_idx: u64,
    pub batch: Seq<Seq<u8>>,
    pub digest: Seq<u8>,
    pub batches: Seq<Seq<u8>>,
}

/// The content digest that the END packet carries: the digest of the
/// complete batches, stepped once more for the last batch if it holds any
/// chunk.
pub open spec fn end_digest(v: FileSenderView) -> Seq<u8> {
    if v.batch.len() == 0 {
        v.digest
    } else {
        digest_step(v.digest, concat_chunks(v.batch))
    }
}

/// The invariant of a transfer: the chunks sent so far fill `batch_idx`
/// complete batches plus the current one, which is not yet complete, and
/// each chunk holds 1 to CHUNK_SIZE bytes.
pub open spec fn sender_wf(v: FileSenderView) -> bool {
    &&& v.rel_path_hash.len() == 32
    &&& v.digest.len() == 32
    &&& v.digest == content_digest(v.batches)
    &&& v.batches.len() == v.batch_idx
    &&& v.batch.len() < BATCH_DATA_CHUNKS
    &&& v.count == v.batch_idx * 1000 + v.batch.len()
    &&& forall|i: int| 0 <= i < v.batch.len() ==> 1 <= (#[trigger] v.batch[i]).len() <= CHUNK_SIZE
}

impl View for FileSender {
    type V = FileSenderView;

    closed spec fn view(&self) -> FileSenderView {
        FileSenderView {
            rel_path_hash: vstd::utf8::encode_utf8(self.rel_path_hash@),
            count: self.count,
            batch_idx: self.batch_idx,
            batch: shards_view(self.batch_payloads@),
            digest: vstd::utf8::encode_utf8(self.digest@),
            batches: self.batches@,
        }
    }
}

impl FileSender {
    /// A transfer of `rel_path` with nothing sent yet; chunks are tagged with
    /// the MD5 hex digest of the path.
    pub fn new(rel_path: &str) -> (s: Self)
        ensures
            sender_wf(s@),
            s@.rel_path_hash == md5_hex_bytes(rel_path.spec_bytes()),
            s@.count == 0,
            s@.batch_idx == 0,
            s@.batch.len() == 0,
            s@.digest == empty_hash_bytes(),
            s@.batches.len() == 0,
    {
        let hash = md5_hex(rel_path.as_bytes());
        let s = FileSender {
            rel_path_hash: hash,
            count: 0,
            batch_idx: 0,
            batch_payloads: Vec::new(),
            digest: String::from_str(EMPTY_HASH),
            batches: Ghost(Seq::empty()),
        };
        proof {
            lemma_empty_hash_bytes();
        }
        assert(s@.batch =~= Seq::<Seq<u8>>::empty());
        s
    }

    /// The number of data chunks sent so far.
    pub fn count(&self) -> (c: u64)
        ensures
            c == self@.count,
    {
        self.count
    }

    /// The START packet, announcing BATCH_PARITY_CHUNKS parity shards per
    /// batch.
    pub fn start_packet(&self, rel_path: &str, filesize: u64) -> (p: Vec<u8>)
        requires
            sender_wf(self@),
        ensures
            p@ == packet_bytes(
                PKG_TYPE_START,
                filesize,
                self@.rel_path_hash,
                parity_field(BATCH_PARITY_CHUNKS as u64),
                rel_path.spec_bytes(),
            ),
    {
        start_packet(filesize, rel_path, self.rel_path_hash.as_str(), BATCH_PARITY_CHUNKS as u64)
    }

    /// Encodes into `buf` the DATA packet for the next chunk, numbered with
    /// the count of chunks sent so far. That count lies in the batch being
    /// collected.
    pub fn data_packet_into(&self, buf: &mut Vec<u8>, chunk: &[u8])
        requires
            sender_wf(self@),
        ensures
            final(buf)@ == packet_bytes(
                PKG_TYPE_DATA,
                self@.count,
                self@.rel_path_hash,
                md5_hex_bytes(chunk@),
                chunk@,
            ),
            self@.count / 1000 == self@.batch_idx,
    {
        encode_data_packet_into(buf, self.rel_path_hash.as_str(), chunk, self.count);
    }

    /// Records that `chunk` was sent. When it completes a batch, the batch's
    /// PARITY packets are returned and the next batch begins.
    pub fn chunk_sent(&mut self, chunk: Vec<u8>) -> (r: Option<Result<Vec<Vec<u8>>, ParityError>>)
        requires
            sender_wf(old(self)@),
            1 <= chunk@.len() <= CHUNK_SIZE,
            old(self)@.count < u64::MAX,
        ensures
            sender_wf(final(self)@),
            ({
                let o = old(self)@;
                let batch = o.batch.push(chunk@);
                &&& final(self)@.rel_path_hash == o.rel_path_hash
                &&& final(self)@.count == o.count + 1
                &&& if batch.len() == BATCH_DATA_CHUNKS {
                    &&& final(self)@.batch_idx == o.batch_idx + 1
                    &&& final(self)@.batch.len() == 0
                    &&& final(self)@.digest == digest_step(o.digest, concat_chunks(batch))
                    &&& final(self)@.batches == o.batches.push(concat_chunks(batch))
                    &&& r matches Some(Ok(ps)) && parity_packets_result(
                        o.rel_path_hash,
                        batch,
                        BATCH_PARITY_CHUNKS,
                        o.batch_idx,
                    ) == Ok::<Seq<Seq<u8>>, ParityError>(packets_view(ps@))
                } else {
                    &&& final(self)@.batch_idx == o.batch_idx
                    &&& final(self)@.batch == batch
                    &&& final(self)@.digest == o.digest
                    &&& final(self)@.batches == o.batches
                    &&& r is None
                }
            }),
    {
        let ghost o = self@;
        self.batch_payloads.push(chunk);
        self.count = self.count + 1;
        assert(shards_view(self.batch_payloads@) =~= o.batch.push(chunk@));
        if self.batch_payloads.len() == BATCH_DATA_CHUNKS {
            proof {
                assert((self.batch_idx + 1) * 100 <= u64::MAX) by (nonlinear_arith)
                    requires
                        self.count == self.batch_idx * 1000 + 1000,
                ;
            }
            assert forall|i: int| 0 <= i < self.batch_payloads@.len() implies (
            #[trigger] self.batch_payloads@[i])@.len() <= SHARD_SIZE by {
                assert(shards_view(self.batch_payloads@)[i] == self.batch_payloads@[i]@);
            }
            let r = parity_packets(
                self.rel_path_hash.as_str(),
                &self.batch_payloads,
                BATCH_PARITY_CHUNKS,
                self.batch_idx,
            );
            let all = concat_vec_chunks(&self.batch_payloads);
            self.digest = content_digest_step(self.digest.as_str(), all.as_slice());
            let ghost done = self.batches@.push(all@);
            proof {
                assert(done.drop_last() =~= self.batches@);
            }
            self.batches = Ghost(done);
            self.batch_payloads = Vec::new();
            self.batch_idx = self.batch_idx + 1;
            assert(shards_view(self.batch_payloads@) =~= Seq::<Seq<u8>>::empty());
            Some(r)
        } else {
            None
        }
    }

    /// Ends the transfer's data: the PARITY packets of the last, incomplete
    /// batch, if it holds any chunk.
    pub fn finish(&self) -> (r: Option<Result<Vec<Vec<u8>>, ParityError>>)
        requires
            sender_wf(self@),
        ensures
            self@.batch.len() == 0 ==> r is None,
            self@.batch.len() > 0 ==> (r matches Some(Ok(ps)) && parity_packets_result(
                self@.rel_path_hash,
                self@.batch,
                BATCH_PARITY_CHUNKS,
                self@.batch_idx,
            ) == Ok::<Seq<Seq<u8>>, ParityError>(packets_view(ps@))),
    {
        if self.batch_payloads.len() == 0 {
            None
        } else {
            proof {
                assert((self.batch_idx + 1) * 100 <= u64::MAX) by (nonlinear_arith)
                    requires
                        self.count == self.batch_idx * 1000 + self.batch_payloads@.len(),
                        self.count <= u64::MAX,
                ;
            }
            assert forall|i: int| 0 <= i < self.batch_payloads@.len() implies (
            #[trigger] self.batch_payloads@[i])@.len() <= SHARD_SIZE by {
                assert(shards_view(self.batch_payloads@)[i] == self.batch_payloads@[i]@);
            }
            Some(
                parity_packets(
                    self.rel_path_hash.as_str(),
                    &self.batch_payloads,
                    BATCH_PARITY_CHUNKS,
                    self.batch_idx,
                ),
            )
        }
    }

    /// The END packet, carrying the number of data chunks sent and the
    /// content digest of all of them (see [`end_digest`]).
    pub fn end_packet(&self, rel_path: &str) -> (p: Vec<u8>)
        requires
            sender_wf(self@),
        ensures
            p@ == packet_bytes(
                PKG_TYPE_END,
                self@.count,
                empty_hash_bytes(),
                end_digest(self@),
                rel_path.spec_bytes(),
            ),
    {
        if self.batch_payloads.len() == 0 {
            end_packet(rel_path, self.count, self.digest.as_str())
        } else {
            let all = concat_vec_chunks(&self.batch_payloads);
            let d = content_digest_step(self.digest.as_str(), all.as_slice());
            end_packet(rel_path, self.count, d.as_str())
        }
    }
}


/// The END packet's digest is the content digest of every batch the
/// transfer sent, in order: the complete batches, and the last, incomplete
/// one if it holds any chunk. With no chunk pending it is the digest of the
/// complete batches, unchanged.
pub proof fn law_end_digest(v: FileSenderView)
    requires
        sender_wf(v),
    ensures
        end_digest(v) == content_digest(if v.batch.len() == 0 {
            v.batches
        } else {
            v.batches.push(concat_chunks(v.batch))
        }),
        v.batch.len() == 0 ==> end_digest(v) == v.digest,
{
    if v.batch.len() > 0 {
        assert(v.batches.push(concat_chunks(v.batch)).drop_last() =~= v.batches);
    }
}

/// How many times START and END packets are sent, so that a lost one does
/// not lose the transfer.
pub const CONTROL_RESEND: usize = 3;

/// How many times the fragments of a forwarded UDP datagram are sent.
pub const UDP_RESEND: usize = 2;

/// A packet to send `times` times; when `required`, a failed send ends the
/// file's transfer (START, DATA and END), otherwise it is only reported
/// (PARITY).
pub struct Outgoing {
    pub packet: Vec<u8>,
    pub times: usize,
    pub required: bool,
}

/// The packets, counts and flags of a list of sends.
pub open spec fn outgoing_view(v: Seq<Outgoing>) -> Seq<(Seq<u8>, usize, bool)> {
    v.map_values(|o: Outgoing| (o.packet@, o.times, o.required))
}

/// The sends of a batch's PARITY packets: each once, not required; none
/// if the encoder refused the batch.
pub open spec fn parity_sends(r: Result<Seq<Seq<u8>>, ParityError>) -> Seq<(Seq<u8>, usize, bool)> {
    match r {
        Ok(ps) => ps.map_values(|p: Seq<u8>| (p, 1usize, false)),
        Err(_) => Seq::empty(),
    }
}

/// Appends the sends of PARITY packets `ps`.
fn push_parity_sends(out: &mut Vec<Outgoing>, ps: Vec<Vec<u8>>)
    ensures
        outgoing_view(final(out)@) == outgoing_view(old(out)@) + parity_sends(
            Ok::<Seq<Seq<u8>>, ParityError>(packets_view(ps@)),
        ),
{
    let ghost pv = packets_view(ps@);
    let ghost o = outgoing_view(out@);
    let mut rest = ps;
    let n = rest.len();
    let mut i: usize = 0;
    while i < n
        invariant
            i <= n,
            n == pv.len(),
            packets_view(rest@) == pv.skip(i as int),
            rest@.len() == n - i,
            outgoing_view(out@) == o + pv.take(i as int).map_values(
                |p: Seq<u8>| (p, 1usize, false),
            ),
        decreases n - i,
    {
        let ghost rv = rest@;
        let p = rest.remove(0);
        let ghost before = outgoing_view(out@);
        out.push(Outgoing { packet: p, times: 1, required: false });
        proof {
            assert(packets_view(rv)[0] == rv[0]@);
            assert(p@ == packets_view(rv)[0]);
            assert(pv.skip(i as int)[0] == pv[i as int]);
            assert forall|k: int| 0 <= k < rest@.len() implies packets_view(rest@)[k] == pv.skip(
                i + 1,
            )[k] by {
                assert(rest@[k] == rv[k + 1]);
                assert(packets_view(rv)[k + 1] == rv[k + 1]@);
                assert(pv.skip(i as int)[k + 1] == pv[i + 1 + k]);
            }
            assert(packets_view(rest@) =~= pv.skip(i + 1));
            assert(outgoing_view(out@) =~= before.push((p@, 1usize, false)));
            assert(pv.take(i + 1).map_values(|p: Seq<u8>| (p, 1usize, false)) =~= pv.take(
                i as int,
            ).map_values(|p: Seq<u8>| (p, 1usize, false)).push((pv[i as int], 1usize, false)));
        }
        i = i + 1;
    }
    assert(pv.take(n as int) =~= pv);
}

impl FileSender {
    /// The first sends of a transfer: its START packet, CONTROL_RESEND
    /// times, required.
    pub fn start_sends(&self, rel_path: &str, filesize: u64) -> (r: Vec<Outgoing>)
        requires
            sender_wf(self@),
        ensures
            outgoing_view(r@) == seq![
                (
                    packet_bytes(
                        PKG_TYPE_START,
                        filesize,
                        self@.rel_path_hash,
                        parity_field(BATCH_PARITY_CHUNKS as u64),
                        rel_path.spec_bytes(),
                    ),
                    CONTROL_RESEND,
                    true,
                ),
            ],
    {
        let p = self.start_packet(rel_path, filesize);
        let mut r: Vec<Outgoing> = Vec::new();
        r.push(Outgoing { packet: p, times: CONTROL_RESEND, required: true });
        assert(outgoing_view(r@) =~= seq![(p@, CONTROL_RESEND, true)]);
        r
    }

    /// The sends for the next chunk read from the file: its DATA packet,
    /// once, required; then, when it completes a batch, the batch's PARITY
    /// packets (see [`FileSender::chunk_sent`] for the new state).
    pub fn chunk_sends(&mut self, chunk: Vec<u8>) -> (r: Vec<Outgoing>)
        requires
            sender_wf(old(self)@),
            1 <= chunk@.len() <= CHUNK_SIZE,
            old(self)@.count < u64::MAX,
        ensures
            sender_wf(final(self)@),
            ({
                let o = old(self)@;
                let batch = o.batch.push(chunk@);
                let data = packet_bytes(
                    PKG_TYPE_DATA,
                    o.count,
                    o.rel_path_hash,
                    md5_hex_bytes(chunk@),
                    chunk@,
                );
                &&& final(self)@.rel_path_hash == o.rel_path_hash
                &&& final(self)@.count == o.count + 1
                &&& if batch.len() == BATCH_DATA_CHUNKS {
                    &&& final(self)@.batch_idx == o.batch_idx + 1
                    &&& final(self)@.batch.len() == 0
                    &&& final(self)@.digest == digest_step(o.digest, concat_chunks(batch))
                    &&& final(self)@.batches == o.batches.push(concat_chunks(batch))
                    &&& outgoing_view(r@) == seq![(data, 1usize, true)] + parity_sends(
                        parity_packets_result(o.rel_path_hash, batch, BATCH_PARITY_CHUNKS, o.batch_idx),
                    )
                } else {
                    &&& final(self)@.batch_idx == o.batch_idx
                    &&& final(self)@.batch == batch
                    &&& final(self)@.digest == o.digest
                    &&& final(self)@.batches == o.batches
                    &&& outgoing_view(r@) == seq![(data, 1usize, true)]
                }
            }),
    {
        let mut buf: Vec<u8> = Vec::new();
        self.data_packet_into(&mut buf, chunk.as_slice());
        let ghost data = buf@;
        let mut r: Vec<Outgoing> = Vec::new();
        r.push(Outgoing { packet: buf, times: 1, required: true });
        assert(outgoing_view(r@) =~= seq![(data, 1usize, true)]);
        match self.chunk_sent(chunk) {
            Some(Ok(ps)) => {
                push_parity_sends(&mut r, ps);
            },
            _ => {},
        }
        r
    }

    /// The last sends of a transfer: the PARITY packets of the last,
    /// incomplete batch (if it holds any chunk), then the END packet,
    /// CONTROL_RESEND times, required. Once they are all sent the file may
    /// be removed.
    pub fn end_sends(&self, rel_path: &str) -> (r: Vec<Outgoing>)
        requires
            sender_wf(self@),
        ensures
            outgoing_view(r@) == (if self@.batch.len() > 0 {
                parity_sends(
                    parity_packets_result(
                        self@.rel_path_hash,
                        self@.batch,
                        BATCH_PARITY_CHUNKS,
                        self@.batch_idx,
                    ),
                )
            } else {
                Seq::empty()
            }) + seq![
                (
                    packet_bytes(
                        PKG_TYPE_END,
                        self@.count,
                        empty_hash_bytes(),
                        end_digest(self@),
                        rel_path.spec_bytes(),
                    ),
                    CONTROL_RESEND,
                    true,
                ),
            ],
    {
        let mut r: Vec<Outgoing> = Vec::new();
        assert(outgoing_view(r@) =~= Seq::<(Seq<u8>, usize, bool)>::empty());
        match self.finish() {
            Some(Ok(ps)) => {
                push_parity_sends(&mut r, ps);
                assert(Seq::<(Seq<u8>, usize, bool)>::empty() + parity_sends(
                    Ok::<Seq<Seq<u8>>, ParityError>(packets_view(ps@)),
                ) =~= parity_sends(Ok::<Seq<Seq<u8>>, ParityError>(packets_view(ps@))));
            },
            _ => {},
        }
        let ghost before = outgoing_view(r@);
        let e = self.end_packet(rel_path);
        r.push(Outgoing { packet: e, times: CONTROL_RESEND, required: true });
        assert(outgoing_view(r@) =~= before + seq![(e@, CONTROL_RESEND, true)]);
        r
    }
}

/// The packets that forward UDP datagram `data` with id `pkg_id`: all its
/// fragments in order, and the whole sequence again, UDP_RESEND times in
/// all.
pub fn udp_sends(data: &[u8], pkg_id: &str) -> (packets: Vec<Vec<u8>>)
    requires
        pkg_id.spec_bytes().len() == 32,
    ensures
        packets_view(packets@) == udp_packets(data@, pkg_id.spec_bytes()) + udp_packets(
            data@,
            pkg_id.spec_bytes(),
        ),
{
    let mut packets = udp_fragments(data, pkg_id);
    let again = udp_fragments(data, pkg_id);
    let ghost a = packets_view(packets@);
    let ghost b = packets_view(again@);
    let mut again2 = again;
    packets.append(&mut again2);
    assert(packets_view(packets@) =~= a + b);
    packets
}

/// The sender numbers PARITY shard `i` of batch `b` as `b * 100 + i`; the
/// receiver files it under batch `b` at index `i`.
pub proof fn law_parity_numbering(b: u64, i: nat)
    requires
        i < BATCH_PARITY_CHUNKS,
        b * 100 + i <= u64::MAX,
    ensures
        ((b * 100 + i) as u64) / 100 == b,
        ((b * 100 + i) as u64) % 100 == i,
{
}

/// The id of a forwarded UDP datagram: the MD5 hex digest of the decimal
/// time (in nanoseconds) at which it is sent.
pub fn udp_flow_id(nanos: u128) -> (id: String)
    ensures
        vstd::utf8::encode_utf8(id@) == md5_hex_bytes(decimal_digits(nanos as nat)),
        md5_hex_bytes(decimal_digits(nanos as nat)).len() == 32,
{
    let mut digits: Vec<u8> = Vec::new();
    push_decimal(&mut digits, nanos);
    assert(digits@ =~= decimal_digits(nanos as nat));
    md5_hex(digits.as_slice())
}

/// Fragment `i` of `data`: bytes `i * CHUNK_SIZE` up to the next multiple
/// of CHUNK_SIZE or the end.
pub open spec fn fragment(data: Seq<u8>, i: nat) -> Seq<u8> {
    let lo: int = (i * 940) as int;
    let hi: int = if lo + 940 <= data.len() {
        lo + 940
    } else {
        data.len() as int
    };
    data.subrange(lo as int, hi)
}

/// Number of CHUNK_SIZE fragments of `len` bytes.
pub open spec fn fragment_count(len: nat) -> nat {
    ((len + 939) / 940) as nat
}

/// The UDP packets that carry `data` through the diode: fragment `i`
/// numbered `i`, the datagram's length zero-padded to 32 digits in the
/// path-hash field, and the datagram id in the data-hash field.
pub open spec fn udp_packets(data: Seq<u8>, pkg_id: Seq<u8>) -> Seq<Seq<u8>> {
    Seq::new(
        fragment_count(data.len()),
        |i: int|
            packet_bytes(
                PKG_TYPE_UDP,
                i as u64,
                padded_decimal(data.len(), 32),
                pkg_id,
                fragment(data, i as nat),
            ),
    )
}

proof fn lemma_fragment_step(len: nat, c: nat)
    requires
        c * 940 < len,
    ensures
        c < fragment_count(len),
        (c + 1) * 940 < len ==> c + 1 < fragment_count(len),
        (c + 1) * 940 >= len ==> c + 1 == fragment_count(len),
{
    assert(c < fragment_count(len)) by (nonlinear_arith)
        requires
            c * 940 < len,
    ;
    assert((c + 1) * 940 < len ==> c + 1 < fragment_count(len)) by (nonlinear_arith);
    assert((c + 1) * 940 >= len ==> c + 1 == fragment_count(len)) by (nonlinear_arith)
        requires
            c * 940 < len,
    ;
}

/// The UDP packets for one transmission of the datagram `data` (see
/// [`udp_packets`]).
pub fn udp_fragments(data: &[u8], pkg_id: &str) -> (packets: Vec<Vec<u8>>)
    requires
        pkg_id.spec_bytes().len() == 32,
    ensures
        packets_view(packets@) == udp_packets(data@, pkg_id.spec_bytes()),
{
    let len = data.len();
    let length_field = crate::proto::padded_field(len as u64);
    let mut packets: Vec<Vec<u8>> = Vec::new();
    let mut lo: usize = 0;
    let mut count: u64 = 0;
    proof {
        if len == 0 {
            assert(fragment_count(0) == 0);
        } else {
            lemma_fragment_step(len as nat, 0);
        }
    }
    while lo < len
        invariant
            lo <= len,
            len == data@.len(),
            pkg_id.spec_bytes().len() == 32,
            vstd::utf8::encode_utf8(length_field@) == padded_decimal(len as nat, 32),
            padded_decimal(len as nat, 32).len() == 32,
            lo < len ==> lo == count * 940,
            count == packets@.len(),
            lo < len ==> count < fragment_count(len as nat),
            lo == len ==> count == fragment_count(len as nat),
            packets_view(packets@) =~= udp_packets(data@, pkg_id.spec_bytes()).take(count as int),
        decreases len - lo,
    {
        let hi = if len - lo >= 940 {
            lo + 940
        } else {
            len
        };
        let p = encode_packet(
            PKG_TYPE_UDP,
            count,
            length_field.as_str(),
            pkg_id,
            &data[lo..hi],
        );
        let ghost before = packets@;
        proof {
            lemma_fragment_step(len as nat, count as nat);
            assert(p@ == udp_packets(data@, pkg_id.spec_bytes())[count as int]);
        }
        packets.push(p);
        lo = hi;
        count = count + 1;
        proof {
            assert(packets_view(packets@) =~= packets_view(before).push(p@));
        }
    }
    packets
}

/// The back-off after another ENOBUFS: twice the current one, at most
/// `max_ms` milliseconds.
pub fn next_backoff_ms(current_ms: u64, max_ms: u64) -> (next: u64)
    ensures
        next == (if 2 * current_ms <= max_ms {
            2 * current_ms as int
        } else {
            max_ms as int
        }),
{
    if current_ms <= max_ms / 2 {
        current_ms * 2
    } else {
        max_ms
    }
}

/// `x + y`, or `u64::MAX` where that overflows.
pub open spec fn sat_add(x: u64, y: u64) -> u64 {
    if x + y <= u64::MAX {
        (x + y) as u64
    } else {
        u64::MAX
    }
}

/// One reservation of the pacer: the slot is the later of the last
/// reserved deadline and now; the next deadline is one interval after it.
pub open spec fn pacer_step(prev_deadline: u64, now: u64, interval: u64) -> (u64, u64) {
    let slot = if prev_deadline >= now {
        prev_deadline
    } else {
        now
    };
    (slot, sat_add(slot, interval))
}

/// Reserves the pacer's next send slot (see [`pacer_step`]).
pub fn pacer_reserve(prev_deadline: u64, now: u64, interval: u64) -> (r: (u64, u64))
    ensures
        r == pacer_step(prev_deadline, now, interval),
{
    let slot = if prev_deadline >= now {
        prev_deadline
    } else {
        now
    };
    (slot, slot.saturating_add(interval))
}

/// The slots that successive reservations get, starting from the deadline
/// `prev_deadline`, when they are made at the times `nows`.
pub open spec fn pacer_slots(prev_deadline: u64, nows: Seq<u64>, interval: u64) -> Seq<u64>
    decreases nows.len(),
{
    if nows.len() == 0 {
        Seq::empty()
    } else {
        let r = pacer_step(prev_deadline, nows[0], interval);
        seq![r.0] + pacer_slots(r.1, nows.drop_first(), interval)
    }
}

/// Successive reservations of the pacer each get a slot no earlier than
/// the time at which they are made (and than the deadline they start
/// from), and each slot is at least one interval after the one before
/// (capped at the largest time).
pub proof fn law_pacer_slots(prev_deadline: u64, nows: Seq<u64>, interval: u64)
    ensures
        ({
            let slots = pacer_slots(prev_deadline, nows, interval);
            &&& slots.len() == nows.len()
            &&& nows.len() > 0 ==> slots[0] >= prev_deadline
            &&& forall|j: int| 0 <= j < nows.len() ==> #[trigger] slots[j] >= nows[j]
            &&& forall|j: int|
                0 <= j < nows.len() - 1 ==> #[trigger] slots[j + 1] >= sat_add(slots[j], interval)
        }),
    decreases nows.len(),
{
    if nows.len() > 0 {
        let r = pacer_step(prev_deadline, nows[0], interval);
        let rest = nows.drop_first();
        law_pacer_slots(r.1, rest, interval);
        let slots = pacer_slots(prev_deadline, nows, interval);
        let tail = pacer_slots(r.1, rest, interval);
        assert(slots == seq![r.0] + tail);
        assert forall|j: int| 0 <= j < nows.len() implies #[trigger] slots[j] >= nows[j] by {
            if j > 0 {
                assert(slots[j] == tail[j - 1]);
                assert(rest[j - 1] == nows[j]);
            }
        }
        assert forall|j: int| 0 <= j < nows.len() - 1 implies #[trigger] slots[j + 1] >= sat_add(
            slots[j],
            interval,
        ) by {
            assert(slots[j + 1] == tail[j]);
            if j > 0 {
                assert(slots[j] == tail[j - 1]);
            }
        }
    }
}

} // verus!
