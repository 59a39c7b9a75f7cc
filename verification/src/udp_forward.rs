//! Reassembly of UDP datagrams that the sender forwards through the diode
//! in CHUNK_SIZE fragments, before they are passed on into the internal
//! network.

use vstd::prelude::*;
use crate::decimal::{
    lemma_decimal_digits_len, lemma_parse_padded_decimal, padded_decimal, parse_unsigned,
    parse_unsigned_bounded, pow10,
};
use crate::proto::{append_bytes, Packet, PacketView, CHUNK_SIZE, UDP_MAX_FORWARD_BYTES};
use crate::receive::bytes_equal;
use crate::send::{fragment, fragment_count, udp_packets};
use crate::proto::{decoded_packet, law_packet_round_trip, PKG_TYPE_UDP};

verus! {

/// A flow whose most recent fragment arrived longer ago than this many
/// nanoseconds is treated as abandoned.
pub const UDP_FLOW_TIMEOUT_NANOS: u64 = 2000000000;

/// The flow being reassembled.
pub struct UdpForwardState {
    /// First 8 bytes of the sender's per-datagram id; `None` when no flow
    /// is being reassembled.
    current_id: Option<Vec<u8>>,
    full_packet: Vec<u8>,
    previous_count: u64,
    /// The size declared by the flow's first fragment, pinned for the flow.
    expected_size: usize,
    /// When (in nanoseconds on the caller's monotonic clock) the most
    /// recently accepted fragment arrived.
    last_activity: u64,
}

/// The contents of a [`UdpForwardState`].
#[verifier::ext_equal]
pub struct UdpView {
    pub current_id: Option<Seq<u8>>,
    pub full_packet: Seq<u8>,
    pub previous_count: u64,
    pub expected_size: usize,
    pub last_activity: u64,
}

impl View for UdpForwardState {
    type V = UdpView;

    closed spec fn view(&self) -> UdpView {
        UdpView {
            current_id: match self.current_id {
                Some(id) => Some(id@),
                None => None,
            },
            full_packet: self.full_packet@,
            previous_count: self.previous_count,
            expected_size: self.expected_size,
            last_activity: self.last_activity,
        }
    }
}

/// The invariant of the reassembly: with no flow, nothing is held; within a
/// flow, the pinned size is between 1 and the cap, the bytes held are fewer
/// than it, and every accepted fragment (counts 0 to `previous_count`)
/// brought at least one byte.
pub open spec fn udp_wf(v: UdpView) -> bool {
    match v.current_id {
        None => v.full_packet.len() == 0 && v.previous_count == 0 && v.expected_size == 0,
        Some(id) => {
            &&& id.len() == 8
            &&& 1 <= v.expected_size <= UDP_MAX_FORWARD_BYTES
            &&& v.previous_count + 1 <= v.full_packet.len() < v.expected_size
        },
    }
}

/// No flow, last activity at `now`.
pub open spec fn udp_idle(now: u64) -> UdpView {
    UdpView {
        current_id: None,
        full_packet: Seq::empty(),
        previous_count: 0,
        expected_size: 0,
        last_activity: now,
    }
}

/// The state after a flow is dropped or delivered.
pub open spec fn udp_reset(v: UdpView) -> UdpView {
    UdpView {
        current_id: None,
        full_packet: Seq::empty(),
        previous_count: 0,
        expected_size: 0,
        last_activity: v.last_activity,
    }
}

/// The state after `full` has been accepted as the flow's bytes so far:
/// the datagram is delivered (and the flow ends) once `full` reaches the
/// pinned size.
pub open spec fn udp_accept(v: UdpView, full: Seq<u8>) -> (UdpView, Option<Seq<u8>>) {
    if full.len() == v.expected_size {
        (udp_reset(v), Some(full))
    } else {
        (UdpView { full_packet: full, ..v }, None)
    }
}

/// What one fragment does to the reassembly, and the datagram it
/// completes, if any. The "size" field (the path-hash field) must be a
/// decimal `usize`; the flow id is the first 8 bytes of the data-hash field.
///
/// A first fragment (count 0) declaring 1 to UDP_MAX_FORWARD_BYTES bytes,
/// with 1 to CHUNK_SIZE bytes of payload that do not exceed the declared
/// size, starts a new flow: unless another flow is in progress whose last
/// fragment is at most UDP_FLOW_TIMEOUT_NANOS old (a retransmission of the
/// flow in progress restarts it).
///
/// A later fragment is taken only if it belongs to the flow in progress,
/// directly follows the last accepted one, and declares the pinned size;
/// a payload that is empty, over CHUNK_SIZE, or longer than the bytes still
/// missing drops the flow. Anything else is ignored.
pub open spec fn udp_step(v: UdpView, p: PacketView, now: u64) -> (UdpView, Option<Seq<u8>>) {
    let id = p.data_hash.take(8);
    match parse_unsigned(p.path_hash, usize::MAX as nat) {
        None => (v, None),
        Some(declared) => if p.count == 0 {
            if declared == 0 || declared > UDP_MAX_FORWARD_BYTES {
                (v, None)
            } else if p.data.len() == 0 || p.data.len() > CHUNK_SIZE || p.data.len() > declared {
                (v, None)
            } else if v.current_id is Some && v.current_id != Some(id) && !(now - v.last_activity
                > UDP_FLOW_TIMEOUT_NANOS) {
                (v, None)
            } else {
                let started = UdpView {
                    current_id: Some(id),
                    full_packet: Seq::empty(),
                    previous_count: 0,
                    expected_size: declared as usize,
                    last_activity: now,
                };
                udp_accept(started, p.data)
            }
        } else if v.current_id != Some(id) || p.count != v.previous_count + 1 {
            (v, None)
        } else if declared != v.expected_size {
            (v, None)
        } else if p.data.len() == 0 || p.data.len() > CHUNK_SIZE || p.data.len() > v.expected_size
            - v.full_packet.len() {
            (udp_reset(v), None)
        } else {
            udp_accept(
                UdpView { previous_count: p.count, last_activity: now, ..v },
                v.full_packet + p.data,
            )
        },
    }
}

impl UdpForwardState {
    #[verifier::type_invariant]
    spec fn inv(self) -> bool {
        udp_wf(self@)
    }

    /// No flow in progress; `now` is the current time on the caller's
    /// monotonic clock, in nanoseconds.
    pub fn new(now: u64) -> (s: Self)
        ensures
            s@ == udp_idle(now),
    {
        UdpForwardState {
            current_id: None,
            full_packet: Vec::new(),
            previous_count: 0,
            expected_size: 0,
            last_activity: now,
        }
    }

    /// Drops every trace of the flow in progress.
    pub fn reset(&mut self)
        ensures
            final(self)@ == udp_reset(old(self)@),
    {
        let last = self.last_activity;
        *self = UdpForwardState {
            current_id: None,
            full_packet: Vec::new(),
            previous_count: 0,
            expected_size: 0,
            last_activity: last,
        };
    }

    /// Takes one UDP fragment arriving at time `now` (nanoseconds on the
    /// caller's monotonic clock), and returns the datagram that it
    /// completes, if any (see [`udp_step`]).
    pub fn on_packet(&mut self, packet: &Packet, now: u64) -> (out: Option<Vec<u8>>)
        requires
            packet.data_hash@.len() >= 8,
        ensures
            ({
                let s = udp_step(old(self)@, packet@, now);
                &&& final(self)@ == s.0
                &&& match out {
                    Some(d) => s.1 == Some(d@),
                    None => s.1 is None,
                }
            }),
    {
        proof {
            use_type_invariant(&*self);
        }
        let ghost v = self@;
        let ghost p = packet@;
        let declared: usize = match parse_unsigned_bounded(
            packet.path_hash.as_slice(),
            usize::MAX as u64,
        ) {
            Some(d) => d as usize,
            None => {
                return None;
            },
        };
        let mut id: Vec<u8> = Vec::new();
        append_bytes(&mut id, &packet.data_hash.as_slice()[0..8]);
        assert(id@ =~= p.data_hash.take(8));
        let count = packet.count;
        let len = packet.data.len();
        if count == 0 {
            if declared == 0 || declared > UDP_MAX_FORWARD_BYTES {
                return None;
            }
            if len == 0 || len > CHUNK_SIZE || len > declared {
                return None;
            }
            let same_flow_or_none = match &self.current_id {
                Some(cur) => {
                    let same = bytes_equal(cur.as_slice(), id.as_slice());
                    let stale = now.saturating_sub(self.last_activity) > UDP_FLOW_TIMEOUT_NANOS;
                    same || stale
                },
                None => true,
            };
            if !same_flow_or_none {
                return None;
            }
            let mut full: Vec<u8> = Vec::new();
            append_bytes(&mut full, packet.data.as_slice());
            assert(full@ =~= Seq::<u8>::empty() + p.data);
            if full.len() == declared {
                *self = UdpForwardState {
                    current_id: None,
                    full_packet: Vec::new(),
                    previous_count: 0,
                    expected_size: 0,
                    last_activity: now,
                };
                return Some(full);
            }
            *self = UdpForwardState {
                current_id: Some(id),
                full_packet: full,
                previous_count: 0,
                expected_size: declared,
                last_activity: now,
            };
            return None;
        }
        let matches_flow = match &self.current_id {
            Some(cur) => bytes_equal(cur.as_slice(), id.as_slice()),
            None => false,
        };
        if !matches_flow || count != self.previous_count + 1 {
            return None;
        }
        if declared != self.expected_size {
            return None;
        }
        let remaining = self.expected_size - self.full_packet.len();
        if len == 0 || len > CHUNK_SIZE || len > remaining {
            self.reset();
            return None;
        }
        let mut full: Vec<u8> = Vec::new();
        append_bytes(&mut full, self.full_packet.as_slice());
        append_bytes(&mut full, packet.data.as_slice());
        if full.len() == self.expected_size {
            *self = UdpForwardState {
                current_id: None,
                full_packet: Vec::new(),
                previous_count: 0,
                expected_size: 0,
                last_activity: now,
            };
            return Some(full);
        }
        *self = UdpForwardState {
            current_id: Some(id),
            full_packet: full,
            previous_count: count,
            expected_size: self.expected_size,
            last_activity: now,
        };
        None
    }
}


/// The forwarder's state and outputs after taking the fragments `ps`, the
/// `i`-th arriving at time `ts[i]`.
pub open spec fn udp_run(v: UdpView, ps: Seq<PacketView>, ts: Seq<u64>) -> (
    UdpView,
    Seq<Option<Seq<u8>>>,
)
    decreases ps.len(),
{
    if ps.len() == 0 || ts.len() == 0 {
        (v, Seq::empty())
    } else {
        let s = udp_step(v, ps[0], ts[0]);
        let rest = udp_run(s.0, ps.drop_first(), ts.drop_first());
        (rest.0, seq![s.1] + rest.1)
    }
}

/// The fields of the UDP packets that the sender makes of `data`.
pub open spec fn udp_fragment_views(data: Seq<u8>, pkg_id: Seq<u8>) -> Seq<PacketView> {
    Seq::new(
        fragment_count(data.len()),
        |i: int|
            PacketView {
                pkg_type: PKG_TYPE_UDP,
                count: i as u64,
                path_hash: padded_decimal(data.len(), 32),
                data_hash: pkg_id,
                data: fragment(data, i as nat),
            },
    )
}

/// The forwarder after taking the first `k` fragments of `data`.
pub open spec fn flow_after(data: Seq<u8>, pkg_id: Seq<u8>, k: nat, t: u64) -> UdpView {
    UdpView {
        current_id: Some(pkg_id.take(8)),
        full_packet: data.subrange(0, (k * 940) as int),
        previous_count: (k - 1) as u64,
        expected_size: data.len() as usize,
        last_activity: t,
    }
}

proof fn lemma_fragment_facts(data: Seq<u8>, i: nat)
    requires
        i < fragment_count(data.len()),
    ensures
        i * 940 < data.len(),
        1 <= fragment(data, i).len() <= 940,
        data.subrange(0, (i * 940) as int) + fragment(data, i) == data.subrange(
            0,
            if (i + 1) * 940 <= data.len() {
                ((i + 1) * 940) as int
            } else {
                data.len() as int
            },
        ),
        (i + 1) * 940 >= data.len() <==> i + 1 == fragment_count(data.len()),
{
    assert(i * 940 < data.len()) by (nonlinear_arith)
        requires
            i < (data.len() + 939) / 940,
    ;
    assert((i + 1) * 940 >= data.len() <==> i + 1 == fragment_count(data.len())) by (
    nonlinear_arith)
        requires
            i < (data.len() + 939) / 940,
    ;
    assert(data.subrange(0, (i * 940) as int) + fragment(data, i) =~= data.subrange(
        0,
        if (i + 1) * 940 <= data.len() {
            ((i + 1) * 940) as int
        } else {
            data.len() as int
        },
    ));
}

proof fn lemma_padded_size_field(data: Seq<u8>)
    requires
        data.len() <= UDP_MAX_FORWARD_BYTES,
    ensures
        padded_decimal(data.len(), 32).len() == 32,
{
    lemma_decimal_digits_len(data.len(), 7);
    assert(pow10(7) == 10000000) by {
        reveal_with_fuel(pow10, 8);
    }
}

proof fn lemma_declared_size(data: Seq<u8>)
    requires
        data.len() <= UDP_MAX_FORWARD_BYTES,
    ensures
        parse_unsigned(padded_decimal(data.len(), 32), usize::MAX as nat) == Some(data.len()),
{
    lemma_parse_padded_decimal(data.len(), 32, usize::MAX as nat);
}

proof fn lemma_run_from_flow(data: Seq<u8>, pkg_id: Seq<u8>, ts: Seq<u64>, k: nat, t: u64)
    requires
        1 <= data.len() <= UDP_MAX_FORWARD_BYTES,
        pkg_id.len() == 32,
        ts.len() == fragment_count(data.len()),
        1 <= k < fragment_count(data.len()),
    ensures
        ({
            let n = fragment_count(data.len());
            let r = udp_run(
                flow_after(data, pkg_id, k, t),
                udp_fragment_views(data, pkg_id).skip(k as int),
                ts.skip(k as int),
            );
            &&& r.0.current_id is None
            &&& r.1.len() == n - k
            &&& r.1[n - k - 1] == Some(data)
            &&& forall|j: int| 0 <= j < n - k - 1 ==> r.1[j] is None
        }),
    decreases fragment_count(data.len()) - k,
{
    let n = fragment_count(data.len());
    let views = udp_fragment_views(data, pkg_id);
    let v = flow_after(data, pkg_id, k, t);
    let p = views[k as int];
    lemma_fragment_facts(data, k);
    lemma_fragment_facts(data, (k - 1) as nat);
    lemma_declared_size(data);
    assert(views.skip(k as int)[0] == p);
    assert(views.skip(k as int).drop_first() =~= views.skip((k + 1) as int));
    assert(ts.skip(k as int).drop_first() =~= ts.skip((k + 1) as int));
    assert(ts.skip(k as int)[0] == ts[k as int]);
    assert(ts.skip(k as int).len() > 0);
    assert(p.data_hash.take(8) == pkg_id.take(8));
    assert(v.full_packet.len() == k * 940);
    assert(k < 10000) by (nonlinear_arith)
        requires
            k * 940 < data.len(),
            data.len() <= UDP_MAX_FORWARD_BYTES,
    ;
    assert(p.count == k);
    assert(p.data.len() <= data.len() - k * 940);
    assert(v.current_id == Some(p.data_hash.take(8)));
    assert(p.count == v.previous_count + 1);
    let s = udp_step(v, p, ts[k as int]);
    assert(s.0.full_packet == data.subrange(0, (k * 940) as int) + p.data || s.1 is Some);
    if k + 1 == n {
        assert(s.1 == Some(data.subrange(0, data.len() as int)));
        assert(data.subrange(0, data.len() as int) =~= data);
        assert(views.skip((k + 1) as int).len() == 0);
        let r = udp_run(v, views.skip(k as int), ts.skip(k as int));
        let rest = udp_run(s.0, views.skip((k + 1) as int), ts.skip((k + 1) as int));
        assert(rest.1 =~= Seq::<Option<Seq<u8>>>::empty());
        assert(r.1 =~= seq![s.1] + rest.1);
        assert(r.1 =~= seq![s.1]);
    } else {
        assert((k + 1) * 940 < data.len());
        assert(v.full_packet + p.data == data.subrange(0, ((k + 1) * 940) as int));
        assert((v.full_packet + p.data).len() != v.expected_size);
        assert(s.1 is None);
        assert(s.0.full_packet == v.full_packet + p.data);
        assert(s.0.full_packet =~= flow_after(data, pkg_id, k + 1, ts[k as int]).full_packet);
        assert(s.0 == flow_after(data, pkg_id, k + 1, ts[k as int]));
        lemma_run_from_flow(data, pkg_id, ts, k + 1, ts[k as int]);
        let rest = udp_run(s.0, views.skip((k + 1) as int), ts.skip((k + 1) as int));
        let r = udp_run(v, views.skip(k as int), ts.skip(k as int));
        assert(r.1 =~= seq![s.1] + rest.1);
        assert forall|j: int| 0 <= j < n - k - 1 implies r.1[j] is None by {
            if j > 0 {
                assert(r.1[j] == rest.1[j - 1]);
            }
        }
    }
}

/// Retransmission: whatever state the forwarder is in, so long as no flow
/// or a flow of the same id is in progress (such as an incomplete earlier
/// copy of the same datagram, some of whose fragments were lost), the
/// complete, in-order fragments of a datagram of 1 to UDP_MAX_FORWARD_BYTES
/// bytes forward it whole exactly once: on its last fragment, and not
/// before; no flow is left in progress.
pub proof fn law_udp_retransmission(data: Seq<u8>, pkg_id: Seq<u8>, v: UdpView, ts: Seq<u64>)
    requires
        1 <= data.len() <= UDP_MAX_FORWARD_BYTES,
        pkg_id.len() == 32,
        ts.len() == fragment_count(data.len()),
        v.current_id is None || v.current_id == Some(pkg_id.take(8)),
    ensures
        ({
            let n = fragment_count(data.len());
            let r = udp_run(v, udp_fragment_views(data, pkg_id), ts);
            &&& r.0.current_id is None
            &&& r.1.len() == n
            &&& r.1[n - 1] == Some(data)
            &&& forall|j: int| 0 <= j < n - 1 ==> r.1[j] is None
        }),
{
    let n = fragment_count(data.len());
    let views = udp_fragment_views(data, pkg_id);
    lemma_fragment_facts(data, 0);
    lemma_declared_size(data);
    let p = views[0];
    let s = udp_step(v, p, ts[0]);
    assert(p.data_hash.take(8) == pkg_id.take(8));
    assert(data.subrange(0, 0) + fragment(data, 0) =~= fragment(data, 0));
    let r = udp_run(v, views, ts);
    if n == 1 {
        assert(fragment(data, 0) =~= data);
        assert(views.drop_first().len() == 0);
        let rest = udp_run(s.0, views.drop_first(), ts.drop_first());
        assert(rest.1 =~= Seq::<Option<Seq<u8>>>::empty());
        assert(r.1 =~= seq![s.1] + rest.1);
        assert(r.1 =~= seq![s.1]);
    } else {
        assert(s.0.full_packet =~= flow_after(data, pkg_id, 1, ts[0]).full_packet);
        assert(s.0 == flow_after(data, pkg_id, 1, ts[0]));
        lemma_run_from_flow(data, pkg_id, ts, 1, ts[0]);
        assert(views.drop_first() =~= views.skip(1));
        assert(ts.drop_first() =~= ts.skip(1));
        let rest = udp_run(s.0, views.skip(1), ts.skip(1));
        assert(r.1 =~= seq![s.1] + rest.1);
        assert forall|j: int| 0 <= j < n - 1 implies r.1[j] is None by {
            if j > 0 {
                assert(r.1[j] == rest.1[j - 1]);
            }
        }
    }
}

/// A datagram of 1 to UDP_MAX_FORWARD_BYTES bytes that the sender splits
/// into UDP packets is, when these packets reach a forwarder with no flow
/// in progress in order, forwarded whole exactly once: on its last
/// fragment, and not before. Each packet decodes to its fragment.
pub proof fn law_udp_reassembly(data: Seq<u8>, pkg_id: Seq<u8>, now: u64, ts: Seq<u64>)
    requires
        1 <= data.len() <= UDP_MAX_FORWARD_BYTES,
        pkg_id.len() == 32,
        ts.len() == fragment_count(data.len()),
    ensures
        ({
            let n = fragment_count(data.len());
            let views = udp_fragment_views(data, pkg_id);
            let r = udp_run(udp_idle(now), views, ts);
            &&& forall|i: int|
                0 <= i < n ==> decoded_packet(#[trigger] udp_packets(data, pkg_id)[i]) == Some(
                    views[i],
                )
            &&& r.0.current_id is None
            &&& r.1.len() == n
            &&& r.1[n - 1] == Some(data)
            &&& forall|j: int| 0 <= j < n - 1 ==> r.1[j] is None
        }),
{
    law_udp_retransmission(data, pkg_id, udp_idle(now), ts);
    let n = fragment_count(data.len());
    let views = udp_fragment_views(data, pkg_id);
    assert forall|i: int| 0 <= i < n implies decoded_packet(
        #[trigger] udp_packets(data, pkg_id)[i],
    ) == Some(views[i]) by {
        lemma_fragment_facts(data, i as nat);
        assert(i < 10000000000) by (nonlinear_arith)
            requires
                i * 940 < data.len(),
                data.len() <= UDP_MAX_FORWARD_BYTES,
        ;
        lemma_padded_size_field(data);
        law_packet_round_trip(
            PKG_TYPE_UDP,
            i as u64,
            padded_decimal(data.len(), 32),
            pkg_id,
            fragment(data, i as nat),
        );
    }
}


/// Fragment `p`, the `j`-th of a flow with id `id` and declared size
/// `size`: it carries count `j`, the id, that size in its size field, and
/// 1 to CHUNK_SIZE bytes.
pub open spec fn flow_fragment(p: PacketView, j: int, id: Seq<u8>, size: nat) -> bool {
    &&& p.count == j
    &&& p.data_hash.take(8) == id
    &&& parse_unsigned(p.path_hash, usize::MAX as nat) == Some(size)
    &&& 1 <= p.data.len() <= CHUNK_SIZE
}

/// `w` lists, with their positions in the arrivals `all`, the fragments
/// with counts 0, 1, ... of one flow, in the order in which they arrived.
pub open spec fn is_flow(all: Seq<PacketView>, w: Seq<(int, PacketView)>, id: Seq<u8>, size: nat) -> bool {
    &&& forall|j: int|
        0 <= j < w.len() ==> {
            &&& 0 <= (#[trigger] w[j]).0 < all.len()
            &&& all[w[j].0] == w[j].1
            &&& flow_fragment(w[j].1, j, id, size)
        }
    &&& forall|j: int, l: int| 0 <= j < l < w.len() ==> (#[trigger] w[j]).0 < (#[trigger] w[l]).0
}

/// The payloads of the fragments in `w`, one after the other.
pub open spec fn flow_bytes(w: Seq<(int, PacketView)>) -> Seq<u8>
    decreases w.len(),
{
    if w.len() == 0 {
        Seq::empty()
    } else {
        flow_bytes(w.drop_last()) + w.last().1.data
    }
}

/// Datagram `d`, forwarded when the arrival at position `i` of `all` was
/// taken, is the whole of one flow: the payloads, in order, of fragments
/// with counts 0 to k of one id, all declaring `d`'s length, the last of
/// them the arrival at `i`; and `d` holds 1 to UDP_MAX_FORWARD_BYTES bytes.
pub open spec fn delivered_flow(all: Seq<PacketView>, d: Seq<u8>, i: int) -> bool {
    &&& 1 <= d.len() <= UDP_MAX_FORWARD_BYTES
    &&& exists|w: Seq<(int, PacketView)>, id: Seq<u8>|
        #[trigger] is_flow(all, w, id, d.len()) && w.len() > 0 && w.last().0 == i && flow_bytes(w)
            == d
}

/// The flow in progress, if any, is made of fragments that arrived in
/// `all`: its bytes are the payloads of fragments 0 to `previous_count`.
pub open spec fn flow_state_ok(all: Seq<PacketView>, v: UdpView) -> bool {
    v.current_id matches Some(id) ==> exists|w: Seq<(int, PacketView)>|
        #[trigger] is_flow(all, w, id, v.expected_size as nat) && w.len() == v.previous_count + 1
            && flow_bytes(w) == v.full_packet
}

proof fn lemma_flow_extend(
    all: Seq<PacketView>,
    more: Seq<PacketView>,
    w: Seq<(int, PacketView)>,
    id: Seq<u8>,
    size: nat,
)
    requires
        is_flow(all, w, id, size),
    ensures
        is_flow(all + more, w, id, size),
{
    assert forall|j: int| 0 <= j < w.len() implies (all + more)[(#[trigger] w[j]).0] == w[j].1 by {
        assert((all + more)[w[j].0] == all[w[j].0]);
    }
}

proof fn lemma_state_extend(all: Seq<PacketView>, more: Seq<PacketView>, v: UdpView)
    requires
        flow_state_ok(all, v),
    ensures
        flow_state_ok(all + more, v),
{
    if let Some(id) = v.current_id {
        let w = choose|w: Seq<(int, PacketView)>|
            #[trigger] is_flow(all, w, id, v.expected_size as nat) && w.len() == v.previous_count
                + 1 && flow_bytes(w) == v.full_packet;
        lemma_flow_extend(all, more, w, id, v.expected_size as nat);
    }
}

proof fn lemma_delivered_extend(all: Seq<PacketView>, more: Seq<PacketView>, d: Seq<u8>, i: int)
    requires
        delivered_flow(all, d, i),
    ensures
        delivered_flow(all + more, d, i),
{
    let (w, id) = choose|w: Seq<(int, PacketView)>, id: Seq<u8>|
        #[trigger] is_flow(all, w, id, d.len()) && w.len() > 0 && w.last().0 == i && flow_bytes(w)
            == d;
    lemma_flow_extend(all, more, w, id, d.len());
}

/// One step keeps the reassembly's invariant and the origin of the flow
/// in progress, and whatever it forwards is a whole flow.
#[verifier::spinoff_prover]
proof fn lemma_step_safe(all: Seq<PacketView>, v: UdpView, p: PacketView, t: u64)
    requires
        udp_wf(v),
        flow_state_ok(all, v),
        p.data_hash.len() >= 8,
    ensures
        ({
            let all2 = all.push(p);
            let s = udp_step(v, p, t);
            &&& udp_wf(s.0)
            &&& flow_state_ok(all2, s.0)
            &&& (s.1 matches Some(d) ==> delivered_flow(all2, d, all.len() as int))
        }),
{
    let all2 = all.push(p);
    let i = all.len() as int;
    let id = p.data_hash.take(8);
    assert(all2 =~= all + seq![p]);
    lemma_state_extend(all, seq![p], v);
    assert(all2[i] == p);
    match parse_unsigned(p.path_hash, usize::MAX as nat) {
        None => {},
        Some(declared) => {
            if p.count == 0 {
                if declared == 0 || declared > UDP_MAX_FORWARD_BYTES {
                } else if p.data.len() == 0 || p.data.len() > CHUNK_SIZE || p.data.len()
                    > declared {
                } else if v.current_id is Some && v.current_id != Some(id) && !(t
                    - v.last_activity > UDP_FLOW_TIMEOUT_NANOS) {
                } else {
                    let w = seq![(i, p)];
                    assert(flow_fragment(w[0].1, 0, id, declared));
                    assert(is_flow(all2, w, id, declared));
                    assert(w.drop_last() =~= Seq::<(int, PacketView)>::empty());
                    assert(flow_bytes(Seq::<(int, PacketView)>::empty()) == Seq::<u8>::empty());
                    assert(w.last() == (i, p));
                    assert(flow_bytes(w) =~= p.data);
                    assert(w.last().0 == i);
                    assert(declared as usize as nat == declared);
                    assert(is_flow(all2, w, id, (declared as usize) as nat));
                    assert(id.len() == 8);
                    if p.data.len() == declared {
                        assert(is_flow(all2, w, id, p.data.len()));
                        assert(delivered_flow(all2, p.data, i));
                    }
                }
            } else if v.current_id != Some(id) || p.count != v.previous_count + 1 {
            } else if declared != v.expected_size {
            } else if p.data.len() == 0 || p.data.len() > CHUNK_SIZE || p.data.len()
                > v.expected_size - v.full_packet.len() {
            } else {
                let w0 = choose|w: Seq<(int, PacketView)>|
                    #[trigger] is_flow(all, w, id, v.expected_size as nat) && w.len()
                        == v.previous_count + 1 && flow_bytes(w) == v.full_packet;
                let w = w0.push((i, p));
                assert forall|j: int| 0 <= j < w.len() implies {
                    &&& 0 <= (#[trigger] w[j]).0 < all2.len()
                    &&& all2[w[j].0] == w[j].1
                    &&& flow_fragment(w[j].1, j, id, v.expected_size as nat)
                } by {
                    if j < w0.len() {
                        assert(w[j] == w0[j]);
                        assert(all2[w0[j].0] == all[w0[j].0]);
                    }
                }
                assert forall|j: int, l: int| 0 <= j < l < w.len() implies (#[trigger] w[j]).0 < (
                #[trigger] w[l]).0 by {
                    assert(w[j] == w0[j]);
                    if l < w0.len() {
                        assert(w[l] == w0[l]);
                    }
                }
                assert(is_flow(all2, w, id, v.expected_size as nat));
                assert(w.drop_last() =~= w0);
                assert(w.last() == (i, p));
                assert(flow_bytes(w) == v.full_packet + p.data);
                let full = v.full_packet + p.data;
                if full.len() == v.expected_size {
                    assert(is_flow(all2, w, id, full.len()));
                    assert(delivered_flow(all2, full, i));
                }
                assert(w.last().0 == i);
            }
        },
    }
    let s = udp_step(v, p, t);
    assert(udp_wf(s.0));
    assert(flow_state_ok(all2, s.0));
    assert(s.1 matches Some(d) ==> delivered_flow(all2, d, i));
}

proof fn lemma_run_safe(pre: Seq<PacketView>, v: UdpView, rest: Seq<PacketView>, ts: Seq<u64>)
    requires
        udp_wf(v),
        flow_state_ok(pre, v),
        forall|k: int| 0 <= k < rest.len() ==> (#[trigger] rest[k]).data_hash.len() >= 8,
    ensures
        ({
            let r = udp_run(v, rest, ts);
            forall|i: int|
                0 <= i < r.1.len() ==> (#[trigger] r.1[i] matches Some(d) ==> delivered_flow(
                    pre + rest,
                    d,
                    pre.len() + i,
                ))
        }),
    decreases rest.len(),
{
    if rest.len() == 0 || ts.len() == 0 {
    } else {
        let p = rest[0];
        let s = udp_step(v, p, ts[0]);
        lemma_step_safe(pre, v, p, ts[0]);
        let pre2 = pre.push(p);
        let rest2 = rest.drop_first();
        assert forall|k: int| 0 <= k < rest2.len() implies (#[trigger] rest2[k]).data_hash.len()
            >= 8 by {
            assert(rest2[k] == rest[k + 1]);
        }
        lemma_run_safe(pre2, s.0, rest2, ts.drop_first());
        assert(pre2 + rest2 =~= pre + rest);
        let r = udp_run(v, rest, ts);
        let rr = udp_run(s.0, rest2, ts.drop_first());
        assert(r.1 == seq![s.1] + rr.1);
        if let Some(d) = s.1 {
            lemma_delivered_extend(pre2, rest2, d, pre.len() as int);
        }
        assert forall|i: int| 0 <= i < r.1.len() implies (#[trigger] r.1[i] matches Some(d)
            ==> delivered_flow(pre + rest, d, pre.len() + i)) by {
            if i > 0 {
                assert(r.1[i] == rr.1[i - 1]);
            }
        }
    }
}

/// Whatever packets arrive, in whatever order and from whomever, every
/// datagram that the forwarder passes on (starting with no flow) is whole:
/// the payloads, in order, of fragments with counts 0 to k of one flow id
/// that arrived in that order, each of 1 to CHUNK_SIZE bytes and each
/// declaring the datagram's length, which is between 1 and
/// UDP_MAX_FORWARD_BYTES; the last of them is the packet on which it is
/// passed on. No partial, over-long or mixed datagram is ever forwarded.
pub proof fn law_udp_forward_safety(ps: Seq<PacketView>, ts: Seq<u64>, now: u64)
    requires
        forall|k: int| 0 <= k < ps.len() ==> (#[trigger] ps[k]).data_hash.len() >= 8,
    ensures
        ({
            let r = udp_run(udp_idle(now), ps, ts);
            forall|i: int|
                0 <= i < r.1.len() ==> (#[trigger] r.1[i] matches Some(d) ==> delivered_flow(
                    ps,
                    d,
                    i,
                ))
        }),
{
    lemma_run_safe(Seq::empty(), udp_idle(now), ps, ts);
    assert(Seq::<PacketView>::empty() + ps =~= ps);
}

} // verus!
