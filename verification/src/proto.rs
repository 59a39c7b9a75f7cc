//! Wire format shared by the sender and the receiver: constants, packet
//! encoding and decoding, the parity-count field of START packets, and the
//! rule for which relative paths a START packet may name.

use vstd::prelude::*;
use vstd::string::StringSliceAdditionalSpecFns;
use crate::ascii::{ascii_chars, all_ascii, string_from_ascii};
use crate::decimal::{
    all_digits, decimal_digits, is_digit, lemma_decimal_digits, lemma_decimal_digits_len,
    lemma_parse_padded_decimal, padded_decimal, parse_unsigned, parse_unsigned_bounded, pow10,
    push_decimal, push_padded_decimal, unsigned_literal_digits,
};

verus! {

/// Maximum data payload per packet (before FEC padding).
pub const CHUNK_SIZE: usize = 940;

/// FEC shard size: CHUNK_SIZE rounded up to a multiple of 64, so that data
/// chunks can be zero-padded into a valid shard.
pub const SHARD_SIZE: usize = 960;

/// Size of the fixed header preceding every packet payload:
/// type (1) + count (10) + path hash (32) + data hash (32).
pub const HEADER_SIZE: usize = 75;

/// Number of data chunks per FEC batch.
pub const BATCH_DATA_CHUNKS: usize = 1000;

/// Number of FEC parity shards generated per batch.
pub const BATCH_PARITY_CHUNKS: usize = 100;

pub const PKG_TYPE_START: u8 = 0;
pub const PKG_TYPE_DATA: u8 = 1;
pub const PKG_TYPE_END: u8 = 2;
pub const PKG_TYPE_PARITY: u8 = 3;
pub const PKG_TYPE_UDP: u8 = 4;

/// Sentinel value used wherever a hash field is unused (32 ASCII zeros).
pub const EMPTY_HASH: &'static str = "00000000000000000000000000000000";

/// Hard cap, in bytes, on a single reassembled UDP payload.
pub const UDP_MAX_FORWARD_BYTES: usize = 4194304;

/// The bytes of a packet: the type in decimal, the count zero-padded to ten
/// decimal digits, the two hash fields and the payload.
pub open spec fn packet_bytes(
    pkg_type: u8,
    count: u64,
    path_hash: Seq<u8>,
    data_hash: Seq<u8>,
    payload: Seq<u8>,
) -> Seq<u8> {
    decimal_digits(pkg_type as nat) + padded_decimal(count as nat, 10) + path_hash + data_hash
        + payload
}

/// Encodes a packet into `buf`, replacing its current contents.
/// `count_or_filesize` is zero-padded to 10 ASCII digits. Hash fields must
/// each be exactly 32 bytes.
pub fn encode_packet_into(
    buf: &mut Vec<u8>,
    pkg_type: u8,
    count_or_filesize: u64,
    path_hash: &str,
    data_hash: &str,
    payload: &[u8],
)
    requires
        path_hash.spec_bytes().len() == 32,
        data_hash.spec_bytes().len() == 32,
    ensures
        final(buf)@ == packet_bytes(
            pkg_type,
            count_or_filesize,
            path_hash.spec_bytes(),
            data_hash.spec_bytes(),
            payload@,
        ),
{
    buf.clear();
    push_decimal(buf, pkg_type as u128);
    push_padded_decimal(buf, count_or_filesize as u128, 10);
    append_bytes(buf, path_hash.as_bytes());
    append_bytes(buf, data_hash.as_bytes());
    append_bytes(buf, payload);
    proof {
        assert(final(buf)@ =~= packet_bytes(
            pkg_type,
            count_or_filesize,
            path_hash.spec_bytes(),
            data_hash.spec_bytes(),
            payload@,
        ));
    }
}

/// Appends `bytes` to `buf`.
pub fn append_bytes(buf: &mut Vec<u8>, bytes: &[u8])
    ensures
        final(buf)@ == old(buf)@ + bytes@,
{
    let mut i: usize = 0;
    while i < bytes.len()
        invariant
            i <= bytes@.len(),
            buf@ == old(buf)@ + bytes@.take(i as int),
        decreases bytes@.len() - i,
    {
        buf.push(bytes[i]);
        i = i + 1;
        assert(old(buf)@ + bytes@.take(i as int) =~= (old(buf)@ + bytes@.take(i - 1)).push(
            bytes@[i - 1],
        ));
    }
    assert(bytes@.take(i as int) =~= bytes@);
}

/// Encodes a packet with the standard header followed by `payload`.
pub fn encode_packet(
    pkg_type: u8,
    count_or_filesize: u64,
    path_hash: &str,
    data_hash: &str,
    payload: &[u8],
) -> (packet: Vec<u8>)
    requires
        path_hash.spec_bytes().len() == 32,
        data_hash.spec_bytes().len() == 32,
    ensures
        packet@ == packet_bytes(
            pkg_type,
            count_or_filesize,
            path_hash.spec_bytes(),
            data_hash.spec_bytes(),
            payload@,
        ),
{
    let mut buf = Vec::new();
    encode_packet_into(&mut buf, pkg_type, count_or_filesize, path_hash, data_hash, payload);
    buf
}

/// The parity-count field of a START packet: the count zero-padded to 32
/// decimal digits.
pub open spec fn parity_field(parity_count: u64) -> Seq<u8> {
    padded_decimal(parity_count as nat, 32)
}

/// The value that a parity-count field carries, if it is a decimal `u64`.
pub open spec fn parity_field_value(bytes: Seq<u8>) -> Option<nat> {
    parse_unsigned(bytes, u64::MAX as nat)
}

proof fn lemma_parity_field_shape(parity_count: u64)
    ensures
        parity_field(parity_count).len() == 32,
        all_ascii(parity_field(parity_count)),
        all_digits(parity_field(parity_count)),
{
    lemma_decimal_digits_len(parity_count as nat, 20);
    assert(pow10(20) > u64::MAX) by {
        reveal_with_fuel(pow10, 21);
    }
    lemma_parse_padded_decimal(parity_count as nat, 32, u64::MAX as nat);
    let p = parity_field(parity_count);
    assert forall|i: int| 0 <= i < p.len() implies #[trigger] p[i] < 128 by {
        assert(is_digit(p[i]));
    }
}

/// `n` zero-padded to 32 decimal digits, as a header field.
pub fn padded_field(n: u64) -> (field: String)
    ensures
        field@ == ascii_chars(padded_decimal(n as nat, 32)),
        vstd::utf8::encode_utf8(field@) == padded_decimal(n as nat, 32),
        padded_decimal(n as nat, 32).len() == 32,
{
    let mut digits = Vec::new();
    push_padded_decimal(&mut digits, n as u128, 32);
    proof {
        lemma_parity_field_shape(n);
        assert(digits@ =~= parity_field(n));
    }
    string_from_ascii(digits.as_slice())
}

/// Encodes the parity count carried in the data-hash field of START packets.
/// `parity_count == 0` gives the same string as `EMPTY_HASH`.
pub fn encode_parity_field(parity_count: u64) -> (field: String)
    ensures
        field@ == ascii_chars(parity_field(parity_count)),
        vstd::utf8::encode_utf8(field@) == parity_field(parity_count),
        field@.len() == 32,
{
    padded_field(parity_count)
}

/// Inverse of [`encode_parity_field`]: the decimal `u64` that `bytes`
/// spell, or `None` if they are not one.
pub fn decode_parity_field(bytes: &[u8]) -> (value: Option<u64>)
    ensures
        match value {
            Some(v) => parity_field_value(bytes@) == Some(v as nat),
            None => parity_field_value(bytes@) is None,
        },
{
    parse_unsigned_bounded(bytes, u64::MAX)
}

/// Decoding the parity field that the sender encodes gives the parity count
/// back.
pub proof fn law_parity_field_round_trip(parity_count: u64)
    ensures
        parity_field_value(parity_field(parity_count)) == Some(parity_count as nat),
{
    lemma_parse_padded_decimal(parity_count as nat, 32, u64::MAX as nat);
}

/// Path byte `b` is an ASCII letter.
pub open spec fn is_ascii_letter(b: u8) -> bool {
    (65 <= b <= 90) || (97 <= b <= 122)
}

/// A `.` or `..` component of the slash-separated path `b` starts at `k`.
pub open spec fn dot_component_at(b: Seq<u8>, k: int) -> bool {
    &&& 0 <= k < b.len()
    &&& (k == 0 || b[k - 1] == 47u8)
    &&& b[k] == 46u8
    &&& (k + 1 == b.len() || b[k + 1] == 47u8 || (b[k + 1] == 46u8 && (k + 2 == b.len() || b[k
        + 2] == 47u8)))
}

/// The path has a `.` or `..` component.
pub open spec fn has_dot_component(b: Seq<u8>) -> bool {
    exists|k: int| dot_component_at(b, k)
}

/// The path starts with a Windows root or drive: a backslash, or an ASCII
/// letter followed by `:`.
pub open spec fn has_windows_root(b: Seq<u8>) -> bool {
    b.len() > 0 && (b[0] == 92u8 || (b.len() >= 2 && is_ascii_letter(b[0]) && b[1] == 58u8))
}

/// A relative path that may be joined onto the output directory: non-empty,
/// not absolute (no leading `/`, Windows root or drive), free of NUL bytes,
/// and made only of normal components (no `.` and no `..`).
pub open spec fn safe_rel_path(b: Seq<u8>) -> bool {
    &&& b.len() > 0
    &&& b[0] != 47u8
    &&& !has_windows_root(b)
    &&& !b.contains(0u8)
    &&& !has_dot_component(b)
}

/// Validates a relative file path that is about to be joined onto an output
/// directory, and returns whether it is safe (see [`safe_rel_path`]).
pub fn is_safe_rel_path(rel_path: &str) -> (safe: bool)
    ensures
        safe == safe_rel_path(rel_path.spec_bytes()),
{
    let b = rel_path.as_bytes();
    let len = b.len();
    if len == 0 {
        return false;
    }
    if b[0] == 47u8 {
        return false;
    }
    if b[0] == 92u8 || (len >= 2 && ((65u8 <= b[0] && b[0] <= 90u8) || (97u8 <= b[0] && b[0]
        <= 122u8)) && b[1] == 58u8) {
        return false;
    }
    let mut k: usize = 0;
    while k < len
        invariant
            k <= len,
            len == b@.len(),
            b@ == rel_path.spec_bytes(),
            forall|j: int| 0 <= j < k ==> b@[j] != 0u8,
            forall|j: int| 0 <= j < k ==> !dot_component_at(b@, j),
        decreases len - k,
    {
        if b[k] == 0u8 {
            assert(b@.contains(0u8));
            return false;
        }
        if (k == 0 || b[k - 1] == 47u8) && b[k] == 46u8 {
            if k + 1 == len || b[k + 1] == 47u8 {
                assert(dot_component_at(b@, k as int));
                return false;
            }
            if b[k + 1] == 46u8 && (k + 2 == len || b[k + 2] == 47u8) {
                assert(dot_component_at(b@, k as int));
                return false;
            }
        }
        k = k + 1;
    }
    assert(!b@.contains(0u8));
    assert(!has_dot_component(b@));
    true
}

/// A decoded packet.
pub struct Packet {
    pub pkg_type: u8,
    pub count: u64,
    pub path_hash: Vec<u8>,
    pub data_hash: Vec<u8>,
    pub data: Vec<u8>,
}

/// The contents of a [`Packet`].
pub struct PacketView {
    pub pkg_type: u8,
    pub count: u64,
    pub path_hash: Seq<u8>,
    pub data_hash: Seq<u8>,
    pub data: Seq<u8>,
}

impl View for Packet {
    type V = PacketView;

    open spec fn view(&self) -> PacketView {
        PacketView {
            pkg_type: self.pkg_type,
            count: self.count,
            path_hash: self.path_hash@,
            data_hash: self.data_hash@,
            data: self.data@,
        }
    }
}

/// What the receiver makes of the raw bytes of one datagram: `None` if it is
/// shorter than the header or if the type (first byte) or the count (next
/// ten bytes) is not a decimal number in range; otherwise the fields.
pub open spec fn decoded_packet(raw: Seq<u8>) -> Option<PacketView> {
    if raw.len() < HEADER_SIZE {
        None
    } else {
        match (
            parse_unsigned(raw.subrange(0, 1), u8::MAX as nat),
            parse_unsigned(raw.subrange(1, 11), u64::MAX as nat),
        ) {
            (Some(t), Some(c)) => Some(
                PacketView {
                    pkg_type: t as u8,
                    count: c as u64,
                    path_hash: raw.subrange(11, 43),
                    data_hash: raw.subrange(43, 75),
                    data: raw.subrange(75, raw.len() as int),
                },
            ),
            _ => None,
        }
    }
}

/// Copies `bytes` into a new vector.
fn copy_bytes(bytes: &[u8]) -> (v: Vec<u8>)
    ensures
        v@ == bytes@,
{
    let mut v = Vec::new();
    append_bytes(&mut v, bytes);
    v
}

/// Decodes the raw bytes of a datagram (see [`decoded_packet`]).
pub fn decode_packet(raw: &[u8]) -> (packet: Option<Packet>)
    ensures
        match packet {
            Some(p) => decoded_packet(raw@) == Some(p@),
            None => decoded_packet(raw@) is None,
        },
{
    if raw.len() < HEADER_SIZE {
        return None;
    }
    let pkg_type = match parse_unsigned_bounded(&raw[0..1], 255) {
        Some(t) => t as u8,
        None => return None,
    };
    let count = match parse_unsigned_bounded(&raw[1..11], u64::MAX) {
        Some(c) => c,
        None => return None,
    };
    let p = Packet {
        pkg_type,
        count,
        path_hash: copy_bytes(&raw[11..43]),
        data_hash: copy_bytes(&raw[43..75]),
        data: copy_bytes(&raw[75..raw.len()]),
    };
    Some(p)
}

/// Decoding an encoded packet gives its fields back, whenever the type is a
/// single decimal digit, the count has at most ten digits, and both hash
/// fields are 32 bytes.
pub proof fn law_packet_round_trip(
    pkg_type: u8,
    count: u64,
    path_hash: Seq<u8>,
    data_hash: Seq<u8>,
    payload: Seq<u8>,
)
    requires
        pkg_type < 10,
        count < 10000000000,
        path_hash.len() == 32,
        data_hash.len() == 32,
    ensures
        decoded_packet(packet_bytes(pkg_type, count, path_hash, data_hash, payload)) == Some(
            PacketView { pkg_type, count, path_hash, data_hash, data: payload },
        ),
        packet_bytes(pkg_type, count, path_hash, data_hash, payload).len() == HEADER_SIZE
            + payload.len(),
{
    let raw = packet_bytes(pkg_type, count, path_hash, data_hash, payload);
    let t = decimal_digits(pkg_type as nat);
    let c = padded_decimal(count as nat, 10);
    lemma_decimal_digits_len(pkg_type as nat, 1);
    lemma_decimal_digits(pkg_type as nat);
    lemma_decimal_digits_len(count as nat, 10);
    assert(pow10(10) == 10000000000) by {
        reveal_with_fuel(pow10, 11);
    }
    assert(pow10(1) == 10) by {
        reveal_with_fuel(pow10, 2);
    }
    lemma_parse_padded_decimal(count as nat, 10, u64::MAX as nat);
    assert(t.len() == 1);
    assert(c.len() == 10);
    assert(raw.subrange(0, 1) =~= t);
    assert(raw.subrange(1, 11) =~= c);
    assert(t[0] != 43u8);
    assert(unsigned_literal_digits(t) == t);
    assert(raw.subrange(11, 43) =~= path_hash);
    assert(raw.subrange(43, 75) =~= data_hash);
    assert(raw.subrange(75, raw.len() as int) =~= payload);
}

/// Which START paths are safe, byte by byte: exactly the non-empty ones
/// whose first byte is not `/` or a backslash, that do not start with an ASCII
/// letter and `:`, that hold no NUL byte, and in which no `.` or `..`
/// stands alone between slashes (or the ends). Every other byte, ASCII or
/// not, is allowed.
pub proof fn law_safe_rel_path(b: Seq<u8>)
    ensures
        safe_rel_path(b) <==> {
            &&& b.len() > 0
            &&& b[0] != 47u8
            &&& b[0] != 92u8
            &&& !(b.len() >= 2 && ((65 <= b[0] <= 90) || (97 <= b[0] <= 122)) && b[1] == 58u8)
            &&& forall|i: int| 0 <= i < b.len() ==> b[i] != 0u8
            &&& forall|k: int|
                #![trigger b[k]]
                0 <= k < b.len() && (k == 0 || b[k - 1] == 47u8) && b[k] == 46u8 ==> !(k + 1
                    == b.len() || b[k + 1] == 47u8 || (b[k + 1] == 46u8 && (k + 2 == b.len()
                    || b[k + 2] == 47u8)))
        },
{
    if safe_rel_path(b) {
        assert forall|i: int| 0 <= i < b.len() implies b[i] != 0u8 by {
            if b[i] == 0u8 {
                assert(b.contains(0u8));
            }
        }
        assert forall|k: int|
            #![trigger b[k]]
            0 <= k < b.len() && (k == 0 || b[k - 1] == 47u8) && b[k] == 46u8 implies !(k + 1
                == b.len() || b[k + 1] == 47u8 || (b[k + 1] == 46u8 && (k + 2 == b.len() || b[k
                + 2] == 47u8))) by {
            if k + 1 == b.len() || b[k + 1] == 47u8 || (b[k + 1] == 46u8 && (k + 2 == b.len()
                || b[k + 2] == 47u8)) {
                assert(dot_component_at(b, k));
            }
        }
    }
}

} // verus!
