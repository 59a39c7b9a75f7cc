//! Reed-Solomon forward error correction over fixed-size shards, provided
//! by the `reed-solomon-simd` crate.

use vstd::prelude::*;
use std::collections::BTreeMap;

verus! {

#[verifier::external_type_specification]
#[verifier::external_body]
pub struct ExFecError(reed_solomon_simd::Error);

/// The recovery shards that `reed_solomon_simd::encode` computes from the
/// original shards, or `None` where it returns an error.
pub uninterp spec fn rs_recovery_of(
    original_count: usize,
    recovery_count: usize,
    originals: Seq<Seq<u8>>,
) -> Option<Seq<Seq<u8>>>;

/// The original shards that `reed_solomon_simd::decode` restores, by index,
/// from the given original and recovery shards (each with its index), or
/// `None` where it returns an error.
pub uninterp spec fn rs_restored_of(
    original_count: usize,
    recovery_count: usize,
    originals: Seq<(usize, Seq<u8>)>,
    recoveries: Seq<(usize, Seq<u8>)>,
) -> Option<Map<usize, Seq<u8>>>;

/// Shard counts that the crate documents as supported in any combination.
pub open spec fn rs_counts_supported(original_count: usize, recovery_count: usize) -> bool {
    1 <= original_count <= 32768 && 1 <= recovery_count <= 32768
}

/// All shards have the same non-zero, even length.
pub open spec fn uniform_shards(shards: Seq<Seq<u8>>) -> bool {
    &&& shards.len() > 0
    &&& shards[0].len() > 0
    &&& shards[0].len() % 2 == 0
    &&& forall|i: int| 0 <= i < shards.len() ==> (#[trigger] shards[i]).len() == shards[0].len()
}

/// The shards of a vector of byte vectors.
pub open spec fn shards_view(v: Seq<Vec<u8>>) -> Seq<Seq<u8>> {
    v.map_values(|s: Vec<u8>| s@)
}

/// The indexed shards of a vector of (index, bytes) pairs.
pub open spec fn indexed_view(v: Seq<(usize, Vec<u8>)>) -> Seq<(usize, Seq<u8>)> {
    v.map_values(|p: (usize, Vec<u8>)| (p.0, p.1@))
}

/// The byte vectors of a restored-shard map.
pub open spec fn restored_view(m: Map<usize, Vec<u8>>) -> Map<usize, Seq<u8>> {
    m.map_values(|v: Vec<u8>| v@)
}

/// The indexed shards handed to the decoder are a subset of the encoding of
/// `all`: originals are the originals at their indexes, recovery shards are
/// the recovery shards at theirs, no index is given twice, and there are at
/// least as many shards as originals in total.
pub open spec fn rs_shards_consistent(
    all: Seq<Seq<u8>>,
    original_count: usize,
    recovery_count: usize,
    originals: Seq<(usize, Seq<u8>)>,
    recoveries: Seq<(usize, Seq<u8>)>,
) -> bool {
    &&& rs_counts_supported(original_count, recovery_count)
    &&& all.len() == original_count
    &&& uniform_shards(all)
    &&& rs_recovery_of(original_count, recovery_count, all) is Some
    &&& forall|k: int|
        0 <= k < originals.len() ==> {
            &&& (#[trigger] originals[k]).0 < original_count
            &&& originals[k].1 == all[originals[k].0 as int]
        }
    &&& forall|k: int|
        0 <= k < recoveries.len() ==> {
            &&& (#[trigger] recoveries[k]).0 < recovery_count
            &&& recoveries[k].1 == rs_recovery_of(original_count, recovery_count, all)->Some_0[recoveries[k].0 as int]
        }
    &&& forall|k: int, l: int|
        0 <= k < l < originals.len() ==> (#[trigger] originals[k]).0 != (#[trigger] originals[l]).0
    &&& forall|k: int, l: int|
        0 <= k < l < recoveries.len() ==> (#[trigger] recoveries[k]).0 != (#[trigger] recoveries[l]).0
    &&& originals.len() + recoveries.len() >= original_count
    &&& recoveries.len() >= 1
}

/// Some given original shard carries index `i`.
pub open spec fn index_given(originals: Seq<(usize, Seq<u8>)>, i: usize) -> bool {
    exists|k: int| 0 <= k < originals.len() && (#[trigger] originals[k]).0 == i
}

/// `reed_solomon_simd::encode`: the recovery shards for `originals`.
/// Claims, as the crate's documentation and source show: the result is the
/// named function of the arguments; for supported counts, exactly
/// `original_count` shards of one non-zero even length encode successfully;
/// a success holds `recovery_count` shards of that same length.
#[verifier::external_body]
pub(crate) fn rs_encode(original_count: usize, recovery_count: usize, originals: Vec<Vec<u8>>) -> (r:
    Result<Vec<Vec<u8>>, reed_solomon_simd::Error>)
    ensures
        match r {
            Ok(rec) => rs_recovery_of(original_count, recovery_count, shards_view(originals@))
                == Some(shards_view(rec@)),
            Err(_) => rs_recovery_of(
                original_count,
                recovery_count,
                shards_view(originals@),
            ) is None,
        },
        rs_counts_supported(original_count, recovery_count) && originals@.len() == original_count
            && uniform_shards(shards_view(originals@)) ==> r is Ok,
        r matches Ok(rec) ==> rec@.len() == recovery_count && forall|i: int|
            0 <= i < rec@.len() ==> (#[trigger] rec@[i])@.len() == originals@[0]@.len(),
{
    reed_solomon_simd::encode(original_count, recovery_count, originals)
}

/// `reed_solomon_simd::decode`: the missing original shards restored from
/// the given ones. Claims, as the crate's documentation shows: the result
/// is the named function of the arguments; and when the given shards are
/// consistent with an encoding (see [`rs_shards_consistent`]), decoding
/// succeeds and restores every original shard that was not given.
#[verifier::external_body]
pub(crate) fn rs_decode(
    original_count: usize,
    recovery_count: usize,
    originals: Vec<(usize, Vec<u8>)>,
    recoveries: Vec<(usize, Vec<u8>)>,
) -> (r: Result<BTreeMap<usize, Vec<u8>>, reed_solomon_simd::Error>)
    ensures
        match r {
            Ok(m) => rs_restored_of(
                original_count,
                recovery_count,
                indexed_view(originals@),
                indexed_view(recoveries@),
            ) == Some(restored_view(m@)),
            Err(_) => rs_restored_of(
                original_count,
                recovery_count,
                indexed_view(originals@),
                indexed_view(recoveries@),
            ) is None,
        },
        forall|all: Seq<Seq<u8>>|
            rs_shards_consistent(
                all,
                original_count,
                recovery_count,
                indexed_view(originals@),
                indexed_view(recoveries@),
            ) ==> (r matches Ok(m) && forall|i: usize|
                i < original_count && !index_given(indexed_view(originals@), i) ==> (
                #[trigger] m@.contains_key(i)) && m@[i]@ == all[i as int]),
{
    reed_solomon_simd::decode(original_count, recovery_count, originals, recoveries)
}

} // verus!
