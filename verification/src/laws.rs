//! Library-wide laws, stated over the ghost semantics the public contracts
//! use.

use vstd::prelude::*;

use crate::codec::{lemma_encode_config_injective, spec_encode_config};
use crate::estimator::{est_ok, CardinalityEstimation};
use crate::field_index::lemma_id_vec_set_len;
use crate::filters::{filter_matches, Filter};
use crate::payload_index::{matching_id_set, ConfigEntry, StructPayloadIndex};
use crate::types::PointRecord;

verus! {

/// Estimation bounds: any id list with the membership and uniqueness that
/// `query_points` guarantees has its length between the estimation's
/// bounds, for any filter and data set.
pub proof fn law_estimation_bounds(
    points: Seq<PointRecord>,
    f: Filter,
    est: CardinalityEstimation,
    ids: Seq<u32>,
)
    requires
        points.len() < 0x1_0000_0000,
        est_ok(est, points, matching_id_set(points, f), points.len() as int),
        ids.no_duplicates(),
        forall|id: u32|
            ids.contains(id) <==> (id < points.len() && filter_matches(points, f, id as int)),
    ensures
        est.min <= ids.len() <= est.max,
{
    let s = matching_id_set(points, f);
    assert forall|id: u32| ids.contains(id) <==> s.contains(id as int) by {}
    lemma_id_vec_set_len(ids, s);
}

/// Fallback equivalence: the set of ids a filter selects depends only on
/// the stored points, never on which field indexes exist, so emptying
/// `field_indexes` leaves the specified result of `query_points`
/// unchanged.
pub proof fn law_fallback_equivalence(a: StructPayloadIndex, b: StructPayloadIndex, f: Filter)
    requires
        a.storage == b.storage,
    ensures
        matching_id_set(a.storage.points@, f) == matching_id_set(b.storage.points@, f),
{
}

/// De-duplication composed with soundness: two id lists with the
/// membership and uniqueness that `query_points` guarantees for the same
/// filter and points hold exactly the same ids.
pub proof fn law_query_deterministic_set(
    points: Seq<PointRecord>,
    f: Filter,
    ids1: Seq<u32>,
    ids2: Seq<u32>,
)
    requires
        forall|id: u32|
            ids1.contains(id) <==> (id < points.len() && filter_matches(points, f, id as int)),
        forall|id: u32|
            ids2.contains(id) <==> (id < points.len() && filter_matches(points, f, id as int)),
    ensures
        forall|id: u32| ids1.contains(id) <==> ids2.contains(id),
{
}

/// Round-trip persistence: `set_indexed` leaves the store's config file
/// equal to the encoding of its declarations, `open` owes success on such
/// a file (the decoder is complete on canonical encodings) and returns a
/// config that re-encodes to the file it read; the encoding is injective,
/// so a reopened segment declares exactly the fields that were persisted,
/// key for key and schema for schema.
pub proof fn law_round_trip_persistence(
    written: Seq<ConfigEntry>,
    reopened: Seq<ConfigEntry>,
    file: Seq<char>,
)
    requires
        file == spec_encode_config(written),
        spec_encode_config(reopened) == file,
    ensures
        reopened.len() == written.len(),
        forall|i: int|
            0 <= i < reopened.len() ==> (#[trigger] reopened[i]).key@ == written[i].key@
                && reopened[i].schema == written[i].schema,
{
    lemma_encode_config_injective(reopened, written);
}

} // verus!
