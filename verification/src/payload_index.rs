//! The structured payload index: filter planning and execution over the
//! per-field indexes.
//!
//! `estimate_cardinality` walks the filter tree composing per-clause
//! estimates; `query_points` either scans (no usable index) or streams the
//! primary clauses' candidates, deduplicates them with a visited list, and
//! re-checks every survivor with the reference checker. Results are proved
//! equal, as sets, to the filter's ghost semantics.

use vstd::prelude::*;

use crate::checker::check_filter_point;
use crate::estimator::{
    clause_covers, combine_must, combine_should, est_ok, negate_estimation, unknown_estimation,
    CardinalityEstimation, PrimaryCondition,
};
use crate::field_index::FieldIndex;
use crate::filters::{
    condition_matches, condition_wf, fc_view, field_condition_matches, filter_matches, filter_wf,
    Condition, FieldCondition, Filter, IsEmptyCondition,
};
use crate::types::{
    PayloadKeyType, PayloadSchemaType, PointOffsetType, PointRecord, PointStorage,
};

verus! {

broadcast use vstd::seq::axiom_seq_index_decreases;

/// The indexes built for one payload key.
pub struct IndexesEntry {
    pub key: PayloadKeyType,
    pub indexes: Vec<FieldIndex>,
}

/// Per-key index map, as an association list with unique keys.
pub struct IndexesMap {
    pub entries: Vec<IndexesEntry>,
}

/// First entry's indexes for `key`, if any.
pub open spec fn indexes_lookup(entries: Seq<IndexesEntry>, key: Seq<char>) -> Option<
    Seq<FieldIndex>,
>
    decreases entries.len(),
{
    if entries.len() == 0 {
        None
    } else if entries[0].key@ == key {
        Some(entries[0].indexes@)
    } else {
        indexes_lookup(entries.drop_first(), key)
    }
}

impl IndexesMap {
    /// The indexes stored under `key`, or `None`.
    pub open spec fn spec_get(self, key: Seq<char>) -> Option<Seq<FieldIndex>> {
        indexes_lookup(self.entries@, key)
    }

    /// Unique keys; every stored index is well formed for its key and
    /// non-empty variant lists only.
    pub open spec fn wf(self, points: Seq<PointRecord>) -> bool {
        &&& forall|i: int, j: int|
            0 <= i < j < self.entries@.len() ==> self.entries@[i].key@ != self.entries@[j].key@
        &&& forall|i: int|
            0 <= i < self.entries@.len() ==> (#[trigger] self.entries@[i]).indexes@.len() > 0
        &&& forall|i: int, j: int|
            0 <= i < self.entries@.len() && 0 <= j < self.entries@[i].indexes@.len()
                ==> (#[trigger] self.entries@[i].indexes@[j]).wf(points, self.entries@[i].key@)
    }

    pub fn new() -> (r: IndexesMap)
        ensures
            r.entries@.len() == 0,
            forall|points: Seq<PointRecord>| r.wf(points),
            forall|key: Seq<char>| r.spec_get(key) is None,
    {
        IndexesMap { entries: Vec::new() }
    }

    /// Position of the entry for `key`, if present.
    pub fn find_entry(&self, key: &PayloadKeyType) -> (r: Option<usize>)
        ensures
            match r {
                Some(i) => i < self.entries@.len() && self.entries@[i as int].key@ == key@,
                None => forall|i: int|
                    0 <= i < self.entries@.len() ==> (#[trigger] self.entries@[i]).key@ != key@,
            },
    {
        let mut i: usize = 0;
        while i < self.entries.len()
            invariant
                i <= self.entries@.len(),
                forall|j: int| 0 <= j < i ==> (#[trigger] self.entries@[j]).key@ != key@,
            decreases self.entries@.len() - i,
        {
            if self.entries[i].key == *key {
                return Some(i);
            }
            i += 1;
        }
        None
    }

    /// Looks the key up.
    pub fn get(&self, key: &PayloadKeyType) -> (r: Option<&Vec<FieldIndex>>)
        ensures
            match r {
                Some(v) => self.spec_get(key@) == Some(v@),
                None => self.spec_get(key@) is None,
            },
    {
        proof {
            assert(self.entries@.skip(0) =~= self.entries@);
        }
        let mut i: usize = 0;
        while i < self.entries.len()
            invariant
                i <= self.entries@.len(),
                indexes_lookup(self.entries@, key@) == indexes_lookup(
                    self.entries@.skip(i as int),
                    key@,
                ),
            decreases self.entries@.len() - i,
        {
            proof {
                assert(self.entries@.skip(i as int).drop_first() =~= self.entries@.skip(
                    i as int + 1,
                ));
                assert(self.entries@.skip(i as int)[0] == self.entries@[i as int]);
            }
            if self.entries[i].key == *key {
                return Some(&self.entries[i].indexes);
            }
            i += 1;
        }
        None
    }
}

/// The indexes a lookup returns are well formed for that key.
pub proof fn lemma_indexes_lookup_wf(
    entries: Seq<IndexesEntry>,
    points: Seq<PointRecord>,
    key: Seq<char>,
)
    requires
        forall|i: int, j: int|
            0 <= i < entries.len() && 0 <= j < entries[i].indexes@.len()
                ==> (#[trigger] entries[i].indexes@[j]).wf(points, entries[i].key@),
        forall|i: int| 0 <= i < entries.len() ==> (#[trigger] entries[i]).indexes@.len() > 0,
    ensures
        match indexes_lookup(entries, key) {
            Some(v) => v.len() > 0 && forall|j: int|
                0 <= j < v.len() ==> (#[trigger] v[j]).wf(points, key),
            None => true,
        },
    decreases entries.len(),
{
    if entries.len() == 0 {
    } else if entries[0].key@ == key {
        assert forall|j: int| 0 <= j < entries[0].indexes@.len() implies (
        #[trigger] entries[0].indexes@[j]).wf(points, key) by {
            assert(entries[0].indexes@[j].wf(points, entries[0].key@));
        }
    } else {
        assert forall|i: int, j: int|
            0 <= i < entries.drop_first().len() && 0 <= j
                < entries.drop_first()[i].indexes@.len() implies (
        #[trigger] entries.drop_first()[i].indexes@[j]).wf(
            points,
            entries.drop_first()[i].key@,
        ) by {
            assert(entries.drop_first()[i] == entries[i + 1]);
        }
        assert forall|i: int| 0 <= i < entries.drop_first().len() implies (
        #[trigger] entries.drop_first()[i]).indexes@.len() > 0 by {
            assert(entries.drop_first()[i] == entries[i + 1]);
        }
        lemma_indexes_lookup_wf(entries.drop_first(), points, key);
    }
}

/// One persisted schema declaration.
pub struct ConfigEntry {
    pub key: PayloadKeyType,
    pub schema: PayloadSchemaType,
}

/// Persisted mapping from payload key to declared schema type: the sole
/// source of truth for what is indexed.
pub struct PayloadConfig {
    pub indexed_fields: Vec<ConfigEntry>,
}

/// First schema for `key` among the entries, if any.
pub open spec fn config_lookup(entries: Seq<ConfigEntry>, key: Seq<char>) -> Option<
    PayloadSchemaType,
>
    decreases entries.len(),
{
    if entries.len() == 0 {
        None
    } else if entries[0].key@ == key {
        Some(entries[0].schema)
    } else {
        config_lookup(entries.drop_first(), key)
    }
}

impl PayloadConfig {
    /// The declared schema of `key`, or `None`.
    pub open spec fn spec_get(self, key: Seq<char>) -> Option<PayloadSchemaType> {
        config_lookup(self.indexed_fields@, key)
    }

    /// Unique keys.
    pub open spec fn wf(self) -> bool {
        forall|i: int, j: int|
            0 <= i < j < self.indexed_fields@.len() ==> self.indexed_fields@[i].key@
                != self.indexed_fields@[j].key@
    }

    pub fn new() -> (r: PayloadConfig)
        ensures
            r.indexed_fields@.len() == 0,
            r.wf(),
            forall|key: Seq<char>| r.spec_get(key) is None,
    {
        PayloadConfig { indexed_fields: Vec::new() }
    }

    /// Position of `key` among the entries, if present.
    pub fn find(&self, key: &PayloadKeyType) -> (r: Option<usize>)
        ensures
            match r {
                Some(i) => i < self.indexed_fields@.len() && self.indexed_fields@[i as int].key@
                    == key@ && self.spec_get(key@) == Some(
                    self.indexed_fields@[i as int].schema,
                ),
                None => self.spec_get(key@) is None,
            },
    {
        proof {
            assert(self.indexed_fields@.skip(0) =~= self.indexed_fields@);
        }
        let mut i: usize = 0;
        while i < self.indexed_fields.len()
            invariant
                i <= self.indexed_fields@.len(),
                config_lookup(self.indexed_fields@, key@) == config_lookup(
                    self.indexed_fields@.skip(i as int),
                    key@,
                ),
                forall|j: int| 0 <= j < i ==> self.indexed_fields@[j].key@ != key@,
            decreases self.indexed_fields@.len() - i,
        {
            proof {
                assert(self.indexed_fields@.skip(i as int).drop_first()
                    =~= self.indexed_fields@.skip(i as int + 1));
                assert(self.indexed_fields@.skip(i as int)[0] == self.indexed_fields@[i as int]);
            }
            if self.indexed_fields[i].key == *key {
                return Some(i);
            }
            i += 1;
        }
        None
    }
}

/// The ghost id set one field condition selects.
pub open spec fn field_id_set(points: Seq<PointRecord>, fc: FieldCondition) -> Set<int> {
    Set::new(
        |id: int|
            0 <= id < points.len() && field_condition_matches(
                fc_view(fc),
                points[id].payload.spec_value(fc.key@),
            ),
    )
}

/// The ghost id set one condition selects.
pub open spec fn condition_id_set(points: Seq<PointRecord>, c: Condition) -> Set<int> {
    Set::new(|id: int| 0 <= id < points.len() && condition_matches(points, c, id))
}

/// The ghost id set a whole filter selects.
pub open spec fn matching_id_set(points: Seq<PointRecord>, f: Filter) -> Set<int> {
    Set::new(|id: int| 0 <= id < points.len() && filter_matches(points, f, id))
}

/// Ids selected by at least one of the first `k` conditions.
pub open spec fn any_match_set(points: Seq<PointRecord>, cs: Seq<Condition>, k: int) -> Set<int> {
    Set::new(
        |id: int|
            0 <= id < points.len() && exists|i: int|
                0 <= i < k && condition_matches(points, #[trigger] cs[i], id),
    )
}

/// Ids selected by every one of the first `k` conditions.
pub open spec fn all_match_set(points: Seq<PointRecord>, cs: Seq<Condition>, k: int) -> Set<int> {
    Set::new(
        |id: int|
            0 <= id < points.len() && forall|i: int|
                0 <= i < k ==> condition_matches(points, #[trigger] cs[i], id),
    )
}

/// Ids selected by none of the first `k` conditions.
pub open spec fn none_match_set(points: Seq<PointRecord>, cs: Seq<Condition>, k: int) -> Set<int> {
    Set::new(
        |id: int|
            0 <= id < points.len() && forall|i: int|
                0 <= i < k ==> !condition_matches(points, #[trigger] cs[i], id),
    )
}

/// Does a u32 vector contain the value?
pub fn vec_contains_u32(v: &Vec<u32>, x: u32) -> (r: bool)
    ensures
        r == v@.contains(x),
{
    let mut i: usize = 0;
    while i < v.len()
        invariant
            i <= v@.len(),
            forall|j: int| 0 <= j < i ==> v@[j] != x,
        decreases v@.len() - i,
    {
        if v[i] == x {
            return true;
        }
        i += 1;
    }
    proof {
        if v@.contains(x) {
            let j = choose|j: int| 0 <= j < v@.len() && v@[j] == x;
        }
    }
    false
}

/// `PayloadIndex` implementation that uses per-field index structures for
/// faster search. It owns a snapshot of the collaborating storages (payload
/// lookup, total point count, and the external-to-internal id mapping).
pub struct StructPayloadIndex {
    /// Storage snapshot: payloads, external ids, total count.
    pub storage: PointStorage,
    /// Persisted schema declarations; sole source of truth for what is
    /// indexed.
    pub config: PayloadConfig,
    /// Indexes, associated with fields.
    pub field_indexes: IndexesMap,
    /// Image of the segment directory this index persists itself to.
    pub store: crate::persist::SegmentStore,
}

impl StructPayloadIndex {
    /// Storage, config and indexes are well formed; a key has indexes
    /// exactly when the config declares it.
    pub open spec fn wf(self) -> bool {
        &&& self.storage.wf()
        &&& self.config.wf()
        &&& self.field_indexes.wf(self.storage.points@)
        &&& forall|key: Seq<char>|
            #[trigger] self.field_indexes.spec_get(key) is Some <==> self.config.spec_get(
                key,
            ) is Some
        &&& self.store.wf()
        &&& self.store.config matches Some(cc) && cc@ == crate::codec::spec_encode_config(
            self.config.indexed_fields@,
        )
    }

    /// Number of points in the segment.
    pub fn total_points(&self) -> (r: usize)
        ensures
            r == self.storage.points@.len(),
    {
        self.storage.total_count()
    }

    /// Asks the variants of the condition's key in declaration order; the
    /// first estimation wins. `None` when the key is unindexed or no
    /// variant serves the shape.
    pub fn estimate_field_condition(&self, condition: &FieldCondition) -> (r: Option<
        CardinalityEstimation,
    >)
        requires
            self.wf(),
            condition.wf(),
        ensures
            match r {
                Some(est) => est_ok(
                    est,
                    self.storage.points@,
                    field_id_set(self.storage.points@, *condition),
                    self.storage.points@.len() as int,
                ) && est.min == est.exp == est.max && est.min == field_id_set(
                    self.storage.points@,
                    *condition,
                ).len() && est.primary_clauses@.len() == 1 && (
                self.field_indexes.spec_get(condition.key@) matches Some(v) && exists|j: int|
                    0 <= j < v.len() && (#[trigger] v[j]).spec_serves(fc_view(*condition))),
                None => match self.field_indexes.spec_get(condition.key@) {
                    Some(v) => forall|j: int|
                        0 <= j < v.len() ==> !(#[trigger] v[j]).spec_serves(fc_view(*condition)),
                    None => true,
                },
            },
    {
        let ghost points = self.storage.points@;
        match self.field_indexes.get(&condition.key) {
            None => None,
            Some(indexes) => {
                proof {
                    lemma_indexes_lookup_wf(
                        self.field_indexes.entries@,
                        points,
                        condition.key@,
                    );
                    let v = self.field_indexes.spec_get(condition.key@)->Some_0;
                    assert(v == indexes@);
                    assert forall|j: int| 0 <= j < indexes@.len() implies (
                    #[trigger] indexes@[j]).wf(points, condition.key@) by {
                        assert(v[j].wf(points, condition.key@));
                    }
                }
                let mut i: usize = 0;
                while i < indexes.len()
                    invariant
                        self.wf(),
                        condition.wf(),
                        points == self.storage.points@,
                        indexes@.len() > 0,
                        i <= indexes@.len(),
                        self.field_indexes.spec_get(condition.key@) == Some(indexes@),
                        forall|j: int| 0 <= j < indexes@.len() ==> (#[trigger] indexes@[j]).wf(
                            points,
                            condition.key@,
                        ),
                        forall|j: int|
                            0 <= j < i ==> !(#[trigger] indexes@[j]).spec_serves(
                                fc_view(*condition),
                            ),
                    decreases indexes@.len() - i,
                {
                    let est_opt = indexes[i].estimate_cardinality(
                        condition,
                        Ghost(points),
                        Ghost(condition.key@),
                    );
                    if est_opt.is_some() {
                        proof {
                            let v = self.field_indexes.spec_get(condition.key@)->Some_0;
                            assert(v == indexes@);
                            assert(v[i as int].spec_serves(fc_view(*condition)));
                            assert(exists|j: int|
                                0 <= j < v.len() && (#[trigger] v[j]).spec_serves(
                                    fc_view(*condition),
                                ));
                        }
                        return est_opt;
                    }
                    i += 1;
                }
                None
            },
        }
    }

    /// Estimation of one leaf or nested subtree.
    pub fn estimate_condition(&self, c: &Condition) -> (r: CardinalityEstimation)
        requires
            self.wf(),
            condition_wf(*c),
        ensures
            est_ok(
                r,
                self.storage.points@,
                condition_id_set(self.storage.points@, *c),
                self.storage.points@.len() as int,
            ),
            c matches Condition::HasId(h) ==> {
                &&& r.min == condition_id_set(self.storage.points@, *c).len()
                &&& r.exp == r.min && r.max == r.min
                &&& r.primary_clauses@.len() == 1
                &&& r.primary_clauses@[0] is Ids
            },
            c matches Condition::IsEmpty(ie) ==> {
                &&& match self.field_indexes.spec_get(ie.key@) {
                    Some(v) => r.min == 0 && r.exp == self.storage.points@.len()
                        - max_indexed_count(v) && r.max == r.exp,
                    None => r.min == 0 && r.exp == self.storage.points@.len() / 2 && r.max
                        == self.storage.points@.len(),
                }
                &&& r.primary_clauses@.len() == 1
                &&& (r.primary_clauses@[0] matches PrimaryCondition::IsEmpty(e) && e.key@
                    == ie.key@)
            },
            c matches Condition::Field(fc) ==> {
                if self.field_indexes.spec_get(fc.key@) matches Some(v) && exists|j: int|
                    0 <= j < v.len() && (#[trigger] v[j]).spec_serves(fc_view(*fc)) {
                    &&& r.min == field_id_set(self.storage.points@, *fc).len()
                    &&& r.exp == r.min && r.max == r.min
                    &&& r.primary_clauses@.len() == 1
                } else {
                    &&& r.min == 0 && r.exp == self.storage.points@.len() / 2 && r.max
                        == self.storage.points@.len()
                    &&& r.primary_clauses@.len() == 0
                }
            },
            (r.primary_clauses@.len() > 0) == cond_has_primaries(*self, *c),
            est_triple(r) == spec_cond_est(*self, *c),
        decreases *c,
    {
        let ghost points = self.storage.points@;
        let total = self.storage.total_count();
        match c {
            Condition::Field(fc) => {
                let ghost s = condition_id_set(points, *c);
                proof {
                    assert(s =~= field_id_set(points, *fc));
                    crate::estimator::lemma_id_set_card(s, total as int);
                }
                match self.estimate_field_condition(fc) {
                    Some(est) => est,
                    None => unknown_estimation(total),
                }
            },
            Condition::IsEmpty(ie) => self.estimate_is_empty(ie),
            Condition::HasId(h) => {
                let ghost s = condition_id_set(points, *c);
                let mut mapped: Vec<u32> = Vec::new();
                let mut k: usize = 0;
                while k < h.has_id.len()
                    invariant
                        self.wf(),
                        points == self.storage.points@,
                        k <= h.has_id@.len(),
                        mapped@.no_duplicates(),
                        forall|t: int|
                            0 <= t < mapped@.len() ==> (#[trigger] mapped@[t]) < points.len(),
                        forall|id: u32|
                            mapped@.contains(id) <==> (id < points.len() && exists|m: int|
                                0 <= m < k && h.has_id@[m] == points[id as int].external_id),
                    decreases h.has_id@.len() - k,
                {
                    let ghost old_mapped = mapped@;
                    match self.storage.internal_id(h.has_id[k]) {
                        Some(id) => {
                            if !vec_contains_u32(&mapped, id) {
                                mapped.push(id);
                            }
                        },
                        None => {},
                    }
                    proof {
                        assert forall|id: u32|
                            mapped@.contains(id) <==> (id < points.len() && exists|m: int|
                                0 <= m < k + 1 && h.has_id@[m] == points[id as int].external_id)
                        by {
                            if mapped@ != old_mapped {
                                crate::field_index::lemma_push_contains(
                                    old_mapped,
                                    mapped@.last(),
                                    id,
                                );
                            }
                        }
                    }
                    k += 1;
                }
                let n = mapped.len();
                proof {
                    assert forall|id: u32| mapped@.contains(id) <==> s.contains(id as int) by {
                        assert(s.contains(id as int) == (0 <= id < points.len()
                            && condition_matches(points, *c, id as int)));
                    }
                    crate::field_index::lemma_id_vec_set_len(mapped@, s);
                    crate::estimator::lemma_id_set_card(s, total as int);
                }
                let mut clauses: Vec<PrimaryCondition> = Vec::new();
                let ghost mseq = mapped@;
                clauses.push(PrimaryCondition::Ids(mapped));
                let est = CardinalityEstimation { primary_clauses: clauses, min: n, exp: n, max: n };
                proof {
                    assert forall|id: int| #[trigger] s.contains(id) implies exists|j: int|
                        0 <= j < est.primary_clauses@.len() && clause_covers(
                            points,
                            #[trigger] est.primary_clauses@[j],
                            id,
                        ) by {
                        assert(mseq.contains(id as u32));
                        let k = choose|k: int| 0 <= k < mseq.len() && mseq[k] == id as u32;
                        assert(est.primary_clauses@[0]->Ids_0@[k] == id);
                        assert(clause_covers(points, est.primary_clauses@[0], id));
                    }
                }
                est
            },
            Condition::Filter(bf) => {
                let est = self.estimate_filter_tree(bf);
                proof {
                    assert(condition_id_set(points, *c) =~= matching_id_set(points, **bf));
                }
                est
            },
        }
    }

    /// Estimation of an emptiness condition. When the field is indexed, at
    /// most `total - count_indexed_points()` points can be empty; the
    /// minimum stays zero because values of other types are not stored.
    /// Pins the values spec'd for the emptiness leaf: `{0, total - c,
    /// total - c}` over an indexed key with `c` the greatest
    /// `count_indexed_points()` among its variants, `{0, total / 2,
    /// total}` otherwise, with the emptiness test as sole primary clause.
    pub fn estimate_is_empty(&self, ie: &IsEmptyCondition) -> (r: CardinalityEstimation)
        requires
            self.wf(),
        ensures
            est_ok(
                r,
                self.storage.points@,
                condition_id_set(self.storage.points@, Condition::IsEmpty(*ie)),
                self.storage.points@.len() as int,
            ),
            match self.field_indexes.spec_get(ie.key@) {
                Some(v) => r.min == 0 && r.exp == self.storage.points@.len() - max_indexed_count(
                    v,
                ) && r.max == r.exp,
                None => r.min == 0 && r.exp == self.storage.points@.len() / 2 && r.max
                    == self.storage.points@.len(),
            },
            r.primary_clauses@.len() == 1,
            r.primary_clauses@[0] matches PrimaryCondition::IsEmpty(e) && e.key@ == ie.key@,
        decreases 0int,
    {
        let ghost points = self.storage.points@;
        let total = self.storage.total_count();
        let ghost s = condition_id_set(points, Condition::IsEmpty(*ie));
        proof {
            crate::estimator::lemma_id_set_card(s, total as int);
        }
        let mut clauses: Vec<PrimaryCondition> = Vec::new();
        clauses.push(
            PrimaryCondition::IsEmpty(IsEmptyCondition { key: ie.key.clone() }),
        );
        match self.field_indexes.get(&ie.key) {
            Some(indexes) => {
                proof {
                    lemma_indexes_lookup_wf(self.field_indexes.entries@, points, ie.key@);
                    let v = self.field_indexes.spec_get(ie.key@)->Some_0;
                    assert(v == indexes@);
                    assert forall|j: int| 0 <= j < indexes@.len() implies (
                    #[trigger] indexes@[j]).wf(points, ie.key@) by {
                        assert(v[j].wf(points, ie.key@));
                    }
                }
                let mut indexed_points: usize = 0;
                let ghost best: int = -1;
                let mut i: usize = 0;
                proof {
                    assert(indexes@.take(0) =~= Seq::<FieldIndex>::empty());
                }
                while i < indexes.len()
                    invariant
                        self.wf(),
                        points == self.storage.points@,
                        i <= indexes@.len(),
                        forall|j: int| 0 <= j < indexes@.len() ==> (#[trigger] indexes@[j]).wf(
                            points,
                            ie.key@,
                        ),
                        indexed_points == 0 && best == -1 || 0 <= best < i
                            && indexed_points == indexes@[best].data().indexed_count,
                        forall|j: int|
                            0 <= j < i ==> (#[trigger] indexes@[j]).data().indexed_count
                                <= indexed_points,
                        indexed_points == max_indexed_count(indexes@.take(i as int)),
                    decreases indexes@.len() - i,
                {
                    let c = indexes[i].count_indexed_points();
                    proof {
                        assert(indexes@.take(i as int + 1).drop_last() =~= indexes@.take(
                            i as int,
                        ));
                        assert(indexes@.take(i as int + 1).last() == indexes@[i as int]);
                    }
                    if c > indexed_points || i == 0 {
                        indexed_points = c;
                        proof {
                            best = i as int;
                        }
                    }
                    i += 1;
                }
                proof {
                    assert(indexes@.take(indexes@.len() as int) =~= indexes@);
                }
                proof {
                    if best >= 0 {
                        lemma_is_empty_bound(points, ie.key@, indexes@[best], s);
                    } else {
                        assert(indexes@.len() > 0);
                        assert(indexes@[0].data().indexed_count <= 0);
                        lemma_is_empty_bound(points, ie.key@, indexes@[0], s);
                    }
                }
                let bound = total - indexed_points;
                let est = CardinalityEstimation {
                    primary_clauses: clauses,
                    min: 0,
                    exp: bound,
                    max: bound,
                };
                proof {
                    assert forall|id: int| #[trigger] s.contains(id) implies exists|j: int|
                        0 <= j < est.primary_clauses@.len() && clause_covers(
                            points,
                            #[trigger] est.primary_clauses@[j],
                            id,
                        ) by {
                        assert(clause_covers(points, est.primary_clauses@[0], id));
                    }
                }
                est
            },
            None => {
                let est = CardinalityEstimation {
                    primary_clauses: clauses,
                    min: 0,
                    exp: total / 2,
                    max: total,
                };
                proof {
                    assert forall|id: int| #[trigger] s.contains(id) implies exists|j: int|
                        0 <= j < est.primary_clauses@.len() && clause_covers(
                            points,
                            #[trigger] est.primary_clauses@[j],
                            id,
                        ) by {
                        assert(clause_covers(points, est.primary_clauses@[0], id));
                    }
                }
                est
            },
        }
    }

    /// Estimation of a whole filter tree.
    pub fn estimate_filter_tree(&self, f: &Filter) -> (r: CardinalityEstimation)
        requires
            self.wf(),
            filter_wf(*f),
        ensures
            est_ok(
                r,
                self.storage.points@,
                matching_id_set(self.storage.points@, *f),
                self.storage.points@.len() as int,
            ),
            (r.primary_clauses@.len() > 0) == filter_has_primaries(*self, *f),
            est_triple(r) == spec_filter_est(*self, *f),
        decreases *f,
    {
        let ghost points = self.storage.points@;
        let total = self.storage.total_count();
        let mut acc: Option<CardinalityEstimation> = None;
        let ghost mut acc_set: Set<int> = Set::empty();
        let ghost mut macc: Option<(int, int, int)> = None;

        match &f.should {
            Some(cs) if cs.len() > 0 => {
                let e = self.estimate_any_of(cs);
                proof {
                    acc_set = any_match_set(points, cs@, cs@.len() as int);
                    macc = Some(spec_any_of_est(*self, cs@, cs@.len() as int));
                }
                acc = Some(e);
            },
            _ => {},
        }
        match &f.must {
            Some(cs) if cs.len() > 0 => {
                let e = self.estimate_all_of(cs);
                let ghost es = all_match_set(points, cs@, cs@.len() as int);
                acc = Some(
                    match acc {
                        None => {
                            proof {
                                acc_set = es;
                                macc = Some(spec_all_of_est(*self, cs@, cs@.len() as int));
                            }
                            e
                        },
                        Some(prev) => {
                            let comb = combine_must(
                                prev,
                                e,
                                total,
                                Ghost(points),
                                Ghost(acc_set),
                                Ghost(es),
                            );
                            proof {
                                acc_set = acc_set.intersect(es);
                                macc = Some(spec_must_comb(
                                    macc->Some_0,
                                    spec_all_of_est(*self, cs@, cs@.len() as int),
                                    total as int,
                                ));
                            }
                            comb
                        },
                    },
                );
            },
            _ => {},
        }
        match &f.must_not {
            Some(cs) if cs.len() > 0 => {
                let e = self.estimate_none_of(cs);
                let ghost es = none_match_set(points, cs@, cs@.len() as int);
                acc = Some(
                    match acc {
                        None => {
                            proof {
                                acc_set = es;
                                macc = Some(spec_none_of_est(*self, cs@, cs@.len() as int));
                            }
                            e
                        },
                        Some(prev) => {
                            let comb = combine_must(
                                prev,
                                e,
                                total,
                                Ghost(points),
                                Ghost(acc_set),
                                Ghost(es),
                            );
                            proof {
                                acc_set = acc_set.intersect(es);
                                macc = Some(spec_must_comb(
                                    macc->Some_0,
                                    spec_none_of_est(*self, cs@, cs@.len() as int),
                                    total as int,
                                ));
                            }
                            comb
                        },
                    },
                );
            },
            _ => {},
        }
        match acc {
            Some(est) => {
                proof {
                    assert(acc_set =~= matching_id_set(points, *f));
                    assert(macc == Some(est_triple(est)));
                    assert(est_triple(est) == spec_filter_est(*self, *f));
                }
                est
            },
            None => {
                proof {
                    assert(matching_id_set(points, *f) =~= vstd::set_lib::set_int_range(
                        0,
                        total as int,
                    ));
                    vstd::set_lib::lemma_int_range(0, total as int);
                }
                CardinalityEstimation {
                    primary_clauses: Vec::new(),
                    min: total,
                    exp: total,
                    max: total,
                }
            },
        }
    }

    /// Folds the estimations of a `should` list: at least one condition
    /// must hold.
    pub fn estimate_any_of(&self, cs: &Vec<Condition>) -> (r: CardinalityEstimation)
        requires
            self.wf(),
            cs@.len() > 0,
            forall|i: int| 0 <= i < cs@.len() ==> condition_wf(#[trigger] cs@[i]),
        ensures
            est_ok(
                r,
                self.storage.points@,
                any_match_set(self.storage.points@, cs@, cs@.len() as int),
                self.storage.points@.len() as int,
            ),
            (r.primary_clauses@.len() > 0) == forall|i: int|
                0 <= i < cs@.len() ==> cond_has_primaries(*self, #[trigger] cs@[i]),
            est_triple(r) == spec_any_of_est(*self, cs@, cs@.len() as int),
        decreases *cs,
    {
        let ghost points = self.storage.points@;
        let total = self.storage.total_count();
        let mut acc = self.estimate_condition(&cs[0]);
        let ghost mut acc_set = condition_id_set(points, cs@[0]);
        proof {
            assert(acc_set =~= any_match_set(points, cs@, 1));
        }
        let mut i: usize = 1;
        while i < cs.len()
            invariant
                self.wf(),
                points == self.storage.points@,
                total == points.len(),
                1 <= i <= cs@.len(),
                forall|j: int| 0 <= j < cs@.len() ==> condition_wf(#[trigger] cs@[j]),
                acc_set == any_match_set(points, cs@, i as int),
                est_ok(acc, points, acc_set, total as int),
                (acc.primary_clauses@.len() > 0) == forall|j: int|
                    0 <= j < i ==> cond_has_primaries(*self, #[trigger] cs@[j]),
                est_triple(acc) == spec_any_of_est(*self, cs@, i as int),
            decreases cs@.len() - i,
        {
            let e = self.estimate_condition(&cs[i]);
            let ghost es = condition_id_set(points, cs@[i as int]);
            let ghost had_all = acc.primary_clauses@.len() > 0;
            acc = combine_should(acc, e, total, Ghost(points), Ghost(acc_set), Ghost(es));
            proof {
                acc_set = acc_set.union(es);
                assert(acc_set =~= any_match_set(points, cs@, i as int + 1));
                assert((acc.primary_clauses@.len() > 0) == (had_all && cond_has_primaries(
                    *self,
                    cs@[i as int],
                )));
                assert(spec_any_of_est(*self, cs@, i as int + 1) == spec_should_comb(
                    spec_any_of_est(*self, cs@, i as int),
                    spec_cond_est(*self, cs@[i as int]),
                    total as int,
                ));
                assert forall|j: int| 0 <= j < i + 1 implies (cond_has_primaries(
                    *self,
                    #[trigger] cs@[j],
                ) == cond_has_primaries(*self, cs@[j])) by {}
            }
            i += 1;
        }
        acc
    }

    /// Folds the estimations of a `must` list: every condition must hold.
    pub fn estimate_all_of(&self, cs: &Vec<Condition>) -> (r: CardinalityEstimation)
        requires
            self.wf(),
            cs@.len() > 0,
            forall|i: int| 0 <= i < cs@.len() ==> condition_wf(#[trigger] cs@[i]),
        ensures
            est_ok(
                r,
                self.storage.points@,
                all_match_set(self.storage.points@, cs@, cs@.len() as int),
                self.storage.points@.len() as int,
            ),
            (r.primary_clauses@.len() > 0) == exists|i: int|
                0 <= i < cs@.len() && cond_has_primaries(*self, #[trigger] cs@[i]),
            est_triple(r) == spec_all_of_est(*self, cs@, cs@.len() as int),
        decreases *cs,
    {
        let ghost points = self.storage.points@;
        let total = self.storage.total_count();
        let mut acc = self.estimate_condition(&cs[0]);
        let ghost mut acc_set = condition_id_set(points, cs@[0]);
        proof {
            assert(acc_set =~= all_match_set(points, cs@, 1));
        }
        let mut i: usize = 1;
        while i < cs.len()
            invariant
                self.wf(),
                points == self.storage.points@,
                total == points.len(),
                1 <= i <= cs@.len(),
                forall|j: int| 0 <= j < cs@.len() ==> condition_wf(#[trigger] cs@[j]),
                acc_set == all_match_set(points, cs@, i as int),
                est_ok(acc, points, acc_set, total as int),
                (acc.primary_clauses@.len() > 0) == exists|j: int|
                    0 <= j < i && cond_has_primaries(*self, #[trigger] cs@[j]),
                est_triple(acc) == spec_all_of_est(*self, cs@, i as int),
            decreases cs@.len() - i,
        {
            let e = self.estimate_condition(&cs[i]);
            let ghost es = condition_id_set(points, cs@[i as int]);
            let ghost had_any = acc.primary_clauses@.len() > 0;
            acc = combine_must(acc, e, total, Ghost(points), Ghost(acc_set), Ghost(es));
            proof {
                acc_set = acc_set.intersect(es);
                assert(acc_set =~= all_match_set(points, cs@, i as int + 1));
                assert((acc.primary_clauses@.len() > 0) == (had_any || cond_has_primaries(
                    *self,
                    cs@[i as int],
                )));
                assert(spec_all_of_est(*self, cs@, i as int + 1) == spec_must_comb(
                    spec_all_of_est(*self, cs@, i as int),
                    spec_cond_est(*self, cs@[i as int]),
                    total as int,
                ));
                if acc.primary_clauses@.len() > 0 {
                    if had_any {
                        let j = choose|j: int|
                            0 <= j < i && cond_has_primaries(*self, #[trigger] cs@[j]);
                        assert(cond_has_primaries(*self, cs@[j]));
                    } else {
                        assert(cond_has_primaries(*self, cs@[i as int]));
                    }
                }
            }
            i += 1;
        }
        acc
    }

    /// Folds the estimations of a `must_not` list: no condition may hold.
    pub fn estimate_none_of(&self, cs: &Vec<Condition>) -> (r: CardinalityEstimation)
        requires
            self.wf(),
            cs@.len() > 0,
            forall|i: int| 0 <= i < cs@.len() ==> condition_wf(#[trigger] cs@[i]),
        ensures
            est_ok(
                r,
                self.storage.points@,
                none_match_set(self.storage.points@, cs@, cs@.len() as int),
                self.storage.points@.len() as int,
            ),
            r.primary_clauses@.len() == 0,
            est_triple(r) == spec_none_of_est(*self, cs@, cs@.len() as int),
        decreases *cs,
    {
        let ghost points = self.storage.points@;
        let total = self.storage.total_count();
        let e0 = self.estimate_condition(&cs[0]);
        let ghost s0 = condition_id_set(points, cs@[0]);
        let ghost c0 = Set::new(
            |id: int| 0 <= id < points.len() && !condition_matches(points, cs@[0], id),
        );
        let mut acc = negate_estimation(e0, total, Ghost(points), Ghost(s0), Ghost(c0));
        let ghost mut acc_set = c0;
        proof {
            assert(acc_set =~= none_match_set(points, cs@, 1));
        }
        let mut i: usize = 1;
        while i < cs.len()
            invariant
                self.wf(),
                points == self.storage.points@,
                total == points.len(),
                1 <= i <= cs@.len(),
                forall|j: int| 0 <= j < cs@.len() ==> condition_wf(#[trigger] cs@[j]),
                acc_set == none_match_set(points, cs@, i as int),
                est_ok(acc, points, acc_set, total as int),
                acc.primary_clauses@.len() == 0,
                est_triple(acc) == spec_none_of_est(*self, cs@, i as int),
            decreases cs@.len() - i,
        {
            let e = self.estimate_condition(&cs[i]);
            let ghost es = condition_id_set(points, cs@[i as int]);
            let ghost ec = Set::new(
                |id: int|
                    0 <= id < points.len() && !condition_matches(
                        points,
                        cs@[i as int],
                        id,
                    ),
            );
            let neg = negate_estimation(e, total, Ghost(points), Ghost(es), Ghost(ec));
            acc = combine_must(acc, neg, total, Ghost(points), Ghost(acc_set), Ghost(ec));
            proof {
                acc_set = acc_set.intersect(ec);
                assert(acc_set =~= none_match_set(points, cs@, i as int + 1));
                assert(spec_none_of_est(*self, cs@, i as int + 1) == spec_must_comb(
                    spec_none_of_est(*self, cs@, i as int),
                    spec_negate_comb(spec_cond_est(*self, cs@[i as int]), total as int),
                    total as int,
                ));
            }
            i += 1;
        }
        acc
    }

    /// Sound `(min, exp, max)` bounds for a filter, with the primary
    /// clauses the executor can drive probes from; empty clauses mean a
    /// full scan is required.
    pub fn estimate_cardinality(&self, query: &Filter) -> (r: CardinalityEstimation)
        requires
            self.wf(),
            filter_wf(*query),
        ensures
            est_ok(
                r,
                self.storage.points@,
                matching_id_set(self.storage.points@, *query),
                self.storage.points@.len() as int,
            ),
            (r.primary_clauses@.len() > 0) == filter_has_primaries(*self, *query),
            est_triple(r) == spec_filter_est(*self, *query),
    {
        self.estimate_filter_tree(query)
    }
}

/// Ids `0, 1, .., total - 1`: the stream of a full scan.
pub fn full_scan_ids(total: usize) -> (r: Vec<u32>)
    requires
        total < 0x1_0000_0000,
    ensures
        r@.no_duplicates(),
        forall|k: int| 0 <= k < r@.len() ==> (#[trigger] r@[k]) < total,
        forall|id: u32| r@.contains(id) <==> id < total,
{
    let mut r: Vec<u32> = Vec::new();
    let mut i: usize = 0;
    while i < total
        invariant
            total < 0x1_0000_0000,
            i <= total,
            r@.len() == i,
            forall|k: int| 0 <= k < i ==> (#[trigger] r@[k]) == k,
        decreases total - i,
    {
        r.push(i as u32);
        i += 1;
    }
    proof {
        assert forall|id: u32| r@.contains(id) <==> id < total by {
            if id < total {
                assert(r@[id as int] == id);
            }
            if r@.contains(id) {
                let k = choose|k: int| 0 <= k < r@.len() && r@[k] == id;
            }
        }
    }
    r
}

/// Copy of an id vector.
pub fn copy_ids(v: &Vec<u32>) -> (r: Vec<u32>)
    ensures
        r@ == v@,
{
    let mut r: Vec<u32> = Vec::new();
    let mut i: usize = 0;
    while i < v.len()
        invariant
            i <= v@.len(),
            r@ == v@.take(i as int),
        decreases v@.len() - i,
    {
        r.push(v[i]);
        proof {
            assert(r@ =~= v@.take(i as int + 1));
        }
        i += 1;
    }
    proof {
        assert(v@.take(v@.len() as int) =~= v@);
    }
    r
}

/// Relation the executor maintains while streaming candidates: the output
/// holds exactly the already-visited ids that satisfy the filter, once
/// each.
pub open spec fn out_ok(
    out: Seq<u32>,
    visited: Seq<bool>,
    points: Seq<PointRecord>,
    f: Filter,
) -> bool {
    &&& out.no_duplicates()
    &&& forall|id: u32|
        #[trigger] out.contains(id) ==> (id < points.len() && visited[id as int]
            && filter_matches(points, f, id as int))
    &&& forall|id: u32|
        id < points.len() && #[trigger] visited[id as int] && filter_matches(
            points,
            f,
            id as int,
        ) ==> out.contains(id)
}

/// Does this condition contribute a primary clause? Field leaves do when
/// some variant of their key serves them; id and emptiness leaves always
/// do; a nested filter follows [`filter_has_primaries`].
pub open spec fn cond_has_primaries(index: StructPayloadIndex, c: Condition) -> bool
    decreases c,
{
    match c {
        Condition::Field(fc) => index.field_indexes.spec_get(fc.key@) matches Some(v)
            && exists|j: int| 0 <= j < v.len() && (#[trigger] v[j]).spec_serves(fc_view(fc)),
        Condition::HasId(_) => true,
        Condition::IsEmpty(_) => true,
        Condition::Filter(bf) => filter_has_primaries(index, *bf),
    }
}

/// Does the filter's estimation carry primary clauses? A `should` group
/// contributes only when every child does; a `must` group when any child
/// does; a `must_not` group never.
pub open spec fn filter_has_primaries(index: StructPayloadIndex, f: Filter) -> bool
    decreases f,
{
    ||| (f.should matches Some(cs) && cs@.len() > 0 && forall|i: int|
        0 <= i < cs@.len() ==> cond_has_primaries(index, #[trigger] cs@[i]))
    ||| (f.must matches Some(cs) && cs@.len() > 0 && exists|i: int|
        0 <= i < cs@.len() && cond_has_primaries(index, #[trigger] cs@[i]))
}

/// Ghost mirror of the leaf estimate for a field condition: the exact
/// count when some variant of the key serves it, the unknown estimate
/// `{0, total/2, total}` otherwise.
pub open spec fn spec_field_leaf_est(index: StructPayloadIndex, fc: FieldCondition) -> (
    int,
    int,
    int,
) {
    let t = index.storage.points@.len() as int;
    if index.field_indexes.spec_get(fc.key@) matches Some(v) && exists|j: int|
        0 <= j < v.len() && (#[trigger] v[j]).spec_serves(fc_view(fc)) {
        let n = field_id_set(index.storage.points@, fc).len() as int;
        (n, n, n)
    } else {
        (0, t / 2, t)
    }
}

/// Ghost mirror of the emptiness leaf estimate.
pub open spec fn spec_is_empty_est(index: StructPayloadIndex, ie: IsEmptyCondition) -> (
    int,
    int,
    int,
) {
    let t = index.storage.points@.len() as int;
    match index.field_indexes.spec_get(ie.key@) {
        Some(v) => {
            let b = t - max_indexed_count(v);
            (0, b, b)
        },
        None => (0, t / 2, t),
    }
}

/// Ghost mirror of the `must` interval combination.
pub open spec fn spec_must_comb(a: (int, int, int), b: (int, int, int), t: int) -> (
    int,
    int,
    int,
) {
    let lo = if a.0 + b.0 > t {
        a.0 + b.0 - t
    } else {
        0
    };
    let hi = if a.2 < b.2 {
        a.2
    } else {
        b.2
    };
    (
        lo,
        crate::estimator::spec_clamp(
            if t == 0 {
                0
            } else {
                a.1 * b.1 / t
            },
            lo,
            hi,
        ),
        hi,
    )
}

/// Ghost mirror of the `should` interval combination.
pub open spec fn spec_should_comb(a: (int, int, int), b: (int, int, int), t: int) -> (
    int,
    int,
    int,
) {
    let lo = if a.0 > b.0 {
        a.0
    } else {
        b.0
    };
    let hi = if a.2 + b.2 > t {
        t
    } else {
        a.2 + b.2
    };
    (
        lo,
        crate::estimator::spec_clamp(
            if t == 0 {
                0
            } else {
                t - (t - a.1) * (t - b.1) / t
            },
            lo,
            hi,
        ),
        hi,
    )
}

/// Ghost mirror of the `must_not` complement.
pub open spec fn spec_negate_comb(a: (int, int, int), t: int) -> (int, int, int) {
    let lo = t - a.2;
    let hi = t - a.0;
    (lo, crate::estimator::spec_clamp(t - a.1, lo, hi), hi)
}

/// Ghost mirror of one condition's `(min, exp, max)` estimate.
pub open spec fn spec_cond_est(index: StructPayloadIndex, c: Condition) -> (int, int, int)
    decreases c,
{
    match c {
        Condition::Field(fc) => spec_field_leaf_est(index, fc),
        Condition::IsEmpty(ie) => spec_is_empty_est(index, ie),
        Condition::HasId(_) => {
            let n = condition_id_set(index.storage.points@, c).len() as int;
            (n, n, n)
        },
        Condition::Filter(bf) => spec_filter_est(index, *bf),
    }
}

/// Ghost fold of a `should` list's estimates over its first `k` members.
pub open spec fn spec_any_of_est(index: StructPayloadIndex, cs: Seq<Condition>, k: int) -> (
    int,
    int,
    int,
)
    decreases cs, k,
{
    if k <= 0 || k > cs.len() {
        (0, 0, 0)
    } else if k == 1 {
        spec_cond_est(index, cs[0])
    } else {
        spec_should_comb(
            spec_any_of_est(index, cs, k - 1),
            spec_cond_est(index, cs[k - 1]),
            index.storage.points@.len() as int,
        )
    }
}

/// Ghost fold of a `must` list's estimates over its first `k` members.
pub open spec fn spec_all_of_est(index: StructPayloadIndex, cs: Seq<Condition>, k: int) -> (
    int,
    int,
    int,
)
    decreases cs, k,
{
    if k <= 0 || k > cs.len() {
        (0, 0, 0)
    } else if k == 1 {
        spec_cond_est(index, cs[0])
    } else {
        spec_must_comb(
            spec_all_of_est(index, cs, k - 1),
            spec_cond_est(index, cs[k - 1]),
            index.storage.points@.len() as int,
        )
    }
}

/// Ghost fold of a `must_not` list: each child's estimate complemented,
/// combined as an intersection.
pub open spec fn spec_none_of_est(index: StructPayloadIndex, cs: Seq<Condition>, k: int) -> (
    int,
    int,
    int,
)
    decreases cs, k,
{
    let t = index.storage.points@.len() as int;
    if k <= 0 || k > cs.len() {
        (0, 0, 0)
    } else if k == 1 {
        spec_negate_comb(spec_cond_est(index, cs[0]), t)
    } else {
        spec_must_comb(
            spec_none_of_est(index, cs, k - 1),
            spec_negate_comb(spec_cond_est(index, cs[k - 1]), t),
            t,
        )
    }
}

/// Ghost mirror of a whole filter's `(min, exp, max)` estimate: the
/// present groups' folds, intersected in order; a filter with no group
/// matches everything.
pub open spec fn spec_filter_est(index: StructPayloadIndex, f: Filter) -> (int, int, int)
    decreases f,
{
    let t = index.storage.points@.len() as int;
    let acc0: Option<(int, int, int)> = match f.should {
        Some(cs) => if cs@.len() > 0 {
            Some(spec_any_of_est(index, cs@, cs@.len() as int))
        } else {
            None
        },
        None => None,
    };
    let acc1: Option<(int, int, int)> = match f.must {
        Some(cs) => if cs@.len() > 0 {
            let e = spec_all_of_est(index, cs@, cs@.len() as int);
            match acc0 {
                None => Some(e),
                Some(a) => Some(spec_must_comb(a, e, t)),
            }
        } else {
            acc0
        },
        None => acc0,
    };
    let acc2: Option<(int, int, int)> = match f.must_not {
        Some(cs) => if cs@.len() > 0 {
            let e = spec_none_of_est(index, cs@, cs@.len() as int);
            match acc1 {
                None => Some(e),
                Some(a) => Some(spec_must_comb(a, e, t)),
            }
        } else {
            acc1
        },
        None => acc1,
    };
    match acc2 {
        Some(x) => x,
        None => (t, t, t),
    }
}

/// The estimation's bounds as a ghost triple.
pub open spec fn est_triple(est: CardinalityEstimation) -> (int, int, int) {
    (est.min as int, est.exp as int, est.max as int)
}

/// Greatest `count_indexed_points()` among a key's variants.
pub open spec fn max_indexed_count(v: Seq<FieldIndex>) -> int
    decreases v.len(),
{
    if v.len() == 0 {
        0
    } else {
        let rest = max_indexed_count(v.drop_last());
        if v.last().data().indexed_count >= rest {
            v.last().data().indexed_count as int
        } else {
            rest
        }
    }
}

/// An id whose payload is empty under `key` stored nothing in a
/// well-formed index, so at most `total - indexed_count` ids can be empty.
proof fn lemma_is_empty_bound(
    points: Seq<PointRecord>,
    key: Seq<char>,
    idx: FieldIndex,
    s: Set<int>,
)
    requires
        idx.wf(points, key),
        forall|id: int|
            s.contains(id) <==> 0 <= id < points.len() && crate::filters::is_empty_at(
                points,
                key,
                id,
            ),
    ensures
        s.finite(),
        s.len() <= points.len() - idx.data().indexed_count,
{
    broadcast use vstd::seq_lib::group_filter_ensures;

    let total = points.len() as int;
    let ne = crate::field_index::nonempty_id_set(idx.data(), total);
    crate::estimator::lemma_id_set_card(s, total);
    crate::estimator::lemma_id_set_card(ne, total);
    assert forall|id: int| s.contains(id) implies !ne.contains(id) by {
        if ne.contains(id) {
            assert(crate::field_index::stored_at(idx.data(), id)
                == crate::field_index::expected_stored(
                points,
                key,
                crate::field_index::kind_pred(idx.kind()),
                id,
            ));
            match points[id].payload.spec_value(key) {
                None => {},
                Some(vals) => {
                    assert(vals.filter(crate::field_index::kind_pred(idx.kind())).len()
                        <= vals.len());
                },
            }
        }
    }
    assert(s.disjoint(ne));
    vstd::set_lib::lemma_set_disjoint_lens(s, ne);
    crate::estimator::lemma_id_set_card(s + ne, total);
}

impl StructPayloadIndex {
    /// Id stream of the first variant of the condition's key that serves
    /// it; `None` when the key has no usable variant (the caller scans).
    fn query_field(&self, field_condition: &FieldCondition) -> (r: Option<Vec<u32>>)
        requires
            self.wf(),
            field_condition.wf(),
        ensures
            match r {
                Some(ids) => {
                    &&& ids@.no_duplicates()
                    &&& forall|k: int|
                        0 <= k < ids@.len() ==> (#[trigger] ids@[k]) < self.storage.points@.len()
                    &&& forall|id: u32|
                        ids@.contains(id) <==> (id < self.storage.points@.len()
                            && field_condition_matches(
                            fc_view(*field_condition),
                            self.storage.points@[id as int].payload.spec_value(
                                field_condition.key@,
                            ),
                        ))
                },
                None => match self.field_indexes.spec_get(field_condition.key@) {
                    Some(v) => forall|j: int|
                        0 <= j < v.len() ==> !(#[trigger] v[j]).spec_serves(
                            fc_view(*field_condition),
                        ),
                    None => true,
                },
            },
    {
        let ghost points = self.storage.points@;
        match self.field_indexes.get(&field_condition.key) {
            None => None,
            Some(indexes) => {
                proof {
                    lemma_indexes_lookup_wf(
                        self.field_indexes.entries@,
                        points,
                        field_condition.key@,
                    );
                    let v = self.field_indexes.spec_get(field_condition.key@)->Some_0;
                    assert(v == indexes@);
                    assert forall|j: int| 0 <= j < indexes@.len() implies (
                    #[trigger] indexes@[j]).wf(points, field_condition.key@) by {
                        assert(v[j].wf(points, field_condition.key@));
                    }
                }
                let mut i: usize = 0;
                while i < indexes.len()
                    invariant
                        self.wf(),
                        field_condition.wf(),
                        points == self.storage.points@,
                        i <= indexes@.len(),
                        self.field_indexes.spec_get(field_condition.key@) == Some(indexes@),
                        forall|j: int| 0 <= j < indexes@.len() ==> (#[trigger] indexes@[j]).wf(
                            points,
                            field_condition.key@,
                        ),
                        forall|j: int|
                            0 <= j < i ==> !(#[trigger] indexes@[j]).spec_serves(
                                fc_view(*field_condition),
                            ),
                    decreases indexes@.len() - i,
                {
                    let ids_opt = indexes[i].filter(
                        field_condition,
                        Ghost(points),
                        Ghost(field_condition.key@),
                    );
                    if ids_opt.is_some() {
                        return ids_opt;
                    }
                    i += 1;
                }
                None
            },
        }
    }

    /// Streams one candidate list: marks each id visited, and pushes the
    /// ids seen for the first time that the reference checker accepts.
    #[verifier::loop_isolation(false)]
    fn apply_stream(
        &self,
        stream: &Vec<u32>,
        query: &Filter,
        visited: &mut Vec<bool>,
        out: &mut Vec<u32>,
    )
        requires
            self.wf(),
            filter_wf(*query),
            old(visited)@.len() == self.storage.points@.len(),
            forall|k: int|
                0 <= k < stream@.len() ==> (#[trigger] stream@[k]) < self.storage.points@.len(),
            out_ok(old(out)@, old(visited)@, self.storage.points@, *query),
        ensures
            final(visited)@.len() == old(visited)@.len(),
            forall|i: int|
                0 <= i < final(visited)@.len() && old(visited)@[i] ==> final(visited)@[i],
            forall|k: int|
                0 <= k < stream@.len() ==> final(visited)@[(#[trigger] stream@[k]) as int],
            out_ok(final(out)@, final(visited)@, self.storage.points@, *query),
    {
        let ghost points = self.storage.points@;
        let mut k: usize = 0;
        while k < stream.len()
            invariant
                visited@.len() == old(visited)@.len(),
                forall|i: int| 0 <= i < visited@.len() && old(visited)@[i] ==> visited@[i],
                forall|t: int| 0 <= t < k ==> visited@[(#[trigger] stream@[t]) as int],
                out_ok(out@, visited@, points, *query),
            decreases stream@.len() - k,
        {
            let id = stream[k];
            if !visited[id as usize] {
                visited.set(id as usize, true);
                let ghost old_out = out@;
                if check_filter_point(&self.storage, query, id) {
                    proof {
                        assert(!old_out.contains(id));
                    }
                    out.push(id);
                }
                proof {
                    assert forall|id2: u32| #[trigger] out@.contains(id2) implies (id2
                        < points.len() && visited@[id2 as int] && filter_matches(
                        points,
                        *query,
                        id2 as int,
                    )) by {
                        if out@ != old_out {
                            crate::field_index::lemma_push_contains(old_out, id, id2);
                        }
                    }
                    assert forall|id2: u32|
                        id2 < points.len() && #[trigger] visited@[id2 as int] && filter_matches(
                            points,
                            *query,
                            id2 as int,
                        ) implies out@.contains(id2) by {
                        if out@ != old_out {
                            crate::field_index::lemma_push_contains(old_out, id, id2);
                        }
                    }
                    if out@ != old_out {
                        assert(out@.no_duplicates()) by {
                            crate::field_index::lemma_push_contains(old_out, id, id);
                        }
                    }
                }
            }
            k += 1;
        }
    }

    /// All ids that satisfy the filter, each exactly once, in no promised
    /// order. Uses the primary clauses' index streams with visited-list
    /// de-duplication and a final reference check when an index can drive
    /// the query, and a checked full scan otherwise.
    #[verifier::loop_isolation(false)]
    pub fn query_points(&self, query: &Filter) -> (r: Vec<PointOffsetType>)
        requires
            self.wf(),
            filter_wf(*query),
        ensures
            r@.no_duplicates(),
            forall|id: u32|
                r@.contains(id) <==> (id < self.storage.points@.len() && filter_matches(
                    self.storage.points@,
                    *query,
                    id as int,
                )),
    {
        let ghost points = self.storage.points@;
        let total = self.storage.total_count();
        let query_cardinality = self.estimate_cardinality(query);
        if query_cardinality.primary_clauses.len() == 0 {
            let mut out: Vec<u32> = Vec::new();
            let mut id: usize = 0;
            while id < total
                invariant
                    id <= total,
                    out@.no_duplicates(),
                    forall|k: int| 0 <= k < out@.len() ==> (#[trigger] out@[k]) < id,
                    forall|id2: u32|
                        out@.contains(id2) <==> (id2 < id && filter_matches(
                            points,
                            *query,
                            id2 as int,
                        )),
                decreases total - id,
            {
                let ghost old_out = out@;
                if check_filter_point(&self.storage, query, id as u32) {
                    proof {
                        assert(!out@.contains(id as u32));
                    }
                    out.push(id as u32);
                }
                proof {
                    assert forall|id2: u32|
                        out@.contains(id2) <==> (id2 < id + 1 && filter_matches(
                            points,
                            *query,
                            id2 as int,
                        )) by {
                        if out@ != old_out {
                            crate::field_index::lemma_push_contains(old_out, id as u32, id2);
                        }
                    }
                }
                id += 1;
            }
            out
        } else {
            let mut visited: Vec<bool> = Vec::new();
            let mut i: usize = 0;
            while i < total
                invariant
                    i <= total,
                    visited@.len() == i,
                    forall|t: int| 0 <= t < i ==> !(#[trigger] visited@[t]),
                decreases total - i,
            {
                visited.push(false);
                i += 1;
            }
            let mut out: Vec<u32> = Vec::new();
            let mut j: usize = 0;
            let ghost clauses = query_cardinality.primary_clauses@;
            while j < query_cardinality.primary_clauses.len()
                invariant
                    visited@.len() == total,
                    out_ok(out@, visited@, points, *query),
                    forall|jj: int, id: int|
                        0 <= jj < j && 0 <= id < total && #[trigger] clause_covers(
                            points,
                            clauses[jj],
                            id,
                        ) ==> visited@[id],
                decreases query_cardinality.primary_clauses@.len() - j,
            {
                let clause = &query_cardinality.primary_clauses[j];
                let stream: Vec<u32> = match clause {
                    PrimaryCondition::Condition(fc) => {
                        match self.query_field(fc) {
                            Some(ids) => ids,
                            None => full_scan_ids(total),
                        }
                    },
                    PrimaryCondition::Ids(v) => copy_ids(v),
                    PrimaryCondition::IsEmpty(_) => full_scan_ids(total),
                };
                proof {
                    assert forall|id: int|
                        0 <= id < total && clause_covers(points, clauses[j as int], id)
                        implies stream@.contains(id as u32) by {
                        match clauses[j as int] {
                            PrimaryCondition::Condition(fc) => {},
                            PrimaryCondition::Ids(v) => {
                                let k = choose|k: int| 0 <= k < v@.len() && v@[k] == id;
                                assert(stream@[k] == id as u32);
                            },
                            PrimaryCondition::IsEmpty(_) => {},
                        }
                    }
                }
                let ghost pre_visited = visited@;
                self.apply_stream(&stream, query, &mut visited, &mut out);
                proof {
                    assert forall|jj: int, id: int|
                        0 <= jj < j + 1 && 0 <= id < total && #[trigger] clause_covers(
                            points,
                            clauses[jj],
                            id,
                        ) implies visited@[id] by {
                        if jj < j {
                            assert(pre_visited[id]);
                        } else {
                            assert(stream@.contains(id as u32));
                            let k = choose|k: int|
                                0 <= k < stream@.len() && stream@[k] == id as u32;
                            assert(visited@[stream@[k] as int]);
                        }
                    }
                }
                j += 1;
            }
            proof {
                assert forall|id: u32|
                    out@.contains(id) <==> (id < points.len() && filter_matches(
                        points,
                        *query,
                        id as int,
                    )) by {
                    if id < points.len() && filter_matches(points, *query, id as int) {
                        assert(matching_id_set(points, *query).contains(id as int));
                        let jj = choose|jj: int|
                            0 <= jj < clauses.len() && clause_covers(
                                points,
                                #[trigger] clauses[jj],
                                id as int,
                            );
                        assert(visited@[id as int]);
                    }
                }
            }
            out
        }
    }
}

} // verus!
