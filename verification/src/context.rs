//! Per-filter stateful evaluator for hot per-point checks, used by vector
//! search during top-k re-ranking.
//!
//! Construction decides once whether index-only evaluation is safe
//! (`fallback`): any primary clause whose key is unindexed, or that is an
//! id or emptiness clause, forces the reference checker. The fast path
//! materializes field values from the key's first index variant; its
//! agreement with the reference semantics is proved under
//! [`fast_filter_ok`]: every field key indexed with type-consistent
//! payload values.

use vstd::prelude::*;

use crate::checker::{check_condition_point, check_filter_point};
use crate::estimator::{CardinalityEstimation, PrimaryCondition};
use crate::field_index::{kind_pred, stored_opt, ValueKind};
use crate::filters::{
    condition_matches, condition_wf, fc_view, field_condition_matches, filter_matches, filter_wf,
    Condition, FieldCondition, Filter,
};
use crate::payload_index::{IndexesMap, StructPayloadIndex};
use crate::types::{value_wf, vview, vviews, PayloadKeyType, PointOffsetType, PointRecord, Value};

verus! {

/// Does this primary clause force the reference checker? Id and emptiness
/// clauses always do; a field clause does when its key has no index.
pub open spec fn clause_forces_fallback(pc: PrimaryCondition, m: IndexesMap) -> bool {
    match pc {
        PrimaryCondition::Condition(fc) => m.spec_get(fc.key@) is None,
        PrimaryCondition::Ids(_) => true,
        PrimaryCondition::IsEmpty(_) => true,
    }
}

/// Does any primary clause force the reference checker?
pub fn check_fallback(primary_clauses: &Vec<PrimaryCondition>, field_indexes: &IndexesMap) -> (r:
    bool)
    ensures
        r == exists|j: int|
            0 <= j < primary_clauses@.len() && clause_forces_fallback(
                #[trigger] primary_clauses@[j],
                *field_indexes,
            ),
{
    let mut j: usize = 0;
    while j < primary_clauses.len()
        invariant
            j <= primary_clauses@.len(),
            forall|t: int|
                0 <= t < j ==> !clause_forces_fallback(
                    #[trigger] primary_clauses@[t],
                    *field_indexes,
                ),
        decreases primary_clauses@.len() - j,
    {
        let forces = match &primary_clauses[j] {
            PrimaryCondition::Condition(fc) => field_indexes.get(&fc.key).is_none(),
            PrimaryCondition::Ids(_) => true,
            PrimaryCondition::IsEmpty(_) => true,
        };
        if forces {
            return true;
        }
        j += 1;
    }
    false
}

/// Every payload value under `key` has the kind, for every point: the
/// type-consistency assumption under which index-only evaluation is exact.
pub open spec fn type_consistent_at(
    points: Seq<PointRecord>,
    key: Seq<char>,
    kind: ValueKind,
) -> bool {
    forall|p: int, j: int|
        0 <= p < points.len() && points[p].payload.spec_value(key) is Some && 0 <= j < points[p]
            .payload
            .spec_value(key)->Some_0.len() ==> kind_pred(kind)(
            #[trigger] points[p].payload.spec_value(key)->Some_0[j],
        )
}

/// Can the fast path answer this condition exactly? Field leaves need
/// their key indexed and the payload type-consistent with the first
/// variant; other leaves are evaluated from storage directly.
pub open spec fn fast_cond_ok(index: StructPayloadIndex, c: Condition) -> bool
    decreases c,
{
    match c {
        Condition::Field(fc) => match index.field_indexes.spec_get(fc.key@) {
            Some(v) => v.len() > 0 && type_consistent_at(
                index.storage.points@,
                fc.key@,
                v[0].kind(),
            ),
            None => false,
        },
        Condition::IsEmpty(_) => true,
        Condition::HasId(_) => true,
        Condition::Filter(bf) => fast_filter_ok(index, *bf),
    }
}

/// Can the fast path answer every leaf of this filter exactly?
pub open spec fn fast_filter_ok(index: StructPayloadIndex, f: Filter) -> bool
    decreases f,
{
    &&& match f.should {
        None => true,
        Some(cs) => forall|i: int| 0 <= i < cs@.len() ==> fast_cond_ok(index, #[trigger] cs@[i]),
    }
    &&& match f.must {
        None => true,
        Some(cs) => forall|i: int| 0 <= i < cs@.len() ==> fast_cond_ok(index, #[trigger] cs@[i]),
    }
    &&& match f.must_not {
        None => true,
        Some(cs) => forall|i: int| 0 <= i < cs@.len() ==> fast_cond_ok(index, #[trigger] cs@[i]),
    }
}

/// Operational meaning of the fast path on one condition: a field leaf is
/// decided on the values the key's first index variant stores for the
/// point (false when the key is unindexed); id and emptiness leaves are
/// decided exactly; a nested filter recurses.
pub open spec fn spec_fast_cond(index: StructPayloadIndex, c: Condition, id: int) -> bool
    decreases c,
{
    match c {
        Condition::Field(fc) => match index.field_indexes.spec_get(fc.key@) {
            Some(v) => v.len() > 0 && field_condition_matches(
                fc_view(fc),
                crate::field_index::stored_opt(v[0].data(), id),
            ),
            None => false,
        },
        Condition::IsEmpty(_) => condition_matches(index.storage.points@, c, id),
        Condition::HasId(_) => condition_matches(index.storage.points@, c, id),
        Condition::Filter(bf) => spec_fast_filter(index, *bf, id),
    }
}

/// Operational meaning of the fast path on a whole filter.
pub open spec fn spec_fast_filter(index: StructPayloadIndex, f: Filter, id: int) -> bool
    decreases f,
{
    &&& match f.should {
        None => true,
        Some(cs) => cs@.len() == 0 || exists|i: int|
            0 <= i < cs@.len() && spec_fast_cond(index, #[trigger] cs@[i], id),
    }
    &&& match f.must {
        None => true,
        Some(cs) => forall|i: int|
            0 <= i < cs@.len() ==> spec_fast_cond(index, #[trigger] cs@[i], id),
    }
    &&& match f.must_not {
        None => true,
        Some(cs) => forall|i: int|
            0 <= i < cs@.len() ==> !spec_fast_cond(index, #[trigger] cs@[i], id),
    }
}

/// Filtering keeps a sequence whole when the predicate accepts every
/// element.
pub proof fn lemma_filter_all<A>(s: Seq<A>, pred: spec_fn(A) -> bool)
    requires
        forall|i: int| 0 <= i < s.len() ==> pred(#[trigger] s[i]),
    ensures
        s.filter(pred) == s,
    decreases s.len(),
{
    reveal(Seq::filter);
    if s.len() == 0 {
        assert(s.filter(pred) =~= s);
    } else {
        assert forall|i: int| 0 <= i < s.drop_last().len() implies pred(
            #[trigger] s.drop_last()[i],
        ) by {
            assert(s.drop_last()[i] == s[i]);
        }
        lemma_filter_all(s.drop_last(), pred);
        assert(s.filter(pred) =~= s);
    }
}

/// Per-filter evaluator holding the planned estimation and the fallback
/// decision.
pub struct StructFilterContext<'a> {
    pub index: &'a StructPayloadIndex,
    pub filter: &'a Filter,
    pub fallback: bool,
    pub cardinality_estimation: CardinalityEstimation,
}

impl<'a> StructFilterContext<'a> {
    /// The held index and filter are well formed.
    pub open spec fn wf(self) -> bool {
        &&& self.index.wf()
        &&& filter_wf(*self.filter)
    }

    /// Builds the evaluator, deciding the fallback once from the
    /// estimation's primary clauses.
    pub fn new(
        index: &'a StructPayloadIndex,
        filter: &'a Filter,
        cardinality_estimation: CardinalityEstimation,
    ) -> (r: Self)
        requires
            index.wf(),
            filter_wf(*filter),
        ensures
            r.wf(),
            r.index == index,
            r.filter == filter,
            r.cardinality_estimation == cardinality_estimation,
            r.fallback == exists|j: int|
                0 <= j < r.cardinality_estimation.primary_clauses@.len()
                    && clause_forces_fallback(
                    #[trigger] r.cardinality_estimation.primary_clauses@[j],
                    index.field_indexes,
                ),
    {
        let fallback = check_fallback(
            &cardinality_estimation.primary_clauses,
            &index.field_indexes,
        );
        let ghost cl = cardinality_estimation.primary_clauses@;
        let r = StructFilterContext { index, filter, fallback, cardinality_estimation };
        proof {
            assert(r.cardinality_estimation.primary_clauses@ == cl);
            if fallback {
                let j = choose|j: int|
                    0 <= j < cl.len() && clause_forces_fallback(
                        #[trigger] cl[j],
                        index.field_indexes,
                    );
                assert(clause_forces_fallback(
                    r.cardinality_estimation.primary_clauses@[j],
                    index.field_indexes,
                ));
            }
        }
        r
    }

    /// The values the key's first index variant stores for the point, for
    /// index-only evaluation; `None` when the key is unindexed or the
    /// point lacked it.
    pub fn get_field_value(&self, field_name: &PayloadKeyType, point_id: PointOffsetType) -> (r:
        Option<&Vec<Value>>)
        requires
            self.index.wf(),
            point_id < self.index.storage.points@.len(),
        ensures
            match self.index.field_indexes.spec_get(field_name@) {
                None => r is None,
                Some(v) => v.len() > 0 && match stored_opt(v[0].data(), point_id as int) {
                    None => r is None,
                    Some(s) => r matches Some(vs) && vviews(vs@) == s,
                },
            },
    {
        let ghost points = self.index.storage.points@;
        match self.index.field_indexes.get(field_name) {
            None => None,
            Some(indexes) => {
                proof {
                    crate::payload_index::lemma_indexes_lookup_wf(
                        self.index.field_indexes.entries@,
                        points,
                        field_name@,
                    );
                    let v = self.index.field_indexes.spec_get(field_name@)->Some_0;
                    assert(v == indexes@);
                    assert(v[0].wf(points, field_name@));
                }
                indexes[0].get_values(point_id as usize)
            },
        }
    }

    /// Fast evaluation of one condition; exact whenever
    /// [`fast_cond_ok`] holds of it.
    fn fast_check_condition(&self, c: &Condition, point_id: PointOffsetType) -> (r: bool)
        requires
            self.index.wf(),
            condition_wf(*c),
            point_id < self.index.storage.points@.len(),
        ensures
            r == spec_fast_cond(*self.index, *c, point_id as int),
            fast_cond_ok(*self.index, *c) ==> r == condition_matches(
                self.index.storage.points@,
                *c,
                point_id as int,
            ),
        decreases *c,
    {
        let ghost points = self.index.storage.points@;
        match c {
            Condition::Field(fc) => {
                match self.get_field_value(&fc.key, point_id) {
                    None => {
                        proof {
                            if fast_cond_ok(*self.index, *c) {
                                let v = self.index.field_indexes.spec_get(fc.key@)->Some_0;
                                assert(v[0].wf(points, fc.key@)) by {
                                    crate::payload_index::lemma_indexes_lookup_wf(
                                        self.index.field_indexes.entries@,
                                        points,
                                        fc.key@,
                                    );
                                }
                                assert(stored_opt(v[0].data(), point_id as int)
                                    == crate::field_index::expected_opt(
                                    points,
                                    fc.key@,
                                    kind_pred(v[0].kind()),
                                    point_id as int,
                                ));
                                assert(points[point_id as int].payload.spec_value(
                                    fc.key@,
                                ) is None);
                            }
                        }
                        false
                    },
                    Some(vs) => {
                        proof {
                            lemma_fast_field_values(*self.index, *fc, point_id as int, vs@);
                        }
                        crate::checker::check_field_condition_values(fc, vs)
                    },
                }
            },
            Condition::Filter(bf) => self.fast_check_filter(bf, point_id),
            Condition::IsEmpty(_) => check_condition_point(&self.index.storage, c, point_id),
            Condition::HasId(_) => check_condition_point(&self.index.storage, c, point_id),
        }
    }

    /// Fast evaluation of a filter tree; exact whenever
    /// [`fast_filter_ok`] holds of it.
    #[verifier::loop_isolation(false)]
    fn fast_check_filter(&self, f: &Filter, point_id: PointOffsetType) -> (r: bool)
        requires
            self.index.wf(),
            filter_wf(*f),
            point_id < self.index.storage.points@.len(),
        ensures
            r == spec_fast_filter(*self.index, *f, point_id as int),
            fast_filter_ok(*self.index, *f) ==> r == filter_matches(
                self.index.storage.points@,
                *f,
                point_id as int,
            ),
        decreases *f,
    {
        let ghost points = self.index.storage.points@;
        let ghost ok = fast_filter_ok(*self.index, *f);
        let should_ok = match &f.should {
            None => true,
            Some(cs) => {
                if cs.len() == 0 {
                    true
                } else {
                    let mut any = false;
                    let mut i: usize = 0;
                    while i < cs.len()
                        invariant
                            i <= cs@.len(),
                            any == exists|j: int|
                                0 <= j < i && spec_fast_cond(
                                    *self.index,
                                    #[trigger] cs@[j],
                                    point_id as int,
                                ),
                            ok ==> (any == exists|j: int|
                                0 <= j < i && condition_matches(
                                    points,
                                    #[trigger] cs@[j],
                                    point_id as int,
                                )),
                        decreases cs@.len() - i,
                    {
                        if self.fast_check_condition(&cs[i], point_id) {
                            any = true;
                        } else {
                            proof {
                                if ok && condition_matches(points, cs@[i as int], point_id as int) {
                                    assert(fast_cond_ok(*self.index, cs@[i as int]));
                                    assert(false);
                                }
                            }
                        }
                        i += 1;
                    }
                    any
                }
            },
        };
        let must_ok = match &f.must {
            None => true,
            Some(cs) => {
                let mut all = true;
                let mut i: usize = 0;
                while i < cs.len()
                    invariant
                        i <= cs@.len(),
                        all == forall|j: int|
                            0 <= j < i ==> spec_fast_cond(
                                *self.index,
                                #[trigger] cs@[j],
                                point_id as int,
                            ),
                        ok ==> (all == forall|j: int|
                            0 <= j < i ==> condition_matches(
                                points,
                                #[trigger] cs@[j],
                                point_id as int,
                            )),
                    decreases cs@.len() - i,
                {
                    if !self.fast_check_condition(&cs[i], point_id) {
                        all = false;
                    }
                    i += 1;
                }
                all
            },
        };
        let must_not_ok = match &f.must_not {
            None => true,
            Some(cs) => {
                let mut none_match = true;
                let mut i: usize = 0;
                while i < cs.len()
                    invariant
                        i <= cs@.len(),
                        none_match == forall|j: int|
                            0 <= j < i ==> !spec_fast_cond(
                                *self.index,
                                #[trigger] cs@[j],
                                point_id as int,
                            ),
                        ok ==> (none_match == forall|j: int|
                            0 <= j < i ==> !condition_matches(
                                points,
                                #[trigger] cs@[j],
                                point_id as int,
                            )),
                    decreases cs@.len() - i,
                {
                    if self.fast_check_condition(&cs[i], point_id) {
                        none_match = false;
                    }
                    i += 1;
                }
                none_match
            },
        };
        should_ok && must_ok && must_not_ok
    }

    /// Per-point screening: the reference checker when `fallback` is set,
    /// index-only evaluation otherwise. Agrees with the reference
    /// semantics on the fallback path always, and on the fast path under
    /// [`fast_filter_ok`].
    pub fn check(&self, point_id: PointOffsetType) -> (r: bool)
        requires
            self.wf(),
            point_id < self.index.storage.points@.len(),
        ensures
            self.fallback ==> r == filter_matches(
                self.index.storage.points@,
                *self.filter,
                point_id as int,
            ),
            !self.fallback ==> r == spec_fast_filter(*self.index, *self.filter, point_id as int),
            (self.fallback || fast_filter_ok(*self.index, *self.filter)) ==> r == filter_matches(
                self.index.storage.points@,
                *self.filter,
                point_id as int,
            ),
    {
        if self.fallback {
            check_filter_point(&self.index.storage, self.filter, point_id)
        } else {
            self.fast_check_filter(self.filter, point_id)
        }
    }
}

/// Under type consistency, the first variant's stored values for a point
/// are exactly the payload's values, so a leaf decided on them is exact.
proof fn lemma_fast_field_values(
    index: StructPayloadIndex,
    fc: FieldCondition,
    id: int,
    vs: Seq<Value>,
)
    requires
        index.wf(),
        0 <= id < index.storage.points@.len(),
        match index.field_indexes.spec_get(fc.key@) {
            Some(v) => v.len() > 0 && stored_opt(v[0].data(), id) == Some(vviews(vs)),
            None => false,
        },
    ensures
        forall|j: int| 0 <= j < vs.len() ==> value_wf(#[trigger] vview(vs[j])),
        fast_cond_ok(index, Condition::Field(fc)) ==> field_condition_matches(
            fc_view(fc),
            Some(vviews(vs)),
        ) == field_condition_matches(
            fc_view(fc),
            index.storage.points@[id].payload.spec_value(fc.key@),
        ),
{
    let points = index.storage.points@;
    let v = index.field_indexes.spec_get(fc.key@)->Some_0;
    crate::payload_index::lemma_indexes_lookup_wf(index.field_indexes.entries@, points, fc.key@);
    assert(v[0].wf(points, fc.key@));
    let pred = kind_pred(v[0].kind());
    assert(stored_opt(v[0].data(), id) == crate::field_index::expected_opt(
        points,
        fc.key@,
        pred,
        id,
    ));
    let pv = points[id].payload.spec_value(fc.key@);
    assert(pv is Some);
    let vals = pv->Some_0;
    assert(vviews(vs) == vals.filter(pred));
    assert forall|j: int| 0 <= j < vs.len() implies value_wf(#[trigger] vview(vs[j])) by {
        assert(crate::field_index::stored_at(v[0].data(), id)[j] == vview(vs[j]));
    }
    if fast_cond_ok(index, Condition::Field(fc)) {
        assert(type_consistent_at(points, fc.key@, v[0].kind()));
        assert forall|j: int| 0 <= j < vals.len() implies pred(#[trigger] vals[j]) by {
            assert(points[id].payload.spec_value(fc.key@)->Some_0[j] == vals[j]);
        }
        lemma_filter_all(vals, pred);
        assert(vviews(vs) == vals);
    }
}


impl StructPayloadIndex {
    /// Builds the per-filter evaluator: estimates the filter and decides
    /// the fallback once.
    pub fn filter_context<'a>(&'a self, filter: &'a Filter) -> (r: StructFilterContext<'a>)
        requires
            self.wf(),
            filter_wf(*filter),
        ensures
            r.wf(),
            r.index == self,
            r.filter == filter,
            r.fallback == exists|j: int|
                0 <= j < r.cardinality_estimation.primary_clauses@.len()
                    && clause_forces_fallback(
                    #[trigger] r.cardinality_estimation.primary_clauses@[j],
                    self.field_indexes,
                ),
            crate::estimator::est_ok(
                r.cardinality_estimation,
                self.storage.points@,
                crate::payload_index::matching_id_set(self.storage.points@, *filter),
                self.storage.points@.len() as int,
            ),
    {
        let est = self.estimate_cardinality(filter);
        StructFilterContext::new(self, filter, est)
    }

    /// Flattens every variant's fat value clusters for one field: each
    /// block names at least `threshold` points sharing a match condition.
    pub fn payload_blocks(&self, field: &PayloadKeyType, threshold: usize) -> (r: Vec<
        crate::field_index::PayloadBlockCondition,
    >)
        requires
            self.wf(),
        ensures
            forall|i: int|
                0 <= i < r@.len() ==> {
                    &&& (#[trigger] r@[i]).cardinality >= threshold
                    &&& r@[i].condition.wf()
                    &&& crate::payload_index::field_id_set(
                        self.storage.points@,
                        r@[i].condition,
                    ).len() == r@[i].cardinality
                },
            match self.field_indexes.spec_get(field@) {
                Some(v) => forall|j: int, m: crate::types::ValueV|
                    0 <= j < v.len() && ((#[trigger] v[j]) is IntMapIndex || v[j] is KeywordIndex)
                        && crate::field_index::stored_somewhere(
                        v[j].data(),
                        self.storage.points@.len() as int,
                        m,
                    ) && #[trigger] crate::field_index::match_cluster_set(
                        self.storage.points@,
                        field@,
                        m,
                    ).len() >= threshold ==> exists|i: int|
                        0 <= i < r@.len() && fc_view((#[trigger] r@[i]).condition).match_value
                            == Some(m),
                None => r@.len() == 0,
            },
    {
        let ghost points = self.storage.points@;
        let mut out: Vec<crate::field_index::PayloadBlockCondition> = Vec::new();
        match self.field_indexes.get(field) {
            None => out,
            Some(indexes) => {
                proof {
                    crate::payload_index::lemma_indexes_lookup_wf(
                        self.field_indexes.entries@,
                        points,
                        field@,
                    );
                    let v = self.field_indexes.spec_get(field@)->Some_0;
                    assert(v == indexes@);
                    assert forall|j: int| 0 <= j < indexes@.len() implies (
                    #[trigger] indexes@[j]).wf(points, field@) by {
                        assert(v[j].wf(points, field@));
                    }
                }
                let mut i: usize = 0;
                while i < indexes.len()
                    invariant
                        self.wf(),
                        points == self.storage.points@,
                        i <= indexes@.len(),
                        forall|j: int| 0 <= j < indexes@.len() ==> (#[trigger] indexes@[j]).wf(
                            points,
                            field@,
                        ),
                        forall|t: int|
                            0 <= t < out@.len() ==> {
                                &&& (#[trigger] out@[t]).cardinality >= threshold
                                &&& out@[t].condition.wf()
                                &&& crate::payload_index::field_id_set(
                                    points,
                                    out@[t].condition,
                                ).len() == out@[t].cardinality
                            },
                        forall|j: int, m: crate::types::ValueV|
                            0 <= j < i && ((#[trigger] indexes@[j]) is IntMapIndex
                                || indexes@[j] is KeywordIndex)
                                && crate::field_index::stored_somewhere(
                                indexes@[j].data(),
                                points.len() as int,
                                m,
                            ) && #[trigger] crate::field_index::match_cluster_set(
                                points,
                                field@,
                                m,
                            ).len() >= threshold ==> exists|t: int|
                                0 <= t < out@.len() && fc_view(
                                    (#[trigger] out@[t]).condition,
                                ).match_value == Some(m),
                    decreases indexes@.len() - i,
                {
                    let mut blocks = indexes[i].payload_blocks(threshold, field, Ghost(points));
                    let ghost pre = out@;
                    let ghost extra = blocks@;
                    out.append(&mut blocks);
                    proof {
                        assert forall|t: int| 0 <= t < out@.len() implies {
                            &&& (#[trigger] out@[t]).cardinality >= threshold
                            &&& out@[t].condition.wf()
                            &&& crate::payload_index::field_id_set(
                                points,
                                out@[t].condition,
                            ).len() == out@[t].cardinality
                        } by {
                            if t < pre.len() {
                                assert(out@[t] == pre[t]);
                            } else {
                                assert(out@[t] == extra[t - pre.len()]);
                            }
                        }
                        assert forall|j: int, m: crate::types::ValueV|
                            0 <= j < i + 1 && ((#[trigger] indexes@[j]) is IntMapIndex
                                || indexes@[j] is KeywordIndex)
                                && crate::field_index::stored_somewhere(
                                indexes@[j].data(),
                                points.len() as int,
                                m,
                            ) && #[trigger] crate::field_index::match_cluster_set(
                                points,
                                field@,
                                m,
                            ).len() >= threshold implies exists|t: int|
                                0 <= t < out@.len() && fc_view(
                                    (#[trigger] out@[t]).condition,
                                ).match_value == Some(m) by {
                            if j < i {
                                let t = choose|t: int|
                                    0 <= t < pre.len() && fc_view(
                                        (#[trigger] pre[t]).condition,
                                    ).match_value == Some(m);
                                assert(out@[t] == pre[t]);
                            } else {
                                let t = choose|t: int|
                                    0 <= t < extra.len() && fc_view(
                                        (#[trigger] extra[t]).condition,
                                    ).match_value == Some(m);
                                assert(out@[pre.len() + t] == extra[t]);
                            }
                        }
                    }
                    i += 1;
                }
                proof {
                    let v = self.field_indexes.spec_get(field@)->Some_0;
                    assert(v == indexes@);
                }
                out
            },
        }
    }
}

} // verus!
