//! Per-field secondary indexes: the capability contract and its variants.
//!
//! A field index stores, for every point, the values of one payload key
//! that have the variant's type. Each variant serves the condition shapes
//! it can answer exactly: ranges for the numeric range indexes, exact
//! matches for the map and keyword indexes, geo shapes for the geo index.
//! `filter` enumerates exactly the matching ids and `estimate_cardinality`
//! returns their exact count, both proved against the payload semantics.

use vstd::prelude::*;

use crate::filters::{
    fc_view, field_condition_matches, leaf_accepts, FieldCondition, FieldConditionV,
};
use crate::types::{
    value_wf, vview, vviews, PayloadKeyType, PointRecord, PointStorage, Value, ValueV,
};

verus! {

broadcast use vstd::seq_lib::group_filter_ensures;

/// The scalar type a variant stores.
#[derive(Clone, Copy, PartialEq, Eq, Structural, Debug)]
pub enum ValueKind {
    Num,
    Kw,
    Geo,
}

/// The ghost predicate selecting the values a kind keeps.
pub open spec fn kind_pred(k: ValueKind) -> spec_fn(ValueV) -> bool {
    match k {
        ValueKind::Num => |v: ValueV| v is Num,
        ValueKind::Kw => |v: ValueV| v is Kw,
        ValueKind::Geo => |v: ValueV| v is GeoPt,
    }
}

/// Does the value have the kind?
pub fn value_has_kind(k: ValueKind, v: &Value) -> (r: bool)
    ensures
        r == kind_pred(k)(vview(*v)),
{
    match (k, v) {
        (ValueKind::Num, Value::Number(_)) => true,
        (ValueKind::Kw, Value::Keyword(_)) => true,
        (ValueKind::Geo, Value::Geo(_)) => true,
        _ => false,
    }
}

/// Stored contents of one index variant: for every internal id, the values
/// of the indexed key that have the variant's kind, plus the number of
/// points that stored at least one value.
pub struct IndexData {
    pub point_values: Vec<Option<Vec<Value>>>,
    pub indexed_count: usize,
}

/// Ghost view of one optional stored value list.
pub open spec fn opt_views(o: Option<Vec<Value>>) -> Option<Seq<ValueV>> {
    match o {
        None => None,
        Some(v) => Some(vviews(v@)),
    }
}

/// Ghost: the values stored for point `p`, `None` when the payload lacked
/// the key at build time.
pub open spec fn stored_opt(d: IndexData, p: int) -> Option<Seq<ValueV>> {
    opt_views(d.point_values@[p])
}

/// Ghost: the values stored for point `p`, flattened (absent key gives an
/// empty list).
pub open spec fn stored_at(d: IndexData, p: int) -> Seq<ValueV> {
    match stored_opt(d, p) {
        None => Seq::<ValueV>::empty(),
        Some(s) => s,
    }
}

/// Ghost: what the index ought to store for point `p`: the payload values
/// under `key` that satisfy `pred`, keeping the key's absence.
pub open spec fn expected_opt(
    points: Seq<PointRecord>,
    key: Seq<char>,
    pred: spec_fn(ValueV) -> bool,
    p: int,
) -> Option<Seq<ValueV>> {
    match points[p].payload.spec_value(key) {
        None => None,
        Some(vals) => Some(vals.filter(pred)),
    }
}

/// Flattened form of [`expected_opt`].
pub open spec fn expected_stored(
    points: Seq<PointRecord>,
    key: Seq<char>,
    pred: spec_fn(ValueV) -> bool,
    p: int,
) -> Seq<ValueV> {
    match points[p].payload.spec_value(key) {
        None => Seq::<ValueV>::empty(),
        Some(vals) => vals.filter(pred),
    }
}

/// Ghost: the set of ids that stored at least one value.
pub open spec fn nonempty_id_set(d: IndexData, total: int) -> Set<int> {
    Set::new(|p: int| 0 <= p < total && stored_at(d, p).len() > 0)
}

/// Well-formedness of stored contents against the payload snapshot.
pub open spec fn data_wf(
    d: IndexData,
    points: Seq<PointRecord>,
    key: Seq<char>,
    pred: spec_fn(ValueV) -> bool,
) -> bool {
    &&& d.point_values@.len() == points.len()
    &&& forall|p: int|
        0 <= p < points.len() ==> stored_opt(d, p) == expected_opt(points, key, pred, p)
    &&& forall|p: int|
        0 <= p < points.len() ==> stored_at(d, p) == expected_stored(points, key, pred, p)
    &&& forall|p: int, j: int|
        0 <= p < points.len() && 0 <= j < stored_at(d, p).len()
            ==> value_wf(#[trigger] stored_at(d, p)[j])
    &&& d.indexed_count == nonempty_id_set(d, points.len() as int).len()
}

/// One physical index over one payload key.
pub enum FieldIndex {
    /// Ordered range queries over integers.
    IntIndex(IndexData),
    /// Exact-match queries over integers.
    IntMapIndex(IndexData),
    /// Exact-match queries over keywords.
    KeywordIndex(IndexData),
    /// Range queries over fixed-point numbers.
    FloatIndex(IndexData),
    /// Radius and bounding-box queries over geo points.
    GeoIndex(IndexData),
}

impl FieldIndex {
    /// The stored contents, whichever the variant.
    pub open spec fn data(self) -> IndexData {
        match self {
            FieldIndex::IntIndex(d) => d,
            FieldIndex::IntMapIndex(d) => d,
            FieldIndex::KeywordIndex(d) => d,
            FieldIndex::FloatIndex(d) => d,
            FieldIndex::GeoIndex(d) => d,
        }
    }

    /// The scalar kind the variant stores.
    pub open spec fn kind(self) -> ValueKind {
        match self {
            FieldIndex::IntIndex(_) => ValueKind::Num,
            FieldIndex::IntMapIndex(_) => ValueKind::Num,
            FieldIndex::KeywordIndex(_) => ValueKind::Kw,
            FieldIndex::FloatIndex(_) => ValueKind::Num,
            FieldIndex::GeoIndex(_) => ValueKind::Geo,
        }
    }

    /// Well-formedness against the payload snapshot under `key`.
    pub open spec fn wf(self, points: Seq<PointRecord>, key: Seq<char>) -> bool {
        data_wf(self.data(), points, key, kind_pred(self.kind()))
    }

    /// Can this variant answer this condition shape exactly?
    pub open spec fn spec_serves(self, fcv: FieldConditionV) -> bool {
        &&& fcv.values_count is None
        &&& match self {
            FieldIndex::IntIndex(_) | FieldIndex::FloatIndex(_) => {
                &&& fcv.range is Some
                &&& fcv.match_value is None
                &&& fcv.geo_radius is None
                &&& fcv.geo_bounding_box is None
            },
            FieldIndex::IntMapIndex(_) => {
                &&& fcv.match_value matches Some(m) && m is Num
                &&& fcv.range is None
                &&& fcv.geo_radius is None
                &&& fcv.geo_bounding_box is None
            },
            FieldIndex::KeywordIndex(_) => {
                &&& fcv.match_value matches Some(m) && m is Kw
                &&& fcv.range is None
                &&& fcv.geo_radius is None
                &&& fcv.geo_bounding_box is None
            },
            FieldIndex::GeoIndex(_) => {
                &&& fcv.match_value is None
                &&& fcv.range is None
                &&& (fcv.geo_radius is Some) != (fcv.geo_bounding_box is Some)
            },
        }
    }

    /// Runtime test of [`FieldIndex::spec_serves`].
    pub fn serves(&self, fc: &FieldCondition) -> (r: bool)
        ensures
            r == self.spec_serves(fc_view(*fc)),
    {
        let vc_none = fc.values_count.is_none();
        match self {
            FieldIndex::IntIndex(_) | FieldIndex::FloatIndex(_) => vc_none && fc.range.is_some()
                && fc.match_value.is_none() && fc.geo_radius.is_none()
                && fc.geo_bounding_box.is_none(),
            FieldIndex::IntMapIndex(_) => vc_none && (match &fc.match_value {
                Some(crate::filters::ValueMatch::Number(_)) => true,
                _ => false,
            }) && fc.range.is_none() && fc.geo_radius.is_none() && fc.geo_bounding_box.is_none(),
            FieldIndex::KeywordIndex(_) => vc_none && (match &fc.match_value {
                Some(crate::filters::ValueMatch::Keyword(_)) => true,
                _ => false,
            }) && fc.range.is_none() && fc.geo_radius.is_none() && fc.geo_bounding_box.is_none(),
            FieldIndex::GeoIndex(_) => vc_none && fc.match_value.is_none() && fc.range.is_none()
                && (fc.geo_radius.is_some() != fc.geo_bounding_box.is_some()),
        }
    }

    /// Number of points that had at least one value of this field (of this
    /// variant's kind) at build time.
    pub fn count_indexed_points(&self) -> (r: usize)
        ensures
            r == self.data().indexed_count,
    {
        match self {
            FieldIndex::IntIndex(d) => d.indexed_count,
            FieldIndex::IntMapIndex(d) => d.indexed_count,
            FieldIndex::KeywordIndex(d) => d.indexed_count,
            FieldIndex::FloatIndex(d) => d.indexed_count,
            FieldIndex::GeoIndex(d) => d.indexed_count,
        }
    }

    /// The stored values of point `p`, for index-only re-materialization;
    /// `None` when the payload lacked the key at build time.
    pub fn get_values(&self, p: usize) -> (r: Option<&Vec<Value>>)
        requires
            p < self.data().point_values@.len(),
        ensures
            match r {
                Some(v) => stored_opt(self.data(), p as int) == Some(vviews(v@)),
                None => stored_opt(self.data(), p as int) is None,
            },
    {
        let d = self.data_ref();
        match &d.point_values[p] {
            None => None,
            Some(v) => Some(v),
        }
    }
}

impl FieldIndex {
    /// Borrow of the stored contents.
    pub fn data_ref(&self) -> (r: &IndexData)
        ensures
            *r == self.data(),
    {
        match self {
            FieldIndex::IntIndex(d) => d,
            FieldIndex::IntMapIndex(d) => d,
            FieldIndex::KeywordIndex(d) => d,
            FieldIndex::FloatIndex(d) => d,
            FieldIndex::GeoIndex(d) => d,
        }
    }

    /// Id stream for a condition this variant serves: exactly the ids whose
    /// payload satisfies the leaf, in ascending order; `None` when the
    /// variant cannot serve the condition's shape.
    pub fn filter(
        &self,
        fc: &FieldCondition,
        Ghost(points): Ghost<Seq<PointRecord>>,
        Ghost(key): Ghost<Seq<char>>,
    ) -> (r: Option<Vec<u32>>)
        requires
            self.wf(points, key),
            points.len() < 0x1_0000_0000,
            fc.wf(),
            fc_view(*fc).key == key,
        ensures
            match r {
                Some(ids) => {
                    &&& ids@.no_duplicates()
                    &&& forall|k1: int, k2: int| 0 <= k1 < k2 < ids@.len() ==> ids@[k1] < ids@[k2]
                    &&& forall|k: int| 0 <= k < ids@.len() ==> (#[trigger] ids@[k]) < points.len()
                    &&& forall|id: u32|
                        ids@.contains(id) <==> (id < points.len() && field_condition_matches(
                            fc_view(*fc),
                            points[id as int].payload.spec_value(key),
                        ))
                },
                None => !self.spec_serves(fc_view(*fc)),
            },
            r is Some <==> self.spec_serves(fc_view(*fc)),
    {
        if self.serves(fc) {
            proof {
                assert forall|v: ValueV| leaf_accepts(fc_view(*fc), v) implies kind_pred(
                    self.kind(),
                )(v) by {
                    lemma_serves_accepts_kind(*self, fc_view(*fc), v);
                }
            }
            Some(
                self.data_ref().filter_ids(
                    fc,
                    Ghost(points),
                    Ghost(key),
                    Ghost(kind_pred(self.kind())),
                ),
            )
        } else {
            None
        }
    }

    /// Exact cardinality of a condition this variant serves, as an
    /// estimation whose primary clause is the condition itself; `None` when
    /// the variant cannot serve the shape.
    pub fn estimate_cardinality(
        &self,
        fc: &FieldCondition,
        Ghost(points): Ghost<Seq<PointRecord>>,
        Ghost(key): Ghost<Seq<char>>,
    ) -> (r: Option<crate::estimator::CardinalityEstimation>)
        requires
            self.wf(points, key),
            points.len() < 0x1_0000_0000,
            fc.wf(),
            fc_view(*fc).key == key,
        ensures
            match r {
                Some(est) => crate::estimator::est_ok(
                    est,
                    points,
                    crate::payload_index::field_id_set(points, *fc),
                    points.len() as int,
                ) && est.primary_clauses@.len() == 1 && est.min == est.max,
                None => !self.spec_serves(fc_view(*fc)),
            },
            r is Some <==> self.spec_serves(fc_view(*fc)),
    {
        match self.filter(fc, Ghost(points), Ghost(key)) {
            None => None,
            Some(ids) => {
                let n = ids.len();
                let ghost s = crate::payload_index::field_id_set(points, *fc);
                proof {
                    lemma_id_vec_set_len(ids@, s);
                    crate::estimator::lemma_id_set_card(s, points.len() as int);
                }
                let mut clauses: Vec<crate::estimator::PrimaryCondition> = Vec::new();
                let dup = fc.duplicate();
                clauses.push(crate::estimator::PrimaryCondition::Condition(dup));
                let est = crate::estimator::CardinalityEstimation {
                    primary_clauses: clauses,
                    min: n,
                    exp: n,
                    max: n,
                };
                proof {
                    assert forall|id: int| #[trigger] s.contains(id) implies exists|j: int|
                        0 <= j < est.primary_clauses@.len() && crate::estimator::clause_covers(
                            points,
                            #[trigger] est.primary_clauses@[j],
                            id,
                        ) by {
                        assert(fc_view(est.primary_clauses@[0]->Condition_0) == fc_view(*fc));
                        assert(crate::estimator::clause_covers(
                            points,
                            est.primary_clauses@[0],
                            id,
                        ));
                    }
                }
                Some(est)
            },
        }
    }
}

/// Filtering after a push keeps the prefix and appends the new element
/// when the predicate accepts it.
pub proof fn lemma_filter_push<A>(s: Seq<A>, pred: spec_fn(A) -> bool, x: A)
    ensures
        s.push(x).filter(pred) == (if pred(x) {
            s.filter(pred).push(x)
        } else {
            s.filter(pred)
        }),
{
    reveal_with_fuel(Seq::filter, 2);
    assert(s.push(x).drop_last() =~= s);
    assert(s.push(x).last() == x);
    assert(s.push(x).len() == s.len() + 1);
}

/// Every value a served condition can accept has the variant's kind.
pub proof fn lemma_serves_accepts_kind(idx: FieldIndex, fcv: FieldConditionV, v: ValueV)
    requires
        idx.spec_serves(fcv),
        leaf_accepts(fcv, v),
    ensures
        kind_pred(idx.kind())(v),
{
}

/// Membership after a push: the new element, or an old member.
pub proof fn lemma_push_contains<A>(s: Seq<A>, x: A, y: A)
    ensures
        s.push(x).contains(y) <==> (s.contains(y) || y == x),
{
    if s.push(x).contains(y) {
        let k = choose|k: int| 0 <= k < s.push(x).len() && s.push(x)[k] == y;
        if k < s.len() {
            assert(s[k] == y);
        }
    }
    if s.contains(y) {
        let k = choose|k: int| 0 <= k < s.len() && s[k] == y;
        assert(s.push(x)[k] == y);
    }
    assert(s.push(x)[s.len() as int] == x);
}

/// Elements of a filtered sequence come from the sequence it was taken of.
pub proof fn lemma_filter_subset<A>(s: Seq<A>, pred: spec_fn(A) -> bool)
    ensures
        forall|i: int|
            0 <= i < s.filter(pred).len() ==> s.contains(#[trigger] s.filter(pred)[i]),
    decreases s.len(),
{
    reveal(Seq::filter);
    if s.len() == 0 {
    } else {
        lemma_filter_subset(s.drop_last(), pred);
        assert forall|i: int| 0 <= i < s.filter(pred).len() implies s.contains(
            #[trigger] s.filter(pred)[i],
        ) by {
            let fs = s.filter(pred);
            let dfs = s.drop_last().filter(pred);
            if i < dfs.len() {
                assert(s.drop_last().contains(dfs[i]));
                let j = choose|j: int| 0 <= j < s.drop_last().len() && s.drop_last()[j] == dfs[i];
                assert(s[j] == dfs[i]);
            } else {
                assert(fs[i] == s.last());
            }
        }
    }
}

/// A leaf with no count clause holds of the payload values exactly when it
/// holds of the kind-filtered values the index stores.
pub proof fn lemma_leaf_equiv(
    fcv: FieldConditionV,
    ov: Option<Seq<ValueV>>,
    pred: spec_fn(ValueV) -> bool,
    sv: Seq<ValueV>,
)
    requires
        sv == (match ov {
            None => Seq::<ValueV>::empty(),
            Some(vals) => vals.filter(pred),
        }),
        fcv.values_count is None,
        forall|v: ValueV| leaf_accepts(fcv, v) ==> pred(v),
    ensures
        field_condition_matches(fcv, Some(sv)) == field_condition_matches(fcv, ov),
{
    match ov {
        None => {},
        Some(vals) => {
            lemma_filter_subset(vals, pred);
            if exists|i: int| 0 <= i < sv.len() && leaf_accepts(fcv, #[trigger] sv[i]) {
                let i = choose|i: int| 0 <= i < sv.len() && leaf_accepts(fcv, #[trigger] sv[i]);
                assert(vals.contains(sv[i]));
                let j = choose|j: int| 0 <= j < vals.len() && vals[j] == sv[i];
                assert(leaf_accepts(fcv, vals[j]));
            }
            if exists|i: int| 0 <= i < vals.len() && leaf_accepts(fcv, #[trigger] vals[i]) {
                let i = choose|i: int|
                    0 <= i < vals.len() && leaf_accepts(fcv, #[trigger] vals[i]);
                assert(pred(vals[i]));
                assert(vals.filter(pred).contains(vals[i]));
                let j = choose|j: int| 0 <= j < sv.len() && sv[j] == vals[i];
                assert(leaf_accepts(fcv, sv[j]));
            }
        },
    }
}

/// A sequence of distinct in-range ids and a set of integers with the same
/// membership have the same size.
pub proof fn lemma_id_vec_set_len(ids: Seq<u32>, s: Set<int>)
    requires
        ids.no_duplicates(),
        forall|id: u32| ids.contains(id) <==> s.contains(id as int),
        forall|x: int| s.contains(x) ==> 0 <= x < 0x1_0000_0000,
    ensures
        s.finite(),
        s.len() == ids.len(),
    decreases ids.len(),
{
    if ids.len() == 0 {
        assert forall|x: int| !s.contains(x) by {
            if s.contains(x) {
                assert(ids.contains(x as u32));
            }
        }
        assert(s =~= Set::<int>::empty());
    } else {
        let last = ids.last();
        let rest = ids.drop_last();
        let s2 = s.remove(last as int);
        assert(ids.contains(last));
        assert forall|id: u32| rest.contains(id) <==> s2.contains(id as int) by {
            if rest.contains(id) {
                let j = choose|j: int| 0 <= j < rest.len() && rest[j] == id;
                assert(ids[j] == id);
                assert(ids.contains(id));
                assert(id != last);
            }
            if s2.contains(id as int) {
                assert(s.contains(id as int));
                assert(ids.contains(id));
                let j = choose|j: int| 0 <= j < ids.len() && ids[j] == id;
                assert(id != last);
                assert(j < rest.len() && rest[j] == id);
                assert(rest.contains(id));
            }
        }
        lemma_id_vec_set_len(rest, s2);
        assert(s =~= s2.insert(last as int));
        assert(!s2.contains(last as int));
    }
}

impl IndexData {
    /// Ids whose stored values satisfy the (served) condition: exactly the
    /// ids the leaf selects in the payload, in ascending order.
    #[verifier::loop_isolation(false)]
    pub fn filter_ids(
        &self,
        fc: &FieldCondition,
        Ghost(points): Ghost<Seq<PointRecord>>,
        Ghost(key): Ghost<Seq<char>>,
        Ghost(pred): Ghost<spec_fn(ValueV) -> bool>,
    ) -> (r: Vec<u32>)
        requires
            data_wf(*self, points, key, pred),
            points.len() < 0x1_0000_0000,
            fc.wf(),
            fc_view(*fc).key == key,
            fc_view(*fc).values_count is None,
            forall|v: ValueV| leaf_accepts(fc_view(*fc), v) ==> pred(v),
        ensures
            r@.no_duplicates(),
            forall|k1: int, k2: int| 0 <= k1 < k2 < r@.len() ==> r@[k1] < r@[k2],
            forall|k: int| 0 <= k < r@.len() ==> (#[trigger] r@[k]) < points.len(),
            forall|id: u32|
                r@.contains(id) <==> (id < points.len() && field_condition_matches(
                    fc_view(*fc),
                    points[id as int].payload.spec_value(key),
                )),
    {
        let total = self.point_values.len();
        let mut out: Vec<u32> = Vec::new();
        let mut p: usize = 0;
        while p < total
            invariant
                p <= total,
                out@.no_duplicates(),
                forall|k1: int, k2: int| 0 <= k1 < k2 < out@.len() ==> out@[k1] < out@[k2],
                forall|k: int| 0 <= k < out@.len() ==> (#[trigger] out@[k]) < p,
                forall|id: u32|
                    out@.contains(id) <==> (id < p && field_condition_matches(
                        fc_view(*fc),
                        points[id as int].payload.spec_value(key),
                    )),
            decreases total - p,
        {
            let here = match &self.point_values[p] {
                None => false,
                Some(vals) => {
                    proof {
                        assert forall|j: int| 0 <= j < vals@.len() implies value_wf(
                            #[trigger] vview(vals@[j]),
                        ) by {
                            assert(stored_at(*self, p as int)[j] == vview(vals@[j]));
                        }
                    }
                    let h = crate::checker::check_field_condition_values(fc, vals);
                    proof {
                        lemma_leaf_equiv(
                            fc_view(*fc),
                            points[p as int].payload.spec_value(key),
                            pred,
                            stored_at(*self, p as int),
                        );
                    }
                    h
                },
            };
            let ghost old_out = out@;
            if here {
                proof {
                    assert(!out@.contains(p as u32));
                }
                out.push(p as u32);
            }
            proof {
                assert forall|id: u32|
                    out@.contains(id) <==> (id < p + 1 && field_condition_matches(
                        fc_view(*fc),
                        points[id as int].payload.spec_value(key),
                    )) by {
                    if here {
                        lemma_push_contains(old_out, p as u32, id);
                    }
                }
            }
            p += 1;
        }
        out
    }
}

/// Builds the stored contents for `key`, keeping values of `kind`.
#[verifier::loop_isolation(false)]
pub fn build_index_data(storage: &PointStorage, key: &PayloadKeyType, kind: ValueKind) -> (r:
    IndexData)
    requires
        storage.wf(),
    ensures
        data_wf(r, storage.points@, key@, kind_pred(kind)),
{
    let total = storage.points.len();
    let mut point_values: Vec<Option<Vec<Value>>> = Vec::new();
    let mut indexed_count: usize = 0;
    let ghost pred = kind_pred(kind);
    let mut p: usize = 0;
    proof {
        assert(Set::new(|q: int| 0 <= q < 0 && flat_len(point_values@[q]) > 0)
            =~= Set::<int>::empty());
    }
    while p < total
        invariant
            p <= total,
            point_values@.len() == p,
            forall|q: int|
                0 <= q < p ==> opt_views(#[trigger] point_values@[q]) == expected_opt(
                    storage.points@,
                    key@,
                    pred,
                    q,
                ),
            forall|q: int, j: int|
                0 <= q < p && 0 <= j < flat(point_values@[q]).len() ==> value_wf(
                    #[trigger] flat(point_values@[q])[j],
                ),
            indexed_count == Set::new(
                |q: int| 0 <= q < p && flat_len(point_values@[q]) > 0,
            ).len(),
            Set::new(|q: int| 0 <= q < p && flat_len(point_values@[q]) > 0).finite(),
            indexed_count <= p,
        decreases total - p,
    {
        let ghost old_set = Set::new(
            |q: int| 0 <= q < p && flat_len(point_values@[q]) > 0,
        );
        let entry: Option<Vec<Value>> = match storage.points[p].payload.get_value(key) {
            None => None,
            Some(vs) => {
                let mut kept: Vec<Value> = Vec::new();
                let ghost vals = vviews(vs@);
                let mut j: usize = 0;
                while j < vs.len()
                    invariant
                        j <= vs@.len(),
                        vviews(kept@) == vals.take(j as int).filter(pred),
                        forall|t: int|
                            0 <= t < kept@.len() ==> value_wf(#[trigger] vview(kept@[t])),
                    decreases vs@.len() - j,
                {
                    proof {
                        assert(vals.take(j as int + 1) =~= vals.take(j as int).push(
                            vals[j as int],
                        ));
                        lemma_filter_push(vals.take(j as int), pred, vals[j as int]);
                        assert(vals[j as int] == vview(vs@[j as int]));
                        lemma_payload_values_wf_here(storage.points@, key@, p as int, vals);
                    }
                    if value_has_kind(kind, &vs[j]) {
                        let ghost old_kept = vviews(kept@);
                        kept.push(vs[j].duplicate());
                        proof {
                            assert(vviews(kept@) =~= old_kept.push(vals[j as int]));
                        }
                    }
                    j += 1;
                }
                proof {
                    assert(vals.take(vs@.len() as int) =~= vals);
                }
                Some(kept)
            },
        };
        let nonempty = match &entry {
            None => false,
            Some(kept) => kept.len() > 0,
        };
        point_values.push(entry);
        if nonempty {
            indexed_count += 1;
        }
        proof {
            let new_set = Set::new(
                |q: int| 0 <= q < p + 1 && flat_len(point_values@[q]) > 0,
            );
            if nonempty {
                assert(new_set =~= old_set.insert(p as int));
                assert(!old_set.contains(p as int));
            } else {
                assert(new_set =~= old_set);
            }
        }
        p += 1;
    }
    let r = IndexData { point_values, indexed_count };
    proof {
        assert(nonempty_id_set(r, total as int) =~= Set::new(
            |q: int| 0 <= q < total && flat_len(r.point_values@[q]) > 0,
        ));
        assert forall|q: int| 0 <= q < storage.points@.len() implies stored_at(r, q)
            == expected_stored(storage.points@, key@, pred, q) by {
            assert(stored_opt(r, q) == expected_opt(storage.points@, key@, pred, q));
        }
        assert forall|q: int, j: int|
            0 <= q < storage.points@.len() && 0 <= j < stored_at(r, q).len() implies value_wf(
            #[trigger] stored_at(r, q)[j],
        ) by {
            assert(stored_at(r, q) == flat(r.point_values@[q]));
            assert(value_wf(flat(r.point_values@[q])[j]));
        }
    }
    r
}

/// Flattened view of one optional stored list.
pub open spec fn flat(o: Option<Vec<Value>>) -> Seq<ValueV> {
    match opt_views(o) {
        None => Seq::<ValueV>::empty(),
        Some(s) => s,
    }
}

/// Length of the flattened view.
pub open spec fn flat_len(o: Option<Vec<Value>>) -> int {
    flat(o).len() as int
}

/// Values of a well-formed storage's payload are well formed.
proof fn lemma_payload_values_wf_here(
    points: Seq<PointRecord>,
    key: Seq<char>,
    p: int,
    vals: Seq<ValueV>,
)
    requires
        0 <= p < points.len(),
        points[p].payload.wf(),
        points[p].payload.spec_value(key) == Some(vals),
    ensures
        forall|i: int| 0 <= i < vals.len() ==> value_wf(#[trigger] vals[i]),
{
    crate::checker::lemma_payload_value_wf(points[p].payload, key);
    assert(points[p].payload.spec_value(key)->Some_0 == vals);
    assert forall|i: int| 0 <= i < vals.len() implies value_wf(#[trigger] vals[i]) by {
        assert(value_wf(points[p].payload.spec_value(key)->Some_0[i]));
    }
}

/// The variant shapes a declared schema type yields, in build order:
/// Integer fields get a range index and an exact-match map index; Float,
/// Keyword and Geo fields get their single variant.
pub open spec fn variants_for_schema(
    schema: crate::types::PayloadSchemaType,
    v: Seq<FieldIndex>,
) -> bool {
    match schema {
        crate::types::PayloadSchemaType::Integer => v.len() == 2 && v[0] is IntIndex
            && v[1] is IntMapIndex,
        crate::types::PayloadSchemaType::Float => v.len() == 1 && v[0] is FloatIndex,
        crate::types::PayloadSchemaType::Keyword => v.len() == 1 && v[0] is KeywordIndex,
        crate::types::PayloadSchemaType::Geo => v.len() == 1 && v[0] is GeoIndex,
    }
}

/// Does the built variant carry the tag's shape?
pub open spec fn kind_matches(k: FieldIndexKind, fi: FieldIndex) -> bool {
    match k {
        FieldIndexKind::Int => fi is IntIndex,
        FieldIndexKind::IntMap => fi is IntMapIndex,
        FieldIndexKind::Keyword => fi is KeywordIndex,
        FieldIndexKind::Float => fi is FloatIndex,
        FieldIndexKind::Geo => fi is GeoIndex,
    }
}

/// The ordered variant kinds built for a declared schema type: the order
/// fixes which variant wins ties during planning.
pub fn index_selector(schema: &crate::types::PayloadSchemaType) -> (r: Vec<FieldIndexKind>)
    ensures
        match *schema {
            crate::types::PayloadSchemaType::Integer => r@ =~= seq![
                FieldIndexKind::Int,
                FieldIndexKind::IntMap,
            ],
            crate::types::PayloadSchemaType::Float => r@ =~= seq![FieldIndexKind::Float],
            crate::types::PayloadSchemaType::Keyword => r@ =~= seq![FieldIndexKind::Keyword],
            crate::types::PayloadSchemaType::Geo => r@ =~= seq![FieldIndexKind::Geo],
        },
{
    let mut v: Vec<FieldIndexKind> = Vec::new();
    match schema {
        crate::types::PayloadSchemaType::Integer => {
            v.push(FieldIndexKind::Int);
            v.push(FieldIndexKind::IntMap);
        },
        crate::types::PayloadSchemaType::Float => {
            v.push(FieldIndexKind::Float);
        },
        crate::types::PayloadSchemaType::Keyword => {
            v.push(FieldIndexKind::Keyword);
        },
        crate::types::PayloadSchemaType::Geo => {
            v.push(FieldIndexKind::Geo);
        },
    }
    v
}

/// Tag naming one variant, used when building.
#[derive(Clone, Copy, PartialEq, Eq, Structural, Debug)]
pub enum FieldIndexKind {
    Int,
    IntMap,
    Keyword,
    Float,
    Geo,
}

/// Builds one variant of the given kind for `key`.
pub fn build_variant(
    storage: &PointStorage,
    key: &PayloadKeyType,
    kind: FieldIndexKind,
) -> (r: FieldIndex)
    requires
        storage.wf(),
    ensures
        r.wf(storage.points@, key@),
        kind_matches(kind, r),
{
    match kind {
        FieldIndexKind::Int => FieldIndex::IntIndex(
            build_index_data(storage, key, ValueKind::Num),
        ),
        FieldIndexKind::IntMap => FieldIndex::IntMapIndex(
            build_index_data(storage, key, ValueKind::Num),
        ),
        FieldIndexKind::Keyword => FieldIndex::KeywordIndex(
            build_index_data(storage, key, ValueKind::Kw),
        ),
        FieldIndexKind::Float => FieldIndex::FloatIndex(
            build_index_data(storage, key, ValueKind::Num),
        ),
        FieldIndexKind::Geo => FieldIndex::GeoIndex(
            build_index_data(storage, key, ValueKind::Geo),
        ),
    }
}


/// Are two stored values equal in content?
pub fn value_eq(a: &Value, b: &Value) -> (r: bool)
    ensures
        r == (vview(*a) == vview(*b)),
{
    match (a, b) {
        (Value::Number(x), Value::Number(y)) => *x == *y,
        (Value::Keyword(x), Value::Keyword(y)) => *x == *y,
        (Value::Geo(x), Value::Geo(y)) => x.lat == y.lat && x.lon == y.lon,
        _ => false,
    }
}

/// Does the list hold a value with this content?
pub fn contains_value(vs: &Vec<Value>, x: &Value) -> (r: bool)
    ensures
        r == exists|i: int| 0 <= i < vs@.len() && vview(vs@[i]) == vview(*x),
{
    let mut i: usize = 0;
    while i < vs.len()
        invariant
            i <= vs@.len(),
            forall|j: int| 0 <= j < i ==> vview(vs@[j]) != vview(*x),
        decreases vs@.len() - i,
    {
        if value_eq(&vs[i], x) {
            return true;
        }
        i += 1;
    }
    false
}

/// A value some point stores in a well-formed index has the variant's
/// kind, and for the exact-match variants the match condition on it is
/// served.
proof fn lemma_stored_value_has_kind(
    idx: FieldIndex,
    points: Seq<PointRecord>,
    key: Seq<char>,
    m: ValueV,
)
    requires
        idx.wf(points, key),
        stored_somewhere(idx.data(), points.len() as int, m),
    ensures
        kind_pred(idx.kind())(m),
        idx is IntMapIndex ==> m is Num && idx.spec_serves(match_only_view(key, m)),
        idx is KeywordIndex ==> m is Kw && idx.spec_serves(match_only_view(key, m)),
{
    broadcast use vstd::seq_lib::group_filter_ensures;

    let d = idx.data();
    let pred = kind_pred(idx.kind());
    let (p, t) = choose|p: int, t: int|
        0 <= p < points.len() && 0 <= t < stored_at(d, p).len() && #[trigger] stored_at(d, p)[t]
            == m;
    assert(stored_at(d, p) == expected_stored(points, key, pred, p));
    match points[p].payload.spec_value(key) {
        None => {
            assert(stored_at(d, p).len() == 0);
        },
        Some(vals) => {
            assert(pred(vals.filter(pred)[t]));
        },
    }
}

/// The view of a pure exact-match condition on `key`.
pub open spec fn match_only_view(key: Seq<char>, m: ValueV) -> FieldConditionV {
    FieldConditionV {
        key,
        match_value: Some(m),
        range: None,
        geo_radius: None,
        geo_bounding_box: None,
        values_count: None,
    }
}

/// The ids whose payload under `key` holds the value `m`.
pub open spec fn match_cluster_set(points: Seq<PointRecord>, key: Seq<char>, m: ValueV) -> Set<
    int,
> {
    Set::new(
        |id: int|
            0 <= id < points.len() && field_condition_matches(
                match_only_view(key, m),
                points[id].payload.spec_value(key),
            ),
    )
}

/// Does any point store the value `m` in this index?
pub open spec fn stored_somewhere(d: IndexData, total: int, m: ValueV) -> bool {
    exists|p: int, t: int|
        0 <= p < total && 0 <= t < stored_at(d, p).len() && #[trigger] stored_at(d, p)[t] == m
}

/// A group of at least `threshold` points sharing one sub-condition, used
/// by the segment-split planner.
pub struct PayloadBlockCondition {
    pub condition: FieldCondition,
    pub cardinality: usize,
}

impl FieldIndex {
    /// Enumerates fat value clusters: for the exact-match variants, each
    /// distinct stored value matched by at least `threshold` points, as a
    /// match condition with its exact cardinality. The range and geo
    /// variants enumerate no blocks.
    #[verifier::loop_isolation(false)]
    pub fn payload_blocks(
        &self,
        threshold: usize,
        field: &PayloadKeyType,
        Ghost(points): Ghost<Seq<PointRecord>>,
    ) -> (r: Vec<PayloadBlockCondition>)
        requires
            self.wf(points, field@),
            points.len() < 0x1_0000_0000,
        ensures
            forall|i: int|
                0 <= i < r@.len() ==> {
                    &&& (#[trigger] r@[i]).cardinality >= threshold
                    &&& r@[i].condition.wf()
                    &&& fc_view(r@[i].condition).key == field@
                    &&& crate::payload_index::field_id_set(points, r@[i].condition).len()
                        == r@[i].cardinality
                },
            (self is IntMapIndex || self is KeywordIndex) ==> forall|m: ValueV|
                stored_somewhere(self.data(), points.len() as int, m)
                    && #[trigger] match_cluster_set(points, field@, m).len() >= threshold
                    ==> exists|i: int|
                    0 <= i < r@.len() && fc_view((#[trigger] r@[i]).condition).match_value
                        == Some(m),
    {
        let mut out: Vec<PayloadBlockCondition> = Vec::new();
        let is_map = match self {
            FieldIndex::IntMapIndex(_) => true,
            FieldIndex::KeywordIndex(_) => false,
            _ => {
                return out;
            },
        };
        let d = self.data_ref();
        let mut seen: Vec<Value> = Vec::new();
        let mut p: usize = 0;
        while p < d.point_values.len()
            invariant
                d == self.data(),
                p <= d.point_values@.len(),
                forall|u: int|
                    0 <= u < seen@.len() ==> stored_somewhere(
                        self.data(),
                        points.len() as int,
                        vview(#[trigger] seen@[u]),
                    ),
                forall|q: int, t: int|
                    0 <= q < p && 0 <= t < stored_at(self.data(), q).len() ==> exists|u: int|
                        0 <= u < seen@.len() && vview(seen@[u]) == #[trigger] stored_at(
                            self.data(),
                            q,
                        )[t],
            decreases d.point_values@.len() - p,
        {
            match &d.point_values[p] {
                None => {
                    proof {
                        assert(stored_at(self.data(), p as int).len() == 0);
                    }
                },
                Some(vals) => {
                    proof {
                        assert(stored_at(self.data(), p as int) == vviews(vals@));
                    }
                    let mut j: usize = 0;
                    while j < vals.len()
                        invariant
                            j <= vals@.len(),
                            stored_at(self.data(), p as int) == vviews(vals@),
                            forall|u: int|
                                0 <= u < seen@.len() ==> stored_somewhere(
                                    self.data(),
                                    points.len() as int,
                                    vview(#[trigger] seen@[u]),
                                ),
                            forall|q: int, t: int|
                                0 <= q < p && 0 <= t < stored_at(self.data(), q).len()
                                    ==> exists|u: int|
                                    0 <= u < seen@.len() && vview(seen@[u])
                                        == #[trigger] stored_at(self.data(), q)[t],
                            forall|t: int|
                                0 <= t < j ==> exists|u: int|
                                    0 <= u < seen@.len() && vview(seen@[u])
                                        == #[trigger] stored_at(self.data(), p as int)[t],
                        decreases vals@.len() - j,
                    {
                        proof {
                            assert(stored_at(self.data(), p as int)[j as int] == vview(
                                vals@[j as int],
                            ));
                        }
                        let ghost old_seen = seen@;
                        let found = contains_value(&seen, &vals[j]);
                        if !found {
                            seen.push(vals[j].duplicate());
                            proof {
                                let u = seen@.len() - 1;
                                assert(vview(seen@[u]) == vview(vals@[j as int]));
                                assert(stored_somewhere(
                                    self.data(),
                                    points.len() as int,
                                    vview(seen@[u]),
                                )) by {
                                    assert(stored_at(self.data(), p as int)[j as int] == vview(
                                        seen@[u],
                                    ));
                                }
                            }
                        }
                        proof {
                            assert forall|q: int, t: int|
                                0 <= q < p && 0 <= t < stored_at(self.data(), q).len()
                                    implies exists|u: int|
                                    0 <= u < seen@.len() && vview(seen@[u]) == #[trigger] stored_at(
                                        self.data(),
                                        q,
                                    )[t] by {
                                let u = choose|u: int|
                                    0 <= u < old_seen.len() && vview(old_seen[u]) == stored_at(
                                        self.data(),
                                        q,
                                    )[t];
                                assert(seen@[u] == old_seen[u]);
                            }
                            assert forall|t: int| 0 <= t < j + 1 implies exists|u: int|
                                0 <= u < seen@.len() && vview(seen@[u]) == #[trigger] stored_at(
                                    self.data(),
                                    p as int,
                                )[t] by {
                                if t < j {
                                    let u = choose|u: int|
                                        0 <= u < old_seen.len() && vview(old_seen[u])
                                            == stored_at(self.data(), p as int)[t];
                                    assert(seen@[u] == old_seen[u]);
                                } else if found {
                                    let u = choose|u: int|
                                        0 <= u < old_seen.len() && vview(old_seen[u]) == vview(
                                            vals@[j as int],
                                        );
                                    assert(seen@[u] == old_seen[u]);
                                } else {
                                    assert(vview(seen@[seen@.len() - 1]) == stored_at(
                                        self.data(),
                                        p as int,
                                    )[t]);
                                }
                            }
                        }
                        j += 1;
                    }
                },
            }
            p += 1;
        }
        let ghost total = points.len() as int;
        let mut k: usize = 0;
        while k < seen.len()
            invariant
                self.wf(points, field@),
                points.len() < 0x1_0000_0000,
                total == points.len() as int,
                k <= seen@.len(),
                is_map == (self is IntMapIndex),
                !is_map ==> self is KeywordIndex,
                forall|u: int|
                    0 <= u < seen@.len() ==> stored_somewhere(
                        self.data(),
                        total,
                        vview(#[trigger] seen@[u]),
                    ),
                forall|i: int|
                    0 <= i < out@.len() ==> {
                        &&& (#[trigger] out@[i]).cardinality >= threshold
                        &&& out@[i].condition.wf()
                        &&& fc_view(out@[i].condition).key == field@
                        &&& crate::payload_index::field_id_set(points, out@[i].condition).len()
                            == out@[i].cardinality
                    },
                forall|u: int|
                    0 <= u < k && match_cluster_set(points, field@, vview(#[trigger] seen@[u])).len()
                        >= threshold ==> exists|i: int|
                        0 <= i < out@.len() && fc_view((#[trigger] out@[i]).condition).match_value
                            == Some(vview(seen@[u])),
            decreases seen@.len() - k,
        {
            let ghost m_k = vview(seen@[k as int]);
            proof {
                lemma_stored_value_has_kind(*self, points, field@, m_k);
            }
            let mv = match (&seen[k], is_map) {
                (Value::Number(n), true) => Some(crate::filters::ValueMatch::Number(*n)),
                (Value::Keyword(s), false) => Some(crate::filters::ValueMatch::Keyword(s.clone())),
                _ => None,
            };
            match mv {
                None => {
                    // Unreachable: every gathered value was stored by this
                    // variant, so it has the variant's kind and one of the
                    // arms above matched.
                    proof {
                        assert(false);
                    }
                },
                Some(m) => {
                    let fc = FieldCondition::new_match(field.clone(), m);
                    proof {
                        assert(fc_view(fc) == match_only_view(field@, m_k));
                        assert(crate::payload_index::field_id_set(points, fc)
                            =~= match_cluster_set(points, field@, m_k));
                    }
                    let ghost old_out = out@;
                    match self.estimate_cardinality(&fc, Ghost(points), Ghost(field@)) {
                        None => {
                            // Unreachable: the exact-match variants serve a
                            // pure match condition on a value of their kind.
                            proof {
                                assert(self.spec_serves(fc_view(fc)));
                                assert(false);
                            }
                        },
                        Some(est) => {
                            if est.min >= threshold {
                                let n = est.min;
                                proof {
                                    let s = crate::payload_index::field_id_set(points, fc);
                                    assert(s.len() == n);
                                }
                                out.push(PayloadBlockCondition { condition: fc, cardinality: n });
                            }
                            proof {
                                assert forall|u: int|
                                    0 <= u < k + 1 && match_cluster_set(
                                        points,
                                        field@,
                                        vview(#[trigger] seen@[u]),
                                    ).len() >= threshold implies exists|i: int|
                                    0 <= i < out@.len() && fc_view(
                                        (#[trigger] out@[i]).condition,
                                    ).match_value == Some(vview(seen@[u])) by {
                                    if u < k {
                                        let i = choose|i: int|
                                            0 <= i < old_out.len() && fc_view(
                                                (#[trigger] old_out[i]).condition,
                                            ).match_value == Some(vview(seen@[u]));
                                        assert(out@[i] == old_out[i]);
                                    } else {
                                        assert(out@[out@.len() - 1].condition == fc);
                                    }
                                }
                            }
                        },
                    }
                },
            }
            k += 1;
        }
        proof {
            assert forall|m: ValueV|
                stored_somewhere(self.data(), total, m) && #[trigger] match_cluster_set(
                    points,
                    field@,
                    m,
                ).len() >= threshold implies exists|i: int|
                0 <= i < out@.len() && fc_view((#[trigger] out@[i]).condition).match_value == Some(
                    m,
                ) by {
                let (pw, tw) = choose|pw: int, tw: int|
                    0 <= pw < total && 0 <= tw < stored_at(self.data(), pw).len()
                        && #[trigger] stored_at(self.data(), pw)[tw] == m;
                assert(0 <= pw < self.data().point_values@.len());
                let u = choose|u: int|
                    0 <= u < seen@.len() && vview(seen@[u]) == stored_at(self.data(), pw)[tw];
            }
        }
        out
    }
}

} // verus!
