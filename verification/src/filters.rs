//! Filters: boolean trees of conditions over payload fields, and their
//! meaning as a predicate on points.
//!
//! The ghost function [`filter_matches`] is the reference semantics every
//! query-path contract speaks of: a point satisfies a filter exactly when
//! that predicate holds of its payload and external id.

use vstd::prelude::*;

use crate::types::{GeoPoint, PayloadKeyType, PointRecord, ValueV};

verus! {

/// Exact-match condition: the field must hold this keyword or number.
pub enum ValueMatch {
    Keyword(String),
    Number(i64),
}

/// Ghost view of a match condition as the value it requires.
pub open spec fn match_view(m: ValueMatch) -> ValueV {
    match m {
        ValueMatch::Keyword(s) => ValueV::Kw(s@),
        ValueMatch::Number(n) => ValueV::Num(n as int),
    }
}

impl ValueMatch {
    pub fn duplicate(&self) -> (r: ValueMatch)
        ensures
            match_view(r) == match_view(*self),
    {
        match self {
            ValueMatch::Keyword(s) => ValueMatch::Keyword(s.clone()),
            ValueMatch::Number(n) => ValueMatch::Number(*n),
        }
    }
}

/// Numeric range condition; every present bound must hold.
#[derive(Clone, Copy)]
pub struct RangeCondition {
    pub gt: Option<i64>,
    pub gte: Option<i64>,
    pub lt: Option<i64>,
    pub lte: Option<i64>,
}

/// Circle on the (micro-degree) coordinate plane; `radius` is in the same
/// coordinate units.
#[derive(Clone, Copy)]
pub struct GeoRadius {
    pub center: GeoPoint,
    pub radius: i64,
}

/// Axis-aligned coordinate box.
#[derive(Clone, Copy)]
pub struct GeoBoundingBox {
    pub top_left: GeoPoint,
    pub bottom_right: GeoPoint,
}

/// Bounds on how many values the field holds.
#[derive(Clone, Copy)]
pub struct ValuesCountCondition {
    pub gt: Option<usize>,
    pub gte: Option<usize>,
    pub lt: Option<usize>,
    pub lte: Option<usize>,
}

/// Leaf predicate over one payload field: the key plus at most one
/// configured sub-condition of each shape. The leaf holds when *any*
/// configured sub-condition accepts the stored values.
pub struct FieldCondition {
    pub key: PayloadKeyType,
    pub match_value: Option<ValueMatch>,
    pub range: Option<RangeCondition>,
    pub geo_radius: Option<GeoRadius>,
    pub geo_bounding_box: Option<GeoBoundingBox>,
    pub values_count: Option<ValuesCountCondition>,
}

/// Ghost view of a [`FieldCondition`] with content-level key and match.
pub struct FieldConditionV {
    pub key: Seq<char>,
    pub match_value: Option<ValueV>,
    pub range: Option<RangeCondition>,
    pub geo_radius: Option<GeoRadius>,
    pub geo_bounding_box: Option<GeoBoundingBox>,
    pub values_count: Option<ValuesCountCondition>,
}

/// Ghost view of a field condition.
pub open spec fn fc_view(fc: FieldCondition) -> FieldConditionV {
    FieldConditionV {
        key: fc.key@,
        match_value: match fc.match_value {
            Some(m) => Some(match_view(m)),
            None => None,
        },
        range: fc.range,
        geo_radius: fc.geo_radius,
        geo_bounding_box: fc.geo_bounding_box,
        values_count: fc.values_count,
    }
}

impl FieldCondition {
    /// Geo sub-conditions keep their coordinates on the globe.
    pub open spec fn wf(self) -> bool {
        &&& match self.geo_radius {
            Some(g) => g.center.wf(),
            None => true,
        }
        &&& match self.geo_bounding_box {
            Some(g) => g.top_left.wf() && g.bottom_right.wf(),
            None => true,
        }
    }

    /// Condition on `key` holding only an exact match.
    pub fn new_match(key: PayloadKeyType, m: ValueMatch) -> (r: FieldCondition)
        ensures
            fc_view(r) == (FieldConditionV {
                key: key@,
                match_value: Some(match_view(m)),
                range: None,
                geo_radius: None,
                geo_bounding_box: None,
                values_count: None,
            }),
            r.wf(),
    {
        FieldCondition {
            key,
            match_value: Some(m),
            range: None,
            geo_radius: None,
            geo_bounding_box: None,
            values_count: None,
        }
    }

    /// Condition on `key` holding only a numeric range.
    pub fn new_range(key: PayloadKeyType, range: RangeCondition) -> (r: FieldCondition)
        ensures
            fc_view(r) == (FieldConditionV {
                key: key@,
                match_value: None,
                range: Some(range),
                geo_radius: None,
                geo_bounding_box: None,
                values_count: None,
            }),
            r.wf(),
    {
        FieldCondition {
            key,
            match_value: None,
            range: Some(range),
            geo_radius: None,
            geo_bounding_box: None,
            values_count: None,
        }
    }

    /// Condition on `key` holding only a bounding box.
    pub fn new_geo_bounding_box(key: PayloadKeyType, gbb: GeoBoundingBox) -> (r: FieldCondition)
        requires
            gbb.top_left.wf(),
            gbb.bottom_right.wf(),
        ensures
            fc_view(r) == (FieldConditionV {
                key: key@,
                match_value: None,
                range: None,
                geo_radius: None,
                geo_bounding_box: Some(gbb),
                values_count: None,
            }),
            r.wf(),
    {
        FieldCondition {
            key,
            match_value: None,
            range: None,
            geo_radius: None,
            geo_bounding_box: Some(gbb),
            values_count: None,
        }
    }

    /// Condition on `key` holding only a geo radius.
    pub fn new_geo_radius(key: PayloadKeyType, gr: GeoRadius) -> (r: FieldCondition)
        requires
            gr.center.wf(),
        ensures
            fc_view(r) == (FieldConditionV {
                key: key@,
                match_value: None,
                range: None,
                geo_radius: Some(gr),
                geo_bounding_box: None,
                values_count: None,
            }),
            r.wf(),
    {
        FieldCondition {
            key,
            match_value: None,
            range: None,
            geo_radius: Some(gr),
            geo_bounding_box: None,
            values_count: None,
        }
    }

    /// Copy that provably preserves the condition's view.
    pub fn duplicate(&self) -> (r: FieldCondition)
        ensures
            fc_view(r) == fc_view(*self),
            r.wf() == self.wf(),
    {
        FieldCondition {
            key: self.key.clone(),
            match_value: match &self.match_value {
                Some(m) => Some(m.duplicate()),
                None => None,
            },
            range: self.range,
            geo_radius: self.geo_radius,
            geo_bounding_box: self.geo_bounding_box,
            values_count: self.values_count,
        }
    }
}

/// Condition that the field is absent or holds no values.
pub struct IsEmptyCondition {
    pub key: PayloadKeyType,
}

/// Condition that the point's external id is among the listed ids.
pub struct HasIdCondition {
    pub has_id: Vec<u64>,
}

/// One leaf or subtree of a filter.
pub enum Condition {
    Field(FieldCondition),
    IsEmpty(IsEmptyCondition),
    HasId(HasIdCondition),
    Filter(Box<Filter>),
}

/// Boolean tree over conditions. A point matches when it matches at least
/// one `should` clause (when that list is present and non-empty), every
/// `must` clause, and no `must_not` clause.
pub struct Filter {
    pub should: Option<Vec<Condition>>,
    pub must: Option<Vec<Condition>>,
    pub must_not: Option<Vec<Condition>>,
}

// ---------------------------------------------------------------------------
// Semantics of the sub-conditions on one value list
// ---------------------------------------------------------------------------

/// Does a stored value satisfy the match condition?
pub open spec fn value_matches(m: ValueV, v: ValueV) -> bool {
    v == m && !(m is GeoPt)
}

/// Does a stored value satisfy the range condition? Only numbers can.
pub open spec fn value_in_range(r: RangeCondition, v: ValueV) -> bool {
    match v {
        ValueV::Num(x) => {
            &&& match r.gt {
                Some(b) => x > b as int,
                None => true,
            }
            &&& match r.gte {
                Some(b) => x >= b as int,
                None => true,
            }
            &&& match r.lt {
                Some(b) => x < b as int,
                None => true,
            }
            &&& match r.lte {
                Some(b) => x <= b as int,
                None => true,
            }
        },
        _ => false,
    }
}

/// Squared coordinate distance, in ghost (unbounded) arithmetic.
pub open spec fn sq_dist(lat1: int, lon1: int, lat2: int, lon2: int) -> int {
    (lat1 - lat2) * (lat1 - lat2) + (lon1 - lon2) * (lon1 - lon2)
}

/// Does a stored geo value lie inside the radius?
pub open spec fn value_in_radius(g: GeoRadius, v: ValueV) -> bool {
    match v {
        ValueV::GeoPt(lat, lon) => sq_dist(lat, lon, g.center.lat as int, g.center.lon as int)
            <= (g.radius as int) * (g.radius as int),
        _ => false,
    }
}

/// Does a stored geo value lie inside the box?
pub open spec fn value_in_box(g: GeoBoundingBox, v: ValueV) -> bool {
    match v {
        ValueV::GeoPt(lat, lon) => {
            &&& g.bottom_right.lat as int <= lat <= g.top_left.lat as int
            &&& g.top_left.lon as int <= lon <= g.bottom_right.lon as int
        },
        _ => false,
    }
}

/// Does the number of stored values satisfy the count condition?
pub open spec fn count_matches(c: ValuesCountCondition, n: int) -> bool {
    &&& match c.gt {
        Some(b) => n > b as int,
        None => true,
    }
    &&& match c.gte {
        Some(b) => n >= b as int,
        None => true,
    }
    &&& match c.lt {
        Some(b) => n < b as int,
        None => true,
    }
    &&& match c.lte {
        Some(b) => n <= b as int,
        None => true,
    }
}

/// Does the configured match sub-condition (if any) accept the value?
pub open spec fn match_accepts(mv: Option<ValueV>, v: ValueV) -> bool {
    match mv {
        None => false,
        Some(m) => value_matches(m, v),
    }
}

/// Does the configured range sub-condition (if any) accept the value?
pub open spec fn range_accepts(rv: Option<RangeCondition>, v: ValueV) -> bool {
    match rv {
        None => false,
        Some(r) => value_in_range(r, v),
    }
}

/// Does the configured radius sub-condition (if any) accept the value?
pub open spec fn radius_accepts(gv: Option<GeoRadius>, v: ValueV) -> bool {
    match gv {
        None => false,
        Some(g) => value_in_radius(g, v),
    }
}

/// Does the configured box sub-condition (if any) accept the value?
pub open spec fn box_accepts(gv: Option<GeoBoundingBox>, v: ValueV) -> bool {
    match gv {
        None => false,
        Some(g) => value_in_box(g, v),
    }
}

/// Does the configured count sub-condition (if any) accept the count?
pub open spec fn count_clause(cv: Option<ValuesCountCondition>, n: int) -> bool {
    match cv {
        None => false,
        Some(c) => count_matches(c, n),
    }
}

/// Does any configured per-value sub-condition of the leaf accept this
/// value?
pub open spec fn leaf_accepts(fcv: FieldConditionV, v: ValueV) -> bool {
    ||| match_accepts(fcv.match_value, v)
    ||| range_accepts(fcv.range, v)
    ||| radius_accepts(fcv.geo_radius, v)
    ||| box_accepts(fcv.geo_bounding_box, v)
}

/// Leaf semantics over the values stored under the key (`None` when the key
/// is absent from the payload): true when any configured sub-condition
/// accepts the value list.
pub open spec fn field_condition_matches(fcv: FieldConditionV, ov: Option<Seq<ValueV>>) -> bool {
    match ov {
        None => false,
        Some(vals) => (exists|i: int|
            0 <= i < vals.len() && leaf_accepts(fcv, #[trigger] vals[i])) || count_clause(
            fcv.values_count,
            vals.len() as int,
        ),
    }
}

// ---------------------------------------------------------------------------
// Semantics of whole filters on a point
// ---------------------------------------------------------------------------

/// Is the field under `key` empty (absent, or present with no values) for
/// the point at `id`?
pub open spec fn is_empty_at(points: Seq<PointRecord>, key: Seq<char>, id: int) -> bool {
    match points[id].payload.spec_value(key) {
        None => true,
        Some(vals) => vals.len() == 0,
    }
}

/// Does the point at internal offset `id` satisfy the condition?
pub open spec fn condition_matches(points: Seq<PointRecord>, c: Condition, id: int) -> bool
    decreases c,
{
    match c {
        Condition::Field(fc) => field_condition_matches(
            fc_view(fc),
            points[id].payload.spec_value(fc.key@),
        ),
        Condition::IsEmpty(ie) => is_empty_at(points, ie.key@, id),
        Condition::HasId(h) => h.has_id@.contains(points[id].external_id),
        Condition::Filter(bf) => filter_matches(points, *bf, id),
    }
}

/// Does the point at internal offset `id` satisfy the filter?
pub open spec fn filter_matches(points: Seq<PointRecord>, f: Filter, id: int) -> bool
    decreases f,
{
    &&& match f.should {
        None => true,
        Some(cs) => cs@.len() == 0 || exists|i: int|
            0 <= i < cs@.len() && condition_matches(points, #[trigger] cs@[i], id),
    }
    &&& match f.must {
        None => true,
        Some(cs) => forall|i: int|
            0 <= i < cs@.len() ==> condition_matches(points, #[trigger] cs@[i], id),
    }
    &&& match f.must_not {
        None => true,
        Some(cs) => forall|i: int|
            0 <= i < cs@.len() ==> !condition_matches(points, #[trigger] cs@[i], id),
    }
}

/// The set of internal ids a filter selects.
pub open spec fn matching_id_set(points: Seq<PointRecord>, f: Filter) -> Set<int> {
    Set::new(|id: int| 0 <= id < points.len() && filter_matches(points, f, id))
}

/// The set of internal ids a single condition selects.
pub open spec fn condition_id_set(points: Seq<PointRecord>, c: Condition) -> Set<int> {
    Set::new(|id: int| 0 <= id < points.len() && condition_matches(points, c, id))
}

// ---------------------------------------------------------------------------
// Well-formedness of filters
// ---------------------------------------------------------------------------

/// Geo sub-conditions throughout the tree keep coordinates on the globe.
pub open spec fn condition_wf(c: Condition) -> bool
    decreases c,
{
    match c {
        Condition::Field(fc) => fc.wf(),
        Condition::IsEmpty(_) => true,
        Condition::HasId(_) => true,
        Condition::Filter(bf) => filter_wf(*bf),
    }
}

/// Every condition of the filter tree is well formed.
pub open spec fn filter_wf(f: Filter) -> bool
    decreases f,
{
    &&& match f.should {
        None => true,
        Some(cs) => forall|i: int| 0 <= i < cs@.len() ==> condition_wf(#[trigger] cs@[i]),
    }
    &&& match f.must {
        None => true,
        Some(cs) => forall|i: int| 0 <= i < cs@.len() ==> condition_wf(#[trigger] cs@[i]),
    }
    &&& match f.must_not {
        None => true,
        Some(cs) => forall|i: int| 0 <= i < cs@.len() ==> condition_wf(#[trigger] cs@[i]),
    }
}

impl Filter {
    /// Filter with a single `must` clause.
    pub fn new_must(c: Condition) -> (r: Filter)
        ensures
            r.must matches Some(cs) && cs@ =~= seq![c],
            r.should is None,
            r.must_not is None,
    {
        let mut v: Vec<Condition> = Vec::new();
        v.push(c);
        Filter { should: None, must: Some(v), must_not: None }
    }

    /// Filter with a single `should` list.
    pub fn new_should(cs: Vec<Condition>) -> (r: Filter)
        ensures
            r.should matches Some(inner) && inner@ == cs@,
            r.must is None,
            r.must_not is None,
    {
        Filter { should: Some(cs), must: None, must_not: None }
    }

    /// Filter with a single `must_not` clause.
    pub fn new_must_not(c: Condition) -> (r: Filter)
        ensures
            r.must_not matches Some(cs) && cs@ =~= seq![c],
            r.should is None,
            r.must is None,
    {
        let mut v: Vec<Condition> = Vec::new();
        v.push(c);
        Filter { should: None, must: None, must_not: Some(v) }
    }
}

/// Runtime check of [`condition_wf`], for callers that assemble filters
/// from unchecked input.
pub fn check_condition_wf(c: &Condition) -> (r: bool)
    ensures
        r == condition_wf(*c),
    decreases *c,
{
    match c {
        Condition::Field(fc) => {
            let rad_ok = match &fc.geo_radius {
                Some(g) => g.center.lat >= -90_000_000 && g.center.lat <= 90_000_000
                    && g.center.lon >= -180_000_000 && g.center.lon <= 180_000_000,
                None => true,
            };
            let box_ok = match &fc.geo_bounding_box {
                Some(g) => g.top_left.lat >= -90_000_000 && g.top_left.lat <= 90_000_000
                    && g.top_left.lon >= -180_000_000 && g.top_left.lon <= 180_000_000
                    && g.bottom_right.lat >= -90_000_000 && g.bottom_right.lat <= 90_000_000
                    && g.bottom_right.lon >= -180_000_000 && g.bottom_right.lon <= 180_000_000,
                None => true,
            };
            rad_ok && box_ok
        },
        Condition::IsEmpty(_) => true,
        Condition::HasId(_) => true,
        Condition::Filter(bf) => check_filter_wf(bf),
    }
}

/// Runtime check of [`filter_wf`].
#[verifier::loop_isolation(false)]
pub fn check_filter_wf(f: &Filter) -> (r: bool)
    ensures
        r == filter_wf(*f),
    decreases *f,
{
    let mut ok = true;
    match &f.should {
        None => {},
        Some(cs) => {
            let mut i: usize = 0;
            while i < cs.len()
                invariant
                    i <= cs@.len(),
                    ok == forall|j: int| 0 <= j < i ==> condition_wf(#[trigger] cs@[j]),
                decreases cs@.len() - i,
            {
                ok = ok && check_condition_wf(&cs[i]);
                i += 1;
            }
        },
    }
    match &f.must {
        None => {},
        Some(cs) => {
            let mut i: usize = 0;
            while i < cs.len()
                invariant
                    i <= cs@.len(),
                    ok == ((match f.should {
                        None => true,
                        Some(cs2) => forall|j: int|
                            0 <= j < cs2@.len() ==> condition_wf(#[trigger] cs2@[j]),
                    }) && forall|j: int| 0 <= j < i ==> condition_wf(#[trigger] cs@[j])),
                decreases cs@.len() - i,
            {
                ok = ok && check_condition_wf(&cs[i]);
                i += 1;
            }
        },
    }
    match &f.must_not {
        None => {},
        Some(cs) => {
            let mut i: usize = 0;
            while i < cs.len()
                invariant
                    i <= cs@.len(),
                    ok == ((match f.should {
                        None => true,
                        Some(cs2) => forall|j: int|
                            0 <= j < cs2@.len() ==> condition_wf(#[trigger] cs2@[j]),
                    }) && (match f.must {
                        None => true,
                        Some(cs2) => forall|j: int|
                            0 <= j < cs2@.len() ==> condition_wf(#[trigger] cs2@[j]),
                    }) && forall|j: int| 0 <= j < i ==> condition_wf(#[trigger] cs@[j])),
                decreases cs@.len() - i,
            {
                ok = ok && check_condition_wf(&cs[i]);
                i += 1;
            }
        },
    }
    ok
}

} // verus!
