//! Reference condition checker: evaluates a whole filter against one point
//! straight from the payload, with no index involved.
//!
//! This is the non-indexed evaluator the query path uses for final
//! verification and for full-scan fallback; its result is proved equal to
//! the ghost semantics [`filter_matches`].

use vstd::prelude::*;

use crate::filters::{
    condition_matches, condition_wf, count_matches, fc_view, field_condition_matches,
    filter_matches, filter_wf, leaf_accepts, match_view, value_in_box, value_in_radius,
    value_in_range, value_matches, Condition, FieldCondition, Filter, GeoBoundingBox, GeoRadius,
    RangeCondition, ValueMatch, ValuesCountCondition,
};
use crate::types::{
    entries_value, value_wf, vview, vviews, Payload, PointOffsetType, PointStorage, Value,
};

verus! {

/// The values an entry list stores under a key are well formed when every
/// stored value is.
pub proof fn lemma_entries_value_wf(entries: Seq<crate::types::PayloadEntry>, key: Seq<char>)
    requires
        forall|i: int, j: int|
            0 <= i < entries.len() && 0 <= j < entries[i].values@.len()
                ==> value_wf(#[trigger] vview(entries[i].values@[j])),
    ensures
        match entries_value(entries, key) {
            Some(vals) => forall|i: int| 0 <= i < vals.len() ==> value_wf(#[trigger] vals[i]),
            None => true,
        },
    decreases entries.len(),
{
    if entries.len() == 0 {
    } else if entries[0].key@ == key {
        assert forall|i: int| 0 <= i < entries[0].values@.len() implies value_wf(
            #[trigger] vviews(entries[0].values@)[i],
        ) by {
            assert(vviews(entries[0].values@)[i] == vview(entries[0].values@[i]));
        }
    } else {
        assert forall|i: int, j: int|
            0 <= i < entries.drop_first().len() && 0 <= j
                < entries.drop_first()[i].values@.len() implies value_wf(
            #[trigger] vview(entries.drop_first()[i].values@[j]),
        ) by {
            assert(entries.drop_first()[i] == entries[i + 1]);
        }
        lemma_entries_value_wf(entries.drop_first(), key);
    }
}

/// A well-formed payload stores only well-formed values under any key.
pub proof fn lemma_payload_value_wf(p: Payload, key: Seq<char>)
    requires
        p.wf(),
    ensures
        match p.spec_value(key) {
            Some(vals) => forall|i: int| 0 <= i < vals.len() ==> value_wf(#[trigger] vals[i]),
            None => true,
        },
{
    lemma_entries_value_wf(p.entries@, key);
}

/// Does one stored value satisfy the exact-match condition?
pub fn check_match(m: &ValueMatch, v: &Value) -> (r: bool)
    ensures
        r == value_matches(match_view(*m), vview(*v)),
{
    match (m, v) {
        (ValueMatch::Keyword(a), Value::Keyword(b)) => *a == *b,
        (ValueMatch::Number(a), Value::Number(b)) => *a == *b,
        _ => false,
    }
}

/// Does one stored value satisfy the range condition?
pub fn check_range_value(rc: &RangeCondition, v: &Value) -> (r: bool)
    ensures
        r == value_in_range(*rc, vview(*v)),
{
    match v {
        Value::Number(x) => {
            let gt_ok = match rc.gt {
                Some(b) => *x > b,
                None => true,
            };
            let gte_ok = match rc.gte {
                Some(b) => *x >= b,
                None => true,
            };
            let lt_ok = match rc.lt {
                Some(b) => *x < b,
                None => true,
            };
            let lte_ok = match rc.lte {
                Some(b) => *x <= b,
                None => true,
            };
            gt_ok && gte_ok && lt_ok && lte_ok
        },
        _ => false,
    }
}

/// Does one stored value lie inside the circle?
pub fn check_geo_radius(g: &GeoRadius, v: &Value) -> (r: bool)
    requires
        g.center.wf(),
        value_wf(vview(*v)),
    ensures
        r == value_in_radius(*g, vview(*v)),
{
    match v {
        Value::Geo(p) => {
            let dlat = p.lat - g.center.lat;
            let dlon = p.lon - g.center.lon;
            proof {
                assert(dlat * dlat <= 32_400_000_000_000_000 && dlat * dlat >= 0)
                    by (nonlinear_arith)
                    requires
                        -180_000_000 <= dlat <= 180_000_000,
                ;
                assert(dlon * dlon <= 129_600_000_000_000_000 && dlon * dlon >= 0)
                    by (nonlinear_arith)
                    requires
                        -360_000_000 <= dlon <= 360_000_000,
                ;
            }
            let d2 = dlat * dlat + dlon * dlon;
            // The greatest possible squared coordinate distance on the globe
            // is far below (10^9)^2, so a radius beyond 10^9 accepts every
            // point; clamping keeps the square inside `i64`.
            let rc: i64 = if g.radius > 1_000_000_000 {
                1_000_000_000
            } else if g.radius < -1_000_000_000 {
                -1_000_000_000
            } else {
                g.radius
            };
            proof {
                assert(rc * rc <= 1_000_000_000_000_000_000 && rc * rc >= 0)
                    by (nonlinear_arith)
                    requires
                        -1_000_000_000 <= rc <= 1_000_000_000,
                ;
            }
            let res = d2 <= rc * rc;
            proof {
                if g.radius > 1_000_000_000 || g.radius < -1_000_000_000 {
                    assert((g.radius as int) * (g.radius as int)
                        >= 1_000_000_000_000_000_000)
                        by (nonlinear_arith)
                        requires
                            g.radius > 1_000_000_000 || g.radius < -1_000_000_000,
                    ;
                    assert(rc * rc == 1_000_000_000_000_000_000)
                        by (nonlinear_arith)
                        requires
                            rc == 1_000_000_000 || rc == -1_000_000_000,
                    ;
                }
            }
            res
        },
        _ => false,
    }
}

/// Does one stored value lie inside the box?
pub fn check_geo_box(g: &GeoBoundingBox, v: &Value) -> (r: bool)
    ensures
        r == value_in_box(*g, vview(*v)),
{
    match v {
        Value::Geo(p) => g.bottom_right.lat <= p.lat && p.lat <= g.top_left.lat && g.top_left.lon
            <= p.lon && p.lon <= g.bottom_right.lon,
        _ => false,
    }
}

/// Does the stored value count satisfy the count condition?
pub fn check_values_count(c: &ValuesCountCondition, n: usize) -> (r: bool)
    ensures
        r == count_matches(*c, n as int),
{
    let gt_ok = match c.gt {
        Some(b) => n > b,
        None => true,
    };
    let gte_ok = match c.gte {
        Some(b) => n >= b,
        None => true,
    };
    let lt_ok = match c.lt {
        Some(b) => n < b,
        None => true,
    };
    let lte_ok = match c.lte {
        Some(b) => n <= b,
        None => true,
    };
    gt_ok && gte_ok && lt_ok && lte_ok
}

/// Does any stored value satisfy any configured sub-condition of the leaf?
#[verifier::loop_isolation(false)]
pub fn check_field_condition_values(fc: &FieldCondition, vals: &Vec<Value>) -> (r: bool)
    requires
        fc.wf(),
        forall|i: int| 0 <= i < vals@.len() ==> value_wf(#[trigger] vview(vals@[i])),
    ensures
        r == field_condition_matches(fc_view(*fc), Some(vviews(vals@))),
{
    proof {
        assert(forall|i: int|
            0 <= i < vals@.len() ==> #[trigger] vviews(vals@)[i] == vview(vals@[i]));
    }
    let mut found = false;
    let mut i: usize = 0;
    while i < vals.len()
        invariant
            i <= vals@.len(),
            found == exists|j: int|
                0 <= j < i && leaf_accepts(fc_view(*fc), #[trigger] vviews(vals@)[j]),
        decreases vals@.len() - i,
    {
        let v = &vals[i];
        let here = {
            let m_ok = match &fc.match_value {
                Some(m) => check_match(m, v),
                None => false,
            };
            let r_ok = match &fc.range {
                Some(rc) => check_range_value(rc, v),
                None => false,
            };
            let gr_ok = match &fc.geo_radius {
                Some(g) => check_geo_radius(g, v),
                None => false,
            };
            let gb_ok = match &fc.geo_bounding_box {
                Some(g) => check_geo_box(g, v),
                None => false,
            };
            m_ok || r_ok || gr_ok || gb_ok
        };
        proof {
            assert(vviews(vals@)[i as int] == vview(vals@[i as int]));
        }
        found = found || here;
        i += 1;
    }
    let count_ok = match &fc.values_count {
        Some(c) => check_values_count(c, vals.len()),
        None => false,
    };
    found || count_ok
}

/// Evaluates one condition against the point at internal offset `id`.
pub fn check_condition_point(storage: &PointStorage, c: &Condition, id: PointOffsetType) -> (r:
    bool)
    requires
        storage.wf(),
        condition_wf(*c),
        id < storage.points@.len(),
    ensures
        r == condition_matches(storage.points@, *c, id as int),
    decreases *c,
{
    match c {
        Condition::Field(fc) => {
            let p = &storage.points[id as usize];
            proof {
                lemma_payload_value_wf(p.payload, fc.key@);
            }
            match p.payload.get_value(&fc.key) {
                Some(vs) => {
                    proof {
                        let vals_g = p.payload.spec_value(fc.key@)->Some_0;
                        assert(vals_g == vviews(vs@));
                        assert forall|i: int| 0 <= i < vs@.len() implies value_wf(
                            #[trigger] vview(vs@[i]),
                        ) by {
                            assert(vview(vs@[i]) == vviews(vs@)[i]);
                            assert(value_wf(vals_g[i]));
                        }
                    }
                    check_field_condition_values(fc, vs)
                },
                None => false,
            }
        },
        Condition::IsEmpty(ie) => {
            let p = &storage.points[id as usize];
            match p.payload.get_value(&ie.key) {
                Some(vs) => vs.len() == 0,
                None => true,
            }
        },
        Condition::HasId(h) => {
            let ext = storage.points[id as usize].external_id;
            let mut i: usize = 0;
            let mut found = false;
            while i < h.has_id.len()
                invariant
                    i <= h.has_id@.len(),
                    found == exists|j: int| 0 <= j < i && h.has_id@[j] == ext,
                decreases h.has_id@.len() - i,
            {
                if h.has_id[i] == ext {
                    found = true;
                }
                i += 1;
            }
            proof {
                if found {
                    assert(h.has_id@.contains(ext));
                } else {
                    assert(!h.has_id@.contains(ext)) by {
                        if h.has_id@.contains(ext) {
                            let j = choose|j: int|
                                0 <= j < h.has_id@.len() && h.has_id@[j] == ext;
                        }
                    }
                }
            }
            found
        },
        Condition::Filter(bf) => check_filter_point(storage, bf, id),
    }
}

/// Reference evaluation of a whole filter against one point, straight from
/// the payload. This is the role the surrounding engine calls the
/// condition checker: the query path uses it for final verification and
/// for full-scan fallback.
#[verifier::loop_isolation(false)]
pub fn check_filter_point(storage: &PointStorage, f: &Filter, id: PointOffsetType) -> (r: bool)
    requires
        storage.wf(),
        filter_wf(*f),
        id < storage.points@.len(),
    ensures
        r == filter_matches(storage.points@, *f, id as int),
    decreases *f,
{
    let should_ok = match &f.should {
        None => true,
        Some(cs) => {
            if cs.len() == 0 {
                true
            } else {
                let mut any = false;
                let mut i: usize = 0;
                while i < cs.len()
                    invariant
                        i <= cs@.len(),
                        any == exists|j: int|
                            0 <= j < i && condition_matches(
                                storage.points@,
                                #[trigger] cs@[j],
                                id as int,
                            ),
                    decreases cs@.len() - i,
                {
                    if check_condition_point(storage, &cs[i], id) {
                        any = true;
                    }
                    i += 1;
                }
                any
            }
        },
    };
    let must_ok = match &f.must {
        None => true,
        Some(cs) => {
            let mut all = true;
            let mut i: usize = 0;
            while i < cs.len()
                invariant
                    i <= cs@.len(),
                    all == forall|j: int|
                        0 <= j < i ==> condition_matches(
                            storage.points@,
                            #[trigger] cs@[j],
                            id as int,
                        ),
                decreases cs@.len() - i,
            {
                if !check_condition_point(storage, &cs[i], id) {
                    all = false;
                }
                i += 1;
            }
            all
        },
    };
    let must_not_ok = match &f.must_not {
        None => true,
        Some(cs) => {
            let mut none_match = true;
            let mut i: usize = 0;
            while i < cs.len()
                invariant
                    i <= cs@.len(),
                    none_match == forall|j: int|
                        0 <= j < i ==> !condition_matches(
                            storage.points@,
                            #[trigger] cs@[j],
                            id as int,
                        ),
                decreases cs@.len() - i,
            {
                if check_condition_point(storage, &cs[i], id) {
                    none_match = false;
                }
                i += 1;
            }
            none_match
        },
    };
    should_ok && must_ok && must_not_ok
}

} // verus!
