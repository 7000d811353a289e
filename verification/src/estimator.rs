//! Cardinality estimation: sound `(min, exp, max)` bounds on the number of
//! points a filter selects, together with the primary clauses that can
//! drive index probes.
//!
//! The combinators mirror boolean algebra on intervals: intersection for
//! `must`, union for `should`, complement for `must_not`. Soundness of the
//! bounds and coverage of the primary clauses are proved against the ghost
//! id sets of the filter semantics.

use vstd::prelude::*;
use vstd::set_lib::{lemma_int_range, lemma_len_intersect, lemma_len_subset, lemma_len_union,
    lemma_set_disjoint_lens, set_int_range};

use crate::filters::{fc_view, field_condition_matches, FieldCondition, IsEmptyCondition};
use crate::types::{PointOffsetType, PointRecord};

verus! {

/// A leaf clause the executor can drive an index probe from.
pub enum PrimaryCondition {
    /// A field condition some index variant serves.
    Condition(FieldCondition),
    /// A set of internal ids resolved from an id condition.
    Ids(Vec<PointOffsetType>),
    /// An emptiness test; it has no fast index and scans.
    IsEmpty(IsEmptyCondition),
}

/// Sound bounds on a filter's result size. `primary_clauses` empty means
/// "no usable index: scan".
pub struct CardinalityEstimation {
    pub primary_clauses: Vec<PrimaryCondition>,
    pub min: usize,
    pub exp: usize,
    pub max: usize,
}

/// The ids a primary clause's probe stream is guaranteed to include
/// (an `IsEmpty` clause scans, so it covers everything).
pub open spec fn clause_covers(points: Seq<PointRecord>, pc: PrimaryCondition, id: int) -> bool {
    match pc {
        PrimaryCondition::Condition(fc) => field_condition_matches(
            fc_view(fc),
            points[id].payload.spec_value(fc.key@),
        ),
        PrimaryCondition::Ids(v) => exists|k: int| 0 <= k < v@.len() && v@[k] == id,
        PrimaryCondition::IsEmpty(_) => true,
    }
}

/// Clause lists the executor can act on: listed ids are in range, and field
/// clauses are well formed.
pub open spec fn clauses_wf(clauses: Seq<PrimaryCondition>, total: int) -> bool {
    forall|j: int|
        0 <= j < clauses.len() ==> match #[trigger] clauses[j] {
            PrimaryCondition::Ids(v) => forall|k: int| 0 <= k < v@.len() ==> (#[trigger] v@[k])
                < total,
            PrimaryCondition::Condition(fc) => fc.wf(),
            PrimaryCondition::IsEmpty(_) => true,
        }
}

/// Every id of `s` is covered by some clause of the list.
pub open spec fn clauses_cover(
    points: Seq<PointRecord>,
    clauses: Seq<PrimaryCondition>,
    s: Set<int>,
) -> bool {
    forall|id: int|
        #[trigger] s.contains(id) ==> exists|j: int|
            0 <= j < clauses.len() && clause_covers(points, #[trigger] clauses[j], id)
}

/// Interval invariant of an estimation.
pub open spec fn est_wf(est: CardinalityEstimation, total: int) -> bool {
    est.min <= est.exp <= est.max <= total
}

/// The bounds hold of the set the estimated clause selects.
pub open spec fn est_sound(est: CardinalityEstimation, s: Set<int>) -> bool {
    s.finite() && est.min <= s.len() <= est.max
}

/// Everything the estimator promises of one estimation for the id set `s`.
pub open spec fn est_ok(
    est: CardinalityEstimation,
    points: Seq<PointRecord>,
    s: Set<int>,
    total: int,
) -> bool {
    &&& est_wf(est, total)
    &&& est_sound(est, s)
    &&& clauses_wf(est.primary_clauses@, total)
    &&& est.primary_clauses@.len() > 0 ==> clauses_cover(points, est.primary_clauses@, s)
}

/// A set of ids below `total` is finite and no larger than `total`.
pub proof fn lemma_id_set_card(s: Set<int>, total: int)
    requires
        0 <= total,
        forall|x: int| s.contains(x) ==> 0 <= x < total,
    ensures
        s.finite(),
        s.len() <= total,
{
    lemma_int_range(0, total);
    assert(s.subset_of(set_int_range(0, total)));
    lemma_len_subset(s, set_int_range(0, total));
}

/// Inclusion–exclusion for sets of ids below `total`:
/// `|A ∩ B| == |A| + |B| - |A ∪ B|`, hence at least `|A| + |B| - total`.
pub proof fn lemma_intersect_bounds(sa: Set<int>, sb: Set<int>, total: int)
    requires
        0 <= total,
        forall|x: int| sa.contains(x) ==> 0 <= x < total,
        forall|x: int| sb.contains(x) ==> 0 <= x < total,
    ensures
        sa.intersect(sb).finite(),
        sa.intersect(sb).len() <= sa.len(),
        sa.intersect(sb).len() <= sb.len(),
        sa.intersect(sb).len() >= sa.len() + sb.len() - total,
        sa.union(sb).len() <= total,
        sa.union(sb).len() <= sa.len() + sb.len(),
        sa.union(sb).len() >= sa.len(),
        sa.union(sb).len() >= sb.len(),
        sa.union(sb).finite(),
        sa.finite(),
        sb.finite(),
{
    lemma_id_set_card(sa, total);
    lemma_id_set_card(sb, total);
    lemma_id_set_card(sa.union(sb), total);
    lemma_id_set_card(sa.intersect(sb), total);
    lemma_len_intersect(sa, sb);
    lemma_len_intersect(sb, sa);
    assert(sb.intersect(sa) =~= sa.intersect(sb));
    lemma_len_union(sa, sb);
    lemma_len_subset(sa, sa.union(sb));
    lemma_len_subset(sb, sa.union(sb));
    // |A ∪ B| = |B| + |A \ B| and |A| = |A ∩ B| + |A \ B|
    let diff = sa.difference(sb);
    assert(sb.disjoint(diff));
    assert(sb + diff =~= sa.union(sb));
    lemma_id_set_card(diff, total);
    lemma_set_disjoint_lens(sb, diff);
    assert((sb + diff).len() == sb.len() + diff.len());
    let inter = sa.intersect(sb);
    assert(inter.disjoint(diff));
    assert(inter + diff =~= sa);
    lemma_set_disjoint_lens(inter, diff);
}

/// The ids below `total` that are not in `s` number `total - |s|`.
pub proof fn lemma_complement_card(s: Set<int>, comp: Set<int>, total: int)
    requires
        0 <= total,
        forall|x: int| s.contains(x) ==> 0 <= x < total,
        forall|x: int| comp.contains(x) <==> 0 <= x < total && !s.contains(x),
    ensures
        comp.finite(),
        s.finite(),
        comp.len() == total - s.len(),
{
    lemma_id_set_card(s, total);
    lemma_id_set_card(comp, total);
    assert(s.disjoint(comp));
    assert(s + comp =~= set_int_range(0, total));
    lemma_set_disjoint_lens(s, comp);
    lemma_int_range(0, total);
}

/// Ghost clamp of a value into `[lo, hi]`.
pub open spec fn spec_clamp(e: int, lo: int, hi: int) -> int {
    if e < lo {
        lo
    } else if e > hi {
        hi
    } else {
        e
    }
}

/// Clamps `e` into `[lo, hi]`.
pub fn clamp(e: u64, lo: usize, hi: usize) -> (r: usize)
    requires
        lo <= hi,
    ensures
        r == spec_clamp(e as int, lo as int, hi as int),
{
    if e < lo as u64 {
        lo
    } else if e > hi as u64 {
        hi
    } else {
        e as usize
    }
}

/// Estimation of a clause nothing is known about: anywhere between none and
/// all points, no usable index.
pub fn unknown_estimation(total: usize) -> (r: CardinalityEstimation)
    ensures
        r.min == 0 && r.exp == total / 2 && r.max == total,
        r.primary_clauses@.len() == 0,
{
    CardinalityEstimation {
        primary_clauses: Vec::new(),
        min: 0,
        exp: total / 2,
        max: total,
    }
}

/// Combines two estimations whose clauses must both hold (intersection).
/// The primary clauses of both sides remain usable: a point satisfying the
/// conjunction satisfies each side, so each side's clauses cover it.
pub fn combine_must(
    a: CardinalityEstimation,
    b: CardinalityEstimation,
    total: usize,
    Ghost(points): Ghost<Seq<PointRecord>>,
    Ghost(sa): Ghost<Set<int>>,
    Ghost(sb): Ghost<Set<int>>,
) -> (r: CardinalityEstimation)
    requires
        total < 0x1_0000_0000,
        est_ok(a, points, sa, total as int),
        est_ok(b, points, sb, total as int),
        forall|x: int| sa.contains(x) ==> 0 <= x < total,
        forall|x: int| sb.contains(x) ==> 0 <= x < total,
    ensures
        est_ok(r, points, sa.intersect(sb), total as int),
        r.min == (if a.min + b.min > total {
            a.min + b.min - total
        } else {
            0
        }),
        r.max == (if a.max < b.max {
            a.max
        } else {
            b.max
        }),
        r.exp == spec_clamp(
            if total == 0 {
                0
            } else {
                (a.exp * b.exp) / (total as int)
            },
            r.min as int,
            r.max as int,
        ),
        r.primary_clauses@ == a.primary_clauses@ + b.primary_clauses@,
{
    proof {
        lemma_intersect_bounds(sa, sb, total as int);
    }
    let min64: u64 = if a.min as u64 + b.min as u64 > total as u64 {
        a.min as u64 + b.min as u64 - total as u64
    } else {
        0
    };
    let min_v: usize = min64 as usize;
    let max_v: usize = if a.max < b.max {
        a.max
    } else {
        b.max
    };
    proof {
        assert((a.exp as u64) * (b.exp as u64) <= (total as u64) * (total as u64))
            by (nonlinear_arith)
            requires
                a.exp as u64 <= total as u64,
                b.exp as u64 <= total as u64,
        ;
        assert((total as u64) * (total as u64) < 0x1_0000_0000_0000_0000) by (nonlinear_arith)
            requires
                (total as u64) < 0x1_0000_0000,
        ;
    }
    let exp64: u64 = if total == 0 {
        0
    } else {
        ((a.exp as u64) * (b.exp as u64)) / (total as u64)
    };
    let exp_v: usize = clamp(exp64, min_v, max_v);
    let mut clauses = a.primary_clauses;
    let mut b_clauses = b.primary_clauses;
    let ghost a_cl = clauses@;
    let ghost b_cl = b_clauses@;
    clauses.append(&mut b_clauses);
    proof {
        let s = sa.intersect(sb);
        if clauses@.len() > 0 {
            assert forall|id: int| #[trigger] s.contains(id) implies exists|j: int|
                0 <= j < clauses@.len() && clause_covers(points, #[trigger] clauses@[j], id) by {
                if a_cl.len() > 0 {
                    assert(sa.contains(id));
                    let j = choose|j: int|
                        0 <= j < a_cl.len() && clause_covers(points, #[trigger] a_cl[j], id);
                    assert(clauses@[j] == a_cl[j]);
                    assert(clause_covers(points, clauses@[j], id));
                } else {
                    assert(sb.contains(id));
                    let j = choose|j: int|
                        0 <= j < b_cl.len() && clause_covers(points, #[trigger] b_cl[j], id);
                    assert(clauses@[a_cl.len() + j] == b_cl[j]);
                    assert(clause_covers(points, clauses@[a_cl.len() + j], id));
                }
            }
        }
    }
    CardinalityEstimation { primary_clauses: clauses, min: min_v, exp: exp_v, max: max_v }
}

/// Combines two estimations of which at least one clause must hold (union).
/// The union of both sides' clauses covers the union only when each side
/// brought clauses of its own; otherwise no index can drive the disjunction
/// and the clause list is emptied.
pub fn combine_should(
    a: CardinalityEstimation,
    b: CardinalityEstimation,
    total: usize,
    Ghost(points): Ghost<Seq<PointRecord>>,
    Ghost(sa): Ghost<Set<int>>,
    Ghost(sb): Ghost<Set<int>>,
) -> (r: CardinalityEstimation)
    requires
        total < 0x1_0000_0000,
        est_ok(a, points, sa, total as int),
        est_ok(b, points, sb, total as int),
        forall|x: int| sa.contains(x) ==> 0 <= x < total,
        forall|x: int| sb.contains(x) ==> 0 <= x < total,
    ensures
        est_ok(r, points, sa.union(sb), total as int),
        r.min == (if a.min > b.min {
            a.min
        } else {
            b.min
        }),
        r.max == (if a.max + b.max > total as int {
            total as int
        } else {
            a.max + b.max
        }),
        r.exp == spec_clamp(
            if total == 0 {
                0
            } else {
                total - (total - a.exp) * (total - b.exp) / (total as int)
            },
            r.min as int,
            r.max as int,
        ),
        a.primary_clauses@.len() > 0 && b.primary_clauses@.len() > 0 ==> r.primary_clauses@
            == a.primary_clauses@ + b.primary_clauses@,
        !(a.primary_clauses@.len() > 0 && b.primary_clauses@.len() > 0)
            ==> r.primary_clauses@.len() == 0,
{
    proof {
        lemma_intersect_bounds(sa, sb, total as int);
    }
    let min_v: usize = if a.min > b.min {
        a.min
    } else {
        b.min
    };
    let max64: u64 = a.max as u64 + b.max as u64;
    let max_v: usize = if max64 > total as u64 {
        total
    } else {
        max64 as usize
    };
    let exp64: u64 = if total == 0 {
        0
    } else {
        let na = total as u64 - a.exp as u64;
        let nb = total as u64 - b.exp as u64;
        proof {
            assert(na * nb <= (total as u64) * (total as u64)) by (nonlinear_arith)
                requires
                    na <= total as u64,
                    nb <= total as u64,
            ;
            assert((total as u64) * (total as u64) < 0x1_0000_0000_0000_0000)
                by (nonlinear_arith)
                requires
                    (total as u64) < 0x1_0000_0000,
            ;
            assert((na as int) * (nb as int) / (total as int) <= total as int)
                by (nonlinear_arith)
                requires
                    na as int <= total as int,
                    nb as int <= total as int,
                    total as int > 0,
            ;
        }
        total as u64 - (na * nb) / (total as u64)
    };
    let exp_v: usize = clamp(exp64, min_v, max_v);
    let a_has = a.primary_clauses.len() > 0;
    let b_has = b.primary_clauses.len() > 0;
    let mut clauses = a.primary_clauses;
    let mut b_clauses = b.primary_clauses;
    let ghost a_cl = clauses@;
    let ghost b_cl = b_clauses@;
    if a_has && b_has {
        clauses.append(&mut b_clauses);
    } else {
        clauses = Vec::new();
    }
    proof {
        let s = sa.union(sb);
        if clauses@.len() > 0 {
            assert forall|id: int| #[trigger] s.contains(id) implies exists|j: int|
                0 <= j < clauses@.len() && clause_covers(points, #[trigger] clauses@[j], id) by {
                if sa.contains(id) {
                    let j = choose|j: int|
                        0 <= j < a_cl.len() && clause_covers(points, #[trigger] a_cl[j], id);
                    assert(clauses@[j] == a_cl[j]);
                    assert(clause_covers(points, clauses@[j], id));
                } else {
                    assert(sb.contains(id));
                    let j = choose|j: int|
                        0 <= j < b_cl.len() && clause_covers(points, #[trigger] b_cl[j], id);
                    assert(clauses@[a_cl.len() + j] == b_cl[j]);
                    assert(clause_covers(points, clauses@[a_cl.len() + j], id));
                }
            }
        }
    }
    CardinalityEstimation { primary_clauses: clauses, min: min_v, exp: exp_v, max: max_v }
}

/// Estimation of the complement of an estimated clause. Negated clauses
/// cannot drive index probes, so the clause list is emptied.
pub fn negate_estimation(
    a: CardinalityEstimation,
    total: usize,
    Ghost(points): Ghost<Seq<PointRecord>>,
    Ghost(sa): Ghost<Set<int>>,
    Ghost(comp): Ghost<Set<int>>,
) -> (r: CardinalityEstimation)
    requires
        total < 0x1_0000_0000,
        est_ok(a, points, sa, total as int),
        forall|x: int| sa.contains(x) ==> 0 <= x < total,
        forall|x: int| comp.contains(x) <==> 0 <= x < total && !sa.contains(x),
    ensures
        est_ok(r, points, comp, total as int),
        r.primary_clauses@.len() == 0,
        r.min == total - a.max,
        r.max == total - a.min,
        r.exp == spec_clamp(total - a.exp, r.min as int, r.max as int),
{
    proof {
        lemma_complement_card(sa, comp, total as int);
    }
    let min_v = total - a.max;
    let max_v = total - a.min;
    let exp_v: usize = clamp((total - a.exp) as u64, min_v, max_v);
    CardinalityEstimation { primary_clauses: Vec::new(), min: min_v, exp: exp_v, max: max_v }
}

} // verus!
