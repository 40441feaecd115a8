use vstd::prelude::*;

use std::collections::HashMap;

use crate::error::{SolveError, ValidationError};
use crate::geom::{Axis, Rect};
use crate::ids::{NodeId, Revision};
use crate::limits::{Summary, WeightPair};
use crate::snapshot::{ScoreTuple, Snapshot, SplitTrace, Violation, ViolationKind};
use crate::tree::{
    finite_below, has_shape, lemma_shape_id, lemma_shape_of, lemma_shape_unique, shape_of,
    split_of, Node, Shape, Tree,
};

verus! {

broadcast use vstd::std_specs::hash::group_hash_axioms;

/// How missing space below the minimum sizes is charged.
#[derive(Debug, Clone, Copy, PartialEq, Eq, Structural)]
pub enum ShortageMode {
    Equal,
    ByShrinkPriority,
}

/// How space beyond the maximum sizes is charged.
#[derive(Debug, Clone, Copy, PartialEq, Eq, Structural)]
pub enum OverflowMode {
    Uniform,
}

/// Which child wins an otherwise tied allocation.
#[derive(Debug, Clone, Copy, PartialEq, Eq, Structural)]
pub enum TieBreakMode {
    PreferA,
    PreferB,
}

/// Knobs of the allocation score.
#[derive(Debug, Clone, Copy, PartialEq, Eq, Structural)]
pub struct SolverPolicy {
    pub shortage_mode: ShortageMode,
    pub overflow_mode: OverflowMode,
    pub tie_break: TieBreakMode,
}

impl Default for SolverPolicy {
    fn default() -> (r: Self)
        ensures
            r == (SolverPolicy {
                shortage_mode: ShortageMode::ByShrinkPriority,
                overflow_mode: OverflowMode::Uniform,
                tie_break: TieBreakMode::PreferA,
            }),
    {
        Self {
            shortage_mode: ShortageMode::ByShrinkPriority,
            overflow_mode: OverflowMode::Uniform,
            tie_break: TieBreakMode::PreferA,
        }
    }
}

/// The allocation problem of one split: `total` cells to share between the
/// two children, with their limits, weights and shrink costs.
#[derive(Debug, Clone, Copy, PartialEq, Eq, Structural)]
pub struct PairSpec {
    pub total: u32,
    pub min_a: u32,
    pub min_b: u32,
    pub max_a: Option<u32>,
    pub max_b: Option<u32>,
    pub wa: u32,
    pub wb: u32,
    pub sa: u64,
    pub sb: u64,
}

/// `a - b` clamped at zero, over the integers.
pub open spec fn pos_diff(a: int, b: int) -> nat {
    if a > b {
        (a - b) as nat
    } else {
        0
    }
}

/// Absolute difference over the integers.
pub open spec fn int_abs_diff(a: int, b: int) -> nat {
    if a >= b {
        (a - b) as nat
    } else {
        (b - a) as nat
    }
}

/// Penalty of giving `a` cells to the first child: shortage below the
/// minimums (weighted by shrink cost under `ByShrinkPriority`), overflow
/// beyond the maximums, distance from the weighted proportion, and the tie
/// breaker.
pub open spec fn spec_score(spec: PairSpec, policy: SolverPolicy, a: u32) -> ScoreTuple {
    let size_b = spec.total - a;
    let short_a = pos_diff(spec.min_a as int, a as int);
    let short_b = pos_diff(spec.min_b as int, size_b);
    let over_a = match spec.max_a {
        Some(m) => pos_diff(a as int, m as int),
        None => 0,
    };
    let over_b = match spec.max_b {
        Some(m) => pos_diff(size_b, m as int),
        None => 0,
    };
    let total_weight = spec.wa + spec.wb;
    ScoreTuple {
        shortage_penalty: (match policy.shortage_mode {
            ShortageMode::Equal => (short_a + short_b) as int,
            ShortageMode::ByShrinkPriority => short_a * spec.sa + short_b * spec.sb,
        }) as u128,
        overflow_penalty: (over_a + over_b) as u128,
        preference_penalty: int_abs_diff(a * total_weight, spec.total * spec.wa) as u128,
        tie_break: (match policy.tie_break {
            TieBreakMode::PreferA => spec.total - a,
            TieBreakMode::PreferB => a as int,
        }) as u128,
    }
}

/// Strict lexicographic order on score tuples.
pub open spec fn score_lt(x: ScoreTuple, y: ScoreTuple) -> bool {
    ||| x.shortage_penalty < y.shortage_penalty
    ||| (x.shortage_penalty == y.shortage_penalty && x.overflow_penalty < y.overflow_penalty)
    ||| (x.shortage_penalty == y.shortage_penalty && x.overflow_penalty == y.overflow_penalty
        && x.preference_penalty < y.preference_penalty)
    ||| (x.shortage_penalty == y.shortage_penalty && x.overflow_penalty == y.overflow_penalty
        && x.preference_penalty == y.preference_penalty && x.tie_break < y.tie_break)
}

/// `a` is the allocation the solver picks: no allocation scores lower, and
/// every smaller allocation scores strictly higher.
pub open spec fn is_chosen_extent(spec: PairSpec, policy: SolverPolicy, a: u32) -> bool {
    &&& a <= spec.total
    &&& forall|b: u32| #![trigger spec_score(spec, policy, b)]
        b <= spec.total ==> !score_lt(spec_score(spec, policy, b), spec_score(spec, policy, a))
    &&& forall|b: u32| #![trigger spec_score(spec, policy, b)]
        b < a ==> score_lt(spec_score(spec, policy, a), spec_score(spec, policy, b))
}

/// The allocation the solver picks for `spec`.
pub open spec fn spec_choose_extent(spec: PairSpec, policy: SolverPolicy) -> u32 {
    choose|a: u32| is_chosen_extent(spec, policy, a)
}

fn sat_sub_u32(a: u32, b: u32) -> (r: u32)
    ensures
        r == pos_diff(a as int, b as int),
{
    if a > b {
        a - b
    } else {
        0
    }
}

fn score_less(x: &ScoreTuple, y: &ScoreTuple) -> (r: bool)
    ensures
        r == score_lt(*x, *y),
{
    if x.shortage_penalty != y.shortage_penalty {
        x.shortage_penalty < y.shortage_penalty
    } else if x.overflow_penalty != y.overflow_penalty {
        x.overflow_penalty < y.overflow_penalty
    } else if x.preference_penalty != y.preference_penalty {
        x.preference_penalty < y.preference_penalty
    } else {
        x.tie_break < y.tie_break
    }
}

/// The score of giving `a` cells to the first child.
pub fn score(spec: PairSpec, policy: &SolverPolicy, a: u32) -> (r: ScoreTuple)
    requires
        a <= spec.total,
    ensures
        r == spec_score(spec, *policy, a),
{
    let size_b = spec.total - a;
    let short_a = sat_sub_u32(spec.min_a, a) as u128;
    let short_b = sat_sub_u32(spec.min_b, size_b) as u128;
    let over_a = match spec.max_a {
        Some(m) => sat_sub_u32(a, m) as u128,
        None => 0,
    };
    let over_b = match spec.max_b {
        Some(m) => sat_sub_u32(size_b, m) as u128,
        None => 0,
    };
    let total_weight = spec.wa as u128 + spec.wb as u128;
    let shortage = match policy.shortage_mode {
        ShortageMode::Equal => short_a + short_b,
        ShortageMode::ByShrinkPriority => {
            assert(short_a * (spec.sa as u128) <= 0xffff_ffff * 0xffff_ffff_ffff_ffff)
                by (nonlinear_arith)
                requires
                    short_a <= 0xffff_ffff,
                    spec.sa <= 0xffff_ffff_ffff_ffff,
            ;
            assert(short_b * (spec.sb as u128) <= 0xffff_ffff * 0xffff_ffff_ffff_ffff)
                by (nonlinear_arith)
                requires
                    short_b <= 0xffff_ffff,
                    spec.sb <= 0xffff_ffff_ffff_ffff,
            ;
            short_a * spec.sa as u128 + short_b * spec.sb as u128
        },
    };
    assert((a as u128) * total_weight <= 0xffff_ffff * 0x1_ffff_fffe) by (nonlinear_arith)
        requires
            a <= 0xffff_ffff,
            total_weight <= 0x1_ffff_fffe,
    ;
    assert((spec.total as u128) * (spec.wa as u128) <= 0xffff_ffff * 0xffff_ffff)
        by (nonlinear_arith)
        requires
            spec.total <= 0xffff_ffff,
            spec.wa <= 0xffff_ffff,
    ;
    let lhs = a as u128 * total_weight;
    let rhs = spec.total as u128 * spec.wa as u128;
    let preference = if lhs >= rhs {
        lhs - rhs
    } else {
        rhs - lhs
    };
    let tie = match policy.tie_break {
        TieBreakMode::PreferA => (spec.total - a) as u128,
        TieBreakMode::PreferB => a as u128,
    };
    ScoreTuple {
        shortage_penalty: shortage,
        overflow_penalty: over_a + over_b,
        preference_penalty: preference,
        tie_break: tie,
    }
}

/// The allocation with the lowest score (the smallest one among equals) and its score.
pub fn choose_extent_with_score(spec: PairSpec, policy: &SolverPolicy) -> (r: (u32, ScoreTuple))
    ensures
        is_chosen_extent(spec, *policy, r.0),
        r.0 == spec_choose_extent(spec, *policy),
        r.1 == spec_score(spec, *policy, r.0),
{
    let mut best: u32 = 0;
    let mut best_score = score(spec, policy, 0);
    let mut a: u32 = 0;
    while a < spec.total
        invariant
            a <= spec.total,
            best <= a,
            best_score == spec_score(spec, *policy, best),
            forall|b: u32| #![trigger spec_score(spec, *policy, b)]
                b <= a ==> !score_lt(spec_score(spec, *policy, b), best_score),
            forall|b: u32| #![trigger spec_score(spec, *policy, b)]
                b < best ==> score_lt(best_score, spec_score(spec, *policy, b)),
        decreases spec.total - a,
    {
        a = a + 1;
        let candidate = score(spec, policy, a);
        if score_less(&candidate, &best_score) {
            proof {
                assert forall|b: u32| #![trigger spec_score(spec, *policy, b)]
                    b < a implies score_lt(candidate, spec_score(spec, *policy, b)) by {
                    lemma_score_order(candidate, best_score, spec_score(spec, *policy, b));
                }
                assert forall|b: u32| #![trigger spec_score(spec, *policy, b)]
                    b <= a implies !score_lt(spec_score(spec, *policy, b), candidate) by {
                    if b < a {
                        lemma_score_order(candidate, best_score, spec_score(spec, *policy, b));
                    }
                    lemma_score_irreflexive(candidate);
                }
            }
            best = a;
            best_score = candidate;
        } else {
            proof {
                lemma_score_total(candidate, best_score);
            }
        }
    }
    proof {
        lemma_chosen_unique(spec, *policy, best);
    }
    (best, best_score)
}

/// The allocation with the lowest score.
pub fn choose_extent(spec: PairSpec, policy: &SolverPolicy) -> (r: u32)
    ensures
        r == spec_choose_extent(spec, *policy),
        is_chosen_extent(spec, *policy, r),
{
    choose_extent_with_score(spec, policy).0
}

proof fn lemma_score_order(x: ScoreTuple, y: ScoreTuple, z: ScoreTuple)
    requires
        score_lt(x, y),
        score_lt(y, z) || y == z,
    ensures
        score_lt(x, z),
{
}

proof fn lemma_score_irreflexive(x: ScoreTuple)
    ensures
        !score_lt(x, x),
{
}

proof fn lemma_score_total(x: ScoreTuple, y: ScoreTuple)
    ensures
        score_lt(x, y) || score_lt(y, x) || x == y,
{
}

/// The chosen allocation is the only one with its defining property.
pub proof fn lemma_chosen_unique(spec: PairSpec, policy: SolverPolicy, a: u32)
    requires
        is_chosen_extent(spec, policy, a),
    ensures
        spec_choose_extent(spec, policy) == a,
{
    let c = spec_choose_extent(spec, policy);
    assert(is_chosen_extent(spec, policy, c));
    if c < a {
        assert(score_lt(spec_score(spec, policy, a), spec_score(spec, policy, c)));
    } else if a < c {
        assert(score_lt(spec_score(spec, policy, c), spec_score(spec, policy, a)));
    }
}


/// Summary of a single leaf.
pub open spec fn leaf_summary(limits: crate::limits::SizeLimits, shrink: u16, grow: u16) -> Summary {
    Summary {
        min_w: limits.min_w,
        min_h: limits.min_h,
        max_w: limits.max_w,
        max_h: limits.max_h,
        leaf_count: 1,
        shrink_cost: shrink as u64,
        grow_cost: grow as u64,
    }
}

/// Sum of two optional maxima (unbounded if either is); `None` inside `Some`
/// signals a sum beyond `u32`.
pub open spec fn sum_max(a: Option<u32>, b: Option<u32>) -> Option<Option<u32>> {
    match (a, b) {
        (Some(x), Some(y)) => if x + y <= u32::MAX {
            Some(Some((x + y) as u32))
        } else {
            None
        },
        _ => Some(None),
    }
}

/// The tighter of two optional maxima.
pub open spec fn min_max(a: Option<u32>, b: Option<u32>) -> Option<u32> {
    match (a, b) {
        (Some(x), Some(y)) => Some(if x <= y { x } else { y }),
        (Some(x), None) => Some(x),
        (None, Some(y)) => Some(y),
        (None, None) => None,
    }
}

/// Larger of two numbers.
pub open spec fn max_u32(a: u32, b: u32) -> u32 {
    if a >= b {
        a
    } else {
        b
    }
}

/// The overflow error for `field` at `node`.
pub open spec fn overflow(node: NodeId, field: &'static str) -> ValidationError {
    ValidationError::ArithmeticOverflow { node, field }
}

/// Summary of a split along `axis` from its children's summaries: sizes add up
/// along the axis and meet across it; counts and costs add up. A sum that does
/// not fit its field is an overflow error naming the split and the field.
pub open spec fn combine_summaries(node: NodeId, axis: Axis, a: Summary, b: Summary) -> Result<
    Summary,
    ValidationError,
> {
    let leaf_count = a.leaf_count + b.leaf_count;
    let shrink = a.shrink_cost + b.shrink_cost;
    let grow = a.grow_cost + b.grow_cost;
    match axis {
        Axis::X => if a.min_w + b.min_w > u32::MAX {
            Err(overflow(node, "min_w"))
        } else if sum_max(a.max_w, b.max_w) is None {
            Err(overflow(node, "max_w"))
        } else if leaf_count > u32::MAX {
            Err(overflow(node, "leaf_count"))
        } else if shrink > u64::MAX {
            Err(overflow(node, "shrink_cost"))
        } else if grow > u64::MAX {
            Err(overflow(node, "grow_cost"))
        } else {
            Ok(
                Summary {
                    min_w: (a.min_w + b.min_w) as u32,
                    min_h: max_u32(a.min_h, b.min_h),
                    max_w: sum_max(a.max_w, b.max_w)->0,
                    max_h: min_max(a.max_h, b.max_h),
                    leaf_count: leaf_count as u32,
                    shrink_cost: shrink as u64,
                    grow_cost: grow as u64,
                },
            )
        },
        Axis::Y => if a.min_h + b.min_h > u32::MAX {
            Err(overflow(node, "min_h"))
        } else if sum_max(a.max_h, b.max_h) is None {
            Err(overflow(node, "max_h"))
        } else if leaf_count > u32::MAX {
            Err(overflow(node, "leaf_count"))
        } else if shrink > u64::MAX {
            Err(overflow(node, "shrink_cost"))
        } else if grow > u64::MAX {
            Err(overflow(node, "grow_cost"))
        } else {
            Ok(
                Summary {
                    min_w: max_u32(a.min_w, b.min_w),
                    min_h: (a.min_h + b.min_h) as u32,
                    max_w: min_max(a.max_w, b.max_w),
                    max_h: sum_max(a.max_h, b.max_h)->0,
                    leaf_count: leaf_count as u32,
                    shrink_cost: shrink as u64,
                    grow_cost: grow as u64,
                },
            )
        },
    }
}

/// The summary of the subtree with shape `s`, or the first error met
/// (first child, then second child, then the split itself).
pub open spec fn spec_summarize<T>(m: Map<NodeId, Node<T>>, s: Shape) -> Result<
    Summary,
    ValidationError,
>
    decreases s,
{
    match s {
        Shape::Tip(i) => if m.contains_key(i) {
            match m[i] {
                Node::Leaf(l) => Ok(
                    leaf_summary(l.meta.limits, l.meta.priority.shrink, l.meta.priority.grow),
                ),
                Node::Split(_) => Err(ValidationError::MissingNode(i)),
            }
        } else {
            Err(ValidationError::MissingNode(i))
        },
        Shape::Fork(i, l, r) => match spec_summarize(m, *l) {
            Err(e) => Err(e),
            Ok(sa) => match spec_summarize(m, *r) {
                Err(e) => Err(e),
                Ok(sb) => combine_summaries(i, split_of(m[i]).axis, sa, sb),
            },
        },
    }
}

/// Every cached summary is the summary of its node's subtree, and the cache
/// holds the whole subtree of every node it holds.
pub open spec fn cache_ok<T>(m: Map<NodeId, Node<T>>, c: Map<NodeId, Summary>) -> bool {
    forall|x: NodeId| #[trigger] c.contains_key(x) ==> {
        &&& finite_below(m, x)
        &&& spec_summarize(m, shape_of(m, x)) == Ok::<Summary, ValidationError>(c[x])
        &&& shape_of(m, x).ids().subset_of(c.dom())
    }
}

fn checked_add_u32(a: u32, b: u32) -> (r: Option<u32>)
    ensures
        r == (if a + b <= u32::MAX {
            Some((a + b) as u32)
        } else {
            None::<u32>
        }),
{
    if a <= u32::MAX - b {
        Some(a + b)
    } else {
        None
    }
}

fn checked_add_u64(a: u64, b: u64) -> (r: Option<u64>)
    ensures
        r == (if a + b <= u64::MAX {
            Some((a + b) as u64)
        } else {
            None::<u64>
        }),
{
    if a <= u64::MAX - b {
        Some(a + b)
    } else {
        None
    }
}

fn exec_sum_max(a: Option<u32>, b: Option<u32>) -> (r: Option<Option<u32>>)
    ensures
        r == sum_max(a, b),
{
    match (a, b) {
        (Some(x), Some(y)) => match checked_add_u32(x, y) {
            Some(v) => Some(Some(v)),
            None => None,
        },
        _ => Some(None),
    }
}

fn exec_min_max(a: Option<u32>, b: Option<u32>) -> (r: Option<u32>)
    ensures
        r == min_max(a, b),
{
    match (a, b) {
        (Some(x), Some(y)) => Some(if x <= y { x } else { y }),
        (Some(x), None) => Some(x),
        (None, Some(y)) => Some(y),
        (None, None) => None,
    }
}

fn combine(node: NodeId, axis: Axis, a: Summary, b: Summary) -> (r: Result<Summary, ValidationError>)
    ensures
        r == combine_summaries(node, axis, a, b),
{
    let leaf_count = checked_add_u32(a.leaf_count, b.leaf_count);
    let shrink = checked_add_u64(a.shrink_cost, b.shrink_cost);
    let grow = checked_add_u64(a.grow_cost, b.grow_cost);
    match axis {
        Axis::X => {
            let min_w = match checked_add_u32(a.min_w, b.min_w) {
                Some(v) => v,
                None => return Err(ValidationError::ArithmeticOverflow { node, field: "min_w" }),
            };
            let max_w = match exec_sum_max(a.max_w, b.max_w) {
                Some(v) => v,
                None => return Err(ValidationError::ArithmeticOverflow { node, field: "max_w" }),
            };
            let leaf_count = match leaf_count {
                Some(v) => v,
                None => return Err(
                    ValidationError::ArithmeticOverflow { node, field: "leaf_count" },
                ),
            };
            let shrink = match shrink {
                Some(v) => v,
                None => return Err(
                    ValidationError::ArithmeticOverflow { node, field: "shrink_cost" },
                ),
            };
            let grow = match grow {
                Some(v) => v,
                None => return Err(
                    ValidationError::ArithmeticOverflow { node, field: "grow_cost" },
                ),
            };
            Ok(
                Summary {
                    min_w,
                    min_h: if a.min_h >= b.min_h {
                        a.min_h
                    } else {
                        b.min_h
                    },
                    max_w,
                    max_h: exec_min_max(a.max_h, b.max_h),
                    leaf_count,
                    shrink_cost: shrink,
                    grow_cost: grow,
                },
            )
        },
        Axis::Y => {
            let min_h = match checked_add_u32(a.min_h, b.min_h) {
                Some(v) => v,
                None => return Err(ValidationError::ArithmeticOverflow { node, field: "min_h" }),
            };
            let max_h = match exec_sum_max(a.max_h, b.max_h) {
                Some(v) => v,
                None => return Err(ValidationError::ArithmeticOverflow { node, field: "max_h" }),
            };
            let leaf_count = match leaf_count {
                Some(v) => v,
                None => return Err(
                    ValidationError::ArithmeticOverflow { node, field: "leaf_count" },
                ),
            };
            let shrink = match shrink {
                Some(v) => v,
                None => return Err(
                    ValidationError::ArithmeticOverflow { node, field: "shrink_cost" },
                ),
            };
            let grow = match grow {
                Some(v) => v,
                None => return Err(
                    ValidationError::ArithmeticOverflow { node, field: "grow_cost" },
                ),
            };
            Ok(
                Summary {
                    min_w: if a.min_w >= b.min_w {
                        a.min_w
                    } else {
                        b.min_w
                    },
                    min_h,
                    max_w: exec_min_max(a.max_w, b.max_w),
                    max_h,
                    leaf_count,
                    shrink_cost: shrink,
                    grow_cost: grow,
                },
            )
        },
    }
}

/// Summarizes the subtree below `id`, caching every summary it computes in
/// `out` and answering from `out` when it already holds `id`.
pub fn summarize<T>(tree: &Tree<T>, id: NodeId, out: &mut HashMap<NodeId, Summary>) -> (r: Result<
    Summary,
    ValidationError,
>)
    requires
        finite_below(tree.nodes@, id),
    ensures
        cache_ok(tree.nodes@, old(out)@) ==> {
            &&& r == spec_summarize(tree.nodes@, shape_of(tree.nodes@, id))
            &&& cache_ok(tree.nodes@, final(out)@)
            &&& r is Ok ==> shape_of(tree.nodes@, id).ids().subset_of(final(out)@.dom())
        },
{
    let ghost s = shape_of(tree.nodes@, id);
    summarize_in(tree, id, out, Ghost(s))
}

fn summarize_in<T>(
    tree: &Tree<T>,
    id: NodeId,
    out: &mut HashMap<NodeId, Summary>,
    Ghost(s): Ghost<Shape>,
) -> (r: Result<Summary, ValidationError>)
    requires
        has_shape(tree.nodes@, id, s),
    ensures
        cache_ok(tree.nodes@, old(out)@) ==> {
            &&& r == spec_summarize(tree.nodes@, s)
            &&& cache_ok(tree.nodes@, final(out)@)
            &&& r is Ok ==> s.ids().subset_of(final(out)@.dom())
        },
        old(out)@.submap_of(final(out)@),
    decreases s.size(),
{
    proof {
        lemma_shape_of(tree.nodes@, id, s);
    }
    if let Some(summary) = out.get(&id) {
        return Ok(*summary);
    }
    let summary = match tree.nodes.get(&id) {
        None => return Err(ValidationError::MissingNode(id)),
        Some(Node::Leaf(leaf)) => Summary {
            min_w: leaf.meta.limits.min_w,
            min_h: leaf.meta.limits.min_h,
            max_w: leaf.meta.limits.max_w,
            max_h: leaf.meta.limits.max_h,
            leaf_count: 1,
            shrink_cost: leaf.meta.priority.shrink as u64,
            grow_cost: leaf.meta.priority.grow as u64,
        },
        Some(Node::Split(split)) => {
            let ghost o0 = out@;
            let ra = summarize_in(tree, split.a, out, Ghost(s.left()));
            let ghost o1 = out@;
            assert(o0.submap_of(o1));
            let sa = match ra {
                Ok(v) => v,
                Err(e) => return Err(e),
            };
            let rb = summarize_in(tree, split.b, out, Ghost(s.right()));
            let ghost o2 = out@;
            assert(o1.submap_of(o2));
            proof {
                assert forall|k: NodeId| #[trigger] o0.contains_key(k) implies out@.contains_key(k)
                    && out@[k] == o0[k] by {
                    assert(o1.contains_key(k));
                    assert(o1[k] == o0[k]);
                    assert(o2.contains_key(k));
                    assert(o2[k] == o1[k]);
                }
            }
            let sb = match rb {
                Ok(v) => v,
                Err(e) => return Err(e),
            };
            match combine(id, split.axis, sa, sb) {
                Ok(v) => v,
                Err(e) => return Err(e),
            }
        },
    };
    let ghost pre = out@;
    proof {
        if cache_ok(tree.nodes@, old(out)@) {
            assert(cache_ok(tree.nodes@, pre));
            assert(summary == spec_summarize(tree.nodes@, s)->Ok_0);
            assert(spec_summarize(tree.nodes@, s) is Ok);
            match s {
                Shape::Fork(_, l, r) => {
                    assert(s.ids() =~= l.ids().union(r.ids()).insert(id));
                },
                Shape::Tip(_) => {
                    assert(s.ids() =~= set![id]);
                },
            }
        }
    }
    out.insert(id, summary);
    proof {
        if cache_ok(tree.nodes@, old(out)@) {
            assert forall|x: NodeId| #[trigger] out@.contains_key(x) implies {
                &&& finite_below(tree.nodes@, x)
                &&& spec_summarize(tree.nodes@, shape_of(tree.nodes@, x)) == Ok::<
                    Summary,
                    ValidationError,
                >(out@[x])
                &&& shape_of(tree.nodes@, x).ids().subset_of(out@.dom())
            } by {
                if x != id {
                    assert(pre.contains_key(x));
                    assert(shape_of(tree.nodes@, x).ids().subset_of(pre.dom()));
                } else {
                    assert(s.ids().subset_of(out@.dom()));
                }
            }
        }
    }
    Ok(summary)
}


/// Violations of a leaf's limits by `rect`, in the order min width, min height,
/// max width, max height.
pub open spec fn leaf_violations(node: NodeId, rect: Rect, limits: crate::limits::SizeLimits) -> Seq<
    Violation,
> {
    let v1 = if rect.w < limits.min_w {
        seq![Violation { node, kind: ViolationKind::MinWidth, required: limits.min_w, actual: rect.w }]
    } else {
        Seq::empty()
    };
    let v2 = if rect.h < limits.min_h {
        seq![
            Violation { node, kind: ViolationKind::MinHeight, required: limits.min_h, actual: rect.h },
        ]
    } else {
        Seq::empty()
    };
    let v3 = match limits.max_w {
        Some(m) => if rect.w > m {
            seq![Violation { node, kind: ViolationKind::MaxWidth, required: m, actual: rect.w }]
        } else {
            Seq::empty()
        },
        None => Seq::empty(),
    };
    let v4 = match limits.max_h {
        Some(m) => if rect.h > m {
            seq![Violation { node, kind: ViolationKind::MaxHeight, required: m, actual: rect.h }]
        } else {
            Seq::empty()
        },
        None => Seq::empty(),
    };
    v1 + v2 + v3 + v4
}

/// The allocation problem of split `sn` inside `rect`, from its children's summaries.
pub open spec fn pair_spec_for(sn: crate::tree::SplitNode, rect: Rect, sa: Summary, sb: Summary) -> PairSpec {
    PairSpec {
        total: rect.spec_extent(sn.axis),
        min_a: sa.spec_axis_limits(sn.axis).0,
        min_b: sb.spec_axis_limits(sn.axis).0,
        max_a: sa.spec_axis_limits(sn.axis).1,
        max_b: sb.spec_axis_limits(sn.axis).1,
        wa: sn.weights.a,
        wb: sn.weights.b,
        sa: sa.shrink_cost,
        sb: sb.shrink_cost,
    }
}

/// The solved layout of the subtree with shape `s` inside `rect`: the
/// rectangle of every node, the trace of every split (pre-order), and the
/// violations of every leaf (left to right).
pub open spec fn spec_layout<T>(m: Map<NodeId, Node<T>>, s: Shape, rect: Rect, policy: SolverPolicy) -> (
    Map<NodeId, Rect>,
    Seq<SplitTrace>,
    Seq<Violation>,
)
    decreases s,
{
    match s {
        Shape::Tip(i) => (
            map![i => rect],
            Seq::empty(),
            leaf_violations(i, rect, m[i]->Leaf_0.meta.limits),
        ),
        Shape::Fork(i, l, r) => {
            let sn = split_of(m[i]);
            let sa = spec_summarize(m, *l)->Ok_0;
            let sb = spec_summarize(m, *r)->Ok_0;
            let pair = pair_spec_for(sn, rect, sa, sb);
            let chosen = spec_choose_extent(pair, policy);
            let (ra, rb) = rect.spec_split(sn.axis, chosen);
            let la = spec_layout(m, *l, ra, policy);
            let lb = spec_layout(m, *r, rb, policy);
            let trace = SplitTrace {
                split: i,
                axis: sn.axis,
                total: pair.total,
                chosen_a: chosen,
                score: spec_score(pair, policy, chosen),
                weights: sn.weights,
            };
            (
                map![i => rect].union_prefer_right(la.0).union_prefer_right(lb.0),
                seq![trace] + la.1 + lb.1,
                la.2 + lb.2,
            )
        },
    }
}

fn record_leaf_violations(node: NodeId, rect: Rect, limits: &crate::limits::SizeLimits, out: &mut Vec<Violation>)
    ensures
        final(out)@ == old(out)@ + leaf_violations(node, rect, *limits),
{
    let ghost o = out@;
    if rect.w < limits.min_w {
        out.push(Violation { node, kind: ViolationKind::MinWidth, required: limits.min_w, actual: rect.w });
    }
    if rect.h < limits.min_h {
        out.push(Violation { node, kind: ViolationKind::MinHeight, required: limits.min_h, actual: rect.h });
    }
    match limits.max_w {
        Some(m) => if rect.w > m {
            out.push(Violation { node, kind: ViolationKind::MaxWidth, required: m, actual: rect.w });
        },
        None => {},
    }
    match limits.max_h {
        Some(m) => if rect.h > m {
            out.push(Violation { node, kind: ViolationKind::MaxHeight, required: m, actual: rect.h });
        },
        None => {},
    }
    assert(out@ =~= o + leaf_violations(node, rect, *limits));
}

fn solve_node<T>(
    tree: &Tree<T>,
    id: NodeId,
    rect: Rect,
    summaries: &HashMap<NodeId, Summary>,
    policy: &SolverPolicy,
    out: &mut Snapshot,
    Ghost(s): Ghost<Shape>,
)
    requires
        has_shape(tree.nodes@, id, s),
        spec_summarize(tree.nodes@, s) is Ok,
        cache_ok(tree.nodes@, summaries@),
        s.ids().subset_of(summaries@.dom()),
        rect.edges_fit(),
    ensures
        ({
            let lay = spec_layout(tree.nodes@, s, rect, *policy);
            &&& final(out).node_rects@ == old(out).node_rects@.union_prefer_right(lay.0)
            &&& final(out).split_traces@ == old(out).split_traces@ + lay.1
            &&& final(out).violations@ == old(out).violations@ + lay.2
            &&& final(out).revision == old(out).revision
            &&& final(out).root == old(out).root
            &&& final(out).strict_feasible == old(out).strict_feasible
        }),
    decreases s.size(),
{
    let ghost o = *out;
    out.node_rects.insert(id, rect);
    match tree.nodes.get(&id).unwrap() {
        Node::Leaf(leaf) => {
            record_leaf_violations(id, rect, &leaf.meta.limits, &mut out.violations);
            assert(out.node_rects@ =~= o.node_rects@.union_prefer_right(map![id => rect]));
            assert(out.split_traces@ =~= o.split_traces@ + Seq::<SplitTrace>::empty());
        },
        Node::Split(split) => {
            let ghost l = s.left();
            let ghost r = s.right();
            proof {
                lemma_shape_of(tree.nodes@, split.a, l);
                lemma_shape_of(tree.nodes@, split.b, r);
                lemma_shape_id(tree.nodes@, split.a, l);
                lemma_shape_id(tree.nodes@, split.b, r);
            }
            let sum_a = *summaries.get(&split.a).unwrap();
            let sum_b = *summaries.get(&split.b).unwrap();
            let (min_a, max_a) = sum_a.axis_limits(split.axis);
            let (min_b, max_b) = sum_b.axis_limits(split.axis);
            let pair = PairSpec {
                total: rect.extent(split.axis),
                min_a,
                min_b,
                max_a,
                max_b,
                wa: split.weights.a,
                wb: split.weights.b,
                sa: sum_a.shrink_cost,
                sb: sum_b.shrink_cost,
            };
            let (chosen_a, best) = choose_extent_with_score(pair, policy);
            let (rect_a, rect_b) = rect.split(split.axis, chosen_a);
            out.split_traces.push(
                SplitTrace {
                    split: id,
                    axis: split.axis,
                    total: pair.total,
                    chosen_a,
                    score: best,
                    weights: split.weights,
                },
            );
            let ghost o1 = *out;
            solve_node(tree, split.a, rect_a, summaries, policy, out, Ghost(l));
            let ghost o2 = *out;
            solve_node(tree, split.b, rect_b, summaries, policy, out, Ghost(r));
            proof {
                let la = spec_layout(tree.nodes@, l, rect_a, *policy);
                let lb = spec_layout(tree.nodes@, r, rect_b, *policy);
                assert(out.node_rects@ =~= o.node_rects@.union_prefer_right(
                    map![id => rect].union_prefer_right(la.0).union_prefer_right(lb.0),
                ));
                assert(out.split_traces@ =~= o.split_traces@ + (seq![o1.split_traces@.last()] + la.1
                    + lb.1));
                assert(out.violations@ =~= o.violations@ + (la.2 + lb.2));
            }
        },
    }
}

/// A solve succeeds: the tree is well formed and its summary fits.
pub open spec fn solvable<T>(tree: Tree<T>) -> bool {
    &&& tree.well_formed()
    &&& tree.root is Some ==> spec_summarize(tree.nodes@, tree.shape()) is Ok
}

/// `snap` is the solved layout of `tree` in `root` at `revision`.
pub open spec fn solved<T>(tree: Tree<T>, root: Rect, revision: Revision, policy: SolverPolicy, snap: Snapshot) -> bool {
    &&& snap.revision == revision
    &&& snap.root == root
    &&& match tree.root {
        None => {
            &&& snap.node_rects@ == Map::<NodeId, Rect>::empty()
            &&& snap.split_traces@ == Seq::<SplitTrace>::empty()
            &&& snap.violations@ == Seq::<Violation>::empty()
        },
        Some(_) => {
            let lay = spec_layout(tree.nodes@, tree.shape(), root, policy);
            &&& snap.node_rects@ == lay.0
            &&& snap.split_traces@ == lay.1
            &&& snap.violations@ == lay.2
        },
    }
    &&& snap.strict_feasible == (snap.violations@.len() == 0)
}

/// Solves the tree inside `root`, stamping the snapshot with `revision`. Fails
/// with the validation error of a malformed tree, or with the overflow error of
/// a summary that does not fit.
pub fn solve_with_revision<T>(tree: &Tree<T>, root: Rect, revision: Revision, policy: &SolverPolicy) -> (r: Result<
    Snapshot,
    SolveError,
>)
    requires
        root.edges_fit(),
    ensures
        r is Ok <==> solvable(*tree),
        r matches Ok(snap) ==> solved(*tree, root, revision, *policy, snap),
        !tree.well_formed() ==> r matches Err(SolveError::Validation(_)),
        tree.well_formed() && tree.root is Some && spec_summarize(tree.nodes@, tree.shape()) is Err
            ==> r == Err::<Snapshot, SolveError>(
            SolveError::Validation(spec_summarize(tree.nodes@, tree.shape())->Err_0),
        ),
{
    match tree.validate() {
        Ok(()) => {},
        Err(e) => return Err(SolveError::Validation(e)),
    }
    let mut snapshot = Snapshot {
        revision,
        root,
        node_rects: HashMap::new(),
        split_traces: Vec::new(),
        violations: Vec::new(),
        strict_feasible: true,
    };
    let root_id = match tree.root {
        Some(id) => id,
        None => {
            assert(snapshot.node_rects@ =~= Map::<NodeId, Rect>::empty());
            return Ok(snapshot);
        },
    };
    let mut summaries: HashMap<NodeId, Summary> = HashMap::new();
    proof {
        assert(summaries@ =~= Map::<NodeId, Summary>::empty());
        assert(cache_ok(tree.nodes@, summaries@));
    }
    match summarize(tree, root_id, &mut summaries) {
        Ok(_) => {},
        Err(e) => return Err(SolveError::Validation(e)),
    }
    let ghost s = tree.shape();
    solve_node(tree, root_id, root, &summaries, policy, &mut snapshot, Ghost(s));
    assert(snapshot.node_rects@ =~= spec_layout(tree.nodes@, s, root, *policy).0);
    assert(snapshot.split_traces@ =~= spec_layout(tree.nodes@, s, root, *policy).1);
    assert(snapshot.violations@ =~= spec_layout(tree.nodes@, s, root, *policy).2);
    snapshot.strict_feasible = snapshot.violations.len() == 0;
    Ok(snapshot)
}

/// Solves the tree inside `root` at revision zero.
pub fn solve<T>(tree: &Tree<T>, root: Rect, policy: &SolverPolicy) -> (r: Result<Snapshot, SolveError>)
    requires
        root.edges_fit(),
    ensures
        r is Ok <==> solvable(*tree),
        r matches Ok(snap) ==> solved(*tree, root, 0, *policy, snap),
        !tree.well_formed() ==> r matches Err(SolveError::Validation(_)),
        tree.well_formed() && tree.root is Some && spec_summarize(tree.nodes@, tree.shape()) is Err
            ==> r == Err::<Snapshot, SolveError>(
            SolveError::Validation(spec_summarize(tree.nodes@, tree.shape())->Err_0),
        ),
{
    solve_with_revision(tree, root, 0, policy)
}

/// Like `solve_with_revision`, but a layout that breaks any leaf limit is
/// refused as infeasible.
pub fn solve_strict_with_revision<T>(
    tree: &Tree<T>,
    root: Rect,
    revision: Revision,
    policy: &SolverPolicy,
) -> (r: Result<Snapshot, SolveError>)
    requires
        root.edges_fit(),
    ensures
        r matches Ok(snap) ==> solvable(*tree) && solved(*tree, root, revision, *policy, snap)
            && snap.strict_feasible,
        solvable(*tree) && r is Err ==> r == Err::<Snapshot, SolveError>(SolveError::Infeasible),
        solvable(*tree) ==> (r is Ok <==> (tree.root is None || spec_layout(
            tree.nodes@,
            tree.shape(),
            root,
            *policy,
        ).2.len() == 0)),
        !solvable(*tree) ==> r is Err && r != Err::<Snapshot, SolveError>(SolveError::Infeasible),
{
    let snapshot = solve_with_revision(tree, root, revision, policy)?;
    if snapshot.strict_feasible {
        Ok(snapshot)
    } else {
        Err(SolveError::Infeasible)
    }
}

/// Like `solve`, but a layout that breaks any leaf limit is refused as infeasible.
pub fn solve_strict<T>(tree: &Tree<T>, root: Rect, policy: &SolverPolicy) -> (r: Result<Snapshot, SolveError>)
    requires
        root.edges_fit(),
    ensures
        r matches Ok(snap) ==> solvable(*tree) && solved(*tree, root, 0, *policy, snap)
            && snap.strict_feasible,
        solvable(*tree) && r is Err ==> r == Err::<Snapshot, SolveError>(SolveError::Infeasible),
        solvable(*tree) ==> (r is Ok <==> (tree.root is None || spec_layout(
            tree.nodes@,
            tree.shape(),
            root,
            *policy,
        ).2.len() == 0)),
        !solvable(*tree) ==> r is Err && r != Err::<Snapshot, SolveError>(SolveError::Infeasible),
{
    solve_strict_with_revision(tree, root, 0, policy)
}


/// The lowest-scoring allocation among `0..=n` (the smallest among equals).
spec fn best_upto(spec: PairSpec, policy: SolverPolicy, n: nat) -> u32
    decreases n,
{
    if n == 0 {
        0
    } else {
        let b = best_upto(spec, policy, (n - 1) as nat);
        if score_lt(spec_score(spec, policy, n as u32), spec_score(spec, policy, b)) {
            n as u32
        } else {
            b
        }
    }
}

proof fn lemma_best_upto(spec: PairSpec, policy: SolverPolicy, n: nat)
    requires
        n <= spec.total,
    ensures
        best_upto(spec, policy, n) <= n,
        forall|b: u32| #![trigger spec_score(spec, policy, b)]
            b <= n ==> !score_lt(spec_score(spec, policy, b), spec_score(spec, policy, best_upto(spec, policy, n))),
        forall|b: u32| #![trigger spec_score(spec, policy, b)]
            b < best_upto(spec, policy, n) ==> score_lt(
                spec_score(spec, policy, best_upto(spec, policy, n)),
                spec_score(spec, policy, b),
            ),
    decreases n,
{
    let best = best_upto(spec, policy, n);
    if n == 0 {
        assert forall|b: u32| #![trigger spec_score(spec, policy, b)]
            b <= n implies !score_lt(spec_score(spec, policy, b), spec_score(spec, policy, best)) by {
            lemma_score_irreflexive(spec_score(spec, policy, b));
        }
    } else {
        lemma_best_upto(spec, policy, (n - 1) as nat);
        let prev = best_upto(spec, policy, (n - 1) as nat);
        let cand = spec_score(spec, policy, n as u32);
        let ps = spec_score(spec, policy, prev);
        if score_lt(cand, ps) {
            assert forall|b: u32| #![trigger spec_score(spec, policy, b)]
                b < n implies score_lt(cand, spec_score(spec, policy, b)) by {
                lemma_score_order(cand, ps, spec_score(spec, policy, b));
            }
            assert forall|b: u32| #![trigger spec_score(spec, policy, b)]
                b <= n implies !score_lt(spec_score(spec, policy, b), cand) by {
                if b < n {
                    lemma_score_order(cand, ps, spec_score(spec, policy, b));
                    lemma_score_total(cand, spec_score(spec, policy, b));
                    lemma_score_irreflexive(cand);
                    if score_lt(spec_score(spec, policy, b), cand) {
                        lemma_score_order(spec_score(spec, policy, b), cand, spec_score(spec, policy, b));
                        lemma_score_irreflexive(spec_score(spec, policy, b));
                    }
                } else {
                    assert(b == n as u32);
                    lemma_score_irreflexive(cand);
                }
            }
        } else {
            lemma_score_total(cand, ps);
            assert forall|b: u32| #![trigger spec_score(spec, policy, b)]
                b <= n implies !score_lt(spec_score(spec, policy, b), ps) by {
                if b == n {
                    assert(spec_score(spec, policy, b) == cand);
                }
            }
        }
    }
}

/// Some allocation has the defining property of the chosen one, so the
/// chosen allocation never exceeds the total.
pub proof fn lemma_chosen_exists(spec: PairSpec, policy: SolverPolicy)
    ensures
        is_chosen_extent(spec, policy, spec_choose_extent(spec, policy)),
        spec_choose_extent(spec, policy) <= spec.total,
{
    lemma_best_upto(spec, policy, spec.total as nat);
    let b = best_upto(spec, policy, spec.total as nat);
    assert(is_chosen_extent(spec, policy, b));
}

/// Every tip of a shape is one of its identifiers.
proof fn lemma_leaves_in_ids(s: Shape)
    ensures
        forall|i: int| 0 <= i < s.leaves().len() ==> s.ids().contains(#[trigger] s.leaves()[i]),
    decreases s,
{
    match s {
        Shape::Tip(_) => {},
        Shape::Fork(_, l, r) => {
            lemma_leaves_in_ids(*l);
            lemma_leaves_in_ids(*r);
            assert forall|i: int| 0 <= i < s.leaves().len() implies s.ids().contains(#[trigger] s.leaves()[i]) by {
                if i < l.leaves().len() {
                    assert(s.leaves()[i] == l.leaves()[i]);
                } else {
                    assert(s.leaves()[i] == r.leaves()[i - l.leaves().len()]);
                }
            }
        },
    }
}

/// The layout of a shape without repeated identifiers tiles its rectangle at
/// the cell `(px, py)`: it gives a rectangle to every node of the shape, each
/// leaf's rectangle lies inside the whole, and the cell, when inside the
/// whole, lies in the rectangle of exactly one leaf.
proof fn lemma_layout_tiles<T>(m: Map<NodeId, Node<T>>, s: Shape, rect: Rect, policy: SolverPolicy, px: int, py: int)
    requires
        s.distinct(),
        rect.edges_fit(),
    ensures
        spec_layout(m, s, rect, policy).0.dom() == s.ids(),
        forall|i: int| 0 <= i < s.leaves().len() && #[trigger] spec_layout(m, s, rect, policy).0[s.leaves()[i]].contains_point(px, py)
            ==> rect.contains_point(px, py),
        rect.contains_point(px, py) ==> exists|i: int| 0 <= i < s.leaves().len()
            && #[trigger] spec_layout(m, s, rect, policy).0[s.leaves()[i]].contains_point(px, py),
        forall|i: int, j: int|
            0 <= i < s.leaves().len() && 0 <= j < s.leaves().len() && i != j
                && #[trigger] spec_layout(m, s, rect, policy).0[s.leaves()[i]].contains_point(px, py)
                ==> !#[trigger] spec_layout(m, s, rect, policy).0[s.leaves()[j]].contains_point(px, py),
    decreases s,
{
    let lay = spec_layout(m, s, rect, policy).0;
    match s {
        Shape::Tip(i) => {
            assert(lay.dom() =~= s.ids());
            assert(s.leaves() =~= seq![i]);
            if rect.contains_point(px, py) {
                assert(lay[s.leaves()[0]].contains_point(px, py));
            }
        },
        Shape::Fork(i, l, r) => {
            let sn = split_of(m[i]);
            let sa = spec_summarize(m, *l)->Ok_0;
            let sb = spec_summarize(m, *r)->Ok_0;
            let pair = pair_spec_for(sn, rect, sa, sb);
            let chosen = spec_choose_extent(pair, policy);
            lemma_chosen_exists(pair, policy);
            let (ra, rb) = rect.spec_split(sn.axis, chosen);
            crate::geom::lemma_split_partitions(rect, sn.axis, chosen, px, py);
            assert(ra.edges_fit() && rb.edges_fit());
            lemma_layout_tiles(m, *l, ra, policy, px, py);
            lemma_layout_tiles(m, *r, rb, policy, px, py);
            lemma_leaves_in_ids(*l);
            lemma_leaves_in_ids(*r);
            let la = spec_layout(m, *l, ra, policy).0;
            let lb = spec_layout(m, *r, rb, policy).0;
            assert(lay.dom() =~= s.ids());
            let nl = l.leaves().len();
            let nr = r.leaves().len();
            assert(s.leaves() == l.leaves() + r.leaves());
            assert forall|k: int| 0 <= k < nl implies #[trigger] lay[s.leaves()[k]] == la[l.leaves()[k]]
                && s.leaves()[k] == l.leaves()[k] by {
                assert(s.leaves()[k] == l.leaves()[k]);
                assert(l.ids().contains(l.leaves()[k]));
                assert(!r.ids().contains(l.leaves()[k]));
            }
            assert forall|k: int| nl <= k < nl + nr implies #[trigger] lay[s.leaves()[k]] == lb[r.leaves()[k - nl]]
                && s.leaves()[k] == r.leaves()[k - nl] by {
                assert(s.leaves()[k] == r.leaves()[k - nl]);
                assert(r.ids().contains(r.leaves()[k - nl]));
            }
            assert forall|k: int| 0 <= k < s.leaves().len() && #[trigger] lay[s.leaves()[k]].contains_point(px, py)
                implies rect.contains_point(px, py) by {
                if k < nl {
                    assert(la[l.leaves()[k]].contains_point(px, py));
                } else {
                    assert(lb[r.leaves()[k - nl]].contains_point(px, py));
                }
            }
            if rect.contains_point(px, py) {
                if ra.contains_point(px, py) {
                    let k = choose|k: int| 0 <= k < nl && #[trigger] la[l.leaves()[k]].contains_point(px, py);
                    assert(lay[s.leaves()[k]].contains_point(px, py));
                } else {
                    let k = choose|k: int| 0 <= k < nr && #[trigger] lb[r.leaves()[k]].contains_point(px, py);
                    assert(lay[s.leaves()[k + nl]].contains_point(px, py));
                }
            }
            assert forall|a: int, b: int|
                0 <= a < s.leaves().len() && 0 <= b < s.leaves().len() && a != b
                    && #[trigger] lay[s.leaves()[a]].contains_point(px, py)
                    implies !#[trigger] lay[s.leaves()[b]].contains_point(px, py) by {
                if a < nl && b < nl {
                    assert(la[l.leaves()[a]].contains_point(px, py));
                } else if a >= nl && b >= nl {
                    assert(lb[r.leaves()[a - nl]].contains_point(px, py));
                } else if a < nl {
                    assert(la[l.leaves()[a]].contains_point(px, py));
                    assert(ra.contains_point(px, py));
                    if lay[s.leaves()[b]].contains_point(px, py) {
                        assert(lb[r.leaves()[b - nl]].contains_point(px, py));
                        assert(rb.contains_point(px, py));
                    }
                } else {
                    assert(lb[r.leaves()[a - nl]].contains_point(px, py));
                    assert(rb.contains_point(px, py));
                    if lay[s.leaves()[b]].contains_point(px, py) {
                        assert(la[l.leaves()[b]].contains_point(px, py));
                        assert(ra.contains_point(px, py));
                    }
                }
            }
        },
    }
}

/// A solved layout tiles its root: every leaf of the tree has a rectangle,
/// each lies inside the root, and every cell of the root lies in the
/// rectangle of exactly one leaf.
pub proof fn law_solved_partitions<T>(
    tree: Tree<T>,
    root: Rect,
    revision: Revision,
    policy: SolverPolicy,
    snap: Snapshot,
    px: int,
    py: int,
)
    requires
        tree.well_formed(),
        tree.root is Some,
        root.edges_fit(),
        solved(tree, root, revision, policy, snap),
    ensures
        ({
            let leaves = tree.shape().leaves();
            let rects = snap.node_rects@;
            &&& forall|i: int| 0 <= i < leaves.len() ==> rects.contains_key(#[trigger] leaves[i])
            &&& forall|i: int| 0 <= i < leaves.len() && #[trigger] rects[leaves[i]].contains_point(px, py)
                ==> root.contains_point(px, py)
            &&& root.contains_point(px, py) ==> exists|i: int| 0 <= i < leaves.len()
                && #[trigger] rects[leaves[i]].contains_point(px, py)
            &&& forall|i: int, j: int|
                0 <= i < leaves.len() && 0 <= j < leaves.len() && i != j
                    && #[trigger] rects[leaves[i]].contains_point(px, py)
                    ==> !#[trigger] rects[leaves[j]].contains_point(px, py)
        }),
{
    let s = tree.shape();
    lemma_layout_tiles(tree.nodes@, s, root, policy, px, py);
    lemma_leaves_in_ids(s);
}


/// `rect` lies within the size envelope of `sum`: at least its minimum size
/// and at most its maximum (where there is one) along both axes.
pub open spec fn within_envelope(sum: Summary, rect: Rect) -> bool {
    &&& sum.min_w <= rect.w
    &&& sum.min_h <= rect.h
    &&& (sum.max_w matches Some(x) ==> rect.w <= x)
    &&& (sum.max_h matches Some(x) ==> rect.h <= x)
}

/// Some size lies within the envelope of `sum`.
pub open spec fn envelope_nonempty(sum: Summary) -> bool {
    &&& (sum.max_w matches Some(x) ==> sum.min_w <= x)
    &&& (sum.max_h matches Some(x) ==> sum.min_h <= x)
}

/// Every subtree of `s` has a non-empty envelope.
pub open spec fn envelopes_nonempty<T>(m: Map<NodeId, Node<T>>, s: Shape) -> bool
    decreases s,
{
    &&& envelope_nonempty(spec_summarize(m, s)->Ok_0)
    &&& match s {
        Shape::Tip(_) => true,
        Shape::Fork(_, l, r) => envelopes_nonempty(m, *l) && envelopes_nonempty(m, *r),
    }
}

/// Every stored node of `s` is valid.
pub open spec fn nodes_valid<T>(m: Map<NodeId, Node<T>>, s: Shape) -> bool {
    forall|k: NodeId| #[trigger] s.ids().contains(k) && m.contains_key(k) ==> crate::tree::node_valid(m[k])
}

proof fn lemma_nodes_valid_sides<T>(m: Map<NodeId, Node<T>>, s: Shape)
    requires
        nodes_valid(m, s),
    ensures
        nodes_valid(m, s.left()),
        nodes_valid(m, s.right()),
        s.ids().contains(s.id()),
{
    match s {
        Shape::Tip(_) => {},
        Shape::Fork(_, l, r) => {
            assert forall|k: NodeId| #[trigger] l.ids().contains(k) implies s.ids().contains(k) by {}
            assert forall|k: NodeId| #[trigger] r.ids().contains(k) implies s.ids().contains(k) by {}
        },
    }
}

/// A summary over valid leaves has a positive shrink cost.
proof fn lemma_shrink_positive<T>(m: Map<NodeId, Node<T>>, s: Shape)
    requires
        spec_summarize(m, s) is Ok,
        nodes_valid(m, s),
    ensures
        spec_summarize(m, s)->Ok_0.shrink_cost >= 1,
    decreases s,
{
    lemma_nodes_valid_sides(m, s);
    match s {
        Shape::Tip(_) => {},
        Shape::Fork(_, l, r) => {
            lemma_shrink_positive(m, *l);
            lemma_shrink_positive(m, *r);
        },
    }
}

/// When some allocation meets every minimum and maximum of a pair, the
/// chosen allocation does too.
proof fn lemma_feasible_pick(pair: PairSpec, policy: SolverPolicy)
    requires
        pair.min_a + pair.min_b <= pair.total,
        pair.max_a matches Some(x) ==> pair.min_a <= x,
        pair.max_b matches Some(x) ==> pair.min_b <= x,
        pair.max_a is Some && pair.max_b is Some ==> pair.total <= pair.max_a->0 + pair.max_b->0,
        pair.sa >= 1,
        pair.sb >= 1,
    ensures
        ({
            let c = spec_choose_extent(pair, policy);
            &&& c <= pair.total
            &&& pair.min_a <= c
            &&& pair.min_b <= pair.total - c
            &&& (pair.max_a matches Some(x) ==> c <= x)
            &&& (pair.max_b matches Some(x) ==> pair.total - c <= x)
        }),
{
    lemma_chosen_exists(pair, policy);
    let c = spec_choose_extent(pair, policy);
    let w = pair.total;
    let from_b: u32 = match pair.max_b {
        Some(x) => if x < w { (w - x) as u32 } else { 0 },
        None => 0,
    };
    let pick: u32 = if pair.min_a >= from_b { pair.min_a } else { from_b };
    assert(pick <= w);
    assert(pair.max_a matches Some(x) ==> pick <= x);
    assert(pick >= pair.min_a);
    assert(w - pick >= pair.min_b);
    let sp = spec_score(pair, policy, pick);
    assert(pos_diff(pair.min_a as int, pick as int) == 0);
    assert(pos_diff(pair.min_b as int, w - pick) == 0);
    assert(sp.shortage_penalty == 0) by {
        assert(0 * pair.sa == 0) by (nonlinear_arith);
        assert(0 * pair.sb == 0) by (nonlinear_arith);
    }
    assert(sp.overflow_penalty == 0);
    assert(!score_lt(sp, spec_score(pair, policy, c)));
    let sc = spec_score(pair, policy, c);
    assert(sc.shortage_penalty == 0);
    assert(sc.overflow_penalty == 0);
    let size_b = w - c;
    let short_a = pos_diff(pair.min_a as int, c as int);
    let short_b = pos_diff(pair.min_b as int, size_b);
    match policy.shortage_mode {
        ShortageMode::Equal => {
            assert(short_a + short_b <= u32::MAX + u32::MAX);
        },
        ShortageMode::ByShrinkPriority => {
            let sa = pair.sa;
            let sb = pair.sb;
            assert(short_a * sa + short_b * sb < 0x1_0000_0000_0000_0000_0000_0000_0000_0000int) by (nonlinear_arith)
                requires
                    short_a <= u32::MAX,
                    short_b <= u32::MAX,
                    sa <= u64::MAX,
                    sb <= u64::MAX,
            ;
            assert(short_a * sa + short_b * sb == 0);
            assert(short_a == 0 && short_b == 0) by (nonlinear_arith)
                requires
                    short_a * sa + short_b * sb == 0,
                    sa >= 1,
                    sb >= 1,
                    short_a >= 0,
                    short_b >= 0,
            ;
        },
    }
}

/// A layout that breaks no leaf limit has its rectangle within the summary's
/// envelope.
proof fn lemma_strict_within<T>(m: Map<NodeId, Node<T>>, s: Shape, rect: Rect, policy: SolverPolicy)
    requires
        spec_summarize(m, s) is Ok,
    ensures
        spec_layout(m, s, rect, policy).2.len() == 0 ==> within_envelope(spec_summarize(m, s)->Ok_0, rect),
    decreases s,
{
    match s {
        Shape::Tip(i) => {
            let lim = m[i]->Leaf_0.meta.limits;
            let v = leaf_violations(i, rect, lim);
            if v.len() == 0 {
                if rect.w < lim.min_w {
                    assert(v.len() >= 1);
                }
                if rect.h < lim.min_h {
                    assert(v.len() >= 1);
                }
                if let Some(x) = lim.max_w {
                    if rect.w > x {
                        assert(v.len() >= 1);
                    }
                }
                if let Some(x) = lim.max_h {
                    if rect.h > x {
                        assert(v.len() >= 1);
                    }
                }
            }
        },
        Shape::Fork(i, l, r) => {
            let sn = split_of(m[i]);
            let sa = spec_summarize(m, *l)->Ok_0;
            let sb = spec_summarize(m, *r)->Ok_0;
            let pair = pair_spec_for(sn, rect, sa, sb);
            let chosen = spec_choose_extent(pair, policy);
            lemma_chosen_exists(pair, policy);
            let (ra, rb) = rect.spec_split(sn.axis, chosen);
            lemma_strict_within(m, *l, ra, policy);
            lemma_strict_within(m, *r, rb, policy);
        },
    }
}

/// When every subtree's envelope is non-empty and the nodes are valid, a
/// rectangle within the envelope gets a layout that breaks no leaf limit.
proof fn lemma_within_strict<T>(m: Map<NodeId, Node<T>>, s: Shape, rect: Rect, policy: SolverPolicy)
    requires
        spec_summarize(m, s) is Ok,
        envelopes_nonempty(m, s),
        nodes_valid(m, s),
        within_envelope(spec_summarize(m, s)->Ok_0, rect),
    ensures
        spec_layout(m, s, rect, policy).2.len() == 0,
    decreases s,
{
    lemma_nodes_valid_sides(m, s);
    match s {
        Shape::Tip(i) => {
            assert(leaf_violations(i, rect, m[i]->Leaf_0.meta.limits) =~= Seq::<Violation>::empty());
        },
        Shape::Fork(i, l, r) => {
            let sn = split_of(m[i]);
            let sa = spec_summarize(m, *l)->Ok_0;
            let sb = spec_summarize(m, *r)->Ok_0;
            let pair = pair_spec_for(sn, rect, sa, sb);
            lemma_shrink_positive(m, *l);
            lemma_shrink_positive(m, *r);
            assert(envelopes_nonempty(m, *l) && envelopes_nonempty(m, *r));
            assert(envelope_nonempty(sa) && envelope_nonempty(sb));
            lemma_feasible_pick(pair, policy);
            let chosen = spec_choose_extent(pair, policy);
            let (ra, rb) = rect.spec_split(sn.axis, chosen);
            lemma_within_strict(m, *l, ra, policy);
            lemma_within_strict(m, *r, rb, policy);
        },
    }
}

/// Strict feasibility is the summary's envelope. A solved layout that breaks
/// no leaf limit has its root within the minimum and maximum sizes of the
/// tree's summary; and when every subtree's envelope is non-empty, every root
/// within the envelope is solved without breaking any limit.
pub proof fn law_strict_envelope<T>(tree: Tree<T>, root: Rect, policy: SolverPolicy)
    requires
        solvable(tree),
        tree.root is Some,
    ensures
        ({
            let m = tree.nodes@;
            let sum = spec_summarize(m, tree.shape())->Ok_0;
            let lay = spec_layout(m, tree.shape(), root, policy);
            &&& lay.2.len() == 0 ==> within_envelope(sum, root)
            &&& envelopes_nonempty(m, tree.shape()) && within_envelope(sum, root) ==> lay.2.len() == 0
        }),
{
    let m = tree.nodes@;
    let s = tree.shape();
    lemma_strict_within(m, s, root, policy);
    if envelopes_nonempty(m, s) && within_envelope(spec_summarize(m, s)->Ok_0, root) {
        lemma_within_strict(m, s, root, policy);
    }
}


/// The leaf count of a summary computed over a shape is its number of leaves.
proof fn lemma_summary_leaf_count<T>(m: Map<NodeId, Node<T>>, s: Shape)
    requires
        spec_summarize(m, s) is Ok,
    ensures
        spec_summarize(m, s)->Ok_0.leaf_count == s.leaves().len(),
    decreases s,
{
    match s {
        Shape::Tip(_) => {},
        Shape::Fork(i, l, r) => {
            lemma_summary_leaf_count(m, *l);
            lemma_summary_leaf_count(m, *r);
        },
    }
}

/// A summary of the subtree below `id` counts exactly the leaves of that
/// subtree: every leaf once, whatever the axes of the splits above it.
pub proof fn law_summary_counts_leaves<T>(m: Map<NodeId, Node<T>>, id: NodeId)
    requires
        finite_below(m, id),
        spec_summarize(m, shape_of(m, id)) is Ok,
    ensures
        spec_summarize(m, shape_of(m, id))->Ok_0.leaf_count == shape_of(m, id).leaves().len(),
{
    lemma_summary_leaf_count(m, shape_of(m, id));
}

} // verus!
