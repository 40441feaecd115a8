use vstd::prelude::*;

use std::collections::HashMap;

use crate::geom::{orth_gap, orth_gap_fits, spec_orth_gap, Axis, Direction, Rect};
use crate::ids::NodeId;
use crate::tree::{lemma_node_shape, lemma_tips_are_leaves, shape_of, Tree};
use vstd::std_specs::iter::IteratorSpec;

verus! {

broadcast use vstd::std_specs::hash::group_hash_axioms;

/// Ranking of a navigation candidate; smaller is better, compared field by
/// field in declaration order.
#[derive(Debug, Clone, Copy, PartialEq, Eq, PartialOrd, Ord, Structural)]
pub struct NavScore {
    pub primary_gap: u32,
    pub orth_gap: u32,
    pub orth_center_delta: u64,
    pub tree_order_rank: usize,
}

/// Lexicographic "strictly better" on scores.
pub open spec fn score_less(a: NavScore, b: NavScore) -> bool {
    ||| a.primary_gap < b.primary_gap
    ||| (a.primary_gap == b.primary_gap && a.orth_gap < b.orth_gap)
    ||| (a.primary_gap == b.primary_gap && a.orth_gap == b.orth_gap && a.orth_center_delta
        < b.orth_center_delta)
    ||| (a.primary_gap == b.primary_gap && a.orth_gap == b.orth_gap && a.orth_center_delta
        == b.orth_center_delta && a.tree_order_rank < b.tree_order_rank)
}

/// Vertical extent computations of `r` stay in `i32`.
pub open spec fn vert_fit(r: Rect) -> bool {
    r.h <= i32::MAX && r.y + r.h <= i32::MAX
}

/// Horizontal extent computations of `r` stay in `i32`.
pub open spec fn horiz_fit(r: Rect) -> bool {
    r.w <= i32::MAX && r.x + r.w <= i32::MAX
}

/// Signed distance from the current rectangle's edge facing `dir` to the
/// candidate's opposite edge.
pub open spec fn primary_distance(current: Rect, candidate: Rect, dir: Direction) -> int {
    match dir {
        Direction::Left => current.x - (candidate.x + candidate.w),
        Direction::Right => candidate.x - (current.x + current.w),
        Direction::Up => current.y - (candidate.y + candidate.h),
        Direction::Down => candidate.y - (current.y + current.h),
    }
}

/// The axis along which `dir` moves.
pub open spec fn dir_axis(dir: Direction) -> Axis {
    match dir {
        Direction::Left | Direction::Right => Axis::X,
        Direction::Up | Direction::Down => Axis::Y,
    }
}

/// The inputs on which `nav_score` computes without overflow.
pub open spec fn nav_score_defined(current: Rect, candidate: Rect, dir: Direction) -> bool {
    let d = primary_distance(current, candidate, dir);
    &&& match dir {
        Direction::Left => horiz_fit(candidate),
        Direction::Right => horiz_fit(current),
        Direction::Up => vert_fit(candidate),
        Direction::Down => vert_fit(current),
    }
    &&& i32::MIN <= d <= i32::MAX
    &&& d >= 0 ==> match dir_axis(dir) {
        Axis::X => vert_fit(current) && vert_fit(candidate) && orth_gap_fits(
            current.y as int,
            current.y + current.h,
            candidate.y as int,
            candidate.y + candidate.h,
        ),
        Axis::Y => horiz_fit(current) && horiz_fit(candidate) && orth_gap_fits(
            current.x as int,
            current.x + current.w,
            candidate.x as int,
            candidate.x + candidate.w,
        ),
    }
}

/// Absolute difference of two integers.
pub open spec fn abs_diff(a: int, b: int) -> int {
    if a >= b {
        a - b
    } else {
        b - a
    }
}

/// The score of moving from `current` to `candidate` in `dir`: `None` when the
/// candidate does not lie entirely on the `dir` side of `current`; otherwise the
/// edge gap, the gap across the movement axis, the distance of the centres
/// across the movement axis (doubled), and the candidate's rank.
pub open spec fn spec_nav_score(current: Rect, candidate: Rect, dir: Direction, rank: usize) -> Option<
    NavScore,
> {
    let d = primary_distance(current, candidate, dir);
    if d < 0 {
        None
    } else {
        let axis = dir_axis(dir);
        let og = match axis {
            Axis::X => spec_orth_gap(
                current.y as int,
                current.y + current.h,
                candidate.y as int,
                candidate.y + candidate.h,
            ),
            Axis::Y => spec_orth_gap(
                current.x as int,
                current.x + current.w,
                candidate.x as int,
                candidate.x + candidate.w,
            ),
        };
        Some(
            NavScore {
                primary_gap: d as u32,
                orth_gap: og as u32,
                orth_center_delta: abs_diff(
                    current.spec_center_twice_orth(axis),
                    candidate.spec_center_twice_orth(axis),
                ) as u64,
                tree_order_rank: rank,
            },
        )
    }
}

fn abs_diff_i64(a: i64, b: i64) -> (r: u64)
    requires
        -0x1_0000_0000_0000 <= a <= 0x1_0000_0000_0000,
        -0x1_0000_0000_0000 <= b <= 0x1_0000_0000_0000,
    ensures
        r == abs_diff(a as int, b as int),
{
    if a >= b {
        (a - b) as u64
    } else {
        (b - a) as u64
    }
}

/// `true` when score `a` is strictly better than score `b`.
pub fn nav_score_less(a: &NavScore, b: &NavScore) -> (r: bool)
    ensures
        r == score_less(*a, *b),
{
    if a.primary_gap != b.primary_gap {
        a.primary_gap < b.primary_gap
    } else if a.orth_gap != b.orth_gap {
        a.orth_gap < b.orth_gap
    } else if a.orth_center_delta != b.orth_center_delta {
        a.orth_center_delta < b.orth_center_delta
    } else {
        a.tree_order_rank < b.tree_order_rank
    }
}

#[must_use]
pub fn nav_score(current: Rect, candidate: Rect, dir: Direction, rank: usize) -> (r: Option<
    NavScore,
>)
    requires
        nav_score_defined(current, candidate, dir),
    ensures
        r == spec_nav_score(current, candidate, dir, rank),
{
    let (eligible, primary_gap, orth_gap_value, orth_center_delta) = match dir {
        Direction::Left => {
            let eligible = candidate.right() <= current.left();
            let diff = current.left() - candidate.right();
            if diff < 0 {
                return None;
            }
            let primary_gap = diff as u32;
            let orth_gap_value = orth_gap(
                current.top(),
                current.bottom(),
                candidate.top(),
                candidate.bottom(),
            );
            let orth_center_delta = abs_diff_i64(
                current.center_twice_orth(Axis::X),
                candidate.center_twice_orth(Axis::X),
            );
            (eligible, primary_gap, orth_gap_value, orth_center_delta)
        },
        Direction::Right => {
            let eligible = candidate.left() >= current.right();
            let diff = candidate.left() - current.right();
            if diff < 0 {
                return None;
            }
            let primary_gap = diff as u32;
            let orth_gap_value = orth_gap(
                current.top(),
                current.bottom(),
                candidate.top(),
                candidate.bottom(),
            );
            let orth_center_delta = abs_diff_i64(
                current.center_twice_orth(Axis::X),
                candidate.center_twice_orth(Axis::X),
            );
            (eligible, primary_gap, orth_gap_value, orth_center_delta)
        },
        Direction::Up => {
            let eligible = candidate.bottom() <= current.top();
            let diff = current.top() - candidate.bottom();
            if diff < 0 {
                return None;
            }
            let primary_gap = diff as u32;
            let orth_gap_value = orth_gap(
                current.left(),
                current.right(),
                candidate.left(),
                candidate.right(),
            );
            let orth_center_delta = abs_diff_i64(
                current.center_twice_orth(Axis::Y),
                candidate.center_twice_orth(Axis::Y),
            );
            (eligible, primary_gap, orth_gap_value, orth_center_delta)
        },
        Direction::Down => {
            let eligible = candidate.top() >= current.bottom();
            let diff = candidate.top() - current.bottom();
            if diff < 0 {
                return None;
            }
            let primary_gap = diff as u32;
            let orth_gap_value = orth_gap(
                current.left(),
                current.right(),
                candidate.left(),
                candidate.right(),
            );
            let orth_center_delta = abs_diff_i64(
                current.center_twice_orth(Axis::Y),
                candidate.center_twice_orth(Axis::Y),
            );
            (eligible, primary_gap, orth_gap_value, orth_center_delta)
        },
    };
    if eligible {
        Some(
            NavScore {
                primary_gap,
                orth_gap: orth_gap_value,
                orth_center_delta,
                tree_order_rank: rank,
            },
        )
    } else {
        None
    }
}


/// The position of `id` among the first `n` entries of `order` (its last
/// occurrence), or `usize::MAX` when it is not there.
pub open spec fn order_rank(order: Seq<NodeId>, id: NodeId, n: int) -> usize
    decreases n,
{
    if n <= 0 {
        usize::MAX
    } else if order[n - 1] == id {
        (n - 1) as usize
    } else {
        order_rank(order, id, n - 1)
    }
}

/// The leaves of the tree, left to right.
pub open spec fn leaf_order<T>(tree: Tree<T>) -> Seq<NodeId> {
    match tree.root {
        Some(r) => shape_of(tree.nodes@, r).leaves(),
        None => Seq::empty(),
    }
}

/// The score of moving from `current` to the rectangle of `id` in `rects`.
pub open spec fn candidate_score(
    order: Seq<NodeId>,
    rects: Map<NodeId, Rect>,
    current: NodeId,
    id: NodeId,
    dir: Direction,
) -> Option<NavScore> {
    spec_nav_score(rects[current], rects[id], dir, order_rank(order, id, order.len() as int))
}

/// `id` is another rectangle of `rects` that lies on the `dir` side of
/// `current`.
pub open spec fn is_candidate(
    order: Seq<NodeId>,
    rects: Map<NodeId, Rect>,
    current: NodeId,
    id: NodeId,
    dir: Direction,
) -> bool {
    &&& rects.contains_key(id)
    &&& id != current
    &&& candidate_score(order, rects, current, id, dir) is Some
}

/// `id` is a candidate that no other candidate scores strictly better than.
pub open spec fn is_best(
    order: Seq<NodeId>,
    rects: Map<NodeId, Rect>,
    current: NodeId,
    id: NodeId,
    dir: Direction,
) -> bool {
    &&& is_candidate(order, rects, current, id, dir)
    &&& forall|k: NodeId|
        #[trigger] is_candidate(order, rects, current, k, dir) ==> !score_less(
            candidate_score(order, rects, current, k, dir)->0,
            candidate_score(order, rects, current, id, dir)->0,
        )
}

fn rank_in(order: &Vec<NodeId>, id: NodeId) -> (r: usize)
    ensures
        r == order_rank(order@, id, order@.len() as int),
{
    let mut rank: usize = usize::MAX;
    let mut i: usize = 0;
    while i < order.len()
        invariant
            0 <= i <= order@.len(),
            rank == order_rank(order@, id, i as int),
        decreases order@.len() - i,
    {
        if order[i] == id {
            rank = i;
        }
        i = i + 1;
    }
    rank
}

/// The neighbour of `current` in direction `dir`: among the other rectangles
/// of `leaf_rects` lying entirely on the `dir` side of `current`'s, one with
/// the smallest score (edge gap, then gap across, then centre distance, then
/// left-to-right leaf order). `None` when `current` has no rectangle or no
/// rectangle qualifies.
#[must_use]
pub fn best_neighbor<T>(
    tree: &Tree<T>,
    leaf_rects: &HashMap<NodeId, Rect>,
    current: NodeId,
    dir: Direction,
) -> (r: Option<NodeId>)
    requires
        tree.well_formed(),
        leaf_rects@.contains_key(current) ==> forall|k: NodeId| #[trigger]
            leaf_rects@.contains_key(k) ==> nav_score_defined(leaf_rects@[current], leaf_rects@[k], dir),
    ensures
        !leaf_rects@.contains_key(current) ==> r is None,
        leaf_rects@.contains_key(current) ==> (r is None <==> !exists|k: NodeId| #[trigger]
            is_candidate(leaf_order(*tree), leaf_rects@, current, k, dir)),
        r matches Some(id) ==> is_best(leaf_order(*tree), leaf_rects@, current, id, dir),
{
    let current_rect = match leaf_rects.get(&current) {
        Some(rect) => *rect,
        None => return None,
    };
    let order: Vec<NodeId> = match tree.root {
        Some(root) => {
            proof {
                lemma_node_shape(tree, root);
                lemma_tips_are_leaves(tree.nodes@, root, shape_of(tree.nodes@, root));
            }
            tree.leaf_ids_dfs(root)
        },
        None => Vec::new(),
    };
    let ghost ord = order@;
    let ghost rects = leaf_rects@;
    assert(ord == leaf_order(*tree));
    let ghost keys = leaf_rects.keys().remaining().unref();
    let mut best: Option<(NodeId, NavScore)> = None;
    for k in it: leaf_rects.keys()
        invariant
            it.seq().unref() == keys,
            it.seq().unref().to_set() == rects.dom(),
            rects == leaf_rects@,
            ord == order@,
            rects.contains_key(current),
            current_rect == rects[current],
            forall|k: NodeId| #[trigger] rects.contains_key(k) ==> nav_score_defined(rects[current], rects[k], dir),
            best is None ==> forall|j: int| 0 <= j < it.index() ==> !is_candidate(ord, rects, current, #[trigger] keys[j], dir),
            best matches Some(b) ==> {
                &&& is_candidate(ord, rects, current, b.0, dir)
                &&& candidate_score(ord, rects, current, b.0, dir) == Some(b.1)
                &&& forall|j: int| 0 <= j < it.index() && is_candidate(ord, rects, current, #[trigger] keys[j], dir)
                    ==> !score_less(candidate_score(ord, rects, current, keys[j], dir)->0, b.1)
            },
    {
        assert(*k == keys[it.index()]);
        assert(keys.to_set().contains(*k));
        let id = *k;
        if id != current {
            let rect = match leaf_rects.get(&id) {
                Some(rect) => *rect,
                None => current_rect,
            };
            let rank = rank_in(&order, id);
            match nav_score(current_rect, rect, dir, rank) {
                Some(score) => {
                    let better = match best {
                        None => true,
                        Some(b) => nav_score_less(&score, &b.1),
                    };
                    if better {
                        best = Some((id, score));
                    }
                },
                None => {},
            }
        }
    }
    proof {
        assert forall|k: NodeId| #[trigger] is_candidate(ord, rects, current, k, dir) implies keys.contains(k) by {
            assert(keys.to_set().contains(k));
        }
        if let Some(b) = best {
            assert forall|k: NodeId| #[trigger] is_candidate(ord, rects, current, k, dir) implies !score_less(
                candidate_score(ord, rects, current, k, dir)->0,
                candidate_score(ord, rects, current, b.0, dir)->0,
            ) by {
                let j = keys.index_of(k);
            }
        } else {
            assert forall|k: NodeId| !#[trigger] is_candidate(ord, rects, current, k, dir) by {
                if is_candidate(ord, rects, current, k, dir) {
                    let j = keys.index_of(k);
                }
            }
        }
    }
    match best {
        Some(b) => Some(b.0),
        None => None,
    }
}

} // verus!
