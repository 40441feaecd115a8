use vstd::prelude::*;

use std::collections::HashMap;

use crate::error::OpError;
use crate::geom::{Axis, Direction, Rect};
use crate::ids::NodeId;
use crate::limits::{canonicalize_weights, spec_canonical, Summary, WeightPair};
use crate::resize::{
    alloc_within, distribute_resize, min_u32, resize_sign, sat_sub, spec_distribute,
    spec_resize_sign, EligibleSplit, ResizeStrategy,
};
use crate::session::{is_leaf_at, Session};
use crate::snapshot::Snapshot;
use crate::solver::{cache_ok, spec_summarize, summarize};
use crate::adjust::{lemma_rewrite_valid, rewritten};
use crate::tree_links::lemma_path_no_dups;
use crate::tree::{
    has_shape, is_split_at, lemma_shape_of, lemma_tree_acyclic, node_parent, node_valid,
    same_links, shape_of, split_of, Node, Shape, SplitNode, Tree,
};

verus! {

broadcast use vstd::std_specs::hash::group_hash_axioms;

/// The ancestors of `id` in a well-formed tree, nearest first.
pub open spec fn tree_ancestors<T>(tree: Tree<T>, id: NodeId) -> Seq<NodeId> {
    if tree.nodes@.contains_key(id) {
        tree.shape().path_to(id).drop_last().reverse()
    } else {
        Seq::empty()
    }
}

/// What the search for eligible splits computes at ancestor `k` stays in
/// range: the far edges it compares fit `i32` (the focus rectangle `f` and the
/// first child, for a split across the axis of `dir` with the focus in its
/// first child, moving right or down), and the extents of an eligible split's
/// children add up within `u32`.
pub open spec fn ancestor_fits<T>(
    m: Map<NodeId, Node<T>>,
    focus: NodeId,
    dir: Direction,
    rects: Map<NodeId, Rect>,
    f: Rect,
    k: NodeId,
) -> bool {
    let sn = split_of(m[k]);
    is_split_at(m, k) && rects.contains_key(sn.a) && rects.contains_key(sn.b) ==> {
        let a = rects[sn.a];
        let b = rects[sn.b];
        let in_a = shape_of(m, sn.a).ids().contains(focus);
        &&& (dir is Right && sn.axis == Axis::X && in_a ==> {
            &&& f.w <= i32::MAX && f.x + f.w <= i32::MAX
            &&& a.w <= i32::MAX && a.x + a.w <= i32::MAX
        })
        &&& (dir is Down && sn.axis == Axis::Y && in_a ==> {
            &&& f.h <= i32::MAX && f.y + f.h <= i32::MAX
            &&& a.h <= i32::MAX && a.y + a.h <= i32::MAX
        })
        &&& (edge_shared(dir, sn.axis, in_a, f, a, b) ==> a.spec_extent(sn.axis) + b.spec_extent(
            sn.axis,
        ) <= u32::MAX)
    }
}

/// Every ancestor of the focus that the search for eligible splits reaches
/// (no lookup failed before it) keeps its arithmetic in range.
pub open spec fn resize_rects_fit<T>(
    tree: Tree<T>,
    focus: NodeId,
    dir: Direction,
    rects: Map<NodeId, Rect>,
    sums: Map<NodeId, Summary>,
) -> bool {
    let anc = tree_ancestors(tree, focus);
    rects.contains_key(focus) ==> forall|j: int|
        0 <= j < anc.len() && eligible_upto(tree.nodes@, focus, dir, rects, sums, rects[focus], anc, j)
            is Ok ==> ancestor_fits(tree.nodes@, focus, dir, rects, rects[focus], #[trigger] anc[j])
}

/// A resize gets past its early exits: a non-zero amount, a snapshot of the
/// current revision, and a focused leaf.
pub open spec fn resize_reaches_tree<T>(s: Session<T>, amount: u32, snap: Snapshot) -> bool {
    &&& amount > 0
    &&& snap.revision == s.revision
    &&& s.focus matches Some(f) && is_leaf_at(s.tree.nodes@, f)
}

/// A resize that also summarizes the tree without error, and so searches the
/// ancestors of the focus for eligible splits.
pub open spec fn resize_searches<T>(s: Session<T>, amount: u32, snap: Snapshot) -> bool {
    &&& resize_reaches_tree(s, amount, snap)
    &&& spec_summarize(s.tree.nodes@, s.tree.shape()) is Ok
}

/// A resize that finds eligible splits: the one case in which it moves
/// weights and advances the revision.
pub open spec fn resize_moves<T>(s: Session<T>, dir: Direction, amount: u32, snap: Snapshot) -> bool {
    &&& resize_searches(s, amount, snap)
    &&& spec_eligible(s.tree, s.focus->0, dir, snap.node_rects@, summary_map(s.tree.nodes@)) matches Ok(es)
        && es.len() > 0
}

/// The edge between the two children of a split along `axis` is the edge of
/// the focus rectangle `f` facing `dir` (`in_a`: the focus lies in the first
/// child).
pub open spec fn edge_shared(dir: Direction, axis: Axis, in_a: bool, f: Rect, a: Rect, b: Rect) -> bool {
    match dir {
        Direction::Right => axis == Axis::X && in_a && f.spec_right() == a.spec_right(),
        Direction::Left => axis == Axis::X && !in_a && f.x == b.x,
        Direction::Down => axis == Axis::Y && in_a && f.spec_bottom() == a.spec_bottom(),
        Direction::Up => axis == Axis::Y && !in_a && f.y == b.y,
    }
}

/// For every direction, growing and shrinking move the focus edge in opposite
/// directions, and growing toward the left or the top moves the shared edge
/// back, toward the first child.
pub proof fn law_grow_and_shrink_oppose(dir: Direction)
    ensures
        spec_resize_sign(dir, true) == -spec_resize_sign(dir, false),
        spec_resize_sign(dir, true) == (if dir is Left || dir is Up { -1i8 } else { 1i8 }),
{
}

/// Growing the focus moves its edge away from it and shrinking moves it back:
/// at a split whose shared edge is the focus edge facing `dir`, an outward
/// resize widens the child holding the focus (the first child's extent grows
/// exactly when the focus lies in it, so moving left or up the first child
/// shrinks), and an inward resize moves the edge the opposite way.
pub proof fn law_grow_widens_the_focus_side(dir: Direction, axis: Axis, in_a: bool, f: Rect, a: Rect, b: Rect)
    requires
        edge_shared(dir, axis, in_a, f, a, b),
    ensures
        spec_resize_sign(dir, true) == (if in_a { 1i8 } else { -1i8 }),
        spec_resize_sign(dir, false) == -spec_resize_sign(dir, true),
        (dir is Left || dir is Up) ==> spec_resize_sign(dir, true) == -1,
        (dir is Right || dir is Down) ==> spec_resize_sign(dir, true) == 1,
{
}

/// The larger of two numbers.
pub open spec fn max_of(a: u32, b: u32) -> u32 {
    if a >= b {
        a
    } else {
        b
    }
}

/// The entry of an eligible split: the total extent of its children, the
/// first child's extent, and the range of first-child extents that both
/// children's limits allow.
pub open spec fn entry_for(split: NodeId, axis: Axis, a: Rect, b: Rect, sa: Summary, sb: Summary) -> EligibleSplit {
    let total = (a.spec_extent(axis) + b.spec_extent(axis)) as u32;
    let (min_a, max_a) = sa.spec_axis_limits(axis);
    let (min_b, max_b) = sb.spec_axis_limits(axis);
    let lo = max_of(
        min_a,
        match max_b {
            Some(mb) => sat_sub(total, mb),
            None => 0,
        },
    );
    let hi = min_u32(
        sat_sub(total, min_b),
        match max_a {
            Some(ma) => ma,
            None => total,
        },
    );
    EligibleSplit { split, total, current_a: a.spec_extent(axis), lo, hi }
}

/// What the ancestor `k` contributes: an entry if its shared edge is the focus
/// edge facing `dir`, nothing if not, or the error met looking it up.
pub open spec fn ancestor_entry<T>(
    m: Map<NodeId, Node<T>>,
    focus: NodeId,
    dir: Direction,
    rects: Map<NodeId, Rect>,
    sums: Map<NodeId, Summary>,
    f: Rect,
    k: NodeId,
) -> Result<Option<EligibleSplit>, OpError> {
    if !is_split_at(m, k) {
        Err(OpError::NotSplit(k))
    } else {
        let sn = split_of(m[k]);
        if !rects.contains_key(sn.a) {
            Err(OpError::MissingNode(sn.a))
        } else if !rects.contains_key(sn.b) {
            Err(OpError::MissingNode(sn.b))
        } else {
            let in_a = shape_of(m, sn.a).ids().contains(focus);
            if !edge_shared(dir, sn.axis, in_a, f, rects[sn.a], rects[sn.b]) {
                Ok(None)
            } else if !sums.contains_key(sn.a) {
                Err(OpError::MissingNode(sn.a))
            } else if !sums.contains_key(sn.b) {
                Err(OpError::MissingNode(sn.b))
            } else {
                Ok(Some(entry_for(k, sn.axis, rects[sn.a], rects[sn.b], sums[sn.a], sums[sn.b])))
            }
        }
    }
}

/// The entries of the first `n` ancestors of `anc`, in order, or the first
/// error met.
pub open spec fn eligible_upto<T>(
    m: Map<NodeId, Node<T>>,
    focus: NodeId,
    dir: Direction,
    rects: Map<NodeId, Rect>,
    sums: Map<NodeId, Summary>,
    f: Rect,
    anc: Seq<NodeId>,
    n: int,
) -> Result<Seq<EligibleSplit>, OpError>
    decreases n,
{
    if n <= 0 {
        Ok(Seq::empty())
    } else {
        match eligible_upto(m, focus, dir, rects, sums, f, anc, n - 1) {
            Err(e) => Err(e),
            Ok(prev) => match ancestor_entry(m, focus, dir, rects, sums, f, anc[n - 1]) {
                Err(e) => Err(e),
                Ok(None) => Ok(prev),
                Ok(Some(e)) => Ok(prev.push(e)),
            },
        }
    }
}

/// The ancestor splits of the focus whose shared edge is the focus edge facing
/// `dir`, nearest first, or the first lookup error (the focus rectangle first).
pub open spec fn spec_eligible<T>(
    tree: Tree<T>,
    focus: NodeId,
    dir: Direction,
    rects: Map<NodeId, Rect>,
    sums: Map<NodeId, Summary>,
) -> Result<Seq<EligibleSplit>, OpError> {
    if !rects.contains_key(focus) {
        Err(OpError::MissingNode(focus))
    } else {
        let anc = tree_ancestors(tree, focus);
        eligible_upto(tree.nodes@, focus, dir, rects, sums, rects[focus], anc, anc.len() as int)
    }
}

/// Entries name distinct splits of `m`, and their first extents and upper
/// bounds stay within their totals.
pub open spec fn entries_sane<T>(m: Map<NodeId, Node<T>>, es: Seq<EligibleSplit>) -> bool {
    &&& forall|i: int| 0 <= i < es.len() ==> #[trigger] is_split_at(m, es[i].split)
    &&& forall|i: int| 0 <= i < es.len() ==> (#[trigger] es[i]).current_a <= es[i].total
    &&& forall|i: int| 0 <= i < es.len() ==> (#[trigger] es[i]).hi <= es[i].total
    &&& forall|i: int, j: int| 0 <= i < j < es.len() ==> (#[trigger] es[i]).split != (#[trigger] es[j]).split
}

/// An error met at some ancestor is the final answer.
proof fn lemma_err_sticks<T>(
    m: Map<NodeId, Node<T>>,
    focus: NodeId,
    dir: Direction,
    rects: Map<NodeId, Rect>,
    sums: Map<NodeId, Summary>,
    f: Rect,
    anc: Seq<NodeId>,
    n: int,
    n2: int,
)
    requires
        eligible_upto(m, focus, dir, rects, sums, f, anc, n) is Err,
        n <= n2,
    ensures
        eligible_upto(m, focus, dir, rects, sums, f, anc, n2) == eligible_upto(
            m,
            focus,
            dir,
            rects,
            sums,
            f,
            anc,
            n,
        ),
    decreases n2 - n,
{
    if n < n2 {
        lemma_err_sticks(m, focus, dir, rects, sums, f, anc, n, n2 - 1);
    }
}

/// Entries found for distinct ancestors are sane, and each names one of the
/// first `n` ancestors.
proof fn lemma_upto_sane<T>(
    m: Map<NodeId, Node<T>>,
    focus: NodeId,
    dir: Direction,
    rects: Map<NodeId, Rect>,
    sums: Map<NodeId, Summary>,
    f: Rect,
    anc: Seq<NodeId>,
    n: int,
)
    requires
        0 <= n <= anc.len(),
        anc.no_duplicates(),
        forall|j: int|
            0 <= j < n && eligible_upto(m, focus, dir, rects, sums, f, anc, j) is Ok ==> ancestor_fits(
                m,
                focus,
                dir,
                rects,
                f,
                #[trigger] anc[j],
            ),
        eligible_upto(m, focus, dir, rects, sums, f, anc, n) is Ok,
    ensures
        entries_sane(m, eligible_upto(m, focus, dir, rects, sums, f, anc, n)->Ok_0),
        forall|i: int|
            #![trigger eligible_upto(m, focus, dir, rects, sums, f, anc, n)->Ok_0[i]]
            0 <= i < eligible_upto(m, focus, dir, rects, sums, f, anc, n)->Ok_0.len() ==> exists|j: int|
                0 <= j < n && anc[j] == eligible_upto(
                    m,
                    focus,
                    dir,
                    rects,
                    sums,
                    f,
                    anc,
                    n,
                )->Ok_0[i].split,
    decreases n,
{
    if n > 0 {
        lemma_upto_sane(m, focus, dir, rects, sums, f, anc, n - 1);
        let prev = eligible_upto(m, focus, dir, rects, sums, f, anc, n - 1)->Ok_0;
        let cur = eligible_upto(m, focus, dir, rects, sums, f, anc, n)->Ok_0;
        let k = anc[n - 1];
        match ancestor_entry(m, focus, dir, rects, sums, f, k) {
            Ok(Some(e)) => {
                assert(cur == prev.push(e));
                let sn = split_of(m[k]);
                assert(is_split_at(m, anc[n - 1]));
                assert(ancestor_fits(m, focus, dir, rects, f, anc[n - 1]));
                assert forall|i: int|
                    #![trigger cur[i]]
                    0 <= i < cur.len() implies exists|j: int| 0 <= j < n && anc[j] == cur[i].split by {
                    if i < prev.len() {
                        assert(cur[i] == prev[i]);
                        let j = choose|j: int| 0 <= j < n - 1 && anc[j] == prev[i].split;
                    } else {
                        assert(anc[n - 1] == cur[i].split);
                    }
                }
                assert forall|i: int, j: int| 0 <= i < j < cur.len() implies (#[trigger] cur[i]).split
                    != (#[trigger] cur[j]).split by {
                    if j == cur.len() - 1 {
                        assert(cur[i] == prev[i]);
                        let jj = choose|jj: int| 0 <= jj < n - 1 && anc[jj] == prev[i].split;
                        assert(anc[jj] != anc[n - 1]);
                    } else {
                        assert(cur[i] == prev[i]);
                        assert(cur[j] == prev[j]);
                    }
                }
                assert forall|i: int| 0 <= i < cur.len() implies #[trigger] is_split_at(m, cur[i].split) by {
                    if i < prev.len() {
                        assert(cur[i] == prev[i]);
                    }
                }
                assert forall|i: int| 0 <= i < cur.len() implies (#[trigger] cur[i]).current_a
                    <= cur[i].total && cur[i].hi <= cur[i].total by {
                    if i < prev.len() {
                        assert(cur[i] == prev[i]);
                    }
                }
            },
            _ => {
                assert forall|i: int|
                    #![trigger cur[i]]
                    0 <= i < cur.len() implies exists|j: int| 0 <= j < n && anc[j] == cur[i].split by {
                    let j = choose|j: int| 0 <= j < n - 1 && anc[j] == prev[i].split;
                }
            },
        }
    }
}

/// The ancestors of a node name no node twice.
proof fn lemma_ancestors_no_dups<T>(tree: Tree<T>, id: NodeId)
    requires
        tree.well_formed(),
    ensures
        tree_ancestors(tree, id).no_duplicates(),
{
    if tree.nodes@.contains_key(id) {
        let s = tree.shape();
        crate::tree::lemma_sub_shape(tree.nodes@, tree.root.unwrap(), s, id);
        lemma_path_no_dups(s, id);
        let p = s.path_to(id);
        let q = p.drop_last().reverse();
        assert forall|a: int, b: int| 0 <= a < b < q.len() implies q[a] != q[b] by {
            assert(q[a] == p[p.len() - 2 - a]);
            assert(q[b] == p[p.len() - 2 - b]);
        }
    }
}

impl<T> Session<T> {
    /// The ancestor splits of `focus` whose shared edge is the focus edge
    /// facing `dir`, nearest first, with the range each may move in.
    pub(crate) fn eligible_splits(
        &self,
        focus: NodeId,
        dir: Direction,
        snap: &Snapshot,
        summaries: &HashMap<NodeId, Summary>,
    ) -> (r: Result<Vec<EligibleSplit>, OpError>)
        requires
            self.tree.well_formed(),
            resize_rects_fit(self.tree, focus, dir, snap.node_rects@, summaries@),
        ensures
            spec_eligible(self.tree, focus, dir, snap.node_rects@, summaries@) is Ok <==> r is Ok,
            r matches Ok(v) ==> spec_eligible(self.tree, focus, dir, snap.node_rects@, summaries@)
                == Ok::<Seq<EligibleSplit>, OpError>(v@),
            r matches Err(e) ==> spec_eligible(self.tree, focus, dir, snap.node_rects@, summaries@)
                == Err::<Seq<EligibleSplit>, OpError>(e),
            r matches Ok(v) ==> entries_sane(self.tree.nodes@, v@),
    {
        let ghost m = self.tree.nodes@;
        let ghost rects = snap.node_rects@;
        let ghost sums = summaries@;
        let focus_rect = match snap.rect(focus) {
            Some(rect) => rect,
            None => return Err(OpError::MissingNode(focus)),
        };
        let anc = self.tree.ancestors_nearest_first(focus);
        proof {
            lemma_tree_acyclic(&self.tree);
            lemma_ancestors_no_dups(self.tree, focus);
        }
        let ghost n = anc@.len() as int;
        let mut out: Vec<EligibleSplit> = Vec::new();
        let mut i: usize = 0;
        while i < anc.len()
            invariant
                self.tree.well_formed(),
                crate::tree::acyclic(m),
                m == self.tree.nodes@,
                rects == snap.node_rects@,
                sums == summaries@,
                resize_rects_fit(self.tree, focus, dir, rects, sums),
                rects.contains_key(focus),
                focus_rect == rects[focus],
                anc@ == tree_ancestors(self.tree, focus),
                anc@.no_duplicates(),
                n == anc@.len(),
                0 <= i <= n,
                eligible_upto(m, focus, dir, rects, sums, focus_rect, anc@, i as int) == Ok::<
                    Seq<EligibleSplit>,
                    OpError,
                >(out@),
            decreases n - i,
        {
            let split_id = anc[i];
            let ghost before = out@;
            let sn = match self.tree.split(split_id) {
                Some(sn) => sn,
                None => {
                    proof {
                        lemma_err_sticks(m, focus, dir, rects, sums, focus_rect, anc@, i + 1, n);
                    }
                    return Err(OpError::NotSplit(split_id));
                },
            };
            let a_rect = match snap.rect(sn.a) {
                Some(rect) => rect,
                None => {
                    proof {
                        lemma_err_sticks(m, focus, dir, rects, sums, focus_rect, anc@, i + 1, n);
                    }
                    return Err(OpError::MissingNode(sn.a));
                },
            };
            let b_rect = match snap.rect(sn.b) {
                Some(rect) => rect,
                None => {
                    proof {
                        lemma_err_sticks(m, focus, dir, rects, sums, focus_rect, anc@, i + 1, n);
                    }
                    return Err(OpError::MissingNode(sn.b));
                },
            };
            proof {
                assert(anc@[i as int] == split_id);
                assert(tree_ancestors(self.tree, focus).contains(split_id));
                assert(is_split_at(m, split_id));
                assert(ancestor_fits(m, focus, dir, rects, focus_rect, tree_ancestors(self.tree, focus)[i as int]));
                assert(crate::tree::finite_below(m, sn.a));
            }
            let in_a = self.tree.contains_in_subtree(sn.a, focus);
            let eligible = match dir {
                Direction::Right => sn.axis == Axis::X && in_a && focus_rect.right() == a_rect.right(),
                Direction::Left => sn.axis == Axis::X && !in_a && focus_rect.left() == b_rect.left(),
                Direction::Down => sn.axis == Axis::Y && in_a && focus_rect.bottom() == a_rect.bottom(),
                Direction::Up => sn.axis == Axis::Y && !in_a && focus_rect.top() == b_rect.top(),
            };
            if eligible {
                let total = a_rect.extent(sn.axis) + b_rect.extent(sn.axis);
                let sum_a = match summaries.get(&sn.a) {
                    Some(s) => *s,
                    None => {
                        proof {
                            lemma_err_sticks(m, focus, dir, rects, sums, focus_rect, anc@, i + 1, n);
                        }
                        return Err(OpError::MissingNode(sn.a));
                    },
                };
                let sum_b = match summaries.get(&sn.b) {
                    Some(s) => *s,
                    None => {
                        proof {
                            lemma_err_sticks(m, focus, dir, rects, sums, focus_rect, anc@, i + 1, n);
                        }
                        return Err(OpError::MissingNode(sn.b));
                    },
                };
                let (min_a, max_a) = sum_a.axis_limits(sn.axis);
                let (min_b, max_b) = sum_b.axis_limits(sn.axis);
                let lo_cap = match max_b {
                    Some(mb) => if total >= mb {
                        total - mb
                    } else {
                        0
                    },
                    None => 0,
                };
                let lo = if min_a >= lo_cap {
                    min_a
                } else {
                    lo_cap
                };
                let hi_room = if total >= min_b {
                    total - min_b
                } else {
                    0
                };
                let hi_cap = match max_a {
                    Some(ma) => ma,
                    None => total,
                };
                let hi = if hi_room <= hi_cap {
                    hi_room
                } else {
                    hi_cap
                };
                out.push(
                    EligibleSplit { split: split_id, total, current_a: a_rect.extent(sn.axis), lo, hi },
                );
            }
            i = i + 1;
        }
        proof {
            lemma_upto_sane(m, focus, dir, rects, sums, focus_rect, anc@, n);
        }
        Ok(out)
    }
}


/// The summary of every node's subtree.
pub open spec fn summary_map<T>(m: Map<NodeId, Node<T>>) -> Map<NodeId, Summary> {
    Map::new(|k: NodeId| m.contains_key(k), |k: NodeId| spec_summarize(m, shape_of(m, k))->Ok_0)
}

/// The weights of an entry's split after its shared edge moved by `delta`,
/// forward for a positive sign.
pub open spec fn moved_weights(e: EligibleSplit, delta: u32, sign: i8) -> WeightPair {
    let new_a: int = if sign > 0 {
        e.current_a + delta
    } else {
        e.current_a - delta
    };
    spec_canonical(new_a as u32, (e.total - new_a) as u32)
}

/// The entry naming split `sid`.
pub open spec fn entry_of(es: Seq<EligibleSplit>, sid: NodeId) -> EligibleSplit {
    es[choose|j: int| 0 <= j < es.len() && es[j].split == sid]
}

/// `m` after the first `n` allocations moved their splits' weights.
pub open spec fn resized_map<T>(
    m: Map<NodeId, Node<T>>,
    es: Seq<EligibleSplit>,
    allocs: Seq<(NodeId, u32)>,
    sign: i8,
    n: int,
) -> Map<NodeId, Node<T>>
    decreases n,
{
    if n <= 0 {
        m
    } else {
        let prev = resized_map(m, es, allocs, sign, n - 1);
        let sid = allocs[n - 1].0;
        let delta = allocs[n - 1].1;
        if delta == 0 {
            prev
        } else {
            prev.insert(
                sid,
                Node::Split(
                    SplitNode { weights: moved_weights(entry_of(es, sid), delta, sign), ..split_of(prev[sid]) },
                ),
            )
        }
    }
}

/// What a resize of the focus towards `dir` by `amount` does: nothing for a
/// zero amount; the stale-snapshot, focus, summary and lookup errors leave the
/// session unchanged; without eligible splits nothing changes; otherwise the
/// allocations move the eligible splits' weights and the revision advances.
pub open spec fn resize_outcome<T>(
    old: Session<T>,
    new: Session<T>,
    r: Result<(), OpError>,
    dir: Direction,
    amount: u32,
    strategy: ResizeStrategy,
    snap: Snapshot,
    outward: bool,
) -> bool {
    let m = old.tree.nodes@;
    if amount == 0 {
        r == Ok::<(), OpError>(()) && new == old
    } else if snap.revision != old.revision {
        r == Err::<(), OpError>(OpError::StaleSnapshot) && new == old
    } else {
        match old.focus {
            None => r == Err::<(), OpError>(OpError::Empty) && new == old,
            Some(f) => if !is_leaf_at(m, f) {
                r == Err::<(), OpError>(OpError::NotLeaf(f)) && new == old
            } else if spec_summarize(m, old.tree.shape()) is Err {
                r == Err::<(), OpError>(OpError::Validation(spec_summarize(m, old.tree.shape())->Err_0))
                    && new == old
            } else {
                match spec_eligible(old.tree, f, dir, snap.node_rects@, summary_map(m)) {
                    Err(e) => r == Err::<(), OpError>(e) && new == old,
                    Ok(es) => if es.len() == 0 {
                        r == Ok::<(), OpError>(()) && new == old
                    } else {
                        let sign = spec_resize_sign(dir, outward);
                        let allocs = spec_distribute(amount, strategy, sign, es);
                        &&& rewritten(old, new, resized_map(m, es, allocs, sign, allocs.len() as int))
                        &&& (r is Ok <==> new.valid())
                        &&& (r matches Err(e) ==> e is Validation)
                        &&& (new.tree.well_formed() ==> r == crate::session::focus_result(new))
                        &&& (old.valid() ==> r is Ok)
                    },
                }
            },
        }
    }
}

impl<T> Session<T> {
    fn resize_focus(
        &mut self,
        dir: Direction,
        amount: u32,
        strategy: ResizeStrategy,
        snap: &Snapshot,
        outward: bool,
    ) -> (r: Result<(), OpError>)
        requires
            resize_reaches_tree(*old(self), amount, *snap) ==> old(self).tree.well_formed(),
            resize_searches(*old(self), amount, *snap) ==> resize_rects_fit(
                old(self).tree,
                old(self).focus->0,
                dir,
                snap.node_rects@,
                summary_map(old(self).tree.nodes@),
            ),
            resize_moves(*old(self), dir, amount, *snap) ==> old(self).revision < u64::MAX,
        ensures
            resize_outcome(*old(self), *final(self), r, dir, amount, strategy, *snap, outward),
    {
        if amount == 0 {
            return Ok(());
        }
        match self.ensure_fresh_snapshot(snap) {
            Ok(()) => {},
            Err(e) => return Err(e),
        }
        let focus = match self.focus_leaf() {
            Ok(f) => f,
            Err(e) => return Err(e),
        };
        let ghost m = self.tree.nodes@;
        let ghost old_s = *self;
        let mut summaries: HashMap<NodeId, Summary> = HashMap::new();
        proof {
            lemma_tree_acyclic(&self.tree);
            assert(summaries@ =~= Map::<NodeId, Summary>::empty());
            assert(m.contains_key(focus));
        }
        match self.tree.root {
            Some(root) => {
                assert(crate::tree::finite_below(m, root));
                match summarize(&self.tree, root, &mut summaries) {
                    Ok(_) => {},
                    Err(e) => return Err(OpError::Validation(e)),
                }
            },
            None => {},
        }
        proof {
            let root = self.tree.root.unwrap();
            let sm = summary_map(m);
            assert forall|k: NodeId| #[trigger] summaries@.contains_key(k) implies sm.contains_key(k)
                && summaries@[k] == sm[k] by {
                if !m.contains_key(k) {
                    assert(has_shape(m, k, Shape::Tip(k)));
                    lemma_shape_of(m, k, Shape::Tip(k));
                }
            }
            assert forall|k: NodeId| #[trigger] sm.contains_key(k) implies summaries@.contains_key(k) by {
                assert(self.tree.shape().ids().contains(k));
            }
            assert(summaries@ =~= sm);
        }
        let eligible = match self.eligible_splits(focus, dir, snap, &summaries) {
            Ok(v) => v,
            Err(e) => return Err(e),
        };
        if eligible.len() == 0 {
            return Ok(());
        }
        proof {
            assert(resize_moves(old_s, dir, amount, *snap));
        }
        let sign = resize_sign(dir, outward);
        let allocations = distribute_resize(amount, strategy, sign, eligible.as_slice());
        let ghost es = eligible@;
        let ghost allocs = allocations@;
        let mut idx: usize = 0;
        while idx < allocations.len()
            invariant
                0 <= idx <= allocs.len(),
                allocs == allocations@,
                es == eligible@,
                crate::grow::entries_sane(m, es),
                alloc_within(es, sign, allocs),
                sign == 1 || sign == -1,
                self.tree.nodes@ == resized_map(m, es, allocs, sign, idx as int),
                self.tree.root == old_s.tree.root,
                self.tree.next_id == old_s.tree.next_id,
                self.focus == old_s.focus,
                self.selection == old_s.selection,
                self.revision == old_s.revision,
                old_s.tree.nodes@ == m,
                old_s.revision < u64::MAX,
                same_links(m, self.tree.nodes@),
                forall|k: NodeId| #[trigger] m.contains_key(k) ==> node_parent(self.tree.nodes@[k])
                    == node_parent(m[k]),
                old_s.valid() ==> forall|k: NodeId| #[trigger] self.tree.nodes@.contains_key(k)
                    ==> node_valid(self.tree.nodes@[k]),
            decreases allocs.len() - idx,
        {
            let (split_id, delta) = allocations[idx];
            let ghost cur = self.tree.nodes@;
            if delta != 0 {
                let ghost j0 = choose|j: int|
                    #![trigger es[j]]
                    0 <= j < es.len() && es[j].split == allocs[idx as int].0 && allocs[idx as int].1
                        <= es[j].spec_slack(sign);
                assert(allocs[idx as int] == (split_id, delta));
                let mut j: usize = 0;
                while j < eligible.len() && eligible[j].split != split_id
                    invariant
                        0 <= j <= es.len(),
                        es == eligible@,
                        0 <= j0 < es.len(),
                        es[j0].split == split_id,
                        forall|k: int| 0 <= k < j ==> (#[trigger] es[k]).split != split_id,
                    decreases es.len() - j,
                {
                    j = j + 1;
                }
                assert(j < es.len());
                assert(j == j0) by {
                    if j != j0 {
                        if j < j0 {
                            assert(es[j as int].split != es[j0].split);
                        } else {
                            assert(es[j0].split != split_id);
                        }
                    }
                }
                let info = eligible[j];
                proof {
                    let jc = choose|jj: int| 0 <= jj < es.len() && es[jj].split == split_id;
                    if jc != j as int {
                        if jc < j {
                            assert(es[jc].split != es[j as int].split);
                        } else {
                            assert(es[j as int].split != es[jc].split);
                        }
                    }
                    assert(info == entry_of(es, split_id));
                    assert(info.current_a <= info.total);
                    assert(info.hi <= info.total);
                }
                let new_a = if sign > 0 {
                    info.current_a + delta
                } else {
                    info.current_a - delta
                };
                let weights = canonicalize_weights(new_a, info.total - new_a);
                proof {
                    assert(is_split_at(m, split_id));
                    assert(m.contains_key(split_id));
                }
                let updated = match self.tree.split(split_id) {
                    Some(sn) => SplitNode { parent: sn.parent, axis: sn.axis, a: sn.a, b: sn.b, weights },
                    None => return Err(OpError::NotSplit(split_id)),
                };
                self.put_split(split_id, updated);
                proof {
                    let nxt = self.tree.nodes@;
                    assert(weights == moved_weights(entry_of(es, split_id), delta, sign));
                    assert(nxt == resized_map(m, es, allocs, sign, idx + 1));
                    assert(m.dom() =~= nxt.dom());
                    assert(same_links(m, nxt));
                    if old_s.valid() {
                        assert(node_valid(cur[split_id]));
                        assert forall|k: NodeId| #[trigger] nxt.contains_key(k) implies node_valid(nxt[k]) by {
                            if k != split_id {
                                assert(cur.contains_key(k));
                            }
                        }
                    }
                }
            } else {
                assert(self.tree.nodes@ == resized_map(m, es, allocs, sign, idx + 1));
            }
            idx = idx + 1;
        }
        self.bump_revision();
        proof {
            if old_s.valid() {
                lemma_rewrite_valid(old_s, self.tree.nodes@);
            }
        }
        match self.validate() {
            Ok(()) => Ok(()),
            Err(e) => Err(OpError::Validation(e)),
        }
    }

    /// Moves the focus edge facing `dir` outward by `amount` cells, spreading
    /// the change over the eligible ancestor splits by `strategy`.
    pub fn grow_focus(
        &mut self,
        dir: Direction,
        amount: u32,
        strategy: ResizeStrategy,
        snap: &Snapshot,
    ) -> (r: Result<(), OpError>)
        requires
            resize_reaches_tree(*old(self), amount, *snap) ==> old(self).tree.well_formed(),
            resize_searches(*old(self), amount, *snap) ==> resize_rects_fit(
                old(self).tree,
                old(self).focus->0,
                dir,
                snap.node_rects@,
                summary_map(old(self).tree.nodes@),
            ),
            resize_moves(*old(self), dir, amount, *snap) ==> old(self).revision < u64::MAX,
        ensures
            resize_outcome(*old(self), *final(self), r, dir, amount, strategy, *snap, true),
    {
        self.resize_focus(dir, amount, strategy, snap, true)
    }

    /// Moves the focus edge facing `dir` inward by `amount` cells, spreading
    /// the change over the eligible ancestor splits by `strategy`.
    pub fn shrink_focus(
        &mut self,
        dir: Direction,
        amount: u32,
        strategy: ResizeStrategy,
        snap: &Snapshot,
    ) -> (r: Result<(), OpError>)
        requires
            resize_reaches_tree(*old(self), amount, *snap) ==> old(self).tree.well_formed(),
            resize_searches(*old(self), amount, *snap) ==> resize_rects_fit(
                old(self).tree,
                old(self).focus->0,
                dir,
                snap.node_rects@,
                summary_map(old(self).tree.nodes@),
            ),
            resize_moves(*old(self), dir, amount, *snap) ==> old(self).revision < u64::MAX,
        ensures
            resize_outcome(*old(self), *final(self), r, dir, amount, strategy, *snap, false),
    {
        self.resize_focus(dir, amount, strategy, snap, false)
    }
}

} // verus!
