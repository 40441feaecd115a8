use vstd::prelude::*;

use std::collections::HashMap;

use crate::error::{NavError, OpError, ValidationError};
use crate::geom::{Direction, Rect};
use crate::ids::NodeId;
use crate::nav::{best_neighbor, is_best, is_candidate, leaf_order, nav_score_defined};
use crate::session::{is_leaf_at, Session};
use crate::snapshot::Snapshot;
use crate::tree::{
    lemma_node_shape, lemma_tips_are_leaves, lemma_tree_acyclic, shape_of,
};

verus! {

broadcast use vstd::std_specs::hash::group_hash_axioms;

/// The first of the first `n` identifiers of `order` without a rectangle.
pub open spec fn first_missing(order: Seq<NodeId>, rects: Map<NodeId, Rect>, n: int) -> Option<NodeId>
    decreases n,
{
    if n <= 0 {
        None
    } else {
        match first_missing(order, rects, n - 1) {
            Some(id) => Some(id),
            None => if rects.contains_key(order[n - 1]) {
                None
            } else {
                Some(order[n - 1])
            },
        }
    }
}

/// The rectangles of the identifiers in `order`.
pub open spec fn leaf_rect_map(order: Seq<NodeId>, rects: Map<NodeId, Rect>) -> Map<NodeId, Rect> {
    Map::new(|k: NodeId| order.contains(k), |k: NodeId| rects[k])
}

/// Navigation scores can be computed from the focused leaf's rectangle to the
/// rectangle of every leaf of the tree (nothing is needed without a focus or
/// without a focus rectangle).
pub open spec fn focus_scores_defined<T>(
    tree: crate::tree::Tree<T>,
    focus: Option<NodeId>,
    rects: Map<NodeId, Rect>,
    dir: Direction,
) -> bool {
    match focus {
        Some(f) => rects.contains_key(f) ==> forall|k: NodeId|
            leaf_order(tree).contains(k) && rects.contains_key(k) ==> #[trigger] nav_score_defined(
                rects[f],
                rects[k],
                dir,
            ),
        None => true,
    }
}

/// The selection kept for a new focus `f`: a stored split whose subtree holds
/// `f` stays selected, anything else gives way to `f`.
pub open spec fn kept_selection<T>(m: Map<NodeId, crate::tree::Node<T>>, sel: Option<NodeId>, f: NodeId) -> Option<NodeId> {
    match sel {
        Some(s) => if m.contains_key(s) && !is_leaf_at(m, s) && shape_of(m, s).ids().contains(f) {
            Some(s)
        } else {
            Some(f)
        },
        None => Some(f),
    }
}

/// The navigation error that stands for an operation error.
pub open spec fn spec_op_to_nav(error: OpError) -> NavError {
    match error {
        OpError::Empty => NavError::Empty,
        OpError::StaleSnapshot => NavError::StaleSnapshot,
        OpError::Validation(e) => NavError::Validation(e),
        OpError::MissingNode(id) => NavError::MissingSnapshotRect(id),
        OpError::NotLeaf(id) => NavError::MissingSnapshotRect(id),
        OpError::NotSplit(id) => NavError::MissingSnapshotRect(id),
        OpError::NoParent(id) => NavError::Validation(ValidationError::InvalidSelection(id)),
        _ => NavError::Validation(ValidationError::InvalidSelection(0)),
    }
}

fn map_op_to_nav(error: OpError) -> (r: NavError)
    ensures
        r == spec_op_to_nav(error),
{
    match error {
        OpError::Empty => NavError::Empty,
        OpError::StaleSnapshot => NavError::StaleSnapshot,
        OpError::Validation(err) => NavError::Validation(err),
        OpError::MissingNode(id) | OpError::NotLeaf(id) | OpError::NotSplit(id) => {
            NavError::MissingSnapshotRect(id)
        },
        other => NavError::Validation(
            ValidationError::InvalidSelection(
                match other {
                    OpError::NoParent(id) => id,
                    OpError::MissingNode(id) => id,
                    OpError::NotLeaf(id) => id,
                    OpError::NotSplit(id) => id,
                    _ => 0,
                },
            ),
        ),
    }
}

impl<T> Session<T> {
    /// The snapshot rectangle of every leaf, or the first leaf (left to right)
    /// that has none.
    fn leaf_rects_from_snapshot(&self, snap: &Snapshot) -> (r: Result<HashMap<NodeId, Rect>, NavError>)
        requires
            self.tree.well_formed(),
        ensures
            ({
                let ord = leaf_order(self.tree);
                match first_missing(ord, snap.node_rects@, ord.len() as int) {
                    Some(id) => r == Err::<HashMap<NodeId, Rect>, NavError>(
                        NavError::MissingSnapshotRect(id),
                    ),
                    None => r matches Ok(map) && map@ == leaf_rect_map(ord, snap.node_rects@),
                }
            }),
    {
        let order: Vec<NodeId> = match self.tree.root {
            Some(root) => {
                proof {
                    lemma_node_shape(&self.tree, root);
                    lemma_tips_are_leaves(self.tree.nodes@, root, shape_of(self.tree.nodes@, root));
                }
                self.tree.leaf_ids_dfs(root)
            },
            None => Vec::new(),
        };
        let ghost ord = order@;
        let ghost rects = snap.node_rects@;
        let mut out: HashMap<NodeId, Rect> = HashMap::new();
        let mut i: usize = 0;
        while i < order.len()
            invariant
                ord == order@,
                ord == leaf_order(self.tree),
                rects == snap.node_rects@,
                0 <= i <= ord.len(),
                first_missing(ord, rects, i as int) is None,
                out@ == leaf_rect_map(ord.take(i as int), rects),
            decreases ord.len() - i,
        {
            let id = order[i];
            match snap.rect(id) {
                Some(rect) => {
                    out.insert(id, rect);
                    proof {
                        assert(ord.take(i + 1) =~= ord.take(i as int).push(id));
                        assert(out@ =~= leaf_rect_map(ord.take(i + 1), rects)) by {
                            assert forall|k: NodeId| ord.take(i + 1).contains(k) <==> (ord.take(
                                i as int,
                            ).contains(k) || k == id) by {
                                if ord.take(i + 1).contains(k) && k != id {
                                    let j = choose|j: int| 0 <= j < i + 1 && #[trigger] ord.take(i + 1)[j] == k;
                                    assert(ord.take(i as int)[j] == k);
                                }
                                if ord.take(i as int).contains(k) {
                                    let j = choose|j: int| 0 <= j < i && #[trigger] ord.take(i as int)[j] == k;
                                    assert(ord.take(i + 1)[j] == k);
                                }
                                if k == id {
                                    assert(ord.take(i + 1)[i as int] == k);
                                }
                            }
                        }
                    }
                },
                None => {
                    proof {
                        assert(first_missing(ord, rects, i + 1) == Some(id));
                        lemma_missing_sticks(ord, rects, i + 1, ord.len() as int);
                    }
                    return Err(NavError::MissingSnapshotRect(id));
                },
            }
            i = i + 1;
        }
        assert(ord.take(ord.len() as int) =~= ord);
        Ok(out)
    }

    /// Moves the focus to the best neighbouring leaf in direction `dir`, using
    /// the leaf rectangles of the snapshot, and keeps the selection if it still
    /// holds the new focus.
    pub fn focus_dir(&mut self, dir: Direction, snap: &Snapshot) -> (r: Result<(), NavError>)
        requires
            snap.revision == old(self).revision && old(self).focus is Some ==> old(self).tree.well_formed(),
            snap.revision == old(self).revision ==> focus_scores_defined(
                old(self).tree,
                old(self).focus,
                snap.node_rects@,
                dir,
            ),
        ensures
            ({
                let ord = leaf_order(old(self).tree);
                let rects = snap.node_rects@;
                let lr = leaf_rect_map(ord, rects);
                if snap.revision != old(self).revision {
                    r == Err::<(), NavError>(NavError::StaleSnapshot) && *final(self) == *old(self)
                } else {
                    match old(self).focus {
                        None => r == Err::<(), NavError>(NavError::Empty) && *final(self) == *old(self),
                        Some(f) => match first_missing(ord, rects, ord.len() as int) {
                            Some(id) => r == Err::<(), NavError>(NavError::MissingSnapshotRect(id))
                                && *final(self) == *old(self),
                            None => if !lr.contains_key(f) || !exists|k: NodeId| #[trigger]
                                is_candidate(ord, lr, f, k, dir) {
                                r == Err::<(), NavError>(NavError::NoCandidate) && *final(self)
                                    == *old(self)
                            } else {
                                &&& r is Ok
                                &&& final(self).valid()
                                &&& final(self).tree == old(self).tree
                                &&& final(self).revision == old(self).revision
                                &&& final(self).focus matches Some(next) && is_best(ord, lr, f, next, dir)
                                    && final(self).selection == kept_selection(
                                    old(self).tree.nodes@,
                                    old(self).selection,
                                    next,
                                )
                            },
                        },
                    }
                }
            }),
    {
        match self.ensure_fresh_snapshot(snap) {
            Ok(()) => {},
            Err(e) => return Err(map_op_to_nav(e)),
        }
        let focus = match self.focus {
            Some(f) => f,
            None => return Err(NavError::Empty),
        };
        let leaf_rects = match self.leaf_rects_from_snapshot(snap) {
            Ok(map) => map,
            Err(e) => return Err(e),
        };
        let ghost ord = leaf_order(self.tree);
        let ghost rects = snap.node_rects@;
        let ghost lr = leaf_rects@;
        proof {
            lemma_none_missing(ord, rects, ord.len() as int);
            if lr.contains_key(focus) {
                assert forall|k: NodeId| #[trigger] lr.contains_key(k) implies nav_score_defined(
                    lr[focus],
                    lr[k],
                    dir,
                ) by {
                    let jf = ord.index_of(focus);
                    let jk = ord.index_of(k);
                    assert(rects.contains_key(ord[jf]));
                    assert(rects.contains_key(ord[jk]));
                    assert(ord.contains(k));
                    assert(nav_score_defined(rects[focus], rects[k], dir));
                }
            }
        }
        let next = match best_neighbor(&self.tree, &leaf_rects, focus, dir) {
            Some(n) => n,
            None => return Err(NavError::NoCandidate),
        };
        let ghost m = self.tree.nodes@;
        proof {
            lemma_tree_acyclic(&self.tree);
            let root = self.tree.root.unwrap();
            lemma_node_shape(&self.tree, root);
            lemma_tips_are_leaves(m, root, shape_of(m, root));
            let j = ord.index_of(next);
            assert(is_leaf_at(m, next));
        }
        self.focus = Some(next);
        self.repair_selection_for_current_focus();
        proof {
            if let Some(s) = self.selection {
                if s != next {
                    assert(m.contains_key(s));
                    lemma_node_shape(&self.tree, s);
                }
            }
        }
        match self.validate() {
            Ok(()) => Ok(()),
            Err(e) => Err(NavError::Validation(e)),
        }
    }
}

/// When nothing is missing, every identifier has a rectangle.
proof fn lemma_none_missing(order: Seq<NodeId>, rects: Map<NodeId, Rect>, n: int)
    requires
        first_missing(order, rects, n) is None,
        n <= order.len(),
    ensures
        forall|j: int| 0 <= j < n ==> rects.contains_key(#[trigger] order[j]),
    decreases n,
{
    if n > 0 {
        lemma_none_missing(order, rects, n - 1);
    }
}

/// A missing rectangle found among the first `n` identifiers stays the first
/// one missing.
proof fn lemma_missing_sticks(order: Seq<NodeId>, rects: Map<NodeId, Rect>, n: int, n2: int)
    requires
        first_missing(order, rects, n) is Some,
        n <= n2,
    ensures
        first_missing(order, rects, n2) == first_missing(order, rects, n),
    decreases n2 - n,
{
    if n < n2 {
        lemma_missing_sticks(order, rects, n, n2 - 1);
    }
}

} // verus!
