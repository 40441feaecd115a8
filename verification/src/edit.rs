use vstd::prelude::*;

use crate::error::OpError;
use crate::geom::{Axis, Slot};
use crate::ids::NodeId;
use crate::limits::{LeafMeta, Priority, SizeLimits, WeightPair};
use crate::session::{
    checked_weights, focus_check, focus_result, focus_result_id, is_leaf_at, lemma_repair_valid, repaired_focus,
    repaired_selection, Session,
};
use crate::tree::{
    acyclic, is_split_at, lemma_same_links_acyclic, lemma_tree_ok_acyclic, map_lift,
    map_replace_child, map_set_parent, node_parent, node_valid, root_lift, same_links, shape_of,
    spec_sibling, split_of, tree_ok, LeafNode, Node, SplitNode,
};
use crate::tree_links::{
    lemma_lift_facts, lemma_lift_ok, lemma_move_ok, lemma_subtree_closed, lemma_trade_ok,
    lemma_wrap_map, lemma_wrap_ok, moved_map, moved_root, moved_target, traded_map, traded_root,
    wrapped_map, wrapped_root,
};
use crate::tree::{has_shape, lemma_shape_of, lemma_sub_shape, replaced_child, with_parent, Shape, Tree};

verus! {

broadcast use vstd::std_specs::hash::group_hash_axioms;

/// A fresh, parentless leaf.
pub open spec fn fresh_leaf<T>(payload: T, meta: LeafMeta) -> Node<T> {
    Node::Leaf(LeafNode { parent: None, payload, meta })
}

/// Weights given as an option, defaulting to `1:1`.
pub open spec fn weights_or_equal(weights: Option<WeightPair>) -> WeightPair {
    match weights {
        Some(w) => w,
        None => WeightPair { a: 1, b: 1 },
    }
}

/// The state after wrapping `target` with a new leaf: the leaf gets the next
/// identifier and the new split the one after; the focus `f` is kept and the
/// selection repaired; the revision advances.
pub open spec fn wrapped_session<T>(
    old: Session<T>,
    new: Session<T>,
    target: NodeId,
    f: NodeId,
    payload: T,
    meta: LeafMeta,
    axis: Axis,
    slot: Slot,
    weights: WeightPair,
) -> bool {
    let m = old.tree.nodes@;
    let leaf_id = old.tree.next_id;
    let sid = (old.tree.next_id + 1) as NodeId;
    let m2 = wrapped_map(m, target, leaf_id, fresh_leaf(payload, meta), sid, axis, slot, weights);
    let root2 = wrapped_root(m, old.tree.root, target, sid);
    &&& new.tree.nodes@ == m2
    &&& new.tree.root == root2
    &&& new.tree.next_id == old.tree.next_id + 2
    &&& new.focus == Some(f)
    &&& new.selection == repaired_selection(m2, root2, Some(f), old.selection)
    &&& new.revision == old.revision + 1
}

/// A leaf meta that is valid.
pub open spec fn plain_meta() -> LeafMeta {
    LeafMeta {
        limits: SizeLimits { min_w: 1, min_h: 1, max_w: None, max_h: None },
        priority: Priority { shrink: 1, grow: 1 },
    }
}

/// Wrapping a node of a well-formed tree keeps the map acyclic, whatever the
/// new leaf holds; and the wrapped tree is well formed when the leaf and the
/// weights are valid.
proof fn lemma_wrapped_facts<T>(
    m: Map<NodeId, Node<T>>,
    root: Option<NodeId>,
    x: NodeId,
    leaf_id: NodeId,
    payload: T,
    meta: LeafMeta,
    sid: NodeId,
    axis: Axis,
    slot: Slot,
    weights: WeightPair,
)
    requires
        tree_ok(m, root),
        m.dom().finite(),
        m.contains_key(x),
        !m.contains_key(leaf_id),
        !m.contains_key(sid),
        leaf_id != sid,
        weights.spec_valid(),
    ensures
        acyclic(wrapped_map(m, x, leaf_id, fresh_leaf(payload, meta), sid, axis, slot, weights)),
        meta.spec_valid() ==> tree_ok(
            wrapped_map(m, x, leaf_id, fresh_leaf(payload, meta), sid, axis, slot, weights),
            wrapped_root(m, root, x, sid),
        ),
        !meta.spec_valid() ==> !tree_ok(
            wrapped_map(m, x, leaf_id, fresh_leaf(payload, meta), sid, axis, slot, weights),
            wrapped_root(m, root, x, sid),
        ),
{
    let actual = wrapped_map(m, x, leaf_id, fresh_leaf(payload, meta), sid, axis, slot, weights);
    let plain = wrapped_map(m, x, leaf_id, fresh_leaf(payload, plain_meta()), sid, axis, slot, weights);
    lemma_wrap_ok(m, root, x, leaf_id, fresh_leaf(payload, plain_meta()), sid, axis, slot, weights);
    lemma_tree_ok_acyclic(plain, wrapped_root(m, root, x, sid));
    assert(same_links(plain, actual));
    lemma_same_links_acyclic(plain, actual);
    if meta.spec_valid() {
        lemma_wrap_ok(m, root, x, leaf_id, fresh_leaf(payload, meta), sid, axis, slot, weights);
    } else {
        crate::tree_links::lemma_tree_to_links(m, root);
        assert(x != leaf_id);
        if let Some(q) = crate::tree::node_parent(m[x]) {
            assert(m.contains_key(q));
        }
        assert(actual.contains_key(leaf_id));
        assert(!node_valid(actual[leaf_id]));
        let nr = wrapped_root(m, root, x, sid);
        if tree_ok(actual, nr) {
            let r = nr.unwrap();
            assert(crate::tree::shape_of(actual, r).ids().contains(leaf_id));
        }
    }
}

impl<T> Session<T> {
    /// Wraps `target` together with a new leaf in a new split and repairs focus
    /// and selection; `f` is the focused leaf.
    fn wrap_with_new_leaf(
        &mut self,
        target: NodeId,
        f: NodeId,
        axis: Axis,
        slot: Slot,
        payload: T,
        meta: LeafMeta,
        weights: WeightPair,
    ) -> (r: Result<NodeId, OpError>)
        requires
            old(self).tree.well_formed(),
            old(self).ids_fresh(),
            old(self).tree.next_id < u64::MAX - 1,
            old(self).revision < u64::MAX,
            old(self).tree.nodes@.contains_key(target),
            is_leaf_at(old(self).tree.nodes@, f),
            weights.spec_valid(),
        ensures
            wrapped_session(*old(self), *final(self), target, f, payload, meta, axis, slot, weights),
            r is Ok <==> final(self).valid(),
            r matches Ok(id) ==> id == old(self).tree.next_id,
            r matches Err(e) ==> e is Validation,
            final(self).tree.well_formed() ==> r == focus_result_id(*final(self), old(self).tree.next_id),
            old(self).valid() ==> (r is Ok <==> meta.spec_valid()),
            final(self).ids_fresh(),
    {
        let ghost m = self.tree.nodes@;
        let ghost root = self.tree.root;
        let ghost leaf_id = self.tree.next_id;
        let ghost sid = (self.tree.next_id + 1) as NodeId;
        let old_sel = self.selection;
        let ghost old_valid = self.valid();
        proof {
            assert(!m.contains_key(leaf_id));
            assert(!m.contains_key(sid));
            lemma_wrap_map(m, root, target, leaf_id, fresh_leaf(payload, meta), sid, axis, slot, weights);
            lemma_wrapped_facts(m, root, target, leaf_id, payload, meta, sid, axis, slot, weights);
        }
        let new_leaf = self.tree.new_leaf(payload, meta);
        let split_id = self.tree.attach_as_sibling(target, new_leaf, axis, slot, weights);
        let ghost m2 = self.tree.nodes@;
        assert(m2 =~= wrapped_map(m, target, leaf_id, fresh_leaf(payload, meta), sid, axis, slot, weights));
        self.repair_after_mutation(f, old_sel, Some(split_id));
        self.bump_revision();
        proof {
            assert(m2.contains_key(f));
            assert(is_leaf_at(m2, f));
            assert(self.focus == Some(f));
            if tree_ok(m2, self.tree.root) {
                lemma_repair_valid(m2, self.tree.root, Some(f), old_sel);
            }
        }
        match self.validate() {
            Ok(()) => Ok(new_leaf),
            Err(e) => Err(OpError::Validation(e)),
        }
    }

    /// Splits the focused leaf: a new leaf with `payload` and `meta` joins it
    /// under a new split along `axis`, in slot `slot`. Returns the new leaf.
    pub fn split_focus(
        &mut self,
        axis: Axis,
        slot: Slot,
        payload: T,
        meta: LeafMeta,
        weights: Option<WeightPair>,
    ) -> (r: Result<NodeId, OpError>)
        requires
            old(self).focus matches Some(f) && is_leaf_at(old(self).tree.nodes@, f) ==> old(
                self,
            ).tree.well_formed() && old(self).ids_fresh(),
            old(self).tree.next_id < u64::MAX - 1,
            old(self).revision < u64::MAX,
        ensures
            ({
                let m = old(self).tree.nodes@;
                let w = weights_or_equal(weights);
                match old(self).focus {
                    None => r == Err::<NodeId, OpError>(OpError::Empty) && *final(self) == *old(self),
                    Some(f) => if !is_leaf_at(m, f) {
                        r == Err::<NodeId, OpError>(OpError::NotLeaf(f)) && *final(self) == *old(self)
                    } else if !w.spec_valid() {
                        r == Err::<NodeId, OpError>(OpError::InvalidWeights) && *final(self) == *old(self)
                    } else {
                        &&& wrapped_session(*old(self), *final(self), f, f, payload, meta, axis, slot, w)
                        &&& (r is Ok <==> final(self).valid())
                        &&& (r matches Ok(id) ==> id == old(self).tree.next_id)
                        &&& (r matches Err(e) ==> e is Validation)
                        &&& (final(self).tree.well_formed() ==> r == focus_result_id(*final(self), old(self).tree.next_id))
                        &&& (old(self).valid() ==> (r is Ok <==> meta.spec_valid()))
                        &&& final(self).ids_fresh()
                    },
                }
            }),
    {
        let focus = match self.focus_leaf() {
            Ok(f) => f,
            Err(e) => return Err(e),
        };
        let w = match weights {
            Some(w) => w,
            None => WeightPair::default(),
        };
        let w = match checked_weights(w) {
            Ok(w) => w,
            Err(e) => return Err(e),
        };
        self.wrap_with_new_leaf(focus, focus, axis, slot, payload, meta, w)
    }

    /// Wraps the selected node: a new leaf with `payload` and `meta` joins it
    /// under a new split along `axis`, in slot `slot`. Returns the new leaf.
    /// With invalid weights the new leaf has already been stored, unattached,
    /// when the error is returned.
    pub fn wrap_selection(
        &mut self,
        axis: Axis,
        slot: Slot,
        payload: T,
        meta: LeafMeta,
        weights: Option<WeightPair>,
    ) -> (r: Result<NodeId, OpError>)
        requires
            old(self).selection is Some ==> (old(self).focus matches Some(f) && is_leaf_at(
                old(self).tree.nodes@,
                f,
            ) ==> old(self).tree.well_formed() && old(self).ids_fresh()),
            old(self).tree.next_id < u64::MAX - 1,
            old(self).revision < u64::MAX,
            old(self).selection matches Some(sel) ==> (old(self).focus matches Some(f) ==> (
            is_leaf_at(old(self).tree.nodes@, f) ==> old(self).tree.nodes@.contains_key(sel))),
        ensures
            ({
                let m = old(self).tree.nodes@;
                let w = weights_or_equal(weights);
                match (old(self).selection, old(self).focus) {
                    (None, _) => r == Err::<NodeId, OpError>(OpError::Empty) && *final(self) == *old(self),
                    (Some(_), None) => r == Err::<NodeId, OpError>(OpError::Empty) && *final(self)
                        == *old(self),
                    (Some(sel), Some(f)) => if !is_leaf_at(m, f) {
                        r == Err::<NodeId, OpError>(OpError::NotLeaf(f)) && *final(self) == *old(self)
                    } else if !w.spec_valid() {
                        &&& r == Err::<NodeId, OpError>(OpError::InvalidWeights)
                        &&& final(self).tree.nodes@ == m.insert(
                            old(self).tree.next_id,
                            fresh_leaf(payload, meta),
                        )
                        &&& final(self).tree.next_id == old(self).tree.next_id + 1
                        &&& final(self).tree.root == old(self).tree.root
                        &&& final(self).focus == old(self).focus
                        &&& final(self).selection == old(self).selection
                        &&& final(self).revision == old(self).revision
                    } else {
                        &&& wrapped_session(*old(self), *final(self), sel, f, payload, meta, axis, slot, w)
                        &&& (r is Ok <==> final(self).valid())
                        &&& (r matches Ok(id) ==> id == old(self).tree.next_id)
                        &&& (r matches Err(e) ==> e is Validation)
                        &&& (final(self).tree.well_formed() ==> r == focus_result_id(*final(self), old(self).tree.next_id))
                        &&& (old(self).valid() ==> (r is Ok <==> meta.spec_valid()))
                        &&& final(self).ids_fresh()
                    },
                }
            }),
    {
        let selection = match self.selection {
            Some(s) => s,
            None => return Err(OpError::Empty),
        };
        let focus = match self.focus_leaf() {
            Ok(f) => f,
            Err(e) => return Err(e),
        };
        let w = match weights {
            Some(w) => w,
            None => WeightPair::default(),
        };
        let w = match checked_weights(w) {
            Ok(w) => w,
            Err(e) => {
                self.tree.new_leaf(payload, meta);
                return Err(e);
            },
        };
        self.wrap_with_new_leaf(selection, focus, axis, slot, payload, meta, w)
    }
}


/// What `remove_focus` does: without a focused leaf, the error and no change;
/// a root leaf empties the tree; otherwise the leaf goes, its sibling takes its
/// parent's place, focus and selection are repaired and the revision advances.
pub open spec fn remove_outcome<T>(old: Session<T>, new: Session<T>, r: Result<(), OpError>) -> bool {
    ({
        let m = old.tree.nodes@;
        match old.focus {
            None => r == Err::<(), OpError>(OpError::Empty) && new == old,
            Some(f) => if !is_leaf_at(m, f) {
                r == Err::<(), OpError>(OpError::NotLeaf(f)) && new == old
            } else if old.tree.root == Some(f) {
                &&& r is Ok
                &&& new.valid()
                &&& new.tree.nodes@ == m.remove(f)
                &&& new.tree.nodes@.dom().is_empty()
                &&& new.tree.root is None
                &&& new.tree.next_id == old.tree.next_id
                &&& new.focus is None
                &&& new.selection is None
                &&& new.revision == old.revision + 1
            } else {
                let p = node_parent(m[f])->0;
                let s = spec_sibling(m, f)->0;
                let m2 = map_lift(m, p, s).remove(f);
                let root2 = root_lift(m, old.tree.root, p, s);
                &&& new.tree.nodes@ == m2
                &&& new.tree.root == root2
                &&& new.tree.next_id == old.tree.next_id
                &&& new.focus == repaired_focus(m2, root2, f, Some(s))
                &&& new.selection == repaired_selection(
                    m2,
                    root2,
                    new.focus,
                    old.selection,
                )
                &&& new.revision == old.revision + 1
                &&& (r is Ok <==> new.valid())
                &&& (r matches Err(e) ==> e is Validation)
                &&& (new.tree.well_formed() ==> r == focus_result(new))
                &&& (old.valid() ==> r is Ok)
            },
        }
    })
}

/// Splitting the focused leaf of a valid session with a valid new leaf,
/// selecting the new leaf and removing it gives back the same nodes and root,
/// with the focus back on the leaf that was split, two revisions later.
pub proof fn law_split_then_remove_session<T>(
    s0: Session<T>,
    s1: Session<T>,
    s2: Session<T>,
    s3: Session<T>,
    r3: Result<(), OpError>,
    payload: T,
    meta: LeafMeta,
    axis: Axis,
    slot: Slot,
    weights: WeightPair,
)
    requires
        s0.valid(),
        s0.ids_fresh(),
        s0.focus is Some,
        s0.tree.next_id < u64::MAX - 1,
        meta.spec_valid(),
        weights.spec_valid(),
        wrapped_session(s0, s1, s0.focus->0, s0.focus->0, payload, meta, axis, slot, weights),
        s2.tree == s1.tree,
        s2.revision == s1.revision,
        s2.focus == Some(s0.tree.next_id),
        s2.selection == Some(s0.tree.next_id),
        remove_outcome(s2, s3, r3),
    ensures
        r3 is Ok,
        s3.tree.nodes@ == s0.tree.nodes@,
        s3.tree.root == s0.tree.root,
        s3.focus == s0.focus,
        s3.revision == s0.revision + 2,
{
    let m = s0.tree.nodes@;
    let f = s0.focus->0;
    let n = s0.tree.next_id;
    let sid = (s0.tree.next_id + 1) as NodeId;
    let root = s0.tree.root;
    crate::tree::lemma_tree_acyclic(&s0.tree);
    assert(m.dom().finite()) by {
        let rt = root.unwrap();
        crate::tree::lemma_node_shape(&s0.tree, rt);
        assert(shape_of(m, rt).ids() =~= m.dom());
        lemma_shape_ids_finite(shape_of(m, rt));
    }
    assert(!m.contains_key(n));
    assert(!m.contains_key(sid));
    lemma_wrapped_facts(m, root, f, n, payload, meta, sid, axis, slot, weights);
    law_split_then_remove(m, root, f, n, fresh_leaf(payload, meta), sid, axis, slot, weights);
    let m1 = s1.tree.nodes@;
    lemma_parent_field(fresh_leaf(payload, meta), Some(sid), Some(sid));
    assert(f != n);
    if let Some(q) = node_parent(m[f]) {
        crate::tree_links::lemma_tree_to_links(m, root);
        assert(m.contains_key(q));
    }
    assert(m1[n] == with_parent(fresh_leaf(payload, meta), Some(sid)));
    assert(m1[n] is Leaf);
    assert(s1.tree.root != Some(n));
    assert(s2.valid());
    assert(has_shape(m, f, Shape::Tip(f)));
    lemma_shape_of(m, f, Shape::Tip(f));
}

impl<T> Session<T> {
    /// Removes the focused leaf. Its sibling takes its parent's place; the
    /// focus moves to the first leaf below the sibling (or nothing is left
    /// when the focus was the root).
    pub fn remove_focus(&mut self) -> (r: Result<(), OpError>)
        requires
            old(self).focus matches Some(f) && is_leaf_at(old(self).tree.nodes@, f) ==> old(
                self,
            ).tree.well_formed(),
            old(self).revision < u64::MAX,
        ensures
            remove_outcome(*old(self), *final(self), r),
    {
        let focus = match self.focus_leaf() {
            Ok(f) => f,
            Err(e) => return Err(e),
        };
        let ghost m = self.tree.nodes@;
        let ghost root0 = self.tree.root;
        let old_selection = self.selection;
        let fallback = if self.tree.root == Some(focus) {
            self.tree.root = None;
            None
        } else {
            proof {
                lemma_lift_facts(m, root0, focus);
            }
            let sibling = match self.tree.sibling_of(focus) {
                Some(s) => s,
                None => return Err(OpError::NoParent(focus)),
            };
            let replacement = match self.tree.collapse_unary_parent(focus) {
                Some(s) => s,
                None => sibling,
            };
            Some(replacement)
        };
        self.tree.nodes.remove(&focus);
        let ghost m2 = self.tree.nodes@;
        proof {
            if root0 == Some(focus) {
                assert(m2.dom() =~= Set::<NodeId>::empty()) by {
                    assert(m.dom() =~= set![focus]) by {
                        let s0 = crate::tree::shape_of(m, focus);
                        crate::tree::lemma_shape_id(m, focus, s0);
                        assert(s0 == crate::tree::Shape::Tip(focus));
                    }
                }
                assert(tree_ok(m2, None));
            } else {
                lemma_lift_ok(m, root0, focus);
            }
            lemma_tree_ok_acyclic(m2, self.tree.root);
        }
        self.repair_after_mutation(focus, old_selection, fallback);
        self.bump_revision();
        proof {
            if root0 != Some(focus) {
                let s = spec_sibling(m, focus)->0;
                assert(m2.contains_key(s));
                crate::tree::lemma_node_shape(&self.tree, s);
                crate::tree::lemma_first_leaf_is_leaf(m2, s, crate::tree::shape_of(m2, s));
                lemma_first_leaf_exists(m2, s, crate::tree::shape_of(m2, s));
                lemma_repair_valid(m2, self.tree.root, self.focus, old_selection);
            }
        }
        match self.validate() {
            Ok(()) => Ok(()),
            Err(e) => Err(OpError::Validation(e)),
        }
    }
}

/// Below a node whose subtree is stored there is a first leaf.
proof fn lemma_first_leaf_exists<T>(m: Map<NodeId, Node<T>>, id: NodeId, s: crate::tree::Shape)
    requires
        crate::tree::has_shape(m, id, s),
        s.ids().subset_of(m.dom()),
    ensures
        crate::tree::spec_first_leaf(m, s) is Some,
    decreases s,
{
    match s {
        crate::tree::Shape::Tip(i) => {
            assert(s.ids().contains(i));
        },
        crate::tree::Shape::Fork(i, l, r) => {
            assert(l.ids().subset_of(s.ids()));
            lemma_first_leaf_exists(m, crate::tree::split_of(m[id]).a, *l);
        },
    }
}


/// The split `p` with its two children exchanged (weights stay in place).
pub open spec fn children_swapped(sp: SplitNode) -> SplitNode {
    SplitNode { a: sp.b, b: sp.a, ..sp }
}

/// The node map and root once `a` and `b` exchange positions: children of
/// one split swap slots; otherwise each takes the other's place below its
/// parent (or as the root).
pub open spec fn swapped_tree<T>(m: Map<NodeId, Node<T>>, root: Option<NodeId>, a: NodeId, b: NodeId) -> (
    Map<NodeId, Node<T>>,
    Option<NodeId>,
) {
    let pa = node_parent(m[a]);
    let pb = node_parent(m[b]);
    if pa == pb {
        (m.insert(pa->0, Node::Split(children_swapped(split_of(m[pa->0])))), root)
    } else {
        (traded_map(m, a, b), traded_root(m, root, a, b))
    }
}

/// What `swap_nodes(a, b)` does: the error of the first failing check and no
/// change; otherwise the two nodes exchange positions (`swapped_tree`), the
/// focus stays, the selection is repaired and the revision advances.
pub open spec fn swap_outcome<T>(old: Session<T>, new: Session<T>, r: Result<(), OpError>, a: NodeId, b: NodeId) -> bool {
    ({
        let m = old.tree.nodes@;
        if a == b {
            r == Err::<(), OpError>(OpError::SameNode) && new == old
        } else if !m.contains_key(a) {
            r == Err::<(), OpError>(OpError::MissingNode(a)) && new == old
        } else if !m.contains_key(b) {
            r == Err::<(), OpError>(OpError::MissingNode(b)) && new == old
        } else if shape_of(m, a).ids().contains(b) || shape_of(m, b).ids().contains(a) {
            r == Err::<(), OpError>(OpError::AncestorConflict) && new == old
        } else {
            match old.focus {
                None => r == Err::<(), OpError>(OpError::Empty) && new == old,
                Some(f) => if !is_leaf_at(m, f) {
                    r == Err::<(), OpError>(OpError::NotLeaf(f)) && new == old
                } else {
                    let m2 = swapped_tree(m, old.tree.root, a, b).0;
                    let root2 = swapped_tree(m, old.tree.root, a, b).1;
                    &&& new.tree.nodes@ == m2
                    &&& new.tree.root == root2
                    &&& new.tree.next_id == old.tree.next_id
                    &&& new.focus == Some(f)
                    &&& new.selection == repaired_selection(
                        m2,
                        root2,
                        Some(f),
                        old.selection,
                    )
                    &&& new.revision == old.revision + 1
                    &&& (r is Ok <==> new.valid())
                    &&& (r matches Err(e) ==> e is Validation)
                    &&& (new.tree.well_formed() ==> r == focus_result(new))
                    &&& new.tree.well_formed()
                    &&& (old.valid() ==> r is Ok)
                },
            }
        }
    })
}

/// Swapping the same two nodes of a valid session twice succeeds both times
/// and gives back the same nodes and root, with the same focus, two revisions
/// later.
pub proof fn law_swap_twice_session<T>(
    s0: Session<T>,
    s1: Session<T>,
    s2: Session<T>,
    r1: Result<(), OpError>,
    r2: Result<(), OpError>,
    a: NodeId,
    b: NodeId,
)
    requires
        s0.valid(),
        r1 is Ok,
        swap_outcome(s0, s1, r1, a, b),
        swap_outcome(s1, s2, r2, a, b),
    ensures
        r2 is Ok,
        s2.tree.nodes@ == s0.tree.nodes@,
        s2.tree.root == s0.tree.root,
        s2.tree.next_id == s0.tree.next_id,
        s2.focus == s0.focus,
        s2.revision == s0.revision + 2,
{
    let m = s0.tree.nodes@;
    crate::tree::lemma_tree_acyclic(&s0.tree);
    crate::tree_links::lemma_tree_to_links(m, s0.tree.root);
    assert(m.dom().finite()) by {
        let r = s0.tree.root.unwrap();
        crate::tree::lemma_node_shape(&s0.tree, r);
        assert(shape_of(m, r).ids() =~= m.dom());
        lemma_shape_ids_finite(shape_of(m, r));
    }
    law_swap_twice(m, s0.tree.root, a, b);
}

/// The identifiers of a shape form a finite set.
proof fn lemma_shape_ids_finite(s: Shape)
    ensures
        s.ids().finite(),
    decreases s,
{
    match s {
        Shape::Tip(i) => {},
        Shape::Fork(_, l, r) => {
            lemma_shape_ids_finite(*l);
            lemma_shape_ids_finite(*r);
        },
    }
}

impl<T> Session<T> {
    /// Exchanges the positions of two nodes, neither inside the other's
    /// subtree.
    pub fn swap_nodes(&mut self, a: NodeId, b: NodeId) -> (r: Result<(), OpError>)
        requires
            a != b && old(self).tree.nodes@.contains_key(a) && old(self).tree.nodes@.contains_key(b)
                ==> old(self).tree.well_formed(),
            old(self).revision < u64::MAX,
        ensures
            swap_outcome(*old(self), *final(self), r, a, b),
    {
        if a == b {
            return Err(OpError::SameNode);
        }
        match self.require_node(a) {
            Ok(()) => {},
            Err(e) => return Err(e),
        }
        match self.require_node(b) {
            Ok(()) => {},
            Err(e) => return Err(e),
        }
        let ghost m = self.tree.nodes@;
        let ghost root0 = self.tree.root;
        proof {
            crate::tree::lemma_tree_acyclic(&self.tree);
            crate::tree::lemma_node_shape(&self.tree, a);
            crate::tree::lemma_node_shape(&self.tree, b);
        }
        if self.tree.contains_in_subtree(a, b) || self.tree.contains_in_subtree(b, a) {
            return Err(OpError::AncestorConflict);
        }
        let focus = match self.focus_leaf() {
            Ok(f) => f,
            Err(e) => return Err(e),
        };
        let old_selection = self.selection;
        let parent_a = self.tree.parent_of(a);
        let parent_b = self.tree.parent_of(b);
        proof {
            crate::tree_links::lemma_tree_to_links(m, root0);
            if parent_a != parent_b {
                lemma_trade_ok(m, root0, a, b);
            } else if root0 != Some(a) {
                lemma_lift_facts(m, root0, a);
                lemma_lift_facts(m, root0, b);
            }
        }
        if parent_a == parent_b {
            let parent = match parent_a {
                Some(p) => p,
                None => return Err(OpError::AncestorConflict),
            };
            let sp = match self.tree.split(parent) {
                Some(sp) => SplitNode { parent: sp.parent, axis: sp.axis, a: sp.a, b: sp.b, weights: sp.weights },
                None => return Err(OpError::NotSplit(parent)),
            };
            if sp.a == a && sp.b == b {
                self.put_split(parent, SplitNode { parent: sp.parent, axis: sp.axis, a: b, b: a, weights: sp.weights });
            } else if sp.a == b && sp.b == a {
                self.put_split(parent, SplitNode { parent: sp.parent, axis: sp.axis, a: a, b: b, weights: sp.weights });
            } else {
                return Err(OpError::AncestorConflict);
            }
        } else {
            match parent_a {
                Some(p) => self.tree.replace_child(p, a, b),
                None => {
                    self.tree.root = Some(b);
                    self.tree.set_parent(b, None);
                },
            }
            match parent_b {
                Some(q) => self.tree.replace_child(q, b, a),
                None => {
                    self.tree.root = Some(a);
                    self.tree.set_parent(a, None);
                },
            }
            self.tree.set_parent(a, parent_b);
            self.tree.set_parent(b, parent_a);
        }
        let ghost m2 = self.tree.nodes@;
        proof {
            if parent_a == parent_b {
                let p = parent_a.unwrap();
                let sp = split_of(m[p]);
                assert(node_valid(m[p]));
                crate::tree_links::lemma_swap_children_ok(
                    m,
                    root0,
                    p,
                    SplitNode { a: sp.b, b: sp.a, ..sp },
                );
                assert(m2 =~= m.insert(p, Node::Split(children_swapped(sp))));
            } else {
                assert(m2 =~= traded_map(m, a, b));
            }
            lemma_tree_ok_acyclic(m2, self.tree.root);
            assert(m2.contains_key(focus) && m2[focus] is Leaf);
        }
        let site = self.tree.root;
        self.repair_after_mutation(focus, old_selection, site);
        self.bump_revision();
        proof {
            lemma_repair_valid(m2, self.tree.root, Some(focus), old_selection);
        }
        match self.validate() {
            Ok(()) => Ok(()),
            Err(e) => Err(OpError::Validation(e)),
        }
    }
}


/// Parent fields: a second setting overrides the first, and setting the
/// parent a node already has changes nothing.
proof fn lemma_parent_field<T>(n: Node<T>, p: Option<NodeId>, q: Option<NodeId>)
    ensures
        with_parent(with_parent(n, p), q) == with_parent(n, q),
        with_parent(n, node_parent(n)) == n,
        node_parent(with_parent(n, p)) == p,
        (with_parent(n, p) is Split) == (n is Split),
        n is Split ==> split_of(with_parent(n, p)).a == split_of(n).a
            && split_of(with_parent(n, p)).b == split_of(n).b,
{
}

/// Two nodes with different parents, all four distinct, trade places by
/// rewriting exactly those four entries.
proof fn lemma_traded_closed<T>(m: Map<NodeId, Node<T>>, a: NodeId, b: NodeId, p: NodeId, q: NodeId)
    requires
        node_parent(m[a]) == Some(p),
        node_parent(m[b]) == Some(q),
        p != q,
        a != b,
        p != a,
        p != b,
        q != a,
        q != b,
    ensures
        traded_map(m, a, b) == m.insert(p, Node::Split(replaced_child(split_of(m[p]), a, b))).insert(
            q,
            Node::Split(replaced_child(split_of(m[q]), b, a)),
        ).insert(a, with_parent(m[a], Some(q))).insert(b, with_parent(m[b], Some(p))),
{
    lemma_parent_field(m[a], Some(q), Some(q));
    lemma_parent_field(m[b], Some(p), Some(p));
    let lhs = traded_map(m, a, b);
    let rhs = m.insert(p, Node::Split(replaced_child(split_of(m[p]), a, b))).insert(
        q,
        Node::Split(replaced_child(split_of(m[q]), b, a)),
    ).insert(a, with_parent(m[a], Some(q))).insert(b, with_parent(m[b], Some(p)));
    assert(lhs =~= rhs);
}

/// A shape survives any change that keeps, on its own nodes, which are
/// stored, which are splits, and the splits' children.
proof fn lemma_links_frame<T>(m0: Map<NodeId, Node<T>>, m1: Map<NodeId, Node<T>>, id: NodeId, s: Shape)
    requires
        has_shape(m0, id, s),
        forall|k: NodeId| #[trigger] s.ids().contains(k) ==> (m0.contains_key(k) <==> m1.contains_key(k)),
        forall|k: NodeId| #[trigger] s.ids().contains(k) && m0.contains_key(k) ==> {
            &&& (m0[k] is Split <==> m1[k] is Split)
            &&& (m0[k] is Split ==> split_of(m0[k]).a == split_of(m1[k]).a
                && split_of(m0[k]).b == split_of(m1[k]).b)
        },
    ensures
        has_shape(m1, id, s),
    decreases s,
{
    match s {
        Shape::Tip(i) => {
            assert(s.ids().contains(i));
        },
        Shape::Fork(i, l, r) => {
            assert(s.ids().contains(i));
            assert forall|k: NodeId| #[trigger] l.ids().contains(k) implies s.ids().contains(k) by {}
            assert forall|k: NodeId| #[trigger] r.ids().contains(k) implies s.ids().contains(k) by {}
            lemma_links_frame(m0, m1, split_of(m0[id]).a, *l);
            lemma_links_frame(m0, m1, split_of(m0[id]).b, *r);
        },
    }
}

/// What the swap laws need to know of two unnested nodes of a tree: the
/// shapes below them, and that each lies in its own shape but not the other's.
pub open spec fn swap_ready<T>(m: Map<NodeId, Node<T>>, root: Option<NodeId>, a: NodeId, b: NodeId) -> bool {
    &&& tree_ok(m, root)
    &&& m.dom().finite()
    &&& m.contains_key(a)
    &&& m.contains_key(b)
    &&& a != b
    &&& !shape_of(m, a).ids().contains(b)
    &&& !shape_of(m, b).ids().contains(a)
}

/// The shapes below both nodes are found, each contains its own node, and a
/// node's parent lies outside both shapes.
proof fn lemma_swap_setup<T>(m: Map<NodeId, Node<T>>, root: Option<NodeId>, a: NodeId, b: NodeId)
    requires
        swap_ready(m, root, a, b),
    ensures
        has_shape(m, a, shape_of(m, a)),
        has_shape(m, b, shape_of(m, b)),
        shape_of(m, a).ids().contains(a),
        shape_of(m, b).ids().contains(b),
        node_parent(m[a]) matches Some(p) ==> m.contains_key(p) && is_split_at(m, p)
            && !shape_of(m, a).ids().contains(p) && !shape_of(m, b).ids().contains(p)
            && (split_of(m[p]).a == a || split_of(m[p]).b == a) && node_valid(m[p])
            && node_parent(m[split_of(m[p]).a]) == Some(p) && node_parent(m[split_of(m[p]).b]) == Some(p),
        node_parent(m[b]) matches Some(q) ==> m.contains_key(q) && is_split_at(m, q)
            && !shape_of(m, a).ids().contains(q) && !shape_of(m, b).ids().contains(q)
            && (split_of(m[q]).a == b || split_of(m[q]).b == b) && node_valid(m[q])
            && node_parent(m[split_of(m[q]).a]) == Some(q) && node_parent(m[split_of(m[q]).b]) == Some(q),
        node_parent(m[a]) is Some || node_parent(m[b]) is Some,
{
    crate::tree_links::lemma_tree_to_links(m, root);
    let r = root.unwrap();
    let s = shape_of(m, r);
    lemma_sub_shape(m, r, s, a);
    lemma_sub_shape(m, r, s, b);
    lemma_shape_of(m, a, s.sub(a));
    lemma_shape_of(m, b, s.sub(b));
    crate::tree::lemma_shape_id(m, a, s.sub(a));
    crate::tree::lemma_shape_id(m, b, s.sub(b));
    lemma_subtree_closed(m, root, a, a);
    lemma_subtree_closed(m, root, b, b);
    if let Some(p) = node_parent(m[a]) {
        assert(m.contains_key(p));
        lemma_subtree_closed(m, root, a, p);
        lemma_subtree_closed(m, root, b, p);
        lemma_subtree_closed(m, root, b, a);
        if shape_of(m, a).ids().contains(p) {
            crate::tree_links::lemma_rank_below(m, root, a, p);
        }
    }
    if let Some(q) = node_parent(m[b]) {
        assert(m.contains_key(q));
        lemma_subtree_closed(m, root, a, q);
        lemma_subtree_closed(m, root, b, q);
        lemma_subtree_closed(m, root, a, b);
        if shape_of(m, b).ids().contains(q) {
            crate::tree_links::lemma_rank_below(m, root, b, q);
        }
    }
}

/// The first swap of two children of one split keeps a well-formed tree and
/// the shapes below both, and a second swap undoes it.
proof fn lemma_swap_siblings_twice<T>(m: Map<NodeId, Node<T>>, root: Option<NodeId>, a: NodeId, b: NodeId)
    requires
        swap_ready(m, root, a, b),
        node_parent(m[a]) == node_parent(m[b]),
    ensures
        ({
            let t1 = swapped_tree(m, root, a, b);
            &&& tree_ok(t1.0, t1.1)
            &&& t1.0.dom() == m.dom()
            &&& shape_of(t1.0, a) == shape_of(m, a)
            &&& shape_of(t1.0, b) == shape_of(m, b)
            &&& swapped_tree(t1.0, t1.1, a, b) == (m, root)
        }),
{
    lemma_swap_setup(m, root, a, b);
    let p = node_parent(m[a])->0;
    let sp = split_of(m[p]);
    let t1 = swapped_tree(m, root, a, b);
    let m1 = t1.0;
    crate::tree_links::lemma_swap_children_ok(m, root, p, children_swapped(sp));
    lemma_links_frame(m, m1, a, shape_of(m, a));
    lemma_links_frame(m, m1, b, shape_of(m, b));
    lemma_shape_of(m1, a, shape_of(m, a));
    lemma_shape_of(m1, b, shape_of(m, b));
    assert(m1.dom() =~= m.dom());
    assert(swapped_tree(m1, t1.1, a, b).0 =~= m);
}

/// The first trade of two nodes with different parents keeps a well-formed
/// tree and the shapes below both, and a second trade undoes it.
#[verifier::rlimit(40)]
proof fn lemma_trade_twice<T>(m: Map<NodeId, Node<T>>, root: Option<NodeId>, a: NodeId, b: NodeId)
    requires
        swap_ready(m, root, a, b),
        node_parent(m[a]) != node_parent(m[b]),
    ensures
        ({
            let t1 = swapped_tree(m, root, a, b);
            &&& tree_ok(t1.0, t1.1)
            &&& t1.0.dom() == m.dom()
            &&& shape_of(t1.0, a) == shape_of(m, a)
            &&& shape_of(t1.0, b) == shape_of(m, b)
            &&& swapped_tree(t1.0, t1.1, a, b) == (m, root)
        }),
{
    lemma_swap_setup(m, root, a, b);
    lemma_trade_ok(m, root, a, b);
    let p = node_parent(m[a])->0;
    let q = node_parent(m[b])->0;
    let sp = split_of(m[p]);
    let sq = split_of(m[q]);
    let m1 = traded_map(m, a, b);
    assert(sp.a != b && sp.b != b);
    assert(sq.a != a && sq.b != a);
    lemma_traded_closed(m, a, b, p, q);
    lemma_parent_field(m[a], Some(q), Some(p));
    lemma_parent_field(m[b], Some(p), Some(q));
    lemma_links_frame(m, m1, a, shape_of(m, a));
    lemma_links_frame(m, m1, b, shape_of(m, b));
    lemma_shape_of(m1, a, shape_of(m, a));
    lemma_shape_of(m1, b, shape_of(m, b));
    lemma_traded_closed(m1, a, b, q, p);
    assert(replaced_child(replaced_child(sp, a, b), b, a) == sp);
    assert(replaced_child(replaced_child(sq, b, a), a, b) == sq);
    assert(traded_map(m1, a, b) =~= m);
}

/// Swapping the same two nodes twice restores the tree exactly: the first
/// swap leaves a well-formed tree in which neither node is below the other,
/// so the second swap is accepted and undoes the first.
pub proof fn law_swap_twice<T>(m: Map<NodeId, Node<T>>, root: Option<NodeId>, a: NodeId, b: NodeId)
    requires
        tree_ok(m, root),
        m.dom().finite(),
        m.contains_key(a),
        m.contains_key(b),
        a != b,
        !shape_of(m, a).ids().contains(b),
        !shape_of(m, b).ids().contains(a),
    ensures
        ({
            let t1 = swapped_tree(m, root, a, b);
            &&& tree_ok(t1.0, t1.1)
            &&& t1.0.dom() == m.dom()
            &&& !shape_of(t1.0, a).ids().contains(b)
            &&& !shape_of(t1.0, b).ids().contains(a)
            &&& swapped_tree(t1.0, t1.1, a, b) == (m, root)
        }),
{
    if node_parent(m[a]) == node_parent(m[b]) {
        lemma_swap_siblings_twice(m, root, a, b);
    } else {
        lemma_trade_twice(m, root, a, b);
    }
}

/// Wrapping a node with a new leaf and then removing that leaf (its sibling
/// takes the new split's place) restores the node map and the root exactly.
#[verifier::rlimit(40)]
pub proof fn law_split_then_remove<T>(
    m: Map<NodeId, Node<T>>,
    root: Option<NodeId>,
    x: NodeId,
    leaf_id: NodeId,
    leaf: Node<T>,
    sid: NodeId,
    axis: Axis,
    slot: Slot,
    weights: WeightPair,
)
    requires
        tree_ok(m, root),
        m.contains_key(x),
        !m.contains_key(leaf_id),
        !m.contains_key(sid),
        leaf_id != sid,
    ensures
        ({
            let m1 = wrapped_map(m, x, leaf_id, leaf, sid, axis, slot, weights);
            let r1 = wrapped_root(m, root, x, sid);
            &&& node_parent(m1[leaf_id]) == Some(sid)
            &&& spec_sibling(m1, leaf_id) == Some(x)
            &&& map_lift(m1, sid, x).remove(leaf_id) == m
            &&& root_lift(m1, r1, sid, x) == root
        }),
{
    crate::tree_links::lemma_tree_to_links(m, root);
    let m1 = wrapped_map(m, x, leaf_id, leaf, sid, axis, slot, weights);
    lemma_parent_field(leaf, Some(sid), Some(sid));
    lemma_parent_field(m[x], Some(sid), None);
    assert(x != leaf_id && x != sid);
    assert(m1[leaf_id] == with_parent(leaf, Some(sid)));
    assert(m1[x] == with_parent(m[x], Some(sid)));
    match node_parent(m[x]) {
        Some(q) => {
            assert(m.contains_key(q));
            let sq = split_of(m[q]);
            assert(q != x && q != sid && q != leaf_id);
            assert(m.contains_key(sq.a) && m.contains_key(sq.b));
            lemma_parent_field(m[x], Some(sid), Some(q));
            assert(replaced_child(replaced_child(sq, x, sid), sid, x) == sq);
            let lhs = map_lift(m1, sid, x).remove(leaf_id);
            assert(lhs =~= m);
        },
        None => {
            assert(root == Some(x));
            let lhs = map_lift(m1, sid, x).remove(leaf_id);
            assert(lhs =~= m);
        },
    }
}

/// What remains of the subtree with shape `s` once `removed` is unhooked: its
/// top if both sides of every split on the way keep something, the surviving
/// side where one side is gone, nothing if all is gone.
pub open spec fn spec_remaining<T>(m: Map<NodeId, Node<T>>, s: Shape, removed: NodeId) -> Option<NodeId>
    decreases s,
{
    match s {
        Shape::Tip(i) => if i == removed {
            None
        } else if m.contains_key(i) {
            Some(i)
        } else {
            None
        },
        Shape::Fork(i, l, r) => if i == removed {
            None
        } else {
            match (spec_remaining(m, *l, removed), spec_remaining(m, *r, removed)) {
                (Some(_), Some(_)) => Some(i),
                (Some(x), None) => Some(x),
                (None, Some(x)) => Some(x),
                (None, None) => None,
            }
        },
    }
}

/// Outside the subtree of a non-root `sel`, what remains below `x` is `x`
/// itself, or the sibling of `sel` when `x` is `sel`'s parent.
proof fn lemma_remaining_is<T>(m: Map<NodeId, Node<T>>, root: Option<NodeId>, sel: NodeId, x: NodeId, s: Shape)
    requires
        tree_ok(m, root),
        m.contains_key(sel),
        root != Some(sel),
        has_shape(m, x, s),
        m.contains_key(x),
        !shape_of(m, sel).ids().contains(x),
    ensures
        spec_remaining(m, s, sel) == Some(moved_target(m, sel, x)),
    decreases s,
{
    lemma_lift_facts(m, root, sel);
    lemma_subtree_closed(m, root, sel, sel);
    crate::tree_links::lemma_tree_to_links(m, root);
    match s {
        Shape::Tip(i) => {},
        Shape::Fork(i, l, r) => {
            let ca = split_of(m[x]).a;
            let cb = split_of(m[x]).b;
            assert(m.contains_key(ca) && m.contains_key(cb));
            assert(node_parent(m[ca]) == Some(x) && node_parent(m[cb]) == Some(x));
            lemma_subtree_closed(m, root, sel, ca);
            lemma_subtree_closed(m, root, sel, cb);
            crate::tree::lemma_shape_id(m, ca, *l);
            crate::tree::lemma_shape_id(m, cb, *r);
            if Some(x) == node_parent(m[sel]) {
                let sib = spec_sibling(m, sel)->0;
                if ca == sel {
                    assert(cb == sib);
                    lemma_remaining_is(m, root, sel, cb, *r);
                    assert(spec_remaining(m, *l, sel) is None);
                } else {
                    assert(cb == sel);
                    assert(ca == sib);
                    lemma_remaining_is(m, root, sel, ca, *l);
                    assert(spec_remaining(m, *r, sel) is None);
                }
            } else {
                lemma_remaining_is(m, root, sel, ca, *l);
                lemma_remaining_is(m, root, sel, cb, *r);
            }
        },
    }
}

/// What remains of the subtree below `current` once `removed` is unhooked.
fn remaining_subtree_after_detach<T>(tree: &Tree<T>, current: NodeId, removed: NodeId, Ghost(s): Ghost<Shape>) -> (r: Option<NodeId>)
    requires
        has_shape(tree.nodes@, current, s),
    ensures
        r == spec_remaining(tree.nodes@, s, removed),
    decreases s,
{
    if current == removed {
        return None;
    }
    match tree.nodes.get(&current) {
        None => None,
        Some(Node::Leaf(_)) => Some(current),
        Some(Node::Split(split)) => {
            let ra = remaining_subtree_after_detach(tree, split.a, removed, Ghost(s.left()));
            let rb = remaining_subtree_after_detach(tree, split.b, removed, Ghost(s.right()));
            match (ra, rb) {
                (Some(_), Some(_)) => Some(current),
                (Some(id), None) | (None, Some(id)) => Some(id),
                (None, None) => None,
            }
        },
    }
}

impl<T> Session<T> {
    /// Moves the selected subtree next to `target`: the selection is unhooked
    /// (its sibling takes its parent's place) and wrapped with what remains of
    /// `target` in a new split along `axis`, in slot `slot`, with equal weights.
    #[verifier::spinoff_prover]
    pub fn move_selection_as_sibling_of(&mut self, target: NodeId, axis: Axis, slot: Slot) -> (r: Result<(), OpError>)
        requires
            old(self).selection matches Some(sel) && sel != target && old(self).tree.nodes@.contains_key(
                target,
            ) ==> old(self).tree.well_formed() && old(self).ids_fresh(),
            old(self).tree.next_id < u64::MAX,
            old(self).revision < u64::MAX,
            old(self).selection matches Some(sel) ==> (old(self).focus matches Some(f) ==> (
            (sel != target && old(self).tree.nodes@.contains_key(target) && !shape_of(
                old(self).tree.nodes@,
                sel,
            ).ids().contains(target) && is_leaf_at(old(self).tree.nodes@, f))
                ==> old(self).tree.nodes@.contains_key(sel))),
        ensures
            ({
                let m = old(self).tree.nodes@;
                match old(self).selection {
                    None => r == Err::<(), OpError>(OpError::Empty) && *final(self) == *old(self),
                    Some(sel) => if sel == target {
                        r == Err::<(), OpError>(OpError::SameNode) && *final(self) == *old(self)
                    } else if !m.contains_key(target) {
                        r == Err::<(), OpError>(OpError::MissingNode(target)) && *final(self) == *old(self)
                    } else if shape_of(m, sel).ids().contains(target) {
                        r == Err::<(), OpError>(OpError::TargetInsideSelection) && *final(self)
                            == *old(self)
                    } else {
                        match old(self).focus {
                            None => r == Err::<(), OpError>(OpError::Empty) && *final(self)
                                == *old(self),
                            Some(f) => if !is_leaf_at(m, f) {
                                r == Err::<(), OpError>(OpError::NotLeaf(f)) && *final(self)
                                    == *old(self)
                            } else {
                                let sid = old(self).tree.next_id;
                                let e = moved_target(m, sel, target);
                                let m2 = moved_map(m, sel, e, axis, slot, sid);
                                let root2 = moved_root(m, old(self).tree.root, sel, e, sid);
                                &&& r is Ok
                                &&& final(self).valid()
                                &&& final(self).ids_fresh()
                                &&& final(self).tree.nodes@ == m2
                                &&& final(self).tree.root == root2
                                &&& final(self).tree.next_id == old(self).tree.next_id + 1
                                &&& final(self).focus == Some(f)
                                &&& final(self).selection == repaired_selection(
                                    m2,
                                    root2,
                                    Some(f),
                                    old(self).selection,
                                )
                                &&& final(self).revision == old(self).revision + 1
                            },
                        }
                    },
                }
            }),
    {
        let selection = match self.selection {
            Some(s) => s,
            None => return Err(OpError::Empty),
        };
        if selection == target {
            return Err(OpError::SameNode);
        }
        match self.require_node(target) {
            Ok(()) => {},
            Err(e) => return Err(e),
        }
        let ghost m = self.tree.nodes@;
        let ghost root0 = self.tree.root;
        proof {
            crate::tree::lemma_tree_acyclic(&self.tree);
        }
        assert(crate::tree::finite_below(m, selection));
        if self.tree.contains_in_subtree(selection, target) {
            return Err(OpError::TargetInsideSelection);
        }
        let focus = match self.focus_leaf() {
            Ok(f) => f,
            Err(e) => return Err(e),
        };
        let old_selection = self.selection;
        let ghost sid = self.tree.next_id;
        proof {
            assert(m.contains_key(selection));
            assert(root0 != Some(selection)) by {
                if root0 == Some(selection) {
                    let rs = shape_of(m, selection);
                    assert(rs.ids() =~= m.dom());
                }
            }
            assert(!m.contains_key(sid));
            crate::tree::lemma_node_shape(&self.tree, target);
            lemma_remaining_is(m, root0, selection, target, shape_of(m, target));
            lemma_move_ok(m, root0, selection, target, axis, slot, sid);
        }
        let effective = match remaining_subtree_after_detach(&self.tree, target, selection, Ghost(shape_of(m, target))) {
            Some(e) => e,
            None => return Err(OpError::AncestorConflict),
        };
        self.tree.detach_subtree(selection);
        let split_id = self.tree.attach_as_sibling(effective, selection, axis, slot, WeightPair::default());
        let ghost m2 = self.tree.nodes@;
        proof {
            assert(m2 =~= moved_map(m, selection, effective, axis, slot, sid));
            lemma_tree_ok_acyclic(m2, self.tree.root);
            assert(m2.contains_key(focus) && m2[focus] is Leaf) by {
                assert(focus != sid);
            }
        }
        self.repair_after_mutation(focus, old_selection, Some(split_id));
        self.bump_revision();
        proof {
            lemma_repair_valid(m2, self.tree.root, Some(focus), old_selection);
            assert forall|k: NodeId| #[trigger] m2.contains_key(k) implies k < self.tree.next_id by {
                if k != sid {
                    assert(m.contains_key(k));
                }
            }
        }
        match self.validate() {
            Ok(()) => Ok(()),
            Err(e) => Err(OpError::Validation(e)),
        }
    }
}

} // verus!
