use vstd::prelude::*;

use crate::error::OpError;
use crate::ids::NodeId;
use crate::limits::{canonicalize_weights, equal_weights, spec_canonical, WeightPair};
use crate::session::{focus_check, focus_result, RebalanceMode, Session};
use crate::tree::{
    acyclic, finite_below, has_shape, is_split_at, lemma_same_links_acyclic, lemma_shape_of, lemma_sub_shape,
    lemma_tree_acyclic, node_parent, node_valid, same_links, shape_of, split_of, Node, Shape,
    SplitNode,
};
use crate::tree_links::{lemma_same_links_ok, lemma_swap_children_ok};
use crate::geom::Axis;

verus! {

broadcast use vstd::std_specs::hash::group_hash_axioms;

/// `new` is `old` with its node map replaced by `m` and the revision advanced;
/// root, identifier counter, focus and selection are untouched.
pub open spec fn rewritten<T>(old: Session<T>, new: Session<T>, m: Map<NodeId, Node<T>>) -> bool {
    &&& new.tree.nodes@ == m
    &&& new.tree.root == old.tree.root
    &&& new.tree.next_id == old.tree.next_id
    &&& new.focus == old.focus
    &&& new.selection == old.selection
    &&& new.revision == old.revision + 1
}

/// The split at `id` with its axis toggled.
pub open spec fn toggled_split(s: SplitNode) -> SplitNode {
    SplitNode { axis: s.axis.spec_toggled(), ..s }
}

/// Focus and selection checks only read which nodes are stored, which are
/// splits, and the child links.
pub proof fn lemma_focus_check_same_links<T>(
    m: Map<NodeId, Node<T>>,
    m2: Map<NodeId, Node<T>>,
    root: Option<NodeId>,
    focus: Option<NodeId>,
    selection: Option<NodeId>,
)
    requires
        acyclic(m),
        same_links(m, m2),
    ensures
        focus_check(m2, root, focus, selection) == focus_check(m, root, focus, selection),
{
    lemma_same_links_acyclic(m, m2);
    if let Some(f) = focus {
        assert(m.contains_key(f) == m2.contains_key(f));
    }
    if let Some(s) = selection {
        assert(m.contains_key(s) == m2.contains_key(s));
        assert(crate::tree::shape_of(m2, s) == crate::tree::shape_of(m, s));
    }
}

/// Rewriting nodes of a valid session without changing links, markers or
/// parents, and keeping every node valid, keeps it valid.
pub proof fn lemma_rewrite_valid<T>(s: Session<T>, m2: Map<NodeId, Node<T>>)
    requires
        s.valid(),
        same_links(s.tree.nodes@, m2),
        forall|k: NodeId| #[trigger] s.tree.nodes@.contains_key(k) ==> node_parent(m2[k]) == node_parent(
            s.tree.nodes@[k],
        ),
        forall|k: NodeId| #[trigger] m2.contains_key(k) ==> node_valid(m2[k]),
    ensures
        crate::tree::tree_ok(m2, s.tree.root),
        focus_check(m2, s.tree.root, s.focus, s.selection) is Ok,
{
    lemma_tree_acyclic(&s.tree);
    lemma_same_links_ok(s.tree.nodes@, m2, s.tree.root);
    lemma_focus_check_same_links(s.tree.nodes@, m2, s.tree.root, s.focus, s.selection);
}

impl<T> Session<T> {
    /// Stores `split` at `id`, replacing what was there.
    pub(crate) fn put_split(&mut self, id: NodeId, split: SplitNode)
        ensures
            final(self).tree.nodes@ == old(self).tree.nodes@.insert(id, Node::Split(split)),
            final(self).tree.root == old(self).tree.root,
            final(self).tree.next_id == old(self).tree.next_id,
            final(self).focus == old(self).focus,
            final(self).selection == old(self).selection,
            final(self).revision == old(self).revision,
    {
        self.tree.nodes.insert(id, Node::Split(split));
    }

    /// Toggles the axis of the selected split.
    pub fn toggle_axis(&mut self) -> (r: Result<(), OpError>)
        requires
            old(self).revision < u64::MAX,
        ensures
            toggle_outcome(*old(self), *final(self), r),
    {
        let selection = match self.selection {
            Some(s) => s,
            None => return Err(OpError::Empty),
        };
        let toggled = match self.tree.split(selection) {
            Some(s) => SplitNode {
                parent: s.parent,
                axis: s.axis.toggled(),
                a: s.a,
                b: s.b,
                weights: s.weights,
            },
            None => return Err(OpError::NotSplit(selection)),
        };
        let ghost m = self.tree.nodes@;
        let ghost old_s = *self;
        self.put_split(selection, toggled);
        self.bump_revision();
        proof {
            let m2 = self.tree.nodes@;
            if old_s.valid() {
                assert(same_links(m, m2));
                assert(node_valid(m[selection]));
                lemma_rewrite_valid(old_s, m2);
            }
        }
        match self.validate() {
            Ok(()) => Ok(()),
            Err(e) => Err(OpError::Validation(e)),
        }
    }
}


/// Toggling the axis of the same split twice restores the node map exactly.
pub proof fn law_toggle_twice<T>(m: Map<NodeId, Node<T>>, sel: NodeId)
    requires
        is_split_at(m, sel),
    ensures
        ({
            let m1 = m.insert(sel, Node::Split(toggled_split(split_of(m[sel]))));
            &&& is_split_at(m1, sel)
            &&& m1.insert(sel, Node::Split(toggled_split(split_of(m1[sel])))) == m
        }),
{
    let sn = split_of(m[sel]);
    crate::geom::lemma_toggled_involution(sn.axis);
    let m1 = m.insert(sel, Node::Split(toggled_split(sn)));
    assert(toggled_split(toggled_split(sn)) == sn);
    assert(m1.insert(sel, Node::Split(toggled_split(split_of(m1[sel])))) =~= m);
}

/// What `toggle_axis` does: the error and no change without a selected split;
/// otherwise the split's axis toggles and the revision advances.
pub open spec fn toggle_outcome<T>(old: Session<T>, new: Session<T>, r: Result<(), OpError>) -> bool {
    ({
        let m = old.tree.nodes@;
        match old.selection {
            None => r == Err::<(), OpError>(OpError::Empty) && new == old,
            Some(sel) => if !is_split_at(m, sel) {
                r == Err::<(), OpError>(OpError::NotSplit(sel)) && new == old
            } else {
                &&& rewritten(
                    old,
                    new,
                    m.insert(sel, Node::Split(toggled_split(split_of(m[sel])))),
                )
                &&& (r is Ok <==> new.valid())
                &&& (r matches Err(e) ==> e is Validation)
                &&& (new.tree.well_formed() ==> r == focus_result(new))
                &&& (old.valid() ==> r is Ok)
            },
        }
    })
}

/// Number of leaves below `id`.
pub open spec fn leaf_count<T>(m: Map<NodeId, Node<T>>, id: NodeId) -> nat {
    shape_of(m, id).leaves().len()
}

/// The weights `rebalance_selection` gives the split `k` of `m`.
pub open spec fn rebalanced_weights<T>(m: Map<NodeId, Node<T>>, k: NodeId, mode: RebalanceMode) -> WeightPair {
    match mode {
        RebalanceMode::BinaryEqual => equal_weights(),
        RebalanceMode::LeafCount => spec_canonical(
            leaf_count(m, split_of(m[k]).a) as u32,
            leaf_count(m, split_of(m[k]).b) as u32,
        ),
    }
}

/// `m` with every split among `ids` given its rebalanced weights.
pub open spec fn rebalanced_map<T>(m: Map<NodeId, Node<T>>, ids: Set<NodeId>, mode: RebalanceMode) -> Map<
    NodeId,
    Node<T>,
> {
    Map::new(
        |k: NodeId| m.contains_key(k),
        |k: NodeId|
            if ids.contains(k) && m[k] is Split {
                Node::Split(SplitNode { weights: rebalanced_weights(m, k, mode), ..split_of(m[k]) })
            } else {
                m[k]
            },
    )
}

/// Every shape has a leaf.
pub proof fn lemma_leaves_nonempty(s: Shape)
    ensures
        s.leaves().len() >= 1,
    decreases s,
{
    match s {
        Shape::Tip(_) => {},
        Shape::Fork(_, l, r) => {
            lemma_leaves_nonempty(*l);
        },
    }
}


/// Rebalancing keeps child links, markers and parents.
proof fn lemma_rebalanced_links<T>(m: Map<NodeId, Node<T>>, ids: Set<NodeId>, mode: RebalanceMode)
    ensures
        same_links(m, rebalanced_map(m, ids, mode)),
        forall|k: NodeId| #[trigger] m.contains_key(k) ==> node_parent(rebalanced_map(m, ids, mode)[k])
            == node_parent(m[k]),
{
    let m2 = rebalanced_map(m, ids, mode);
    assert(m.dom() =~= m2.dom());
}

impl<T> Session<T> {
    /// Resets the weights of every split below `id` and returns the number of
    /// leaves below it.
    fn rebalance_subtree(&mut self, id: NodeId, mode: RebalanceMode, Ghost(s): Ghost<Shape>) -> (r: Result<u32, OpError>)
        requires
            acyclic(old(self).tree.nodes@),
            has_shape(old(self).tree.nodes@, id, s),
            s.distinct(),
            s.ids().subset_of(old(self).tree.nodes@.dom()),
            s.leaves().len() <= u32::MAX,
        ensures
            final(self).tree.root == old(self).tree.root,
            final(self).tree.next_id == old(self).tree.next_id,
            final(self).focus == old(self).focus,
            final(self).selection == old(self).selection,
            final(self).revision == old(self).revision,
            if old(self).tree.nodes@.contains_key(id) {
                &&& r == Ok::<u32, OpError>(s.leaves().len() as u32)
                &&& final(self).tree.nodes@ == rebalanced_map(old(self).tree.nodes@, s.ids(), mode)
            } else {
                &&& r == Err::<u32, OpError>(OpError::NotSplit(id))
                &&& final(self).tree.nodes@ == old(self).tree.nodes@
            },
        decreases s,
    {
        let ghost m0 = self.tree.nodes@;
        proof {
            lemma_shape_of(m0, id, s);
        }
        if self.tree.is_leaf(id) {
            assert(s == Shape::Tip(id));
            assert(rebalanced_map(m0, s.ids(), mode) =~= m0);
            return Ok(1);
        }
        let (a, b) = match self.tree.children_of(id) {
            Some(c) => c,
            None => {
                assert(!m0.contains_key(id));
                return Err(OpError::NotSplit(id));
            },
        };
        let ghost l = s.left();
        let ghost rr = s.right();
        proof {
            crate::tree::lemma_shape_id(m0, a, l);
            crate::tree::lemma_shape_id(m0, b, rr);
        }
        let count_a = match self.rebalance_subtree(a, mode, Ghost(l)) {
            Ok(c) => c,
            Err(e) => return Err(e),
        };
        let ghost m1 = self.tree.nodes@;
        proof {
            lemma_rebalanced_links(m0, l.ids(), mode);
            lemma_same_links_acyclic(m0, m1);
            crate::tree::lemma_same_links_shape(m0, m1, b, rr);
            crate::tree::lemma_shape_id(m0, b, rr);
        }
        let count_b = match self.rebalance_subtree(b, mode, Ghost(rr)) {
            Ok(c) => c,
            Err(e) => return Err(e),
        };
        let ghost m2 = self.tree.nodes@;
        proof {
            lemma_rebalanced_links(m1, rr.ids(), mode);
            lemma_same_links_acyclic(m1, m2);
            lemma_shape_of(m0, a, l);
            lemma_shape_of(m0, b, rr);
            lemma_leaves_nonempty(l);
            assert(m2[id] == m0[id]);
        }
        let weights = match mode {
            RebalanceMode::BinaryEqual => WeightPair::default(),
            RebalanceMode::LeafCount => canonicalize_weights(count_a, count_b),
        };
        let updated = match self.tree.split(id) {
            Some(sn) => SplitNode { parent: sn.parent, axis: sn.axis, a: sn.a, b: sn.b, weights },
            None => return Err(OpError::NotSplit(id)),
        };
        self.put_split(id, updated);
        proof {
            let fin = self.tree.nodes@;
            let want = rebalanced_map(m0, s.ids(), mode);
            assert(weights == rebalanced_weights(m0, id, mode));
            assert forall|k: NodeId| #[trigger] fin.contains_key(k) implies fin[k] == want[k] by {
                if k != id {
                    if l.ids().contains(k) {
                        assert(!rr.ids().contains(k));
                        assert(shape_of(m1, k) == shape_of(m0, k));
                        assert(shape_of(m1, split_of(m1[k]).a) == shape_of(m0, split_of(m0[k]).a));
                        assert(shape_of(m1, split_of(m1[k]).b) == shape_of(m0, split_of(m0[k]).b));
                    } else if rr.ids().contains(k) {
                        assert(m1[k] == m0[k]);
                        assert(shape_of(m1, split_of(m0[k]).a) == shape_of(m0, split_of(m0[k]).a));
                        assert(shape_of(m1, split_of(m0[k]).b) == shape_of(m0, split_of(m0[k]).b));
                    }
                }
            }
            assert(fin =~= want);
        }
        Ok(count_a + count_b)
    }
}


/// Rebalancing the same subtree twice in the same mode leaves the node map
/// as the first rebalance made it.
pub proof fn law_rebalance_idempotent<T>(m: Map<NodeId, Node<T>>, sel: NodeId, mode: RebalanceMode)
    requires
        finite_below(m, sel),
    ensures
        ({
            let m1 = rebalanced_map(m, shape_of(m, sel).ids(), mode);
            rebalanced_map(m1, shape_of(m1, sel).ids(), mode) == m1
        }),
{
    let s = shape_of(m, sel);
    let ids = s.ids();
    let m1 = rebalanced_map(m, ids, mode);
    lemma_shape_of(m, sel, s);
    lemma_rebalanced_links(m, ids, mode);
    crate::tree::lemma_same_links_shape(m, m1, sel, s);
    lemma_shape_of(m1, sel, s);
    let m2 = rebalanced_map(m1, ids, mode);
    assert forall|k: NodeId| #[trigger] m2.contains_key(k) implies m2[k] == m1[k] by {
        if ids.contains(k) && m1[k] is Split {
            lemma_sub_shape(m, sel, s, k);
            let t = s.sub(k);
            lemma_shape_of(m, k, t);
            match t {
                Shape::Fork(_, l, r) => {
                    let ca = split_of(m[k]).a;
                    let cb = split_of(m[k]).b;
                    lemma_shape_of(m, ca, *l);
                    lemma_shape_of(m, cb, *r);
                    crate::tree::lemma_same_links_shape(m, m1, ca, *l);
                    crate::tree::lemma_same_links_shape(m, m1, cb, *r);
                    lemma_shape_of(m1, ca, *l);
                    lemma_shape_of(m1, cb, *r);
                    assert(rebalanced_weights(m1, k, mode) == rebalanced_weights(m, k, mode));
                },
                Shape::Tip(_) => {},
            }
        }
    }
    assert(m2 =~= m1);
}

/// A leaf count of a sub-shape is at most the whole shape's.
proof fn lemma_sub_leaves(s: Shape, x: NodeId)
    requires
        s.ids().contains(x),
    ensures
        s.sub(x).leaves().len() <= s.leaves().len(),
    decreases s,
{
    match s {
        Shape::Tip(_) => {},
        Shape::Fork(i, l, r) => {
            if x != i {
                if l.ids().contains(x) {
                    lemma_sub_leaves(*l, x);
                } else {
                    lemma_sub_leaves(*r, x);
                }
            }
        },
    }
}

/// Canonical weights of a pair that is not all zero are valid.
proof fn lemma_canonical_valid(a: u32, b: u32)
    requires
        a != 0 || b != 0,
    ensures
        spec_canonical(a, b).spec_valid(),
{
    if a != 0 && b != 0 {
        crate::limits::lemma_gcd_positive(a as nat, b as nat);
        let g = crate::limits::spec_gcd(a as nat, b as nat);
        assert((a as nat) / g >= 1) by (nonlinear_arith)
            requires
                0 < g <= a,
        ;
    }
}

impl<T> Session<T> {
    /// Resets the weights of every split in the selected subtree: to equal
    /// weights, or in proportion to the leaves on each side.
    pub fn rebalance_selection(&mut self, mode: RebalanceMode) -> (r: Result<(), OpError>)
        requires
            old(self).tree.well_formed(),
            old(self).revision < u64::MAX,
            old(self).selection matches Some(sel) ==> (old(self).tree.nodes@.contains_key(sel)
                ==> leaf_count(old(self).tree.nodes@, sel) <= u32::MAX),
        ensures
            rebalance_outcome(*old(self), *final(self), r, mode),
    {
        let selection = match self.selection {
            Some(s) => s,
            None => return Err(OpError::Empty),
        };
        let ghost m = self.tree.nodes@;
        let ghost old_s = *self;
        if !self.tree.contains(selection) {
            return Err(OpError::NotSplit(selection));
        }
        proof {
            lemma_tree_acyclic(&self.tree);
            crate::tree::lemma_node_shape(&self.tree, selection);
        }
        match self.rebalance_subtree(selection, mode, Ghost(shape_of(m, selection))) {
            Ok(_) => {},
            Err(e) => return Err(e),
        }
        self.bump_revision();
        proof {
            let ids = shape_of(m, selection).ids();
            let m2 = self.tree.nodes@;
            if old_s.valid() {
                lemma_rebalanced_links(m, ids, mode);
                assert forall|k: NodeId| #[trigger] m2.contains_key(k) implies node_valid(m2[k]) by {
                    assert(node_valid(m[k]));
                    if ids.contains(k) && m[k] is Split {
                        let t = shape_of(m, selection);
                        crate::tree::lemma_node_shape(&old_s.tree, k);
                        crate::tree::lemma_sub_shape(m, selection, t, k);
                        lemma_shape_of(m, k, t.sub(k));
                        lemma_sub_leaves(t, k);
                        let ca = split_of(m[k]).a;
                        let cb = split_of(m[k]).b;
                        match t.sub(k) {
                            Shape::Fork(_, l, rr) => {
                                lemma_shape_of(m, ca, *l);
                                lemma_shape_of(m, cb, *rr);
                                lemma_leaves_nonempty(*l);
                                lemma_leaves_nonempty(*rr);
                            },
                            Shape::Tip(_) => {},
                        }
                        if mode == RebalanceMode::LeafCount {
                            lemma_canonical_valid(leaf_count(m, ca) as u32, leaf_count(m, cb) as u32);
                        }
                    }
                }
                lemma_rewrite_valid(old_s, m2);
            }
        }
        match self.validate() {
            Ok(()) => Ok(()),
            Err(e) => Err(OpError::Validation(e)),
        }
    }
}


/// What `rebalance_selection` does: the error and no change without a stored
/// selection; otherwise every split below it gets its rebalanced weights and
/// the revision advances.
pub open spec fn rebalance_outcome<T>(old: Session<T>, new: Session<T>, r: Result<(), OpError>, mode: RebalanceMode) -> bool {
    ({
        let m = old.tree.nodes@;
        match old.selection {
            None => r == Err::<(), OpError>(OpError::Empty) && new == old,
            Some(sel) => if !m.contains_key(sel) {
                r == Err::<(), OpError>(OpError::NotSplit(sel)) && new == old
            } else {
                &&& rewritten(
                    old,
                    new,
                    rebalanced_map(m, shape_of(m, sel).ids(), mode),
                )
                &&& (r is Ok <==> new.valid())
                &&& (r matches Err(e) ==> e is Validation)
                &&& (new.tree.well_formed() ==> r == focus_result(new))
                &&& (old.valid() ==> r is Ok)
            },
        }
    })
}

/// Toggling the axis of the selected split of a valid session twice succeeds
/// both times and gives back the same nodes, root, focus and selection, two
/// revisions later.
pub proof fn law_toggle_twice_session<T>(
    s0: Session<T>,
    s1: Session<T>,
    s2: Session<T>,
    r1: Result<(), OpError>,
    r2: Result<(), OpError>,
)
    requires
        s0.valid(),
        s0.selection matches Some(sel) && is_split_at(s0.tree.nodes@, sel),
        toggle_outcome(s0, s1, r1),
        toggle_outcome(s1, s2, r2),
    ensures
        r1 is Ok,
        r2 is Ok,
        s2.tree.nodes@ == s0.tree.nodes@,
        s2.tree.root == s0.tree.root,
        s2.focus == s0.focus,
        s2.selection == s0.selection,
        s2.revision == s0.revision + 2,
{
    law_toggle_twice(s0.tree.nodes@, s0.selection->0);
}

/// Rebalancing the selection of a valid session twice in the same mode
/// succeeds both times; the second time changes nothing but the revision.
pub proof fn law_rebalance_twice_session<T>(
    s0: Session<T>,
    s1: Session<T>,
    s2: Session<T>,
    r1: Result<(), OpError>,
    r2: Result<(), OpError>,
    mode: RebalanceMode,
)
    requires
        s0.valid(),
        s0.selection is Some,
        rebalance_outcome(s0, s1, r1, mode),
        rebalance_outcome(s1, s2, r2, mode),
    ensures
        r1 is Ok,
        r2 is Ok,
        s2.tree.nodes@ == s1.tree.nodes@,
        s2.tree.root == s1.tree.root,
        s2.focus == s1.focus,
        s2.selection == s1.selection,
        s2.revision == s1.revision + 1,
{
    lemma_tree_acyclic(&s0.tree);
    law_rebalance_idempotent(s0.tree.nodes@, s0.selection->0, mode);
}

/// The split with its children, and their weights, exchanged.
pub open spec fn mirrored_split(sn: SplitNode) -> SplitNode {
    SplitNode {
        a: sn.b,
        b: sn.a,
        weights: WeightPair { a: sn.weights.b, b: sn.weights.a },
        ..sn
    }
}

/// `m` with every split among `ids` that splits along `axis` mirrored.
pub open spec fn mirrored_map<T>(m: Map<NodeId, Node<T>>, ids: Set<NodeId>, axis: Axis) -> Map<
    NodeId,
    Node<T>,
> {
    Map::new(
        |k: NodeId| m.contains_key(k),
        |k: NodeId|
            if ids.contains(k) && m[k] is Split && split_of(m[k]).axis == axis {
                Node::Split(mirrored_split(split_of(m[k])))
            } else {
                m[k]
            },
    )
}

/// A shape only depends on the nodes it names.
proof fn lemma_shape_frame<T>(m0: Map<NodeId, Node<T>>, m1: Map<NodeId, Node<T>>, id: NodeId, s: Shape)
    requires
        has_shape(m0, id, s),
        forall|k: NodeId| #[trigger] s.ids().contains(k) ==> (m0.contains_key(k) <==> m1.contains_key(k)),
        forall|k: NodeId| #[trigger] s.ids().contains(k) && m0.contains_key(k) ==> m1[k] == m0[k],
    ensures
        has_shape(m1, id, s),
    decreases s,
{
    match s {
        Shape::Tip(i) => {
            assert(s.ids().contains(i));
        },
        Shape::Fork(i, l, r) => {
            assert(s.ids().contains(i));
            assert forall|k: NodeId| #[trigger] l.ids().contains(k) implies s.ids().contains(k) by {}
            assert forall|k: NodeId| #[trigger] r.ids().contains(k) implies s.ids().contains(k) by {}
            lemma_shape_frame(m0, m1, split_of(m0[id]).a, *l);
            lemma_shape_frame(m0, m1, split_of(m0[id]).b, *r);
        },
    }
}

/// The shape below a node after mirroring: forks along `axis` exchange their
/// two sides.
pub open spec fn mirror_shape<T>(m: Map<NodeId, Node<T>>, s: Shape, axis: Axis) -> Shape
    decreases s,
{
    match s {
        Shape::Tip(i) => Shape::Tip(i),
        Shape::Fork(i, l, r) => if split_of(m[i]).axis == axis {
            Shape::Fork(i, Box::new(mirror_shape(m, *r, axis)), Box::new(mirror_shape(m, *l, axis)))
        } else {
            Shape::Fork(i, Box::new(mirror_shape(m, *l, axis)), Box::new(mirror_shape(m, *r, axis)))
        },
    }
}

/// Mirroring a set that covers a subtree gives that subtree the mirrored
/// shape, over the same identifiers.
proof fn lemma_mirror_shape<T>(m: Map<NodeId, Node<T>>, ids: Set<NodeId>, axis: Axis, id: NodeId, s: Shape)
    requires
        has_shape(m, id, s),
        s.ids().subset_of(ids),
    ensures
        has_shape(mirrored_map(m, ids, axis), id, mirror_shape(m, s, axis)),
        mirror_shape(m, s, axis).ids() == s.ids(),
    decreases s,
{
    let m1 = mirrored_map(m, ids, axis);
    match s {
        Shape::Tip(i) => {
            assert(mirror_shape(m, s, axis).ids() =~= s.ids());
        },
        Shape::Fork(i, l, r) => {
            assert(s.ids().contains(i));
            lemma_mirror_shape(m, ids, axis, split_of(m[id]).a, *l);
            lemma_mirror_shape(m, ids, axis, split_of(m[id]).b, *r);
            assert(mirror_shape(m, s, axis).ids() =~= s.ids());
        },
    }
}

/// Mirroring keeps the identifiers below every node of the mirrored subtree.
proof fn lemma_mirror_keeps_ids<T>(m: Map<NodeId, Node<T>>, sel: NodeId, axis: Axis)
    requires
        finite_below(m, sel),
    ensures
        finite_below(mirrored_map(m, shape_of(m, sel).ids(), axis), sel),
        shape_of(mirrored_map(m, shape_of(m, sel).ids(), axis), sel).ids() == shape_of(m, sel).ids(),
{
    let s = shape_of(m, sel);
    let ids = s.ids();
    lemma_shape_of(m, sel, s);
    lemma_mirror_shape(m, ids, axis, sel, s);
    lemma_shape_of(mirrored_map(m, ids, axis), sel, mirror_shape(m, s, axis));
}

/// Mirroring the same subtree along the same axis twice restores the node
/// map exactly.
pub proof fn law_mirror_twice<T>(m: Map<NodeId, Node<T>>, sel: NodeId, axis: Axis)
    requires
        finite_below(m, sel),
    ensures
        ({
            let m1 = mirrored_map(m, shape_of(m, sel).ids(), axis);
            mirrored_map(m1, shape_of(m1, sel).ids(), axis) == m
        }),
{
    let ids = shape_of(m, sel).ids();
    let m1 = mirrored_map(m, ids, axis);
    lemma_mirror_keeps_ids(m, sel, axis);
    let m2 = mirrored_map(m1, shape_of(m1, sel).ids(), axis);
    assert(m2 =~= m);
}

/// What `mirror_selection` does: without a selection it fails with `Empty`
/// and changes nothing; otherwise it mirrors the selected subtree, advances
/// the revision, and succeeds exactly when the result is valid (always, from a
/// valid session).
pub open spec fn mirror_outcome<T>(old: Session<T>, new: Session<T>, r: Result<(), OpError>, axis: Axis) -> bool {
    let m = old.tree.nodes@;
    match old.selection {
        None => r == Err::<(), OpError>(OpError::Empty) && new == old,
        Some(sel) => {
            &&& rewritten(old, new, mirrored_map(m, shape_of(m, sel).ids(), axis))
            &&& new.tree.well_formed()
            &&& (r is Ok <==> new.valid())
            &&& (r matches Err(e) ==> e is Validation)
            &&& (new.tree.well_formed() ==> r == focus_result(new))
            &&& (old.valid() ==> r is Ok)
        },
    }
}

/// Mirroring the selection of a valid session twice along the same axis
/// succeeds both times and gives back the same nodes, root, focus and
/// selection, two revisions later.
pub proof fn law_mirror_twice_session<T>(
    s0: Session<T>,
    s1: Session<T>,
    s2: Session<T>,
    r1: Result<(), OpError>,
    r2: Result<(), OpError>,
    axis: Axis,
)
    requires
        s0.valid(),
        s0.selection is Some,
        mirror_outcome(s0, s1, r1, axis),
        mirror_outcome(s1, s2, r2, axis),
    ensures
        r1 is Ok,
        r2 is Ok,
        s2.tree.nodes@ == s0.tree.nodes@,
        s2.tree.root == s0.tree.root,
        s2.tree.next_id == s0.tree.next_id,
        s2.focus == s0.focus,
        s2.selection == s0.selection,
        s2.revision == s0.revision + 2,
{
    let sel = s0.selection->0;
    lemma_tree_acyclic(&s0.tree);
    law_mirror_twice(s0.tree.nodes@, sel, axis);
}

impl<T> Session<T> {
    /// Mirrors every split along `axis` in the subtree below `id`.
    fn mirror_subtree(&mut self, id: NodeId, axis: Axis, Ghost(s): Ghost<Shape>) -> (r: Result<(), OpError>)
        requires
            old(self).tree.well_formed(),
            has_shape(old(self).tree.nodes@, id, s),
            s.distinct(),
        ensures
            r is Ok,
            final(self).tree.well_formed(),
            final(self).tree.nodes@ == mirrored_map(old(self).tree.nodes@, s.ids(), axis),
            final(self).tree.root == old(self).tree.root,
            final(self).tree.next_id == old(self).tree.next_id,
            final(self).focus == old(self).focus,
            final(self).selection == old(self).selection,
            final(self).revision == old(self).revision,
        decreases s,
    {
        let ghost m0 = self.tree.nodes@;
        let (a, b) = match self.tree.children_of(id) {
            Some(c) => c,
            None => {
                assert(mirrored_map(m0, s.ids(), axis) =~= m0);
                return Ok(());
            },
        };
        let ghost l = s.left();
        let ghost rr = s.right();
        let _ = self.mirror_subtree(a, axis, Ghost(l));
        let ghost m1 = self.tree.nodes@;
        proof {
            lemma_shape_frame(m0, m1, b, rr);
        }
        let _ = self.mirror_subtree(b, axis, Ghost(rr));
        let ghost m2 = self.tree.nodes@;
        assert(m2[id] == m0[id]);
        let sn = match self.tree.split(id) {
            Some(sn) => sn,
            None => return Err(OpError::NotSplit(id)),
        };
        if sn.axis == axis {
            let swapped = SplitNode {
                parent: sn.parent,
                axis: sn.axis,
                a: sn.b,
                b: sn.a,
                weights: WeightPair { a: sn.weights.b, b: sn.weights.a },
            };
            proof {
                assert(node_valid(m2[id]));
                lemma_swap_children_ok(m2, self.tree.root, id, swapped);
            }
            self.put_split(id, swapped);
        }
        proof {
            let fin = self.tree.nodes@;
            let want = mirrored_map(m0, s.ids(), axis);
            assert forall|k: NodeId| #[trigger] fin.contains_key(k) implies fin[k] == want[k] by {
                if k != id && rr.ids().contains(k) {
                    assert(!l.ids().contains(k));
                }
            }
            assert(fin =~= want);
        }
        Ok(())
    }

    /// Mirrors the selected subtree along `axis`: every split along `axis`
    /// exchanges its children and their weights.
    pub fn mirror_selection(&mut self, axis: Axis) -> (r: Result<(), OpError>)
        requires
            old(self).tree.well_formed(),
            old(self).revision < u64::MAX,
        ensures
            mirror_outcome(*old(self), *final(self), r, axis),
    {
        let selection = match self.selection {
            Some(s) => s,
            None => return Err(OpError::Empty),
        };
        let ghost old_s = *self;
        let ghost m = self.tree.nodes@;
        proof {
            lemma_tree_acyclic(&self.tree);
            assert(crate::tree::finite_below(m, selection));
            if m.contains_key(selection) {
                crate::tree::lemma_node_shape(&self.tree, selection);
            } else {
                assert(has_shape(m, selection, Shape::Tip(selection)));
                lemma_shape_of(m, selection, Shape::Tip(selection));
            }
        }
        match self.mirror_subtree(selection, axis, Ghost(shape_of(m, selection))) {
            Ok(()) => {},
            Err(e) => return Err(e),
        }
        self.bump_revision();
        proof {
            let m1 = self.tree.nodes@;
            if old_s.valid() {
                lemma_mirror_keeps_ids(m, selection, axis);
                assert(m1.dom() =~= m.dom());
                let f = self.focus.unwrap();
                assert(m1[f] is Leaf);
                assert(m1[selection] is Leaf <==> m[selection] is Leaf);
            }
        }
        match self.validate() {
            Ok(()) => Ok(()),
            Err(e) => Err(OpError::Validation(e)),
        }
    }
}

} // verus!
