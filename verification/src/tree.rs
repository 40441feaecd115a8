use vstd::prelude::*;

use std::collections::{HashMap, HashSet};

use crate::error::ValidationError;

use crate::geom::{Axis, Slot};
use crate::ids::NodeId;
use crate::limits::{LeafMeta, WeightPair};
use vstd::std_specs::iter::IteratorSpec;
use vstd::std_specs::hash::spec_keys_iter;

verus! {

broadcast use vstd::std_specs::hash::group_hash_axioms;

/// A leaf: carries the caller's payload and its size metadata.
#[derive(Debug, Clone, PartialEq, Eq)]
pub struct LeafNode<T> {
    pub parent: Option<NodeId>,
    pub payload: T,
    pub meta: LeafMeta,
}

/// An internal binary split of the space along an axis.
#[derive(Debug, Clone, PartialEq, Eq, Structural)]
pub struct SplitNode {
    pub parent: Option<NodeId>,
    pub axis: Axis,
    pub a: NodeId,
    pub b: NodeId,
    pub weights: WeightPair,
}

/// A node of the layout tree.
#[derive(Debug, Clone, PartialEq, Eq)]
pub enum Node<T> {
    Leaf(LeafNode<T>),
    Split(SplitNode),
}

/// Parent field of a node.
pub open spec fn node_parent<T>(n: Node<T>) -> Option<NodeId> {
    match n {
        Node::Leaf(l) => l.parent,
        Node::Split(s) => s.parent,
    }
}

/// The node with its parent field replaced.
pub open spec fn with_parent<T>(n: Node<T>, p: Option<NodeId>) -> Node<T> {
    match n {
        Node::Leaf(l) => Node::Leaf(LeafNode { parent: p, payload: l.payload, meta: l.meta }),
        Node::Split(s) => Node::Split(SplitNode { parent: p, ..s }),
    }
}

/// The split node stored in `n` (meaningful only for a split).
pub open spec fn split_of<T>(n: Node<T>) -> SplitNode {
    n->Split_0
}

/// A node is individually valid: a leaf has consistent limits and non-zero
/// priorities; a split has distinct children and weights that are not both zero.
pub open spec fn node_valid<T>(n: Node<T>) -> bool {
    match n {
        Node::Leaf(l) => l.meta.spec_valid(),
        Node::Split(s) => s.a != s.b && s.weights.spec_valid(),
    }
}

impl<T> Node<T> {
    #[must_use]
    pub fn parent(&self) -> (r: Option<NodeId>)
        ensures
            r == node_parent(*self),
    {
        match self {
            Self::Leaf(leaf) => leaf.parent,
            Self::Split(split) => split.parent,
        }
    }

    pub fn parent_mut(&mut self) -> (r: &mut Option<NodeId>)
        ensures
            *r == node_parent(*old(self)),
            *final(self) == with_parent(*old(self), *final(r)),
    {
        match self {
            Self::Leaf(leaf) => &mut leaf.parent,
            Self::Split(split) => &mut split.parent,
        }
    }

    #[must_use]
    pub fn as_split(&self) -> (r: Option<&SplitNode>)
        ensures
            r == (match *self {
                Node::Split(s) => Some(&s),
                Node::Leaf(_) => None::<&SplitNode>,
            }),
    {
        match self {
            Self::Split(split) => Some(split),
            Self::Leaf(_) => None,
        }
    }

    pub fn as_split_mut(&mut self) -> (r: Option<&mut SplitNode>)
        ensures
            *old(self) is Split <==> r is Some,
            r matches Some(rr) ==> {
                &&& *rr == split_of(*old(self))
                &&& *final(self) == Node::<T>::Split(*final(rr))
            },
            r is None ==> *final(self) == *old(self),
    {
        match self {
            Self::Split(split) => Some(split),
            Self::Leaf(_) => None,
        }
    }

    #[must_use]
    pub fn as_leaf(&self) -> (r: Option<&LeafNode<T>>)
        ensures
            r == (match *self {
                Node::Leaf(l) => Some(&l),
                Node::Split(_) => None::<&LeafNode<T>>,
            }),
    {
        match self {
            Self::Leaf(leaf) => Some(leaf),
            Self::Split(_) => None,
        }
    }
}

/// The recursive structure hanging below a node, as the child links describe
/// it: a `Fork` for a split node, a `Tip` for anything else (a leaf, or an
/// identifier the map does not hold).
pub enum Shape {
    Tip(NodeId),
    Fork(NodeId, Box<Shape>, Box<Shape>),
}

impl Shape {
    pub open spec fn id(self) -> NodeId {
        match self {
            Shape::Tip(i) => i,
            Shape::Fork(i, _, _) => i,
        }
    }

    /// The first child shape of a fork.
    pub open spec fn left(self) -> Shape {
        match self {
            Shape::Tip(_) => self,
            Shape::Fork(_, l, _) => *l,
        }
    }

    /// The second child shape of a fork.
    pub open spec fn right(self) -> Shape {
        match self {
            Shape::Tip(_) => self,
            Shape::Fork(_, _, r) => *r,
        }
    }

    /// Number of entries in the shape.
    pub open spec fn size(self) -> nat
        decreases self,
    {
        match self {
            Shape::Tip(_) => 1,
            Shape::Fork(_, l, r) => l.size() + r.size() + 1,
        }
    }

    /// Every identifier in the shape.
    pub open spec fn ids(self) -> Set<NodeId>
        decreases self,
    {
        match self {
            Shape::Tip(i) => set![i],
            Shape::Fork(i, l, r) => l.ids().union(r.ids()).insert(i),
        }
    }

    /// No identifier occurs twice.
    pub open spec fn distinct(self) -> bool
        decreases self,
    {
        match self {
            Shape::Tip(_) => true,
            Shape::Fork(i, l, r) => {
                &&& l.distinct()
                &&& r.distinct()
                &&& l.ids().disjoint(r.ids())
                &&& !l.ids().contains(i)
                &&& !r.ids().contains(i)
            },
        }
    }

    /// Tip identifiers, left to right.
    pub open spec fn leaves(self) -> Seq<NodeId>
        decreases self,
    {
        match self {
            Shape::Tip(i) => seq![i],
            Shape::Fork(_, l, r) => l.leaves() + r.leaves(),
        }
    }

    /// Fork identifiers in post-order (children before their parent).
    pub open spec fn forks(self) -> Seq<NodeId>
        decreases self,
    {
        match self {
            Shape::Tip(_) => Seq::empty(),
            Shape::Fork(i, l, r) => (l.forks() + r.forks()).push(i),
        }
    }

    /// Every identifier in post-order (children before their parent).
    pub open spec fn post_order(self) -> Seq<NodeId>
        decreases self,
    {
        match self {
            Shape::Tip(i) => seq![i],
            Shape::Fork(i, l, r) => (l.post_order() + r.post_order()).push(i),
        }
    }

    /// Identifiers from the top of the shape down to `x` (empty when absent).
    pub open spec fn path_to(self, x: NodeId) -> Seq<NodeId>
        decreases self,
    {
        match self {
            Shape::Tip(i) => if i == x {
                seq![i]
            } else {
                Seq::empty()
            },
            Shape::Fork(i, l, r) => if i == x {
                seq![i]
            } else if l.ids().contains(x) {
                seq![i] + l.path_to(x)
            } else if r.ids().contains(x) {
                seq![i] + r.path_to(x)
            } else {
                Seq::empty()
            },
        }
    }

    /// The sub-shape rooted at `x` (meaningful when `x` occurs).
    pub open spec fn sub(self, x: NodeId) -> Shape
        decreases self,
    {
        match self {
            Shape::Tip(i) => self,
            Shape::Fork(i, l, r) => if i == x {
                self
            } else if l.ids().contains(x) {
                l.sub(x)
            } else {
                r.sub(x)
            },
        }
    }
}

/// `m` is split at `id`.
pub open spec fn is_split_at<T>(m: Map<NodeId, Node<T>>, id: NodeId) -> bool {
    m.contains_key(id) && m[id] is Split
}

/// `s` is the structure that the child links of `m` describe below `id`.
pub open spec fn has_shape<T>(m: Map<NodeId, Node<T>>, id: NodeId, s: Shape) -> bool
    decreases s,
{
    match s {
        Shape::Tip(i) => i == id && !is_split_at(m, id),
        Shape::Fork(i, l, r) => {
            &&& i == id
            &&& is_split_at(m, id)
            &&& has_shape(m, split_of(m[id]).a, *l)
            &&& has_shape(m, split_of(m[id]).b, *r)
        },
    }
}

/// Following child links from `id` stops (there is no cycle below `id`).
pub open spec fn finite_below<T>(m: Map<NodeId, Node<T>>, id: NodeId) -> bool {
    exists|s: Shape| has_shape(m, id, s)
}

/// The structure below `id` (meaningful when `finite_below(m, id)`).
pub open spec fn shape_of<T>(m: Map<NodeId, Node<T>>, id: NodeId) -> Shape {
    choose|s: Shape| has_shape(m, id, s)
}

/// Every node of `s` records the node above it as its parent, the top one `p`.
pub open spec fn parents_ok<T>(m: Map<NodeId, Node<T>>, s: Shape, p: Option<NodeId>) -> bool
    decreases s,
{
    &&& m.contains_key(s.id())
    &&& node_parent(m[s.id()]) == p
    &&& match s {
        Shape::Tip(_) => true,
        Shape::Fork(i, l, r) => parents_ok(m, *l, Some(i)) && parents_ok(m, *r, Some(i)),
    }
}

/// The subtree below `id` is a proper tree hanging from `p`: no identifier
/// repeats, every node is present and valid, and parent links match.
pub open spec fn subtree_ok<T>(m: Map<NodeId, Node<T>>, id: NodeId, p: Option<NodeId>, s: Shape) -> bool {
    &&& has_shape(m, id, s)
    &&& s.distinct()
    &&& s.ids().subset_of(m.dom())
    &&& parents_ok(m, s, p)
    &&& forall|x: NodeId| #[trigger] s.ids().contains(x) ==> node_valid(m[x])
}

/// A rooted binary tree that covers exactly the nodes of the map.
pub open spec fn tree_ok<T>(m: Map<NodeId, Node<T>>, root: Option<NodeId>) -> bool {
    match root {
        None => m.dom() =~= Set::<NodeId>::empty(),
        Some(r) => subtree_ok(m, r, None, shape_of(m, r)) && shape_of(m, r).ids() =~= m.dom(),
    }
}

/// The shape of a node has the node's identifier at its top.
pub proof fn lemma_shape_id<T>(m: Map<NodeId, Node<T>>, id: NodeId, s: Shape)
    requires
        has_shape(m, id, s),
    ensures
        s.id() == id,
        s.ids().contains(id),
{
}

/// The child links determine the shape.
pub proof fn lemma_shape_unique<T>(m: Map<NodeId, Node<T>>, id: NodeId, s1: Shape, s2: Shape)
    requires
        has_shape(m, id, s1),
        has_shape(m, id, s2),
    ensures
        s1 == s2,
    decreases s1,
{
    match s1 {
        Shape::Tip(_) => {},
        Shape::Fork(i, l1, r1) => {
            match s2 {
                Shape::Tip(_) => {},
                Shape::Fork(_, l2, r2) => {
                    lemma_shape_unique(m, split_of(m[id]).a, *l1, *l2);
                    lemma_shape_unique(m, split_of(m[id]).b, *r1, *r2);
                },
            }
        },
    }
}

/// A shape is `shape_of` its top node.
pub proof fn lemma_shape_of<T>(m: Map<NodeId, Node<T>>, id: NodeId, s: Shape)
    requires
        has_shape(m, id, s),
    ensures
        finite_below(m, id),
        shape_of(m, id) == s,
{
    lemma_shape_unique(m, id, s, shape_of(m, id));
}

/// A binary layout tree stored as a map from identifiers to nodes.
#[derive(Debug, Clone, PartialEq, Eq)]
pub struct Tree<T> {
    pub root: Option<NodeId>,
    pub nodes: HashMap<NodeId, Node<T>>,
    pub next_id: NodeId,
}

impl<T> Default for Tree<T> {
    fn default() -> (r: Self)
        ensures
            r.root.is_none(),
            r.nodes@ == Map::<NodeId, Node<T>>::empty(),
            r.next_id == 1,
    {
        Self { root: None, nodes: HashMap::new(), next_id: 1 }
    }
}

impl<T> Tree<T> {
    /// The tree is well formed: what `validate` accepts.
    pub open spec fn well_formed(&self) -> bool {
        tree_ok(self.nodes@, self.root)
    }

    /// The shape of the whole tree (meaningful when it has a root).
    pub open spec fn shape(&self) -> Shape {
        shape_of(self.nodes@, self.root.unwrap())
    }

    #[must_use]
    pub fn new() -> (r: Self)
        ensures
            r.root.is_none(),
            r.nodes@ == Map::<NodeId, Node<T>>::empty(),
            r.next_id == 1,
            r.well_formed(),
    {
        Self { root: None, nodes: HashMap::new(), next_id: 1 }
    }

    #[must_use]
    pub fn root_id(&self) -> (r: Option<NodeId>)
        ensures
            r == self.root,
    {
        self.root
    }

    #[must_use]
    pub fn contains(&self, id: NodeId) -> (r: bool)
        ensures
            r == self.nodes@.contains_key(id),
    {
        self.nodes.contains_key(&id)
    }

    #[must_use]
    pub fn is_leaf(&self, id: NodeId) -> (r: bool)
        ensures
            r == (self.nodes@.contains_key(id) && self.nodes@[id] is Leaf),
    {
        match self.nodes.get(&id) {
            Some(Node::Leaf(_)) => true,
            _ => false,
        }
    }

    #[must_use]
    pub fn is_split(&self, id: NodeId) -> (r: bool)
        ensures
            r == is_split_at(self.nodes@, id),
    {
        match self.nodes.get(&id) {
            Some(Node::Split(_)) => true,
            _ => false,
        }
    }

    #[must_use]
    pub fn parent_of(&self, id: NodeId) -> (r: Option<NodeId>)
        ensures
            r == (if self.nodes@.contains_key(id) {
                node_parent(self.nodes@[id])
            } else {
                None
            }),
    {
        match self.nodes.get(&id) {
            Some(node) => node.parent(),
            None => None,
        }
    }

    /// The split stored at `id`, if `id` is a split.
    #[must_use]
    pub fn split(&self, id: NodeId) -> (r: Option<&SplitNode>)
        ensures
            r == (if is_split_at(self.nodes@, id) {
                Some(&split_of(self.nodes@[id]))
            } else {
                None::<&SplitNode>
            }),
    {
        match self.nodes.get(&id) {
            Some(Node::Split(split)) => Some(split),
            _ => None,
        }
    }

    pub fn children_of(&self, id: NodeId) -> (r: Option<(NodeId, NodeId)>)
        ensures
            r == (if is_split_at(self.nodes@, id) {
                Some((split_of(self.nodes@[id]).a, split_of(self.nodes@[id]).b))
            } else {
                None::<(NodeId, NodeId)>
            }),
    {
        match self.nodes.get(&id) {
            Some(Node::Split(split)) => Some((split.a, split.b)),
            _ => None,
        }
    }

    #[must_use]
    pub fn sibling_of(&self, id: NodeId) -> (r: Option<NodeId>)
        ensures
            r == spec_sibling(self.nodes@, id),
    {
        let parent = match self.parent_of(id) {
            Some(p) => p,
            None => return None,
        };
        match self.nodes.get(&parent) {
            Some(Node::Split(split)) => {
                if split.a == id {
                    Some(split.b)
                } else if split.b == id {
                    Some(split.a)
                } else {
                    None
                }
            },
            _ => None,
        }
    }
}

/// The other child of the split that `id` names as its parent, if that split
/// lists `id` as a child.
pub open spec fn spec_sibling<T>(m: Map<NodeId, Node<T>>, id: NodeId) -> Option<NodeId> {
    if m.contains_key(id) && node_parent(m[id]) is Some && is_split_at(m, node_parent(m[id])->0) {
        let s = split_of(m[node_parent(m[id])->0]);
        if s.a == id {
            Some(s.b)
        } else if s.b == id {
            Some(s.a)
        } else {
            None
        }
    } else {
        None
    }
}

} // verus!

verus! {

impl<T> Tree<T> {
    /// Smallest identifier stored in the map, if any.
    fn min_key(&self) -> (r: Option<NodeId>)
        ensures
            r is None <==> self.nodes@.dom().len() == 0,
            r matches Some(k) ==> self.nodes@.contains_key(k) && forall|j: NodeId|
                #[trigger] self.nodes@.contains_key(j) ==> k <= j,
    {
        let ghost keys = self.nodes.keys().remaining().unref();
        let mut best: Option<NodeId> = None;
        for k in it: self.nodes.keys()
            invariant
                it.seq().unref() == keys,
                it.seq().unref().to_set() == self.nodes@.dom(),
                it.seq().len() == self.nodes@.dom().len(),
                best is None <==> it.index() == 0,
                best matches Some(b) ==> keys.take(it.index()).contains(b) && forall|j: int|
                    0 <= j < it.index() ==> b <= #[trigger] keys[j],
        {
            assert(*k == keys[it.index()]);
            let ghost idx = it.index();
            assert(keys.take(idx + 1) =~= keys.take(idx).push(*k));
            best = match best {
                None => Some(*k),
                Some(b) => if *k < b {
                    Some(*k)
                } else {
                    Some(b)
                },
            };
            proof {
                let t1 = keys.take(idx + 1);
                assert(t1[idx] == *k);
                assert(forall|j: int| 0 <= j < idx ==> t1[j] == keys.take(idx)[j]);
            }
        }
        proof {
            if let Some(b) = best {
                assert(keys.take(keys.len() as int) =~= keys);
                assert forall|j: NodeId| #[trigger] self.nodes@.contains_key(j) implies b <= j by {
                    assert(keys.to_set().contains(j));
                    let idx = keys.index_of(j);
                }
            } else {
                assert(keys.len() == 0);
            }
        }
        best
    }
}


/// The first identifier of `keys`, from position `i` on, that `seen` lacks.
pub open spec fn first_unseen(keys: Seq<NodeId>, seen: Set<NodeId>, i: int) -> Option<NodeId>
    decreases keys.len() - i,
{
    if i < 0 || i >= keys.len() {
        None
    } else if !seen.contains(keys[i]) {
        Some(keys[i])
    } else {
        first_unseen(keys, seen, i + 1)
    }
}

impl<T> Tree<T> {
    /// The first identifier of the map's key walk that `visited` lacks, if
    /// there is one.
    fn find_unvisited(&self, visited: &HashSet<NodeId>) -> (r: Option<NodeId>)
        ensures
            r == first_unseen(spec_keys_iter(&self.nodes).remaining().unref(), visited@, 0),
            r matches Some(u) ==> self.nodes@.contains_key(u) && !visited@.contains(u),
            r is None ==> self.nodes@.dom().subset_of(visited@),
    {
        let ghost keys = self.nodes.keys().remaining().unref();
        for k in it: self.nodes.keys()
            invariant
                it.seq().unref() == keys,
                it.seq().unref().to_set() == self.nodes@.dom(),
                forall|j: int| 0 <= j < it.index() ==> visited@.contains(#[trigger] keys[j]),
                first_unseen(keys, visited@, 0) == first_unseen(keys, visited@, it.index() as int),
        {
            assert(*k == keys[it.index()]);
            if !visited.contains(k) {
                assert(keys.to_set().contains(*k));
                return Some(*k);
            }
            assert(first_unseen(keys, visited@, it.index() as int) == first_unseen(
                keys,
                visited@,
                it.index() + 1,
            ));
        }
        proof {
            assert forall|j: NodeId| #[trigger] self.nodes@.dom().contains(j) implies visited@.contains(j) by {
                assert(keys.to_set().contains(j));
                let i = keys.index_of(j);
            }
        }
        None
    }

    fn validate_node(
        &self,
        id: NodeId,
        expected_parent: Option<NodeId>,
        visited: &mut HashSet<NodeId>,
        Ghost(fuel): Ghost<nat>,
    ) -> (r: (Result<(), ValidationError>, Ghost<Shape>))
        requires
            old(visited)@.subset_of(self.nodes@.dom()),
            self.nodes@.contains_key(id),
            expected_parent is None ==> node_parent(self.nodes@[id]) is None,
            fuel + old(visited)@.len() > self.nodes@.dom().len(),
        ensures
            r.0 == check_unit(check_node(self.nodes@, id, expected_parent, old(visited)@, fuel)),
            r.0 is Ok ==> final(visited)@ == check_node(self.nodes@, id, expected_parent, old(visited)@, fuel)->Ok_0,
            final(visited)@.subset_of(self.nodes@.dom()),
            old(visited)@.subset_of(final(visited)@),
            r.0 matches Err(e) ==> node_defect(self.nodes@, e),
            r.0 is Ok ==> {
                &&& subtree_ok(self.nodes@, id, expected_parent, r.1@)
                &&& r.1@.ids().disjoint(old(visited)@)
                &&& final(visited)@ == old(visited)@.union(r.1@.ids())
            },
            (exists|s: Shape|
                subtree_ok(self.nodes@, id, expected_parent, s) && s.ids().disjoint(old(visited)@))
                ==> r.0 is Ok,
        decreases self.nodes@.dom().len() - old(visited)@.len(), 0int,
    {
        proof {
            vstd::set_lib::lemma_len_subset(visited@, self.nodes@.dom());
        }
        let ghost v0 = visited@;
        proof {
            if !v0.contains(id) {
                vstd::set_lib::lemma_len_subset(v0, self.nodes@.dom().remove(id));
            }
        }
        if !visited.insert(id) {
            proof {
                assert forall|s: Shape|
                    subtree_ok(self.nodes@, id, expected_parent, s) implies !s.ids().disjoint(v0) by {
                    lemma_shape_id(self.nodes@, id, s);
                }
            }
            return (Err(ValidationError::Cycle(id)), Ghost(Shape::Tip(id)));
        }
        let ghost v1 = visited@;
        proof {
            vstd::set_lib::lemma_len_subset(v1, self.nodes@.dom());
            assert(v1.len() == v0.len() + 1);
        }
        let node = self.nodes.get(&id).unwrap();
        if node.parent() != expected_parent {
            proof {
                assert forall|s: Shape| subtree_ok(self.nodes@, id, expected_parent, s) implies false by {
                    lemma_shape_id(self.nodes@, id, s);
                }
            }
            return (
                Err(
                    ValidationError::ParentMismatch {
                        node: id,
                        expected: match expected_parent {
                            Some(p) => p,
                            None => 0,
                        },
                        actual: node.parent(),
                    },
                ),
                Ghost(Shape::Tip(id)),
            );
        }
        match node {
            Node::Leaf(leaf) => {
                let limits = leaf.meta.limits;
                let bad_w = match limits.max_w {
                    Some(max_w) => limits.min_w > max_w,
                    None => false,
                };
                let bad_h = match limits.max_h {
                    Some(max_h) => limits.min_h > max_h,
                    None => false,
                };
                if bad_w || bad_h || leaf.meta.priority.shrink == 0 || leaf.meta.priority.grow == 0 {
                    proof {
                        assert forall|s: Shape|
                            subtree_ok(self.nodes@, id, expected_parent, s) implies false by {
                            lemma_shape_id(self.nodes@, id, s);
                        }
                    }
                    return (Err(ValidationError::InvalidLeafLimits(id)), Ghost(Shape::Tip(id)));
                }
                let ghost s = Shape::Tip(id);
                assert(s.ids() =~= set![id]);
                assert(visited@ =~= v0.union(s.ids()));
                proof {
                    assert forall|x: NodeId| #[trigger] s.ids().contains(x) implies node_valid(
                        self.nodes@[x],
                    ) by {}
                }
                (Ok(()), Ghost(s))
            },
            Node::Split(split) => {
                let a = split.a;
                let b = split.b;
                if a == b {
                    proof {
                        assert forall|s: Shape|
                            subtree_ok(self.nodes@, id, expected_parent, s) implies false by {
                            match s {
                                Shape::Fork(_, l, r) => {
                                    lemma_shape_id(self.nodes@, a, *l);
                                    lemma_shape_id(self.nodes@, b, *r);
                                },
                                Shape::Tip(_) => {},
                            }
                        }
                    }
                    return (
                        Err(ValidationError::DuplicateChild { split: id, child: a }),
                        Ghost(Shape::Tip(id)),
                    );
                }
                if split.weights.a == 0 && split.weights.b == 0 {
                    proof {
                        assert forall|s: Shape|
                            subtree_ok(self.nodes@, id, expected_parent, s) implies false by {
                            lemma_shape_id(self.nodes@, id, s);
                        }
                    }
                    return (Err(ValidationError::InvalidWeights(id)), Ghost(Shape::Tip(id)));
                }
                let (ra, sa) = self.validate_child(id, a, visited, Ghost((fuel - 1) as nat));
                if ra.is_err() {
                    proof {
                        assert forall|s: Shape|
                            subtree_ok(self.nodes@, id, expected_parent, s) && s.ids().disjoint(
                                v0,
                            ) implies false by {
                            self.lemma_child_ok(id, expected_parent, s, v0);
                        }
                    }
                    return (ra, Ghost(Shape::Tip(id)));
                }
                let ghost v2 = visited@;
                proof {
                    vstd::set_lib::lemma_len_subset(v2, self.nodes@.dom());
                    vstd::set_lib::lemma_len_subset(v1, v2);
                }
                let (rb, sb) = self.validate_child(id, b, visited, Ghost((fuel - 1) as nat));
                if rb.is_err() {
                    proof {
                        assert forall|s: Shape|
                            subtree_ok(self.nodes@, id, expected_parent, s) && s.ids().disjoint(
                                v0,
                            ) implies false by {
                            self.lemma_child_ok(id, expected_parent, s, v0);
                            match s {
                                Shape::Fork(_, l, r) => {
                                    lemma_shape_unique(self.nodes@, a, *l, sa@);
                                },
                                Shape::Tip(_) => {},
                            }
                        }
                    }
                    return (rb, Ghost(Shape::Tip(id)));
                }
                let ghost s = Shape::Fork(id, Box::new(sa@), Box::new(sb@));
                proof {
                    lemma_shape_id(self.nodes@, a, sa@);
                    lemma_shape_id(self.nodes@, b, sb@);
                    assert(s.ids() =~= sa@.ids().union(sb@.ids()).insert(id));
                    assert(visited@ =~= v0.union(s.ids()));
                    assert forall|x: NodeId| #[trigger] s.ids().contains(x) implies node_valid(
                        self.nodes@[x],
                    ) by {
                        if x != id {
                            if sa@.ids().contains(x) {
                            } else {
                                assert(sb@.ids().contains(x));
                            }
                        }
                    }
                }
                (Ok(()), Ghost(s))
            },
        }
    }

    proof fn lemma_child_ok(&self, id: NodeId, p: Option<NodeId>, s: Shape, v0: Set<NodeId>)
        requires
            subtree_ok(self.nodes@, id, p, s),
            s.ids().disjoint(v0),
            is_split_at(self.nodes@, id),
        ensures
            match s {
                Shape::Fork(_, l, r) => {
                    &&& subtree_ok(self.nodes@, split_of(self.nodes@[id]).a, Some(id), *l)
                    &&& subtree_ok(self.nodes@, split_of(self.nodes@[id]).b, Some(id), *r)
                    &&& l.ids().disjoint(v0.insert(id))
                    &&& r.ids().disjoint(v0.insert(id).union(l.ids()))
                },
                Shape::Tip(_) => false,
            },
    {
        match s {
            Shape::Fork(_, l, r) => {
                assert forall|x: NodeId| #[trigger] l.ids().contains(x) implies node_valid(
                    self.nodes@[x],
                ) by {
                    assert(s.ids().contains(x));
                }
                assert forall|x: NodeId| #[trigger] r.ids().contains(x) implies node_valid(
                    self.nodes@[x],
                ) by {
                    assert(s.ids().contains(x));
                }
            },
            Shape::Tip(_) => {},
        }
    }

    fn validate_child(
        &self,
        parent: NodeId,
        child: NodeId,
        visited: &mut HashSet<NodeId>,
        Ghost(fuel): Ghost<nat>,
    ) -> (r: (Result<(), ValidationError>, Ghost<Shape>))
        requires
            old(visited)@.subset_of(self.nodes@.dom()),
            fuel + old(visited)@.len() > self.nodes@.dom().len(),
        ensures
            r.0 == check_unit(check_child(self.nodes@, parent, child, old(visited)@, fuel)),
            r.0 is Ok ==> final(visited)@ == check_child(self.nodes@, parent, child, old(visited)@, fuel)->Ok_0,
            final(visited)@.subset_of(self.nodes@.dom()),
            old(visited)@.subset_of(final(visited)@),
            r.0 matches Err(e) ==> node_defect(self.nodes@, e),
            r.0 is Ok ==> {
                &&& subtree_ok(self.nodes@, child, Some(parent), r.1@)
                &&& r.1@.ids().disjoint(old(visited)@)
                &&& final(visited)@ == old(visited)@.union(r.1@.ids())
            },
            (exists|s: Shape|
                subtree_ok(self.nodes@, child, Some(parent), s) && s.ids().disjoint(old(visited)@))
                ==> r.0 is Ok,
        decreases self.nodes@.dom().len() - old(visited)@.len(), 1int,
    {
        if !self.nodes.contains_key(&child) {
            proof {
                assert forall|s: Shape| subtree_ok(self.nodes@, child, Some(parent), s) implies false by {
                    lemma_shape_id(self.nodes@, child, s);
                }
            }
            return (Err(ValidationError::MissingNode(child)), Ghost(Shape::Tip(child)));
        }
        self.validate_node(child, Some(parent), visited, Ghost(fuel))
    }
}

/// The depth-first check `validate` makes of the stored node `id`, expecting
/// parent `p`, with `seen` already visited: the first defect met (a repeated
/// visit, a wrong parent, a leaf with inconsistent limits or a zero priority, a
/// split with twice the same child or zero weights, then the first child's
/// subtree, then the second's), or the visited set once the subtree checks
/// out. `fuel` bounds the depth; `validate` gives it more than the map's size.
pub open spec fn check_node<T>(m: Map<NodeId, Node<T>>, id: NodeId, p: Option<NodeId>, seen: Set<NodeId>, fuel: nat) -> Result<
    Set<NodeId>,
    ValidationError,
>
    decreases fuel, 0nat,
{
    if seen.contains(id) || fuel == 0 {
        Err(ValidationError::Cycle(id))
    } else {
        let seen1 = seen.insert(id);
        if node_parent(m[id]) != p {
            Err(
                ValidationError::ParentMismatch {
                    node: id,
                    expected: match p {
                        Some(q) => q,
                        None => 0,
                    },
                    actual: node_parent(m[id]),
                },
            )
        } else {
            match m[id] {
                Node::Leaf(l) => if !l.meta.spec_valid() {
                    Err(ValidationError::InvalidLeafLimits(id))
                } else {
                    Ok(seen1)
                },
                Node::Split(sn) => if sn.a == sn.b {
                    Err(ValidationError::DuplicateChild { split: id, child: sn.a })
                } else if !sn.weights.spec_valid() {
                    Err(ValidationError::InvalidWeights(id))
                } else {
                    match check_child(m, id, sn.a, seen1, (fuel - 1) as nat) {
                        Err(e) => Err(e),
                        Ok(seen2) => check_child(m, id, sn.b, seen2, (fuel - 1) as nat),
                    }
                },
            }
        }
    }
}

/// The check of the child `child` of `parent`: missing, or checked as a node.
pub open spec fn check_child<T>(m: Map<NodeId, Node<T>>, parent: NodeId, child: NodeId, seen: Set<NodeId>, fuel: nat) -> Result<
    Set<NodeId>,
    ValidationError,
>
    decreases fuel, 1nat,
{
    if !m.contains_key(child) {
        Err(ValidationError::MissingNode(child))
    } else {
        check_node(m, child, Some(parent), seen, fuel)
    }
}

/// A check's outcome without the visited set.
pub open spec fn check_unit(r: Result<Set<NodeId>, ValidationError>) -> Result<(), ValidationError> {
    match r {
        Ok(_) => Ok(()),
        Err(e) => Err(e),
    }
}

/// What an error of `validate` met below the root says of the node map: a
/// named node is missing, has the wrong parent, is a split with twice the same
/// child or with zero weights, is a leaf with inconsistent limits or a zero
/// priority, or (a repeated visit) is stored.
pub open spec fn node_defect<T>(m: Map<NodeId, Node<T>>, e: ValidationError) -> bool {
    match e {
        ValidationError::MissingNode(k) => !m.contains_key(k),
        ValidationError::ParentMismatch { node, expected, actual } => {
            &&& m.contains_key(node)
            &&& node_parent(m[node]) == actual
            &&& actual != Some(expected)
        },
        ValidationError::DuplicateChild { split, child } => {
            &&& is_split_at(m, split)
            &&& split_of(m[split]).a == child
            &&& split_of(m[split]).b == child
        },
        ValidationError::InvalidWeights(k) => is_split_at(m, k) && !split_of(m[k]).weights.spec_valid(),
        ValidationError::InvalidLeafLimits(k) => m.contains_key(k) && m[k] is Leaf && !m[k]->Leaf_0.meta.spec_valid(),
        ValidationError::Cycle(k) => m.contains_key(k),
        _ => false,
    }
}

/// Smallest element of a finite set of identifiers.
pub open spec fn is_min_id(d: Set<NodeId>, k: NodeId) -> bool {
    d.contains(k) && forall|j: NodeId| #[trigger] d.contains(j) ==> k <= j
}

/// What `Tree::validate` answers: `Ok` exactly for a well-formed tree; for a
/// tree without a root but with nodes, the smallest stored identifier as
/// unreachable; a missing root or a root with a parent as such; otherwise the
/// first defect the depth-first check from the root meets (`check_node`), or,
/// when that check passes but leaves stored nodes unvisited, the first of them
/// in the map's key walk as unreachable.
pub open spec fn validate_outcome<T>(tree: Tree<T>, keys: Seq<NodeId>, r: Result<(), ValidationError>) -> bool {
    let m = tree.nodes@;
    &&& (r is Ok <==> tree.well_formed())
    &&& (tree.root is None && m.dom().len() > 0 ==> (r matches Err(ValidationError::Unreachable(k))
        && is_min_id(m.dom(), k)))
    &&& (tree.root matches Some(rt) ==> (!m.contains_key(rt) ==> r == Err::<(), ValidationError>(
        ValidationError::MissingRoot(rt),
    )))
    &&& (tree.root matches Some(rt) ==> (m.contains_key(rt) && node_parent(m[rt]) is Some ==> r == Err::<
        (),
        ValidationError,
    >(ValidationError::RootHasParent(rt))))
    &&& (r matches Err(ValidationError::Unreachable(k)) ==> m.contains_key(k) && (tree.root matches Some(
        rt,
    ) ==> finite_below(m, rt) && !shape_of(m, rt).ids().contains(k)))
    &&& (r matches Err(e) ==> (e is Unreachable || e is MissingRoot || e is RootHasParent || node_defect(
        m,
        e,
    )))
    &&& (tree.root matches Some(rt) ==> (m.contains_key(rt) && node_parent(m[rt]) is None ==> match check_node(
        m,
        rt,
        None,
        Set::<NodeId>::empty(),
        (m.dom().len() + 1) as nat,
    ) {
        Err(e) => r == Err::<(), ValidationError>(e),
        Ok(seen) => {
            &&& (seen == m.dom() ==> r is Ok)
            &&& (seen != m.dom() ==> (r matches Err(ValidationError::Unreachable(k)) && m.contains_key(k)
                && !seen.contains(k) && first_unseen(keys, seen, 0) == Some(k)))
        },
    }))
}

impl<T> Tree<T> {
    /// Checks that the tree is well formed. An empty tree must hold no nodes
    /// (else the smallest stored identifier is reported unreachable); otherwise
    /// the root must exist and have no parent, every split must have two distinct
    /// present children that name it as parent and weights that are not both
    /// zero, every leaf must have consistent limits and non-zero priorities, no
    /// node may be reached twice, and every stored node must be reachable.
    pub fn validate(&self) -> (r: Result<(), ValidationError>)
        ensures
            validate_outcome(*self, spec_keys_iter(&self.nodes).remaining().unref(), r),
    {
        match self.root {
            None => {
                if self.nodes.is_empty() {
                    assert(self.nodes@.dom() =~= Set::<NodeId>::empty());
                    Ok(())
                } else {
                    let extra = match self.min_key() {
                        Some(k) => k,
                        None => 0,
                    };
                    Err(ValidationError::Unreachable(extra))
                }
            },
            Some(root) => {
                let root_node = match self.nodes.get(&root) {
                    Some(n) => n,
                    None => {
                        proof {
                            if self.well_formed() {
                                lemma_shape_id(self.nodes@, root, self.shape());
                            }
                        }
                        return Err(ValidationError::MissingRoot(root));
                    },
                };
                if root_node.parent().is_some() {
                    proof {
                        if self.well_formed() {
                            lemma_shape_id(self.nodes@, root, self.shape());
                        }
                    }
                    return Err(ValidationError::RootHasParent(root));
                }
                let mut visited: HashSet<NodeId> = HashSet::new();
                assert(visited@ =~= Set::<NodeId>::empty());
                let (res, s) = self.validate_node(root, None, &mut visited, Ghost((self.nodes@.dom().len() + 1) as nat));
                if res.is_err() {
                    proof {
                        if self.well_formed() {
                            assert(self.shape().ids().disjoint(Set::<NodeId>::empty()));
                        }
                    }
                    return res;
                }
                proof {
                    lemma_shape_of(self.nodes@, root, s@);
                    assert(visited@ =~= s@.ids());
                }
                if let Some(unreachable) = self.find_unvisited(&visited) {
                    return Err(ValidationError::Unreachable(unreachable));
                }
                assert(s@.ids() =~= self.nodes@.dom());
                Ok(())
            },
        }
    }
}

/// The first tip of `s` (left to right) that the map holds.
pub open spec fn spec_first_leaf<T>(m: Map<NodeId, Node<T>>, s: Shape) -> Option<NodeId>
    decreases s,
{
    match s {
        Shape::Tip(i) => if m.contains_key(i) {
            Some(i)
        } else {
            None
        },
        Shape::Fork(_, l, r) => match spec_first_leaf(m, *l) {
            Some(x) => Some(x),
            None => spec_first_leaf(m, *r),
        },
    }
}

/// Every tip of `s` is stored in the map.
pub open spec fn tips_present<T>(m: Map<NodeId, Node<T>>, s: Shape) -> bool
    decreases s,
{
    match s {
        Shape::Tip(i) => m.contains_key(i),
        Shape::Fork(_, l, r) => tips_present(m, *l) && tips_present(m, *r),
    }
}

/// In a shape with consistent parent links, every node but the top names a
/// node of the shape as its parent, and its path extends its parent's path.
pub proof fn lemma_parent_path<T>(m: Map<NodeId, Node<T>>, s: Shape, p: Option<NodeId>, x: NodeId)
    requires
        s.distinct(),
        parents_ok(m, s, p),
        s.ids().contains(x),
    ensures
        x == s.id() ==> node_parent(m[x]) == p && s.path_to(x) == seq![x],
        x != s.id() ==> {
            &&& node_parent(m[x]) is Some
            &&& s.ids().contains(node_parent(m[x])->0)
            &&& s.path_to(x) == s.path_to(node_parent(m[x])->0).push(x)
        },
    decreases s,
{
    match s {
        Shape::Tip(i) => {},
        Shape::Fork(i, l, r) => {
            if x != i {
                if l.ids().contains(x) {
                    lemma_parent_path(m, *l, Some(i), x);
                    if x != l.id() {
                        let q = node_parent(m[x])->0;
                        assert(q != i);
                        assert(s.path_to(x) =~= s.path_to(q).push(x));
                    } else {
                        assert(s.path_to(x) =~= s.path_to(i).push(x));
                    }
                } else {
                    assert(r.ids().contains(x));
                    lemma_parent_path(m, *r, Some(i), x);
                    if x != r.id() {
                        let q = node_parent(m[x])->0;
                        assert(q != i);
                        assert(!l.ids().contains(q));
                        assert(s.path_to(x) =~= s.path_to(q).push(x));
                    } else {
                        assert(s.path_to(x) =~= s.path_to(i).push(x));
                    }
                }
            }
        },
    }
}

/// The path to a node of a shape is non-empty and ends at the node.
pub proof fn lemma_path_ends(s: Shape, x: NodeId)
    requires
        s.ids().contains(x),
    ensures
        s.path_to(x).len() > 0,
        s.path_to(x).last() == x,
        s.path_to(x)[0] == s.id(),
    decreases s,
{
    match s {
        Shape::Tip(_) => {},
        Shape::Fork(i, l, r) => {
            if x != i {
                if l.ids().contains(x) {
                    lemma_path_ends(*l, x);
                } else {
                    lemma_path_ends(*r, x);
                }
            }
        },
    }
}

impl<T> Tree<T> {
    /// `needle` lies in the subtree below `root` (or is `root`).
    #[must_use]
    pub fn contains_in_subtree(&self, root: NodeId, needle: NodeId) -> (r: bool)
        requires
            finite_below(self.nodes@, root),
        ensures
            r == shape_of(self.nodes@, root).ids().contains(needle),
    {
        let ghost s = shape_of(self.nodes@, root);
        self.contains_in_shape(root, needle, Ghost(s))
    }

    fn contains_in_shape(&self, root: NodeId, needle: NodeId, Ghost(s): Ghost<Shape>) -> (r: bool)
        requires
            has_shape(self.nodes@, root, s),
        ensures
            r == s.ids().contains(needle),
        decreases s.size(),
    {
        if root == needle {
            return true;
        }
        match self.nodes.get(&root) {
            Some(Node::Split(split)) => {
                self.contains_in_shape(split.a, needle, Ghost(s.left())) || self.contains_in_shape(
                    split.b,
                    needle,
                    Ghost(s.right()),
                )
            },
            _ => false,
        }
    }

    /// The first leaf, left to right, of the subtree below `id`.
    #[must_use]
    pub fn first_leaf(&self, id: NodeId) -> (r: Option<NodeId>)
        requires
            finite_below(self.nodes@, id),
        ensures
            r == spec_first_leaf(self.nodes@, shape_of(self.nodes@, id)),
    {
        let ghost s = shape_of(self.nodes@, id);
        self.first_leaf_in(id, Ghost(s))
    }

    fn first_leaf_in(&self, id: NodeId, Ghost(s): Ghost<Shape>) -> (r: Option<NodeId>)
        requires
            has_shape(self.nodes@, id, s),
        ensures
            r == spec_first_leaf(self.nodes@, s),
        decreases s.size(),
    {
        match self.nodes.get(&id) {
            None => None,
            Some(Node::Leaf(_)) => Some(id),
            Some(Node::Split(split)) => {
                match self.first_leaf_in(split.a, Ghost(s.left())) {
                    Some(x) => Some(x),
                    None => self.first_leaf_in(split.b, Ghost(s.right())),
                }
            },
        }
    }

    /// Leaf identifiers of the subtree below `root`, left to right.
    #[must_use]
    pub fn leaf_ids_dfs(&self, root: NodeId) -> (r: Vec<NodeId>)
        requires
            finite_below(self.nodes@, root),
            tips_present(self.nodes@, shape_of(self.nodes@, root)),
        ensures
            r@ == shape_of(self.nodes@, root).leaves(),
    {
        let mut out: Vec<NodeId> = Vec::new();
        let ghost s = shape_of(self.nodes@, root);
        self.collect_leaf_ids(root, &mut out, Ghost(s));
        assert(out@ =~= s.leaves());
        out
    }

    fn collect_leaf_ids(&self, id: NodeId, out: &mut Vec<NodeId>, Ghost(s): Ghost<Shape>)
        requires
            has_shape(self.nodes@, id, s),
            tips_present(self.nodes@, s),
        ensures
            final(out)@ == old(out)@ + s.leaves(),
        decreases s.size(),
    {
        match self.nodes.get(&id).unwrap() {
            Node::Leaf(_) => out.push(id),
            Node::Split(split) => {
                let ghost before = out@;
                self.collect_leaf_ids(split.a, out, Ghost(s.left()));
                self.collect_leaf_ids(split.b, out, Ghost(s.right()));
                assert(out@ =~= before + s.leaves());
            },
        }
    }

    /// `id` followed by its ancestors up to the root.
    #[must_use]
    pub fn path_to_root(&self, id: NodeId) -> (r: Vec<NodeId>)
        requires
            self.well_formed(),
        ensures
            r@ == if self.nodes@.contains_key(id) {
                self.shape().path_to(id).reverse()
            } else {
                seq![id]
            },
    {
        let mut out: Vec<NodeId> = Vec::new();
        out.push(id);
        if !self.nodes.contains_key(&id) {
            return out;
        }
        let ghost s = self.shape();
        let ghost rt = self.root.unwrap();
        proof {
            lemma_path_ends(s, id);
            assert(s.path_to(id) =~= s.path_to(id).drop_last() + out@.reverse());
        }
        let mut cur = id;
        loop
            invariant
                self.well_formed(),
                s == self.shape(),
                self.root == Some(rt),
                self.nodes@.contains_key(id),
                s.ids().contains(cur),
                out@.len() > 0,
                out@.last() == cur,
                s.path_to(id) == s.path_to(cur).drop_last() + out@.reverse(),
            decreases s.path_to(cur).len(),
        {
            proof {
                lemma_parent_path(self.nodes@, s, None, cur);
                lemma_path_ends(s, cur);
            }
            match self.parent_of(cur) {
                Some(parent) => {
                    let ghost old_out = out@;
                    proof {
                        lemma_path_ends(s, parent);
                    }
                    out.push(parent);
                    assert(out@.reverse() =~= seq![parent] + old_out.reverse());
                    assert(s.path_to(cur).drop_last() =~= s.path_to(parent));
                    assert(s.path_to(parent) =~= s.path_to(parent).drop_last() + seq![parent]);
                    cur = parent;
                },
                None => {
                    proof {
                        lemma_shape_id(self.nodes@, rt, s);
                    }
                    assert(s.path_to(cur).drop_last() =~= Seq::<NodeId>::empty());
                    assert(s.path_to(id) =~= out@.reverse());
                    assert(out@ =~= s.path_to(id).reverse());
                    return out;
                },
            }
        }
    }

    /// The ancestors of `id`, nearest first.
    #[must_use]
    pub fn ancestors_nearest_first(&self, id: NodeId) -> (r: Vec<NodeId>)
        requires
            self.well_formed(),
        ensures
            r@ == if self.nodes@.contains_key(id) {
                self.shape().path_to(id).drop_last().reverse()
            } else {
                Seq::<NodeId>::empty()
            },
    {
        let mut out: Vec<NodeId> = Vec::new();
        if !self.nodes.contains_key(&id) {
            return out;
        }
        let ghost s = self.shape();
        let ghost rt = self.root.unwrap();
        proof {
            lemma_path_ends(s, id);
            assert(s.path_to(id).drop_last() =~= s.path_to(id).drop_last() + out@.reverse());
        }
        let mut cur = id;
        loop
            invariant
                self.well_formed(),
                s == self.shape(),
                self.root == Some(rt),
                self.nodes@.contains_key(id),
                s.ids().contains(cur),
                s.path_to(id).drop_last() == s.path_to(cur).drop_last() + out@.reverse(),
            decreases s.path_to(cur).len(),
        {
            proof {
                lemma_parent_path(self.nodes@, s, None, cur);
                lemma_path_ends(s, cur);
            }
            match self.parent_of(cur) {
                Some(parent) => {
                    let ghost old_out = out@;
                    proof {
                        lemma_path_ends(s, parent);
                    }
                    out.push(parent);
                    assert(out@.reverse() =~= seq![parent] + old_out.reverse());
                    assert(s.path_to(cur).drop_last() =~= s.path_to(parent));
                    assert(s.path_to(parent) =~= s.path_to(parent).drop_last() + seq![parent]);
                    cur = parent;
                },
                None => {
                    proof {
                        lemma_shape_id(self.nodes@, rt, s);
                    }
                    assert(s.path_to(cur).drop_last() =~= Seq::<NodeId>::empty());
                    assert(s.path_to(id).drop_last() =~= out@.reverse());
                    assert(out@.reverse().reverse() =~= out@);
                    assert(out@ =~= s.path_to(id).drop_last().reverse());
                    return out;
                },
            }
        }
    }
}

/// The split with child `old` replaced by `new` (the first matching slot).
pub open spec fn replaced_child(sn: SplitNode, old: NodeId, new: NodeId) -> SplitNode {
    if sn.a == old {
        SplitNode { a: new, ..sn }
    } else {
        SplitNode { b: new, ..sn }
    }
}

/// The node map after `replace_child(parent, old, new)`.
pub open spec fn map_replace_child<T>(m: Map<NodeId, Node<T>>, parent: NodeId, old: NodeId, new: NodeId) -> Map<
    NodeId,
    Node<T>,
> {
    let m1 = m.insert(parent, Node::Split(replaced_child(split_of(m[parent]), old, new)));
    m1.insert(new, with_parent(m1[new], Some(parent)))
}

/// The node map after `set_parent(id, p)`.
pub open spec fn map_set_parent<T>(m: Map<NodeId, Node<T>>, id: NodeId, p: Option<NodeId>) -> Map<
    NodeId,
    Node<T>,
> {
    m.insert(id, with_parent(m[id], p))
}

/// `replace_child(parent, old, new)` finds what it needs: `parent` is a split
/// with `old` as a child, and `new` is stored.
pub open spec fn can_replace_child<T>(m: Map<NodeId, Node<T>>, parent: NodeId, old: NodeId, new: NodeId) -> bool {
    &&& is_split_at(m, parent)
    &&& (split_of(m[parent]).a == old || split_of(m[parent]).b == old)
    &&& m.contains_key(new)
}

impl<T> Tree<T> {
    fn alloc_id(&mut self) -> (r: NodeId)
        requires
            old(self).next_id < u64::MAX,
        ensures
            r == old(self).next_id,
            final(self).next_id == old(self).next_id + 1,
            final(self).nodes@ == old(self).nodes@,
            final(self).root == old(self).root,
    {
        let id = self.next_id;
        self.next_id = self.next_id + 1;
        id
    }

    /// Stores a new parentless leaf under a fresh identifier.
    pub fn new_leaf(&mut self, payload: T, meta: LeafMeta) -> (r: NodeId)
        requires
            old(self).next_id < u64::MAX,
        ensures
            r == old(self).next_id,
            final(self).next_id == old(self).next_id + 1,
            final(self).root == old(self).root,
            final(self).nodes@ == old(self).nodes@.insert(
                r,
                Node::Leaf(LeafNode { parent: None, payload, meta }),
            ),
    {
        let id = self.alloc_id();
        self.nodes.insert(id, Node::Leaf(LeafNode { parent: None, payload, meta }));
        id
    }

    /// Stores a new parentless split under a fresh identifier.
    pub fn new_split(&mut self, axis: Axis, a: NodeId, b: NodeId, weights: WeightPair) -> (r: NodeId)
        requires
            old(self).next_id < u64::MAX,
        ensures
            r == old(self).next_id,
            final(self).next_id == old(self).next_id + 1,
            final(self).root == old(self).root,
            final(self).nodes@ == old(self).nodes@.insert(
                r,
                Node::Split(SplitNode { parent: None, axis, a, b, weights }),
            ),
    {
        let id = self.alloc_id();
        self.nodes.insert(id, Node::Split(SplitNode { parent: None, axis, a, b, weights }));
        id
    }

    /// Rewrites the parent link of a stored node.
    pub fn set_parent(&mut self, id: NodeId, parent: Option<NodeId>)
        requires
            old(self).nodes@.contains_key(id),
        ensures
            final(self).nodes@ == map_set_parent(old(self).nodes@, id, parent),
            final(self).root == old(self).root,
            final(self).next_id == old(self).next_id,
    {
        let mut node = self.nodes.remove(&id).unwrap();
        *node.parent_mut() = parent;
        self.nodes.insert(id, node);
    }

    /// Puts `new_id` in place of the child `old_id` of split `parent` and makes
    /// `parent` the parent of `new_id`.
    pub fn replace_child(&mut self, parent: NodeId, old_id: NodeId, new_id: NodeId)
        requires
            can_replace_child(old(self).nodes@, parent, old_id, new_id),
        ensures
            final(self).nodes@ == map_replace_child(old(self).nodes@, parent, old_id, new_id),
            final(self).root == old(self).root,
            final(self).next_id == old(self).next_id,
    {
        let node = self.nodes.remove(&parent).unwrap();
        let updated = match node {
            Node::Split(split) => {
                if split.a == old_id {
                    SplitNode { a: new_id, ..split }
                } else {
                    SplitNode { b: new_id, ..split }
                }
            },
            Node::Leaf(_) => {
                proof {
                    assert(false);
                }
                return;
            },
        };
        self.nodes.insert(parent, Node::Split(updated));
        self.set_parent(new_id, Some(parent));
    }

    /// Puts `new_id` where `old_id` hangs: under `old_id`'s parent, or at the root.
    pub fn replace_node_in_parent_or_root(&mut self, old_id: NodeId, new_id: NodeId)
        requires
            old(self).nodes@.contains_key(new_id),
            old(self).nodes@.contains_key(old_id) && node_parent(old(self).nodes@[old_id]) is Some
                ==> can_replace_child(
                old(self).nodes@,
                node_parent(old(self).nodes@[old_id])->0,
                old_id,
                new_id,
            ),
        ensures
            final(self).next_id == old(self).next_id,
            if old(self).nodes@.contains_key(old_id) && node_parent(old(self).nodes@[old_id]) is Some {
                &&& final(self).nodes@ == map_replace_child(
                    old(self).nodes@,
                    node_parent(old(self).nodes@[old_id])->0,
                    old_id,
                    new_id,
                )
                &&& final(self).root == old(self).root
            } else {
                &&& final(self).nodes@ == map_set_parent(old(self).nodes@, new_id, None)
                &&& final(self).root == Some(new_id)
            },
    {
        match self.parent_of(old_id) {
            Some(parent) => self.replace_child(parent, old_id, new_id),
            None => {
                self.root = Some(new_id);
                self.set_parent(new_id, None);
            },
        }
    }

    /// Exchanges the two children of split `parent`.
    pub fn swap_parent_slots(&mut self, parent: NodeId)
        requires
            is_split_at(old(self).nodes@, parent),
        ensures
            final(self).nodes@ == old(self).nodes@.insert(
                parent,
                Node::Split(
                    SplitNode {
                        a: split_of(old(self).nodes@[parent]).b,
                        b: split_of(old(self).nodes@[parent]).a,
                        ..split_of(old(self).nodes@[parent])
                    },
                ),
            ),
            final(self).root == old(self).root,
            final(self).next_id == old(self).next_id,
    {
        let node = self.nodes.remove(&parent).unwrap();
        match node {
            Node::Split(split) => {
                self.nodes.insert(parent, Node::Split(SplitNode { a: split.b, b: split.a, ..split }));
            },
            Node::Leaf(_) => {
                proof {
                    assert(false);
                }
            },
        }
    }
}

/// What `collapse_unary_parent(child)` needs: with `child`'s parent `p` and
/// sibling `s`, the sibling is stored and, if `p` has a parent `g`, `g` is a
/// split holding `p`.
pub open spec fn can_collapse<T>(m: Map<NodeId, Node<T>>, child: NodeId) -> bool {
    (m.contains_key(child) && node_parent(m[child]) is Some && spec_sibling(m, child) is Some) ==> {
        let p = node_parent(m[child])->0;
        let s = spec_sibling(m, child)->0;
        &&& m.contains_key(s)
        &&& node_parent(m[p]) is Some ==> can_replace_child(m, node_parent(m[p])->0, p, s)
    }
}

/// The node map after lifting `s` into the place of its parent `p`.
pub open spec fn map_lift<T>(m: Map<NodeId, Node<T>>, p: NodeId, s: NodeId) -> Map<NodeId, Node<T>> {
    if node_parent(m[p]) is Some {
        map_replace_child(m, node_parent(m[p])->0, p, s).remove(p)
    } else {
        map_set_parent(m, s, None).remove(p)
    }
}

/// The root after lifting `s` into the place of its parent `p`.
pub open spec fn root_lift<T>(m: Map<NodeId, Node<T>>, root: Option<NodeId>, p: NodeId, s: NodeId) -> Option<NodeId> {
    if node_parent(m[p]) is Some {
        root
    } else {
        Some(s)
    }
}

/// The slots of a new split holding `target` and `incoming`.
pub open spec fn slot_pair(target: NodeId, incoming: NodeId, slot: Slot) -> (NodeId, NodeId) {
    match slot {
        Slot::A => (incoming, target),
        Slot::B => (target, incoming),
    }
}

/// The node map after the new split `sid` has been stored and its children
/// relinked to it.
pub open spec fn attach_stage<T>(
    m: Map<NodeId, Node<T>>,
    target: NodeId,
    incoming: NodeId,
    axis: Axis,
    slot: Slot,
    weights: WeightPair,
    sid: NodeId,
) -> Map<NodeId, Node<T>> {
    let (a, b) = slot_pair(target, incoming, slot);
    let m1 = m.insert(sid, Node::Split(SplitNode { parent: None, axis, a, b, weights }));
    map_set_parent(map_set_parent(m1, a, Some(sid)), b, Some(sid))
}

impl<T> Tree<T> {
    /// Removes the parent of `removed_child` and lifts its sibling into the
    /// parent's place; returns the sibling. Does nothing when `removed_child`
    /// has no parent or no sibling.
    pub fn collapse_unary_parent(&mut self, removed_child: NodeId) -> (r: Option<NodeId>)
        requires
            can_collapse(old(self).nodes@, removed_child),
        ensures
            final(self).next_id == old(self).next_id,
            r == (if old(self).nodes@.contains_key(removed_child) && node_parent(
                old(self).nodes@[removed_child],
            ) is Some {
                spec_sibling(old(self).nodes@, removed_child)
            } else {
                None::<NodeId>
            }),
            r is None ==> *final(self) == *old(self),
            r matches Some(s) ==> {
                let p = node_parent(old(self).nodes@[removed_child])->0;
                &&& final(self).nodes@ == map_lift(old(self).nodes@, p, s)
                &&& final(self).root == root_lift(old(self).nodes@, old(self).root, p, s)
            },
    {
        let parent = match self.parent_of(removed_child) {
            Some(p) => p,
            None => return None,
        };
        let sibling = match self.sibling_of(removed_child) {
            Some(s) => s,
            None => return None,
        };
        let grand = self.parent_of(parent);
        match grand {
            Some(grand) => {
                self.replace_child(grand, parent, sibling);
            },
            None => {
                self.root = Some(sibling);
                self.set_parent(sibling, None);
            },
        }
        self.nodes.remove(&parent);
        Some(sibling)
    }

    /// Removes the subtree below `id`, returning the removed identifiers
    /// (children before parents).
    pub fn remove_subtree_ids(&mut self, id: NodeId) -> (r: Vec<NodeId>)
        ensures
            subtree_removable(old(self).nodes@, id) ==> {
                &&& final(self).nodes@ == old(self).nodes@.remove_keys(shape_of(old(self).nodes@, id).ids())
                &&& r@ == shape_of(old(self).nodes@, id).post_order()
            },
            old(self).well_formed() && old(self).nodes@.contains_key(id) ==> subtree_removable(
                old(self).nodes@,
                id,
            ),
            final(self).nodes@.submap_of(old(self).nodes@),
            forall|x: NodeId|
                r@.contains(x) <==> (old(self).nodes@.contains_key(x)
                    && !final(self).nodes@.contains_key(x)),
            r@.no_duplicates(),
            r@.len() > 0 ==> r@.last() == id,
            old(self).nodes@.contains_key(id) <==> r@.len() > 0,
            final(self).root == old(self).root,
            final(self).next_id == old(self).next_id,
    {
        proof {
            if old(self).well_formed() && old(self).nodes@.contains_key(id) {
                lemma_node_shape(&*old(self), id);
            }
            if subtree_removable(self.nodes@, id) {
                lemma_shape_of(self.nodes@, id, shape_of(self.nodes@, id));
            }
        }
        let mut removed: Vec<NodeId> = Vec::new();
        self.collect_remove(id, &mut removed);
        assert(removed@.subrange(0, removed@.len() as int) =~= removed@);
        proof {
            if subtree_removable(old(self).nodes@, id) {
                assert(removed@ =~= Seq::<NodeId>::empty() + shape_of(old(self).nodes@, id).post_order());
            }
        }
        removed
    }

    fn collect_remove(&mut self, id: NodeId, removed: &mut Vec<NodeId>)
        ensures
            forall|sh: Shape|
                #[trigger] has_shape(old(self).nodes@, id, sh) && sh.distinct() && sh.ids().subset_of(
                    old(self).nodes@.dom(),
                ) ==> {
                    &&& final(self).nodes@ == old(self).nodes@.remove_keys(sh.ids())
                    &&& final(removed)@ == old(removed)@ + sh.post_order()
                },
            final(self).nodes@.submap_of(old(self).nodes@),
            final(removed)@.len() >= old(removed)@.len(),
            final(removed)@.subrange(0, old(removed)@.len() as int) == old(removed)@,
            forall|x: NodeId|
                final(removed)@.subrange(old(removed)@.len() as int, final(removed)@.len() as int).contains(x)
                    <==> (old(self).nodes@.contains_key(x) && !final(self).nodes@.contains_key(x)),
            final(removed)@.subrange(
                old(removed)@.len() as int,
                final(removed)@.len() as int,
            ).no_duplicates(),
            final(removed)@.len() > old(removed)@.len() ==> final(removed)@.last() == id,
            old(self).nodes@.contains_key(id) <==> final(removed)@.len() > old(removed)@.len(),
            final(self).root == old(self).root,
            final(self).next_id == old(self).next_id,
        decreases old(self).nodes@.dom().len(),
    {
        let ghost m0 = self.nodes@;
        let ghost r0 = removed@;
        match self.nodes.remove(&id) {
            None => {
                proof {
                    assert forall|sh: Shape|
                        #[trigger] has_shape(m0, id, sh) && sh.distinct() && sh.ids().subset_of(m0.dom())
                        implies false by {
                        lemma_shape_id(m0, id, sh);
                    }
                }
                assert(removed@.subrange(0, r0.len() as int) =~= r0);
                assert(removed@.subrange(r0.len() as int, removed@.len() as int) =~= Seq::<
                    NodeId,
                >::empty());
            },
            Some(node) => {
                proof {
                    assert(m0.dom().contains(id));
                    assert(self.nodes@.dom() =~= m0.dom().remove(id));
                }
                match node {
                    Node::Leaf(_) => {
                        removed.push(id);
                        assert(removed@.subrange(0, r0.len() as int) =~= r0);
                        let ghost tail = removed@.subrange(r0.len() as int, removed@.len() as int);
                        assert(tail =~= seq![id]);
                        assert forall|x: NodeId| tail.contains(x) <==> (m0.contains_key(x)
                            && !self.nodes@.contains_key(x)) by {
                            if x == id {
                                assert(tail[0] == x);
                            }
                        }
                        proof {
                            assert forall|sh: Shape|
                                #[trigger] has_shape(m0, id, sh) && sh.distinct() && sh.ids().subset_of(
                                    m0.dom(),
                                ) implies self.nodes@ == m0.remove_keys(sh.ids()) && removed@ == r0
                                + sh.post_order() by {
                                assert(sh == Shape::Tip(id));
                                assert(sh.ids() =~= set![id]);
                                assert(self.nodes@ =~= m0.remove_keys(sh.ids()));
                                assert(removed@ =~= r0 + sh.post_order());
                            }
                        }
                    },
                    Node::Split(split) => {
                        let ghost m1 = self.nodes@;
                        proof {
                            assert forall|sh: Shape|
                                #[trigger] has_shape(m0, id, sh) && sh.distinct() && sh.ids().subset_of(
                                    m0.dom(),
                                ) implies has_shape(m1, split.a, sh.left()) by {
                                lemma_shape_id(m0, id, sh);
                                assert(m1 =~= m0.remove_keys(set![id]));
                                lemma_remove_frame(m0, m1, split.a, sh.left(), set![id]);
                            }
                        }
                        self.collect_remove(split.a, removed);
                        let ghost m2 = self.nodes@;
                        let ghost r2 = removed@;
                        proof {
                            vstd::set_lib::lemma_len_subset(m2.dom(), m1.dom());
                            assert forall|sh: Shape|
                                #[trigger] has_shape(m0, id, sh) && sh.distinct() && sh.ids().subset_of(
                                    m0.dom(),
                                ) implies has_shape(m2, split.b, sh.right()) by {
                                lemma_shape_id(m0, id, sh);
                                assert(m1 =~= m0.remove_keys(set![id]));
                                lemma_remove_frame(m0, m1, split.a, sh.left(), set![id]);
                                assert(has_shape(m1, split.a, sh.left()));
                                assert(m2 == m1.remove_keys(sh.left().ids()));
                                assert(m2 =~= m0.remove_keys(sh.left().ids().insert(id)));
                                lemma_remove_frame(m0, m2, split.b, sh.right(), sh.left().ids().insert(id));
                            }
                        }
                        self.collect_remove(split.b, removed);
                        let ghost m3 = self.nodes@;
                        let ghost r3 = removed@;
                        removed.push(id);
                        proof {
                            let sa = r2.subrange(r0.len() as int, r2.len() as int);
                            let sb = r3.subrange(r2.len() as int, r3.len() as int);
                            assert(r3.subrange(0, r2.len() as int) =~= r2);
                            assert(removed@.subrange(0, r0.len() as int) =~= r0);
                            let tail = removed@.subrange(r0.len() as int, removed@.len() as int);
                            assert(tail =~= sa + sb + seq![id]);
                            lemma_removed_concat(sa, sb, id, m0.dom(), m1.dom(), m2.dom(), m3.dom());
                            assert forall|k: NodeId| #[trigger] m3.contains_key(k) implies m0.contains_key(k)
                                && m3[k] == m0[k] by {
                                assert(m2.contains_key(k));
                                assert(m1.contains_key(k));
                            }
                            assert forall|sh: Shape|
                                #[trigger] has_shape(m0, id, sh) && sh.distinct() && sh.ids().subset_of(
                                    m0.dom(),
                                ) implies self.nodes@ == m0.remove_keys(sh.ids()) && removed@ == r0
                                + sh.post_order() by {
                                lemma_shape_id(m0, id, sh);
                                assert(m1 =~= m0.remove_keys(set![id]));
                                lemma_remove_frame(m0, m1, split.a, sh.left(), set![id]);
                                assert(has_shape(m1, split.a, sh.left()));
                                assert(m2 == m1.remove_keys(sh.left().ids()));
                                assert(r2 == r0 + sh.left().post_order());
                                assert(m2 =~= m0.remove_keys(sh.left().ids().insert(id)));
                                lemma_remove_frame(m0, m2, split.b, sh.right(), sh.left().ids().insert(id));
                                assert(m3 == m2.remove_keys(sh.right().ids()));
                                assert(r3 == r2 + sh.right().post_order());
                                assert(self.nodes@ =~= m0.remove_keys(sh.ids()));
                                assert(removed@ =~= r0 + sh.post_order());
                            }
                        }
                    },
                }
            },
        }
    }
}


/// The subtree below `id` can be removed node by node: its shape is finite,
/// repeats no identifier, and every node of it is stored.
pub open spec fn subtree_removable<T>(m: Map<NodeId, Node<T>>, id: NodeId) -> bool {
    &&& finite_below(m, id)
    &&& shape_of(m, id).distinct()
    &&& shape_of(m, id).ids().subset_of(m.dom())
}

/// Removing identifiers outside a shape keeps the shape.
proof fn lemma_remove_frame<T>(m0: Map<NodeId, Node<T>>, m1: Map<NodeId, Node<T>>, top: NodeId, t: Shape, gone: Set<NodeId>)
    requires
        has_shape(m0, top, t),
        t.ids().disjoint(gone),
        m1 == m0.remove_keys(gone),
    ensures
        has_shape(m1, top, t),
{
    assert forall|k: NodeId| #[trigger] t.ids().contains(k) implies (m0.contains_key(k) == m1.contains_key(k)
        && (m0.contains_key(k) ==> m1[k] == m0[k])) by {
        assert(!gone.contains(k));
    }
    lemma_keep_shape(m0, m1, top, t);
}

/// A shape survives in a map that keeps every entry of its identifiers.
proof fn lemma_keep_shape<T>(m0: Map<NodeId, Node<T>>, m1: Map<NodeId, Node<T>>, id: NodeId, s: Shape)
    requires
        has_shape(m0, id, s),
        forall|k: NodeId| #[trigger] s.ids().contains(k) ==> (m0.contains_key(k) == m1.contains_key(k)
            && (m0.contains_key(k) ==> m1[k] == m0[k])),
    ensures
        has_shape(m1, id, s),
    decreases s,
{
    match s {
        Shape::Tip(i) => {
            assert(s.ids().contains(i));
        },
        Shape::Fork(i, l, r) => {
            assert(s.ids().contains(i));
            assert forall|k: NodeId| #[trigger] l.ids().contains(k) implies s.ids().contains(k) by {}
            assert forall|k: NodeId| #[trigger] r.ids().contains(k) implies s.ids().contains(k) by {}
            lemma_keep_shape(m0, m1, split_of(m0[id]).a, *l);
            lemma_keep_shape(m0, m1, split_of(m0[id]).b, *r);
        },
    }
}

proof fn lemma_removed_concat(
    sa: Seq<NodeId>,
    sb: Seq<NodeId>,
    id: NodeId,
    d0: Set<NodeId>,
    d1: Set<NodeId>,
    d2: Set<NodeId>,
    d3: Set<NodeId>,
)
    requires
        forall|x: NodeId| sa.contains(x) <==> (d1.contains(x) && !d2.contains(x)),
        forall|x: NodeId| sb.contains(x) <==> (d2.contains(x) && !d3.contains(x)),
        sa.no_duplicates(),
        sb.no_duplicates(),
        d0.contains(id),
        d1 == d0.remove(id),
        d2.subset_of(d1),
        d3.subset_of(d2),
    ensures
        forall|x: NodeId|
            (sa + sb + seq![id]).contains(x) <==> (d0.contains(x) && !d3.contains(x)),
        (sa + sb + seq![id]).no_duplicates(),
{
    let tail = sa + sb + seq![id];
    assert forall|x: NodeId| tail.contains(x) <==> (d0.contains(x) && !d3.contains(x)) by {
        if tail.contains(x) {
            let k = choose|k: int| 0 <= k < tail.len() && tail[k] == x;
            if k < sa.len() {
                assert(sa[k] == x);
                assert(sa.contains(x));
            } else if k < sa.len() + sb.len() {
                assert(sb[k - sa.len()] == x);
                assert(sb.contains(x));
            }
        }
        if d0.contains(x) && !d3.contains(x) {
            if x == id {
                assert(tail[tail.len() - 1] == x);
            } else if !d2.contains(x) {
                assert(sa.contains(x));
                let k = choose|k: int| 0 <= k < sa.len() && sa[k] == x;
                assert(tail[k] == x);
            } else {
                assert(sb.contains(x));
                let k = choose|k: int| 0 <= k < sb.len() && sb[k] == x;
                assert(tail[sa.len() + k] == x);
            }
        }
    }
    assert forall|i: int, j: int|
        0 <= i < tail.len() && 0 <= j < tail.len() && i != j implies tail[i] != tail[j] by {
        if i < sa.len() {
            assert(sa.contains(tail[i]));
        } else if i < sa.len() + sb.len() {
            assert(sb[i - sa.len()] == tail[i]);
            assert(sb.contains(tail[i]));
        }
        if j < sa.len() {
            assert(sa.contains(tail[j]));
        } else if j < sa.len() + sb.len() {
            assert(sb[j - sa.len()] == tail[j]);
            assert(sb.contains(tail[j]));
        }
    }
}


/// What `detach_subtree(id)` needs: a root that is stored, or a parent `p`
/// other than `id` that holds `id`, a stored sibling, and (if `p` has a
/// parent) a grandparent split holding `p`.
pub open spec fn can_detach<T>(m: Map<NodeId, Node<T>>, root: Option<NodeId>, id: NodeId) -> bool {
    if root == Some(id) {
        m.contains_key(id)
    } else {
        &&& m.contains_key(id)
        &&& node_parent(m[id]) is Some
        &&& node_parent(m[id])->0 != id
        &&& spec_sibling(m, id) is Some
        &&& can_collapse(m, id)
    }
}

impl<T> Tree<T> {
    /// Unhooks the subtree below `id`: its parent split is removed and the
    /// sibling takes the parent's place; `id` becomes parentless. Detaching the
    /// root leaves the tree empty.
    pub fn detach_subtree(&mut self, id: NodeId)
        requires
            can_detach(old(self).nodes@, old(self).root, id),
        ensures
            final(self).next_id == old(self).next_id,
            old(self).root == Some(id) ==> {
                &&& final(self).root is None
                &&& final(self).nodes@ == map_set_parent(old(self).nodes@, id, None)
            },
            old(self).root != Some(id) ==> {
                let p = node_parent(old(self).nodes@[id])->0;
                let s = spec_sibling(old(self).nodes@, id)->0;
                let lifted = map_lift(old(self).nodes@, p, s);
                &&& final(self).root == root_lift(old(self).nodes@, old(self).root, p, s)
                &&& final(self).nodes@ == map_set_parent(lifted, id, None)
            },
    {
        if self.root == Some(id) {
            self.root = None;
            self.set_parent(id, None);
            return;
        }
        let parent = self.parent_of(id).unwrap();
        let sibling = self.sibling_of(id).unwrap();
        let grand = self.parent_of(parent);
        match grand {
            Some(grand) => {
                self.replace_child(grand, parent, sibling);
            },
            None => {
                self.root = Some(sibling);
                self.set_parent(sibling, None);
            },
        }
        self.nodes.remove(&parent);
        self.set_parent(id, None);
    }

    /// Wraps `target` in a new split whose other child is `incoming` (in slot
    /// `slot`); the split takes `target`'s place. Returns the split.
    pub fn attach_as_sibling(
        &mut self,
        target: NodeId,
        incoming: NodeId,
        axis: Axis,
        slot: Slot,
        weights: WeightPair,
    ) -> (r: NodeId)
        requires
            old(self).next_id < u64::MAX,
            old(self).nodes@.contains_key(target) || target == old(self).next_id,
            old(self).nodes@.contains_key(incoming) || incoming == old(self).next_id,
            ({
                let m = old(self).nodes@;
                let st = attach_stage(m, target, incoming, axis, slot, weights, old(self).next_id);
                (m.contains_key(target) && node_parent(m[target]) is Some) ==> can_replace_child(
                    st,
                    node_parent(m[target])->0,
                    target,
                    old(self).next_id,
                )
            }),
        ensures
            r == old(self).next_id,
            final(self).next_id == old(self).next_id + 1,
            ({
                let m = old(self).nodes@;
                let st = attach_stage(m, target, incoming, axis, slot, weights, r);
                if m.contains_key(target) && node_parent(m[target]) is Some {
                    let p = node_parent(m[target])->0;
                    &&& final(self).root == old(self).root
                    &&& final(self).nodes@ == map_set_parent(
                        map_replace_child(st, p, target, r),
                        r,
                        Some(p),
                    )
                } else {
                    &&& final(self).root == Some(r)
                    &&& final(self).nodes@ == map_set_parent(st, r, None)
                }
            }),
    {
        let (a, b) = match slot {
            Slot::A => (incoming, target),
            Slot::B => (target, incoming),
        };
        let parent_of_target = self.parent_of(target);
        let split_id = self.new_split(axis, a, b, weights);
        self.set_parent(a, Some(split_id));
        self.set_parent(b, Some(split_id));
        match parent_of_target {
            Some(parent) => {
                self.replace_child(parent, target, split_id);
                self.set_parent(split_id, Some(parent));
            },
            None => {
                self.root = Some(split_id);
                self.set_parent(split_id, None);
            },
        }
        split_id
    }
}

/// Below any identifier of a shape hangs the corresponding sub-shape.
pub proof fn lemma_sub_shape<T>(m: Map<NodeId, Node<T>>, id: NodeId, s: Shape, x: NodeId)
    requires
        has_shape(m, id, s),
        s.ids().contains(x),
    ensures
        has_shape(m, x, s.sub(x)),
        s.sub(x).ids().subset_of(s.ids()),
        s.distinct() ==> s.sub(x).distinct(),
        s.sub(x).size() <= s.size(),
    decreases s,
{
    match s {
        Shape::Tip(_) => {},
        Shape::Fork(i, l, r) => {
            if x != i {
                if l.ids().contains(x) {
                    lemma_sub_shape(m, split_of(m[id]).a, *l, x);
                } else {
                    lemma_sub_shape(m, split_of(m[id]).b, *r, x);
                }
            }
        },
    }
}

/// In a well-formed tree every stored node has a finite subtree, which is the
/// corresponding part of the whole shape.
pub proof fn lemma_node_shape<T>(tree: &Tree<T>, x: NodeId)
    requires
        tree.well_formed(),
        tree.nodes@.contains_key(x),
    ensures
        finite_below(tree.nodes@, x),
        shape_of(tree.nodes@, x) == tree.shape().sub(x),
        tree.shape().sub(x).ids().subset_of(tree.nodes@.dom()),
        tree.shape().sub(x).distinct(),
{
    lemma_sub_shape(tree.nodes@, tree.root.unwrap(), tree.shape(), x);
    lemma_shape_of(tree.nodes@, x, tree.shape().sub(x));
}

/// Two maps agree on which identifiers are stored, which are splits, and what
/// the splits' children are.
pub open spec fn same_links<T>(m1: Map<NodeId, Node<T>>, m2: Map<NodeId, Node<T>>) -> bool {
    &&& m1.dom() =~= m2.dom()
    &&& forall|k: NodeId| #[trigger] m1.contains_key(k) ==> {
        &&& (m1[k] is Split <==> m2[k] is Split)
        &&& (m1[k] is Split ==> split_of(m1[k]).a == split_of(m2[k]).a && split_of(m1[k]).b
            == split_of(m2[k]).b)
    }
}

/// Shapes only depend on the child links.
pub proof fn lemma_same_links_shape<T>(m1: Map<NodeId, Node<T>>, m2: Map<NodeId, Node<T>>, id: NodeId, s: Shape)
    requires
        same_links(m1, m2),
        has_shape(m1, id, s),
    ensures
        has_shape(m2, id, s),
    decreases s,
{
    match s {
        Shape::Tip(_) => {},
        Shape::Fork(_, l, r) => {
            lemma_same_links_shape(m1, m2, split_of(m1[id]).a, *l);
            lemma_same_links_shape(m1, m2, split_of(m1[id]).b, *r);
        },
    }
}

/// Following child links stops from every identifier.
pub open spec fn acyclic<T>(m: Map<NodeId, Node<T>>) -> bool {
    forall|id: NodeId| #[trigger] finite_below(m, id)
}

/// A well-formed tree is acyclic.
pub proof fn lemma_tree_acyclic<T>(tree: &Tree<T>)
    requires
        tree.well_formed(),
    ensures
        acyclic(tree.nodes@),
{
    assert forall|id: NodeId| #[trigger] finite_below(tree.nodes@, id) by {
        if tree.nodes@.contains_key(id) {
            lemma_node_shape(tree, id);
        } else {
            assert(has_shape(tree.nodes@, id, Shape::Tip(id)));
        }
    }
}

/// Acyclicity only depends on the child links.
pub proof fn lemma_same_links_acyclic<T>(m1: Map<NodeId, Node<T>>, m2: Map<NodeId, Node<T>>)
    requires
        same_links(m1, m2),
        acyclic(m1),
    ensures
        acyclic(m2),
        forall|id: NodeId| #[trigger] shape_of(m2, id) == shape_of(m1, id),
{
    assert forall|id: NodeId| #[trigger] finite_below(m2, id) by {
        assert(finite_below(m1, id));
        lemma_same_links_shape(m1, m2, id, shape_of(m1, id));
    }
    assert forall|id: NodeId| #[trigger] shape_of(m2, id) == shape_of(m1, id) by {
        assert(finite_below(m1, id));
        lemma_same_links_shape(m1, m2, id, shape_of(m1, id));
        lemma_shape_of(m2, id, shape_of(m1, id));
    }
}

/// A first leaf found below a node is a stored leaf.
pub proof fn lemma_first_leaf_is_leaf<T>(m: Map<NodeId, Node<T>>, id: NodeId, s: Shape)
    requires
        has_shape(m, id, s),
    ensures
        spec_first_leaf(m, s) matches Some(x) ==> m.contains_key(x) && m[x] is Leaf,
    decreases s,
{
    match s {
        Shape::Tip(_) => {},
        Shape::Fork(_, l, r) => {
            lemma_first_leaf_is_leaf(m, split_of(m[id]).a, *l);
            lemma_first_leaf_is_leaf(m, split_of(m[id]).b, *r);
        },
    }
}

/// A well-formed tree's node map is acyclic.
pub proof fn lemma_tree_ok_acyclic<T>(m: Map<NodeId, Node<T>>, root: Option<NodeId>)
    requires
        tree_ok(m, root),
    ensures
        acyclic(m),
{
    assert forall|id: NodeId| #[trigger] finite_below(m, id) by {
        if m.contains_key(id) {
            let r = root.unwrap();
            lemma_sub_shape(m, r, shape_of(m, r), id);
        } else {
            assert(has_shape(m, id, Shape::Tip(id)));
        }
    }
}

/// Below a node whose subtree is stored, every tip is a stored leaf.
pub proof fn lemma_tips_are_leaves<T>(m: Map<NodeId, Node<T>>, id: NodeId, s: Shape)
    requires
        has_shape(m, id, s),
        s.ids().subset_of(m.dom()),
    ensures
        tips_present(m, s),
        forall|i: int|
            0 <= i < s.leaves().len() ==> m.contains_key(#[trigger] s.leaves()[i]) && m[s.leaves()[i]] is Leaf,
    decreases s,
{
    match s {
        Shape::Tip(i) => {
            assert(s.ids().contains(i));
            assert(s.leaves() =~= seq![i]);
        },
        Shape::Fork(i, l, r) => {
            assert(l.ids().subset_of(s.ids()));
            assert(r.ids().subset_of(s.ids()));
            lemma_tips_are_leaves(m, split_of(m[id]).a, *l);
            lemma_tips_are_leaves(m, split_of(m[id]).b, *r);
            assert forall|k: int| 0 <= k < s.leaves().len() implies m.contains_key(
                #[trigger] s.leaves()[k],
            ) && m[s.leaves()[k]] is Leaf by {
                if k < l.leaves().len() {
                    assert(s.leaves()[k] == l.leaves()[k]);
                } else {
                    assert(s.leaves()[k] == r.leaves()[k - l.leaves().len()]);
                }
            }
        },
    }
}
} // verus!

verus! {

impl<T> LeafNode<T> {
    /// The parent split, if any.
    pub fn parent(&self) -> (r: Option<NodeId>)
        ensures
            r == self.parent,
    {
        self.parent
    }

    /// The caller's payload.
    pub fn payload(&self) -> (r: &T)
        ensures
            *r == self.payload,
    {
        &self.payload
    }

    /// The size metadata.
    pub fn meta(&self) -> (r: &LeafMeta)
        ensures
            *r == self.meta,
    {
        &self.meta
    }
}

impl SplitNode {
    /// The parent split, if any.
    pub fn parent(&self) -> (r: Option<NodeId>)
        ensures
            r == self.parent,
    {
        self.parent
    }

    /// The axis along which the split divides its space.
    pub fn axis(&self) -> (r: Axis)
        ensures
            r == self.axis,
    {
        self.axis
    }

    /// The child placed first along the axis.
    pub fn a(&self) -> (r: NodeId)
        ensures
            r == self.a,
    {
        self.a
    }

    /// The child placed second along the axis.
    pub fn b(&self) -> (r: NodeId)
        ensures
            r == self.b,
    {
        self.b
    }

    /// The preferred share of the two children.
    pub fn weights(&self) -> (r: WeightPair)
        ensures
            r == self.weights,
    {
        self.weights
    }
}

/// The sequence is strictly increasing.
pub open spec fn strictly_increasing(s: Seq<NodeId>) -> bool {
    forall|i: int, j: int| 0 <= i < j < s.len() ==> s[i] < s[j]
}

/// Inserts `k` into a strictly increasing vector unless it is already there.
fn insert_sorted(out: &mut Vec<NodeId>, k: NodeId)
    requires
        strictly_increasing(old(out)@),
    ensures
        strictly_increasing(final(out)@),
        final(out)@.to_set() == old(out)@.to_set().insert(k),
{
    let ghost s0 = out@;
    let mut j: usize = 0;
    while j < out.len() && out[j] < k
        invariant
            j <= out.len(),
            out@ == s0,
            forall|i: int| 0 <= i < j ==> out@[i] < k,
        decreases out.len() - j,
    {
        j = j + 1;
    }
    if j < out.len() && out[j] == k {
        assert(s0.to_set() =~= s0.to_set().insert(k)) by {
            assert(s0.to_set().contains(s0[j as int]));
        }
        return;
    }
    out.insert(j, k);
    proof {
        let s1 = out@;
        assert(s1 == s0.insert(j as int, k));
        assert forall|i: int, l: int| 0 <= i < l < s1.len() implies s1[i] < s1[l] by {
            if l < j {
            } else if l == j {
            } else if i < j {
                assert(s1[l] == s0[l - 1]);
                assert(s0[j as int] > k);
                assert(s0[j as int] <= s0[l - 1]);
            } else if i == j {
                assert(s1[l] == s0[l - 1]);
                assert(s0[j as int] > k);
                assert(s0[j as int] <= s0[l - 1]);
            } else {
                assert(s1[i] == s0[i - 1]);
                assert(s1[l] == s0[l - 1]);
            }
        }
        assert forall|x: NodeId| s1.to_set().contains(x) <==> s0.to_set().insert(k).contains(x) by {
            if s1.to_set().contains(x) {
                let i = s1.index_of(x);
                if i < j {
                    assert(s0[i] == x);
                } else if i > j {
                    assert(s0[i - 1] == x);
                }
            }
            if s0.to_set().contains(x) {
                let i = s0.index_of(x);
                if i < j {
                    assert(s1[i] == x);
                } else {
                    assert(s1[i + 1] == x);
                }
            }
            if x == k {
                assert(s1[j as int] == k);
            }
        }
        assert(s1.to_set() =~= s0.to_set().insert(k));
    }
}

impl<T> Tree<T> {
    /// The leaf stored at `id`, if `id` is a leaf.
    #[must_use]
    pub fn leaf(&self, id: NodeId) -> (r: Option<&LeafNode<T>>)
        ensures
            r == (if self.nodes@.contains_key(id) && self.nodes@[id] is Leaf {
                Some(&self.nodes@[id]->Leaf_0)
            } else {
                None::<&LeafNode<T>>
            }),
    {
        match self.nodes.get(&id) {
            Some(Node::Leaf(leaf)) => Some(leaf),
            _ => None,
        }
    }

    /// Replaces the root reference; the nodes are left as they are.
    pub fn set_root(&mut self, root: Option<NodeId>)
        ensures
            final(self).root == root,
            final(self).nodes@ == old(self).nodes@,
            final(self).next_id == old(self).next_id,
    {
        self.root = root;
    }

    /// Identifiers of all stored nodes, in increasing order.
    #[must_use]
    pub fn node_ids(&self) -> (r: Vec<NodeId>)
        ensures
            r@.to_set() == self.nodes@.dom(),
            strictly_increasing(r@),
    {
        let ghost keys = self.nodes.keys().remaining().unref();
        let mut out: Vec<NodeId> = Vec::new();
        for k in it: self.nodes.keys()
            invariant
                it.seq().unref() == keys,
                keys.to_set() == self.nodes@.dom(),
                out@.to_set() == keys.take(it.index()).to_set(),
                strictly_increasing(out@),
        {
            let ghost idx = it.index();
            assert(*k == keys[idx]);
            insert_sorted(&mut out, *k);
            assert(keys.take(idx + 1) =~= keys.take(idx).push(*k));
            proof {
                keys.take(idx).lemma_push_to_set_commute(*k);
            }
        }
        assert(keys.take(keys.len() as int) =~= keys);
        out
    }

    /// Identifiers of all stored splits, in increasing order.
    #[must_use]
    pub fn split_ids(&self) -> (r: Vec<NodeId>)
        ensures
            forall|k: NodeId| r@.contains(k) <==> is_split_at(self.nodes@, k),
            strictly_increasing(r@),
    {
        let all = self.node_ids();
        let mut out: Vec<NodeId> = Vec::new();
        let mut i: usize = 0;
        while i < all.len()
            invariant
                i <= all.len(),
                all@.to_set() == self.nodes@.dom(),
                strictly_increasing(all@),
                strictly_increasing(out@),
                forall|p: int| 0 <= p < out@.len() ==> is_split_at(self.nodes@, #[trigger] out@[p]),
                forall|p: int| 0 <= p < out@.len() ==> exists|j: int| 0 <= j < i && all@[j] == #[trigger] out@[p],
                forall|j: int| 0 <= j < i && is_split_at(self.nodes@, #[trigger] all@[j]) ==> out@.contains(all@[j]),
            decreases all.len() - i,
        {
            let id = all[i];
            if self.is_split(id) {
                let ghost o0 = out@;
                proof {
                    assert forall|p: int| 0 <= p < o0.len() implies o0[p] < id by {
                        let j = choose|j: int| 0 <= j < i && all@[j] == o0[p];
                    }
                }
                out.push(id);
                proof {
                    assert(out@ == o0.push(id));
                    assert forall|j: int| 0 <= j < i + 1 && is_split_at(self.nodes@, #[trigger] all@[j]) implies out@.contains(all@[j]) by {
                        if j == i {
                            assert(out@[o0.len() as int] == id);
                        } else {
                            let p = o0.index_of(all@[j]);
                            assert(out@[p] == all@[j]);
                        }
                    }
                    assert forall|p: int| 0 <= p < out@.len() implies exists|j: int| 0 <= j < i + 1 && all@[j] == #[trigger] out@[p] by {
                        if p < o0.len() {
                            let j = choose|j: int| 0 <= j < i && all@[j] == o0[p];
                            assert(out@[p] == o0[p]);
                        } else {
                            assert(all@[i as int] == out@[p]);
                        }
                    }
                }
            }
            i = i + 1;
        }
        proof {
            assert forall|k: NodeId| out@.contains(k) <==> is_split_at(self.nodes@, k) by {
                if is_split_at(self.nodes@, k) {
                    assert(all@.to_set().contains(k));
                    let j = all@.index_of(k);
                    assert(all@[j] == k);
                }
                if out@.contains(k) {
                    let p = out@.index_of(k);
                    assert(out@[p] == k);
                }
            }
        }
        out
    }
}

} // verus!
