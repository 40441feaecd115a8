use vstd::prelude::*;

use crate::geom::{Axis, Slot};
use crate::ids::NodeId;
use crate::limits::{canonicalize_weights, spec_canonical, WeightPair};
use crate::error::OpError;
use crate::session::{is_leaf_at, lemma_repair_valid, Session};
use crate::tree::{
    has_shape, is_split_at, map_replace_child, map_set_parent, node_parent, node_valid, parents_ok,
    shape_of, split_of, tree_ok, with_parent, Node, Shape, SplitNode, Tree,
};
use crate::tree_links::{depth_rank, lemma_links_to_tree, lemma_rank_bound, lemma_subtree_closed, lemma_tree_to_links, links_ok};

verus! {

broadcast use vstd::std_specs::hash::group_hash_axioms;

/// Recursive halving: each split divides its leaves into two halves (the
/// first one larger when odd), with weights in proportion to the halves.
#[derive(Debug, Clone, Copy, PartialEq, Eq, Structural)]
pub struct BalancedPreset {
    pub start_axis: Axis,
    pub alternate: bool,
}

/// A spiral: each split separates one leaf from the rest, alternating axes.
#[derive(Debug, Clone, Copy, PartialEq, Eq, Structural)]
pub struct DwindlePreset {
    pub start_axis: Axis,
    pub new_leaf_slot: Slot,
}

/// A master leaf beside a vertical stack of the others.
#[derive(Debug, Clone, Copy, PartialEq, Eq, Structural)]
pub struct TallPreset {
    pub master_slot: Slot,
    pub root_weights: WeightPair,
}

/// A master leaf above or below a horizontal row of the others.
#[derive(Debug, Clone, Copy, PartialEq, Eq, Structural)]
pub struct WidePreset {
    pub master_slot: Slot,
    pub root_weights: WeightPair,
}

/// A layout that `apply_preset` rebuilds a subtree into.
#[derive(Debug, Clone, Copy, PartialEq, Eq, Structural)]
pub enum PresetKind {
    Balanced(BalancedPreset),
    Dwindle(DwindlePreset),
    Tall(TallPreset),
    Wide(WidePreset),
}

/// `m` holds a leaf at `id`.
pub open spec fn leaf_at<T>(m: Map<NodeId, Node<T>>, id: NodeId) -> bool {
    m.contains_key(id) && m[id] is Leaf
}

/// Size of the first half when `n` leaves are halved.
pub open spec fn half(n: int) -> int {
    (n + 1) / 2
}

/// The axis of the next level of a balanced layout.
pub open spec fn next_axis(axis: Axis, alternate: bool) -> Axis {
    if alternate {
        axis.spec_toggled()
    } else {
        axis
    }
}

/// The subtree below `id` is the balanced layout of `ls` starting along `axis`.
pub open spec fn is_balanced<T>(m: Map<NodeId, Node<T>>, id: NodeId, ls: Seq<NodeId>, axis: Axis, alternate: bool) -> bool
    decreases ls.len(),
{
    if ls.len() == 0 {
        false
    } else if ls.len() == 1 {
        leaf_at(m, id) && id == ls[0]
    } else {
        let h = half(ls.len() as int);
        let sn = split_of(m[id]);
        &&& is_split_at(m, id)
        &&& sn.axis == axis
        &&& sn.weights == spec_canonical(h as u32, (ls.len() - h) as u32)
        &&& is_balanced(m, sn.a, ls.take(h), next_axis(axis, alternate), alternate)
        &&& is_balanced(m, sn.b, ls.skip(h), next_axis(axis, alternate), alternate)
    }
}

/// The subtree below `id` is the dwindle layout of `ls`: a split along `axis`
/// with equal weights holds the first leaf opposite `slot` and, in `slot`, the
/// dwindle layout of the rest along the toggled axis.
pub open spec fn is_dwindle<T>(m: Map<NodeId, Node<T>>, id: NodeId, ls: Seq<NodeId>, axis: Axis, slot: Slot) -> bool
    decreases ls.len(),
{
    if ls.len() == 0 {
        false
    } else if ls.len() == 1 {
        leaf_at(m, id) && id == ls[0]
    } else {
        let sn = split_of(m[id]);
        &&& is_split_at(m, id)
        &&& sn.axis == axis
        &&& sn.weights == (WeightPair { a: 1, b: 1 })
        &&& match slot {
            Slot::A => sn.b == ls[0] && leaf_at(m, sn.b) && is_dwindle(
                m,
                sn.a,
                ls.skip(1),
                axis.spec_toggled(),
                slot,
            ),
            Slot::B => sn.a == ls[0] && leaf_at(m, sn.a) && is_dwindle(
                m,
                sn.b,
                ls.skip(1),
                axis.spec_toggled(),
                slot,
            ),
        }
    }
}

/// The subtree below `id` lines up the leaves of `ls` along `axis` with equal
/// space: each split holds the next leaf first, weighted one to the rest.
pub open spec fn is_equal_linear<T>(m: Map<NodeId, Node<T>>, id: NodeId, ls: Seq<NodeId>, axis: Axis) -> bool
    decreases ls.len(),
{
    if ls.len() == 0 {
        false
    } else if ls.len() == 1 {
        leaf_at(m, id) && id == ls[0]
    } else {
        let sn = split_of(m[id]);
        &&& is_split_at(m, id)
        &&& sn.axis == axis
        &&& sn.weights == spec_canonical(1, (ls.len() - 1) as u32)
        &&& sn.a == ls[0]
        &&& leaf_at(m, sn.a)
        &&& is_equal_linear(m, sn.b, ls.skip(1), axis)
    }
}

/// The master-and-stack layout: the first leaf in slot `master_slot` of a
/// split along `split_axis` with weights `weights`, the others stacked along
/// `stack_axis`.
pub open spec fn is_master_stack<T>(
    m: Map<NodeId, Node<T>>,
    id: NodeId,
    ls: Seq<NodeId>,
    split_axis: Axis,
    stack_axis: Axis,
    master_slot: Slot,
    weights: WeightPair,
) -> bool {
    if ls.len() == 0 {
        false
    } else if ls.len() == 1 {
        leaf_at(m, id) && id == ls[0]
    } else {
        let sn = split_of(m[id]);
        &&& is_split_at(m, id)
        &&& sn.axis == split_axis
        &&& sn.weights == weights
        &&& match master_slot {
            Slot::A => sn.a == ls[0] && leaf_at(m, sn.a) && is_equal_linear(m, sn.b, ls.skip(1), stack_axis),
            Slot::B => sn.b == ls[0] && leaf_at(m, sn.b) && is_equal_linear(m, sn.a, ls.skip(1), stack_axis),
        }
    }
}

/// The subtree below `id` has the layout of `preset` over the leaves `ls`.
pub open spec fn is_preset_layout<T>(m: Map<NodeId, Node<T>>, id: NodeId, ls: Seq<NodeId>, preset: PresetKind) -> bool {
    match preset {
        PresetKind::Balanced(p) => is_balanced(m, id, ls, p.start_axis, p.alternate),
        PresetKind::Dwindle(p) => is_dwindle(m, id, ls, p.start_axis, p.new_leaf_slot),
        PresetKind::Tall(p) => is_master_stack(m, id, ls, Axis::X, Axis::Y, p.master_slot, p.root_weights),
        PresetKind::Wide(p) => is_master_stack(m, id, ls, Axis::Y, Axis::X, p.master_slot, p.root_weights),
    }
}

/// Weights compare equal field by field.
fn same_weights(x: WeightPair, y: WeightPair) -> (r: bool)
    ensures
        r == (x == y),
{
    x.a == y.a && x.b == y.b
}

fn matches_balanced<T>(tree: &Tree<T>, id: NodeId, leaves: &Vec<NodeId>, lo: usize, hi: usize, preset: BalancedPreset) -> (r: bool)
    requires
        lo <= hi <= leaves@.len(),
        hi - lo <= u32::MAX,
    ensures
        r == is_balanced(tree.nodes@, id, leaves@.subrange(lo as int, hi as int), preset.start_axis, preset.alternate),
    decreases hi - lo,
{
    let ghost ls = leaves@.subrange(lo as int, hi as int);
    if lo == hi {
        return false;
    }
    if hi - lo == 1 {
        return tree.is_leaf(id) && id == leaves[lo];
    }
    let split = match tree.split(id) {
        Some(s) => s,
        None => return false,
    };
    if split.axis != preset.start_axis {
        return false;
    }
    let n = hi - lo;
    let mid = n / 2 + n % 2;
    if !same_weights(split.weights, canonicalize_weights(mid as u32, (n - mid) as u32)) {
        return false;
    }
    let next = BalancedPreset {
        start_axis: if preset.alternate {
            preset.start_axis.toggled()
        } else {
            preset.start_axis
        },
        alternate: preset.alternate,
    };
    assert(leaves@.subrange(lo as int, (lo + mid) as int) =~= ls.take(mid as int));
    assert(leaves@.subrange((lo + mid) as int, hi as int) =~= ls.skip(mid as int));
    matches_balanced(tree, split.a, leaves, lo, lo + mid, next) && matches_balanced(
        tree,
        split.b,
        leaves,
        lo + mid,
        hi,
        next,
    )
}

fn matches_dwindle<T>(tree: &Tree<T>, id: NodeId, leaves: &Vec<NodeId>, lo: usize, hi: usize, axis: Axis, slot: Slot) -> (r: bool)
    requires
        lo <= hi <= leaves@.len(),
    ensures
        r == is_dwindle(tree.nodes@, id, leaves@.subrange(lo as int, hi as int), axis, slot),
    decreases hi - lo,
{
    let ghost ls = leaves@.subrange(lo as int, hi as int);
    if lo == hi {
        return false;
    }
    if hi - lo == 1 {
        return tree.is_leaf(id) && id == leaves[lo];
    }
    let split = match tree.split(id) {
        Some(s) => s,
        None => return false,
    };
    if split.axis != axis || !same_weights(split.weights, WeightPair::default()) {
        return false;
    }
    assert(leaves@.subrange((lo + 1) as int, hi as int) =~= ls.skip(1));
    match slot {
        Slot::A => split.b == leaves[lo] && tree.is_leaf(split.b) && matches_dwindle(
            tree,
            split.a,
            leaves,
            lo + 1,
            hi,
            axis.toggled(),
            slot,
        ),
        Slot::B => split.a == leaves[lo] && tree.is_leaf(split.a) && matches_dwindle(
            tree,
            split.b,
            leaves,
            lo + 1,
            hi,
            axis.toggled(),
            slot,
        ),
    }
}

fn matches_equal_linear<T>(tree: &Tree<T>, id: NodeId, leaves: &Vec<NodeId>, lo: usize, hi: usize, axis: Axis) -> (r: bool)
    requires
        lo <= hi <= leaves@.len(),
        hi - lo <= u32::MAX,
    ensures
        r == is_equal_linear(tree.nodes@, id, leaves@.subrange(lo as int, hi as int), axis),
    decreases hi - lo,
{
    let ghost ls = leaves@.subrange(lo as int, hi as int);
    if lo == hi {
        return false;
    }
    if hi - lo == 1 {
        return tree.is_leaf(id) && id == leaves[lo];
    }
    let split = match tree.split(id) {
        Some(s) => s,
        None => return false,
    };
    assert(leaves@.subrange((lo + 1) as int, hi as int) =~= ls.skip(1));
    split.axis == axis && same_weights(split.weights, canonicalize_weights(1, (hi - lo - 1) as u32))
        && split.a == leaves[lo] && tree.is_leaf(split.a) && matches_equal_linear(
        tree,
        split.b,
        leaves,
        lo + 1,
        hi,
        axis,
    )
}

fn matches_master_stack<T>(
    tree: &Tree<T>,
    id: NodeId,
    leaves: &Vec<NodeId>,
    split_axis: Axis,
    stack_axis: Axis,
    master_slot: Slot,
    weights: WeightPair,
) -> (r: bool)
    requires
        leaves@.len() <= u32::MAX,
    ensures
        r == is_master_stack(tree.nodes@, id, leaves@, split_axis, stack_axis, master_slot, weights),
{
    let n = leaves.len();
    if n == 0 {
        return false;
    }
    if n == 1 {
        return tree.is_leaf(id) && id == leaves[0];
    }
    let split = match tree.split(id) {
        Some(s) => s,
        None => return false,
    };
    if split.axis != split_axis || !same_weights(split.weights, weights) {
        return false;
    }
    assert(leaves@.subrange(1, n as int) =~= leaves@.skip(1));
    match master_slot {
        Slot::A => split.a == leaves[0] && tree.is_leaf(split.a) && matches_equal_linear(
            tree,
            split.b,
            leaves,
            1,
            n,
            stack_axis,
        ),
        Slot::B => split.b == leaves[0] && tree.is_leaf(split.b) && matches_equal_linear(
            tree,
            split.a,
            leaves,
            1,
            n,
            stack_axis,
        ),
    }
}

/// The subtree below `root` already has the layout of `preset` over its own
/// leaves.
pub(crate) fn subtree_matches_preset<T>(tree: &Tree<T>, root: NodeId, leaves: &Vec<NodeId>, preset: PresetKind) -> (r: bool)
    requires
        leaves@.len() <= u32::MAX,
    ensures
        r == is_preset_layout(tree.nodes@, root, leaves@, preset),
{
    let n = leaves.len();
    assert(leaves@.subrange(0, n as int) =~= leaves@);
    match preset {
        PresetKind::Balanced(p) => matches_balanced(tree, root, leaves, 0, n, p),
        PresetKind::Dwindle(p) => matches_dwindle(tree, root, leaves, 0, n, p.start_axis, p.new_leaf_slot),
        PresetKind::Tall(p) => matches_master_stack(tree, root, leaves, Axis::X, Axis::Y, p.master_slot, p.root_weights),
        PresetKind::Wide(p) => matches_master_stack(tree, root, leaves, Axis::Y, Axis::X, p.master_slot, p.root_weights),
    }
}


/// The leaves `ls` can be built into a subtree of `m`: at least one, no
/// repeats, all stored valid leaves, every stored identifier below `n0`, and
/// room for the new identifiers.
pub open spec fn buildable<T>(m: Map<NodeId, Node<T>>, n0: nat, ls: Seq<NodeId>) -> bool {
    &&& ls.len() >= 1
    &&& ls.no_duplicates()
    &&& forall|i: int| 0 <= i < ls.len() ==> leaf_at(m, #[trigger] ls[i]) && node_valid(m[ls[i]])
    &&& forall|k: NodeId| #[trigger] m.contains_key(k) ==> k < n0
    &&& n0 + ls.len() <= u64::MAX
}

/// `m1` arises from `m0` by building the leaves `ls` into a subtree with top
/// `r` and shape `sh`, whose splits are exactly the new identifiers `n0..n1`;
/// only the leaves' parent links and the new splits differ from `m0`.
pub open spec fn built<T>(m0: Map<NodeId, Node<T>>, m1: Map<NodeId, Node<T>>, n0: nat, n1: nat, ls: Seq<NodeId>, r: NodeId, sh: Shape) -> bool {
    &&& has_shape(m1, r, sh)
    &&& sh.distinct()
    &&& forall|k: NodeId| #[trigger] sh.ids().contains(k) <==> (ls.contains(k) || (n0 <= k < n1))
    &&& n0 <= n1
    &&& n1 == n0 + ls.len() - 1
    &&& forall|k: NodeId| #[trigger] m1.contains_key(k) <==> (m0.contains_key(k) || (n0 <= k < n1))
    &&& forall|k: NodeId| #[trigger] m0.contains_key(k) && !ls.contains(k) ==> m1[k] == m0[k]
    &&& forall|k: NodeId| #[trigger] ls.contains(k) ==> m1[k] == with_parent(m0[k], node_parent(m1[k]))
    &&& parents_ok(m1, sh, node_parent(m1[r]))
    &&& forall|k: NodeId| #[trigger] sh.ids().contains(k) ==> node_valid(m1[k])
    &&& (ls.len() > 1 ==> node_parent(m1[r]) is None && n0 <= r < n1)
    &&& (ls.len() == 1 ==> r == ls[0] && m1 == m0)
}

/// The node map after `new_internal_split` joins `a` and `b` under `sid`.
pub open spec fn join_map<T>(m: Map<NodeId, Node<T>>, sid: NodeId, axis: Axis, a: NodeId, b: NodeId, w: WeightPair) -> Map<NodeId, Node<T>> {
    map_set_parent(
        map_set_parent(m.insert(sid, Node::Split(SplitNode { parent: None, axis, a, b, weights: w })), a, Some(sid)),
        b,
        Some(sid),
    )
}

/// Stores a new split over `a` and `b` and makes it their parent.
fn new_internal_split<T>(tree: &mut Tree<T>, axis: Axis, a: NodeId, b: NodeId, weights: WeightPair) -> (r: NodeId)
    requires
        old(tree).next_id < u64::MAX,
        old(tree).nodes@.contains_key(a),
        old(tree).nodes@.contains_key(b),
    ensures
        r == old(tree).next_id,
        final(tree).next_id == old(tree).next_id + 1,
        final(tree).root == old(tree).root,
        final(tree).nodes@ == join_map(old(tree).nodes@, r, axis, a, b, weights),
{
    let split_id = tree.new_split(axis, a, b, weights);
    tree.set_parent(a, Some(split_id));
    tree.set_parent(b, Some(split_id));
    split_id
}

/// A single leaf is built by doing nothing.
proof fn lemma_single_built<T>(m: Map<NodeId, Node<T>>, n: nat, leaf: NodeId)
    requires
        leaf_at(m, leaf),
        node_valid(m[leaf]),
    ensures
        built(m, m, n, n, seq![leaf], leaf, Shape::Tip(leaf)),
{
    assert forall|k: NodeId| #[trigger] Shape::Tip(leaf).ids().contains(k) <==> (seq![leaf].contains(k) || (n <= k < n)) by {
        if k == leaf {
            assert(seq![leaf][0] == k);
        }
    }
    assert forall|k: NodeId| #[trigger] seq![leaf].contains(k) implies m[k] == with_parent(m[k], node_parent(m[k])) by {
        assert(k == leaf);
    }
}

/// Shapes only read split markers and child links, which parent rewrites keep.
proof fn lemma_shape_mod_parent<T>(m1: Map<NodeId, Node<T>>, m2: Map<NodeId, Node<T>>, id: NodeId, s: Shape)
    requires
        has_shape(m1, id, s),
        agree_mod_parent(m1, m2, s.ids()),
    ensures
        has_shape(m2, id, s),
    decreases s,
{
    match s {
        Shape::Tip(i) => {
            assert(s.ids().contains(i));
        },
        Shape::Fork(i, l, r) => {
            assert(s.ids().contains(i));
            assert forall|k: NodeId| #[trigger] l.ids().contains(k) implies (m1.contains_key(k) <==> m2.contains_key(k))
                && (m1.contains_key(k) ==> with_parent(m1[k], None) == with_parent(m2[k], None)) by {
                assert(s.ids().contains(k));
            }
            assert forall|k: NodeId| #[trigger] r.ids().contains(k) implies (m1.contains_key(k) <==> m2.contains_key(k))
                && (m1.contains_key(k) ==> with_parent(m1[k], None) == with_parent(m2[k], None)) by {
                assert(s.ids().contains(k));
            }
            lemma_shape_mod_parent(m1, m2, split_of(m1[id]).a, *l);
            lemma_shape_mod_parent(m1, m2, split_of(m1[id]).b, *r);
        },
    }
}

/// Parent links below the top carry over to a map that keeps them; the top
/// may get a new parent.
proof fn lemma_parents_frame<T>(m1: Map<NodeId, Node<T>>, m2: Map<NodeId, Node<T>>, s: Shape, p1: Option<NodeId>, p2: Option<NodeId>)
    requires
        parents_ok(m1, s, p1),
        m2.contains_key(s.id()),
        node_parent(m2[s.id()]) == p2,
        forall|k: NodeId| #[trigger] s.ids().contains(k) && k != s.id() ==> m2.contains_key(k) && node_parent(m2[k])
            == node_parent(m1[k]),
        s.distinct(),
    ensures
        parents_ok(m2, s, p2),
    decreases s,
{
    match s {
        Shape::Tip(_) => {},
        Shape::Fork(i, l, r) => {
            lemma_top_in(*l);
            lemma_top_in(*r);
            assert(s.ids().contains(l.id()) && l.id() != i);
            assert(s.ids().contains(r.id()) && r.id() != i);
            assert forall|k: NodeId| #[trigger] l.ids().contains(k) && k != l.id() implies m2.contains_key(k)
                && node_parent(m2[k]) == node_parent(m1[k]) by {
                assert(s.ids().contains(k));
            }
            assert forall|k: NodeId| #[trigger] r.ids().contains(k) && k != r.id() implies m2.contains_key(k)
                && node_parent(m2[k]) == node_parent(m1[k]) by {
                assert(s.ids().contains(k));
            }
            lemma_parents_frame(m1, m2, *l, Some(i), Some(i));
            lemma_parents_frame(m1, m2, *r, Some(i), Some(i));
        },
    }
}

/// The top of a shape is one of its identifiers.
proof fn lemma_top_in(s: Shape)
    ensures
        s.ids().contains(s.id()),
{
}

/// Rewriting a parent twice keeps the last rewrite.
proof fn lemma_with_parent_twice<T>(n: Node<T>, p1: Option<NodeId>, p2: Option<NodeId>)
    ensures
        with_parent(with_parent(n, p1), p2) == with_parent(n, p2),
        node_valid(with_parent(n, p1)) == node_valid(n),
        with_parent(with_parent(n, p1), None) == with_parent(n, None),
        node_parent(with_parent(n, p1)) == p1,
        (with_parent(n, p1) is Split) == (n is Split),
{
}

/// Two subtrees built one after the other, joined under a new split `sid`
/// with valid weights, form a built subtree over all their leaves.
#[verifier::rlimit(80)]
proof fn lemma_join<T>(
    m0: Map<NodeId, Node<T>>,
    m1: Map<NodeId, Node<T>>,
    m2: Map<NodeId, Node<T>>,
    n0: nat,
    n1: nat,
    n2: nat,
    l1: Seq<NodeId>,
    l2: Seq<NodeId>,
    x1: NodeId,
    x2: NodeId,
    sh1: Shape,
    sh2: Shape,
    ls: Seq<NodeId>,
    axis: Axis,
    w: WeightPair,
    first_in_a: bool,
)
    requires
        buildable(m0, n0, ls),
        ls == l1 + l2 || ls == l2 + l1,
        l1.len() >= 1,
        l2.len() >= 1,
        built(m0, m1, n0, n1, l1, x1, sh1),
        built(m1, m2, n1, n2, l2, x2, sh2),
        w.spec_valid(),
    ensures
        n2 < u64::MAX,
        ({
            let sid = n2 as NodeId;
            let (a, b) = if first_in_a {
                (x1, x2)
            } else {
                (x2, x1)
            };
            let (sha, shb) = if first_in_a {
                (sh1, sh2)
            } else {
                (sh2, sh1)
            };
            let m3 = join_map(m2, sid, axis, a, b, w);
            &&& m2.contains_key(a)
            &&& m2.contains_key(b)
            &&& built(m0, m3, n0, n2 + 1, ls, sid, Shape::Fork(sid, Box::new(sha), Box::new(shb)))
            &&& agree_mod_parent(m1, m3, sh1.ids())
            &&& agree_mod_parent(m2, m3, sh2.ids())
        }),
{
    let sid = n2 as NodeId;
    let (a, b) = if first_in_a {
        (x1, x2)
    } else {
        (x2, x1)
    };
    let (sha, shb) = if first_in_a {
        (sh1, sh2)
    } else {
        (sh2, sh1)
    };
    let m3 = join_map(m2, sid, axis, a, b, w);
    let sh = Shape::Fork(sid, Box::new(sha), Box::new(shb));
    crate::tree::lemma_shape_id(m1, x1, sh1);
    crate::tree::lemma_shape_id(m2, x2, sh2);
    // The two leaf parts are disjoint parts of `ls`.
    assert forall|k: NodeId| #[trigger] ls.contains(k) <==> (l1.contains(k) || l2.contains(k)) by {
        if ls == l1 + l2 {
            if ls.contains(k) {
                let i = choose|i: int| 0 <= i < ls.len() && ls[i] == k;
                if i < l1.len() {
                    assert(l1[i] == k);
                } else {
                    assert(l2[i - l1.len()] == k);
                }
            }
            if l1.contains(k) {
                let i = choose|i: int| 0 <= i < l1.len() && l1[i] == k;
                assert(ls[i] == k);
            }
            if l2.contains(k) {
                let i = choose|i: int| 0 <= i < l2.len() && l2[i] == k;
                assert(ls[l1.len() + i] == k);
            }
        } else {
            if ls.contains(k) {
                let i = choose|i: int| 0 <= i < ls.len() && ls[i] == k;
                if i < l2.len() {
                    assert(l2[i] == k);
                } else {
                    assert(l1[i - l2.len()] == k);
                }
            }
            if l2.contains(k) {
                let i = choose|i: int| 0 <= i < l2.len() && l2[i] == k;
                assert(ls[i] == k);
            }
            if l1.contains(k) {
                let i = choose|i: int| 0 <= i < l1.len() && l1[i] == k;
                assert(ls[l2.len() + i] == k);
            }
        }
    }
    assert forall|k: NodeId| l1.contains(k) implies !l2.contains(k) by {
        if l2.contains(k) {
            let i = choose|i: int| 0 <= i < l1.len() && l1[i] == k;
            let j = choose|j: int| 0 <= j < l2.len() && l2[j] == k;
            if ls == l1 + l2 {
                assert(ls[i] == ls[l1.len() + j]);
            } else {
                assert(ls[l2.len() + i] == ls[j]);
            }
        }
    }
    assert forall|k: NodeId| #[trigger] ls.contains(k) implies m0.contains_key(k) && k < n0 by {
        let i = choose|i: int| 0 <= i < ls.len() && ls[i] == k;
        assert(leaf_at(m0, ls[i]));
    }
    assert(n2 < u64::MAX);
    assert(sh1.ids().disjoint(sh2.ids())) by {
        assert forall|k: NodeId| sh1.ids().contains(k) implies !sh2.ids().contains(k) by {
            if l1.contains(k) {
                assert(ls.contains(k));
            }
            if l2.contains(k) {
                assert(ls.contains(k));
            }
        }
    }
    assert(!sh1.ids().contains(sid) && !sh2.ids().contains(sid)) by {
        if l1.contains(sid) {
            assert(ls.contains(sid));
        }
        if l2.contains(sid) {
            assert(ls.contains(sid));
        }
    }
    assert(sh1.ids().contains(x1) && sh2.ids().contains(x2));
    assert(x1 != x2);
    assert(m1.contains_key(x1));
    assert(m2.contains_key(x1) && m2.contains_key(x2));
    assert(!m2.contains_key(sid));
    // The parts survive the second build and the join, up to parent links of
    // their tops.
    assert(agree_mod_parent(m1, m2, sh1.ids())) by {
        assert forall|k: NodeId| #[trigger] sh1.ids().contains(k) implies (m1.contains_key(k) <==> m2.contains_key(k))
            && (m1.contains_key(k) ==> with_parent(m1[k], None) == with_parent(m2[k], None)) by {
            if l2.contains(k) {
                assert(ls.contains(k));
            }
            if m1.contains_key(k) && l2.contains(k) {
                lemma_with_parent_twice(m1[k], node_parent(m2[k]), None);
            }
        }
    }
    assert forall|k: NodeId| #[trigger] m2.contains_key(k) && k != a && k != b implies m3[k] == m2[k] && k != sid by {}
    assert forall|k: NodeId| #[trigger] m2.contains_key(k) && (k == a || k == b) implies m3[k] == with_parent(
        m2[k],
        Some(sid),
    ) by {
        if k == a && k != b {
            lemma_with_parent_twice(m2[k], Some(sid), Some(sid));
        }
    }
    assert(agree_mod_parent(m1, m3, sh1.ids())) by {
        assert forall|k: NodeId| #[trigger] sh1.ids().contains(k) implies (m1.contains_key(k) <==> m3.contains_key(k))
            && (m1.contains_key(k) ==> with_parent(m1[k], None) == with_parent(m3[k], None)) by {
            if m1.contains_key(k) {
                assert(m2.contains_key(k));
                if k == a || k == b {
                    lemma_with_parent_twice(m2[k], Some(sid), None);
                }
            }
        }
    }
    assert(agree_mod_parent(m2, m3, sh2.ids())) by {
        assert forall|k: NodeId| #[trigger] sh2.ids().contains(k) implies (m2.contains_key(k) <==> m3.contains_key(k))
            && (m2.contains_key(k) ==> with_parent(m2[k], None) == with_parent(m3[k], None)) by {
            if m2.contains_key(k) && (k == a || k == b) {
                lemma_with_parent_twice(m2[k], Some(sid), None);
            }
        }
    }
    // Shape.
    lemma_shape_mod_parent(m1, m3, x1, sh1);
    lemma_shape_mod_parent(m2, m3, x2, sh2);
    assert(m3[sid] == Node::<T>::Split(SplitNode { parent: None, axis, a, b, weights: w }));
    assert(has_shape(m3, sid, sh));
    // Parent links.
    assert forall|k: NodeId| #[trigger] sh1.ids().contains(k) implies m1.contains_key(k) && !l2.contains(k) && k != x2
        && k != sid by {
        if l1.contains(k) {
            assert(ls.contains(k));
        }
    }
    assert forall|k: NodeId| #[trigger] sh1.ids().contains(k) && k != sh1.id() implies m3.contains_key(k)
        && node_parent(m3[k]) == node_parent(m1[k]) by {
        assert(m1.contains_key(k) && !l2.contains(k) && k != x2 && k != sid);
        assert(m2[k] == m1[k]);
        assert(m3[k] == m2[k]);
    }
    lemma_parents_frame(m1, m3, sh1, node_parent(m1[x1]), Some(sid));
    assert forall|k: NodeId| #[trigger] sh2.ids().contains(k) implies m2.contains_key(k) && k != x1 && k != sid by {
        if l2.contains(k) {
            assert(ls.contains(k));
        }
    }
    assert forall|k: NodeId| #[trigger] sh2.ids().contains(k) && k != sh2.id() implies m3.contains_key(k)
        && node_parent(m3[k]) == node_parent(m2[k]) by {
        assert(m2.contains_key(k) && k != x1 && k != sid);
        assert(m3[k] == m2[k]);
    }
    lemma_parents_frame(m2, m3, sh2, node_parent(m2[x2]), Some(sid));
    assert(parents_ok(m3, sh, None));
    // Identifiers.
    assert forall|k: NodeId| #[trigger] sh.ids().contains(k) <==> (ls.contains(k) || (n0 <= k < n2 + 1)) by {
        if n0 <= k < n2 + 1 {
            if k < n1 {
                assert(sh1.ids().contains(k));
            } else if k < n2 {
                assert(sh2.ids().contains(k));
            }
        }
    }
    // Validity.
    assert forall|k: NodeId| #[trigger] sh.ids().contains(k) implies node_valid(m3[k]) by {
        if k != sid {
            if sh1.ids().contains(k) {
                assert(node_valid(m1[k]));
                assert(m2[k] == m1[k] || m2[k] == with_parent(m1[k], node_parent(m2[k]))) by {
                    if l2.contains(k) {
                        assert(ls.contains(k));
                    }
                }
                lemma_with_parent_twice(m1[k], node_parent(m2[k]), Some(sid));
                lemma_with_parent_twice(m2[k], Some(sid), Some(sid));
            } else {
                assert(node_valid(m2[k]));
                lemma_with_parent_twice(m2[k], Some(sid), Some(sid));
            }
        }
    }
    // The rest of the map.
    assert forall|k: NodeId| #[trigger] m0.contains_key(k) && !ls.contains(k) implies m3[k] == m0[k] by {
        assert(!l1.contains(k) && !l2.contains(k));
        assert(k < n0);
        assert(k != x1) by {
            if k == x1 {
                assert(sh1.ids().contains(x1));
            }
        }
        assert(k != x2) by {
            if k == x2 {
                assert(sh2.ids().contains(x2));
            }
        }
        assert(m1[k] == m0[k]);
        assert(m1.contains_key(k));
        assert(m2[k] == m1[k]);
        assert(m3[k] == m2[k]);
    }
    assert forall|k: NodeId| #[trigger] ls.contains(k) implies m3[k] == with_parent(m0[k], node_parent(m3[k])) by {
        assert(m0.contains_key(k) && k < n0);
        assert(k != sid);
        if l1.contains(k) {
            assert(!l2.contains(k));
            assert(m1.contains_key(k));
            assert(m1[k] == with_parent(m0[k], node_parent(m1[k])));
            assert(m2[k] == m1[k]);
            if k == a || k == b {
                assert(m3[k] == with_parent(m2[k], Some(sid)));
                lemma_with_parent_twice(m0[k], node_parent(m1[k]), Some(sid));
            } else {
                assert(m3[k] == m2[k]);
                lemma_with_parent_twice(m0[k], node_parent(m1[k]), node_parent(m1[k]));
            }
        } else {
            assert(l2.contains(k));
            assert(m1.contains_key(k) && !l1.contains(k));
            assert(m1[k] == m0[k]);
            assert(m2[k] == with_parent(m1[k], node_parent(m2[k])));
            if k == a || k == b {
                assert(m3[k] == with_parent(m2[k], Some(sid)));
                lemma_with_parent_twice(m1[k], node_parent(m2[k]), Some(sid));
            } else {
                assert(m3[k] == m2[k]);
                lemma_with_parent_twice(m1[k], node_parent(m2[k]), node_parent(m2[k]));
            }
        }
    }
}

/// Two maps agree on the nodes of `ids` except, possibly, their parent links.
pub open spec fn agree_mod_parent<T>(m1: Map<NodeId, Node<T>>, m2: Map<NodeId, Node<T>>, ids: Set<NodeId>) -> bool {
    forall|k: NodeId| #[trigger] ids.contains(k) ==> (m1.contains_key(k) <==> m2.contains_key(k)) && (m1.contains_key(k)
        ==> with_parent(m1[k], None) == with_parent(m2[k], None))
}


/// Nodes that agree up to parent links agree on being a leaf, being a split,
/// and on a split's axis, children and weights.
proof fn lemma_agree_node<T>(m1: Map<NodeId, Node<T>>, m2: Map<NodeId, Node<T>>, ids: Set<NodeId>, k: NodeId)
    requires
        agree_mod_parent(m1, m2, ids),
        ids.contains(k),
    ensures
        leaf_at(m1, k) == leaf_at(m2, k),
        is_split_at(m1, k) == is_split_at(m2, k),
        is_split_at(m1, k) ==> split_of(m1[k]).a == split_of(m2[k]).a && split_of(m1[k]).b == split_of(m2[k]).b
            && split_of(m1[k]).axis == split_of(m2[k]).axis && split_of(m1[k]).weights == split_of(m2[k]).weights,
{
}

proof fn lemma_balanced_frame<T>(m1: Map<NodeId, Node<T>>, m2: Map<NodeId, Node<T>>, id: NodeId, s: Shape, ls: Seq<NodeId>, axis: Axis, alt: bool)
    requires
        has_shape(m1, id, s),
        agree_mod_parent(m1, m2, s.ids()),
    ensures
        is_balanced(m1, id, ls, axis, alt) == is_balanced(m2, id, ls, axis, alt),
    decreases ls.len(),
{
    lemma_top_in(s);
    crate::tree::lemma_shape_id(m1, id, s);
    lemma_agree_node(m1, m2, s.ids(), id);
    if ls.len() > 1 && is_split_at(m1, id) {
        let h = half(ls.len() as int);
        let sn = split_of(m1[id]);
        lemma_sub_agree(m1, m2, s);
        lemma_balanced_frame(m1, m2, sn.a, s.left(), ls.take(h), next_axis(axis, alt), alt);
        lemma_balanced_frame(m1, m2, sn.b, s.right(), ls.skip(h), next_axis(axis, alt), alt);
    }
}

/// Agreement on a fork's identifiers gives agreement on its branches'.
proof fn lemma_sub_agree<T>(m1: Map<NodeId, Node<T>>, m2: Map<NodeId, Node<T>>, s: Shape)
    requires
        agree_mod_parent(m1, m2, s.ids()),
    ensures
        agree_mod_parent(m1, m2, s.left().ids()),
        agree_mod_parent(m1, m2, s.right().ids()),
{
    match s {
        Shape::Tip(_) => {},
        Shape::Fork(i, l, r) => {
            assert forall|k: NodeId| #[trigger] l.ids().contains(k) implies (m1.contains_key(k) <==> m2.contains_key(k))
                && (m1.contains_key(k) ==> with_parent(m1[k], None) == with_parent(m2[k], None)) by {
                assert(s.ids().contains(k));
            }
            assert forall|k: NodeId| #[trigger] r.ids().contains(k) implies (m1.contains_key(k) <==> m2.contains_key(k))
                && (m1.contains_key(k) ==> with_parent(m1[k], None) == with_parent(m2[k], None)) by {
                assert(s.ids().contains(k));
            }
        },
    }
}

proof fn lemma_dwindle_frame<T>(m1: Map<NodeId, Node<T>>, m2: Map<NodeId, Node<T>>, id: NodeId, s: Shape, ls: Seq<NodeId>, axis: Axis, slot: Slot)
    requires
        has_shape(m1, id, s),
        agree_mod_parent(m1, m2, s.ids()),
    ensures
        is_dwindle(m1, id, ls, axis, slot) == is_dwindle(m2, id, ls, axis, slot),
    decreases ls.len(),
{
    lemma_top_in(s);
    crate::tree::lemma_shape_id(m1, id, s);
    lemma_agree_node(m1, m2, s.ids(), id);
    if ls.len() > 1 && is_split_at(m1, id) {
        let sn = split_of(m1[id]);
        lemma_sub_agree(m1, m2, s);
        lemma_top_in(s.left());
        lemma_top_in(s.right());
        crate::tree::lemma_shape_id(m1, sn.a, s.left());
        crate::tree::lemma_shape_id(m1, sn.b, s.right());
        lemma_agree_node(m1, m2, s.left().ids(), sn.a);
        lemma_agree_node(m1, m2, s.right().ids(), sn.b);
        lemma_dwindle_frame(m1, m2, sn.a, s.left(), ls.skip(1), axis.spec_toggled(), slot);
        lemma_dwindle_frame(m1, m2, sn.b, s.right(), ls.skip(1), axis.spec_toggled(), slot);
    }
}

proof fn lemma_linear_frame<T>(m1: Map<NodeId, Node<T>>, m2: Map<NodeId, Node<T>>, id: NodeId, s: Shape, ls: Seq<NodeId>, axis: Axis)
    requires
        has_shape(m1, id, s),
        agree_mod_parent(m1, m2, s.ids()),
    ensures
        is_equal_linear(m1, id, ls, axis) == is_equal_linear(m2, id, ls, axis),
    decreases ls.len(),
{
    lemma_top_in(s);
    crate::tree::lemma_shape_id(m1, id, s);
    lemma_agree_node(m1, m2, s.ids(), id);
    if ls.len() > 1 && is_split_at(m1, id) {
        let sn = split_of(m1[id]);
        lemma_sub_agree(m1, m2, s);
        lemma_top_in(s.left());
        crate::tree::lemma_shape_id(m1, sn.a, s.left());
        lemma_agree_node(m1, m2, s.left().ids(), sn.a);
        lemma_linear_frame(m1, m2, sn.b, s.right(), ls.skip(1), axis);
    }
}

/// A part of buildable leaves is buildable.
proof fn lemma_buildable_part<T>(m: Map<NodeId, Node<T>>, n0: nat, ls: Seq<NodeId>, lo: int, hi: int)
    requires
        buildable(m, n0, ls),
        0 <= lo < hi <= ls.len(),
    ensures
        buildable(m, n0, ls.subrange(lo, hi)),
{
    let part = ls.subrange(lo, hi);
    assert forall|i: int| 0 <= i < part.len() implies leaf_at(m, #[trigger] part[i]) && node_valid(m[part[i]]) by {
        assert(part[i] == ls[lo + i]);
    }
}

/// After building one part of buildable leaves, the rest is buildable.
proof fn lemma_buildable_after<T>(
    m0: Map<NodeId, Node<T>>,
    m1: Map<NodeId, Node<T>>,
    n0: nat,
    n1: nat,
    l1: Seq<NodeId>,
    l2: Seq<NodeId>,
    ls: Seq<NodeId>,
    x1: NodeId,
    sh1: Shape,
)
    requires
        buildable(m0, n0, ls),
        ls == l1 + l2 || ls == l2 + l1,
        l1.len() >= 1,
        l2.len() >= 1,
        built(m0, m1, n0, n1, l1, x1, sh1),
    ensures
        buildable(m1, n1, l2),
{
    assert forall|i: int| 0 <= i < l2.len() implies leaf_at(m1, #[trigger] l2[i]) && node_valid(m1[l2[i]]) by {
        let k = l2[i];
        if ls == l1 + l2 {
            assert(ls[l1.len() + i] == k);
            assert(leaf_at(m0, ls[l1.len() + i]));
            assert(!l1.contains(k)) by {
                if l1.contains(k) {
                    let j = choose|j: int| 0 <= j < l1.len() && l1[j] == k;
                    assert(ls[j] == k);
                }
            }
        } else {
            assert(ls[i] == k);
            assert(leaf_at(m0, ls[i]));
            assert(!l1.contains(k)) by {
                if l1.contains(k) {
                    let j = choose|j: int| 0 <= j < l1.len() && l1[j] == k;
                    assert(ls[l2.len() + j] == k);
                }
            }
        }
        assert(m1[k] == m0[k]);
    }
    assert forall|a: int, b: int| 0 <= a < b < l2.len() implies l2[a] != l2[b] by {
        if ls == l1 + l2 {
            assert(ls[l1.len() + a] == l2[a]);
            assert(ls[l1.len() + b] == l2[b]);
        } else {
            assert(ls[a] == l2[a]);
            assert(ls[b] == l2[b]);
        }
    }
}

fn build_balanced<T>(tree: &mut Tree<T>, leaves: &Vec<NodeId>, lo: usize, hi: usize, preset: BalancedPreset) -> (r: Result<NodeId, crate::error::OpError>)
    requires
        lo <= hi <= leaves@.len(),
        hi - lo <= u32::MAX,
        lo < hi ==> buildable(old(tree).nodes@, old(tree).next_id as nat, leaves@.subrange(lo as int, hi as int)),
    ensures
        final(tree).root == old(tree).root,
        lo == hi ==> r == Err::<NodeId, crate::error::OpError>(crate::error::OpError::Empty) && *final(tree) == *old(tree),
        lo < hi ==> (r matches Ok(x) && {
            let ls = leaves@.subrange(lo as int, hi as int);
            &&& built(old(tree).nodes@, final(tree).nodes@, old(tree).next_id as nat, final(tree).next_id as nat, ls, x, shape_of_built(final(tree).nodes@, x))
            &&& is_balanced(final(tree).nodes@, x, ls, preset.start_axis, preset.alternate)
            &&& shape_of_built(final(tree).nodes@, x).leaves() == ls
        }),
        hi - lo == 1 ==> r == Ok::<NodeId, crate::error::OpError>(leaves@[lo as int]) && *final(tree) == *old(tree),
    decreases hi - lo,
{
    let ghost ls = leaves@.subrange(lo as int, hi as int);
    let ghost m0 = tree.nodes@;
    let ghost n0 = tree.next_id as nat;
    if lo == hi {
        return Err(crate::error::OpError::Empty);
    }
    if hi - lo == 1 {
        proof {
            assert(ls[0] == leaves@[lo as int]);
            lemma_single_built(m0, n0, leaves@[lo as int]);
            assert(ls =~= seq![leaves@[lo as int]]);
            crate::tree::lemma_shape_of(m0, leaves@[lo as int], Shape::Tip(leaves@[lo as int]));
            assert(Shape::Tip(leaves@[lo as int]).leaves() =~= ls);
        }
        return Ok(leaves[lo]);
    }
    let n = hi - lo;
    let mid = n / 2 + n % 2;
    let next = BalancedPreset {
        start_axis: if preset.alternate {
            preset.start_axis.toggled()
        } else {
            preset.start_axis
        },
        alternate: preset.alternate,
    };
    let ghost la = leaves@.subrange(lo as int, (lo + mid) as int);
    let ghost lb = leaves@.subrange((lo + mid) as int, hi as int);
    proof {
        assert(la =~= ls.take(mid as int));
        assert(lb =~= ls.skip(mid as int));
        assert(ls =~= la + lb);
        lemma_buildable_part(m0, n0, ls, 0, mid as int);
        assert(ls.subrange(0, mid as int) =~= la);
    }
    let a = match build_balanced(tree, leaves, lo, lo + mid, next) {
        Ok(x) => x,
        Err(e) => return Err(e),
    };
    let ghost m1 = tree.nodes@;
    let ghost n1 = tree.next_id as nat;
    let ghost sha = shape_of_built(m1, a);
    proof {
        lemma_buildable_after(m0, m1, n0, n1, la, lb, ls, a, sha);
    }
    let b = match build_balanced(tree, leaves, lo + mid, hi, next) {
        Ok(x) => x,
        Err(e) => return Err(e),
    };
    let ghost m2 = tree.nodes@;
    let ghost n2 = tree.next_id as nat;
    let ghost shb = shape_of_built(m2, b);
    let w = canonicalize_weights(mid as u32, (n - mid) as u32);
    proof {
        lemma_join(m0, m1, m2, n0, n1, n2, la, lb, a, b, sha, shb, ls, preset.start_axis, w, true);
    }
    let sid = new_internal_split(tree, preset.start_axis, a, b, w);
    proof {
        let m3 = tree.nodes@;
        let sh = Shape::Fork(sid, Box::new(sha), Box::new(shb));
        crate::tree::lemma_shape_of(m3, sid, sh);
        lemma_balanced_frame(m1, m3, a, sha, la, next.start_axis, next.alternate);
        lemma_balanced_frame(m2, m3, b, shb, lb, next.start_axis, next.alternate);
        assert(half(ls.len() as int) == mid);
        assert(sh.leaves() == sha.leaves() + shb.leaves());
    }
    Ok(sid)
}

/// The shape of a built subtree.
pub open spec fn shape_of_built<T>(m: Map<NodeId, Node<T>>, x: NodeId) -> Shape {
    crate::tree::shape_of(m, x)
}


fn build_dwindle<T>(tree: &mut Tree<T>, leaves: &Vec<NodeId>, lo: usize, hi: usize, axis: Axis, slot: Slot) -> (r: Result<NodeId, crate::error::OpError>)
    requires
        lo <= hi <= leaves@.len(),
        lo < hi ==> buildable(old(tree).nodes@, old(tree).next_id as nat, leaves@.subrange(lo as int, hi as int)),
    ensures
        final(tree).root == old(tree).root,
        lo == hi ==> r == Err::<NodeId, crate::error::OpError>(crate::error::OpError::Empty) && *final(tree) == *old(tree),
        lo < hi ==> (r matches Ok(x) && {
            let ls = leaves@.subrange(lo as int, hi as int);
            &&& built(old(tree).nodes@, final(tree).nodes@, old(tree).next_id as nat, final(tree).next_id as nat, ls, x, shape_of_built(final(tree).nodes@, x))
            &&& is_dwindle(final(tree).nodes@, x, ls, axis, slot)
        }),
        hi - lo == 1 ==> r == Ok::<NodeId, crate::error::OpError>(leaves@[lo as int]) && *final(tree) == *old(tree),
    decreases hi - lo,
{
    let ghost ls = leaves@.subrange(lo as int, hi as int);
    let ghost m0 = tree.nodes@;
    let ghost n0 = tree.next_id as nat;
    if lo == hi {
        return Err(crate::error::OpError::Empty);
    }
    let first = leaves[lo];
    proof {
        assert(ls[0] == first);
    }
    if hi - lo == 1 {
        proof {
            lemma_single_built(m0, n0, first);
            assert(ls =~= seq![first]);
            crate::tree::lemma_shape_of(m0, first, Shape::Tip(first));
        }
        return Ok(first);
    }
    let ghost lrest = leaves@.subrange((lo + 1) as int, hi as int);
    proof {
        assert(lrest =~= ls.skip(1));
        assert(ls =~= seq![first] + lrest);
        lemma_buildable_part(m0, n0, ls, 1, ls.len() as int);
        assert(ls.subrange(1, ls.len() as int) =~= lrest);
    }
    let rest = match build_dwindle(tree, leaves, lo + 1, hi, axis.toggled(), slot) {
        Ok(x) => x,
        Err(e) => return Err(e),
    };
    let ghost m1 = tree.nodes@;
    let ghost n1 = tree.next_id as nat;
    let ghost shr = shape_of_built(m1, rest);
    proof {
        lemma_buildable_after(m0, m1, n0, n1, lrest, seq![first], ls, rest, shr);
        assert(seq![first][0] == first);
        lemma_single_built(m1, n1, first);
        lemma_join(m0, m1, m1, n0, n1, n1, lrest, seq![first], rest, first, shr, Shape::Tip(first), ls, axis, WeightPair { a: 1, b: 1 }, slot == Slot::A);
    }
    let (a, b) = match slot {
        Slot::A => (rest, first),
        Slot::B => (first, rest),
    };
    let sid = new_internal_split(tree, axis, a, b, WeightPair::default());
    proof {
        let m3 = tree.nodes@;
        let sh = if slot == Slot::A {
            Shape::Fork(sid, Box::new(shr), Box::new(Shape::Tip(first)))
        } else {
            Shape::Fork(sid, Box::new(Shape::Tip(first)), Box::new(shr))
        };
        crate::tree::lemma_shape_of(m3, sid, sh);
        lemma_dwindle_frame(m1, m3, rest, shr, lrest, axis.spec_toggled(), slot);
        assert(Shape::Tip(first).ids().contains(first));
        lemma_agree_node(m1, m3, Shape::Tip(first).ids(), first);
    }
    Ok(sid)
}

fn build_equal_linear<T>(tree: &mut Tree<T>, leaves: &Vec<NodeId>, lo: usize, hi: usize, axis: Axis) -> (r: Result<NodeId, crate::error::OpError>)
    requires
        lo <= hi <= leaves@.len(),
        hi - lo <= u32::MAX,
        lo < hi ==> buildable(old(tree).nodes@, old(tree).next_id as nat, leaves@.subrange(lo as int, hi as int)),
    ensures
        final(tree).root == old(tree).root,
        lo == hi ==> r == Err::<NodeId, crate::error::OpError>(crate::error::OpError::Empty) && *final(tree) == *old(tree),
        lo < hi ==> (r matches Ok(x) && {
            let ls = leaves@.subrange(lo as int, hi as int);
            &&& built(old(tree).nodes@, final(tree).nodes@, old(tree).next_id as nat, final(tree).next_id as nat, ls, x, shape_of_built(final(tree).nodes@, x))
            &&& is_equal_linear(final(tree).nodes@, x, ls, axis)
        }),
        hi - lo == 1 ==> r == Ok::<NodeId, crate::error::OpError>(leaves@[lo as int]) && *final(tree) == *old(tree),
    decreases hi - lo,
{
    let ghost ls = leaves@.subrange(lo as int, hi as int);
    let ghost m0 = tree.nodes@;
    let ghost n0 = tree.next_id as nat;
    if lo == hi {
        return Err(crate::error::OpError::Empty);
    }
    let head = leaves[lo];
    proof {
        assert(ls[0] == head);
    }
    if hi - lo == 1 {
        proof {
            lemma_single_built(m0, n0, head);
            assert(ls =~= seq![head]);
            crate::tree::lemma_shape_of(m0, head, Shape::Tip(head));
        }
        return Ok(head);
    }
    let ghost lrest = leaves@.subrange((lo + 1) as int, hi as int);
    proof {
        assert(lrest =~= ls.skip(1));
        assert(ls =~= seq![head] + lrest);
        lemma_buildable_part(m0, n0, ls, 1, ls.len() as int);
        assert(ls.subrange(1, ls.len() as int) =~= lrest);
    }
    let rest = match build_equal_linear(tree, leaves, lo + 1, hi, axis) {
        Ok(x) => x,
        Err(e) => return Err(e),
    };
    let ghost m1 = tree.nodes@;
    let ghost n1 = tree.next_id as nat;
    let ghost shr = shape_of_built(m1, rest);
    let w = canonicalize_weights(1, (hi - lo - 1) as u32);
    proof {
        lemma_buildable_after(m0, m1, n0, n1, lrest, seq![head], ls, rest, shr);
        assert(seq![head][0] == head);
        lemma_single_built(m1, n1, head);
        lemma_join(m0, m1, m1, n0, n1, n1, lrest, seq![head], rest, head, shr, Shape::Tip(head), ls, axis, w, false);
    }
    let sid = new_internal_split(tree, axis, head, rest, w);
    proof {
        let m3 = tree.nodes@;
        let sh = Shape::Fork(sid, Box::new(Shape::Tip(head)), Box::new(shr));
        crate::tree::lemma_shape_of(m3, sid, sh);
        lemma_linear_frame(m1, m3, rest, shr, lrest, axis);
        assert(Shape::Tip(head).ids().contains(head));
        lemma_agree_node(m1, m3, Shape::Tip(head).ids(), head);
    }
    Ok(sid)
}

/// Builds the master-and-stack layout: the first leaf in `master_slot` of a
/// split along `split_axis` with `weights`, the others stacked along
/// `stack_axis`. With invalid weights the stack has already been built when
/// the error is returned.
fn build_master_stack<T>(
    tree: &mut Tree<T>,
    leaves: &Vec<NodeId>,
    split_axis: Axis,
    stack_axis: Axis,
    master_slot: Slot,
    weights: WeightPair,
) -> (r: Result<NodeId, crate::error::OpError>)
    requires
        leaves@.len() <= u32::MAX,
        leaves@.len() > 0 ==> buildable(old(tree).nodes@, old(tree).next_id as nat, leaves@),
    ensures
        final(tree).root == old(tree).root,
        leaves@.len() == 0 ==> r == Err::<NodeId, crate::error::OpError>(crate::error::OpError::Empty) && *final(tree) == *old(tree),
        leaves@.len() == 1 ==> r == Ok::<NodeId, crate::error::OpError>(leaves@[0]) && *final(tree) == *old(tree),
        leaves@.len() > 1 && !weights.spec_valid() ==> r == Err::<NodeId, crate::error::OpError>(crate::error::OpError::InvalidWeights)
            && exists|x: NodeId| #[trigger] built(old(tree).nodes@, final(tree).nodes@, old(tree).next_id as nat, final(tree).next_id as nat, leaves@.skip(1), x, shape_of_built(final(tree).nodes@, x))
            && is_equal_linear(final(tree).nodes@, x, leaves@.skip(1), stack_axis),
        leaves@.len() > 1 && weights.spec_valid() ==> (r matches Ok(x) && {
            &&& built(old(tree).nodes@, final(tree).nodes@, old(tree).next_id as nat, final(tree).next_id as nat, leaves@, x, shape_of_built(final(tree).nodes@, x))
            &&& is_master_stack(final(tree).nodes@, x, leaves@, split_axis, stack_axis, master_slot, weights)
        }),
{
    let ghost ls = leaves@;
    let ghost m0 = tree.nodes@;
    let ghost n0 = tree.next_id as nat;
    let n = leaves.len();
    if n == 0 {
        return Err(crate::error::OpError::Empty);
    }
    if n == 1 {
        return Ok(leaves[0]);
    }
    let master = leaves[0];
    let ghost lrest = ls.skip(1);
    proof {
        assert(ls =~= seq![master] + lrest);
        lemma_buildable_part(m0, n0, ls, 1, n as int);
        assert(ls.subrange(1, n as int) =~= lrest);
    }
    let stack = match build_equal_linear(tree, leaves, 1, n, stack_axis) {
        Ok(x) => x,
        Err(e) => return Err(e),
    };
    let ghost m1 = tree.nodes@;
    let ghost n1 = tree.next_id as nat;
    let ghost shs = shape_of_built(m1, stack);
    let w = match crate::session::checked_weights(weights) {
        Ok(w) => w,
        Err(e) => return Err(e),
    };
    proof {
        lemma_buildable_after(m0, m1, n0, n1, lrest, seq![master], ls, stack, shs);
        assert(seq![master][0] == master);
        lemma_single_built(m1, n1, master);
        lemma_join(m0, m1, m1, n0, n1, n1, lrest, seq![master], stack, master, shs, Shape::Tip(master), ls, split_axis, w, master_slot == Slot::B);
    }
    let (a, b) = match master_slot {
        Slot::A => (master, stack),
        Slot::B => (stack, master),
    };
    let sid = new_internal_split(tree, split_axis, a, b, w);
    proof {
        let m3 = tree.nodes@;
        let sh = if master_slot == Slot::B {
            Shape::Fork(sid, Box::new(shs), Box::new(Shape::Tip(master)))
        } else {
            Shape::Fork(sid, Box::new(Shape::Tip(master)), Box::new(shs))
        };
        crate::tree::lemma_shape_of(m3, sid, sh);
        lemma_linear_frame(m1, m3, stack, shs, lrest, stack_axis);
        assert(Shape::Tip(master).ids().contains(master));
        lemma_agree_node(m1, m3, Shape::Tip(master).ids(), master);
    }
    Ok(sid)
}

/// Builds the layout of `preset` over `leaves` from fresh splits.
pub(crate) fn build_preset_subtree<T>(tree: &mut Tree<T>, leaves: &Vec<NodeId>, preset: PresetKind) -> (r: Result<NodeId, crate::error::OpError>)
    requires
        leaves@.len() <= u32::MAX,
        leaves@.len() > 0 ==> buildable(old(tree).nodes@, old(tree).next_id as nat, leaves@),
    ensures
        final(tree).root == old(tree).root,
        leaves@.len() == 0 ==> r == Err::<NodeId, crate::error::OpError>(crate::error::OpError::Empty) && *final(tree) == *old(tree),
        leaves@.len() > 0 && preset_weights_ok(preset) ==> (r matches Ok(x) && {
            &&& built(old(tree).nodes@, final(tree).nodes@, old(tree).next_id as nat, final(tree).next_id as nat, leaves@, x, shape_of_built(final(tree).nodes@, x))
            &&& is_preset_layout(final(tree).nodes@, x, leaves@, preset)
        }),
        leaves@.len() > 1 && !preset_weights_ok(preset) ==> r == Err::<NodeId, crate::error::OpError>(crate::error::OpError::InvalidWeights)
            && exists|x: NodeId| #[trigger] built(old(tree).nodes@, final(tree).nodes@, old(tree).next_id as nat, final(tree).next_id as nat, leaves@.skip(1), x, shape_of_built(final(tree).nodes@, x))
            && is_equal_linear(final(tree).nodes@, x, leaves@.skip(1), stack_axis_of(preset)),
        leaves@.len() == 1 ==> r == Ok::<NodeId, crate::error::OpError>(leaves@[0]) && *final(tree) == *old(tree),
{
    let n = leaves.len();
    let ghost m0 = tree.nodes@;
    let ghost n0 = tree.next_id as nat;
    proof {
        assert(leaves@.subrange(0, n as int) =~= leaves@);
        if n == 1 {
            lemma_single_built(m0, n0, leaves@[0]);
            crate::tree::lemma_shape_of(m0, leaves@[0], Shape::Tip(leaves@[0]));
            assert(leaves@ =~= seq![leaves@[0]]);
        }
    }
    let res = match preset {
        PresetKind::Balanced(p) => build_balanced(tree, leaves, 0, n, p),
        PresetKind::Dwindle(p) => build_dwindle(tree, leaves, 0, n, p.start_axis, p.new_leaf_slot),
        PresetKind::Tall(p) => build_master_stack(tree, leaves, Axis::X, Axis::Y, p.master_slot, p.root_weights),
        PresetKind::Wide(p) => build_master_stack(tree, leaves, Axis::Y, Axis::X, p.master_slot, p.root_weights),
    };
    assert(leaves@.subrange(0, n as int) =~= leaves@);
    res
}

/// The preset's own weights, where it has any, are valid.
pub open spec fn preset_weights_ok(preset: PresetKind) -> bool {
    match preset {
        PresetKind::Tall(p) => p.root_weights.spec_valid(),
        PresetKind::Wide(p) => p.root_weights.spec_valid(),
        _ => true,
    }
}

/// The axis along which a master-and-stack preset stacks the other leaves.
pub open spec fn stack_axis_of(preset: PresetKind) -> Axis {
    match preset {
        PresetKind::Wide(_) => Axis::X,
        _ => Axis::Y,
    }
}


/// The identifiers of a shape are its tips and its forks.
#[verifier::spinoff_prover]
proof fn lemma_ids_split(s: Shape)
    ensures
        forall|k: NodeId| #[trigger] s.ids().contains(k) <==> (s.leaves().contains(k) || s.forks().contains(k)),
    decreases s,
{
    match s {
        Shape::Tip(i) => {
            let lv = s.leaves();
            let fk = s.forks();
            assert(lv =~= seq![i]);
            assert(lv.len() == 1 && lv[0] == i);
            assert(s.ids() =~= set![i]);
            assert(fk.len() == 0);
            assert forall|k: NodeId| #[trigger] s.ids().contains(k) <==> (lv.contains(k) || fk.contains(k)) by {
                if k == i {
                    assert(lv[0] == k);
                    assert(lv.contains(k));
                } else {
                    assert(!s.ids().contains(k));
                    if lv.contains(k) {
                        let j = choose|j: int| 0 <= j < lv.len() && lv[j] == k;
                        assert(j == 0);
                    }
                    if fk.contains(k) {
                        let j = choose|j: int| 0 <= j < fk.len() && fk[j] == k;
                    }
                }
            }
        },
        Shape::Fork(i, l, r) => {
            lemma_ids_split(*l);
            lemma_ids_split(*r);
            lemma_leaves_concat(*l, *r);
            lemma_forks_concat(*l, *r, i);
            let lv = s.leaves();
            let fk = s.forks();
            assert(lv == l.leaves() + r.leaves());
            assert(fk == (l.forks() + r.forks()).push(i));
            assert forall|k: NodeId| #[trigger] s.ids().contains(k) <==> (lv.contains(k) || fk.contains(k)) by {
                assert(s.ids().contains(k) <==> (l.ids().contains(k) || r.ids().contains(k) || k == i));
                assert(lv.contains(k) <==> (l.leaves().contains(k) || r.leaves().contains(k)));
                assert(fk.contains(k) <==> (l.forks().contains(k) || r.forks().contains(k) || k == i));
                assert(l.ids().contains(k) <==> (l.leaves().contains(k) || l.forks().contains(k)));
                assert(r.ids().contains(k) <==> (r.leaves().contains(k) || r.forks().contains(k)));
            }
        },
    }
}

proof fn lemma_leaves_concat(l: Shape, r: Shape)
    ensures
        forall|k: NodeId| #[trigger] (l.leaves() + r.leaves()).contains(k) <==> (l.leaves().contains(k) || r.leaves().contains(k)),
{
    let lv = l.leaves() + r.leaves();
    assert forall|k: NodeId| #[trigger] lv.contains(k) <==> (l.leaves().contains(k) || r.leaves().contains(k)) by {
        if lv.contains(k) {
            let j = choose|j: int| 0 <= j < lv.len() && lv[j] == k;
            if j < l.leaves().len() {
                assert(l.leaves()[j] == k);
            } else {
                assert(r.leaves()[j - l.leaves().len()] == k);
            }
        }
        if l.leaves().contains(k) {
            let j = choose|j: int| 0 <= j < l.leaves().len() && l.leaves()[j] == k;
            assert(lv[j] == k);
        }
        if r.leaves().contains(k) {
            let j = choose|j: int| 0 <= j < r.leaves().len() && r.leaves()[j] == k;
            assert(lv[l.leaves().len() + j] == k);
        }
    }
}

proof fn lemma_forks_concat(l: Shape, r: Shape, i: NodeId)
    ensures
        forall|k: NodeId| #[trigger] (l.forks() + r.forks()).push(i).contains(k) <==> (l.forks().contains(k) || r.forks().contains(k) || k == i),
{
    let fk = (l.forks() + r.forks()).push(i);
    assert forall|k: NodeId| #[trigger] fk.contains(k) <==> (l.forks().contains(k) || r.forks().contains(k) || k == i) by {
        if fk.contains(k) {
            let j = choose|j: int| 0 <= j < fk.len() && fk[j] == k;
            if j < l.forks().len() {
                assert(l.forks()[j] == k);
            } else if j < l.forks().len() + r.forks().len() {
                assert(r.forks()[j - l.forks().len()] == k);
            }
        }
        if l.forks().contains(k) {
            let j = choose|j: int| 0 <= j < l.forks().len() && l.forks()[j] == k;
            assert(fk[j] == k);
        }
        if r.forks().contains(k) {
            let j = choose|j: int| 0 <= j < r.forks().len() && r.forks()[j] == k;
            assert(fk[l.forks().len() + j] == k);
        }
        if k == i {
            assert(fk[fk.len() - 1] == k);
        }
    }
}

/// In a proper shape neither the tips nor the forks repeat, and they share
/// nothing.
#[verifier::spinoff_prover]
proof fn lemma_leaves_forks(s: Shape)
    requires
        s.distinct(),
    ensures
        forall|k: NodeId| #[trigger] s.ids().contains(k) <==> (s.leaves().contains(k) || s.forks().contains(k)),
        s.leaves().no_duplicates(),
        s.forks().no_duplicates(),
        forall|k: NodeId| #[trigger] s.leaves().contains(k) ==> !s.forks().contains(k),
    decreases s,
{
    lemma_ids_split(s);
    match s {
        Shape::Tip(i) => {
            assert(s.leaves() =~= seq![i]);
            assert(s.forks() =~= Seq::<NodeId>::empty());
        },
        Shape::Fork(i, l, r) => {
            lemma_leaves_forks(*l);
            lemma_leaves_forks(*r);
            lemma_leaves_concat(*l, *r);
            lemma_forks_concat(*l, *r, i);
            let lv = s.leaves();
            let fk = s.forks();
            assert(lv == l.leaves() + r.leaves());
            assert(fk == (l.forks() + r.forks()).push(i));
            assert forall|a: int, b: int| 0 <= a < b < lv.len() implies lv[a] != lv[b] by {
                let nl = l.leaves().len();
                if b < nl {
                    assert(lv[a] == l.leaves()[a] && lv[b] == l.leaves()[b]);
                } else if a >= nl {
                    assert(lv[a] == r.leaves()[a - nl] && lv[b] == r.leaves()[b - nl]);
                } else {
                    assert(lv[a] == l.leaves()[a] && lv[b] == r.leaves()[b - nl]);
                    assert(l.leaves().contains(lv[a]));
                    assert(r.leaves().contains(lv[b]));
                    assert(l.ids().contains(lv[a]) && r.ids().contains(lv[b]));
                }
            }
            assert forall|a: int, b: int| 0 <= a < b < fk.len() implies fk[a] != fk[b] by {
                let nl = l.forks().len();
                if b == fk.len() - 1 {
                    if a < nl {
                        assert(fk[a] == l.forks()[a]);
                        assert(l.forks().contains(fk[a]));
                        assert(l.ids().contains(fk[a]));
                    } else {
                        assert(r.forks()[a - nl] == fk[a]);
                        assert(r.forks().contains(fk[a]));
                        assert(r.ids().contains(fk[a]));
                    }
                } else if b < nl {
                    assert(fk[a] == l.forks()[a] && fk[b] == l.forks()[b]);
                } else if a >= nl {
                    assert(fk[a] == r.forks()[a - nl] && fk[b] == r.forks()[b - nl]);
                } else {
                    assert(fk[a] == l.forks()[a] && fk[b] == r.forks()[b - nl]);
                    assert(l.forks().contains(fk[a]) && r.forks().contains(fk[b]));
                    assert(l.ids().contains(fk[a]) && r.ids().contains(fk[b]));
                }
            }
            assert forall|k: NodeId| #[trigger] lv.contains(k) implies !fk.contains(k) by {
                if l.leaves().contains(k) {
                    assert(l.ids().contains(k));
                } else {
                    assert(r.ids().contains(k));
                }
            }
        },
    }
}

/// Within a proper shape with consistent parent links, each split's children
/// belong to the shape and name it as parent.
proof fn lemma_shape_links<T>(m: Map<NodeId, Node<T>>, id: NodeId, s: Shape, p: Option<NodeId>, k: NodeId)
    requires
        has_shape(m, id, s),
        s.distinct(),
        parents_ok(m, s, p),
        s.ids().contains(k),
        is_split_at(m, k),
    ensures
        s.ids().contains(split_of(m[k]).a),
        s.ids().contains(split_of(m[k]).b),
        m.contains_key(split_of(m[k]).a),
        m.contains_key(split_of(m[k]).b),
        node_parent(m[split_of(m[k]).a]) == Some(k),
        node_parent(m[split_of(m[k]).b]) == Some(k),
{
    crate::tree::lemma_sub_shape(m, id, s, k);
    crate::tree_links::lemma_sub_parents(m, s, p, k);
    crate::tree_links::lemma_sub_id_subset(s, k);
    let t = s.sub(k);
    match t {
        Shape::Fork(_, l, r) => {
            crate::tree::lemma_shape_id(m, split_of(m[k]).a, *l);
            crate::tree::lemma_shape_id(m, split_of(m[k]).b, *r);
            assert(t.ids().contains(split_of(m[k]).a));
            assert(t.ids().contains(split_of(m[k]).b));
            assert(parents_ok(m, *l, Some(k)));
            assert(parents_ok(m, *r, Some(k)));
            assert(l.id() == split_of(m[k]).a);
            assert(r.id() == split_of(m[k]).b);
        },
        Shape::Tip(_) => {
            assert(!is_split_at(m, k));
        },
    }
}

/// The node map once the subtree with shape `s` has lost its splits and its
/// leaves their parent links.
pub open spec fn cleared_map<T>(m: Map<NodeId, Node<T>>, s: Shape) -> Map<NodeId, Node<T>> {
    Map::new(
        |k: NodeId| m.contains_key(k) && !s.forks().contains(k),
        |k: NodeId| if s.leaves().contains(k) {
            with_parent(m[k], None)
        } else {
            m[k]
        },
    )
}

/// The node map once the rebuilt subtree `x` of `mb` takes the place of `sel`
/// under `sel`'s former parent `pp` (or at the root).
pub open spec fn hooked_map<T>(mb: Map<NodeId, Node<T>>, pp: Option<NodeId>, sel: NodeId, x: NodeId) -> Map<NodeId, Node<T>> {
    match pp {
        Some(q) => map_set_parent(map_replace_child(mb, q, sel, x), x, Some(q)),
        None => map_set_parent(mb, x, None),
    }
}


/// The root once the rebuilt subtree `x` is hooked in.
pub open spec fn hooked_root(root: Option<NodeId>, pp: Option<NodeId>, x: NodeId) -> Option<NodeId> {
    match pp {
        Some(_) => root,
        None => Some(x),
    }
}

/// What the rebuild of the subtree below the split `sel` of a well-formed tree
/// relies on.
#[verifier::opaque]
pub open spec fn rebuild_facts<T>(
    m: Map<NodeId, Node<T>>,
    root: Option<NodeId>,
    sel: NodeId,
    mb: Map<NodeId, Node<T>>,
    n0: nat,
    n1: nat,
    x: NodeId,
    sh: Shape,
) -> bool {
    let ts = shape_of(m, sel);
    let rank = depth_rank(shape_of(m, root.unwrap()));
    &&& tree_ok(m, root)
    &&& links_ok(m, root, rank)
    &&& root is Some
    &&& m.dom().finite()
    &&& is_split_at(m, sel)
    &&& forall|k: NodeId| #[trigger] m.contains_key(k) ==> k < n0
    &&& built(cleared_map(m, ts), mb, n0, n1, ts.leaves(), x, sh)
    &&& has_shape(m, sel, ts)
    &&& ts.distinct()
    &&& ts.ids().subset_of(m.dom())
    &&& forall|k: NodeId| #[trigger] ts.ids().contains(k) <==> (ts.leaves().contains(k) || ts.forks().contains(k))
    &&& forall|k: NodeId| #[trigger] ts.leaves().contains(k) ==> !ts.forks().contains(k)
    &&& ts.forks().contains(sel)
    &&& forall|k: NodeId| #[trigger] m.contains_key(k) ==> (ts.ids().contains(k) <==> (k == sel || (
        node_parent(m[k]) matches Some(pk) && ts.ids().contains(pk))))
    &&& (node_parent(m[sel]) matches Some(q) ==> m.contains_key(q) && is_split_at(m, q) && !ts.ids().contains(q)
        && (split_of(m[q]).a == sel || split_of(m[q]).b == sel) && rank[q] < rank[sel])
    &&& (node_parent(m[sel]) is None ==> root == Some(sel))
    &&& sh.ids().contains(x)
}

#[verifier::rlimit(80)]
#[verifier::spinoff_prover]
proof fn lemma_rebuild_setup<T>(m: Map<NodeId, Node<T>>, root: Option<NodeId>, sel: NodeId, mb: Map<NodeId, Node<T>>, n0: nat, n1: nat, x: NodeId, sh: Shape)
    requires
        tree_ok(m, root),
        m.dom().finite(),
        is_split_at(m, sel),
        forall|k: NodeId| #[trigger] m.contains_key(k) ==> k < n0,
        built(cleared_map(m, shape_of(m, sel)), mb, n0, n1, shape_of(m, sel).leaves(), x, sh),
    ensures
        rebuild_facts(m, root, sel, mb, n0, n1, x, sh),
{
    let ts = shape_of(m, sel);
    lemma_tree_to_links(m, root);
    assert(m.contains_key(sel));
    let r = root.unwrap();
    let whole = shape_of(m, r);
    assert(whole.ids().contains(sel));
    crate::tree::lemma_sub_shape(m, r, whole, sel);
    crate::tree::lemma_shape_of(m, sel, whole.sub(sel));
    crate::tree_links::lemma_closure_all(m, root, sel);
    lemma_leaves_forks(ts);
    match ts {
        Shape::Fork(i, l, rr) => {
            assert(ts.forks()[ts.forks().len() - 1] == sel);
        },
        Shape::Tip(_) => {},
    }
    crate::tree::lemma_shape_id(mb, x, sh);
    if let Some(q) = node_parent(m[sel]) {
        assert(m.contains_key(q));
        if ts.ids().contains(q) {
            crate::tree_links::lemma_rank_below(m, root, sel, q);
        }
    }
    reveal(rebuild_facts);
}


/// The entries of the hooked map.
#[verifier::rlimit(60)]
#[verifier::spinoff_prover]
proof fn lemma_hook_entries<T>(m: Map<NodeId, Node<T>>, root: Option<NodeId>, sel: NodeId, mb: Map<NodeId, Node<T>>, n0: nat, n1: nat, x: NodeId, sh: Shape)
    requires
        rebuild_facts(m, root, sel, mb, n0, n1, x, sh),
    ensures
        ({
            let ts = shape_of(m, sel);
            let pp = node_parent(m[sel]);
            let mf = hooked_map(mb, pp, sel, x);
            &&& forall|k: NodeId| #[trigger] mf.contains_key(k) <==> ((m.contains_key(k) && !ts.forks().contains(k)) || (n0 <= k < n1))
            &&& forall|k: NodeId| #[trigger] sh.ids().contains(k) <==> (ts.leaves().contains(k) || (n0 <= k < n1))
            &&& forall|k: NodeId| #[trigger] mf.contains_key(k) && !sh.ids().contains(k) ==> m.contains_key(k) && !ts.ids().contains(k)
            &&& forall|k: NodeId| #[trigger] mf.contains_key(k) && !sh.ids().contains(k) && Some(k) != pp ==> mf[k] == m[k]
            &&& forall|k: NodeId| #[trigger] sh.ids().contains(k) && k != x ==> mf.contains_key(k) && mf[k] == mb[k]
            &&& mf.contains_key(x) && mf[x] == with_parent(mb[x], pp)
            &&& (pp matches Some(q) ==> mf.contains_key(q) && !sh.ids().contains(q) && mb[q] == m[q]
                && mf[q] == Node::<T>::Split(crate::tree::replaced_child(split_of(m[q]), sel, x))
                && crate::tree::can_replace_child(mb, q, sel, x))
            &&& !mf.contains_key(sel)
            &&& has_shape(mb, x, sh)
            &&& sh.distinct()
            &&& parents_ok(mb, sh, node_parent(mb[x]))
            &&& forall|k: NodeId| #[trigger] sh.ids().contains(k) && is_split_at(mb, k) ==> node_parent(mb[x]) is None
        }),
{
    reveal(rebuild_facts);
    let ts = shape_of(m, sel);
    let pp = node_parent(m[sel]);
    let mc = cleared_map(m, ts);
    let mf = hooked_map(mb, pp, sel, x);
    let ls = ts.leaves();
    assert(mc.dom() =~= m.dom().filter(|k: NodeId| !ts.forks().contains(k)));
    assert forall|k: NodeId| #[trigger] sh.ids().contains(k) <==> (ls.contains(k) || (n0 <= k < n1)) by {}
    assert(mb.contains_key(x));
    if let Some(q) = pp {
        assert(m.contains_key(q) && !ts.ids().contains(q));
        assert(!ls.contains(q) && !ts.forks().contains(q));
        assert(mc.contains_key(q) && mc[q] == m[q]);
        assert(mb[q] == m[q]);
        assert(q < n0);
        assert(!sh.ids().contains(q));
    }
    assert forall|k: NodeId| #[trigger] mf.contains_key(k) && !sh.ids().contains(k) implies m.contains_key(k)
        && !ts.ids().contains(k) by {
        assert(mb.contains_key(k));
        assert(!(n0 <= k < n1));
        assert(mc.contains_key(k));
    }
    assert forall|k: NodeId| #[trigger] mf.contains_key(k) && !sh.ids().contains(k) && Some(k) != pp implies mf[k] == m[k] by {
        assert(mb.contains_key(k));
        assert(!(n0 <= k < n1));
        assert(mc.contains_key(k));
        assert(!ls.contains(k));
        assert(k != x);
    }
    assert forall|k: NodeId| #[trigger] sh.ids().contains(k) && k != x implies mf.contains_key(k) && mf[k] == mb[k] by {
        crate::tree::lemma_sub_shape(mb, x, sh, k);
        if let Some(q) = pp {
            assert(k != q);
        }
        if ls.contains(k) {
            assert(mc.contains_key(k));
        }
    }
    assert(!mf.contains_key(sel)) by {
        assert(ts.forks().contains(sel));
        assert(sel < n0);
    }
    lemma_built_top(m, sel, ts, mb, n0, n1, x, sh);
}

/// A built subtree with a split has a parentless top.
proof fn lemma_built_top<T>(m: Map<NodeId, Node<T>>, sel: NodeId, ts: Shape, mb: Map<NodeId, Node<T>>, n0: nat, n1: nat, x: NodeId, sh: Shape)
    requires
        has_shape(m, sel, ts),
        built(cleared_map(m, ts), mb, n0, n1, ts.leaves(), x, sh),
    ensures
        forall|k: NodeId| #[trigger] sh.ids().contains(k) && is_split_at(mb, k) ==> node_parent(mb[x]) is None,
{
    let ls = ts.leaves();
    assert forall|k: NodeId| #[trigger] sh.ids().contains(k) && is_split_at(mb, k) implies node_parent(mb[x]) is None by {
        if ls.len() == 1 {
            assert(x == ls[0]);
            assert(ls.contains(x));
            lemma_leaf_ids_split_free(m, sel, ts, x);
            assert(ls.contains(k) || (n0 <= k < n1));
            assert(k == x) by {
                if ls.contains(k) {
                    let j = choose|j: int| 0 <= j < ls.len() && ls[j] == k;
                }
            }
            assert(!is_split_at(mb, x));
        }
    }
}


#[verifier::rlimit(80)]
#[verifier::spinoff_prover]
proof fn lemma_hook_valid<T>(m: Map<NodeId, Node<T>>, root: Option<NodeId>, sel: NodeId, mb: Map<NodeId, Node<T>>, n0: nat, n1: nat, x: NodeId, sh: Shape, k: NodeId)
    requires
        rebuild_facts(m, root, sel, mb, n0, n1, x, sh),
        hooked_map(mb, node_parent(m[sel]), sel, x).contains_key(k),
    ensures
        node_valid(hooked_map(mb, node_parent(m[sel]), sel, x)[k]),
{
    reveal(rebuild_facts);
    lemma_hook_entries(m, root, sel, mb, n0, n1, x, sh);
    let ts = shape_of(m, sel);
    let pp = node_parent(m[sel]);
    let mf = hooked_map(mb, pp, sel, x);
    if sh.ids().contains(k) {
        assert(node_valid(mb[k]));
    } else if Some(k) == pp {
        assert(node_valid(m[k]));
        let sq = split_of(m[k]);
        let other = if sq.a == sel {
            sq.b
        } else {
            sq.a
        };
        assert(m.contains_key(other) && node_parent(m[other]) == Some(k));
        assert(!ts.ids().contains(other));
        assert(other < n0);
        assert(!sh.ids().contains(other));
    } else {
        assert(node_valid(m[k]));
    }
}

/// The children of one split of the hooked map are stored and name it as
/// parent.
#[verifier::rlimit(100)]
#[verifier::spinoff_prover]
proof fn lemma_hook_children<T>(m: Map<NodeId, Node<T>>, root: Option<NodeId>, sel: NodeId, mb: Map<NodeId, Node<T>>, n0: nat, n1: nat, x: NodeId, sh: Shape, k: NodeId)
    requires
        rebuild_facts(m, root, sel, mb, n0, n1, x, sh),
        hooked_map(mb, node_parent(m[sel]), sel, x).contains_key(k),
        hooked_map(mb, node_parent(m[sel]), sel, x)[k] is Split,
    ensures
        ({
            let mf = hooked_map(mb, node_parent(m[sel]), sel, x);
            &&& mf.contains_key(split_of(mf[k]).a)
            &&& mf.contains_key(split_of(mf[k]).b)
            &&& node_parent(mf[split_of(mf[k]).a]) == Some(k)
            &&& node_parent(mf[split_of(mf[k]).b]) == Some(k)
        }),
{
    let pp = node_parent(m[sel]);
    lemma_hook_entries(m, root, sel, mb, n0, n1, x, sh);
    if sh.ids().contains(k) {
        assert(mb.contains_key(k) && mb[k] is Split) by {
            if k != x {
                assert(hooked_map(mb, pp, sel, x)[k] == mb[k]);
            }
        }
        assert(node_parent(mb[x]) is None);
        lemma_hook_children_inside(mb, pp, sel, x, sh, k);
    } else if Some(k) == pp {
        lemma_hook_children_hook(m, root, sel, mb, n0, n1, x, sh, k);
    } else {
        lemma_hook_children_outside(m, root, sel, mb, n0, n1, x, sh, k);
    }
}

#[verifier::rlimit(60)]
#[verifier::spinoff_prover]
proof fn lemma_hook_children_inside<T>(mb: Map<NodeId, Node<T>>, pp: Option<NodeId>, sel: NodeId, x: NodeId, sh: Shape, k: NodeId)
    requires
        has_shape(mb, x, sh),
        sh.distinct(),
        parents_ok(mb, sh, None),
        node_parent(mb[x]) is None,
        sh.ids().contains(k),
        is_split_at(mb, k),
        pp matches Some(q) ==> !sh.ids().contains(q),
    ensures
        ({
            let mf = hooked_map(mb, pp, sel, x);
            &&& mf.contains_key(split_of(mf[k]).a)
            &&& mf.contains_key(split_of(mf[k]).b)
            &&& node_parent(mf[split_of(mf[k]).a]) == Some(k)
            &&& node_parent(mf[split_of(mf[k]).b]) == Some(k)
        }),
{
    let mf = hooked_map(mb, pp, sel, x);
    lemma_shape_links(mb, x, sh, None, k);
    let ca = split_of(mb[k]).a;
    let cb = split_of(mb[k]).b;
    assert(ca != x && cb != x);
    if let Some(q) = pp {
        assert(k != q && ca != q && cb != q);
    }
    assert(split_of(mf[k]).a == ca && split_of(mf[k]).b == cb);
    assert(mf[ca] == mb[ca] || ca == x);
}

/// The leaves of a shape in a map are not splits.
proof fn lemma_leaf_ids_split_free<T>(m: Map<NodeId, Node<T>>, id: NodeId, s: Shape, k: NodeId)
    requires
        has_shape(m, id, s),
        s.leaves().contains(k),
    ensures
        !is_split_at(m, k),
    decreases s,
{
    match s {
        Shape::Tip(i) => {
            assert(s.leaves() =~= seq![i]);
            let j = choose|j: int| 0 <= j < s.leaves().len() && s.leaves()[j] == k;
        },
        Shape::Fork(i, l, r) => {
            lemma_leaves_concat(*l, *r);
            if l.leaves().contains(k) {
                lemma_leaf_ids_split_free(m, split_of(m[id]).a, *l, k);
            } else {
                lemma_leaf_ids_split_free(m, split_of(m[id]).b, *r, k);
            }
        },
    }
}

#[verifier::rlimit(60)]
#[verifier::spinoff_prover]
proof fn lemma_hook_children_hook<T>(m: Map<NodeId, Node<T>>, root: Option<NodeId>, sel: NodeId, mb: Map<NodeId, Node<T>>, n0: nat, n1: nat, x: NodeId, sh: Shape, k: NodeId)
    requires
        rebuild_facts(m, root, sel, mb, n0, n1, x, sh),
        hooked_map(mb, node_parent(m[sel]), sel, x).contains_key(k),
        Some(k) == node_parent(m[sel]),
    ensures
        ({
            let mf = hooked_map(mb, node_parent(m[sel]), sel, x);
            &&& mf.contains_key(split_of(mf[k]).a)
            &&& mf.contains_key(split_of(mf[k]).b)
            &&& node_parent(mf[split_of(mf[k]).a]) == Some(k)
            &&& node_parent(mf[split_of(mf[k]).b]) == Some(k)
        }),
{
    reveal(rebuild_facts);
    lemma_hook_entries(m, root, sel, mb, n0, n1, x, sh);
    let ts = shape_of(m, sel);
    let pp = node_parent(m[sel]);
    let mf = hooked_map(mb, pp, sel, x);
    let sq = split_of(m[k]);
    let other = if sq.a == sel {
        sq.b
    } else {
        sq.a
    };
    assert(node_valid(m[k]));
    assert(m.contains_key(other) && node_parent(m[other]) == Some(k));
    assert(!ts.ids().contains(other));
    assert(other < n0);
    assert(!sh.ids().contains(other));
    assert(!ts.forks().contains(other));
    assert(mf.contains_key(other));
    assert(other != k);
    assert(mf[other] == m[other]);
}

#[verifier::rlimit(60)]
#[verifier::spinoff_prover]
proof fn lemma_hook_children_outside<T>(m: Map<NodeId, Node<T>>, root: Option<NodeId>, sel: NodeId, mb: Map<NodeId, Node<T>>, n0: nat, n1: nat, x: NodeId, sh: Shape, k: NodeId)
    requires
        rebuild_facts(m, root, sel, mb, n0, n1, x, sh),
        hooked_map(mb, node_parent(m[sel]), sel, x).contains_key(k),
        hooked_map(mb, node_parent(m[sel]), sel, x)[k] is Split,
        !sh.ids().contains(k),
        Some(k) != node_parent(m[sel]),
    ensures
        ({
            let mf = hooked_map(mb, node_parent(m[sel]), sel, x);
            &&& mf.contains_key(split_of(mf[k]).a)
            &&& mf.contains_key(split_of(mf[k]).b)
            &&& node_parent(mf[split_of(mf[k]).a]) == Some(k)
            &&& node_parent(mf[split_of(mf[k]).b]) == Some(k)
        }),
{
    reveal(rebuild_facts);
    lemma_hook_entries(m, root, sel, mb, n0, n1, x, sh);
    let ts = shape_of(m, sel);
    let pp = node_parent(m[sel]);
    let mf = hooked_map(mb, pp, sel, x);
    assert(mf[k] == m[k]);
    let ca = split_of(m[k]).a;
    let cb = split_of(m[k]).b;
    assert(m.contains_key(ca) && m.contains_key(cb));
    assert(node_parent(m[ca]) == Some(k) && node_parent(m[cb]) == Some(k));
    assert(!ts.ids().contains(ca) && !ts.ids().contains(cb));
    assert(ca < n0 && cb < n0);
    assert(!sh.ids().contains(ca) && !sh.ids().contains(cb));
    assert(!ts.forks().contains(ca) && !ts.forks().contains(cb));
    assert(mf.contains_key(ca) && mf.contains_key(cb));
    if Some(ca) == pp {
        assert(mb[ca] == m[ca]);
    } else {
        assert(mf[ca] == m[ca]);
    }
    if Some(cb) == pp {
        assert(mb[cb] == m[cb]);
    } else {
        assert(mf[cb] == m[cb]);
    }
}

#[verifier::rlimit(80)]
#[verifier::spinoff_prover]
proof fn lemma_hook_parent<T>(m: Map<NodeId, Node<T>>, root: Option<NodeId>, sel: NodeId, mb: Map<NodeId, Node<T>>, n0: nat, n1: nat, x: NodeId, sh: Shape, k: NodeId)
    requires
        rebuild_facts(m, root, sel, mb, n0, n1, x, sh),
        hooked_map(mb, node_parent(m[sel]), sel, x).contains_key(k),
    ensures
        ({
            let pp = node_parent(m[sel]);
            let mf = hooked_map(mb, pp, sel, x);
            match node_parent(mf[k]) {
                Some(q2) => {
                    &&& is_split_at(mf, q2)
                    &&& (split_of(mf[q2]).a == k || split_of(mf[q2]).b == k)
                    &&& (k == x ==> pp == Some(q2) && !sh.ids().contains(q2))
                    &&& (sh.ids().contains(k) && k != x ==> sh.ids().contains(q2) && sh.path_to(k) == sh.path_to(q2).push(k))
                    &&& (!sh.ids().contains(k) ==> !sh.ids().contains(q2) && node_parent(m[k]) == Some(q2))
                },
                None => hooked_root(root, pp, x) == Some(k),
            }
        }),
{
    reveal(rebuild_facts);
    lemma_hook_entries(m, root, sel, mb, n0, n1, x, sh);
    let ts = shape_of(m, sel);
    let pp = node_parent(m[sel]);
    let mf = hooked_map(mb, pp, sel, x);
    if k == x {
    } else if sh.ids().contains(k) {
        crate::tree::lemma_parent_path(mb, sh, node_parent(mb[x]), k);
        crate::tree::lemma_shape_id(mb, x, sh);
        crate::tree_links::lemma_parent_lists_child(mb, x, sh, node_parent(mb[x]), k);
        let q2 = node_parent(mb[k])->0;
        if q2 == x {
        } else {
            assert(mf[q2] == mb[q2]);
        }
    } else {
        assert(m.contains_key(k) && !ts.ids().contains(k));
        match node_parent(m[k]) {
            Some(q2) => {
                assert(is_split_at(m, q2) && (split_of(m[q2]).a == k || split_of(m[q2]).b == k));
                assert(!ts.ids().contains(q2));
                assert(m.contains_key(q2));
                assert(q2 < n0);
                assert(!sh.ids().contains(q2));
                assert(!ts.forks().contains(q2));
                assert(mf.contains_key(q2));
                if Some(q2) == pp {
                    assert(k != sel);
                }
            },
            None => {
                assert(root == Some(k));
                if pp is None {
                    assert(root == Some(sel));
                }
            },
        }
    }
}

/// The rank used to show the hooked map is a tree: old ranks outside the
/// rebuilt subtree, and below them the depth inside it.
pub open spec fn rebuild_rank<T>(mf: Map<NodeId, Node<T>>, rank: Map<NodeId, nat>, bound: nat, sh: Shape) -> Map<NodeId, nat> {
    Map::new(
        |k: NodeId| mf.contains_key(k),
        |k: NodeId| if sh.ids().contains(k) {
            bound + 1 + sh.path_to(k).len()
        } else {
            rank[k]
        },
    )
}

proof fn lemma_hook_all_valid<T>(m: Map<NodeId, Node<T>>, root: Option<NodeId>, sel: NodeId, mb: Map<NodeId, Node<T>>, n0: nat, n1: nat, x: NodeId, sh: Shape)
    requires
        rebuild_facts(m, root, sel, mb, n0, n1, x, sh),
    ensures
        forall|k: NodeId| #[trigger] hooked_map(mb, node_parent(m[sel]), sel, x).contains_key(k) ==> node_valid(
            hooked_map(mb, node_parent(m[sel]), sel, x)[k],
        ),
{
    let mf = hooked_map(mb, node_parent(m[sel]), sel, x);
    assert forall|k: NodeId| #[trigger] mf.contains_key(k) implies node_valid(mf[k]) by {
        lemma_hook_valid(m, root, sel, mb, n0, n1, x, sh, k);
    }
}

proof fn lemma_hook_all_children<T>(m: Map<NodeId, Node<T>>, root: Option<NodeId>, sel: NodeId, mb: Map<NodeId, Node<T>>, n0: nat, n1: nat, x: NodeId, sh: Shape)
    requires
        rebuild_facts(m, root, sel, mb, n0, n1, x, sh),
    ensures
        ({
            let mf = hooked_map(mb, node_parent(m[sel]), sel, x);
            forall|k: NodeId| #[trigger] mf.contains_key(k) && mf[k] is Split ==> {
                &&& mf.contains_key(split_of(mf[k]).a)
                &&& mf.contains_key(split_of(mf[k]).b)
                &&& node_parent(mf[split_of(mf[k]).a]) == Some(k)
                &&& node_parent(mf[split_of(mf[k]).b]) == Some(k)
            }
        }),
{
    let mf = hooked_map(mb, node_parent(m[sel]), sel, x);
    assert forall|k: NodeId| #[trigger] mf.contains_key(k) && mf[k] is Split implies {
        &&& mf.contains_key(split_of(mf[k]).a)
        &&& mf.contains_key(split_of(mf[k]).b)
        &&& node_parent(mf[split_of(mf[k]).a]) == Some(k)
        &&& node_parent(mf[split_of(mf[k]).b]) == Some(k)
    } by {
        lemma_hook_children(m, root, sel, mb, n0, n1, x, sh, k);
    }
}

#[verifier::rlimit(60)]
#[verifier::spinoff_prover]
proof fn lemma_hook_all_parents<T>(m: Map<NodeId, Node<T>>, root: Option<NodeId>, sel: NodeId, mb: Map<NodeId, Node<T>>, n0: nat, n1: nat, x: NodeId, sh: Shape, bound: nat)
    requires
        rebuild_facts(m, root, sel, mb, n0, n1, x, sh),
        forall|k: NodeId| #[trigger] m.contains_key(k) ==> depth_rank(shape_of(m, root.unwrap()))[k] <= bound,
    ensures
        ({
            let pp = node_parent(m[sel]);
            let mf = hooked_map(mb, pp, sel, x);
            let rank2 = rebuild_rank(mf, depth_rank(shape_of(m, root.unwrap())), bound, sh);
            forall|k: NodeId| #[trigger] mf.contains_key(k) ==> match node_parent(mf[k]) {
                Some(q2) => {
                    &&& is_split_at(mf, q2)
                    &&& (split_of(mf[q2]).a == k || split_of(mf[q2]).b == k)
                    &&& rank2[q2] < rank2[k]
                },
                None => hooked_root(root, pp, x) == Some(k),
            }
        }),
{
    let pp = node_parent(m[sel]);
    let mf = hooked_map(mb, pp, sel, x);
    let rank = depth_rank(shape_of(m, root.unwrap()));
    let rank2 = rebuild_rank(mf, rank, bound, sh);
    lemma_hook_entries(m, root, sel, mb, n0, n1, x, sh);
    reveal(rebuild_facts);
    assert forall|k: NodeId| #[trigger] mf.contains_key(k) implies match node_parent(mf[k]) {
        Some(q2) => {
            &&& is_split_at(mf, q2)
            &&& (split_of(mf[q2]).a == k || split_of(mf[q2]).b == k)
            &&& rank2[q2] < rank2[k]
        },
        None => hooked_root(root, pp, x) == Some(k),
    } by {
        lemma_hook_parent(m, root, sel, mb, n0, n1, x, sh, k);
        if let Some(q2) = node_parent(mf[k]) {
            if k == x {
                assert(m.contains_key(q2));
                crate::tree::lemma_shape_id(mb, x, sh);
                crate::tree::lemma_path_ends(sh, x);
            } else if !sh.ids().contains(k) {
                assert(m.contains_key(k));
                assert(m.contains_key(q2));
            }
        }
    }
}

proof fn lemma_hook_leaves<T>(m: Map<NodeId, Node<T>>, root: Option<NodeId>, sel: NodeId, mb: Map<NodeId, Node<T>>, n0: nat, n1: nat, x: NodeId, sh: Shape)
    requires
        rebuild_facts(m, root, sel, mb, n0, n1, x, sh),
    ensures
        forall|k: NodeId| #[trigger] leaf_at(m, k) ==> leaf_at(hooked_map(mb, node_parent(m[sel]), sel, x), k),
{
    lemma_hook_entries(m, root, sel, mb, n0, n1, x, sh);
    reveal(rebuild_facts);
    let ts = shape_of(m, sel);
    let pp = node_parent(m[sel]);
    let mf = hooked_map(mb, pp, sel, x);
    assert forall|k: NodeId| #[trigger] leaf_at(m, k) implies leaf_at(mf, k) by {
        if ts.ids().contains(k) {
            assert(!ts.forks().contains(k)) by {
                if ts.forks().contains(k) {
                    lemma_forks_split(m, sel, ts, k);
                }
            }
            assert(ts.leaves().contains(k));
            assert(sh.ids().contains(k));
            let mc = cleared_map(m, ts);
            assert(mc.contains_key(k));
            assert(mc[k] == with_parent(m[k], None));
            assert(mb[k] == with_parent(mc[k], node_parent(mb[k])));
            assert(mb[k] is Leaf);
            if k != x {
                assert(mf.contains_key(k) && mf[k] == mb[k]);
            } else {
                assert(mf.contains_key(x) && mf[x] == with_parent(mb[x], pp));
            }
        } else {
            assert(m.contains_key(k));
            assert(k < n0);
            assert(!sh.ids().contains(k));
            assert(!ts.forks().contains(k));
            assert(mf.contains_key(k));
            if Some(k) == pp {
                assert(is_split_at(m, k));
            }
            assert(mf[k] == m[k]);
        }
    }
}

/// Hooking a subtree rebuilt from the leaves of a split `sel` into `sel`'s
/// place gives a well-formed tree in which every old leaf is still a leaf.
proof fn lemma_rebuild_ok<T>(m: Map<NodeId, Node<T>>, root: Option<NodeId>, sel: NodeId, mb: Map<NodeId, Node<T>>, n0: nat, n1: nat, x: NodeId, sh: Shape)
    requires
        tree_ok(m, root),
        m.dom().finite(),
        is_split_at(m, sel),
        forall|k: NodeId| #[trigger] m.contains_key(k) ==> k < n0,
        built(cleared_map(m, shape_of(m, sel)), mb, n0, n1, shape_of(m, sel).leaves(), x, sh),
        mb.dom().finite(),
    ensures
        node_parent(m[sel]) matches Some(q) ==> crate::tree::can_replace_child(mb, q, sel, x),
        tree_ok(hooked_map(mb, node_parent(m[sel]), sel, x), hooked_root(root, node_parent(m[sel]), x)),
        forall|k: NodeId| #[trigger] leaf_at(m, k) ==> leaf_at(hooked_map(mb, node_parent(m[sel]), sel, x), k),
        !hooked_map(mb, node_parent(m[sel]), sel, x).contains_key(sel),
        hooked_map(mb, node_parent(m[sel]), sel, x).dom() =~= mb.dom(),
{
    lemma_rebuild_setup(m, root, sel, mb, n0, n1, x, sh);
    lemma_hook_entries(m, root, sel, mb, n0, n1, x, sh);
    lemma_tree_to_links(m, root);
    let ts = shape_of(m, sel);
    let pp = node_parent(m[sel]);
    let mf = hooked_map(mb, pp, sel, x);
    let rf = hooked_root(root, pp, x);
    let rank = depth_rank(shape_of(m, root.unwrap()));
    let bound = lemma_rank_bound(m.dom(), rank);
    let rank2 = rebuild_rank(mf, rank, bound, sh);
    assert(mf.dom() =~= mb.dom()) by {
        assert forall|k: NodeId| mb.contains_key(k) implies mf.contains_key(k) by {
            if !(n0 <= k < n1) {
                assert(cleared_map(m, ts).contains_key(k)) by {
                    reveal(rebuild_facts);
                }
            }
        }
    }
    // Root.
    match rf {
        Some(r) => {
            if pp is Some {
                assert(m.contains_key(r) && node_parent(m[r]) is None);
                reveal(rebuild_facts);
                assert(!ts.ids().contains(r)) by {
                    if ts.ids().contains(r) {
                        assert(r == sel);
                    }
                }
                assert(r < n0);
                assert(!sh.ids().contains(r));
                assert(!ts.forks().contains(r));
                assert(mf.contains_key(r));
            }
        },
        None => {},
    }
    lemma_hook_all_valid(m, root, sel, mb, n0, n1, x, sh);
    lemma_hook_all_children(m, root, sel, mb, n0, n1, x, sh);
    lemma_hook_all_parents(m, root, sel, mb, n0, n1, x, sh, bound);
    assert(links_ok(mf, rf, rank2));
    lemma_links_to_tree(mf, rf, rank2);
    lemma_hook_leaves(m, root, sel, mb, n0, n1, x, sh);
}

/// Forks of a shape are splits of the map.
proof fn lemma_forks_split<T>(m: Map<NodeId, Node<T>>, id: NodeId, s: Shape, k: NodeId)
    requires
        has_shape(m, id, s),
        s.forks().contains(k),
    ensures
        is_split_at(m, k),
    decreases s,
{
    match s {
        Shape::Tip(_) => {
            assert(s.forks() =~= Seq::<NodeId>::empty());
        },
        Shape::Fork(i, l, r) => {
            lemma_forks_concat(*l, *r, i);
            if k != i {
                if l.forks().contains(k) {
                    lemma_forks_split(m, split_of(m[id]).a, *l, k);
                } else {
                    lemma_forks_split(m, split_of(m[id]).b, *r, k);
                }
            }
        },
    }
}


fn collect_split_ids_inner<T>(tree: &Tree<T>, id: NodeId, out: &mut Vec<NodeId>, Ghost(s): Ghost<Shape>)
    requires
        has_shape(tree.nodes@, id, s),
    ensures
        final(out)@ == old(out)@ + s.forks(),
    decreases s,
{
    match tree.children_of(id) {
        Some((a, b)) => {
            let ghost before = out@;
            collect_split_ids_inner(tree, a, out, Ghost(s.left()));
            collect_split_ids_inner(tree, b, out, Ghost(s.right()));
            out.push(id);
            assert(out@ =~= before + s.forks());
        },
        None => {
            assert(out@ =~= out@ + s.forks());
        },
    }
}

/// The splits of the subtree below `id`, children before parents.
fn collect_split_ids<T>(tree: &Tree<T>, id: NodeId) -> (r: Vec<NodeId>)
    requires
        crate::tree::finite_below(tree.nodes@, id),
    ensures
        r@ == shape_of(tree.nodes@, id).forks(),
{
    let mut out: Vec<NodeId> = Vec::new();
    collect_split_ids_inner(tree, id, &mut out, Ghost(shape_of(tree.nodes@, id)));
    assert(out@ =~= shape_of(tree.nodes@, id).forks());
    out
}

/// What `apply_preset` does: nothing on a leaf selection or a subtree that
/// already has the layout; otherwise the selection's leaves are rebuilt into
/// the layout under fresh splits, hooked where the selection was, and the
/// focus becomes the selection.
pub open spec fn preset_outcome<T>(old: Session<T>, new: Session<T>, r: Result<(), OpError>, preset: PresetKind) -> bool {
    ({
        let m = old.tree.nodes@;
        let n0 = old.tree.next_id as nat;
        match old.selection {
            None => r == Err::<(), OpError>(OpError::Empty) && new == old,
            Some(sel) => {
                let ts = shape_of(m, sel);
                let ls = ts.leaves();
                let pp = crate::tree::node_parent(m[sel]);
                if is_leaf_at(m, sel) || is_preset_layout(m, sel, ls, preset) {
                    r == Ok::<(), OpError>(()) && new == old
                } else {
                    match old.focus {
                        None => r == Err::<(), OpError>(OpError::Empty) && new == old,
                        Some(f) => if !is_leaf_at(m, f) {
                            r == Err::<(), OpError>(OpError::NotLeaf(f)) && new == old
                        } else if !preset_weights_ok(preset) {
                            &&& r == Err::<(), OpError>(OpError::InvalidWeights)
                            &&& new.tree.root == old.tree.root
                            &&& new.focus == old.focus
                            &&& new.selection == old.selection
                            &&& new.revision == old.revision
                            &&& exists|x: NodeId| #[trigger] built(cleared_map(m, ts), new.tree.nodes@, n0, new.tree.next_id as nat, ls.skip(1), x, shape_of_built(new.tree.nodes@, x))
                                && is_equal_linear(new.tree.nodes@, x, ls.skip(1), stack_axis_of(preset))
                        } else {
                            &&& r is Ok
                            &&& new.valid()
                            &&& new.ids_fresh()
                            &&& new.focus == Some(f)
                            &&& new.selection == Some(f)
                            &&& new.revision == old.revision + 1
                            &&& exists|x: NodeId, mb: Map<NodeId, Node<T>>| #[trigger] built(cleared_map(m, ts), mb, n0, new.tree.next_id as nat, ls, x, shape_of_built(mb, x))
                                && is_preset_layout(mb, x, ls, preset)
                                && new.tree.nodes@ == hooked_map(mb, pp, sel, x)
                                && new.tree.root == hooked_root(old.tree.root, pp, x)
                        },
                    }
                }
            },
        }
    })
}

impl<T> Session<T> {
    /// Rebuilds the selected subtree into the layout of `preset` over its
    /// leaves (left to right), unless the selection is a leaf or already has
    /// that layout. The focus stays and becomes the selection. With invalid
    /// weights in a master-and-stack preset the old splits are already gone,
    /// and the other leaves stacked, when the error is returned.
    pub fn apply_preset(&mut self, preset: PresetKind) -> (r: Result<(), OpError>)
        requires
            old(self).tree.well_formed(),
            old(self).ids_fresh(),
            old(self).revision < u64::MAX,
            old(self).selection matches Some(sel) ==> {
                &&& old(self).tree.nodes@.contains_key(sel)
                &&& shape_of(old(self).tree.nodes@, sel).leaves().len() <= u32::MAX
                &&& old(self).tree.next_id + shape_of(old(self).tree.nodes@, sel).leaves().len() <= u64::MAX
            },
        ensures
            preset_outcome(*old(self), *final(self), r, preset),
    {
        let selection = match self.selection {
            Some(s) => s,
            None => return Err(OpError::Empty),
        };
        if self.tree.is_leaf(selection) {
            return Ok(());
        }
        let ghost m = self.tree.nodes@;
        let ghost root0 = self.tree.root;
        let ghost n0 = self.tree.next_id as nat;
        let ghost ts = shape_of(m, selection);
        proof {
            crate::tree::lemma_node_shape(&self.tree, selection);
            crate::tree::lemma_tips_are_leaves(m, selection, ts);
            crate::tree::lemma_tree_acyclic(&self.tree);
            lemma_leaves_forks(ts);
        }
        let leaves = self.tree.leaf_ids_dfs(selection);
        if subtree_matches_preset(&self.tree, selection, &leaves, preset) {
            return Ok(());
        }
        let focus = match self.focus_leaf() {
            Ok(f) => f,
            Err(e) => return Err(e),
        };
        let old_selection = self.selection;
        let parent = self.tree.parent_of(selection);
        let split_ids = collect_split_ids(&self.tree, selection);
        let mut i: usize = 0;
        while i < leaves.len()
            invariant
                0 <= i <= leaves@.len(),
                leaves@ == ts.leaves(),
                ts.ids().subset_of(m.dom()),
                forall|k: NodeId| #[trigger] ts.ids().contains(k) <==> (ts.leaves().contains(k) || ts.forks().contains(k)),
                self.tree.root == root0,
                self.tree.next_id == n0,
                self.focus == old(self).focus,
                self.selection == old(self).selection,
                self.revision == old(self).revision,
                self.tree.nodes@ == Map::new(
                    |k: NodeId| m.contains_key(k),
                    |k: NodeId| if leaves@.take(i as int).contains(k) {
                        with_parent(m[k], None)
                    } else {
                        m[k]
                    },
                ),
            decreases leaves@.len() - i,
        {
            let ghost cur = self.tree.nodes@;
            proof {
                assert(ts.leaves().contains(leaves@[i as int]));
            }
            self.tree.set_parent(leaves[i], None);
            proof {
                let id = leaves@[i as int];
                assert(leaves@.take(i + 1) =~= leaves@.take(i as int).push(id));
                assert forall|k: NodeId| leaves@.take(i + 1).contains(k) <==> (leaves@.take(i as int).contains(k) || k == id) by {
                    if leaves@.take(i + 1).contains(k) && k != id {
                        let j = choose|j: int| 0 <= j < i + 1 && #[trigger] leaves@.take(i + 1)[j] == k;
                        assert(leaves@.take(i as int)[j] == k);
                    }
                    if leaves@.take(i as int).contains(k) {
                        let j = choose|j: int| 0 <= j < i && #[trigger] leaves@.take(i as int)[j] == k;
                        assert(leaves@.take(i + 1)[j] == k);
                    }
                    if k == id {
                        assert(leaves@.take(i + 1)[i as int] == k);
                    }
                }
                assert(self.tree.nodes@ =~= Map::new(
                    |k: NodeId| m.contains_key(k),
                    |k: NodeId| if leaves@.take(i + 1).contains(k) {
                        with_parent(m[k], None)
                    } else {
                        m[k]
                    },
                )) by {
                    if leaves@.take(i as int).contains(id) {
                        lemma_with_parent_twice(m[id], None, None);
                    }
                }
            }
            i = i + 1;
        }
        let ghost m1 = self.tree.nodes@;
        proof {
            assert(leaves@.take(leaves@.len() as int) =~= leaves@);
        }
        let mut j: usize = 0;
        while j < split_ids.len()
            invariant
                0 <= j <= split_ids@.len(),
                self.tree.root == root0,
                self.tree.next_id == n0,
                self.focus == old(self).focus,
                self.selection == old(self).selection,
                self.revision == old(self).revision,
                self.tree.nodes@ == Map::new(
                    |k: NodeId| m1.contains_key(k) && !split_ids@.take(j as int).contains(k),
                    |k: NodeId| m1[k],
                ),
            decreases split_ids@.len() - j,
        {
            let id = split_ids[j];
            self.tree.nodes.remove(&id);
            proof {
                assert(split_ids@.take(j + 1) =~= split_ids@.take(j as int).push(id));
                assert forall|k: NodeId| split_ids@.take(j + 1).contains(k) <==> (split_ids@.take(j as int).contains(k) || k == id) by {
                    if split_ids@.take(j + 1).contains(k) && k != id {
                        let jj = choose|jj: int| 0 <= jj < j + 1 && #[trigger] split_ids@.take(j + 1)[jj] == k;
                        assert(split_ids@.take(j as int)[jj] == k);
                    }
                    if split_ids@.take(j as int).contains(k) {
                        let jj = choose|jj: int| 0 <= jj < j && #[trigger] split_ids@.take(j as int)[jj] == k;
                        assert(split_ids@.take(j + 1)[jj] == k);
                    }
                    if k == id {
                        assert(split_ids@.take(j + 1)[j as int] == k);
                    }
                }
                assert(self.tree.nodes@ =~= Map::new(
                    |k: NodeId| m1.contains_key(k) && !split_ids@.take(j + 1).contains(k),
                    |k: NodeId| m1[k],
                ));
            }
            j = j + 1;
        }
        let ghost mc = self.tree.nodes@;
        proof {
            assert(split_ids@.take(split_ids@.len() as int) =~= split_ids@);
            assert(mc =~= cleared_map(m, ts));
            lemma_buildable_leaves(m, root0, selection, n0);
        }
        let rebuilt = match build_preset_subtree(&mut self.tree, &leaves, preset) {
            Ok(x) => x,
            Err(e) => return Err(e),
        };
        let ghost mb = self.tree.nodes@;
        let ghost n1 = self.tree.next_id as nat;
        proof {
            assert(leaves@.len() > 1) by {
                match ts {
                    Shape::Fork(_, l, rr) => {
                        crate::adjust::lemma_leaves_nonempty(*l);
                        crate::adjust::lemma_leaves_nonempty(*rr);
                    },
                    Shape::Tip(_) => {
                        assert(crate::tree::is_split_at(m, selection));
                    },
                }
            }
            assert(preset_weights_ok(preset));
            lemma_rebuild_ok(m, root0, selection, mb, n0, n1, rebuilt, shape_of_built(mb, rebuilt));
        }
        match parent {
            Some(p) => {
                self.tree.replace_child(p, selection, rebuilt);
                self.tree.set_parent(rebuilt, Some(p));
            },
            None => {
                self.tree.root = Some(rebuilt);
                self.tree.set_parent(rebuilt, None);
            },
        }
        let ghost mf = self.tree.nodes@;
        proof {
            assert(mf =~= hooked_map(mb, parent, selection, rebuilt));
            crate::tree::lemma_tree_ok_acyclic(mf, self.tree.root);
            assert(leaf_at(m, focus));
        }
        self.repair_after_mutation(focus, old_selection, Some(rebuilt));
        self.bump_revision();
        proof {
            lemma_repair_valid(mf, self.tree.root, Some(focus), old_selection);
            assert forall|k: NodeId| #[trigger] mf.contains_key(k) implies k < self.tree.next_id by {
                assert(mb.contains_key(k));
                if !(n0 <= k < n1) {
                    assert(mc.contains_key(k));
                }
            }
        }
        match self.validate() {
            Ok(()) => Ok(()),
            Err(e) => Err(OpError::Validation(e)),
        }
    }
}

/// The leaves of a split's subtree in a well-formed tree, with the splits
/// removed and the leaves unhooked, can be built into a new subtree.
proof fn lemma_buildable_leaves<T>(m: Map<NodeId, Node<T>>, root: Option<NodeId>, sel: NodeId, n0: nat)
    requires
        tree_ok(m, root),
        m.contains_key(sel),
        forall|k: NodeId| #[trigger] m.contains_key(k) ==> k < n0,
        n0 + shape_of(m, sel).leaves().len() <= u64::MAX,
    ensures
        buildable(cleared_map(m, shape_of(m, sel)), n0, shape_of(m, sel).leaves()),
{
    let ts = shape_of(m, sel);
    let r = root.unwrap();
    crate::tree::lemma_sub_shape(m, r, shape_of(m, r), sel);
    crate::tree::lemma_shape_of(m, sel, shape_of(m, r).sub(sel));
    crate::tree_links::lemma_sub_id_subset(shape_of(m, r), sel);
    crate::tree::lemma_tips_are_leaves(m, sel, ts);
    lemma_leaves_forks(ts);
    crate::tree::lemma_shape_id(m, sel, ts);
    let ls = ts.leaves();
    let mc = cleared_map(m, ts);
    crate::adjust::lemma_leaves_nonempty(ts);
    assert forall|i: int| 0 <= i < ls.len() implies leaf_at(mc, #[trigger] ls[i]) && node_valid(mc[ls[i]]) by {
        let k = ls[i];
        assert(ls.contains(k));
        assert(ts.ids().contains(k));
        assert(!ts.forks().contains(k));
        assert(node_valid(m[k]));
    }
}


/// `m1` agrees with `m0` on the nodes of `s` in everything a layout reads:
/// which are stored, which are leaves, and each split's axis, children and
/// weights.
pub open spec fn layout_frame<T>(m0: Map<NodeId, Node<T>>, m1: Map<NodeId, Node<T>>, s: Shape) -> bool {
    forall|k: NodeId| #[trigger] s.ids().contains(k) ==> {
        &&& (m0.contains_key(k) <==> m1.contains_key(k))
        &&& m0.contains_key(k) ==> {
            &&& (m0[k] is Leaf <==> m1[k] is Leaf)
            &&& (m0[k] is Split <==> m1[k] is Split)
            &&& (m0[k] is Split ==> {
                &&& split_of(m1[k]).axis == split_of(m0[k]).axis
                &&& split_of(m1[k]).a == split_of(m0[k]).a
                &&& split_of(m1[k]).b == split_of(m0[k]).b
                &&& split_of(m1[k]).weights == split_of(m0[k]).weights
            })
        }
    }
}

proof fn lemma_frame_sides<T>(m0: Map<NodeId, Node<T>>, m1: Map<NodeId, Node<T>>, s: Shape)
    requires
        layout_frame(m0, m1, s),
    ensures
        layout_frame(m0, m1, s.left()),
        layout_frame(m0, m1, s.right()),
        s.ids().contains(s.id()),
{
    match s {
        Shape::Tip(_) => {},
        Shape::Fork(_, l, r) => {
            assert forall|k: NodeId| #[trigger] l.ids().contains(k) implies s.ids().contains(k) by {}
            assert forall|k: NodeId| #[trigger] r.ids().contains(k) implies s.ids().contains(k) by {}
        },
    }
}

/// A leaf in a layout is a leaf in a framed map, with the same one-tip shape.
proof fn lemma_frame_leaf<T>(m0: Map<NodeId, Node<T>>, m1: Map<NodeId, Node<T>>, id: NodeId, s: Shape)
    requires
        leaf_at(m0, id),
        has_shape(m0, id, s),
        layout_frame(m0, m1, s),
    ensures
        s == Shape::Tip(id),
        leaf_at(m1, id),
        has_shape(m1, id, s),
        s.leaves() == seq![id],
{
    crate::tree::lemma_shape_id(m0, id, s);
    lemma_frame_sides(m0, m1, s);
}

proof fn lemma_balanced_kept<T>(
    m0: Map<NodeId, Node<T>>,
    m1: Map<NodeId, Node<T>>,
    id: NodeId,
    ls: Seq<NodeId>,
    axis: Axis,
    alternate: bool,
    s: Shape,
)
    requires
        is_balanced(m0, id, ls, axis, alternate),
        has_shape(m0, id, s),
        layout_frame(m0, m1, s),
    ensures
        is_balanced(m1, id, ls, axis, alternate),
        has_shape(m1, id, s),
        s.leaves() == ls,
    decreases ls.len(),
{
    crate::tree::lemma_shape_id(m0, id, s);
    lemma_frame_sides(m0, m1, s);
    if ls.len() == 1 {
        lemma_frame_leaf(m0, m1, id, s);
        assert(ls =~= seq![id]);
    } else {
        let h = half(ls.len() as int);
        let sn = split_of(m0[id]);
        lemma_balanced_kept(m0, m1, sn.a, ls.take(h), next_axis(axis, alternate), alternate, s.left());
        lemma_balanced_kept(m0, m1, sn.b, ls.skip(h), next_axis(axis, alternate), alternate, s.right());
        assert(ls =~= ls.take(h) + ls.skip(h));
    }
}

proof fn lemma_dwindle_kept<T>(
    m0: Map<NodeId, Node<T>>,
    m1: Map<NodeId, Node<T>>,
    id: NodeId,
    ls: Seq<NodeId>,
    axis: Axis,
    slot: Slot,
    s: Shape,
)
    requires
        is_dwindle(m0, id, ls, axis, slot),
        has_shape(m0, id, s),
        layout_frame(m0, m1, s),
    ensures
        is_dwindle(m1, id, ls, axis, slot),
        has_shape(m1, id, s),
        s.leaves() == (if slot == Slot::B { ls } else { ls.reverse() }),
    decreases ls.len(),
{
    crate::tree::lemma_shape_id(m0, id, s);
    lemma_frame_sides(m0, m1, s);
    if ls.len() == 1 {
        lemma_frame_leaf(m0, m1, id, s);
        assert(ls =~= seq![id]);
        assert(ls.reverse() =~= ls);
    } else {
        let sn = split_of(m0[id]);
        match slot {
            Slot::B => {
                lemma_frame_leaf(m0, m1, sn.a, s.left());
                lemma_dwindle_kept(m0, m1, sn.b, ls.skip(1), axis.spec_toggled(), slot, s.right());
                assert(ls =~= seq![ls[0]] + ls.skip(1));
            },
            Slot::A => {
                lemma_frame_leaf(m0, m1, sn.b, s.right());
                lemma_dwindle_kept(m0, m1, sn.a, ls.skip(1), axis.spec_toggled(), slot, s.left());
                assert(ls.reverse() =~= ls.skip(1).reverse() + seq![ls[0]]);
            },
        }
    }
}

proof fn lemma_linear_kept<T>(
    m0: Map<NodeId, Node<T>>,
    m1: Map<NodeId, Node<T>>,
    id: NodeId,
    ls: Seq<NodeId>,
    axis: Axis,
    s: Shape,
)
    requires
        is_equal_linear(m0, id, ls, axis),
        has_shape(m0, id, s),
        layout_frame(m0, m1, s),
    ensures
        is_equal_linear(m1, id, ls, axis),
        has_shape(m1, id, s),
        s.leaves() == ls,
    decreases ls.len(),
{
    crate::tree::lemma_shape_id(m0, id, s);
    lemma_frame_sides(m0, m1, s);
    if ls.len() == 1 {
        lemma_frame_leaf(m0, m1, id, s);
        assert(ls =~= seq![id]);
    } else {
        let sn = split_of(m0[id]);
        lemma_frame_leaf(m0, m1, sn.a, s.left());
        lemma_linear_kept(m0, m1, sn.b, ls.skip(1), axis, s.right());
        assert(ls =~= seq![ls[0]] + ls.skip(1));
    }
}

/// The presets whose layout lists the leaves in the order they are given.
pub open spec fn preset_keeps_order(preset: PresetKind) -> bool {
    match preset {
        PresetKind::Balanced(_) => true,
        PresetKind::Dwindle(p) => p.new_leaf_slot == Slot::B,
        PresetKind::Tall(p) => p.master_slot == Slot::A,
        PresetKind::Wide(p) => p.master_slot == Slot::A,
    }
}

/// The leaves, left to right, of the layout of `preset` over `ls`: a dwindle
/// with its new leaves in slot `A` reverses them, a master in slot `B` moves
/// the first leaf last, the other layouts keep their order.
pub open spec fn layout_leaves(preset: PresetKind, ls: Seq<NodeId>) -> Seq<NodeId> {
    match preset {
        PresetKind::Balanced(_) => ls,
        PresetKind::Dwindle(p) => if p.new_leaf_slot == Slot::B {
            ls
        } else {
            ls.reverse()
        },
        PresetKind::Tall(p) => if p.master_slot == Slot::A || ls.len() <= 1 {
            ls
        } else {
            ls.skip(1) + seq![ls[0]]
        },
        PresetKind::Wide(p) => if p.master_slot == Slot::A || ls.len() <= 1 {
            ls
        } else {
            ls.skip(1) + seq![ls[0]]
        },
    }
}

/// A preset layout survives a framed change, and lists its leaves as
/// `layout_leaves` says.
proof fn lemma_preset_kept<T>(
    m0: Map<NodeId, Node<T>>,
    m1: Map<NodeId, Node<T>>,
    id: NodeId,
    ls: Seq<NodeId>,
    preset: PresetKind,
    s: Shape,
)
    requires
        is_preset_layout(m0, id, ls, preset),
        has_shape(m0, id, s),
        layout_frame(m0, m1, s),
    ensures
        is_preset_layout(m1, id, ls, preset),
        has_shape(m1, id, s),
        s.leaves() == layout_leaves(preset, ls),
{
    match preset {
        PresetKind::Balanced(p) => {
            lemma_balanced_kept(m0, m1, id, ls, p.start_axis, p.alternate, s);
        },
        PresetKind::Dwindle(p) => {
            lemma_dwindle_kept(m0, m1, id, ls, p.start_axis, p.new_leaf_slot, s);
        },
        _ => {
            crate::tree::lemma_shape_id(m0, id, s);
            lemma_frame_sides(m0, m1, s);
            if ls.len() == 1 {
                lemma_frame_leaf(m0, m1, id, s);
                assert(ls =~= seq![id]);
            } else {
                let sn = split_of(m0[id]);
                let (stack, master) = match preset {
                    PresetKind::Tall(p) => (Axis::Y, p.master_slot),
                    PresetKind::Wide(p) => (Axis::X, p.master_slot),
                    _ => (Axis::X, Slot::A),
                };
                if master == Slot::A {
                    lemma_frame_leaf(m0, m1, sn.a, s.left());
                    lemma_linear_kept(m0, m1, sn.b, ls.skip(1), stack, s.right());
                    assert(ls =~= seq![ls[0]] + ls.skip(1));
                } else {
                    lemma_frame_leaf(m0, m1, sn.b, s.right());
                    lemma_linear_kept(m0, m1, sn.a, ls.skip(1), stack, s.left());
                }
            }
        },
    }
}

/// The leaves `layout_leaves` lists are those it was given.
proof fn lemma_layout_leaves_set(preset: PresetKind, ls: Seq<NodeId>)
    ensures
        layout_leaves(preset, ls).to_set() == ls.to_set(),
{
    let lv = layout_leaves(preset, ls);
    assert(lv.to_set() =~= ls.to_set()) by {
        assert forall|k: NodeId| lv.to_set().contains(k) <==> ls.to_set().contains(k) by {
            if lv != ls {
                if lv == ls.reverse() {
                    if ls.contains(k) {
                        let i = ls.index_of(k);
                        assert(lv[ls.len() - 1 - i] == k);
                    }
                    if lv.contains(k) {
                        let i = lv.index_of(k);
                        assert(ls[ls.len() - 1 - i] == k);
                    }
                } else {
                    assert(lv == ls.skip(1) + seq![ls[0]]);
                    if ls.contains(k) {
                        let i = ls.index_of(k);
                        if i == 0 {
                            assert(lv[ls.len() - 1] == k);
                        } else {
                            assert(lv[i - 1] == k);
                        }
                    }
                    if lv.contains(k) {
                        let i = lv.index_of(k);
                        if i == ls.len() - 1 {
                            assert(ls[0] == k);
                        } else {
                            assert(ls[i + 1] == k);
                        }
                    }
                }
            }
        }
    }
}

/// A subtree rebuilt into a preset layout and hooked back into the tree keeps
/// that layout, and its leaves are exactly the leaves it was built from (in
/// the order `layout_leaves` gives: the same order for an order-keeping
/// preset); so applying an order-keeping preset to it again is a no-op.
pub proof fn law_preset_rebuild<T>(
    m0: Map<NodeId, Node<T>>,
    mb: Map<NodeId, Node<T>>,
    n0: nat,
    n1: nat,
    ls: Seq<NodeId>,
    x: NodeId,
    pp: Option<NodeId>,
    sel: NodeId,
    preset: PresetKind,
)
    requires
        built(m0, mb, n0, n1, ls, x, shape_of_built(mb, x)),
        is_preset_layout(mb, x, ls, preset),
        pp matches Some(q) ==> !shape_of(mb, x).ids().contains(q),
    ensures
        ({
            let f = hooked_map(mb, pp, sel, x);
            &&& is_preset_layout(f, x, ls, preset)
            &&& shape_of(f, x).leaves() == layout_leaves(preset, ls)
            &&& shape_of(f, x).leaves().to_set() == ls.to_set()
            &&& preset_keeps_order(preset) ==> shape_of(f, x).leaves() == ls
                && is_preset_layout(f, x, shape_of(f, x).leaves(), preset)
        }),
{
    let sh = shape_of(mb, x);
    let f = hooked_map(mb, pp, sel, x);
    crate::tree::lemma_shape_id(mb, x, sh);
    assert(mb.contains_key(x));
    assert forall|k: NodeId| #[trigger] sh.ids().contains(k) implies {
        &&& (mb.contains_key(k) <==> f.contains_key(k))
        &&& mb.contains_key(k) ==> {
            &&& (mb[k] is Leaf <==> f[k] is Leaf)
            &&& (mb[k] is Split <==> f[k] is Split)
            &&& (mb[k] is Split ==> {
                &&& split_of(f[k]).axis == split_of(mb[k]).axis
                &&& split_of(f[k]).a == split_of(mb[k]).a
                &&& split_of(f[k]).b == split_of(mb[k]).b
                &&& split_of(f[k]).weights == split_of(mb[k]).weights
            })
        }
    } by {
        if k == x {
            lemma_parent_fields(mb[x]);
        }
    }
    lemma_preset_kept(mb, f, x, ls, preset, sh);
    crate::tree::lemma_shape_of(f, x, sh);
    lemma_layout_leaves_set(preset, ls);
}

/// Changing a node's parent field keeps its kind and its split fields.
proof fn lemma_parent_fields<T>(n: Node<T>)
    ensures
        forall|p: Option<NodeId>| #![trigger with_parent(n, p)] {
            &&& (with_parent(n, p) is Leaf <==> n is Leaf)
            &&& (with_parent(n, p) is Split <==> n is Split)
            &&& (n is Split ==> {
                &&& split_of(with_parent(n, p)).axis == split_of(n).axis
                &&& split_of(with_parent(n, p)).a == split_of(n).a
                &&& split_of(with_parent(n, p)).b == split_of(n).b
                &&& split_of(with_parent(n, p)).weights == split_of(n).weights
            })
        },
{
}


/// Applying an order-keeping preset again, to the subtree it rebuilt (once
/// that subtree is selected), succeeds and changes nothing.
pub proof fn law_preset_repeat_session<T>(
    s1: Session<T>,
    s2: Session<T>,
    r: Result<(), OpError>,
    m0: Map<NodeId, Node<T>>,
    mb: Map<NodeId, Node<T>>,
    n0: nat,
    n1: nat,
    ls: Seq<NodeId>,
    x: NodeId,
    pp: Option<NodeId>,
    sel: NodeId,
    preset: PresetKind,
)
    requires
        preset_keeps_order(preset),
        built(m0, mb, n0, n1, ls, x, shape_of_built(mb, x)),
        is_preset_layout(mb, x, ls, preset),
        pp matches Some(q) ==> !shape_of(mb, x).ids().contains(q),
        s1.tree.nodes@ == hooked_map(mb, pp, sel, x),
        s1.selection == Some(x),
        preset_outcome(s1, s2, r, preset),
    ensures
        r is Ok,
        s2 == s1,
{
    law_preset_rebuild(m0, mb, n0, n1, ls, x, pp, sel, preset);
}


/// A subtree with the layout of a preset over `ls` has as its leaves, left to
/// right, `layout_leaves(preset, ls)`: the leaves it was built from, in their
/// order for an order-keeping preset.
pub proof fn law_preset_layout_leaves<T>(m: Map<NodeId, Node<T>>, id: NodeId, ls: Seq<NodeId>, preset: PresetKind)
    requires
        is_preset_layout(m, id, ls, preset),
        crate::tree::finite_below(m, id),
    ensures
        shape_of(m, id).leaves() == layout_leaves(preset, ls),
        shape_of(m, id).leaves().to_set() == ls.to_set(),
{
    let s = shape_of(m, id);
    crate::tree::lemma_shape_of(m, id, s);
    lemma_preset_kept(m, m, id, ls, preset, s);
    lemma_layout_leaves_set(preset, ls);
}


/// The axis a balanced layout gives the splits right below a split along
/// `axis`: the other axis when the layout alternates, the same one otherwise.
pub open spec fn axis_below(axis: Axis, alternate: bool) -> Axis {
    if !alternate {
        axis
    } else if axis == Axis::X {
        Axis::Y
    } else {
        Axis::X
    }
}

/// Every split of `s` whose child is a split hands that child the axis
/// `axis_below` gives.
pub open spec fn axes_alternate<T>(m: Map<NodeId, Node<T>>, s: Shape, alternate: bool) -> bool {
    forall|k: NodeId| #[trigger] s.ids().contains(k) && is_split_at(m, k) ==> {
        &&& (is_split_at(m, split_of(m[k]).a) ==> split_of(m[split_of(m[k]).a]).axis == axis_below(
            split_of(m[k]).axis,
            alternate,
        ))
        &&& (is_split_at(m, split_of(m[k]).b) ==> split_of(m[split_of(m[k]).b]).axis == axis_below(
            split_of(m[k]).axis,
            alternate,
        ))
    }
}

proof fn lemma_balanced_axes<T>(
    m: Map<NodeId, Node<T>>,
    id: NodeId,
    ls: Seq<NodeId>,
    axis: Axis,
    alternate: bool,
    s: Shape,
)
    requires
        is_balanced(m, id, ls, axis, alternate),
        has_shape(m, id, s),
    ensures
        ls.len() >= 2 ==> is_split_at(m, id) && split_of(m[id]).axis == axis,
        ls.len() == 1 ==> !is_split_at(m, id),
        axes_alternate(m, s, alternate),
    decreases ls.len(),
{
    if ls.len() == 1 {
        assert(s == Shape::Tip(id));
        assert(s.ids() =~= set![id]);
    } else {
        let h = half(ls.len() as int);
        let sn = split_of(m[id]);
        match s {
            Shape::Tip(_) => {},
            Shape::Fork(i, l, r) => {
                lemma_balanced_axes(m, sn.a, ls.take(h), next_axis(axis, alternate), alternate, *l);
                lemma_balanced_axes(m, sn.b, ls.skip(h), next_axis(axis, alternate), alternate, *r);
                assert forall|k: NodeId| #[trigger] s.ids().contains(k) && is_split_at(m, k) implies {
                    &&& (is_split_at(m, split_of(m[k]).a) ==> split_of(m[split_of(m[k]).a]).axis == axis_below(
                        split_of(m[k]).axis,
                        alternate,
                    ))
                    &&& (is_split_at(m, split_of(m[k]).b) ==> split_of(m[split_of(m[k]).b]).axis == axis_below(
                        split_of(m[k]).axis,
                        alternate,
                    ))
                } by {
                    if k != id {
                        if l.ids().contains(k) {
                        } else {
                            assert(r.ids().contains(k));
                        }
                    }
                }
            },
        }
    }
}

/// In a balanced layout the top split lies along the start axis, and every
/// split right below a split lies along the other axis when the layout
/// alternates, along the same axis when it does not.
pub proof fn law_balanced_axes_alternate<T>(m: Map<NodeId, Node<T>>, id: NodeId, ls: Seq<NodeId>, p: BalancedPreset)
    requires
        is_preset_layout(m, id, ls, PresetKind::Balanced(p)),
        crate::tree::finite_below(m, id),
    ensures
        ls.len() >= 2 ==> is_split_at(m, id) && split_of(m[id]).axis == p.start_axis,
        axes_alternate(m, shape_of(m, id), p.alternate),
{
    let s = shape_of(m, id);
    crate::tree::lemma_shape_of(m, id, choose|t: Shape| has_shape(m, id, t));
    lemma_balanced_axes(m, id, ls, p.start_axis, p.alternate, s);
}

/// One to `k`, in lowest terms, is itself.
proof fn lemma_canonical_one(k: u32)
    ensures
        spec_canonical(1, k) == (WeightPair { a: 1, b: k }),
{
    if k != 0 {
        reveal_with_fuel(crate::limits::spec_gcd, 3);
        if k == 1 {
            assert(crate::limits::spec_gcd(1, 1) == 1);
        } else {
            assert(1nat % (k as nat) == 1) by (nonlinear_arith)
                requires
                    k > 1,
            ;
            assert((k as nat) % 1nat == 0) by (nonlinear_arith);
            assert(crate::limits::spec_gcd(1, 0) == 1);
            assert(crate::limits::spec_gcd(k as nat, 1) == 1);
            assert(crate::limits::spec_gcd(1, k as nat) == 1);
        }
        assert(crate::limits::spec_gcd(1, k as nat) == 1);
        assert(1nat / 1nat == 1);
        assert((k as nat) / 1nat == k as nat);
    }
}

/// Every split of `s` weighs its first child against the rest as one to the
/// number of leaves below it less one, so each leaf of the stack gets the same
/// share.
pub open spec fn equal_shares<T>(m: Map<NodeId, Node<T>>, s: Shape) -> bool {
    forall|k: NodeId| #[trigger] s.ids().contains(k) && is_split_at(m, k) ==> split_of(m[k]).weights == (
    WeightPair { a: 1, b: (shape_of(m, k).leaves().len() - 1) as u32 })
}

proof fn lemma_linear_shares<T>(m: Map<NodeId, Node<T>>, id: NodeId, ls: Seq<NodeId>, axis: Axis, s: Shape)
    requires
        is_equal_linear(m, id, ls, axis),
        has_shape(m, id, s),
    ensures
        s.leaves() == ls,
        equal_shares(m, s),
    decreases ls.len(),
{
    crate::tree::lemma_shape_of(m, id, s);
    if ls.len() == 1 {
        assert(s == Shape::Tip(id));
        assert(s.ids() =~= set![id]);
        assert(s.leaves() =~= ls);
    } else {
        let sn = split_of(m[id]);
        match s {
            Shape::Tip(_) => {},
            Shape::Fork(i, l, r) => {
                assert(has_shape(m, sn.a, *l));
                assert(leaf_at(m, sn.a));
                match *l {
                    Shape::Tip(x) => {
                        assert(x == sn.a);
                    },
                    Shape::Fork(..) => {
                        assert(!is_split_at(m, sn.a));
                    },
                }
                assert(*l == Shape::Tip(sn.a));
                assert(l.leaves() =~= seq![ls[0]]);
                assert(ls =~= seq![ls[0]] + ls.skip(1));
                lemma_linear_shares(m, sn.b, ls.skip(1), axis, *r);
                assert(s.leaves() =~= ls);
                lemma_canonical_one((ls.len() - 1) as u32);
                assert forall|k: NodeId| #[trigger] s.ids().contains(k) && is_split_at(m, k) implies split_of(
                    m[k],
                ).weights == (WeightPair { a: 1, b: (shape_of(m, k).leaves().len() - 1) as u32 }) by {
                    if k != id {
                        if l.ids().contains(k) {
                            assert(l.ids() =~= set![sn.a]);
                        } else {
                            assert(r.ids().contains(k));
                        }
                    }
                }
            },
        }
    }
}

/// A Tall or Wide layout stacks every leaf but the master with equal shares:
/// each split of the stack weighs its first leaf against the rest as one to
/// the number of leaves below it less one, and the stack holds the other
/// leaves in order.
pub proof fn law_stack_equal_shares<T>(m: Map<NodeId, Node<T>>, id: NodeId, ls: Seq<NodeId>, preset: PresetKind)
    requires
        preset is Tall || preset is Wide,
        is_preset_layout(m, id, ls, preset),
        ls.len() >= 2,
        crate::tree::finite_below(m, id),
    ensures
        ({
            let sn = split_of(m[id]);
            let master_slot = match preset {
                PresetKind::Tall(p) => p.master_slot,
                PresetKind::Wide(p) => p.master_slot,
                _ => Slot::A,
            };
            let stack = if master_slot is A {
                sn.b
            } else {
                sn.a
            };
            &&& crate::tree::finite_below(m, stack)
            &&& shape_of(m, stack).leaves() == ls.skip(1)
            &&& equal_shares(m, shape_of(m, stack))
        }),
{
    let sn = split_of(m[id]);
    let st = choose|t: Shape| has_shape(m, id, t);
    crate::tree::lemma_shape_of(m, id, st);
    let axis = stack_axis_of(preset);
    let (slot, stack) = match preset {
        PresetKind::Tall(p) => (p.master_slot, if p.master_slot is A { sn.b } else { sn.a }),
        PresetKind::Wide(p) => (p.master_slot, if p.master_slot is A { sn.b } else { sn.a }),
        _ => (Slot::A, sn.b),
    };
    match st {
        Shape::Tip(_) => {},
        Shape::Fork(_, l, r) => {
            let ss = if slot is A {
                *r
            } else {
                *l
            };
            lemma_linear_shares(m, stack, ls.skip(1), axis, ss);
            crate::tree::lemma_shape_of(m, stack, ss);
        },
    }
}

} // verus!
