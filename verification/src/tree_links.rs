use vstd::prelude::*;

use crate::ids::NodeId;
use crate::geom::{Axis, Slot};
use crate::limits::WeightPair;
use crate::tree::{
    attach_stage, map_replace_child, map_set_parent, replaced_child, slot_pair, with_parent,
    SplitNode, has_shape, is_split_at, lemma_parent_path, lemma_shape_id, lemma_shape_of, lemma_sub_shape,
    node_parent, node_valid, parents_ok, shape_of, split_of, subtree_ok, tree_ok, Node, Shape,
    can_collapse, can_detach, map_lift, root_lift, spec_sibling, can_replace_child, Tree,
};

verus! {

/// Local description of a well-formed tree: the root is stored and
/// parentless, every node is valid, every split's children are stored and
/// name it as parent, every other node names a stored split that lists it as
/// parent, and parents rank strictly below their children.
pub open spec fn links_ok<T>(m: Map<NodeId, Node<T>>, root: Option<NodeId>, rank: Map<NodeId, nat>) -> bool {
    &&& match root {
        None => m.dom() =~= Set::<NodeId>::empty(),
        Some(r) => m.contains_key(r) && node_parent(m[r]) is None,
    }
    &&& forall|x: NodeId| #[trigger] m.contains_key(x) ==> node_valid(m[x])
    &&& forall|x: NodeId| #[trigger] m.contains_key(x) && m[x] is Split ==> {
        &&& m.contains_key(split_of(m[x]).a)
        &&& m.contains_key(split_of(m[x]).b)
        &&& node_parent(m[split_of(m[x]).a]) == Some(x)
        &&& node_parent(m[split_of(m[x]).b]) == Some(x)
    }
    &&& forall|x: NodeId| #[trigger] m.contains_key(x) ==> match node_parent(m[x]) {
        Some(p) => {
            &&& is_split_at(m, p)
            &&& (split_of(m[p]).a == x || split_of(m[p]).b == x)
            &&& rank[p] < rank[x]
        },
        None => root == Some(x),
    }
}

/// The parent of a non-top node of a proper shape is a split listing it.
pub proof fn lemma_parent_lists_child<T>(m: Map<NodeId, Node<T>>, id: NodeId, s: Shape, p: Option<NodeId>, x: NodeId)
    requires
        has_shape(m, id, s),
        s.distinct(),
        parents_ok(m, s, p),
        s.ids().contains(x),
        x != s.id(),
    ensures
        node_parent(m[x]) is Some,
        is_split_at(m, node_parent(m[x])->0),
        split_of(m[node_parent(m[x])->0]).a == x || split_of(m[node_parent(m[x])->0]).b == x,
    decreases s,
{
    match s {
        Shape::Tip(i) => {
            assert(s.ids().contains(i));
            assert(x == i);
        },
        Shape::Fork(i, l, r) => {
            let a = split_of(m[id]).a;
            let b = split_of(m[id]).b;
            lemma_shape_id(m, a, *l);
            lemma_shape_id(m, b, *r);
            assert(parents_ok(m, *l, Some(i)));
            assert(parents_ok(m, *r, Some(i)));
            if l.ids().contains(x) {
                if x != l.id() {
                    lemma_parent_lists_child(m, a, *l, Some(i), x);
                } else {
                    assert(node_parent(m[l.id()]) == Some(i));
                    assert(is_split_at(m, i));
                }
            } else {
                assert(r.ids().contains(x));
                if x != r.id() {
                    lemma_parent_lists_child(m, b, *r, Some(i), x);
                } else {
                    assert(node_parent(m[r.id()]) == Some(i));
                    assert(is_split_at(m, i));
                }
            }
        },
    }
}

/// Parent links of a sub-shape are consistent too.
pub proof fn lemma_sub_parents<T>(m: Map<NodeId, Node<T>>, s: Shape, p: Option<NodeId>, x: NodeId)
    requires
        parents_ok(m, s, p),
        s.ids().contains(x),
    ensures
        parents_ok(m, s.sub(x), node_parent(m[x])),
    decreases s,
{
    match s {
        Shape::Tip(_) => {},
        Shape::Fork(i, l, r) => {
            if x != i {
                if l.ids().contains(x) {
                    lemma_sub_parents(m, *l, Some(i), x);
                } else {
                    lemma_sub_parents(m, *r, Some(i), x);
                }
            }
        },
    }
}

/// The depth of every node of the shape, as a rank.
pub open spec fn depth_rank(s: Shape) -> Map<NodeId, nat> {
    Map::new(|x: NodeId| s.ids().contains(x), |x: NodeId| s.path_to(x).len())
}

/// A well-formed tree satisfies the local description, ranked by depth.
pub proof fn lemma_tree_to_links<T>(m: Map<NodeId, Node<T>>, root: Option<NodeId>)
    requires
        tree_ok(m, root),
    ensures
        links_ok(m, root, depth_rank(shape_of(m, root.unwrap()))),
{
    if let Some(r) = root {
        let s = shape_of(m, r);
        let rank = depth_rank(s);
        lemma_shape_id(m, r, s);
        assert forall|x: NodeId| #[trigger] m.contains_key(x) && m[x] is Split implies {
            &&& m.contains_key(split_of(m[x]).a)
            &&& m.contains_key(split_of(m[x]).b)
            &&& node_parent(m[split_of(m[x]).a]) == Some(x)
            &&& node_parent(m[split_of(m[x]).b]) == Some(x)
        } by {
            assert(s.ids().contains(x));
            lemma_sub_shape(m, r, s, x);
            lemma_sub_parents(m, s, None, x);
            let t = s.sub(x);
            match t {
                Shape::Fork(_, l, rr) => {
                    lemma_shape_id(m, split_of(m[x]).a, *l);
                    lemma_shape_id(m, split_of(m[x]).b, *rr);
                    assert(t.ids().contains(split_of(m[x]).a));
                    assert(t.ids().contains(split_of(m[x]).b));
                    assert(s.ids().contains(split_of(m[x]).a));
                    assert(s.ids().contains(split_of(m[x]).b));
                    assert(parents_ok(m, *l, Some(x)));
                    assert(parents_ok(m, *rr, Some(x)));
                },
                Shape::Tip(_) => {},
            }
        }
        assert forall|x: NodeId| #[trigger] m.contains_key(x) implies match node_parent(m[x]) {
            Some(p) => {
                &&& is_split_at(m, p)
                &&& (split_of(m[p]).a == x || split_of(m[p]).b == x)
                &&& rank[p] < rank[x]
            },
            None => root == Some(x),
        } by {
            assert(s.ids().contains(x));
            lemma_parent_path(m, s, None, x);
            if x != s.id() {
                lemma_parent_lists_child(m, r, s, None, x);
            }
        }
    }
}

/// An upper bound of a rank over a finite set.
pub proof fn lemma_rank_bound(d: Set<NodeId>, rank: Map<NodeId, nat>) -> (b: nat)
    requires
        d.finite(),
    ensures
        forall|x: NodeId| d.contains(x) ==> rank[x] <= b,
    decreases d.len(),
{
    if d.len() == 0 {
        assert forall|x: NodeId| d.contains(x) implies rank[x] <= 0 by {
            assert(d.len() > 0) by {
                vstd::set::axiom_set_contains_len(d, x);
            }
        }
        0
    } else {
        let y = d.choose();
        let b0 = lemma_rank_bound(d.remove(y), rank);
        let b = if rank[y] > b0 {
            rank[y]
        } else {
            b0
        };
        assert forall|x: NodeId| d.contains(x) implies rank[x] <= b by {
            if x != y {
                assert(d.remove(y).contains(x));
            }
        }
        b
    }
}

/// The shape that links describe below `x`, unfolded at most `fuel` levels.
pub open spec fn build<T>(m: Map<NodeId, Node<T>>, x: NodeId, fuel: nat) -> Shape
    decreases fuel,
{
    if fuel == 0 || !is_split_at(m, x) {
        Shape::Tip(x)
    } else {
        Shape::Fork(
            x,
            Box::new(build(m, split_of(m[x]).a, (fuel - 1) as nat)),
            Box::new(build(m, split_of(m[x]).b, (fuel - 1) as nat)),
        )
    }
}

/// Facts about the shape built below a node.
pub open spec fn build_facts<T>(m: Map<NodeId, Node<T>>, rank: Map<NodeId, nat>, x: NodeId, s: Shape) -> bool {
    &&& has_shape(m, x, s)
    &&& s.ids().subset_of(m.dom())
    &&& parents_ok(m, s, node_parent(m[x]))
    &&& (forall|y: NodeId| #[trigger] s.ids().contains(y) ==> rank[y] >= rank[x])
    &&& (forall|y: NodeId| #[trigger] s.ids().contains(y) && y != x ==> {
        &&& node_parent(m[y]) is Some
        &&& s.ids().contains(node_parent(m[y])->0)
    })
    &&& s.distinct()
}

proof fn lemma_build<T>(m: Map<NodeId, Node<T>>, root: Option<NodeId>, rank: Map<NodeId, nat>, bound: nat, x: NodeId, fuel: nat)
    requires
        links_ok(m, root, rank),
        forall|y: NodeId| m.contains_key(y) ==> rank[y] <= bound,
        m.contains_key(x),
        rank[x] + fuel > bound,
    ensures
        build_facts(m, rank, x, build(m, x, fuel)),
    decreases fuel,
{
    let s = build(m, x, fuel);
    if fuel == 0 {
        assert(rank[x] <= bound);
    } else if is_split_at(m, x) {
        let a = split_of(m[x]).a;
        let b = split_of(m[x]).b;
        let f1 = (fuel - 1) as nat;
        assert(node_parent(m[a]) == Some(x));
        assert(node_parent(m[b]) == Some(x));
        assert(m.contains_key(a));
        assert(m.contains_key(b));
        assert(rank[x] < rank[a]);
        assert(rank[x] < rank[b]);
        lemma_build(m, root, rank, bound, a, f1);
        lemma_build(m, root, rank, bound, b, f1);
        let l = build(m, a, f1);
        let r = build(m, b, f1);
        assert(node_valid(m[x]));
        assert forall|y: NodeId| !(l.ids().contains(y) && r.ids().contains(y)) by {
            lemma_no_shared(m, root, rank, x, l, r, y);
        }
        assert(l.ids().disjoint(r.ids()));
        assert(s.ids() == l.ids().union(r.ids()).insert(x));
        assert forall|y: NodeId| #[trigger] s.ids().contains(y) && y != x implies {
            &&& node_parent(m[y]) is Some
            &&& s.ids().contains(node_parent(m[y])->0)
        } by {
            if l.ids().contains(y) {
                if y == a {
                } else {
                }
            } else {
                assert(r.ids().contains(y));
            }
        }
    } else {
        assert(s.ids() =~= set![x]);
    }
}

proof fn lemma_no_shared<T>(m: Map<NodeId, Node<T>>, root: Option<NodeId>, rank: Map<NodeId, nat>, x: NodeId, l: Shape, r: Shape, y: NodeId)
    requires
        links_ok(m, root, rank),
        m.contains_key(x),
        is_split_at(m, x),
        build_facts(m, rank, split_of(m[x]).a, l),
        build_facts(m, rank, split_of(m[x]).b, r),
    ensures
        !(l.ids().contains(y) && r.ids().contains(y)),
    decreases rank[y],
{
    let a = split_of(m[x]).a;
    let b = split_of(m[x]).b;
    assert(node_valid(m[x]));
    assert(node_parent(m[a]) == Some(x));
    assert(node_parent(m[b]) == Some(x));
    assert(m.contains_key(a));
    assert(m.contains_key(b));
    assert(rank[x] < rank[a]);
    assert(rank[x] < rank[b]);
    if l.ids().contains(y) && r.ids().contains(y) {
        if y == a {
            assert(r.ids().contains(x));
            assert(rank[x] >= rank[b]);
        } else if y == b {
            assert(l.ids().contains(x));
            assert(rank[x] >= rank[a]);
        } else {
            let q = node_parent(m[y])->0;
            assert(m.contains_key(y));
            assert(rank[q] < rank[y]);
            lemma_no_shared(m, root, rank, x, l, r, q);
        }
    }
}

/// Every stored node lies in the shape built from the root.
proof fn lemma_build_covers<T>(m: Map<NodeId, Node<T>>, r: NodeId, rank: Map<NodeId, nat>, bound: nat, z: NodeId)
    requires
        links_ok(m, Some(r), rank),
        forall|y: NodeId| m.contains_key(y) ==> rank[y] <= bound,
        m.contains_key(z),
        has_shape(m, r, build(m, r, bound + 1)),
    ensures
        build(m, r, bound + 1).ids().contains(z),
    decreases rank[z],
{
    let s = build(m, r, bound + 1);
    lemma_shape_id(m, r, s);
    if z != r {
        let p = node_parent(m[z])->0;
        assert(m.contains_key(z));
        assert(node_parent(m[z]) is Some);
        assert(m.contains_key(p));
        lemma_build_covers(m, r, rank, bound, p);
        lemma_sub_shape(m, r, s, p);
        let t = s.sub(p);
        match t {
            Shape::Fork(_, tl, tr) => {
                lemma_shape_id(m, split_of(m[p]).a, *tl);
                lemma_shape_id(m, split_of(m[p]).b, *tr);
                assert(t.ids().contains(z));
            },
            Shape::Tip(_) => {},
        }
    }
}

/// The local description implies a well-formed tree.
pub proof fn lemma_links_to_tree<T>(m: Map<NodeId, Node<T>>, root: Option<NodeId>, rank: Map<NodeId, nat>)
    requires
        links_ok(m, root, rank),
        m.dom().finite(),
    ensures
        tree_ok(m, root),
{
    if let Some(r) = root {
        let bound = lemma_rank_bound(m.dom(), rank);
        lemma_build(m, root, rank, bound, r, bound + 1);
        let s = build(m, r, bound + 1);
        lemma_shape_of(m, r, s);
        assert forall|z: NodeId| m.contains_key(z) implies s.ids().contains(z) by {
            lemma_build_covers(m, r, rank, bound, z);
        }
        assert(s.ids() =~= m.dom());
        assert(subtree_ok(m, r, None, s));
    }
}


/// The node map after wrapping `x` in a new split `sid` whose other child is
/// the new leaf `leaf_id`: the split takes `x`'s place under `x`'s parent.
pub open spec fn wrapped_map<T>(
    m: Map<NodeId, Node<T>>,
    x: NodeId,
    leaf_id: NodeId,
    leaf: Node<T>,
    sid: NodeId,
    axis: Axis,
    slot: Slot,
    weights: WeightPair,
) -> Map<NodeId, Node<T>> {
    let p = node_parent(m[x]);
    let (a, b) = slot_pair(x, leaf_id, slot);
    let base = m.insert(leaf_id, with_parent(leaf, Some(sid))).insert(
        x,
        with_parent(m[x], Some(sid)),
    ).insert(sid, Node::Split(SplitNode { parent: p, axis, a, b, weights }));
    match p {
        Some(q) => base.insert(q, Node::Split(replaced_child(split_of(m[q]), x, sid))),
        None => base,
    }
}

/// The root after wrapping `x` in the split `sid`.
pub open spec fn wrapped_root<T>(m: Map<NodeId, Node<T>>, root: Option<NodeId>, x: NodeId, sid: NodeId) -> Option<NodeId> {
    match node_parent(m[x]) {
        Some(_) => root,
        None => Some(sid),
    }
}

/// The map that `new_leaf` followed by `attach_as_sibling` produces is
/// `wrapped_map`.
pub proof fn lemma_wrap_map<T>(
    m: Map<NodeId, Node<T>>,
    root: Option<NodeId>,
    x: NodeId,
    leaf_id: NodeId,
    leaf: Node<T>,
    sid: NodeId,
    axis: Axis,
    slot: Slot,
    weights: WeightPair,
)
    requires
        tree_ok(m, root),
        m.contains_key(x),
        !m.contains_key(leaf_id),
        !m.contains_key(sid),
        leaf_id != sid,
        node_parent(leaf) is None,
    ensures
        ({
            let m1 = m.insert(leaf_id, leaf);
            let st = attach_stage(m1, x, leaf_id, axis, slot, weights, sid);
            let fin = match node_parent(m1[x]) {
                Some(p) => map_set_parent(map_replace_child(st, p, x, sid), sid, Some(p)),
                None => map_set_parent(st, sid, None),
            };
            &&& fin =~= wrapped_map(m, x, leaf_id, leaf, sid, axis, slot, weights)
            &&& (node_parent(m1[x]) matches Some(p) ==> crate::tree::can_replace_child(st, p, x, sid))
        }),
{
    lemma_tree_to_links(m, root);
    let m1 = m.insert(leaf_id, leaf);
    assert(m1[x] == m[x]);
    if let Some(p) = node_parent(m[x]) {
        assert(m.contains_key(x));
        assert(is_split_at(m, p));
        assert(p != x);
        let rank = depth_rank(shape_of(m, root.unwrap()));
        assert(rank[p] < rank[x]);
    }
}

/// Wrapping a node of a well-formed tree with a new valid leaf under a new
/// split with valid weights gives a well-formed tree.
pub proof fn lemma_wrap_ok<T>(
    m: Map<NodeId, Node<T>>,
    root: Option<NodeId>,
    x: NodeId,
    leaf_id: NodeId,
    leaf: Node<T>,
    sid: NodeId,
    axis: Axis,
    slot: Slot,
    weights: WeightPair,
)
    requires
        tree_ok(m, root),
        m.dom().finite(),
        m.contains_key(x),
        !m.contains_key(leaf_id),
        !m.contains_key(sid),
        leaf_id != sid,
        leaf is Leaf,
        node_valid(leaf),
        weights.spec_valid(),
    ensures
        tree_ok(
            wrapped_map(m, x, leaf_id, leaf, sid, axis, slot, weights),
            wrapped_root(m, root, x, sid),
        ),
        wrapped_map(m, x, leaf_id, leaf, sid, axis, slot, weights).dom() =~= m.dom().insert(
            leaf_id,
        ).insert(sid),
{
    lemma_tree_to_links(m, root);
    let rank = depth_rank(shape_of(m, root.unwrap()));
    let mm = wrapped_map(m, x, leaf_id, leaf, sid, axis, slot, weights);
    let nr = wrapped_root(m, root, x, sid);
    let p = node_parent(m[x]);
    let (a, b) = slot_pair(x, leaf_id, slot);
    let rank2 = Map::new(
        |k: NodeId| mm.contains_key(k),
        |k: NodeId| if k == sid {
            2 * rank[x] + 1
        } else if k == leaf_id {
            2 * rank[x] + 2
        } else {
            2 * rank[k] + 2
        },
    );
    if let Some(q) = p {
        assert(is_split_at(m, q));
        assert(q != x);
        assert(rank[q] < rank[x]);
        assert(m.contains_key(q));
    } else {
        assert(root == Some(x));
    }
    assert(mm.dom() =~= m.dom().insert(leaf_id).insert(sid));
    // The entries of the new map.
    assert(mm[sid] == Node::<T>::Split(SplitNode { parent: p, axis, a, b, weights }));
    assert(mm[leaf_id] == with_parent(leaf, Some(sid)));
    assert(mm[x] == with_parent(m[x], Some(sid)));
    assert forall|k: NodeId| #[trigger] mm.contains_key(k) && k != sid && k != leaf_id && k != x
        && Some(k) != p implies mm[k] == m[k] by {}
    // Root.
    match root {
        Some(r) => {
            if p is Some {
                assert(r != x);
                assert(mm.contains_key(r) && node_parent(mm[r]) is None);
            }
        },
        None => {
            assert(m.contains_key(x));
            assert(false);
        },
    }
    assert forall|k: NodeId| #[trigger] mm.contains_key(k) implies node_valid(mm[k]) by {
        if k == sid {
        } else if k == leaf_id {
        } else if k == x {
            assert(node_valid(m[x]));
        } else if Some(k) == p {
            assert(node_valid(m[k]));
            assert(split_of(m[k]).a != split_of(m[k]).b);
        } else {
            assert(node_valid(m[k]));
        }
    }
    assert forall|k: NodeId| #[trigger] mm.contains_key(k) && mm[k] is Split implies {
        &&& mm.contains_key(split_of(mm[k]).a)
        &&& mm.contains_key(split_of(mm[k]).b)
        &&& node_parent(mm[split_of(mm[k]).a]) == Some(k)
        &&& node_parent(mm[split_of(mm[k]).b]) == Some(k)
    } by {
        if k == sid {
        } else if k == leaf_id {
        } else if k == x {
            assert(m[x] is Split);
            let ca = split_of(m[x]).a;
            let cb = split_of(m[x]).b;
            assert(m.contains_key(ca) && m.contains_key(cb));
            assert(node_parent(m[ca]) == Some(x));
            assert(node_parent(m[cb]) == Some(x));
            assert(rank[x] < rank[ca]);
            assert(rank[x] < rank[cb]);
            if let Some(q) = p {
                assert(rank[q] < rank[x]);
            }
        } else if Some(k) == p {
            let ca = split_of(m[k]).a;
            let cb = split_of(m[k]).b;
            assert(m.contains_key(ca) && m.contains_key(cb));
            assert(node_parent(m[ca]) == Some(k));
            assert(node_parent(m[cb]) == Some(k));
            assert(rank[k] < rank[ca]);
            assert(rank[k] < rank[cb]);
        } else {
            let ca = split_of(m[k]).a;
            let cb = split_of(m[k]).b;
            assert(m.contains_key(ca) && m.contains_key(cb));
            assert(node_parent(m[ca]) == Some(k));
            assert(node_parent(m[cb]) == Some(k));
            if ca == x {
                assert(p == Some(k));
            }
            if cb == x {
                assert(p == Some(k));
            }
            if let Some(q) = p {
                if ca == q {
                    assert(rank[k] < rank[q]);
                }
                if cb == q {
                    assert(rank[k] < rank[q]);
                }
            }
        }
    }
    assert forall|k: NodeId| #[trigger] mm.contains_key(k) implies match node_parent(mm[k]) {
        Some(pp) => {
            &&& is_split_at(mm, pp)
            &&& (split_of(mm[pp]).a == k || split_of(mm[pp]).b == k)
            &&& rank2[pp] < rank2[k]
        },
        None => nr == Some(k),
    } by {
        if k == sid {
            if let Some(q) = p {
                assert(mm.contains_key(q));
                assert(split_of(m[q]).a == x || split_of(m[q]).b == x);
            }
        } else if k == leaf_id {
        } else if k == x {
        } else {
            assert(m.contains_key(k));
            match node_parent(m[k]) {
                Some(pp) => {
                    assert(is_split_at(m, pp));
                    assert(split_of(m[pp]).a == k || split_of(m[pp]).b == k);
                    assert(rank[pp] < rank[k]);
                    assert(mm.contains_key(pp));
                    if Some(pp) == p {
                        assert(node_valid(m[pp]));
                    } else if pp == x {
                    }
                },
                None => {
                    assert(root == Some(k));
                    if p is None {
                        assert(root == Some(x));
                    }
                },
            }
        }
    }
    assert(links_ok(mm, nr, rank2));
    lemma_links_to_tree(mm, nr, rank2);
}

/// Rewriting nodes without touching any child link, split marker or parent
/// link keeps a tree well formed, as long as every node stays valid.
pub proof fn lemma_same_links_ok<T>(m: Map<NodeId, Node<T>>, m2: Map<NodeId, Node<T>>, root: Option<NodeId>)
    requires
        tree_ok(m, root),
        m.dom().finite(),
        crate::tree::same_links(m, m2),
        forall|k: NodeId| #[trigger] m.contains_key(k) ==> node_parent(m2[k]) == node_parent(m[k]),
        forall|k: NodeId| #[trigger] m2.contains_key(k) ==> node_valid(m2[k]),
    ensures
        tree_ok(m2, root),
{
    lemma_tree_to_links(m, root);
    let rank = depth_rank(shape_of(m, root.unwrap()));
    assert forall|x: NodeId| #[trigger] m2.contains_key(x) && m2[x] is Split implies {
        &&& m2.contains_key(split_of(m2[x]).a)
        &&& m2.contains_key(split_of(m2[x]).b)
        &&& node_parent(m2[split_of(m2[x]).a]) == Some(x)
        &&& node_parent(m2[split_of(m2[x]).b]) == Some(x)
    } by {
        assert(m.contains_key(x));
        assert(m.contains_key(split_of(m[x]).a));
        assert(m.contains_key(split_of(m[x]).b));
    }
    assert forall|x: NodeId| #[trigger] m2.contains_key(x) implies match node_parent(m2[x]) {
        Some(p) => {
            &&& is_split_at(m2, p)
            &&& (split_of(m2[p]).a == x || split_of(m2[p]).b == x)
            &&& rank[p] < rank[x]
        },
        None => root == Some(x),
    } by {
        assert(m.contains_key(x));
        if let Some(p) = node_parent(m[x]) {
            assert(m.contains_key(p));
        }
    }
    if let Some(r) = root {
        assert(m.contains_key(r));
    }
    assert(links_ok(m2, root, rank));
    lemma_links_to_tree(m2, root, rank);
}

/// Exchanging the two children of one split (keeping its parent and giving it
/// valid weights) keeps a tree well formed.
pub proof fn lemma_swap_children_ok<T>(m: Map<NodeId, Node<T>>, root: Option<NodeId>, id: NodeId, sn: SplitNode)
    requires
        tree_ok(m, root),
        m.dom().finite(),
        is_split_at(m, id),
        sn.parent == split_of(m[id]).parent,
        sn.a == split_of(m[id]).b,
        sn.b == split_of(m[id]).a,
        sn.weights.spec_valid(),
    ensures
        tree_ok(m.insert(id, Node::Split(sn)), root),
{
    lemma_tree_to_links(m, root);
    let rank = depth_rank(shape_of(m, root.unwrap()));
    let m2 = m.insert(id, Node::Split(sn));
    assert(node_valid(m[id]));
    assert forall|x: NodeId| #[trigger] m2.contains_key(x) implies node_valid(m2[x]) by {
        assert(m.contains_key(x));
    }
    assert forall|x: NodeId| #[trigger] m2.contains_key(x) && m2[x] is Split implies {
        &&& m2.contains_key(split_of(m2[x]).a)
        &&& m2.contains_key(split_of(m2[x]).b)
        &&& node_parent(m2[split_of(m2[x]).a]) == Some(x)
        &&& node_parent(m2[split_of(m2[x]).b]) == Some(x)
    } by {
        assert(m.contains_key(x));
        assert(m.contains_key(split_of(m[x]).a));
        assert(m.contains_key(split_of(m[x]).b));
        if split_of(m[x]).a == id {
            assert(node_parent(m[id]) == Some(x));
        }
        if split_of(m[x]).b == id {
            assert(node_parent(m[id]) == Some(x));
        }
    }
    assert forall|x: NodeId| #[trigger] m2.contains_key(x) implies match node_parent(m2[x]) {
        Some(p) => {
            &&& is_split_at(m2, p)
            &&& (split_of(m2[p]).a == x || split_of(m2[p]).b == x)
            &&& rank[p] < rank[x]
        },
        None => root == Some(x),
    } by {
        assert(m.contains_key(x));
        if let Some(p) = node_parent(m[x]) {
            assert(m.contains_key(p));
        }
    }
    if let Some(r) = root {
        assert(m.contains_key(r));
    }
    assert(links_ok(m2, root, rank));
    lemma_links_to_tree(m2, root, rank);
}

/// In a well-formed tree a node other than the root has a parent split, a
/// sibling, and can be collapsed or detached.
pub proof fn lemma_lift_facts<T>(m: Map<NodeId, Node<T>>, root: Option<NodeId>, f: NodeId)
    requires
        tree_ok(m, root),
        m.contains_key(f),
        root != Some(f),
    ensures
        node_parent(m[f]) is Some,
        is_split_at(m, node_parent(m[f])->0),
        node_parent(m[f])->0 != f,
        spec_sibling(m, f) is Some,
        spec_sibling(m, f)->0 != f,
        spec_sibling(m, f)->0 != node_parent(m[f])->0,
        m.contains_key(spec_sibling(m, f)->0),
        node_parent(m[spec_sibling(m, f)->0]) == node_parent(m[f]),
        can_collapse(m, f),
        can_detach(m, root, f),
{
    lemma_tree_to_links(m, root);
    let rank = depth_rank(shape_of(m, root.unwrap()));
    let p = node_parent(m[f])->0;
    assert(m.contains_key(p));
    assert(node_valid(m[p]));
    let sp = split_of(m[p]);
    assert(m.contains_key(sp.a) && m.contains_key(sp.b));
    assert(node_parent(m[sp.a]) == Some(p));
    assert(node_parent(m[sp.b]) == Some(p));
    assert(rank[p] < rank[sp.a]);
    assert(rank[p] < rank[sp.b]);
    let sib = spec_sibling(m, f)->0;
    if let Some(g) = node_parent(m[p]) {
        assert(m.contains_key(g));
        assert(is_split_at(m, g));
    }
}

/// Removing a non-root leaf of a well-formed tree together with its parent,
/// lifting the sibling into the parent's place, gives a well-formed tree.
pub proof fn lemma_lift_ok<T>(m: Map<NodeId, Node<T>>, root: Option<NodeId>, f: NodeId)
    requires
        tree_ok(m, root),
        m.dom().finite(),
        m.contains_key(f),
        m[f] is Leaf,
        root != Some(f),
    ensures
        ({
            let p = node_parent(m[f])->0;
            let s = spec_sibling(m, f)->0;
            &&& tree_ok(map_lift(m, p, s).remove(f), root_lift(m, root, p, s))
            &&& map_lift(m, p, s).remove(f).dom() =~= m.dom().remove(p).remove(f)
        }),
{
    lemma_lift_facts(m, root, f);
    lemma_tree_to_links(m, root);
    let rank = depth_rank(shape_of(m, root.unwrap()));
    let p = node_parent(m[f])->0;
    let s = spec_sibling(m, f)->0;
    let g = node_parent(m[p]);
    let mm = map_lift(m, p, s).remove(f);
    let nr = root_lift(m, root, p, s);
    assert(m.contains_key(p));
    assert(node_valid(m[p]));
    if let Some(gg) = g {
        assert(m.contains_key(gg));
        assert(is_split_at(m, gg));
        assert(rank[gg] < rank[p]);
        assert(gg != s);
        assert(gg != f);
        assert(node_valid(m[gg]));
    } else {
        assert(root == Some(p));
    }
    assert(rank[p] < rank[s]);
    assert(mm.dom() =~= m.dom().remove(p).remove(f));
    assert(mm[s] == with_parent(m[s], g));
    assert forall|k: NodeId| #[trigger] mm.contains_key(k) && k != s && Some(k) != g implies mm[k] == m[k] by {}
    match nr {
        Some(r) => {
            if g is Some {
                assert(root == Some(r));
                assert(r != p);
                assert(r != f);
                assert(mm.contains_key(r));
                assert(r != s);
            }
        },
        None => {},
    }
    assert forall|k: NodeId| #[trigger] mm.contains_key(k) implies node_valid(mm[k]) by {
        assert(node_valid(m[k]));
        if Some(k) == g {
            let sg = split_of(m[k]);
            assert(sg.a == p || sg.b == p);
            if sg.a == p {
                assert(sg.b != s) by {
                    assert(node_parent(m[sg.b]) == Some(k));
                }
            } else {
                assert(sg.a != s) by {
                    assert(node_parent(m[sg.a]) == Some(k));
                }
            }
        }
    }
    assert forall|k: NodeId| #[trigger] mm.contains_key(k) && mm[k] is Split implies {
        &&& mm.contains_key(split_of(mm[k]).a)
        &&& mm.contains_key(split_of(mm[k]).b)
        &&& node_parent(mm[split_of(mm[k]).a]) == Some(k)
        &&& node_parent(mm[split_of(mm[k]).b]) == Some(k)
    } by {
        let ca = split_of(m[k]).a;
        let cb = split_of(m[k]).b;
        assert(m.contains_key(ca) && m.contains_key(cb));
        assert(node_parent(m[ca]) == Some(k));
        assert(node_parent(m[cb]) == Some(k));
        assert(k != p);
        if Some(k) == g {
        } else {
            assert(ca != p && cb != p);
            assert(ca != f && cb != f);
            if ca == s || cb == s {
                assert(node_parent(m[s]) == Some(p));
            }
        }
    }
    assert forall|k: NodeId| #[trigger] mm.contains_key(k) implies match node_parent(mm[k]) {
        Some(pp) => {
            &&& is_split_at(mm, pp)
            &&& (split_of(mm[pp]).a == k || split_of(mm[pp]).b == k)
            &&& rank[pp] < rank[k]
        },
        None => nr == Some(k),
    } by {
        if k == s {
            if let Some(gg) = g {
                assert(split_of(m[gg]).a == p || split_of(m[gg]).b == p);
                assert(rank[gg] < rank[p]);
            }
        } else {
            match node_parent(m[k]) {
                Some(pp) => {
                    assert(is_split_at(m, pp));
                    assert(split_of(m[pp]).a == k || split_of(m[pp]).b == k);
                    assert(pp != p) by {
                        if pp == p {
                            let sp = split_of(m[p]);
                            assert(k == sp.a || k == sp.b);
                        }
                    }
                    assert(pp != f);
                    assert(mm.contains_key(pp));
                },
                None => {
                    assert(root == Some(k));
                },
            }
        }
    }
    assert(links_ok(mm, nr, rank));
    lemma_links_to_tree(mm, nr, rank);
}

/// The path to a node of a proper shape names distinct nodes of the shape.
pub proof fn lemma_path_no_dups(s: Shape, x: NodeId)
    requires
        s.distinct(),
        s.ids().contains(x),
    ensures
        s.path_to(x).no_duplicates(),
        forall|i: int| 0 <= i < s.path_to(x).len() ==> s.ids().contains(#[trigger] s.path_to(x)[i]),
    decreases s,
{
    match s {
        Shape::Tip(_) => {},
        Shape::Fork(i, l, r) => {
            if x != i {
                let sub = if l.ids().contains(x) {
                    *l
                } else {
                    *r
                };
                lemma_path_no_dups(sub, x);
                let p = s.path_to(x);
                assert(p == seq![i] + sub.path_to(x));
                assert forall|a: int, b: int| 0 <= a < b < p.len() implies p[a] != p[b] by {
                    if a == 0 {
                        assert(sub.ids().contains(p[b]));
                    } else {
                        assert(p[a] == sub.path_to(x)[a - 1]);
                        assert(p[b] == sub.path_to(x)[b - 1]);
                    }
                }
                assert forall|k: int| 0 <= k < p.len() implies s.ids().contains(#[trigger] p[k]) by {
                    if k > 0 {
                        assert(p[k] == sub.path_to(x)[k - 1]);
                    }
                }
            }
        },
    }
}

/// `k` lies below `x` exactly when `x` is on the path to `k`.
pub proof fn lemma_sub_path(s: Shape, x: NodeId, k: NodeId)
    requires
        s.distinct(),
        s.ids().contains(x),
        s.ids().contains(k),
    ensures
        s.sub(x).ids().contains(k) <==> s.path_to(k).contains(x),
    decreases s,
{
    match s {
        Shape::Tip(i) => {
            assert(s.path_to(k)[0] == i);
        },
        Shape::Fork(i, l, r) => {
            if x == i {
                crate::tree::lemma_path_ends(s, k);
                assert(s.path_to(k)[0] == x);
            } else if l.ids().contains(x) {
                lemma_sub_id_subset(*l, x);
                if l.ids().contains(k) {
                    lemma_sub_path(*l, x, k);
                    assert(s.path_to(k) == seq![i] + l.path_to(k));
                    if l.path_to(k).contains(x) {
                        let j = choose|j: int| 0 <= j < l.path_to(k).len() && l.path_to(k)[j] == x;
                        assert(s.path_to(k)[j + 1] == x);
                    }
                    if s.path_to(k).contains(x) {
                        let j = choose|j: int| 0 <= j < s.path_to(k).len() && s.path_to(k)[j] == x;
                        assert(j > 0);
                        assert(l.path_to(k)[j - 1] == x);
                    }
                } else if k == i {
                    assert(s.path_to(k) == seq![i]);
                } else {
                    assert(r.ids().contains(k));
                    lemma_path_no_dups(*r, k);
                    assert(s.path_to(k) == seq![i] + r.path_to(k));
                    if s.path_to(k).contains(x) {
                        let j = choose|j: int| 0 <= j < s.path_to(k).len() && s.path_to(k)[j] == x;
                        assert(j > 0);
                        assert(r.path_to(k)[j - 1] == x);
                        assert(r.ids().contains(x));
                    }
                }
            } else {
                assert(r.ids().contains(x));
                lemma_sub_id_subset(*r, x);
                if r.ids().contains(k) && !l.ids().contains(k) {
                    lemma_sub_path(*r, x, k);
                    assert(s.path_to(k) == seq![i] + r.path_to(k));
                    if r.path_to(k).contains(x) {
                        let j = choose|j: int| 0 <= j < r.path_to(k).len() && r.path_to(k)[j] == x;
                        assert(s.path_to(k)[j + 1] == x);
                    }
                    if s.path_to(k).contains(x) {
                        let j = choose|j: int| 0 <= j < s.path_to(k).len() && s.path_to(k)[j] == x;
                        assert(j > 0);
                        assert(r.path_to(k)[j - 1] == x);
                    }
                } else if k == i {
                    assert(s.path_to(k) == seq![i]);
                } else {
                    assert(l.ids().contains(k));
                    lemma_path_no_dups(*l, k);
                    assert(s.path_to(k) == seq![i] + l.path_to(k));
                    if s.path_to(k).contains(x) {
                        let j = choose|j: int| 0 <= j < s.path_to(k).len() && s.path_to(k)[j] == x;
                        assert(j > 0);
                        assert(l.path_to(k)[j - 1] == x);
                        assert(l.ids().contains(x));
                    }
                }
            }
        },
    }
}

/// The identifiers below a node of a shape are identifiers of the shape.
pub proof fn lemma_sub_id_subset(s: Shape, x: NodeId)
    requires
        s.ids().contains(x),
    ensures
        s.sub(x).ids().subset_of(s.ids()),
    decreases s,
{
    match s {
        Shape::Tip(_) => {},
        Shape::Fork(i, l, r) => {
            if x != i {
                if l.ids().contains(x) {
                    lemma_sub_id_subset(*l, x);
                } else {
                    lemma_sub_id_subset(*r, x);
                }
            }
        },
    }
}

/// In a well-formed tree, `k` lies below `x` exactly when `k` is `x` or its
/// parent lies below `x`.
pub proof fn lemma_subtree_closed<T>(m: Map<NodeId, Node<T>>, root: Option<NodeId>, x: NodeId, k: NodeId)
    requires
        tree_ok(m, root),
        m.contains_key(x),
        m.contains_key(k),
    ensures
        shape_of(m, x).ids().contains(k) <==> (k == x || (node_parent(m[k]) matches Some(q)
            && shape_of(m, x).ids().contains(q))),
        shape_of(m, x).ids().subset_of(m.dom()),
{
    let r = root.unwrap();
    let s = shape_of(m, r);
    lemma_sub_shape(m, r, s, x);
    lemma_shape_of(m, x, s.sub(x));
    lemma_sub_id_subset(s, x);
    lemma_sub_path(s, x, k);
    lemma_parent_path(m, s, None, k);
    if k != s.id() {
        let q = node_parent(m[k])->0;
        lemma_sub_path(s, x, q);
        assert(s.path_to(k) == s.path_to(q).push(k));
        if s.path_to(q).contains(x) {
            let j = choose|j: int| 0 <= j < s.path_to(q).len() && s.path_to(q)[j] == x;
            assert(s.path_to(k)[j] == x);
        }
        if s.path_to(k).contains(x) && k != x {
            let j = choose|j: int| 0 <= j < s.path_to(k).len() && s.path_to(k)[j] == x;
            assert(j < s.path_to(q).len());
            assert(s.path_to(q)[j] == x);
        }
    } else {
        assert(s.path_to(k) == seq![k]);
        if s.path_to(k).contains(x) {
            assert(s.path_to(k)[0] == x);
        }
    }
}

/// Nodes below `x` rank at least as deep as `x`.
pub proof fn lemma_rank_below<T>(m: Map<NodeId, Node<T>>, root: Option<NodeId>, x: NodeId, k: NodeId)
    requires
        tree_ok(m, root),
        m.contains_key(x),
        m.contains_key(k),
        shape_of(m, x).ids().contains(k),
    ensures
        depth_rank(shape_of(m, root.unwrap()))[x] <= depth_rank(shape_of(m, root.unwrap()))[k],
    decreases depth_rank(shape_of(m, root.unwrap()))[k],
{
    lemma_tree_to_links(m, root);
    lemma_subtree_closed(m, root, x, k);
    if k != x {
        let q = node_parent(m[k])->0;
        assert(m.contains_key(q));
        lemma_rank_below(m, root, x, q);
    }
}

/// Subtrees of two nodes that are not nested share no node.
proof fn lemma_subtrees_disjoint<T>(m: Map<NodeId, Node<T>>, root: Option<NodeId>, a: NodeId, b: NodeId, k: NodeId)
    requires
        tree_ok(m, root),
        m.contains_key(a),
        m.contains_key(b),
        m.contains_key(k),
        !shape_of(m, a).ids().contains(b),
        !shape_of(m, b).ids().contains(a),
    ensures
        !(shape_of(m, a).ids().contains(k) && shape_of(m, b).ids().contains(k)),
    decreases depth_rank(shape_of(m, root.unwrap()))[k],
{
    lemma_tree_to_links(m, root);
    lemma_subtree_closed(m, root, a, k);
    lemma_subtree_closed(m, root, b, k);
    if shape_of(m, a).ids().contains(k) && shape_of(m, b).ids().contains(k) && k != a && k != b {
        let q = node_parent(m[k])->0;
        assert(m.contains_key(q));
        lemma_subtrees_disjoint(m, root, a, b, q);
    }
}

/// The node map after `a` and `b`, children of different parents, trade
/// places.
pub open spec fn traded_map<T>(m: Map<NodeId, Node<T>>, a: NodeId, b: NodeId) -> Map<NodeId, Node<T>> {
    let pa = node_parent(m[a]);
    let pb = node_parent(m[b]);
    let m1 = match pa {
        Some(p) => map_replace_child(m, p, a, b),
        None => map_set_parent(m, b, None),
    };
    let m2 = match pb {
        Some(q) => map_replace_child(m1, q, b, a),
        None => map_set_parent(m1, a, None),
    };
    map_set_parent(map_set_parent(m2, a, pb), b, pa)
}

/// The root after `a` and `b` trade places: whichever was the root is
/// replaced by the other.
pub open spec fn traded_root<T>(m: Map<NodeId, Node<T>>, root: Option<NodeId>, a: NodeId, b: NodeId) -> Option<NodeId> {
    let r1 = if node_parent(m[a]) is None {
        Some(b)
    } else {
        root
    };
    if node_parent(m[b]) is None {
        Some(a)
    } else {
        r1
    }
}

/// Two nodes of a well-formed tree with different parents, neither below the
/// other, can trade places, and the result is a well-formed tree with the
/// same root.
#[verifier::rlimit(80)]
pub proof fn lemma_trade_ok<T>(m: Map<NodeId, Node<T>>, root: Option<NodeId>, a: NodeId, b: NodeId)
    requires
        tree_ok(m, root),
        m.dom().finite(),
        m.contains_key(a),
        m.contains_key(b),
        a != b,
        !shape_of(m, a).ids().contains(b),
        !shape_of(m, b).ids().contains(a),
        node_parent(m[a]) != node_parent(m[b]),
    ensures
        node_parent(m[a]) is Some,
        node_parent(m[b]) is Some,
        crate::tree::can_replace_child(m, node_parent(m[a])->0, a, b),
        crate::tree::can_replace_child(
            map_replace_child(m, node_parent(m[a])->0, a, b),
            node_parent(m[b])->0,
            b,
            a,
        ),
        traded_root(m, root, a, b) == root,
        tree_ok(traded_map(m, a, b), root),
        traded_map(m, a, b).dom() =~= m.dom(),
{
    lemma_tree_to_links(m, root);
    let rank = depth_rank(shape_of(m, root.unwrap()));
    let sa = shape_of(m, a).ids();
    let sb = shape_of(m, b).ids();
    lemma_subtree_closed(m, root, a, a);
    lemma_subtree_closed(m, root, b, b);
    let r = root.unwrap();
    // Neither node is the root: everything lies below the root.
    assert(node_parent(m[a]) is Some) by {
        if node_parent(m[a]) is None {
            assert(r == a);
            lemma_sub_shape(m, r, shape_of(m, r), b);
            lemma_shape_of(m, r, shape_of(m, r));
            assert(shape_of(m, r).sub(r) == shape_of(m, r));
        }
    }
    assert(node_parent(m[b]) is Some) by {
        if node_parent(m[b]) is None {
            assert(r == b);
            assert(shape_of(m, r).sub(r) == shape_of(m, r));
        }
    }
    let p = node_parent(m[a])->0;
    let q = node_parent(m[b])->0;
    assert(m.contains_key(p) && m.contains_key(q));
    assert(is_split_at(m, p) && is_split_at(m, q));
    assert(rank[p] < rank[a]);
    assert(rank[q] < rank[b]);
    // The parents lie outside both subtrees.
    assert(!sa.contains(p)) by {
        if sa.contains(p) {
            lemma_rank_below(m, root, a, p);
        }
    }
    assert(!sb.contains(q)) by {
        if sb.contains(q) {
            lemma_rank_below(m, root, b, q);
        }
    }
    assert(!sb.contains(p)) by {
        lemma_subtree_closed(m, root, b, a);
    }
    assert(!sa.contains(q)) by {
        lemma_subtree_closed(m, root, a, b);
    }
    let bound = lemma_rank_bound(m.dom(), rank);
    let d = bound + 1;
    let m1 = map_replace_child(m, p, a, b);
    assert(m1[q] == m[q]);
    let mm = traded_map(m, a, b);
    let rank2 = Map::new(
        |k: NodeId| mm.contains_key(k),
        |k: NodeId| if sa.contains(k) || sb.contains(k) {
            rank[k] + d
        } else {
            rank[k]
        },
    );
    assert(mm.dom() =~= m.dom());
    let spn = split_of(m[p]);
    let sqn = split_of(m[q]);
    assert(node_valid(m[p]) && node_valid(m[q]));
    assert(m.contains_key(spn.a) && m.contains_key(spn.b));
    assert(m.contains_key(sqn.a) && m.contains_key(sqn.b));
    assert(node_parent(m[spn.a]) == Some(p) && node_parent(m[spn.b]) == Some(p));
    assert(node_parent(m[sqn.a]) == Some(q) && node_parent(m[sqn.b]) == Some(q));
    // The entries of the new map.
    assert(mm[a] == with_parent(m[a], Some(q)));
    assert(mm[b] == with_parent(m[b], Some(p)));
    assert(mm[p] == Node::<T>::Split(replaced_child(spn, a, b)));
    assert(mm[q] == Node::<T>::Split(replaced_child(sqn, b, a)));
    assert forall|k: NodeId| #[trigger] mm.contains_key(k) && k != a && k != b && k != p && k != q
        implies mm[k] == m[k] by {}
    assert(m.contains_key(r) && node_parent(m[r]) is None);
    assert(r != a && r != b);
    assert forall|k: NodeId| #[trigger] mm.contains_key(k) implies node_valid(mm[k]) by {
        assert(node_valid(m[k]));
    }
    assert forall|k: NodeId| #[trigger] mm.contains_key(k) && mm[k] is Split implies {
        &&& mm.contains_key(split_of(mm[k]).a)
        &&& mm.contains_key(split_of(mm[k]).b)
        &&& node_parent(mm[split_of(mm[k]).a]) == Some(k)
        &&& node_parent(mm[split_of(mm[k]).b]) == Some(k)
    } by {
        let ca = split_of(m[k]).a;
        let cb = split_of(m[k]).b;
        assert(m.contains_key(ca) && m.contains_key(cb));
        assert(node_parent(m[ca]) == Some(k));
        assert(node_parent(m[cb]) == Some(k));
    }
    assert forall|k: NodeId| #[trigger] mm.contains_key(k) implies match node_parent(mm[k]) {
        Some(pp) => {
            &&& is_split_at(mm, pp)
            &&& (split_of(mm[pp]).a == k || split_of(mm[pp]).b == k)
            &&& rank2[pp] < rank2[k]
        },
        None => root == Some(k),
    } by {
        assert(rank[p] <= bound && rank[q] <= bound);
        if k == a {
        } else if k == b {
        } else {
            match node_parent(m[k]) {
                Some(pp) => {
                    assert(is_split_at(m, pp));
                    assert(split_of(m[pp]).a == k || split_of(m[pp]).b == k);
                    assert(rank[pp] < rank[k]);
                    assert(m.contains_key(pp));
                    lemma_subtree_closed(m, root, a, k);
                    lemma_subtree_closed(m, root, b, k);
                    assert(rank[pp] <= bound && rank[k] <= bound);
                },
                None => {},
            }
        }
    }
    assert(links_ok(mm, root, rank2));
    lemma_links_to_tree(mm, root, rank2);
}

/// The node map after the subtree below `sel` is unhooked: its parent is
/// removed, the sibling takes the parent's place, and `sel` becomes
/// parentless.
pub open spec fn detached_map<T>(m: Map<NodeId, Node<T>>, sel: NodeId) -> Map<NodeId, Node<T>> {
    let p = node_parent(m[sel])->0;
    let s = spec_sibling(m, sel)->0;
    map_set_parent(map_lift(m, p, s), sel, None)
}

/// The root after the subtree below `sel` is unhooked.
pub open spec fn detached_root<T>(m: Map<NodeId, Node<T>>, root: Option<NodeId>, sel: NodeId) -> Option<NodeId> {
    root_lift(m, root, node_parent(m[sel])->0, spec_sibling(m, sel)->0)
}

/// Where a node ends up attaching once `sel` is unhooked: `sel`'s parent
/// disappears, so it stands for the sibling that takes its place.
pub open spec fn moved_target<T>(m: Map<NodeId, Node<T>>, sel: NodeId, t: NodeId) -> NodeId {
    if Some(t) == node_parent(m[sel]) {
        spec_sibling(m, sel)->0
    } else {
        t
    }
}

/// The node map after `sel` is unhooked and attached beside `e` under a new
/// split `sid` with equal weights.
pub open spec fn moved_map<T>(
    m: Map<NodeId, Node<T>>,
    sel: NodeId,
    e: NodeId,
    axis: Axis,
    slot: Slot,
    sid: NodeId,
) -> Map<NodeId, Node<T>> {
    let md = detached_map(m, sel);
    let st = attach_stage(md, e, sel, axis, slot, WeightPair { a: 1, b: 1 }, sid);
    match node_parent(md[e]) {
        Some(q) => map_set_parent(map_replace_child(st, q, e, sid), sid, Some(q)),
        None => map_set_parent(st, sid, None),
    }
}

/// The root after the move.
pub open spec fn moved_root<T>(m: Map<NodeId, Node<T>>, root: Option<NodeId>, sel: NodeId, e: NodeId, sid: NodeId) -> Option<
    NodeId,
> {
    match node_parent(detached_map(m, sel)[e]) {
        Some(_) => detached_root(m, root, sel),
        None => Some(sid),
    }
}

/// Facts about a well-formed tree, a non-root `sel` and a node `t` outside its
/// subtree that the move relies on.
pub open spec fn move_facts<T>(m: Map<NodeId, Node<T>>, root: Option<NodeId>, sel: NodeId, t: NodeId, sid: NodeId) -> bool {
    let p = node_parent(m[sel])->0;
    let s = spec_sibling(m, sel)->0;
    let g = node_parent(m[p]);
    let e = moved_target(m, sel, t);
    let md = detached_map(m, sel);
    let q = node_parent(md[e]);
    let ss = shape_of(m, sel).ids();
    let rank = depth_rank(shape_of(m, root.unwrap()));
    &&& tree_ok(m, root)
    &&& links_ok(m, root, rank)
    &&& m.dom().finite()
    &&& root is Some
    &&& m.contains_key(sel) && m.contains_key(p) && m.contains_key(s) && m.contains_key(e)
    &&& !m.contains_key(sid)
    &&& node_parent(m[sel]) == Some(p) && node_parent(m[s]) == Some(p)
    &&& s != sel && s != p && sel != p
    &&& is_split_at(m, p)
    &&& ((split_of(m[p]).a == sel && split_of(m[p]).b == s) || (split_of(m[p]).a == s && split_of(m[p]).b == sel))
    &&& !ss.contains(p) && !ss.contains(s) && !ss.contains(e) && ss.contains(sel)
    &&& e != p && e != sel
    &&& rank[p] < rank[s] && rank[p] < rank[sel]
    &&& (g matches Some(gg) ==> m.contains_key(gg) && is_split_at(m, gg) && !ss.contains(gg)
        && rank[gg] < rank[p] && gg != sel && gg != s && gg != p
        && (split_of(m[gg]).a == p || split_of(m[gg]).b == p))
    &&& (g is None ==> root == Some(p))
    &&& (e == s ==> q == g)
    &&& (e != s ==> q == node_parent(m[e]))
    &&& (q matches Some(qq) ==> md.contains_key(qq) && is_split_at(md, qq) && (split_of(md[qq]).a == e
        || split_of(md[qq]).b == e) && qq != p && !ss.contains(qq) && rank[qq] < rank[e] && qq != e
        && qq != sel && m.contains_key(qq))
    &&& (q is None ==> root == Some(e) || (e == s && g is None))
    &&& forall|k: NodeId| #[trigger] m.contains_key(k) ==> (ss.contains(k) <==> (k == sel || (
        node_parent(m[k]) matches Some(pk) && ss.contains(pk))))
}

/// Establishes `move_facts`.
#[verifier::rlimit(60)]
pub proof fn lemma_move_setup<T>(m: Map<NodeId, Node<T>>, root: Option<NodeId>, sel: NodeId, t: NodeId, sid: NodeId)
    requires
        tree_ok(m, root),
        m.dom().finite(),
        m.contains_key(sel),
        m.contains_key(t),
        root != Some(sel),
        !shape_of(m, sel).ids().contains(t),
        !m.contains_key(sid),
    ensures
        move_facts(m, root, sel, t, sid),
        can_detach(m, root, sel),
{
    lemma_lift_facts(m, root, sel);
    lemma_tree_to_links(m, root);
    let rank = depth_rank(shape_of(m, root.unwrap()));
    let ss = shape_of(m, sel).ids();
    lemma_subtree_closed(m, root, sel, sel);
    let p = node_parent(m[sel])->0;
    let s = spec_sibling(m, sel)->0;
    let g = node_parent(m[p]);
    let e = moved_target(m, sel, t);
    let md = detached_map(m, sel);
    assert forall|k: NodeId| #[trigger] m.contains_key(k) implies (ss.contains(k) <==> (k == sel || (
        node_parent(m[k]) matches Some(pk) && ss.contains(pk)))) by {
        lemma_subtree_closed(m, root, sel, k);
    }
    assert(m.contains_key(p) && m.contains_key(s));
    assert(rank[p] < rank[s] && rank[p] < rank[sel]);
    assert(node_valid(m[p]));
    assert(!ss.contains(p)) by {
        if ss.contains(p) {
            lemma_rank_below(m, root, sel, p);
        }
    }
    assert(!ss.contains(s));
    if let Some(gg) = g {
        assert(m.contains_key(gg) && is_split_at(m, gg));
        assert(rank[gg] < rank[p]);
        assert(!ss.contains(gg)) by {
            if ss.contains(gg) {
                lemma_rank_below(m, root, sel, gg);
            }
        }
    } else {
        assert(root == Some(p));
    }
    assert(e != p && !ss.contains(e) && m.contains_key(e));
    assert(md.dom() =~= m.dom().remove(p));
    assert(md[s] == with_parent(m[s], g));
    let q = node_parent(md[e]);
    if e != s {
        assert(q == node_parent(m[e]));
        if let Some(qq) = q {
            assert(qq != p) by {
                if qq == p {
                    let sp = split_of(m[p]);
                    assert(e == sp.a || e == sp.b);
                }
            }
            assert(m.contains_key(qq) && is_split_at(m, qq));
            assert(rank[qq] < rank[e]);
        } else {
            assert(root == Some(e));
        }
    }
    if let Some(qq) = q {
        assert(md.contains_key(qq));
        assert(split_of(md[qq]).a == e || split_of(md[qq]).b == e) by {
            if e != s {
                let sq = split_of(m[qq]);
                assert(sq.a == e || sq.b == e);
                if Some(qq) == g {
                    assert(sq.a != sq.b);
                }
            }
        }
    }
}

/// The entries of the map after the move.
pub open spec fn moved_entry<T>(m: Map<NodeId, Node<T>>, sel: NodeId, e: NodeId, axis: Axis, slot: Slot, sid: NodeId, k: NodeId) -> Node<T> {
    let md = detached_map(m, sel);
    let q = node_parent(md[e]);
    let (ca, cb) = slot_pair(e, sel, slot);
    if k == sid {
        Node::Split(SplitNode { parent: q, axis, a: ca, b: cb, weights: WeightPair { a: 1, b: 1 } })
    } else if k == sel || k == e {
        with_parent(md[k], Some(sid))
    } else if Some(k) == q {
        Node::Split(replaced_child(split_of(md[k]), e, sid))
    } else {
        md[k]
    }
}

/// The entries of the detached map.
pub open spec fn detached_entry<T>(m: Map<NodeId, Node<T>>, sel: NodeId, k: NodeId) -> Node<T> {
    let p = node_parent(m[sel])->0;
    let s = spec_sibling(m, sel)->0;
    let g = node_parent(m[p]);
    if k == sel {
        with_parent(m[sel], None)
    } else if k == s {
        with_parent(m[s], g)
    } else if Some(k) == g {
        Node::Split(replaced_child(split_of(m[k]), p, s))
    } else {
        m[k]
    }
}

#[verifier::rlimit(80)]
#[verifier::spinoff_prover]
proof fn lemma_moved_entries<T>(m: Map<NodeId, Node<T>>, root: Option<NodeId>, sel: NodeId, t: NodeId, axis: Axis, slot: Slot, sid: NodeId)
    requires
        move_facts(m, root, sel, t, sid),
    ensures
        ({
            let e = moved_target(m, sel, t);
            let p = node_parent(m[sel])->0;
            let mf = moved_map(m, sel, e, axis, slot, sid);
            &&& mf.dom() =~= m.dom().remove(p).insert(sid)
            &&& forall|k: NodeId| #[trigger] mf.contains_key(k) ==> mf[k] == moved_entry(m, sel, e, axis, slot, sid, k)
            &&& forall|k: NodeId| #[trigger] m.contains_key(k) && k != p ==> detached_map(m, sel)[k] == detached_entry(m, sel, k)
        }),
{
    let e = moved_target(m, sel, t);
    let p = node_parent(m[sel])->0;
    let md = detached_map(m, sel);
    assert(md.dom() =~= m.dom().remove(p));
    let mf = moved_map(m, sel, e, axis, slot, sid);
    assert(mf.dom() =~= m.dom().remove(p).insert(sid));
}

/// Moving the subtree below a non-root `sel` beside a node `t` outside it
/// is possible, and gives a well-formed tree.
#[verifier::rlimit(100)]
#[verifier::spinoff_prover]
pub proof fn lemma_move_ok<T>(
    m: Map<NodeId, Node<T>>,
    root: Option<NodeId>,
    sel: NodeId,
    t: NodeId,
    axis: Axis,
    slot: Slot,
    sid: NodeId,
)
    requires
        tree_ok(m, root),
        m.dom().finite(),
        m.contains_key(sel),
        m.contains_key(t),
        root != Some(sel),
        !shape_of(m, sel).ids().contains(t),
        !m.contains_key(sid),
    ensures
        ({
            let e = moved_target(m, sel, t);
            let md = detached_map(m, sel);
            let st = attach_stage(md, e, sel, axis, slot, WeightPair { a: 1, b: 1 }, sid);
            &&& can_detach(m, root, sel)
            &&& md.contains_key(e)
            &&& md.contains_key(sel)
            &&& e != sel
            &&& e != sid
            &&& (node_parent(md[e]) matches Some(q) ==> can_replace_child(st, q, e, sid))
            &&& tree_ok(moved_map(m, sel, e, axis, slot, sid), moved_root(m, root, sel, e, sid))
        }),
{
    lemma_move_setup(m, root, sel, t, sid);
    lemma_moved_entries(m, root, sel, t, axis, slot, sid);
    let e = moved_target(m, sel, t);
    let md = detached_map(m, sel);
    let st = attach_stage(md, e, sel, axis, slot, WeightPair { a: 1, b: 1 }, sid);
    let q = node_parent(md[e]);
    if let Some(qq) = q {
        assert(st[qq] == md[qq]);
    }
    lemma_move_links(m, root, sel, t, axis, slot, sid);
}

/// Moving the subtree below `sel` beside `t` puts it in the requested slot of
/// the new split `sid`, along `axis` and with equal weights, with what `t`
/// became (its place taken by the selection's sibling when `t` was the
/// selection's parent) in the other slot.
pub proof fn law_move_puts_selection_in_slot<T>(
    m: Map<NodeId, Node<T>>,
    root: Option<NodeId>,
    sel: NodeId,
    t: NodeId,
    axis: Axis,
    slot: Slot,
    sid: NodeId,
)
    requires
        tree_ok(m, root),
        m.dom().finite(),
        m.contains_key(sel),
        m.contains_key(t),
        root != Some(sel),
        !shape_of(m, sel).ids().contains(t),
        !m.contains_key(sid),
    ensures
        ({
            let e = moved_target(m, sel, t);
            let mf = moved_map(m, sel, e, axis, slot, sid);
            &&& is_split_at(mf, sid)
            &&& split_of(mf[sid]).axis == axis
            &&& split_of(mf[sid]).weights == WeightPair { a: 1, b: 1 }
            &&& (slot is A ==> split_of(mf[sid]).a == sel && split_of(mf[sid]).b == e)
            &&& (slot is B ==> split_of(mf[sid]).a == e && split_of(mf[sid]).b == sel)
            &&& (e == t || (node_parent(m[sel]) == Some(t) && e == spec_sibling(m, sel)->0))
        }),
{
    lemma_move_setup(m, root, sel, t, sid);
    lemma_moved_entries(m, root, sel, t, axis, slot, sid);
    let e = moved_target(m, sel, t);
    let mf = moved_map(m, sel, e, axis, slot, sid);
    assert(mf.contains_key(sid));
    assert(mf[sid] == moved_entry(m, sel, e, axis, slot, sid, sid));
}

#[verifier::rlimit(100)]
#[verifier::spinoff_prover]
proof fn lemma_move_links<T>(m: Map<NodeId, Node<T>>, root: Option<NodeId>, sel: NodeId, t: NodeId, axis: Axis, slot: Slot, sid: NodeId)
    requires
        move_facts(m, root, sel, t, sid),
    ensures
        tree_ok(
            moved_map(m, sel, moved_target(m, sel, t), axis, slot, sid),
            moved_root(m, root, sel, moved_target(m, sel, t), sid),
        ),
{
    lemma_moved_entries(m, root, sel, t, axis, slot, sid);
    let rank = depth_rank(shape_of(m, root.unwrap()));
    let ss = shape_of(m, sel).ids();
    let p = node_parent(m[sel])->0;
    let s = spec_sibling(m, sel)->0;
    let g = node_parent(m[p]);
    let e = moved_target(m, sel, t);
    let md = detached_map(m, sel);
    let q = node_parent(md[e]);
    let mf = moved_map(m, sel, e, axis, slot, sid);
    let rf = moved_root(m, root, sel, e, sid);
    let bound = lemma_rank_bound(m.dom(), rank);
    let dd = 2 * bound + 2;
    let rank2 = Map::new(
        |k: NodeId| mf.contains_key(k),
        |k: NodeId| if k == sid {
            2 * rank[e] + 1
        } else if ss.contains(k) {
            rank[k] + dd
        } else {
            2 * rank[k] + 2
        },
    );
    assert(rank[e] <= bound);
    lemma_move_roots(m, root, sel, t, axis, slot, sid);
    lemma_move_valid(m, root, sel, t, axis, slot, sid);
    lemma_move_children(m, root, sel, t, axis, slot, sid);
    assert forall|k: NodeId| #[trigger] mf.contains_key(k) implies match node_parent(mf[k]) {
        Some(pp) => {
            &&& is_split_at(mf, pp)
            &&& (split_of(mf[pp]).a == k || split_of(mf[pp]).b == k)
            &&& rank2[pp] < rank2[k]
        },
        None => rf == Some(k),
    } by {
        lemma_move_parent_of(m, root, sel, t, axis, slot, sid, k);
        if k != sid {
            assert(rank[k] <= bound);
            if let Some(pp) = node_parent(m[k]) {
                assert(m.contains_key(pp));
                assert(rank[pp] <= bound);
            }
        }
    }
    assert(links_ok(mf, rf, rank2));
    lemma_links_to_tree(mf, rf, rank2);
}

/// The root of the moved map is stored and parentless.
proof fn lemma_move_roots<T>(m: Map<NodeId, Node<T>>, root: Option<NodeId>, sel: NodeId, t: NodeId, axis: Axis, slot: Slot, sid: NodeId)
    requires
        move_facts(m, root, sel, t, sid),
    ensures
        ({
            let mf = moved_map(m, sel, moved_target(m, sel, t), axis, slot, sid);
            match moved_root(m, root, sel, moved_target(m, sel, t), sid) {
                None => mf.dom() =~= Set::<NodeId>::empty(),
                Some(r) => mf.contains_key(r) && node_parent(mf[r]) is None,
            }
        }),
{
    lemma_moved_entries(m, root, sel, t, axis, slot, sid);
    let p = node_parent(m[sel])->0;
    let s = spec_sibling(m, sel)->0;
    let g = node_parent(m[p]);
    let e = moved_target(m, sel, t);
    let md = detached_map(m, sel);
    let q = node_parent(md[e]);
    let ss = shape_of(m, sel).ids();
    let r0 = root.unwrap();
    if q is Some {
        if g is Some {
            assert(m.contains_key(r0) && node_parent(m[r0]) is None);
            assert(r0 != p && r0 != sel && r0 != s);
            assert(r0 != e);
        } else {
            assert(e != s);
        }
    }
}

/// Every node of the moved map is valid.
#[verifier::rlimit(100)]
#[verifier::spinoff_prover]
proof fn lemma_move_valid<T>(m: Map<NodeId, Node<T>>, root: Option<NodeId>, sel: NodeId, t: NodeId, axis: Axis, slot: Slot, sid: NodeId)
    requires
        move_facts(m, root, sel, t, sid),
    ensures
        forall|k: NodeId| #[trigger] moved_map(m, sel, moved_target(m, sel, t), axis, slot, sid).contains_key(k)
            ==> node_valid(moved_map(m, sel, moved_target(m, sel, t), axis, slot, sid)[k]),
{
    lemma_moved_entries(m, root, sel, t, axis, slot, sid);
    let e = moved_target(m, sel, t);
    let mf = moved_map(m, sel, e, axis, slot, sid);
    let p = node_parent(m[sel])->0;
    let s = spec_sibling(m, sel)->0;
    let g = node_parent(m[p]);
    let md = detached_map(m, sel);
    let q = node_parent(md[e]);
    assert forall|k: NodeId| #[trigger] mf.contains_key(k) implies node_valid(mf[k]) by {
        if k != sid {
            assert(m.contains_key(k));
            assert(node_valid(m[k]));
            if Some(k) == g {
                let sk = split_of(m[k]);
                assert(node_parent(m[sk.a]) == Some(k));
                assert(node_parent(m[sk.b]) == Some(k));
            }
            if Some(k) == q {
                let sk = split_of(md[k]);
                assert(md.contains_key(k));
                let mk = split_of(m[k]);
                assert(m.contains_key(mk.a) && m.contains_key(mk.b));
                assert(node_parent(m[mk.a]) == Some(k));
                assert(node_parent(m[mk.b]) == Some(k));
            }
        }
    }
}

/// Every split of the moved map has stored children that name it as parent.
#[verifier::rlimit(100)]
#[verifier::spinoff_prover]
proof fn lemma_move_children<T>(m: Map<NodeId, Node<T>>, root: Option<NodeId>, sel: NodeId, t: NodeId, axis: Axis, slot: Slot, sid: NodeId)
    requires
        move_facts(m, root, sel, t, sid),
    ensures
        ({
            let mf = moved_map(m, sel, moved_target(m, sel, t), axis, slot, sid);
            forall|k: NodeId| #[trigger] mf.contains_key(k) && mf[k] is Split ==> {
                &&& mf.contains_key(split_of(mf[k]).a)
                &&& mf.contains_key(split_of(mf[k]).b)
                &&& node_parent(mf[split_of(mf[k]).a]) == Some(k)
                &&& node_parent(mf[split_of(mf[k]).b]) == Some(k)
            }
        }),
{
    let e = moved_target(m, sel, t);
    let mf = moved_map(m, sel, e, axis, slot, sid);
    assert forall|k: NodeId| #[trigger] mf.contains_key(k) && mf[k] is Split implies {
        &&& mf.contains_key(split_of(mf[k]).a)
        &&& mf.contains_key(split_of(mf[k]).b)
        &&& node_parent(mf[split_of(mf[k]).a]) == Some(k)
        &&& node_parent(mf[split_of(mf[k]).b]) == Some(k)
    } by {
        lemma_move_children_of(m, root, sel, t, axis, slot, sid, k);
    }
}

/// The children of one split of the moved map are stored and name it as parent.
#[verifier::rlimit(100)]
#[verifier::spinoff_prover]
proof fn lemma_move_children_of<T>(m: Map<NodeId, Node<T>>, root: Option<NodeId>, sel: NodeId, t: NodeId, axis: Axis, slot: Slot, sid: NodeId, k: NodeId)
    requires
        move_facts(m, root, sel, t, sid),
        moved_map(m, sel, moved_target(m, sel, t), axis, slot, sid).contains_key(k),
        moved_map(m, sel, moved_target(m, sel, t), axis, slot, sid)[k] is Split,
    ensures
        ({
            let mf = moved_map(m, sel, moved_target(m, sel, t), axis, slot, sid);
            &&& mf.contains_key(split_of(mf[k]).a)
            &&& mf.contains_key(split_of(mf[k]).b)
            &&& node_parent(mf[split_of(mf[k]).a]) == Some(k)
            &&& node_parent(mf[split_of(mf[k]).b]) == Some(k)
        }),
{
    lemma_moved_entries(m, root, sel, t, axis, slot, sid);
    let e = moved_target(m, sel, t);
    let mf = moved_map(m, sel, e, axis, slot, sid);
    let p = node_parent(m[sel])->0;
    let s = spec_sibling(m, sel)->0;
    let g = node_parent(m[p]);
    let md = detached_map(m, sel);
    let q = node_parent(md[e]);
    let rank = depth_rank(shape_of(m, root.unwrap()));
    if k != sid {
        assert(m.contains_key(k) && k != p);
        let dk = split_of(md[k]);
        let fk = split_of(mf[k]);
        assert(md[k] is Split);
        assert(md.contains_key(dk.a) && md.contains_key(dk.b)) by {
            let mk = split_of(m[k]);
            assert(m.contains_key(mk.a) && m.contains_key(mk.b));
            assert(node_parent(m[mk.a]) == Some(k));
            assert(node_parent(m[mk.b]) == Some(k));
        }
        // The children of `k` in the detached map name `k` as parent there.
        assert(node_parent(md[dk.a]) == Some(k) && node_parent(md[dk.b]) == Some(k)) by {
            let mk = split_of(m[k]);
            assert(node_parent(m[mk.a]) == Some(k));
            assert(node_parent(m[mk.b]) == Some(k));
            if Some(k) == g {
                assert(mk.a == p || mk.b == p);
            }
        }
        assert(dk.a != sel && dk.b != sel) by {
            if dk.a == sel || dk.b == sel {
                assert(node_parent(md[sel]) is None);
            }
        }
        assert(dk.a != sid && dk.b != sid);
        if Some(k) == q {
            assert(k != e && k != sel);
            assert(fk == replaced_child(dk, e, sid));
            assert(mf[sid] is Split);
        } else {
            assert(fk.a == dk.a && fk.b == dk.b);
            assert(dk.a != e && dk.b != e) by {
                if dk.a == e || dk.b == e {
                    assert(node_parent(md[e]) == Some(k));
                }
            }
        }
        assert(fk.a != fk.b ==> true);
        if fk.a != sid {
            assert(fk.a == dk.a || fk.a == dk.b);
            lemma_moved_parent_same(m, root, sel, t, axis, slot, sid, fk.a);
        }
        if fk.b != sid {
            assert(fk.b == dk.a || fk.b == dk.b);
            lemma_moved_parent_same(m, root, sel, t, axis, slot, sid, fk.b);
        }
    }
}

/// Away from the moved nodes, parents are those of the detached map.
proof fn lemma_moved_parent_same<T>(m: Map<NodeId, Node<T>>, root: Option<NodeId>, sel: NodeId, t: NodeId, axis: Axis, slot: Slot, sid: NodeId, c: NodeId)
    requires
        move_facts(m, root, sel, t, sid),
        detached_map(m, sel).contains_key(c),
        c != sel,
        c != moved_target(m, sel, t),
        c != sid,
    ensures
        moved_map(m, sel, moved_target(m, sel, t), axis, slot, sid).contains_key(c),
        node_parent(moved_map(m, sel, moved_target(m, sel, t), axis, slot, sid)[c]) == node_parent(
            detached_map(m, sel)[c],
        ),
{
    lemma_moved_entries(m, root, sel, t, axis, slot, sid);
}

/// The parent link of one node of the moved map.
#[verifier::rlimit(60)]
#[verifier::spinoff_prover]
proof fn lemma_move_parent_of<T>(m: Map<NodeId, Node<T>>, root: Option<NodeId>, sel: NodeId, t: NodeId, axis: Axis, slot: Slot, sid: NodeId, k: NodeId)
    requires
        move_facts(m, root, sel, t, sid),
        moved_map(m, sel, moved_target(m, sel, t), axis, slot, sid).contains_key(k),
    ensures
        ({
            let e = moved_target(m, sel, t);
            let mf = moved_map(m, sel, e, axis, slot, sid);
            let md = detached_map(m, sel);
            let ss = shape_of(m, sel).ids();
            match node_parent(mf[k]) {
                Some(pp) => {
                    &&& is_split_at(mf, pp)
                    &&& (split_of(mf[pp]).a == k || split_of(mf[pp]).b == k)
                    &&& (pp == sid ==> k == e || k == sel)
                    &&& (k == sid ==> node_parent(md[e]) == Some(pp))
                    &&& (pp != sid && k != sid ==> (ss.contains(k) <==> ss.contains(pp)))
                    &&& (pp != sid && k != sid && k != node_parent(m[sel])->0 ==> (node_parent(m[k]) == Some(pp)
                        || (k == spec_sibling(m, sel)->0 && node_parent(m[node_parent(m[sel])->0]) == Some(pp))))
                },
                None => moved_root(m, root, sel, e, sid) == Some(k),
            }
        }),
{
    lemma_moved_entries(m, root, sel, t, axis, slot, sid);
    lemma_move_roots(m, root, sel, t, axis, slot, sid);
    let p = node_parent(m[sel])->0;
    let s = spec_sibling(m, sel)->0;
    let g = node_parent(m[p]);
    let e = moved_target(m, sel, t);
    let md = detached_map(m, sel);
    let q = node_parent(md[e]);
    let mf = moved_map(m, sel, e, axis, slot, sid);
    if k != sid && k != sel && k != e {
        assert(m.contains_key(k));
        if k == s {
            if let Some(gg) = g {
                assert(mf.contains_key(gg));
            }
        } else {
            match node_parent(m[k]) {
                Some(pp) => {
                    assert(is_split_at(m, pp));
                    assert(split_of(m[pp]).a == k || split_of(m[pp]).b == k);
                    assert(pp != p) by {
                        if pp == p {
                            let sp = split_of(m[p]);
                            assert(k == sp.a || k == sp.b);
                        }
                    }
                    assert(m.contains_key(pp));
                    assert(mf.contains_key(pp));
                },
                None => {
                    assert(root == Some(k));
                },
            }
        }
    }
}

/// In a well-formed tree, the nodes below `x` are `x` and the nodes whose
/// parent is below `x`.
pub proof fn lemma_closure_all<T>(m: Map<NodeId, Node<T>>, root: Option<NodeId>, x: NodeId)
    requires
        tree_ok(m, root),
        m.contains_key(x),
    ensures
        forall|k: NodeId| #[trigger] m.contains_key(k) ==> (shape_of(m, x).ids().contains(k) <==> (k == x || (
            node_parent(m[k]) matches Some(pk) && shape_of(m, x).ids().contains(pk)))),
        shape_of(m, x).ids().subset_of(m.dom()),
{
    assert forall|k: NodeId| #[trigger] m.contains_key(k) implies (shape_of(m, x).ids().contains(k) <==> (k == x || (
        node_parent(m[k]) matches Some(pk) && shape_of(m, x).ids().contains(pk)))) by {
        lemma_subtree_closed(m, root, x, k);
    }
    lemma_subtree_closed(m, root, x, x);
}

/// The ancestors of a node, nearest first, are its path to the root without
/// the node itself.
pub proof fn law_ancestors_are_root_path_tail<T>(tree: Tree<T>, id: NodeId)
    requires
        tree.well_formed(),
    ensures
        ({
            let m = tree.nodes@;
            let path = if m.contains_key(id) {
                tree.shape().path_to(id).reverse()
            } else {
                seq![id]
            };
            let ancestors = if m.contains_key(id) {
                tree.shape().path_to(id).drop_last().reverse()
            } else {
                Seq::<NodeId>::empty()
            };
            &&& path.len() > 0
            &&& path[0] == id
            &&& ancestors == path.drop_first()
        }),
{
    let m = tree.nodes@;
    if m.contains_key(id) {
        let p = tree.shape().path_to(id);
        crate::tree::lemma_path_ends(tree.shape(), id);
        assert(p.drop_last().reverse() =~= p.reverse().drop_first());
    } else {
        assert(seq![id].drop_first() =~= Seq::<NodeId>::empty());
    }
}

/// A node lies in the subtree below `root` exactly when `root` is on its path
/// to the tree's root.
pub proof fn law_subtree_is_on_root_path<T>(tree: Tree<T>, root: NodeId, needle: NodeId)
    requires
        tree.well_formed(),
        tree.nodes@.contains_key(needle),
    ensures
        crate::tree::finite_below(tree.nodes@, root),
        shape_of(tree.nodes@, root).ids().contains(needle) <==> tree.shape().path_to(needle).reverse().contains(
            root,
        ),
{
    let m = tree.nodes@;
    let s = tree.shape();
    let p = s.path_to(needle);
    assert(p.reverse().contains(root) <==> p.contains(root)) by {
        if p.contains(root) {
            let i = p.index_of(root);
            assert(p.reverse()[p.len() - 1 - i] == root);
        }
        if p.reverse().contains(root) {
            let i = p.reverse().index_of(root);
            assert(p[p.len() - 1 - i] == root);
        }
    }
    assert(s.ids().contains(needle));
    if m.contains_key(root) {
        crate::tree::lemma_node_shape(&tree, root);
        assert(s.ids().contains(root));
        lemma_sub_path(s, root, needle);
    } else {
        assert(has_shape(m, root, Shape::Tip(root)));
        lemma_shape_of(m, root, Shape::Tip(root));
        lemma_path_no_dups(s, needle);
        if p.contains(root) {
            let i = p.index_of(root);
            assert(s.ids().contains(p[i]));
        }
    }
}

} // verus!
