use std::collections::{BTreeSet, HashMap};

use libtiler::geom::orth_gap;
use libtiler::nav::{best_neighbor, nav_score, NavScore};
use libtiler::resize::{distribute_resize, resize_sign, EligibleSplit};
use libtiler::{
    canonicalize_weights, choose_extent, choose_extent_with_score, solve, solve_strict, Axis,
    BalancedPreset, Direction, DwindlePreset, LeafMeta, NavError, NodeId, OpError, PairSpec,
    PresetKind, Priority, RebalanceMode, Rect, ScoreTuple, Session, ShortageMode, SizeLimits,
    Slot, Snapshot, SolveError, SolverPolicy, TallPreset, TieBreakMode, Tree, ValidationError,
    WeightPair, WidePreset,
};

fn root_rect(w: u32, h: u32) -> Rect {
    Rect { x: 0, y: 0, w, h }
}

fn leaves_of<T>(session: &Session<T>) -> Vec<NodeId> {
    match session.tree().root_id() {
        Some(root) => session.tree().leaf_ids_dfs(root),
        None => Vec::new(),
    }
}

/// Root leaf 1; split X gives leaf 2 (slot B) under split 3; split of leaf 2
/// along Y gives leaf 4 under split 5; focus ends on leaf 2.
fn three_leaf_session() -> Session<u8> {
    let mut session = Session::new();
    session.insert_root(1, LeafMeta::default()).expect("insert root");
    let b = session
        .split_focus(Axis::X, Slot::B, 2, LeafMeta::default(), None)
        .expect("split root");
    session.set_selection(b).expect("select second leaf");
    session
        .split_focus(Axis::Y, Slot::B, 3, LeafMeta::default(), None)
        .expect("split second leaf");
    session
}

fn assert_tiles(session: &Session<u8>, root: Rect, snap: &Snapshot) {
    let leaves = leaves_of(session);
    for y in root.top()..root.bottom() {
        for x in root.left()..root.right() {
            let owners = leaves
                .iter()
                .filter(|id| {
                    let r = snap.rect(**id).expect("leaf rect");
                    r.left() <= x && x < r.right() && r.top() <= y && y < r.bottom()
                })
                .count();
            assert_eq!(owners, 1, "cell ({x}, {y})");
        }
    }
}

fn pair(total: u32, min_a: u32, min_b: u32, wa: u32, wb: u32) -> PairSpec {
    PairSpec {
        total,
        min_a,
        min_b,
        max_a: None,
        max_b: None,
        wa,
        wb,
        sa: 1,
        sb: 1,
    }
}

fn policy(shortage_mode: ShortageMode, tie_break: TieBreakMode) -> SolverPolicy {
    SolverPolicy {
        shortage_mode,
        tie_break,
        ..SolverPolicy::default()
    }
}

#[test]
fn canonicalize_weights_reduces_by_gcd() {
    assert_eq!(canonicalize_weights(4, 6), WeightPair { a: 2, b: 3 });
    assert_eq!(canonicalize_weights(12, 18), WeightPair { a: 2, b: 3 });
    assert_eq!(canonicalize_weights(9, 9), WeightPair { a: 1, b: 1 });
    assert_eq!(canonicalize_weights(0, 5), WeightPair { a: 0, b: 1 });
    assert_eq!(canonicalize_weights(7, 0), WeightPair { a: 1, b: 0 });
    assert_eq!(canonicalize_weights(7, 5), WeightPair { a: 7, b: 5 });
}

#[test]
fn rect_edges_split_mirror_and_centres() {
    let r = Rect { x: 2, y: 3, w: 10, h: 4 };
    assert_eq!((r.left(), r.right(), r.top(), r.bottom()), (2, 12, 3, 7));
    assert_eq!(r.extent(Axis::X), 10);
    assert_eq!(r.extent(Axis::Y), 4);
    assert_eq!(
        r.split(Axis::X, 4),
        (Rect { x: 2, y: 3, w: 4, h: 4 }, Rect { x: 6, y: 3, w: 6, h: 4 })
    );
    assert_eq!(
        r.split(Axis::Y, 9),
        (Rect { x: 2, y: 3, w: 10, h: 9 }, Rect { x: 2, y: 12, w: 10, h: 0 })
    );
    let root = Rect { x: 0, y: 0, w: 20, h: 10 };
    assert_eq!(r.mirrored(Axis::X, root), Rect { x: 8, y: 3, w: 10, h: 4 });
    assert_eq!(r.mirrored(Axis::Y, root), Rect { x: 2, y: 3, w: 10, h: 4 });
    assert_eq!(r.mirrored(Axis::X, root).mirrored(Axis::X, root), r);
    assert_eq!(r.center_twice_orth(Axis::X), 10);
    assert_eq!(r.center_twice_orth(Axis::Y), 14);
    assert_eq!(Axis::X.toggled(), Axis::Y);
    assert_eq!(Axis::X.toggled().toggled(), Axis::X);
}

#[test]
fn orth_gap_measures_distance_between_spans() {
    assert_eq!(orth_gap(0, 5, 7, 9), 2);
    assert_eq!(orth_gap(7, 9, 0, 5), 2);
    assert_eq!(orth_gap(0, 5, 3, 9), 0);
    assert_eq!(orth_gap(0, 5, 5, 9), 0);
}

#[test]
fn allocator_prefers_weights_then_tie_break() {
    let default_policy = SolverPolicy::default();
    assert_eq!(choose_extent(pair(10, 0, 0, 1, 1), &default_policy), 5);
    assert_eq!(choose_extent(pair(12, 0, 0, 2, 1), &default_policy), 8);
    assert_eq!(
        choose_extent(pair(3, 0, 0, 1, 1), &policy(ShortageMode::Equal, TieBreakMode::PreferA)),
        2
    );
    assert_eq!(
        choose_extent(pair(3, 0, 0, 1, 1), &policy(ShortageMode::Equal, TieBreakMode::PreferB)),
        1
    );
    assert_eq!(
        choose_extent_with_score(pair(10, 0, 0, 1, 1), &default_policy),
        (
            5,
            ScoreTuple {
                shortage_penalty: 0,
                overflow_penalty: 0,
                preference_penalty: 0,
                tie_break: 5,
            }
        )
    );
}

#[test]
fn allocator_charges_shortage_and_overflow_first() {
    let equal = policy(ShortageMode::Equal, TieBreakMode::PreferA);
    assert_eq!(choose_extent(pair(10, 8, 8, 1, 1), &equal), 5);
    let mut weighted = pair(10, 8, 8, 1, 1);
    weighted.sa = 3;
    let by_priority = policy(ShortageMode::ByShrinkPriority, TieBreakMode::PreferA);
    assert_eq!(choose_extent(weighted, &by_priority), 8);
    let mut capped = pair(10, 0, 0, 1, 1);
    capped.max_a = Some(3);
    assert_eq!(choose_extent(capped, &equal), 3);
    assert_eq!(choose_extent(pair(0, 4, 4, 1, 1), &equal), 0);
}

#[test]
fn solved_layout_tiles_the_root() {
    let session = three_leaf_session();
    for (w, h) in [(12, 8), (7, 5), (1, 1), (3, 9)] {
        let root = root_rect(w, h);
        let snap = session.solve(root, &SolverPolicy::default());
        assert_tiles(&session, root, &snap);
        assert_eq!(snap.revision, session.revision());
    }
    let snap = session.solve(root_rect(12, 8), &SolverPolicy::default());
    assert_eq!(snap.rect(1), Some(Rect { x: 0, y: 0, w: 6, h: 8 }));
    assert_eq!(snap.rect(2), Some(Rect { x: 6, y: 0, w: 6, h: 4 }));
    assert_eq!(snap.rect(4), Some(Rect { x: 6, y: 4, w: 6, h: 4 }));
    assert!(snap.strict_feasible);
    assert_eq!(snap.split_traces.len(), 2);
}

#[test]
fn strict_solve_refuses_broken_limits() {
    let mut session = Session::new();
    let wide = LeafMeta {
        limits: SizeLimits { min_w: 10, ..SizeLimits::default() },
        priority: Priority::default(),
    };
    session.insert_root(1_u8, wide.clone()).expect("insert root");
    session
        .split_focus(Axis::X, Slot::B, 2, wide, None)
        .expect("split root");
    let lenient = solve(session.tree(), root_rect(12, 4), &SolverPolicy::default())
        .expect("best-effort solve");
    assert!(!lenient.strict_feasible);
    assert!(!lenient.violations.is_empty());
    assert_eq!(
        solve_strict(session.tree(), root_rect(12, 4), &SolverPolicy::default()),
        Err(SolveError::Infeasible)
    );
    assert!(solve_strict(session.tree(), root_rect(20, 4), &SolverPolicy::default()).is_ok());
}

#[test]
fn solving_a_broken_tree_reports_validation() {
    let mut tree: Tree<u8> = Tree::new();
    tree.set_root(Some(5));
    assert_eq!(
        solve(&tree, root_rect(4, 4), &SolverPolicy::default()),
        Err(SolveError::Validation(ValidationError::MissingRoot(5)))
    );
    let empty: Tree<u8> = Tree::new();
    let snap = solve(&empty, root_rect(4, 4), &SolverPolicy::default()).expect("empty tree solves");
    assert!(snap.node_rects.is_empty());
    assert!(snap.strict_feasible);
}

#[test]
fn tree_validation_reports_each_fault() {
    let mut tree: Tree<u8> = Tree::new();
    let a = tree.new_leaf(1, LeafMeta::default());
    assert_eq!(tree.validate(), Err(ValidationError::Unreachable(a)));
    tree.set_root(Some(a));
    assert_eq!(tree.validate(), Ok(()));
    tree.set_parent(a, Some(a));
    assert_eq!(tree.validate(), Err(ValidationError::RootHasParent(a)));

    let mut split_tree: Tree<u8> = Tree::new();
    let l = split_tree.new_leaf(1, LeafMeta::default());
    let r = split_tree.new_leaf(2, LeafMeta::default());
    let s = split_tree.new_split(Axis::X, l, r, WeightPair::default());
    split_tree.set_root(Some(s));
    assert_eq!(
        split_tree.validate(),
        Err(ValidationError::ParentMismatch { node: l, expected: s, actual: None })
    );
    split_tree.set_parent(l, Some(s));
    split_tree.set_parent(r, Some(s));
    assert_eq!(split_tree.validate(), Ok(()));

    let mut zero = split_tree.clone();
    zero.nodes.insert(
        s,
        libtiler::Node::Split(libtiler::SplitNode {
            parent: None,
            axis: Axis::X,
            a: l,
            b: r,
            weights: WeightPair { a: 0, b: 0 },
        }),
    );
    assert_eq!(zero.validate(), Err(ValidationError::InvalidWeights(s)));

    let mut dup = split_tree.clone();
    dup.nodes.insert(
        s,
        libtiler::Node::Split(libtiler::SplitNode {
            parent: None,
            axis: Axis::X,
            a: l,
            b: l,
            weights: WeightPair::default(),
        }),
    );
    assert_eq!(dup.validate(), Err(ValidationError::DuplicateChild { split: s, child: l }));

    let mut missing = split_tree.clone();
    missing.nodes.remove(&r);
    assert_eq!(missing.validate(), Err(ValidationError::MissingNode(r)));

    let mut cycle = split_tree.clone();
    cycle.nodes.insert(
        s,
        libtiler::Node::Split(libtiler::SplitNode {
            parent: None,
            axis: Axis::X,
            a: s,
            b: r,
            weights: WeightPair::default(),
        }),
    );
    assert_eq!(cycle.validate(), Err(ValidationError::Cycle(s)));

    let mut bad_leaf: Tree<u8> = Tree::new();
    let only = bad_leaf.new_leaf(
        1,
        LeafMeta {
            limits: SizeLimits { min_w: 5, max_w: Some(4), ..SizeLimits::default() },
            priority: Priority::default(),
        },
    );
    bad_leaf.set_root(Some(only));
    assert_eq!(bad_leaf.validate(), Err(ValidationError::InvalidLeafLimits(only)));
}

#[test]
fn session_validation_checks_focus_and_selection() {
    let mut session = three_leaf_session();
    assert_eq!(session.validate(), Ok(()));
    let mut broken = session.clone();
    broken.focus = Some(3);
    assert_eq!(broken.validate(), Err(ValidationError::NonLeafFocus(3)));
    let mut broken = session.clone();
    broken.selection = Some(1);
    assert_eq!(broken.validate(), Err(ValidationError::InvalidSelection(1)));
    let mut broken = session.clone();
    broken.focus = None;
    assert_eq!(broken.validate(), Err(ValidationError::EmptyStateInconsistent));
    let mut empty: Session<u8> = Session::new();
    empty.selection = Some(1);
    assert_eq!(empty.validate(), Err(ValidationError::EmptyStateInconsistent));
    session.select_focus();
    assert_eq!(session.selection(), session.focus());
}

#[test]
fn structural_commands_report_their_errors() {
    let mut empty: Session<u8> = Session::new();
    assert_eq!(
        empty.split_focus(Axis::X, Slot::B, 1, LeafMeta::default(), None),
        Err(OpError::Empty)
    );
    assert_eq!(empty.remove_focus(), Err(OpError::Empty));
    assert_eq!(empty.toggle_axis(), Err(OpError::Empty));
    assert_eq!(empty.select_parent(), Err(OpError::Empty));

    let bad_meta = LeafMeta {
        limits: SizeLimits::default(),
        priority: Priority { shrink: 0, grow: 1 },
    };
    assert_eq!(
        empty.insert_root(1, bad_meta),
        Err(OpError::Validation(ValidationError::InvalidLeafLimits(1)))
    );

    let mut session = three_leaf_session();
    assert_eq!(session.insert_root(9, LeafMeta::default()), Err(OpError::NonEmpty));
    let before = session.clone();
    assert_eq!(
        session.split_focus(Axis::X, Slot::A, 9, LeafMeta::default(), Some(WeightPair { a: 0, b: 0 })),
        Err(OpError::InvalidWeights)
    );
    assert_eq!(session, before);
    assert_eq!(session.set_focus_leaf(3), Err(OpError::NotLeaf(3)));
    assert_eq!(session.set_focus_leaf(99), Err(OpError::MissingNode(99)));
    assert_eq!(session.set_selection(99), Err(OpError::MissingNode(99)));
    assert_eq!(session.toggle_axis(), Err(OpError::NotSplit(2)));
    assert_eq!(session.swap_nodes(1, 1), Err(OpError::SameNode));
    assert_eq!(session.swap_nodes(1, 99), Err(OpError::MissingNode(99)));
    assert_eq!(session.swap_nodes(3, 2), Err(OpError::AncestorConflict));
    session.set_selection(3).expect("select root split");
    assert_eq!(session.select_parent(), Err(OpError::NoParent(3)));
    session.set_selection(5).expect("select inner split");
    assert_eq!(
        session.move_selection_as_sibling_of(4, Axis::X, Slot::B),
        Err(OpError::TargetInsideSelection)
    );
    assert_eq!(session, {
        let mut expected = before.clone();
        expected.selection = Some(5);
        expected
    });
}

#[test]
fn navigation_reports_its_errors() {
    let mut empty: Session<u8> = Session::new();
    let snap = empty.solve(root_rect(4, 4), &SolverPolicy::default());
    assert_eq!(empty.focus_dir(Direction::Left, &snap), Err(NavError::Empty));

    let mut single: Session<u8> = Session::new();
    single.insert_root(1, LeafMeta::default()).expect("insert root");
    let snap = single.solve(root_rect(4, 4), &SolverPolicy::default());
    assert_eq!(single.focus_dir(Direction::Left, &snap), Err(NavError::NoCandidate));

    let mut session = three_leaf_session();
    let mut hollow = session.solve(root_rect(8, 8), &SolverPolicy::default());
    hollow.node_rects.clear();
    assert_eq!(
        session.focus_dir(Direction::Left, &hollow),
        Err(NavError::MissingSnapshotRect(1))
    );
    let snap = session.solve(root_rect(8, 8), &SolverPolicy::default());
    session.focus_dir(Direction::Left, &snap).expect("move left");
    assert_eq!(session.focus(), Some(1));
    assert_eq!(session.selection(), Some(1));
    session.focus_dir(Direction::Right, &snap).expect("move right");
    assert_eq!(session.focus(), Some(2));
    session.focus_dir(Direction::Down, &snap).expect("move down");
    assert_eq!(session.focus(), Some(4));
    assert_eq!(session.revision(), snap.revision);
}

#[test]
fn nav_score_and_best_neighbor_rank_candidates() {
    let current = Rect { x: 0, y: 0, w: 4, h: 4 };
    let right = Rect { x: 6, y: 2, w: 4, h: 4 };
    assert_eq!(
        nav_score(current, right, Direction::Right, 3),
        Some(NavScore { primary_gap: 2, orth_gap: 0, orth_center_delta: 4, tree_order_rank: 3 })
    );
    assert_eq!(nav_score(current, right, Direction::Left, 3), None);

    let session = three_leaf_session();
    let snap = session.solve(root_rect(8, 8), &SolverPolicy::default());
    let rects: HashMap<NodeId, Rect> = leaves_of(&session)
        .into_iter()
        .map(|id| (id, snap.rect(id).expect("leaf rect")))
        .collect();
    assert_eq!(best_neighbor(session.tree(), &rects, 1, Direction::Right), Some(2));
    assert_eq!(best_neighbor(session.tree(), &rects, 4, Direction::Up), Some(2));
    assert_eq!(best_neighbor(session.tree(), &rects, 4, Direction::Down), None);
    assert_eq!(best_neighbor(session.tree(), &rects, 99, Direction::Down), None);
}

#[test]
fn resize_distribution_strategies() {
    let eligible = [
        EligibleSplit { split: 10, total: 10, current_a: 4, lo: 0, hi: 6 },
        EligibleSplit { split: 20, total: 20, current_a: 8, lo: 0, hi: 14 },
    ];
    assert_eq!(distribute_resize(3, libtiler::ResizeStrategy::Local, 1, &eligible), vec![(10, 2)]);
    assert_eq!(
        distribute_resize(4, libtiler::ResizeStrategy::AncestorChain, 1, &eligible),
        vec![(10, 2), (20, 2)]
    );
    assert_eq!(
        distribute_resize(4, libtiler::ResizeStrategy::DistributedBySlack, 1, &eligible),
        vec![(10, 1), (20, 3)]
    );
    let even = [
        EligibleSplit { split: 1, total: 2, current_a: 1, lo: 0, hi: 2 },
        EligibleSplit { split: 2, total: 2, current_a: 1, lo: 0, hi: 2 },
        EligibleSplit { split: 3, total: 2, current_a: 1, lo: 0, hi: 2 },
    ];
    assert_eq!(
        distribute_resize(2, libtiler::ResizeStrategy::DistributedBySlack, 1, &even),
        vec![(1, 1), (2, 1)]
    );
    assert_eq!(distribute_resize(5, libtiler::ResizeStrategy::DistributedBySlack, 1, &[]), vec![]);
    assert_eq!(eligible[0].slack(1), 2);
    assert_eq!(eligible[0].slack(-1), 4);
    let empty_range = EligibleSplit { split: 1, total: 5, current_a: 2, lo: 4, hi: 3 };
    assert_eq!(empty_range.slack(1), 0);
    assert_eq!(resize_sign(Direction::Right, true), 1);
    assert_eq!(resize_sign(Direction::Left, true), -1);
    assert_eq!(resize_sign(Direction::Down, false), -1);
    assert_eq!(resize_sign(Direction::Up, false), 1);
}

#[test]
fn toggle_twice_restores_the_tree() {
    let mut session = three_leaf_session();
    session.set_selection(5).expect("select inner split");
    let original = session.tree().clone();
    session.toggle_axis().expect("toggle");
    assert_eq!(session.tree().split(5).expect("split").axis, Axis::X);
    session.toggle_axis().expect("toggle back");
    assert_eq!(session.tree(), &original);
    assert_eq!(session.revision(), 5);
}

#[test]
fn mirror_twice_restores_the_tree() {
    let mut session = three_leaf_session();
    session.set_selection(3).expect("select root");
    let original = session.tree().clone();
    session.mirror_selection(Axis::X).expect("mirror");
    assert_eq!(leaves_of(&session), vec![2, 4, 1]);
    session.mirror_selection(Axis::X).expect("mirror back");
    assert_eq!(session.tree(), &original);
    session.mirror_selection(Axis::Y).expect("mirror y");
    assert_eq!(leaves_of(&session), vec![1, 4, 2]);
}

#[test]
fn swap_twice_restores_the_tree() {
    let mut session = three_leaf_session();
    let original = session.tree().clone();
    session.swap_nodes(2, 4).expect("swap siblings");
    assert_eq!(leaves_of(&session), vec![1, 4, 2]);
    session.swap_nodes(2, 4).expect("swap back");
    assert_eq!(session.tree(), &original);
    session.swap_nodes(1, 4).expect("trade across splits");
    assert_eq!(leaves_of(&session), vec![4, 2, 1]);
    assert_eq!(session.tree().parent_of(1), Some(5));
    session.swap_nodes(1, 4).expect("trade back");
    assert_eq!(session.tree(), &original);
    assert!(session.validate().is_ok());
}

#[test]
fn split_then_remove_restores_the_tree() {
    let mut session = three_leaf_session();
    let original = session.tree().clone();
    let new_leaf = session
        .split_focus(Axis::X, Slot::A, 7, LeafMeta::default(), None)
        .expect("split focus");
    assert_eq!(session.focus(), Some(2));
    session.set_selection(new_leaf).expect("select new leaf");
    session.remove_focus().expect("remove new leaf");
    assert_eq!(session.tree().nodes, original.nodes);
    assert_eq!(session.tree().root, original.root);
    assert_eq!(session.focus(), Some(2));
}

#[test]
fn remove_focus_lifts_sibling_and_empties_single_leaf() {
    let mut session = three_leaf_session();
    session.remove_focus().expect("remove leaf 2");
    assert_eq!(leaves_of(&session), vec![1, 4]);
    assert_eq!(session.tree().parent_of(4), Some(3));
    assert_eq!(session.focus(), Some(4));
    assert!(!session.tree().contains(5));

    let mut single: Session<u8> = Session::new();
    single.insert_root(1, LeafMeta::default()).expect("insert root");
    single.remove_focus().expect("remove root leaf");
    assert_eq!(single.tree().root_id(), None);
    assert_eq!(single.focus(), None);
    assert_eq!(single.selection(), None);
    assert!(single.validate().is_ok());
}

#[test]
fn rebalance_sets_weights_and_is_idempotent() {
    let mut session = three_leaf_session();
    session.set_selection(3).expect("select root");
    session.rebalance_selection(RebalanceMode::LeafCount).expect("rebalance");
    assert_eq!(session.tree().split(3).expect("root").weights, WeightPair { a: 1, b: 2 });
    let once = session.tree().clone();
    session.rebalance_selection(RebalanceMode::LeafCount).expect("again");
    assert_eq!(session.tree(), &once);
    session.rebalance_selection(RebalanceMode::BinaryEqual).expect("equal");
    assert_eq!(session.tree().split(3).expect("root").weights, WeightPair { a: 1, b: 1 });
    let equal = session.tree().clone();
    session.rebalance_selection(RebalanceMode::BinaryEqual).expect("equal again");
    assert_eq!(session.tree(), &equal);
}

#[test]
fn presets_keep_leaves_and_repeat_as_no_ops() {
    let order_keeping = [
        PresetKind::Balanced(BalancedPreset { start_axis: Axis::Y, alternate: false }),
        PresetKind::Dwindle(DwindlePreset { start_axis: Axis::Y, new_leaf_slot: Slot::B }),
        PresetKind::Tall(TallPreset { master_slot: Slot::A, root_weights: WeightPair { a: 2, b: 1 } }),
    ];
    for preset in order_keeping {
        let mut session = three_leaf_session();
        session.set_selection(3).expect("select root");
        session.apply_preset(preset).expect("apply preset");
        assert_eq!(leaves_of(&session), vec![1, 2, 4]);
        assert_eq!(session.selection(), session.focus());
        assert_eq!(session.focus(), Some(2));
        let rebuilt = session.clone();
        let root = session.tree().root_id().expect("root");
        session.set_selection(root).expect("select rebuilt root");
        session.apply_preset(preset).expect("apply again");
        assert_eq!(session.tree(), rebuilt.tree());
        assert_eq!(session.revision(), rebuilt.revision());
    }
}

#[test]
fn reordering_presets_keep_the_leaf_set() {
    let mut session = three_leaf_session();
    session.set_selection(3).expect("select root");
    session
        .apply_preset(PresetKind::Dwindle(DwindlePreset { start_axis: Axis::X, new_leaf_slot: Slot::A }))
        .expect("dwindle");
    assert_eq!(leaves_of(&session), vec![4, 2, 1]);
    let root = session.tree().root_id().expect("root");
    session.set_selection(root).expect("select rebuilt root");
    session
        .apply_preset(PresetKind::Wide(WidePreset { master_slot: Slot::B, root_weights: WeightPair { a: 1, b: 1 } }))
        .expect("wide");
    assert_eq!(leaves_of(&session), vec![2, 1, 4]);
    assert_eq!(
        leaves_of(&session).into_iter().collect::<BTreeSet<_>>(),
        [1, 2, 4].into_iter().collect::<BTreeSet<_>>()
    );
    assert!(session.validate().is_ok());
}

#[test]
fn preset_already_in_place_is_a_no_op() {
    let mut session = three_leaf_session();
    session.set_selection(3).expect("select root");
    let before = session.clone();
    session
        .apply_preset(PresetKind::Dwindle(DwindlePreset { start_axis: Axis::X, new_leaf_slot: Slot::B }))
        .expect("matching preset");
    assert_eq!(session, before);
    session.set_selection(2).expect("select leaf");
    let before = session.clone();
    session
        .apply_preset(PresetKind::Dwindle(DwindlePreset { start_axis: Axis::Y, new_leaf_slot: Slot::A }))
        .expect("leaf selection");
    assert_eq!(session, before);
}

#[test]
fn preset_with_zero_weights_is_refused() {
    let mut session = three_leaf_session();
    session.set_selection(3).expect("select root");
    assert_eq!(
        session.apply_preset(PresetKind::Tall(TallPreset {
            master_slot: Slot::A,
            root_weights: WeightPair { a: 0, b: 0 },
        })),
        Err(OpError::InvalidWeights)
    );
}

#[test]
fn node_and_split_ids_are_sorted() {
    let session = three_leaf_session();
    assert_eq!(session.tree().node_ids(), vec![1, 2, 3, 4, 5]);
    assert_eq!(session.tree().split_ids(), vec![3, 5]);
    let leaf = session.tree().leaf(4).expect("leaf");
    assert_eq!(*leaf.payload(), 3);
    assert_eq!(leaf.parent(), Some(5));
    assert_eq!(leaf.meta(), &LeafMeta::default());
    assert!(session.tree().leaf(5).is_none());
    let split = session.tree().split(5).expect("split");
    assert_eq!((split.axis(), split.a(), split.b(), split.parent()), (Axis::Y, 2, 4, Some(3)));
    assert_eq!(split.weights(), WeightPair { a: 1, b: 1 });
    assert_eq!(session.tree().ancestors_nearest_first(4), vec![5, 3]);
    assert_eq!(session.tree().path_to_root(4), vec![4, 5, 3]);
    assert_eq!(session.tree().sibling_of(4), Some(2));
    assert_eq!(session.tree().children_of(3), Some((1, 5)));
    assert_eq!(session.tree().first_leaf(5), Some(2));
}

#[test]
fn selection_helpers_follow_the_focus() {
    let mut session = three_leaf_session();
    let revision = session.revision();
    session.set_selection(5).expect("select split holding focus");
    assert_eq!(session.selection(), Some(5));
    session.set_focus_leaf(1).expect("focus leaf 1");
    assert_eq!(session.selection(), Some(1));
    assert_eq!(
        session.set_selection(5),
        Err(OpError::Validation(ValidationError::InvalidSelection(5)))
    );
    session.set_selection(4).expect("select leaf 4");
    assert_eq!(session.focus(), Some(4));
    session.select_parent().expect("parent");
    assert_eq!(session.selection(), Some(5));
    session.select_parent().expect("grandparent");
    assert_eq!(session.selection(), Some(3));
    assert_eq!(session.revision(), revision);
}

#[test]
fn move_selection_rehangs_subtree() {
    let mut session = three_leaf_session();
    session.set_selection(1).expect("select leaf 1");
    session
        .move_selection_as_sibling_of(4, Axis::X, Slot::B)
        .expect("move leaf 1 beside leaf 4");
    assert_eq!(leaves_of(&session), vec![2, 4, 1]);
    assert_eq!(session.tree().root_id(), Some(5));
    assert!(session.validate().is_ok());
    assert_eq!(session.focus(), Some(1));
}

#[test]
fn wrap_selection_wraps_the_selected_subtree() {
    let mut session = three_leaf_session();
    session.set_selection(5).expect("select inner split");
    let id = session
        .wrap_selection(Axis::X, Slot::A, 9, LeafMeta::default(), Some(WeightPair { a: 1, b: 3 }))
        .expect("wrap");
    assert_eq!(id, 6);
    assert_eq!(session.tree().split(7).expect("new split").weights, WeightPair { a: 1, b: 3 });
    assert_eq!(session.tree().children_of(7), Some((6, 5)));
    assert_eq!(leaves_of(&session), vec![1, 6, 2, 4]);
    assert_eq!(session.focus(), Some(2));
}

#[test]
fn grow_and_shrink_move_the_focus_edge() {
    let mut session: Session<u8> = Session::new();
    session.insert_root(1, LeafMeta::default()).expect("insert root");
    session
        .split_focus(Axis::X, Slot::B, 2, LeafMeta::default(), None)
        .expect("split");
    let root = root_rect(10, 4);
    let snap = session.solve(root, &SolverPolicy::default());
    session
        .grow_focus(Direction::Right, 2, libtiler::ResizeStrategy::Local, &snap)
        .expect("grow");
    let grown = session.solve(root, &SolverPolicy::default());
    assert_eq!(grown.rect(1).expect("rect").w, 7);
    assert_eq!(session.tree().split(3).expect("split").weights, WeightPair { a: 7, b: 3 });
    session
        .shrink_focus(Direction::Right, 4, libtiler::ResizeStrategy::Local, &grown)
        .expect("shrink");
    let shrunk = session.solve(root, &SolverPolicy::default());
    assert_eq!(shrunk.rect(1).expect("rect").w, 3);
    let revision = session.revision();
    session
        .grow_focus(Direction::Left, 2, libtiler::ResizeStrategy::Local, &shrunk)
        .expect("no eligible split still succeeds");
    assert_eq!(session.revision(), revision);
    assert_eq!(session.solve(root, &SolverPolicy::default()).rect(1).expect("rect").w, 3);
}

fn limited(min_w: u32, max_w: Option<u32>) -> LeafMeta {
    LeafMeta {
        limits: SizeLimits { min_w, min_h: 1, max_w, max_h: None },
        priority: Priority::default(),
    }
}

#[test]
fn strict_solve_succeeds_exactly_inside_the_summary_envelope() {
    let mut session: Session<u8> = Session::new();
    session.insert_root(1, limited(2, Some(5))).expect("insert root");
    session
        .split_focus(Axis::X, Slot::B, 2, limited(2, Some(5)), None)
        .expect("split");
    let root = session.tree().root_id().expect("root");
    let summary = libtiler::summarize(session.tree(), root, &mut HashMap::new()).expect("summary");
    assert_eq!((summary.min_w, summary.max_w, summary.min_h, summary.max_h), (4, Some(10), 1, None));
    for w in 0..=12_u32 {
        let strict = solve_strict(session.tree(), root_rect(w, 3), &SolverPolicy::default());
        assert_eq!(strict.is_ok(), (4..=10).contains(&w), "width {w}");
    }
    assert!(solve_strict(session.tree(), root_rect(6, 0), &SolverPolicy::default()).is_err());
}

#[test]
fn an_empty_inner_envelope_makes_the_summary_too_loose() {
    let mut session: Session<u8> = Session::new();
    let a = session.insert_root(1, limited(5, None)).expect("insert root");
    session
        .split_focus(Axis::Y, Slot::B, 2, limited(0, Some(3)), None)
        .expect("split y");
    session.set_selection(session.tree().root_id().expect("root")).expect("select inner split");
    session
        .wrap_selection(Axis::X, Slot::B, 3, limited(0, Some(10)), None)
        .expect("wrap x");
    let root = session.tree().root_id().expect("root");
    let summary = libtiler::summarize(session.tree(), root, &mut HashMap::new()).expect("summary");
    assert_eq!((summary.min_w, summary.max_w), (5, Some(13)));
    assert_eq!(
        solve_strict(session.tree(), root_rect(8, 4), &SolverPolicy::default()),
        Err(SolveError::Infeasible)
    );
    assert_eq!(a, 1);
}

#[test]
fn mirroring_an_even_split_of_an_odd_width_is_not_a_reflection() {
    let mut session: Session<u8> = Session::new();
    session.insert_root(1, LeafMeta::default()).expect("insert root");
    session
        .split_focus(Axis::X, Slot::B, 2, LeafMeta::default(), None)
        .expect("split");
    let root = root_rect(3, 2);
    let before = session.solve(root, &SolverPolicy::default());
    assert_eq!(before.rect(1), Some(Rect { x: 0, y: 0, w: 2, h: 2 }));
    session.set_selection(3).expect("select root");
    session.mirror_selection(Axis::X).expect("mirror");
    let after = session.solve(root, &SolverPolicy::default());
    assert_eq!(after.rect(1), Some(Rect { x: 2, y: 0, w: 1, h: 2 }));
    assert_ne!(after.rect(1), Some(before.rect(1).expect("rect").mirrored(Axis::X, root)));
}

#[test]
fn scaling_an_odd_even_split_does_not_scale_the_layout() {
    let mut session: Session<u8> = Session::new();
    session.insert_root(1, limited(0, None)).expect("insert root");
    session
        .split_focus(Axis::X, Slot::B, 2, limited(0, None), None)
        .expect("split");
    let small = session.solve(root_rect(3, 1), &SolverPolicy::default());
    let large = session.solve(root_rect(9, 3), &SolverPolicy::default());
    assert_eq!(small.rect(1).expect("rect").w, 2);
    assert_eq!(large.rect(1).expect("rect").w, 5);
}

#[test]
fn remove_subtree_ids_removes_the_whole_subtree_children_first() {
    let session = three_leaf_session();
    let mut tree = session.tree().clone();
    assert_eq!(tree.remove_subtree_ids(5), vec![2, 4, 5]);
    assert_eq!(tree.node_ids(), vec![1, 3]);
    assert_eq!(tree.remove_subtree_ids(99), Vec::<NodeId>::new());
    let mut whole = session.tree().clone();
    assert_eq!(whole.remove_subtree_ids(3), vec![1, 2, 4, 5, 3]);
    assert!(whole.nodes.is_empty());
    assert_eq!(whole.root_id(), Some(3));
}

#[test]
fn ancestors_follow_the_path_to_the_root() {
    let session = three_leaf_session();
    let tree = session.tree();
    for id in tree.node_ids() {
        let path = tree.path_to_root(id);
        assert_eq!(path[0], id);
        assert_eq!(tree.ancestors_nearest_first(id), path[1..].to_vec());
        for root in tree.node_ids() {
            assert_eq!(tree.contains_in_subtree(root, id), path.contains(&root));
        }
    }
}

#[test]
fn growing_left_reads_no_far_edge() {
    let mut session: Session<u8> = Session::new();
    session.insert_root(1, LeafMeta::default()).expect("insert root");
    session
        .split_focus(Axis::X, Slot::B, 2, LeafMeta::default(), None)
        .expect("split");
    session.set_focus_leaf(2).expect("focus the second leaf");
    let split = session.tree().root_id().expect("root");
    let mut node_rects = HashMap::new();
    node_rects.insert(split, Rect { x: i32::MAX - 6, y: 0, w: 10, h: 4 });
    node_rects.insert(1, Rect { x: i32::MAX - 6, y: 0, w: 5, h: 4 });
    node_rects.insert(2, Rect { x: i32::MAX - 1, y: 0, w: 5, h: 4 });
    let snap = Snapshot {
        revision: session.revision(),
        root: Rect { x: i32::MAX - 6, y: 0, w: 10, h: 4 },
        node_rects,
        split_traces: Vec::new(),
        violations: Vec::new(),
        strict_feasible: true,
    };
    let revision = session.revision();
    session
        .grow_focus(Direction::Left, 1, libtiler::ResizeStrategy::Local, &snap)
        .expect("grow left");
    assert_eq!(session.tree().split(split).expect("split").weights, WeightPair { a: 2, b: 3 });
    assert_eq!(session.revision(), revision + 1);
}
