use std::collections::HashMap;

use libtiler::{
    choose_extent_with_score, solve, summarize, OverflowMode, Axis, BalancedPreset, Direction, DwindlePreset, LeafMeta, NodeId, PairSpec,
    PresetKind, RebalanceMode, Rect, ResizeStrategy, ScoreTuple, Session, ShortageMode,
    SizeLimits, Slot, Snapshot, SolveError, SolverPolicy, SplitTrace, TallPreset, TieBreakMode,
    Tree, ValidationError, Violation, ViolationKind, WeightPair, WidePreset,
};

fn root_rect(w: u32, h: u32) -> Rect {
    Rect { x: 0, y: 0, w, h }
}

fn leaf_ids<T>(session: &Session<T>) -> Vec<NodeId> {
    session
        .tree()
        .root_id()
        .map(|root| session.tree().leaf_ids_dfs(root))
        .unwrap_or_default()
}

fn split_ids<T>(session: &Session<T>) -> Vec<NodeId> {
    session.tree().split_ids()
}

fn axis(byte: &u8) -> Axis {
    if byte & 1 == 0 { Axis::X } else { Axis::Y }
}

fn slot(byte: &u8) -> Slot {
    if byte & 2 == 0 { Slot::A } else { Slot::B }
}

fn direction(byte: &u8) -> Direction {
    match byte & 0b11 {
        0 => Direction::Left,
        1 => Direction::Right,
        2 => Direction::Up,
        _ => Direction::Down,
    }
}

fn strategy(byte: &u8) -> ResizeStrategy {
    match byte % 3 {
        0 => ResizeStrategy::Local,
        1 => ResizeStrategy::AncestorChain,
        _ => ResizeStrategy::DistributedBySlack,
    }
}

fn first_disjoint_pair<T>(session: &Session<T>, nodes: &[NodeId]) -> Option<(NodeId, NodeId)> {
    for (idx, a) in nodes.iter().enumerate() {
        for b in nodes.iter().skip(idx + 1) {
            if !session.tree().contains_in_subtree(*a, *b)
                && !session.tree().contains_in_subtree(*b, *a)
            {
                return Some((*a, *b));
            }
        }
    }
    None
}

fn exercise_trace(bytes: &[u8]) -> Session<u16> {
    let mut session = Session::new();
    let _ = session
        .insert_root(0, LeafMeta::default())
        .expect("root insert should work");
    let mut next_payload = 1_u16;
    for byte in bytes {
        let leaves = leaf_ids(&session);
        let splits = split_ids(&session);
        let nodes = session.tree().node_ids();
        match byte % 12 {
            0 => {
                let _ = session.split_focus(
                    axis(byte),
                    slot(byte),
                    next_payload,
                    LeafMeta::default(),
                    None,
                );
                next_payload += 1;
            }
            1 => {
                let _ = session.wrap_selection(
                    axis(byte),
                    slot(byte),
                    next_payload,
                    LeafMeta::default(),
                    None,
                );
                next_payload += 1;
            }
            2 if leaves.len() > 1 => {
                let leaf = leaves[usize::from(*byte) % leaves.len()];
                let _ = session.set_selection(leaf);
                let _ = session.remove_focus();
            }
            3 if !splits.is_empty() => {
                let split = splits[usize::from(*byte) % splits.len()];
                if let Some(focus) = session.tree().first_leaf(split) {
                    let _ = session.set_focus_leaf(focus);
                    let _ = session.set_selection(split);
                    let _ = session.toggle_axis();
                }
            }
            4 if !splits.is_empty() => {
                let split = splits[usize::from(*byte) % splits.len()];
                if let Some(focus) = session.tree().first_leaf(split) {
                    let _ = session.set_focus_leaf(focus);
                    let _ = session.set_selection(split);
                    let _ = session.mirror_selection(axis(byte));
                }
            }
            5 if !splits.is_empty() => {
                let split = splits[usize::from(*byte) % splits.len()];
                if let Some(focus) = session.tree().first_leaf(split) {
                    let _ = session.set_focus_leaf(focus);
                    let _ = session.set_selection(split);
                    let mode = if byte & 1 == 0 {
                        RebalanceMode::BinaryEqual
                    } else {
                        RebalanceMode::LeafCount
                    };
                    let _ = session.rebalance_selection(mode);
                }
            }
            6 if !splits.is_empty() => {
                let split = splits[usize::from(*byte) % splits.len()];
                if let Some(focus) = session.tree().first_leaf(split) {
                    let _ = session.set_focus_leaf(focus);
                    let _ = session.set_selection(split);
                    let preset = match byte & 0b11 {
                        0 => PresetKind::Balanced(BalancedPreset {
                            start_axis: axis(byte),
                            alternate: byte & 0b100 != 0,
                        }),
                        1 => PresetKind::Tall(TallPreset {
                            master_slot: slot(byte),
                            root_weights: WeightPair { a: 2, b: 1 },
                        }),
                        2 => PresetKind::Wide(WidePreset {
                            master_slot: slot(byte),
                            root_weights: WeightPair { a: 1, b: 3 },
                        }),
                        _ => PresetKind::Dwindle(DwindlePreset {
                            start_axis: axis(byte),
                            new_leaf_slot: slot(byte),
                        }),
                    };
                    let _ = session.apply_preset(preset);
                }
            }
            7 if leaves.len() > 1 => {
                let focus = leaves[usize::from(*byte) % leaves.len()];
                let _ = session.set_selection(focus);
                let snap = session.solve(root_rect(9, 7), &SolverPolicy::default());
                let _ = session.focus_dir(direction(byte), &snap);
            }
            8 if leaves.len() > 1 => {
                let focus = leaves[usize::from(*byte) % leaves.len()];
                let _ = session.set_selection(focus);
                let snap = session.solve(root_rect(11, 9), &SolverPolicy::default());
                let _ = session.grow_focus(
                    direction(byte),
                    2 + u32::from(*byte & 0b11),
                    strategy(byte),
                    &snap,
                );
            }
            9 if leaves.len() > 1 => {
                let focus = leaves[usize::from(*byte) % leaves.len()];
                let _ = session.set_selection(focus);
                let snap = session.solve(root_rect(11, 9), &SolverPolicy::default());
                let _ = session.shrink_focus(
                    direction(byte),
                    1 + u32::from(*byte & 0b11),
                    strategy(byte),
                    &snap,
                );
            }
            10 if nodes.len() > 1 => {
                if let Some((a, b)) = first_disjoint_pair(&session, &nodes) {
                    let _ = session.swap_nodes(a, b);
                }
            }
            11 if nodes.len() > 1 && !splits.is_empty() => {
                let split = splits[usize::from(*byte) % splits.len()];
                let targets = nodes
                    .iter()
                    .copied()
                    .filter(|target| *target != split)
                    .collect::<Vec<_>>();
                if let Some(target) = targets.get(usize::from(*byte) % targets.len()) {
                    if let Some(focus) = session.tree().first_leaf(split) {
                        let _ = session.set_focus_leaf(focus);
                        let _ = session.set_selection(split);
                    }
                    let _ = session.move_selection_as_sibling_of(*target, axis(byte), slot(byte));
                }
            }
            _ => {}
        }
        session
            .validate()
            .expect("trace should preserve session invariants");
    }
    session
}

#[derive(Debug, Clone, Copy, PartialEq, Eq)]
struct RefSummary {
    min_w: u64,
    min_h: u64,
    max_w: Option<u64>,
    max_h: Option<u64>,
    leaf_count: u64,
    shrink_cost: u64,
    grow_cost: u64,
}

impl RefSummary {
    fn axis_limits(self, axis: Axis) -> (u64, Option<u64>) {
        match axis {
            Axis::X => (self.min_w, self.max_w),
            Axis::Y => (self.min_h, self.max_h),
        }
    }
}

fn summarize_reference<T>(
    tree: &Tree<T>,
    id: NodeId,
    out: &mut HashMap<NodeId, RefSummary>,
) -> RefSummary {
    if let Some(summary) = out.get(&id).copied() {
        return summary;
    }
    let summary = if let Some(leaf) = tree.leaf(id) {
        RefSummary {
            min_w: u64::from(leaf.meta().limits.min_w),
            min_h: u64::from(leaf.meta().limits.min_h),
            max_w: leaf.meta().limits.max_w.map(u64::from),
            max_h: leaf.meta().limits.max_h.map(u64::from),
            leaf_count: 1,
            shrink_cost: u64::from(leaf.meta().priority.shrink),
            grow_cost: u64::from(leaf.meta().priority.grow),
        }
    } else {
        let split = tree.split(id).expect("missing node in reference summary");
        let a = summarize_reference(tree, split.a(), out);
        let b = summarize_reference(tree, split.b(), out);
        match split.axis() {
            Axis::X => RefSummary {
                min_w: checked_add_u64(a.min_w, b.min_w, "min_w"),
                min_h: a.min_h.max(b.min_h),
                max_w: checked_add_option_u64(a.max_w, b.max_w, "max_w"),
                max_h: min_option_u64(a.max_h, b.max_h),
                leaf_count: checked_add_u64(a.leaf_count, b.leaf_count, "leaf_count"),
                shrink_cost: checked_add_u64(a.shrink_cost, b.shrink_cost, "shrink_cost"),
                grow_cost: checked_add_u64(a.grow_cost, b.grow_cost, "grow_cost"),
            },
            Axis::Y => RefSummary {
                min_w: a.min_w.max(b.min_w),
                min_h: checked_add_u64(a.min_h, b.min_h, "min_h"),
                max_w: min_option_u64(a.max_w, b.max_w),
                max_h: checked_add_option_u64(a.max_h, b.max_h, "max_h"),
                leaf_count: checked_add_u64(a.leaf_count, b.leaf_count, "leaf_count"),
                shrink_cost: checked_add_u64(a.shrink_cost, b.shrink_cost, "shrink_cost"),
                grow_cost: checked_add_u64(a.grow_cost, b.grow_cost, "grow_cost"),
            },
        }
    };
    out.insert(id, summary);
    summary
}

fn checked_add_u64(a: u64, b: u64, field: &str) -> u64 {
    a.checked_add(b)
        .unwrap_or_else(|| panic!("reference summary overflow in {field}"))
}

fn checked_add_option_u64(a: Option<u64>, b: Option<u64>, field: &str) -> Option<u64> {
    match (a, b) {
        (Some(a), Some(b)) => Some(checked_add_u64(a, b, field)),
        _ => None,
    }
}

fn min_option_u64(a: Option<u64>, b: Option<u64>) -> Option<u64> {
    match (a, b) {
        (Some(a), Some(b)) => Some(a.min(b)),
        (Some(a), None) => Some(a),
        (None, Some(b)) => Some(b),
        (None, None) => None,
    }
}

fn choose_extent_oracle(spec: PairSpec, policy: &SolverPolicy) -> (u32, ScoreTuple) {
    (0..=spec.total)
        .map(|a| (a, oracle_score(spec, policy, a)))
        .min_by_key(|(_, score)| *score)
        .expect("oracle search space is never empty")
}

fn oracle_score(spec: PairSpec, policy: &SolverPolicy, a: u32) -> ScoreTuple {
    let size_b = spec.total - a;
    let short_a = u128::from(spec.min_a.saturating_sub(a));
    let short_b = u128::from(spec.min_b.saturating_sub(size_b));
    let over_a = u128::from(spec.max_a.map_or(0, |max| a.saturating_sub(max)));
    let over_b = u128::from(spec.max_b.map_or(0, |max| size_b.saturating_sub(max)));
    let total_weight = u128::from(spec.wa) + u128::from(spec.wb);

    ScoreTuple {
        shortage_penalty: match policy.shortage_mode {
            ShortageMode::Equal => short_a + short_b,
            ShortageMode::ByShrinkPriority => {
                short_a * u128::from(spec.sa) + short_b * u128::from(spec.sb)
            }
        },
        overflow_penalty: over_a + over_b,
        preference_penalty: (u128::from(a) * total_weight)
            .abs_diff(u128::from(spec.total) * u128::from(spec.wa)),
        tie_break: match policy.tie_break {
            TieBreakMode::PreferA => u128::from(spec.total - a),
            TieBreakMode::PreferB => u128::from(a),
        },
    }
}

fn solve_reference<T>(tree: &Tree<T>, revision: u64, root: Rect, policy: &SolverPolicy) -> Snapshot {
    let mut summaries = HashMap::new();
    let mut snapshot = Snapshot {
        revision,
        root,
        node_rects: HashMap::new(),
        split_traces: Vec::new(),
        violations: Vec::new(),
        strict_feasible: true,
    };
    let Some(root_id) = tree.root_id() else {
        return snapshot;
    };
    summarize_reference(tree, root_id, &mut summaries);
    solve_reference_node(tree, root_id, root, &summaries, policy, &mut snapshot);
    snapshot.strict_feasible = snapshot.violations.is_empty();
    snapshot
}

fn solve_reference_node<T>(
    tree: &Tree<T>,
    id: NodeId,
    rect: Rect,
    summaries: &HashMap<NodeId, RefSummary>,
    policy: &SolverPolicy,
    out: &mut Snapshot,
) {
    out.node_rects.insert(id, rect);
    if let Some(leaf) = tree.leaf(id) {
        record_leaf_violations(id, rect, &leaf.meta().limits, out);
    } else {
        let split = tree.split(id).expect("missing node");
        let sum_a = summaries[&split.a()];
        let sum_b = summaries[&split.b()];
        let spec = PairSpec {
            total: rect.extent(split.axis()),
            min_a: u32::try_from(sum_a.axis_limits(split.axis()).0)
                .expect("test bounds should fit u32"),
            min_b: u32::try_from(sum_b.axis_limits(split.axis()).0)
                .expect("test bounds should fit u32"),
            max_a: sum_a
                .axis_limits(split.axis())
                .1
                .map(|value| u32::try_from(value).expect("test bounds should fit u32")),
            max_b: sum_b
                .axis_limits(split.axis())
                .1
                .map(|value| u32::try_from(value).expect("test bounds should fit u32")),
            wa: split.weights().a,
            wb: split.weights().b,
            sa: sum_a.shrink_cost,
            sb: sum_b.shrink_cost,
        };
        let (chosen_a, score) = choose_extent_oracle(spec, policy);
        let (rect_a, rect_b) = rect.split(split.axis(), chosen_a);
        out.split_traces.push(SplitTrace {
            split: id,
            axis: split.axis(),
            total: spec.total,
            chosen_a,
            score,
            weights: split.weights(),
        });
        solve_reference_node(tree, split.a(), rect_a, summaries, policy, out);
        solve_reference_node(tree, split.b(), rect_b, summaries, policy, out);
    }
}

fn record_leaf_violations(node: NodeId, rect: Rect, limits: &SizeLimits, out: &mut Snapshot) {
    if rect.w < limits.min_w {
        out.violations.push(Violation {
            node,
            kind: ViolationKind::MinWidth,
            required: limits.min_w,
            actual: rect.w,
        });
    }
    if rect.h < limits.min_h {
        out.violations.push(Violation {
            node,
            kind: ViolationKind::MinHeight,
            required: limits.min_h,
            actual: rect.h,
        });
    }
    if let Some(max_w) = limits.max_w.filter(|max_w| rect.w > *max_w) {
        out.violations.push(Violation {
            node,
            kind: ViolationKind::MaxWidth,
            required: max_w,
            actual: rect.w,
        });
    }
    if let Some(max_h) = limits.max_h.filter(|max_h| rect.h > *max_h) {
        out.violations.push(Violation {
            node,
            kind: ViolationKind::MaxHeight,
            required: max_h,
            actual: rect.h,
        });
    }
}

fn two_leaf_tree(left: LeafMeta, right: LeafMeta) -> Tree<u8> {
    let mut tree = Tree::new();
    let a = tree.new_leaf(1, left);
    let b = tree.new_leaf(2, right);
    let split = tree.new_split(Axis::X, a, b, WeightPair::default());
    tree.set_root(Some(split));
    tree.set_parent(a, Some(split));
    tree.set_parent(b, Some(split));
    tree
}
fn summary_matches_bruteforce_feasibility_envelope() {
    let session = exercise_trace(&[0, 1, 7, 0, 3, 6, 5, 2, 8, 11, 4, 10]);
    let root = session.tree().root_id().expect("non-empty session");
    let mut summaries = HashMap::new();
    let summary = summarize(session.tree(), root, &mut summaries).expect("summary should build");
    let policy = SolverPolicy::default();

    let strict_pairs = (0_u32..=20)
        .flat_map(|w| (0_u32..=20).map(move |h| (w, h)))
        .filter(|(w, h)| {
            solve_reference(
                session.tree(),
                session.revision(),
                root_rect(*w, *h),
                &policy,
            )
            .strict_feasible
        })
        .collect::<Vec<_>>();

    let min_w = strict_pairs
        .iter()
        .map(|(w, _)| *w)
        .min()
        .expect("some strict solution should exist");
    let min_h = strict_pairs
        .iter()
        .map(|(_, h)| *h)
        .min()
        .expect("some strict solution should exist");
    let max_w = strict_pairs
        .iter()
        .map(|(w, _)| *w)
        .max()
        .expect("strict widths should exist");
    let max_h = strict_pairs
        .iter()
        .map(|(_, h)| *h)
        .max()
        .expect("strict heights should exist");

    assert_eq!(summary.min_w, min_w);
    assert_eq!(summary.min_h, min_h);
    match summary.max_w {
        Some(value) => assert_eq!(value, max_w),
        None => assert_eq!(max_w, 20),
    }
    match summary.max_h {
        Some(value) => assert_eq!(value, max_h),
        None => assert_eq!(max_h, 20),
    }
}

#[test]
fn scale_symmetry_holds_with_exact_integer_arithmetic() {
    let mut session = Session::new();
    let _a = session
        .insert_root(1_u16, LeafMeta::default())
        .expect("insert root");
    let _b = session
        .split_focus(Axis::X, Slot::B, 2_u16, LeafMeta::default(), None)
        .expect("split x");
    let _c = session
        .split_focus(Axis::Y, Slot::B, 3_u16, LeafMeta::default(), None)
        .expect("split y");
    let scaled_meta = LeafMeta {
        limits: SizeLimits {
            min_w: 3,
            min_h: 3,
            ..LeafMeta::default().limits
        },
        ..LeafMeta::default()
    };
    let mut scaled = Session::new();
    let _a = scaled
        .insert_root(1_u16, scaled_meta.clone())
        .expect("insert scaled root");
    let _b = scaled
        .split_focus(Axis::X, Slot::B, 2_u16, scaled_meta.clone(), None)
        .expect("split scaled x");
    let _c = scaled
        .split_focus(Axis::Y, Slot::B, 3_u16, scaled_meta, None)
        .expect("split scaled y");
    let policy = SolverPolicy::default();
    let base = session.solve(root_rect(12, 12), &policy);
    let scaled_snap = scaled.solve(root_rect(36, 36), &policy);

    for (id, rect) in &base.node_rects {
        let scaled_rect = scaled_snap.rect(*id).expect("scaled rect missing");
        assert_eq!(scaled_rect.x, rect.x * 3);
        assert_eq!(scaled_rect.y, rect.y * 3);
        assert_eq!(scaled_rect.w, rect.w * 3);
        assert_eq!(scaled_rect.h, rect.h * 3);
    }
}

#[test]
fn solver_handles_maximal_weights_without_panicking() {
    let mut session = Session::new();
    let _ = session
        .insert_root(1_u8, LeafMeta::default())
        .expect("insert root");
    let _ = session
        .split_focus(
            Axis::X,
            Slot::B,
            2_u8,
            LeafMeta::default(),
            Some(WeightPair {
                a: u32::MAX,
                b: u32::MAX,
            }),
        )
        .expect("split root");

    let snapshot = solve(session.tree(), root_rect(12, 5), &SolverPolicy::default())
        .expect("maximal weights should remain solvable");

    assert!(snapshot.strict_feasible);
    assert_eq!(snapshot.rect(1).expect("left rect").w, 6);
    assert_eq!(snapshot.rect(2).expect("right rect").w, 6);
}

#[test]
fn summarize_rejects_min_width_sum_overflow() {
    let huge = LeafMeta {
        limits: SizeLimits {
            min_w: u32::MAX,
            ..LeafMeta::default().limits
        },
        ..LeafMeta::default()
    };
    let tree = two_leaf_tree(huge.clone(), huge);
    let root = tree.root_id().expect("split root");
    assert_eq!(
        summarize(&tree, root, &mut HashMap::new()),
        Err(ValidationError::ArithmeticOverflow {
            node: root,
            field: "min_w",
        })
    );
    assert!(matches!(
        solve(&tree, root_rect(8, 4), &SolverPolicy::default()),
        Err(SolveError::Validation(ValidationError::ArithmeticOverflow {
            node,
            field: "min_w",
        })) if node == root
    ));
}

#[test]
fn summarize_rejects_finite_max_width_sum_overflow() {
    let bounded = LeafMeta {
        limits: SizeLimits {
            max_w: Some(u32::MAX),
            ..LeafMeta::default().limits
        },
        ..LeafMeta::default()
    };
    let tree = two_leaf_tree(bounded.clone(), bounded);
    let root = tree.root_id().expect("split root");

    assert_eq!(
        summarize(&tree, root, &mut HashMap::new()),
        Err(ValidationError::ArithmeticOverflow {
            node: root,
            field: "max_w",
        })
    );
}

#[test]
fn session_try_solve_reports_unrepresentable_summary_overflow() {
    let huge = LeafMeta {
        limits: SizeLimits {
            min_w: u32::MAX,
            ..LeafMeta::default().limits
        },
        ..LeafMeta::default()
    };
    let mut session = Session::new();
    let _ = session
        .insert_root(1_u8, huge.clone())
        .expect("insert root");
    let _ = session
        .split_focus(Axis::X, Slot::B, 2_u8, huge, None)
        .expect("split root");

    assert!(matches!(
        session.try_solve(root_rect(8, 4), &SolverPolicy::default()),
        Err(SolveError::Validation(
            ValidationError::ArithmeticOverflow { field: "min_w", .. }
        ))
    ));
}

fn stressed_policy(seed: u8) -> SolverPolicy {
    SolverPolicy {
        shortage_mode: if seed & 1 == 0 {
            ShortageMode::Equal
        } else {
            ShortageMode::ByShrinkPriority
        },
        overflow_mode: OverflowMode::Uniform,
        tie_break: if seed & 2 == 0 {
            TieBreakMode::PreferA
        } else {
            TieBreakMode::PreferB
        },
    }
}

fn assert_partition<T>(session: &Session<T>, root: Rect, snap: &Snapshot) {
    let Some(tree_root) = session.tree().root_id() else {
        assert!(snap.node_rects.is_empty());
        return;
    };
    let mut cells =
        vec![None; usize::try_from(root.w.saturating_mul(root.h)).expect("root too large")];
    for leaf in session.tree().leaf_ids_dfs(tree_root) {
        let rect = snap.rect(leaf).expect("missing leaf rect");
        for y in rect.top()..rect.bottom() {
            for x in rect.left()..rect.right() {
                let x_off = u32::try_from(x - root.left()).expect("x below root");
                let y_off = u32::try_from(y - root.top()).expect("y below root");
                let idx = usize::try_from(y_off * root.w + x_off).expect("cell index overflow");
                assert!(cells[idx].is_none(), "cell overlapped at ({x}, {y})");
                cells[idx] = Some(leaf);
            }
        }
    }
    assert!(
        cells.iter().all(Option::is_some),
        "partition left holes inside root"
    );
}

const FIXED_TRACES: [&[u8]; 6] = [
    &[0],
    &[0, 1, 7, 0, 3, 6, 5, 2, 8, 11, 4, 10],
    &[12, 24, 13, 36, 9, 8, 7, 1, 4, 5, 6, 3, 10, 11],
    &[0, 0, 0, 0, 2, 8, 9, 20, 33, 45, 57, 69, 81, 93],
    &[1, 13, 25, 37, 49, 61, 73, 85, 6, 18, 30, 42, 54, 66, 78, 90, 7, 19],
    &[0, 12, 24, 6, 130, 142, 154, 166, 8, 9, 10, 11, 4, 5, 3, 2, 1, 0, 7, 255],
];

#[test]
fn allocator_matches_oracle_on_a_grid() {
    for total in [0_u32, 1, 3, 7, 12, 15] {
        for (min_a, min_b) in [(0_u32, 0_u32), (1, 2), (3, 0), (7, 7), (5, 4)] {
            for (wa, wb) in [(0_u32, 1_u32), (1, 0), (1, 1), (2, 5), (5, 3)] {
                for (sa, sb) in [(1_u64, 1_u64), (3, 7), (7, 2)] {
                    for (max_a, max_b) in [
                        (None, None),
                        (Some(min_a), None),
                        (None, Some(min_b + 3)),
                        (Some(min_a + 2), Some(min_b + 7)),
                    ] {
                        for seed in 0_u8..4 {
                            let spec = PairSpec {
                                total,
                                min_a,
                                min_b,
                                max_a,
                                max_b,
                                wa,
                                wb,
                                sa,
                                sb,
                            };
                            let policy = stressed_policy(seed);
                            assert_eq!(
                                choose_extent_with_score(spec, &policy),
                                choose_extent_oracle(spec, &policy),
                                "spec {spec:?}, seed {seed}"
                            );
                        }
                    }
                }
            }
        }
    }
}

#[test]
fn production_solver_matches_reference_and_partitions_on_fixed_traces() {
    for bytes in FIXED_TRACES {
        let session = exercise_trace(bytes);
        for (w, h) in [(0_u32, 0_u32), (1, 8), (5, 3), (8, 8), (7, 0)] {
            for seed in [0_u8, 1, 2, 3] {
                let root = root_rect(w, h);
                let policy = stressed_policy(seed);
                let production = session.solve(root, &policy);
                let reference = solve_reference(session.tree(), session.revision(), root, &policy);
                assert_eq!(&production.node_rects, &reference.node_rects);
                assert_eq!(&production.violations, &reference.violations);
                assert_eq!(production.strict_feasible, reference.strict_feasible);
                assert_partition(&session, root, &production);
                assert_eq!(production, session.solve(root, &policy));
            }
        }
    }
}

#[test]
fn reference_solver_is_deterministic_on_fixed_traces() {
    for bytes in FIXED_TRACES {
        let session = exercise_trace(bytes);
        for (w, h) in [(0_u32, 4_u32), (3, 3), (8, 5)] {
            for seed in [0_u8, 3] {
                let root = root_rect(w, h);
                let policy = stressed_policy(seed);
                assert_eq!(
                    solve_reference(session.tree(), session.revision(), root, &policy),
                    solve_reference(session.tree(), session.revision(), root, &policy),
                );
            }
        }
    }
}
