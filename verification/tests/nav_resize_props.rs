use std::collections::HashMap;

use libtiler::{
    canonicalize_weights, Axis, BalancedPreset, Direction, DwindlePreset, LeafMeta, NavError,
    NodeId, PresetKind, RebalanceMode, Rect, ResizeStrategy, Session, SizeLimits, Slot, Snapshot,
    SolverPolicy, TallPreset, Tree, WeightPair, WidePreset,
};

fn root_rect(w: u32, h: u32) -> Rect {
    Rect { x: 0, y: 0, w, h }
}

#[derive(Debug, Clone, Copy, PartialEq, Eq)]
struct RefSummary {
    min_w: u64,
    min_h: u64,
    max_w: Option<u64>,
    max_h: Option<u64>,
    leaf_count: u64,
    shrink_cost: u64,
    grow_cost: u64,
}

impl RefSummary {
    fn axis_limits(self, axis: Axis) -> (u64, Option<u64>) {
        match axis {
            Axis::X => (self.min_w, self.max_w),
            Axis::Y => (self.min_h, self.max_h),
        }
    }
}

fn summarize_reference<T>(
    tree: &Tree<T>,
    id: NodeId,
    out: &mut HashMap<NodeId, RefSummary>,
) -> RefSummary {
    if let Some(summary) = out.get(&id).copied() {
        return summary;
    }
    let summary = if let Some(leaf) = tree.leaf(id) {
        RefSummary {
            min_w: u64::from(leaf.meta().limits.min_w),
            min_h: u64::from(leaf.meta().limits.min_h),
            max_w: leaf.meta().limits.max_w.map(u64::from),
            max_h: leaf.meta().limits.max_h.map(u64::from),
            leaf_count: 1,
            shrink_cost: u64::from(leaf.meta().priority.shrink),
            grow_cost: u64::from(leaf.meta().priority.grow),
        }
    } else {
        let split = tree.split(id).expect("missing node in reference summary");
        let a = summarize_reference(tree, split.a(), out);
        let b = summarize_reference(tree, split.b(), out);
        match split.axis() {
            Axis::X => RefSummary {
                min_w: checked_add_u64(a.min_w, b.min_w, "min_w"),
                min_h: a.min_h.max(b.min_h),
                max_w: checked_add_option_u64(a.max_w, b.max_w, "max_w"),
                max_h: min_option_u64(a.max_h, b.max_h),
                leaf_count: checked_add_u64(a.leaf_count, b.leaf_count, "leaf_count"),
                shrink_cost: checked_add_u64(a.shrink_cost, b.shrink_cost, "shrink_cost"),
                grow_cost: checked_add_u64(a.grow_cost, b.grow_cost, "grow_cost"),
            },
            Axis::Y => RefSummary {
                min_w: a.min_w.max(b.min_w),
                min_h: checked_add_u64(a.min_h, b.min_h, "min_h"),
                max_w: min_option_u64(a.max_w, b.max_w),
                max_h: checked_add_option_u64(a.max_h, b.max_h, "max_h"),
                leaf_count: checked_add_u64(a.leaf_count, b.leaf_count, "leaf_count"),
                shrink_cost: checked_add_u64(a.shrink_cost, b.shrink_cost, "shrink_cost"),
                grow_cost: checked_add_u64(a.grow_cost, b.grow_cost, "grow_cost"),
            },
        }
    };
    out.insert(id, summary);
    summary
}

fn checked_add_u64(a: u64, b: u64, field: &str) -> u64 {
    a.checked_add(b)
        .unwrap_or_else(|| panic!("reference summary overflow in {field}"))
}

fn checked_add_option_u64(a: Option<u64>, b: Option<u64>, field: &str) -> Option<u64> {
    match (a, b) {
        (Some(a), Some(b)) => Some(checked_add_u64(a, b, field)),
        _ => None,
    }
}

fn min_option_u64(a: Option<u64>, b: Option<u64>) -> Option<u64> {
    match (a, b) {
        (Some(a), Some(b)) => Some(a.min(b)),
        (Some(a), None) => Some(a),
        (None, Some(b)) => Some(b),
        (None, None) => None,
    }
}

fn best_neighbor_oracle<T>(
    session: &Session<T>,
    snap: &Snapshot,
    current: NodeId,
    dir: Direction,
) -> Option<NodeId> {
    let current_rect = snap.rect(current)?;
    let order = session
        .tree()
        .root_id()
        .map(|root| session.tree().leaf_ids_dfs(root))
        .unwrap_or_default();

    order
        .iter()
        .enumerate()
        .filter_map(|(rank, id)| {
            (*id != current).then(|| {
                snap.rect(*id).and_then(|candidate| {
                    nav_score_oracle(current_rect, candidate, dir, rank).map(|score| (*id, score))
                })
            })?
        })
        .min_by_key(|(_, score)| *score)
        .map(|(id, _)| id)
}

fn nav_score_oracle(
    current: Rect,
    candidate: Rect,
    dir: Direction,
    rank: usize,
) -> Option<(u32, u32, u64, usize)> {
    let (eligible, primary_gap, orth_gap, orth_center_delta) = match dir {
        Direction::Left => (
            candidate.right() <= current.left(),
            u32::try_from(current.left() - candidate.right()).ok()?,
            orth_gap_oracle(current.top(), current.bottom(), candidate.top(), candidate.bottom()),
            current
                .center_twice_orth(Axis::X)
                .abs_diff(candidate.center_twice_orth(Axis::X)),
        ),
        Direction::Right => (
            candidate.left() >= current.right(),
            u32::try_from(candidate.left() - current.right()).ok()?,
            orth_gap_oracle(current.top(), current.bottom(), candidate.top(), candidate.bottom()),
            current
                .center_twice_orth(Axis::X)
                .abs_diff(candidate.center_twice_orth(Axis::X)),
        ),
        Direction::Up => (
            candidate.bottom() <= current.top(),
            u32::try_from(current.top() - candidate.bottom()).ok()?,
            orth_gap_oracle(current.left(), current.right(), candidate.left(), candidate.right()),
            current
                .center_twice_orth(Axis::Y)
                .abs_diff(candidate.center_twice_orth(Axis::Y)),
        ),
        Direction::Down => (
            candidate.top() >= current.bottom(),
            u32::try_from(candidate.top() - current.bottom()).ok()?,
            orth_gap_oracle(current.left(), current.right(), candidate.left(), candidate.right()),
            current
                .center_twice_orth(Axis::Y)
                .abs_diff(candidate.center_twice_orth(Axis::Y)),
        ),
    };

    eligible.then_some((primary_gap, orth_gap, orth_center_delta, rank))
}

fn orth_gap_oracle(a_start: i32, a_end: i32, b_start: i32, b_end: i32) -> u32 {
    if a_end <= b_start {
        u32::try_from(b_start - a_end).expect("gap should fit u32")
    } else if b_end <= a_start {
        u32::try_from(a_start - b_end).expect("gap should fit u32")
    } else {
        0
    }
}

#[derive(Debug, Clone, Copy, PartialEq, Eq)]
struct RefEligibleSplit {
    split: NodeId,
    total: u32,
    current_a: u32,
    lo: u32,
    hi: u32,
}

impl RefEligibleSplit {
    fn slack(self, sign: i8) -> u32 {
        if self.lo > self.hi {
            return 0;
        }
        if sign > 0 {
            self.hi.saturating_sub(self.current_a)
        } else {
            self.current_a.saturating_sub(self.lo)
        }
    }
}

fn eligible_splits_oracle<T>(
    session: &Session<T>,
    snap: &Snapshot,
    focus: NodeId,
    dir: Direction,
) -> Vec<RefEligibleSplit> {
    let focus_rect = snap.rect(focus).expect("focus rect should exist");
    let mut summaries = HashMap::new();
    if let Some(root) = session.tree().root_id() {
        let _ = summarize_reference(session.tree(), root, &mut summaries);
    }

    session
        .tree()
        .ancestors_nearest_first(focus)
        .into_iter()
        .filter_map(|split_id| {
            let split = session.tree().split(split_id)?;
            let a_rect = snap.rect(split.a())?;
            let b_rect = snap.rect(split.b())?;
            let focus_in_a = session.tree().contains_in_subtree(split.a(), focus);
            let eligible = match dir {
                Direction::Right => {
                    split.axis() == Axis::X && focus_in_a && focus_rect.right() == a_rect.right()
                }
                Direction::Left => {
                    split.axis() == Axis::X && !focus_in_a && focus_rect.left() == b_rect.left()
                }
                Direction::Down => {
                    split.axis() == Axis::Y && focus_in_a && focus_rect.bottom() == a_rect.bottom()
                }
                Direction::Up => {
                    split.axis() == Axis::Y && !focus_in_a && focus_rect.top() == b_rect.top()
                }
            };
            eligible.then(|| {
                let total = a_rect.extent(split.axis()) + b_rect.extent(split.axis());
                let sum_a = summaries[&split.a()];
                let sum_b = summaries[&split.b()];
                let (min_a, max_a) = sum_a.axis_limits(split.axis());
                let (min_b, max_b) = sum_b.axis_limits(split.axis());
                let min_a = u32::try_from(min_a).expect("test bounds should fit u32");
                let min_b = u32::try_from(min_b).expect("test bounds should fit u32");
                let max_a =
                    max_a.map(|value| u32::try_from(value).expect("test bounds should fit u32"));
                let max_b =
                    max_b.map(|value| u32::try_from(value).expect("test bounds should fit u32"));
                RefEligibleSplit {
                    split: split_id,
                    total,
                    current_a: a_rect.extent(split.axis()),
                    lo: min_a.max(max_b.map_or(0, |value| total.saturating_sub(value))),
                    hi: total.saturating_sub(min_b).min(max_a.unwrap_or(total)),
                }
            })
        })
        .collect()
}

fn zero_meta() -> LeafMeta {
    LeafMeta {
        limits: SizeLimits {
            min_w: 0,
            min_h: 0,
            max_w: None,
            max_h: None,
        },
        ..LeafMeta::default()
    }
}

fn split_weights(session: &Session<u8>, split_id: NodeId) -> WeightPair {
    session
        .tree()
        .split(split_id)
        .expect("split should exist")
        .weights
}

fn left_edge(rect: Rect) -> i32 {
    rect.left()
}

fn edge_mismatch_session() -> (Session<u8>, NodeId, NodeId) {
    let mut session = Session::new();
    let focus = session.insert_root(1, zero_meta()).expect("insert root");
    let _ = session
        .split_focus(Axis::X, Slot::B, 2, zero_meta(), None)
        .expect("split root");
    session
        .set_selection(focus)
        .expect("select focus leaf for inner split");
    let _ = session
        .wrap_selection(Axis::X, Slot::B, 3, zero_meta(), None)
        .expect("wrap focus in inner x split");
    let root = session.tree().root_id().expect("root should exist");
    (session, focus, root)
}

fn chain_session() -> (Session<u8>, NodeId, Vec<NodeId>) {
    let mut session = Session::new();
    let focus = session.insert_root(1, zero_meta()).expect("insert root");
    let _ = session
        .split_focus(
            Axis::X,
            Slot::A,
            2,
            zero_meta(),
            Some(WeightPair { a: 0, b: 1 }),
        )
        .expect("split root with zero-width left sibling");
    session
        .set_selection(focus)
        .expect("select focus leaf for nested split");
    let _ = session
        .wrap_selection(
            Axis::X,
            Slot::A,
            3,
            zero_meta(),
            Some(WeightPair { a: 0, b: 1 }),
        )
        .expect("wrap focus with inner zero-width sibling");
    let root = session.tree().root_id().expect("root should exist");
    let inner = session
        .tree()
        .parent_of(focus)
        .expect("inner split should exist");
    (session, focus, vec![inner, root])
}

fn distributed_allocations(
    eligible: &[RefEligibleSplit],
    request: u32,
    sign: i8,
) -> Vec<(NodeId, u32)> {
    let total_slack = eligible.iter().map(|entry| entry.slack(sign)).sum::<u32>();
    if total_slack == 0 {
        return Vec::new();
    }
    let request = request.min(total_slack);
    let mut assigned = 0_u32;
    let mut allocations = eligible
        .iter()
        .enumerate()
        .map(|(idx, entry)| {
            let slack = entry.slack(sign);
            let product = u128::from(request) * u128::from(slack);
            let base = u32::try_from(product / u128::from(total_slack))
                .expect("base share should fit u32");
            let remainder =
                u32::try_from(product % u128::from(total_slack)).expect("remainder should fit u32");
            assigned += base;
            (idx, entry.split, slack, base.min(slack), remainder)
        })
        .collect::<Vec<_>>();
    let mut leftover = request - assigned;
    allocations.sort_by_key(|(idx, _, _, _, remainder)| (std::cmp::Reverse(*remainder), *idx));
    for (_, _, slack, base, _) in &mut allocations {
        if leftover == 0 {
            break;
        }
        if *base < *slack {
            *base += 1;
            leftover -= 1;
        }
    }
    allocations.sort_by_key(|(idx, ..)| *idx);
    allocations
        .into_iter()
        .filter_map(|(_, split, _, delta, _)| (delta != 0).then_some((split, delta)))
        .collect()
}

fn ancestor_chain_allocations(
    eligible: &[RefEligibleSplit],
    request: u32,
    sign: i8,
) -> Vec<(NodeId, u32)> {
    let mut remaining = request;
    let mut out = Vec::new();
    for entry in eligible {
        if remaining == 0 {
            break;
        }
        let delta = remaining.min(entry.slack(sign));
        if delta != 0 {
            out.push((entry.split, delta));
            remaining -= delta;
        }
    }
    out
}
fn navigation_tie_breaks_by_dfs_order() {
    let mut session = Session::new();
    let current = session
        .insert_root(3, LeafMeta::default())
        .expect("insert current leaf");
    let top_left = session
        .split_focus(Axis::X, Slot::A, 1, LeafMeta::default(), None)
        .expect("create left branch");
    session.set_selection(top_left).expect("select left branch");
    let bottom_left = session
        .wrap_selection(Axis::Y, Slot::B, 2, LeafMeta::default(), None)
        .expect("split left branch vertically");

    session
        .set_selection(current)
        .expect("restore current focus");
    let snap = session.solve(root_rect(8, 8), &SolverPolicy::default());

    assert_eq!(
        best_neighbor_oracle(&session, &snap, current, Direction::Left),
        Some(top_left)
    );
    session
        .focus_dir(Direction::Left, &snap)
        .expect("left navigation should succeed");
    assert_eq!(session.focus(), Some(top_left));
    assert_ne!(top_left, bottom_left);
}

#[test]
fn resize_excludes_same_axis_ancestor_when_edge_does_not_match() {
    let (mut session, focus, root_split) = edge_mismatch_session();
    let root = root_rect(12, 6);
    let snap = session.solve(root, &SolverPolicy::default());
    let eligible = eligible_splits_oracle(&session, &snap, focus, Direction::Right);
    let root_weights_before = split_weights(&session, root_split);
    let before = snap.rect(focus).expect("focus rect");

    assert_eq!(eligible.len(), 1);
    session
        .grow_focus(Direction::Right, 99, ResizeStrategy::Local, &snap)
        .expect("local grow should succeed");
    let after = session.solve(root, &SolverPolicy::default());
    let after_rect = after.rect(focus).expect("focus rect after resize");

    assert_eq!(split_weights(&session, root_split), root_weights_before);
    assert_eq!(after_rect.w - before.w, eligible[0].slack(1));
}

#[test]
fn local_resize_matches_nearest_eligible_slack() {
    let (mut session, focus, _) = edge_mismatch_session();
    let root = root_rect(12, 6);
    let snap = session.solve(root, &SolverPolicy::default());
    let eligible = eligible_splits_oracle(&session, &snap, focus, Direction::Right);
    let before = snap.rect(focus).expect("focus rect");
    let expected = eligible[0].slack(1);

    session
        .grow_focus(Direction::Right, 99, ResizeStrategy::Local, &snap)
        .expect("local grow should succeed");
    let after = session.solve(root, &SolverPolicy::default());

    assert_eq!(
        after.rect(focus).expect("focus rect after resize").right() - before.right(),
        i32::try_from(expected).expect("expected motion should fit i32")
    );
}

#[test]
fn ancestor_chain_rewrites_split_preferences_greedily_nearest_first() {
    let (mut session, focus, _) = chain_session();
    let root = root_rect(18, 6);
    let snap = session.solve(root, &SolverPolicy::default());
    let eligible = eligible_splits_oracle(&session, &snap, focus, Direction::Left);
    let request = 24;
    let expected = ancestor_chain_allocations(&eligible, request, 1);
    let before = eligible
        .iter()
        .map(|entry| (entry.split, split_weights(&session, entry.split)))
        .collect::<Vec<_>>();

    session
        .shrink_focus(
            Direction::Left,
            request,
            ResizeStrategy::AncestorChain,
            &snap,
        )
        .expect("ancestor-chain shrink should succeed");

    for (split, old_weight) in before {
        let entry = eligible
            .iter()
            .find(|entry| entry.split == split)
            .expect("eligible split should exist");
        let expected_delta = expected
            .iter()
            .find_map(|(expected_split, delta)| (*expected_split == split).then_some(*delta))
            .unwrap_or(0);
        let expected_a = entry.current_a + expected_delta;
        let expected_weight = canonicalize_weights(expected_a, entry.total - expected_a);
        let actual = split_weights(&session, split);
        if expected_delta == 0 {
            assert_eq!(
                actual, old_weight,
                "untouched split {split} should keep its weight"
            );
        } else {
            assert_eq!(
                actual, expected_weight,
                "split {split} should use greedy chain weights"
            );
        }
    }
}

#[test]
fn distributed_by_slack_uses_proportional_allocation_with_stable_remainder() {
    let (mut session, focus, splits) = chain_session();
    let root = root_rect(18, 6);
    let snap = session.solve(root, &SolverPolicy::default());
    let eligible = eligible_splits_oracle(&session, &snap, focus, Direction::Left);
    let request = 5;
    let expected = distributed_allocations(&eligible, request, 1);
    let before = splits
        .iter()
        .copied()
        .map(|split| (split, split_weights(&session, split)))
        .collect::<Vec<_>>();

    session
        .shrink_focus(
            Direction::Left,
            request,
            ResizeStrategy::DistributedBySlack,
            &snap,
        )
        .expect("distributed shrink should succeed");

    for (split, old_weight) in before {
        let entry = eligible
            .iter()
            .find(|entry| entry.split == split)
            .expect("eligible split should exist");
        let expected_delta = expected
            .iter()
            .find_map(|(expected_split, delta)| (*expected_split == split).then_some(*delta))
            .unwrap_or(0);
        let expected_a = entry.current_a + expected_delta;
        let expected_weight = canonicalize_weights(expected_a, entry.total - expected_a);
        let actual = split_weights(&session, split);
        if expected_delta == 0 {
            assert_eq!(
                actual, old_weight,
                "untouched split {split} should keep its weight"
            );
        } else {
            assert_eq!(
                actual, expected_weight,
                "split {split} should use distributed weights"
            );
        }
    }
}

#[test]
fn resize_oracle_and_session_agree_on_eligible_split_order() {
    let (mut session, focus, splits) = chain_session();
    let root = root_rect(18, 6);
    let snap = session.solve(root, &SolverPolicy::default());
    let eligible = eligible_splits_oracle(&session, &snap, focus, Direction::Left);
    let before = splits
        .iter()
        .copied()
        .map(|split| (split, split_weights(&session, split)))
        .collect::<Vec<_>>();

    session
        .shrink_focus(Direction::Left, 1, ResizeStrategy::Local, &snap)
        .expect("local shrink should succeed");
    let moved = before
        .into_iter()
        .find_map(|(split, weight)| (split_weights(&session, split) != weight).then_some(split))
        .expect("one split should move");

    assert_eq!(moved, eligible[0].split);
}

#[test]
fn raw_path_slack_can_exceed_realized_motion_in_same_axis_chains() {
    let (mut session, focus, _) = chain_session();
    let root = root_rect(18, 6);
    let snap = session.solve(root, &SolverPolicy::default());
    let eligible = eligible_splits_oracle(&session, &snap, focus, Direction::Left);
    let before = snap.rect(focus).expect("focus rect");
    let raw_sum = eligible.iter().map(|entry| entry.slack(1)).sum::<u32>();

    session
        .shrink_focus(Direction::Left, 24, ResizeStrategy::AncestorChain, &snap)
        .expect("ancestor-chain shrink should succeed");
    let after = session.solve(root, &SolverPolicy::default());
    let motion = left_edge(after.rect(focus).expect("focus rect after resize")) - left_edge(before);

    assert!(raw_sum > before.w);
    assert!(motion <= i32::try_from(before.w).expect("width should fit i32"));
    assert_eq!(
        motion,
        i32::try_from(before.w).expect("width should fit i32")
    );
}

fn leaf_ids<T>(session: &Session<T>) -> Vec<NodeId> {
    session
        .tree()
        .root_id()
        .map(|root| session.tree().leaf_ids_dfs(root))
        .unwrap_or_default()
}

fn split_ids<T>(session: &Session<T>) -> Vec<NodeId> {
    session.tree().split_ids()
}

fn axis(byte: &u8) -> Axis {
    if byte & 1 == 0 { Axis::X } else { Axis::Y }
}

fn slot(byte: &u8) -> Slot {
    if byte & 2 == 0 { Slot::A } else { Slot::B }
}

fn direction(byte: &u8) -> Direction {
    match byte & 0b11 {
        0 => Direction::Left,
        1 => Direction::Right,
        2 => Direction::Up,
        _ => Direction::Down,
    }
}

fn strategy(byte: &u8) -> ResizeStrategy {
    match byte % 3 {
        0 => ResizeStrategy::Local,
        1 => ResizeStrategy::AncestorChain,
        _ => ResizeStrategy::DistributedBySlack,
    }
}

fn first_disjoint_pair<T>(session: &Session<T>, nodes: &[NodeId]) -> Option<(NodeId, NodeId)> {
    for (idx, a) in nodes.iter().enumerate() {
        for b in nodes.iter().skip(idx + 1) {
            if !session.tree().contains_in_subtree(*a, *b)
                && !session.tree().contains_in_subtree(*b, *a)
            {
                return Some((*a, *b));
            }
        }
    }
    None
}

fn exercise_trace(bytes: &[u8]) -> Session<u16> {
    let mut session = Session::new();
    let _ = session
        .insert_root(0, LeafMeta::default())
        .expect("root insert should work");
    let mut next_payload = 1_u16;
    for byte in bytes {
        let leaves = leaf_ids(&session);
        let splits = split_ids(&session);
        let nodes = session.tree().node_ids();
        match byte % 12 {
            0 => {
                let _ = session.split_focus(
                    axis(byte),
                    slot(byte),
                    next_payload,
                    LeafMeta::default(),
                    None,
                );
                next_payload += 1;
            }
            1 => {
                let _ = session.wrap_selection(
                    axis(byte),
                    slot(byte),
                    next_payload,
                    LeafMeta::default(),
                    None,
                );
                next_payload += 1;
            }
            2 if leaves.len() > 1 => {
                let leaf = leaves[usize::from(*byte) % leaves.len()];
                let _ = session.set_selection(leaf);
                let _ = session.remove_focus();
            }
            3 if !splits.is_empty() => {
                let split = splits[usize::from(*byte) % splits.len()];
                if let Some(focus) = session.tree().first_leaf(split) {
                    let _ = session.set_focus_leaf(focus);
                    let _ = session.set_selection(split);
                    let _ = session.toggle_axis();
                }
            }
            4 if !splits.is_empty() => {
                let split = splits[usize::from(*byte) % splits.len()];
                if let Some(focus) = session.tree().first_leaf(split) {
                    let _ = session.set_focus_leaf(focus);
                    let _ = session.set_selection(split);
                    let _ = session.mirror_selection(axis(byte));
                }
            }
            5 if !splits.is_empty() => {
                let split = splits[usize::from(*byte) % splits.len()];
                if let Some(focus) = session.tree().first_leaf(split) {
                    let _ = session.set_focus_leaf(focus);
                    let _ = session.set_selection(split);
                    let mode = if byte & 1 == 0 {
                        RebalanceMode::BinaryEqual
                    } else {
                        RebalanceMode::LeafCount
                    };
                    let _ = session.rebalance_selection(mode);
                }
            }
            6 if !splits.is_empty() => {
                let split = splits[usize::from(*byte) % splits.len()];
                if let Some(focus) = session.tree().first_leaf(split) {
                    let _ = session.set_focus_leaf(focus);
                    let _ = session.set_selection(split);
                    let preset = match byte & 0b11 {
                        0 => PresetKind::Balanced(BalancedPreset {
                            start_axis: axis(byte),
                            alternate: byte & 0b100 != 0,
                        }),
                        1 => PresetKind::Tall(TallPreset {
                            master_slot: slot(byte),
                            root_weights: WeightPair { a: 2, b: 1 },
                        }),
                        2 => PresetKind::Wide(WidePreset {
                            master_slot: slot(byte),
                            root_weights: WeightPair { a: 1, b: 3 },
                        }),
                        _ => PresetKind::Dwindle(DwindlePreset {
                            start_axis: axis(byte),
                            new_leaf_slot: slot(byte),
                        }),
                    };
                    let _ = session.apply_preset(preset);
                }
            }
            7 if leaves.len() > 1 => {
                let focus = leaves[usize::from(*byte) % leaves.len()];
                let _ = session.set_selection(focus);
                let snap = session.solve(root_rect(9, 7), &SolverPolicy::default());
                let _ = session.focus_dir(direction(byte), &snap);
            }
            8 if leaves.len() > 1 => {
                let focus = leaves[usize::from(*byte) % leaves.len()];
                let _ = session.set_selection(focus);
                let snap = session.solve(root_rect(11, 9), &SolverPolicy::default());
                let _ = session.grow_focus(
                    direction(byte),
                    2 + u32::from(*byte & 0b11),
                    strategy(byte),
                    &snap,
                );
            }
            9 if leaves.len() > 1 => {
                let focus = leaves[usize::from(*byte) % leaves.len()];
                let _ = session.set_selection(focus);
                let snap = session.solve(root_rect(11, 9), &SolverPolicy::default());
                let _ = session.shrink_focus(
                    direction(byte),
                    1 + u32::from(*byte & 0b11),
                    strategy(byte),
                    &snap,
                );
            }
            10 if nodes.len() > 1 => {
                if let Some((a, b)) = first_disjoint_pair(&session, &nodes) {
                    let _ = session.swap_nodes(a, b);
                }
            }
            11 if nodes.len() > 1 && !splits.is_empty() => {
                let split = splits[usize::from(*byte) % splits.len()];
                let targets = nodes
                    .iter()
                    .copied()
                    .filter(|target| *target != split)
                    .collect::<Vec<_>>();
                if let Some(target) = targets.get(usize::from(*byte) % targets.len()) {
                    if let Some(focus) = session.tree().first_leaf(split) {
                        let _ = session.set_focus_leaf(focus);
                        let _ = session.set_selection(split);
                    }
                    let _ = session.move_selection_as_sibling_of(*target, axis(byte), slot(byte));
                }
            }
            _ => {}
        }
        session
            .validate()
            .expect("trace should preserve session invariants");
    }
    session
}

#[test]
fn navigation_matches_oracle_on_fixed_sessions() {
    let traces: [&[u8]; 5] = [
        &[0],
        &[0, 1, 7, 0, 3, 6, 5, 2, 8, 11, 4, 10],
        &[12, 24, 13, 36, 9, 8, 7, 1, 4, 5, 6, 3, 10, 11],
        &[0, 0, 0, 0, 2, 8, 9, 20, 33, 45, 57, 69, 81, 93],
        &[1, 13, 25, 37, 49, 61, 73, 85, 6, 18, 30, 42, 54, 66, 78, 90, 7, 19],
    ];
    for bytes in traces {
        for (w, h) in [(1_u32, 1_u32), (5, 9), (11, 11), (7, 3)] {
            let mut session = exercise_trace(bytes);
            let root = root_rect(w, h);
            let snap = session.solve(root, &SolverPolicy::default());
            for leaf in leaf_ids(&session) {
                for dir in [Direction::Left, Direction::Right, Direction::Up, Direction::Down] {
                    session.set_selection(leaf).expect("select leaf");
                    match best_neighbor_oracle(&session, &snap, leaf, dir) {
                        Some(expected) => {
                            session.focus_dir(dir, &snap).expect("focus move should succeed");
                            assert_eq!(session.focus(), Some(expected));
                        }
                        None => assert_eq!(session.focus_dir(dir, &snap), Err(NavError::NoCandidate)),
                    }
                }
            }
        }
    }
}
