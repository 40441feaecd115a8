use vstd::prelude::*;

use std::collections::HashMap;

use crate::geom::{Axis, Rect};
use crate::ids::{NodeId, Revision};
use crate::limits::WeightPair;

verus! {

broadcast use vstd::std_specs::hash::group_hash_axioms;

/// Penalties of one allocation choice; compared field by field, smaller is better.
#[derive(Debug, Clone, Copy, PartialEq, Eq, PartialOrd, Ord, Structural)]
pub struct ScoreTuple {
    pub shortage_penalty: u128,
    pub overflow_penalty: u128,
    pub preference_penalty: u128,
    pub tie_break: u128,
}

/// How the solver split one node.
#[derive(Debug, Clone, PartialEq, Eq, Structural)]
pub struct SplitTrace {
    pub split: NodeId,
    pub axis: Axis,
    pub total: u32,
    pub chosen_a: u32,
    pub score: ScoreTuple,
    pub weights: WeightPair,
}

/// Which leaf limit a solved rectangle breaks.
#[derive(Debug, Clone, Copy, PartialEq, Eq, Structural)]
pub enum ViolationKind {
    MinWidth,
    MinHeight,
    MaxWidth,
    MaxHeight,
}

/// A leaf limit broken by a solved layout.
#[derive(Debug, Clone, PartialEq, Eq, Structural)]
pub struct Violation {
    pub node: NodeId,
    pub kind: ViolationKind,
    pub required: u32,
    pub actual: u32,
}

/// A solved layout of a tree at one revision.
#[derive(Debug, Clone, PartialEq, Eq)]
pub struct Snapshot {
    pub revision: Revision,
    pub root: Rect,
    pub node_rects: HashMap<NodeId, Rect>,
    pub split_traces: Vec<SplitTrace>,
    pub violations: Vec<Violation>,
    pub strict_feasible: bool,
}

impl Snapshot {
    /// The rectangle solved for `node`, if any.
    #[must_use]
    pub fn rect(&self, node: NodeId) -> (r: Option<Rect>)
        ensures
            r == self.node_rects@.get(node),
    {
        match self.node_rects.get(&node) {
            Some(rect) => Some(*rect),
            None => None,
        }
    }
}

} // verus!
