use vstd::prelude::*;

use crate::ids::NodeId;

verus! {

/// Why a tree or session failed validation.
#[derive(Debug, Clone, PartialEq, Eq)]
pub enum ValidationError {
    MissingRoot(NodeId),
    RootHasParent(NodeId),
    MissingNode(NodeId),
    ParentMismatch { node: NodeId, expected: NodeId, actual: Option<NodeId> },
    DuplicateChild { split: NodeId, child: NodeId },
    Cycle(NodeId),
    Unreachable(NodeId),
    InvalidWeights(NodeId),
    InvalidLeafLimits(NodeId),
    NonLeafFocus(NodeId),
    InvalidSelection(NodeId),
    EmptyStateInconsistent,
    ArithmeticOverflow { node: NodeId, field: &'static str },
}

/// Why a solve failed.
#[derive(Debug, Clone, PartialEq, Eq)]
pub enum SolveError {
    Validation(ValidationError),
    Infeasible,
}

/// Why a navigation command failed.
#[derive(Debug, Clone, PartialEq, Eq)]
pub enum NavError {
    Empty,
    StaleSnapshot,
    MissingSnapshotRect(NodeId),
    NoCandidate,
    Validation(ValidationError),
}

/// Why a structural or resize command failed.
#[derive(Debug, Clone, PartialEq, Eq)]
pub enum OpError {
    Empty,
    NonEmpty,
    MissingNode(NodeId),
    NotLeaf(NodeId),
    NotSplit(NodeId),
    NoParent(NodeId),
    StaleSnapshot,
    InvalidWeights,
    AncestorConflict,
    SameNode,
    TargetInsideSelection,
    Validation(ValidationError),
}

} // verus!
