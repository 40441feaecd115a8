pub mod ids;
pub mod geom;
pub mod limits;
pub mod error;
pub mod nav;
pub mod resize;
pub mod snapshot;
pub mod tree;
pub mod solver;
pub mod session;
pub mod tree_links;
pub mod adjust;
pub mod edit;
pub mod grow;
pub mod navigate;
pub mod preset;

pub use error::{NavError, OpError, SolveError, ValidationError};
pub use geom::{Axis, Direction, Rect, Slot};
pub use ids::{NodeId, Revision};
pub use limits::{canonicalize_weights, LeafMeta, Priority, SizeLimits, Summary, WeightPair};
pub use preset::{BalancedPreset, DwindlePreset, PresetKind, TallPreset, WidePreset};
pub use resize::ResizeStrategy;
pub use session::{RebalanceMode, Session};
pub use snapshot::{ScoreTuple, Snapshot, SplitTrace, Violation, ViolationKind};
pub use solver::{
    choose_extent, choose_extent_with_score, score, solve, solve_strict, solve_strict_with_revision,
    solve_with_revision, summarize, OverflowMode, PairSpec, ShortageMode, SolverPolicy, TieBreakMode,
};
pub use tree::{LeafNode, Node, SplitNode, Tree};
