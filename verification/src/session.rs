use vstd::prelude::*;
use vstd::std_specs::iter::IteratorSpec;

use crate::error::{NavError, OpError, ValidationError};
use crate::geom::Rect;
use crate::ids::{NodeId, Revision};
use crate::snapshot::Snapshot;
use crate::solver::{solvable, solve_with_revision, solved, SolverPolicy};
use crate::geom::{Axis, Slot};
use crate::limits::{LeafMeta, WeightPair};
use crate::tree::{
    acyclic, finite_below, lemma_first_leaf_is_leaf, lemma_node_shape, lemma_same_links_acyclic,
    lemma_tree_acyclic, lemma_tree_ok_acyclic, node_parent, same_links, shape_of, spec_first_leaf,
    tree_ok, with_parent, LeafNode, Node, Tree,
};
use crate::tree_links::{lemma_wrap_map, lemma_wrap_ok, wrapped_map, wrapped_root};

verus! {

broadcast use vstd::std_specs::hash::group_hash_axioms;

/// How `rebalance_selection` resets split weights.
#[derive(Debug, Clone, Copy, PartialEq, Eq, Structural)]
pub enum RebalanceMode {
    BinaryEqual,
    LeafCount,
}

/// A layout tree together with the focused leaf, the selected node and a
/// revision counter that structural and resize edits advance.
#[derive(Debug, Clone, PartialEq, Eq)]
pub struct Session<T> {
    pub tree: Tree<T>,
    pub focus: Option<NodeId>,
    pub selection: Option<NodeId>,
    pub revision: Revision,
}

/// `m` holds a leaf at `id`.
pub open spec fn is_leaf_at<T>(m: Map<NodeId, Node<T>>, id: NodeId) -> bool {
    m.contains_key(id) && m[id] is Leaf
}

/// A selection is acceptable for focus `f`: a stored leaf equal to `f`, or a
/// stored split whose subtree contains `f`.
pub open spec fn selection_ok<T>(m: Map<NodeId, Node<T>>, f: NodeId, sel: NodeId) -> bool {
    &&& m.contains_key(sel)
    &&& (m[sel] is Leaf ==> sel == f)
    &&& (m[sel] is Split ==> shape_of(m, sel).ids().contains(f))
}

/// What `Session::validate` checks beyond the tree: an empty tree has neither
/// focus nor selection; otherwise the focus is a leaf and the selection is
/// acceptable for it.
pub open spec fn focus_check<T>(m: Map<NodeId, Node<T>>, root: Option<NodeId>, focus: Option<NodeId>, selection: Option<NodeId>) -> Result<
    (),
    ValidationError,
> {
    match root {
        None => if focus is None && selection is None {
            Ok(())
        } else {
            Err(ValidationError::EmptyStateInconsistent)
        },
        Some(_) => match focus {
            None => Err(ValidationError::EmptyStateInconsistent),
            Some(f) => if !is_leaf_at(m, f) {
                Err(ValidationError::NonLeafFocus(f))
            } else {
                match selection {
                    None => Err(ValidationError::EmptyStateInconsistent),
                    Some(sel) => if selection_ok(m, f, sel) {
                        Ok(())
                    } else {
                        Err(ValidationError::InvalidSelection(sel))
                    },
                }
            },
        },
    }
}

impl<T> Default for Session<T> {
    fn default() -> (r: Self)
        ensures
            r.tree.root is None,
            r.tree.nodes@ == Map::<NodeId, Node<T>>::empty(),
            r.tree.next_id == 1,
            r.focus is None,
            r.selection is None,
            r.revision == 0,
    {
        Self { tree: Tree::default(), focus: None, selection: None, revision: 0 }
    }
}

impl<T> Session<T> {
    /// The session is consistent: what `validate` accepts.
    pub open spec fn valid(&self) -> bool {
        &&& self.tree.well_formed()
        &&& focus_check(self.tree.nodes@, self.tree.root, self.focus, self.selection) is Ok
    }

    /// Identifiers the tree will allocate are fresh.
    pub open spec fn ids_fresh(&self) -> bool {
        forall|k: NodeId| #[trigger] self.tree.nodes@.contains_key(k) ==> k < self.tree.next_id
    }

    #[must_use]
    pub fn new() -> (r: Self)
        ensures
            r.valid(),
            r.ids_fresh(),
            r.tree.root is None,
            r.tree.next_id == 1,
            r.focus is None,
            r.selection is None,
            r.revision == 0,
    {
        Self::default()
    }

    /// The tree being edited.
    pub fn tree(&self) -> (r: &Tree<T>)
        ensures
            *r == self.tree,
    {
        &self.tree
    }

    /// The focused leaf.
    pub fn focus(&self) -> (r: Option<NodeId>)
        ensures
            r == self.focus,
    {
        self.focus
    }

    /// The selected node.
    pub fn selection(&self) -> (r: Option<NodeId>)
        ensures
            r == self.selection,
    {
        self.selection
    }

    /// The revision counter.
    pub fn revision(&self) -> (r: Revision)
        ensures
            r == self.revision,
    {
        self.revision
    }

    /// Checks the tree and that focus and selection fit it.
    pub fn validate(&self) -> (r: Result<(), ValidationError>)
        ensures
            r is Ok <==> self.valid(),
            !self.tree.well_formed() ==> crate::tree::validate_outcome(
                self.tree,
                vstd::std_specs::hash::spec_keys_iter(&self.tree.nodes).remaining().unref(),
                r,
            ),
            self.tree.well_formed() ==> r == focus_check(
                self.tree.nodes@,
                self.tree.root,
                self.focus,
                self.selection,
            ),
    {
        self.tree.validate()?;
        match self.tree.root {
            None => {
                if self.focus.is_none() && self.selection.is_none() {
                    Ok(())
                } else {
                    Err(ValidationError::EmptyStateInconsistent)
                }
            },
            Some(_) => {
                let focus = match self.focus {
                    Some(f) => f,
                    None => return Err(ValidationError::EmptyStateInconsistent),
                };
                if !self.tree.is_leaf(focus) {
                    return Err(ValidationError::NonLeafFocus(focus));
                }
                let selection = match self.selection {
                    Some(s) => s,
                    None => return Err(ValidationError::EmptyStateInconsistent),
                };
                if !self.tree.contains(selection) {
                    return Err(ValidationError::InvalidSelection(selection));
                }
                if self.tree.is_leaf(selection) {
                    if selection == focus {
                        Ok(())
                    } else {
                        Err(ValidationError::InvalidSelection(selection))
                    }
                } else {
                    proof {
                        lemma_node_shape(&self.tree, selection);
                    }
                    if self.tree.contains_in_subtree(selection, focus) {
                        Ok(())
                    } else {
                        Err(ValidationError::InvalidSelection(selection))
                    }
                }
            },
        }
    }

    /// Solves the layout inside `root`; the session's tree must be solvable.
    #[must_use]
    pub fn solve(&self, root: Rect, policy: &SolverPolicy) -> (r: Snapshot)
        requires
            root.edges_fit(),
            solvable(self.tree),
        ensures
            solved(self.tree, root, self.revision, *policy, r),
    {
        solve_with_revision(&self.tree, root, self.revision, policy).unwrap()
    }

    /// Solves the layout inside `root`, reporting why it cannot be solved.
    pub fn try_solve(&self, root: Rect, policy: &SolverPolicy) -> (r: Result<Snapshot, crate::error::SolveError>)
        requires
            root.edges_fit(),
        ensures
            r is Ok <==> solvable(self.tree),
            r matches Ok(snap) ==> solved(self.tree, root, self.revision, *policy, snap),
    {
        solve_with_revision(&self.tree, root, self.revision, policy)
    }

    /// Selects the focused leaf.
    pub fn select_focus(&mut self)
        ensures
            final(self).selection == old(self).focus,
            final(self).focus == old(self).focus,
            final(self).tree == old(self).tree,
            final(self).revision == old(self).revision,
            old(self).valid() ==> final(self).valid(),
    {
        self.selection = self.focus;
    }

    pub(crate) fn focus_leaf(&self) -> (r: Result<NodeId, OpError>)
        ensures
            match self.focus {
                None => r == Err::<NodeId, OpError>(OpError::Empty),
                Some(f) => if is_leaf_at(self.tree.nodes@, f) {
                    r == Ok::<NodeId, OpError>(f)
                } else {
                    r == Err::<NodeId, OpError>(OpError::NotLeaf(f))
                },
            },
    {
        let focus = match self.focus {
            Some(f) => f,
            None => return Err(OpError::Empty),
        };
        if self.tree.is_leaf(focus) {
            Ok(focus)
        } else {
            Err(OpError::NotLeaf(focus))
        }
    }

    pub(crate) fn require_node(&self, id: NodeId) -> (r: Result<(), OpError>)
        ensures
            r == if self.tree.nodes@.contains_key(id) {
                Ok::<(), OpError>(())
            } else {
                Err::<(), OpError>(OpError::MissingNode(id))
            },
    {
        if self.tree.contains(id) {
            Ok(())
        } else {
            Err(OpError::MissingNode(id))
        }
    }

    pub(crate) fn ensure_fresh_snapshot(&self, snap: &Snapshot) -> (r: Result<(), OpError>)
        ensures
            r == if snap.revision == self.revision {
                Ok::<(), OpError>(())
            } else {
                Err::<(), OpError>(OpError::StaleSnapshot)
            },
    {
        if snap.revision == self.revision {
            Ok(())
        } else {
            Err(OpError::StaleSnapshot)
        }
    }

    pub(crate) fn bump_revision(&mut self)
        requires
            old(self).revision < u64::MAX,
        ensures
            final(self).revision == old(self).revision + 1,
            final(self).tree == old(self).tree,
            final(self).focus == old(self).focus,
            final(self).selection == old(self).selection,
    {
        self.revision = self.revision + 1;
    }

    /// Selects the parent of the selection (or of the focus when nothing is
    /// selected).
    pub fn select_parent(&mut self) -> (r: Result<(), OpError>)
        ensures
            final(self).tree == old(self).tree,
            final(self).focus == old(self).focus,
            final(self).revision == old(self).revision,
            ({
                let base = if old(self).selection is Some {
                    old(self).selection
                } else {
                    old(self).focus
                };
                let m = old(self).tree.nodes@;
                match base {
                    None => r == Err::<(), OpError>(OpError::Empty) && *final(self) == *old(self),
                    Some(b) => if m.contains_key(b) && crate::tree::node_parent(m[b]) is Some {
                        &&& final(self).selection == crate::tree::node_parent(m[b])
                        &&& (r is Ok <==> final(self).valid())
                        &&& (r matches Err(e) ==> e is Validation)
                        &&& (old(self).valid() ==> r is Ok)
                        &&& (final(self).tree.well_formed() ==> r == focus_result(*final(self)))
                    } else {
                        r == Err::<(), OpError>(OpError::NoParent(b)) && *final(self) == *old(self)
                    },
                }
            }),
    {
        let base = match self.selection {
            Some(s) => s,
            None => match self.focus {
                Some(f) => f,
                None => return Err(OpError::Empty),
            },
        };
        let parent = match self.tree.parent_of(base) {
            Some(p) => p,
            None => return Err(OpError::NoParent(base)),
        };
        let ghost old_s = *self;
        self.selection = Some(parent);
        proof {
            if old_s.valid() {
                let m = self.tree.nodes@;
                let root = self.tree.root;
                let f = self.focus.unwrap();
                crate::tree_links::lemma_tree_to_links(m, root);
                assert(m.contains_key(parent));
                lemma_node_shape(&self.tree, parent);
                lemma_node_shape(&self.tree, base);
                crate::tree_links::lemma_subtree_closed(m, root, parent, parent);
                crate::tree_links::lemma_subtree_closed(m, root, parent, base);
                crate::tree_links::lemma_subtree_closed(m, root, parent, f);
                let sp = shape_of(m, parent);
                crate::tree::lemma_sub_shape(m, parent, sp, base);
                crate::tree::lemma_shape_of(m, base, sp.sub(base));
                crate::tree_links::lemma_sub_id_subset(sp, base);
                assert(shape_of(m, base).ids().contains(f)) by {
                    lemma_node_shape(&self.tree, f);
                    crate::tree_links::lemma_subtree_closed(m, root, base, base);
                }
                assert(sp.ids().contains(f));
            }
        }
        match self.validate() {
            Ok(()) => Ok(()),
            Err(e) => Err(OpError::Validation(e)),
        }
    }
}


/// What a command that ends by checking the session returns, when the
/// session's tree is well formed.
pub open spec fn focus_result<T>(s: Session<T>) -> Result<(), OpError> {
    match focus_check(s.tree.nodes@, s.tree.root, s.focus, s.selection) {
        Ok(()) => Ok(()),
        Err(e) => Err(OpError::Validation(e)),
    }
}

/// What a command that creates the node `id` and ends by checking the session
/// returns, when the session's tree is well formed.
pub open spec fn focus_result_id<T>(s: Session<T>, id: NodeId) -> Result<NodeId, OpError> {
    match focus_check(s.tree.nodes@, s.tree.root, s.focus, s.selection) {
        Ok(()) => Ok(id),
        Err(e) => Err(OpError::Validation(e)),
    }
}

/// The focus after an edit: none in an empty tree, the old focus if it is still
/// a leaf, else the first leaf below the replacement site.
pub open spec fn repaired_focus<T>(m: Map<NodeId, Node<T>>, root: Option<NodeId>, old_focus: NodeId, site: Option<NodeId>) -> Option<NodeId> {
    if root is None {
        None
    } else if is_leaf_at(m, old_focus) {
        Some(old_focus)
    } else {
        match site {
            Some(id) => spec_first_leaf(m, shape_of(m, id)),
            None => None,
        }
    }
}

/// The selection after an edit: none without a tree or focus, the old
/// selection if it is still acceptable for the focus, else the focus.
pub open spec fn repaired_selection<T>(m: Map<NodeId, Node<T>>, root: Option<NodeId>, focus: Option<NodeId>, old_selection: Option<NodeId>) -> Option<NodeId> {
    match (root, focus) {
        (Some(_), Some(f)) => match old_selection {
            Some(sel) => if selection_ok(m, f, sel) {
                Some(sel)
            } else {
                Some(f)
            },
            None => Some(f),
        },
        _ => None,
    }
}

/// After a repair on a well-formed tree the session is valid exactly when the
/// tree is empty or a focus was found.
pub proof fn lemma_repair_valid<T>(m: Map<NodeId, Node<T>>, root: Option<NodeId>, focus: Option<NodeId>, old_selection: Option<NodeId>)
    requires
        tree_ok(m, root),
        focus matches Some(f) ==> is_leaf_at(m, f),
        root is None ==> focus is None,
    ensures
        focus_check(m, root, focus, repaired_selection(m, root, focus, old_selection)) is Ok
            <==> (root is None || focus is Some),
{
}

/// The given weights, or an error when both are zero.
pub(crate) fn checked_weights(weights: WeightPair) -> (r: Result<WeightPair, OpError>)
    ensures
        r == if weights.spec_valid() {
            Ok::<WeightPair, OpError>(weights)
        } else {
            Err::<WeightPair, OpError>(OpError::InvalidWeights)
        },
{
    if weights.a == 0 && weights.b == 0 {
        Err(OpError::InvalidWeights)
    } else {
        Ok(weights)
    }
}

impl<T> Session<T> {
    pub(crate) fn repair_after_mutation(
        &mut self,
        old_focus: NodeId,
        old_selection: Option<NodeId>,
        replacement_site: Option<NodeId>,
    )
        requires
            acyclic(old(self).tree.nodes@),
        ensures
            final(self).tree == old(self).tree,
            final(self).revision == old(self).revision,
            final(self).focus == repaired_focus(
                old(self).tree.nodes@,
                old(self).tree.root,
                old_focus,
                replacement_site,
            ),
            final(self).selection == repaired_selection(
                old(self).tree.nodes@,
                old(self).tree.root,
                final(self).focus,
                old_selection,
            ),
            final(self).focus matches Some(f) ==> is_leaf_at(final(self).tree.nodes@, f),
    {
        let ghost m = self.tree.nodes@;
        self.focus = if self.tree.root.is_none() {
            None
        } else if self.tree.is_leaf(old_focus) {
            Some(old_focus)
        } else {
            match replacement_site {
                Some(id) => {
                    assert(finite_below(m, id));
                    proof {
                        lemma_first_leaf_is_leaf(m, id, shape_of(m, id));
                    }
                    self.tree.first_leaf(id)
                },
                None => None,
            }
        };
        self.selection = match (self.tree.root, self.focus) {
            (Some(_), Some(focus)) => {
                let keep = match old_selection {
                    Some(sel) => {
                        if !self.tree.contains(sel) {
                            false
                        } else if self.tree.is_leaf(sel) {
                            sel == focus
                        } else {
                            assert(finite_below(m, sel));
                            self.tree.contains_in_subtree(sel, focus)
                        }
                    },
                    None => false,
                };
                if keep {
                    old_selection
                } else {
                    Some(focus)
                }
            },
            _ => None,
        };
    }

    pub(crate) fn repair_selection_for_current_focus(&mut self)
        requires
            acyclic(old(self).tree.nodes@),
        ensures
            final(self).tree == old(self).tree,
            final(self).revision == old(self).revision,
            final(self).focus == old(self).focus,
            final(self).selection == match (old(self).selection, old(self).focus) {
                (_, None) => None,
                (Some(sel), Some(f)) => if old(self).tree.nodes@.contains_key(sel)
                    && !is_leaf_at(old(self).tree.nodes@, sel) && shape_of(
                    old(self).tree.nodes@,
                    sel,
                ).ids().contains(f) {
                    Some(sel)
                } else {
                    Some(f)
                },
                (None, Some(f)) => Some(f),
            },
    {
        self.selection = match (self.selection, self.focus) {
            (_, None) => None,
            (Some(selection), Some(focus)) => {
                if self.tree.contains(selection) {
                    if self.tree.is_leaf(selection) {
                        Some(focus)
                    } else {
                        assert(finite_below(self.tree.nodes@, selection));
                        if self.tree.contains_in_subtree(selection, focus) {
                            Some(selection)
                        } else {
                            Some(focus)
                        }
                    }
                } else {
                    Some(focus)
                }
            },
            (None, Some(focus)) => Some(focus),
        };
    }

    /// Starts an empty session's tree with a single leaf, which becomes focus
    /// and selection.
    pub fn insert_root(&mut self, payload: T, meta: LeafMeta) -> (r: Result<NodeId, OpError>)
        requires
            old(self).tree.next_id < u64::MAX,
            old(self).revision < u64::MAX,
        ensures
            old(self).tree.root is Some ==> r == Err::<NodeId, OpError>(OpError::NonEmpty)
                && *final(self) == *old(self),
            old(self).tree.root is None ==> {
                let id = old(self).tree.next_id;
                &&& final(self).tree.nodes@ == old(self).tree.nodes@.insert(
                    id,
                    Node::Leaf(LeafNode { parent: None, payload, meta }),
                )
                &&& final(self).tree.root == Some(id)
                &&& final(self).tree.next_id == id + 1
                &&& final(self).focus == Some(id)
                &&& final(self).selection == Some(id)
                &&& final(self).revision == old(self).revision + 1
                &&& (r is Ok <==> final(self).valid())
                &&& (r matches Ok(v) ==> v == id)
                &&& (r matches Err(e) ==> e is Validation)
                &&& (final(self).tree.well_formed() ==> r == focus_result_id(*final(self), id))
                &&& (old(self).valid() ==> (r is Ok <==> meta.spec_valid()))
            },
    {
        if self.tree.root.is_some() {
            return Err(OpError::NonEmpty);
        }
        let ghost m0 = self.tree.nodes@;
        let id = self.tree.new_leaf(payload, meta);
        self.tree.root = Some(id);
        self.focus = Some(id);
        self.selection = Some(id);
        self.bump_revision();
        proof {
            if old(self).valid() {
                assert(m0.dom() =~= Set::<NodeId>::empty());
                let m = self.tree.nodes@;
                assert(m.dom() =~= set![id]);
                if meta.spec_valid() {
                    let rank = Map::<NodeId, nat>::new(|k: NodeId| k == id, |k: NodeId| 0nat);
                    assert(crate::tree_links::links_ok(m, self.tree.root, rank));
                    crate::tree_links::lemma_links_to_tree(m, self.tree.root, rank);
                    lemma_tree_ok_acyclic(m, self.tree.root);
                    lemma_node_shape(&self.tree, id);
                } else {
                    if self.valid() {
                        crate::tree_links::lemma_tree_to_links(m, self.tree.root);
                        assert(crate::tree::node_valid(m[id]));
                    }
                }
            }
        }
        match self.validate() {
            Ok(()) => Ok(id),
            Err(e) => Err(OpError::Validation(e)),
        }
    }
}

impl<T> Session<T> {
    /// Targets `id` without editing the tree or advancing the revision: a leaf
    /// becomes both focus and selection; a split becomes the selection when its
    /// subtree holds the focus, and is refused otherwise.
    pub fn set_selection(&mut self, id: NodeId) -> (r: Result<(), OpError>)
        requires
            old(self).tree.well_formed(),
        ensures
            final(self).tree == old(self).tree,
            final(self).revision == old(self).revision,
            ({
                let m = old(self).tree.nodes@;
                if !m.contains_key(id) {
                    r == Err::<(), OpError>(OpError::MissingNode(id)) && *final(self) == *old(self)
                } else if m[id] is Leaf {
                    &&& r is Ok
                    &&& final(self).focus == Some(id)
                    &&& final(self).selection == Some(id)
                } else if old(self).focus matches Some(f) && shape_of(m, id).ids().contains(f) {
                    &&& r is Ok
                    &&& final(self).focus == old(self).focus
                    &&& final(self).selection == Some(id)
                } else {
                    &&& r == Err::<(), OpError>(
                        OpError::Validation(ValidationError::InvalidSelection(id)),
                    )
                    &&& *final(self) == *old(self)
                }
            }),
            r is Ok && (old(self).valid() || old(self).tree.nodes@[id] is Leaf) ==> final(self).valid(),
    {
        self.require_node(id)?;
        if self.tree.is_leaf(id) {
            self.focus = Some(id);
            self.selection = Some(id);
            return Ok(());
        }
        proof {
            lemma_node_shape(&self.tree, id);
        }
        let inside = match self.focus {
            Some(f) => self.tree.contains_in_subtree(id, f),
            None => false,
        };
        if inside {
            self.selection = Some(id);
            Ok(())
        } else {
            Err(OpError::Validation(ValidationError::InvalidSelection(id)))
        }
    }

    /// Moves the focus to the leaf `id` without editing the tree or advancing
    /// the revision; a split selection that still holds the new focus is kept,
    /// any other selection falls back to the focus.
    pub fn set_focus_leaf(&mut self, id: NodeId) -> (r: Result<(), OpError>)
        requires
            old(self).tree.well_formed(),
        ensures
            final(self).tree == old(self).tree,
            final(self).revision == old(self).revision,
            ({
                let m = old(self).tree.nodes@;
                if !m.contains_key(id) {
                    r == Err::<(), OpError>(OpError::MissingNode(id)) && *final(self) == *old(self)
                } else if m[id] is Split {
                    r == Err::<(), OpError>(OpError::NotLeaf(id)) && *final(self) == *old(self)
                } else {
                    &&& r is Ok
                    &&& final(self).focus == Some(id)
                    &&& final(self).selection == match old(self).selection {
                        Some(sel) => if m.contains_key(sel) && m[sel] is Split
                            && shape_of(m, sel).ids().contains(id) {
                            Some(sel)
                        } else {
                            Some(id)
                        },
                        None => Some(id),
                    }
                    &&& final(self).valid()
                }
            }),
    {
        self.require_node(id)?;
        if !self.tree.is_leaf(id) {
            return Err(OpError::NotLeaf(id));
        }
        proof {
            lemma_tree_acyclic(&self.tree);
        }
        self.focus = Some(id);
        self.repair_selection_for_current_focus();
        proof {
            let m = self.tree.nodes@;
            if let Some(sel) = self.selection {
                if sel != id {
                    lemma_node_shape(&self.tree, sel);
                }
            }
        }
        Ok(())
    }
}

} // verus!
