//! The depth of the search and the decision level of every assigned variable.
use vstd::prelude::*;

use super::lit::{Lit, Var};
use super::storage::{Indexer, KeyedVec};

verus! {

/// Tracks the depth of the search tree and the level at which every variable was assigned.
pub struct SearchTree {
    current_depth: usize,
    decided_at: KeyedVec<Var, usize>,
}

impl SearchTree {
    /// The current depth of the tree.
    pub closed spec fn depth_spec(&self) -> nat {
        self.current_depth as nat
    }

    /// For every variable code, the level at which the variable was last assigned.
    pub closed spec fn levels(&self) -> Seq<usize> {
        self.decided_at@
    }

    /// A tree at the root that knows no variables.
    pub fn new() -> (tree: SearchTree)
        ensures
            tree.depth_spec() == 0,
            tree.levels() == Seq::<usize>::empty(),
    {
        SearchTree { current_depth: 0, decided_at: KeyedVec::new() }
    }

    /// Get the depth of the search tree.
    pub fn depth(&self) -> (depth: usize)
        ensures
            depth == self.depth_spec(),
    {
        self.current_depth
    }

    /// Get the decision level at which the given variable was assigned. In case the variable is
    /// not yet assigned, this will return stale data.
    pub fn decision_level(&self, var: Var) -> (level: usize)
        requires
            var.code_spec() < self.levels().len(),
        ensures
            level == self.levels()[var.code_spec() as int],
    {
        *self.decided_at.get(var)
    }

    /// Indicates whether the search is at the root of the search tree.
    pub fn is_at_root(&self) -> (at_root: bool)
        ensures
            at_root == (self.depth_spec() == 0),
    {
        self.depth() == 0
    }

    /// Register that a literal has been assigned at the current depth.
    pub fn register_assignment(&mut self, lit: Lit)
        requires
            lit.var_code() < old(self).levels().len(),
        ensures
            final(self).depth_spec() == old(self).depth_spec(),
            final(self).levels() == old(self).levels().update(
                lit.var_code() as int,
                old(self).depth_spec() as usize,
            ),
    {
        let depth = self.current_depth;
        self.decided_at.set(lit.var(), depth);
    }

    /// Cut the search tree to the new depth.
    pub fn cut(&mut self, depth: usize)
        ensures
            final(self).depth_spec() == depth,
            final(self).levels() == old(self).levels(),
    {
        self.current_depth = depth;
    }

    /// Adds a new branch to the tree, increasing the depth by one.
    pub fn branch(&mut self)
        requires
            old(self).depth_spec() < usize::MAX,
        ensures
            final(self).depth_spec() == old(self).depth_spec() + 1,
            final(self).levels() == old(self).levels(),
    {
        self.current_depth = self.current_depth + 1;
    }

    /// Make room for the levels of every variable up to the given one; new variables are at the
    /// root level.
    pub fn grow_to(&mut self, var: Var)
        ensures
            final(self).depth_spec() == old(self).depth_spec(),
            final(self).levels().len() == if old(self).levels().len() > var.code_spec() {
                old(self).levels().len()
            } else {
                (var.code_spec() + 1) as nat
            },
            forall|i: int|
                0 <= i < final(self).levels().len() ==> #[trigger] final(self).levels()[i] == if i
                    < old(self).levels().len() {
                    old(self).levels()[i]
                } else {
                    0
                },
    {
        let _code = var.code();
        let ghost old_levels = self.decided_at@;
        self.decided_at.grow_to(var);
        proof {
            assert forall|i: int| 0 <= i < self.decided_at@.len() implies #[trigger] self.decided_at@[i]
                == if i < old_levels.len() {
                old_levels[i]
            } else {
                0
            } by {
                if i < old_levels.len() {
                    assert(self.decided_at@.subrange(0, old_levels.len() as int)[i] == old_levels[i]);
                }
            }
        }
    }
}

impl Default for SearchTree {
    fn default() -> (tree: SearchTree)
        ensures
            tree.depth_spec() == 0,
            tree.levels() == Seq::<usize>::empty(),
    {
        SearchTree::new()
    }
}

} // verus!
