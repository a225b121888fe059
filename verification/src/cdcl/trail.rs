//! The trail: the sequence of assigned literals, split into decision levels.
use vstd::prelude::*;

use super::lit::Lit;

verus! {

/// Going back to a decision level of a trail with the given literals and level starts: the
/// literals kept, the level starts kept, and the literals removed, the last enqueued first.
pub open spec fn backtracked(lits: Seq<Lit>, delims: Seq<usize>, decision_level: int) -> (Seq<Lit>, Seq<usize>, Seq<Lit>) {
    let target = delims[decision_level];
    let kept = if target < lits.len() { target as int } else { lits.len() as int };
    (lits.subrange(0, kept), delims.subrange(0, decision_level), lits.subrange(kept, lits.len() as int).reverse())
}

/// The sequence of assigned literals, together with the trail length at which every decision
/// level starts.
pub struct Trail {
    trail: Vec<Lit>,
    trail_delim: Vec<usize>,
}

impl Trail {
    /// The assigned literals, in the order they were enqueued.
    pub closed spec fn lits(&self) -> Seq<Lit> {
        self.trail@
    }

    /// For every decision level above the root, the trail length at which it started.
    pub closed spec fn delims(&self) -> Seq<usize> {
        self.trail_delim@
    }

    /// An empty trail.
    pub fn new() -> (trail: Trail)
        ensures
            trail.lits() == Seq::<Lit>::empty(),
            trail.delims() == Seq::<usize>::empty(),
    {
        Trail { trail: Vec::new(), trail_delim: Vec::new() }
    }

    /// The number of literals on the trail.
    #[allow(clippy::len_without_is_empty)]
    pub fn len(&self) -> (len: usize)
        ensures
            len == self.lits().len(),
    {
        self.trail.len()
    }

    /// The number of decision levels above the root.
    pub fn num_levels(&self) -> (n: usize)
        ensures
            n == self.delims().len(),
    {
        self.trail_delim.len()
    }

    /// The literal at the given position.
    pub fn get(&self, index: usize) -> (lit: Lit)
        requires
            index < self.lits().len(),
        ensures
            lit == self.lits()[index as int],
    {
        self.trail[index]
    }

    /// Put a literal at the end of the trail.
    pub fn enqueue(&mut self, lit: Lit)
        ensures
            final(self).lits() == old(self).lits().push(lit),
            final(self).delims() == old(self).delims(),
    {
        self.trail.push(lit);
    }

    /// Start a new decision level at the current end of the trail.
    pub fn push(&mut self)
        ensures
            final(self).lits() == old(self).lits(),
            final(self).delims() == old(self).delims().push(old(self).lits().len() as usize),
    {
        let len = self.trail.len();
        self.trail_delim.push(len);
    }

    /// Go back to the given decision level: every literal enqueued after that level was entered
    /// is removed, and the removed literals are returned, the last enqueued first.
    pub fn backtrack_to(&mut self, decision_level: usize) -> (removed: Vec<Lit>)
        requires
            decision_level < old(self).delims().len(),
        ensures
            (final(self).lits(), final(self).delims(), removed@) == backtracked(old(self).lits(), old(self).delims(), decision_level as int),
    {
        let target_len = self.trail_delim[decision_level];
        self.trail_delim.truncate(decision_level);
        let ghost old_lits = self.trail@;
        let mut removed: Vec<Lit> = Vec::new();
        let mut current = self.trail.len();
        while current > target_len
            invariant
                current <= old_lits.len(),
                self.trail@ == old_lits,
                current >= target_len || current == old_lits.len(),
                removed@ == old_lits.subrange(current as int, old_lits.len() as int).reverse(),
            decreases current,
        {
            current = current - 1;
            removed.push(self.trail[current]);
            proof {
                assert(old_lits.subrange(current as int, old_lits.len() as int).reverse() =~= old_lits.subrange(
                    current + 1,
                    old_lits.len() as int,
                ).reverse().push(old_lits[current as int]));
            }
        }
        self.trail.truncate(target_len);
        proof {
            let kept = if target_len < old_lits.len() { target_len as int } else { old_lits.len() as int };
            assert(self.trail@ =~= old_lits.subrange(0, kept));
        }
        removed
    }

    /// Going back to the level that a push opened undoes exactly what came after it: when the
    /// trail only gained literals and levels since `pushed` was `before` with a new level, going
    /// back to that level leaves `before` and removes the literals enqueued since, the last first.
    pub proof fn lemma_backtrack_undoes_push(before: Trail, pushed: Trail, later: Trail)
        requires
            before.lits().len() <= usize::MAX,
            pushed.lits() == before.lits(),
            pushed.delims() == before.delims().push(before.lits().len() as usize),
            later.lits().len() >= pushed.lits().len(),
            later.lits().subrange(0, pushed.lits().len() as int) == pushed.lits(),
            later.delims().len() >= pushed.delims().len(),
            later.delims().subrange(0, pushed.delims().len() as int) == pushed.delims(),
        ensures
            backtracked(later.lits(), later.delims(), before.delims().len() as int) == (
                before.lits(),
                before.delims(),
                later.lits().subrange(before.lits().len() as int, later.lits().len() as int).reverse(),
            ),
    {
        let k = before.delims().len() as int;
        assert(later.delims()[k] == pushed.delims()[k]);
        assert(later.delims()[k] == before.lits().len());
        let r = backtracked(later.lits(), later.delims(), k);
        assert(r.0 =~= before.lits());
        assert(r.1 =~= before.delims());
        assert(later.lits().subrange(0, before.lits().len() as int) =~= before.lits());
        assert(later.delims().subrange(0, k) =~= pushed.delims().subrange(0, k));
        assert(pushed.delims().subrange(0, k) =~= before.delims());
    }

    /// Remove the last literal from the trail.
    pub fn pop(&mut self) -> (lit: Option<Lit>)
        ensures
            old(self).lits().len() == 0 ==> lit is None && final(self).lits() == old(self).lits(),
            old(self).lits().len() > 0 ==> lit == Some(old(self).lits().last()) && final(self).lits()
                == old(self).lits().drop_last(),
            final(self).delims() == old(self).delims(),
    {
        self.trail.pop()
    }
}

impl Default for Trail {
    fn default() -> (trail: Trail)
        ensures
            trail.lits() == Seq::<Lit>::empty(),
            trail.delims() == Seq::<usize>::empty(),
    {
        Trail::new()
    }
}

} // verus!
