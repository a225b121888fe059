//! Clauses of at least two literals, and the database that holds them.
use vstd::prelude::*;
use vstd::std_specs::iter::IteratorSpec;

use super::lit::Lit;

verus! {

/// A clause with at least two literals.
pub struct LongClause(Vec<Lit>);

impl View for LongClause {
    type V = Seq<Lit>;

    closed spec fn view(&self) -> Seq<Lit> {
        self.0@
    }
}

impl LongClause {
    /// A clause holding the given literals, in order.
    pub fn new(lits: &[Lit]) -> (clause: LongClause)
        ensures
            clause@ == lits@,
    {
        let mut v: Vec<Lit> = Vec::new();
        let mut i: usize = 0;
        while i < lits.len()
            invariant
                i <= lits@.len(),
                v@ == lits@.subrange(0, i as int),
            decreases lits@.len() - i,
        {
            v.push(lits[i]);
            i = i + 1;
            proof {
                assert(v@ =~= lits@.subrange(0, i as int));
            }
        }
        proof {
            assert(lits@.subrange(0, lits@.len() as int) =~= lits@);
        }
        LongClause(v)
    }

    /// Iterate over the literals of the clause.
    pub fn iter(&self) -> (iter: std::slice::Iter<'_, Lit>)
        ensures
            IteratorSpec::remaining(&iter) == self@.as_ref(),
    {
        let slice = self.0.as_slice();
        let it = slice.iter();
        proof {
            vstd::std_specs::slice::axiom_spec_slice_iter(slice);
        }
        it
    }

    /// The literals of the clause.
    pub fn lits(&self) -> (lits: &[Lit])
        ensures
            lits@ == self@,
    {
        self.0.as_slice()
    }

    /// The number of literals.
    #[allow(clippy::len_without_is_empty)]
    pub fn len(&self) -> (len: usize)
        ensures
            len == self@.len(),
    {
        self.0.len()
    }

    /// The literal at the given position.
    pub fn get(&self, index: usize) -> (lit: Lit)
        requires
            index < self@.len(),
        ensures
            lit == self@[index as int],
    {
        self.0[index]
    }

    /// Exchange the literals at two positions.
    pub fn swap(&mut self, idx1: usize, idx2: usize)
        requires
            idx1 < old(self)@.len(),
            idx2 < old(self)@.len(),
        ensures
            final(self)@ == old(self)@.update(idx1 as int, old(self)@[idx2 as int]).update(
                idx2 as int,
                old(self)@[idx1 as int],
            ),
    {
        let a = self.0[idx1];
        let b = self.0[idx2];
        self.0.set(idx1, b);
        self.0.set(idx2, a);
    }
}

/// A reference to a clause in a [`ClauseDb`].
#[derive(Clone, Copy, Debug, Default, PartialEq, Eq)]
pub struct ClauseRef {
    index: u32,
    is_learned: bool,
}

impl ClauseRef {
    /// The position of the clause in the database.
    pub closed spec fn index_spec(self) -> nat {
        self.index as nat
    }

    /// Whether the clause was learned during search.
    pub closed spec fn learned_spec(self) -> bool {
        self.is_learned
    }
}

/// The clauses of at least two literals known to the solver.
pub struct ClauseDb {
    clauses: Vec<LongClause>,
    explanation_clauses: Vec<ClauseRef>,
}

impl ClauseDb {
    /// The clauses, in the order they were added.
    pub closed spec fn clauses_spec(&self) -> Seq<Seq<Lit>> {
        self.clauses@.map_values(|c: LongClause| c@)
    }

    /// The clauses which were added as explanations of propagations.
    pub closed spec fn explanations_spec(&self) -> Seq<ClauseRef> {
        self.explanation_clauses@
    }

    /// The reference points at a clause of this database.
    pub open spec fn contains(&self, clause_ref: ClauseRef) -> bool {
        clause_ref.index_spec() < self.clauses_spec().len()
    }

    /// The clause a reference points at.
    pub open spec fn clause(&self, clause_ref: ClauseRef) -> Seq<Lit> {
        self.clauses_spec()[clause_ref.index_spec() as int]
    }

    /// Every clause has at least two literals.
    pub open spec fn wf(&self) -> bool {
        forall|i: int| 0 <= i < self.clauses_spec().len() ==> #[trigger] self.clauses_spec()[i].len() >= 2
    }

    /// An empty database.
    pub fn new() -> (db: ClauseDb)
        ensures
            db.clauses_spec() == Seq::<Seq<Lit>>::empty(),
            db.explanations_spec() == Seq::<ClauseRef>::empty(),
    {
        ClauseDb { clauses: Vec::new(), explanation_clauses: Vec::new() }
    }

    /// The number of clauses.
    pub fn num_clauses(&self) -> (n: usize)
        ensures
            n == self.clauses_spec().len(),
    {
        self.clauses.len()
    }

    /// Add a clause with at least two literals.
    pub fn add_clause(&mut self, lits: &[Lit]) -> (clause_ref: ClauseRef)
        requires
            lits@.len() > 1,
            old(self).clauses_spec().len() < u32::MAX,
        ensures
            final(self).clauses_spec() == old(self).clauses_spec().push(lits@),
            final(self).explanations_spec() == old(self).explanations_spec(),
            clause_ref.index_spec() == old(self).clauses_spec().len(),
            !clause_ref.learned_spec(),
    {
        let clause = LongClause::new(lits);
        self.clauses.push(clause);
        proof {
            assert(self.clauses@.map_values(|c: LongClause| c@) =~= old(self).clauses@.map_values(
                |c: LongClause| c@,
            ).push(lits@));
        }
        ClauseRef { index: (self.clauses.len() - 1) as u32, is_learned: false }
    }

    /// Add a clause learned during search.
    pub fn add_learned_clause(&mut self, lits: &[Lit]) -> (clause_ref: ClauseRef)
        requires
            lits@.len() > 1,
            old(self).clauses_spec().len() < u32::MAX,
        ensures
            final(self).clauses_spec() == old(self).clauses_spec().push(lits@),
            final(self).explanations_spec() == old(self).explanations_spec(),
            clause_ref.index_spec() == old(self).clauses_spec().len(),
            clause_ref.learned_spec(),
    {
        let mut clause_ref = self.add_clause(lits);
        clause_ref.is_learned = true;
        clause_ref
    }

    /// Add a clause which explains a propagation.
    pub fn add_explanation_clause(&mut self, lits: &[Lit]) -> (clause_ref: ClauseRef)
        requires
            lits@.len() > 1,
            old(self).clauses_spec().len() < u32::MAX,
        ensures
            final(self).clauses_spec() == old(self).clauses_spec().push(lits@),
            final(self).explanations_spec() == old(self).explanations_spec().push(clause_ref),
            clause_ref.index_spec() == old(self).clauses_spec().len(),
            !clause_ref.learned_spec(),
    {
        let clause_ref = self.add_clause(lits);
        self.explanation_clauses.push(clause_ref);
        clause_ref
    }

    /// Whether the referenced clause was learned.
    pub fn is_learned(&self, clause_ref: ClauseRef) -> (learned: bool)
        ensures
            learned == clause_ref.learned_spec(),
    {
        clause_ref.is_learned
    }

    /// The referenced clause.
    pub fn get(&self, clause_ref: ClauseRef) -> (clause: &LongClause)
        requires
            self.contains(clause_ref),
        ensures
            clause@ == self.clause(clause_ref),
    {
        &self.clauses[clause_ref.index as usize]
    }

    /// The number of literals of the referenced clause.
    pub fn clause_len(&self, clause_ref: ClauseRef) -> (len: usize)
        requires
            self.contains(clause_ref),
        ensures
            len == self.clause(clause_ref).len(),
    {
        self.clauses[clause_ref.index as usize].len()
    }

    /// A literal of the referenced clause.
    pub fn lit(&self, clause_ref: ClauseRef, index: usize) -> (lit: Lit)
        requires
            self.contains(clause_ref),
            index < self.clause(clause_ref).len(),
        ensures
            lit == self.clause(clause_ref)[index as int],
    {
        self.clauses[clause_ref.index as usize].get(index)
    }

    /// Exchange two literals of the referenced clause; the other clauses stay as they are.
    pub fn swap_lits(&mut self, clause_ref: ClauseRef, idx1: usize, idx2: usize)
        requires
            old(self).contains(clause_ref),
            idx1 < old(self).clause(clause_ref).len(),
            idx2 < old(self).clause(clause_ref).len(),
        ensures
            final(self).clauses_spec() == old(self).clauses_spec().update(
                clause_ref.index_spec() as int,
                old(self).clause(clause_ref).update(
                    idx1 as int,
                    old(self).clause(clause_ref)[idx2 as int],
                ).update(idx2 as int, old(self).clause(clause_ref)[idx1 as int]),
            ),
            final(self).explanations_spec() == old(self).explanations_spec(),
    {
        let i = clause_ref.index as usize;
        self.clauses[i].swap(idx1, idx2);
        proof {
            assert(self.clauses@.map_values(|c: LongClause| c@) =~= old(self).clauses@.map_values(
                |c: LongClause| c@,
            ).update(
                i as int,
                old(self).clause(clause_ref).update(
                    idx1 as int,
                    old(self).clause(clause_ref)[idx2 as int],
                ).update(idx2 as int, old(self).clause(clause_ref)[idx1 as int]),
            ));
        }
    }
}

impl ClauseDb {
    /// Whether every clause has a literal which is true under the assignment.
    pub fn all_satisfied(&self, assignment: &crate::cdcl::assignment::Assignment) -> (sat: bool)
        requires
            assignment.wf(),
            forall|k: int, i: int| 0 <= k < self.clauses_spec().len() && 0 <= i < self.clauses_spec()[k].len() ==> assignment.holds(#[trigger] self.clauses_spec()[k][i]),
        ensures
            sat == forall|k: int| 0 <= k < self.clauses_spec().len() ==> assignment.satisfies(#[trigger] self.clauses_spec()[k]),
    {
        let mut k: usize = 0;
        while k < self.clauses.len()
            invariant
                k <= self.clauses@.len(),
                assignment.wf(),
                forall|k: int, i: int| 0 <= k < self.clauses_spec().len() && 0 <= i < self.clauses_spec()[k].len() ==> assignment.holds(#[trigger] self.clauses_spec()[k][i]),
                forall|m: int| 0 <= m < k ==> assignment.satisfies(#[trigger] self.clauses_spec()[m]),
            decreases self.clauses@.len() - k,
        {
            let clause = &self.clauses[k];
            let ghost c = self.clauses_spec()[k as int];
            let mut i: usize = 0;
            let mut found = false;
            while i < clause.len() && !found
                invariant
                    i <= clause@.len(),
                    clause@ == c,
                    c == self.clauses_spec()[k as int],
                    k < self.clauses@.len(),
                    assignment.wf(),
                    forall|k: int, i: int| 0 <= k < self.clauses_spec().len() && 0 <= i < self.clauses_spec()[k].len() ==> assignment.holds(#[trigger] self.clauses_spec()[k][i]),
                    found ==> assignment.satisfies(c),
                    !found ==> forall|j: int| 0 <= j < i ==> assignment.value_spec(#[trigger] c[j]) != Some(true),
                decreases (clause@.len() - i) * 2 + if found { 0int } else { 1int },
            {
                let lit = clause.get(i);
                proof {
                    assert(assignment.holds(self.clauses_spec()[k as int][i as int]));
                }
                if assignment.value(lit) == Some(true) {
                    found = true;
                } else {
                    i = i + 1;
                }
            }
            if !found {
                proof {
                    assert(!assignment.satisfies(c));
                }
                return false;
            }
            k = k + 1;
        }
        true
    }
}

impl Default for ClauseDb {
    fn default() -> (db: ClauseDb)
        ensures
            db.clauses_spec() == Seq::<Seq<Lit>>::empty(),
            db.explanations_spec() == Seq::<ClauseRef>::empty(),
    {
        ClauseDb::new()
    }
}

} // verus!
