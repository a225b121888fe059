//! Why a literal was assigned.
use vstd::prelude::*;

use crate::cdcl::clause::{ClauseDb, ClauseRef};
use crate::cdcl::lit::{group_lit, Lit};

verus! {

broadcast use group_lit;

/// The literals whose truth caused a propagation. An explanation holds at least one literal.
#[derive(Clone, Debug, Default)]
pub struct Explanation(Vec<Lit>);

impl View for Explanation {
    type V = Seq<Lit>;

    closed spec fn view(&self) -> Seq<Lit> {
        self.0@
    }
}

impl Explanation {
    /// An explanation made of the given literals.
    pub fn new(lits: Vec<Lit>) -> (explanation: Explanation)
        ensures
            explanation@ == lits@,
    {
        Explanation(lits)
    }

    /// Get the number of atoms in the explanation.
    #[allow(clippy::len_without_is_empty)]
    pub fn len(&self) -> (len: usize)
        ensures
            len == self@.len(),
    {
        self.0.len()
    }

    /// The literals of the explanation.
    pub fn lits(&self) -> (lits: &[Lit])
        ensures
            lits@ == self@,
    {
        self.0.as_slice()
    }

    /// Iterate over the literals of the explanation.
    pub fn iter(&self) -> (iter: std::slice::Iter<'_, Lit>)
        ensures
            vstd::std_specs::iter::IteratorSpec::remaining(&iter) == self@.as_ref(),
    {
        let slice = self.0.as_slice();
        let it = slice.iter();
        proof {
            vstd::std_specs::slice::axiom_spec_slice_iter(slice);
        }
        it
    }
}

/// The clause a propagation stands for: the propagated literal, followed by the negations of the
/// literals of its explanation.
pub open spec fn explanation_clause(propagated_lit: Lit, explanation: Seq<Lit>) -> Seq<Lit> {
    seq![propagated_lit] + explanation.map_values(|l: Lit| l.negated())
}

/// Why a literal was assigned.
#[derive(Clone, Debug)]
pub enum Reason {
    /// The literal was decided, or holds at the root.
    Decision,
    /// The literal was propagated by a clause.
    Clause(ClauseRef),
    /// The literal was propagated by a propagator.
    Explanation {
        /// The literal which was propagated.
        propagated_lit: Lit,
        /// The explanation for the propagation.
        explanation: Explanation,
    },
}

impl Reason {
    /// The clause this reason stands for; empty for a decision.
    pub open spec fn clause_spec(self, clauses: ClauseDb) -> Seq<Lit> {
        match self {
            Reason::Decision => Seq::<Lit>::empty(),
            Reason::Clause(clause_ref) => clauses.clause(clause_ref),
            Reason::Explanation { propagated_lit, explanation } => explanation_clause(
                propagated_lit,
                explanation@,
            ),
        }
    }

    /// The clause this reason stands for: nothing for a decision, the propagating clause, or the
    /// propagated literal followed by the negated explanation.
    pub fn as_clause(&self, clauses: &ClauseDb) -> (clause: Vec<Lit>)
        requires
            *self matches Reason::Clause(clause_ref) ==> clauses.contains(clause_ref),
        ensures
            clause@ == self.clause_spec(*clauses),
    {
        match self {
            Reason::Decision => Vec::new(),
            Reason::Clause(clause_ref) => {
                let n = clauses.clause_len(*clause_ref);
                let mut out: Vec<Lit> = Vec::new();
                let mut i: usize = 0;
                while i < n
                    invariant
                        i <= n,
                        n == clauses.clause(*clause_ref).len(),
                        clauses.contains(*clause_ref),
                        out@ == clauses.clause(*clause_ref).subrange(0, i as int),
                    decreases n - i,
                {
                    out.push(clauses.lit(*clause_ref, i));
                    i = i + 1;
                    proof {
                        assert(out@ =~= clauses.clause(*clause_ref).subrange(0, i as int));
                    }
                }
                proof {
                    assert(clauses.clause(*clause_ref).subrange(0, n as int) =~= clauses.clause(
                        *clause_ref,
                    ));
                }
                out
            },
            Reason::Explanation { propagated_lit, explanation } => explained_clause(
                *propagated_lit,
                explanation,
            ),
        }
    }
}

/// The propagated literal followed by the negations of the explanation's literals.
pub fn explained_clause(propagated_lit: Lit, explanation: &Explanation) -> (clause: Vec<Lit>)
    ensures
        clause@ == explanation_clause(propagated_lit, explanation@),
{
    let mut out: Vec<Lit> = Vec::new();
    out.push(propagated_lit);
    let lits = explanation.lits();
    let mut i: usize = 0;
    while i < lits.len()
        invariant
            i <= lits@.len(),
            lits@ == explanation@,
            out@ == seq![propagated_lit] + lits@.subrange(0, i as int).map_values(|l: Lit| l.negated()),
        decreases lits@.len() - i,
    {
        out.push(core::ops::Not::not(lits[i]));
        i = i + 1;
        proof {
            assert(out@ =~= seq![propagated_lit] + lits@.subrange(0, i as int).map_values(
                |l: Lit| l.negated(),
            ));
        }
    }
    proof {
        assert(lits@.subrange(0, lits@.len() as int) =~= lits@);
    }
    out
}

impl Default for Reason {
    fn default() -> (reason: Reason)
        ensures
            reason is Decision,
    {
        Reason::Decision
    }
}

impl From<ClauseRef> for Reason {
    fn from(clause_ref: ClauseRef) -> (reason: Reason) {
        Reason::Clause(clause_ref)
    }
}

impl vstd::std_specs::convert::FromSpecImpl<ClauseRef> for Reason {
    open spec fn obeys_from_spec() -> bool {
        true
    }

    open spec fn from_spec(v: ClauseRef) -> Reason {
        Reason::Clause(v)
    }
}

} // verus!
