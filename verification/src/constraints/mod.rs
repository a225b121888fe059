//! Constraints posted to the clause-learning solver.
pub mod bool_lin_leq;

use vstd::prelude::*;

use crate::cdcl::domains::DomainId;
use crate::cdcl::integer::interval_domain::IntInterval;
use crate::cdcl::integer::Int;
use crate::cdcl::lit::{group_lit, Lit};
use crate::cdcl::propagation::{lits_below, Watchable};
use crate::cdcl::solver::{clause_capacity, Propagator, Solver};

use self::bool_lin_leq::{LinearBool, LinearBoolFactory};

verus! {

broadcast use group_lit;

/// Post the constraint `(a /\ b) <-> r` in the clausal solver: the clauses `!a \/ !b \/ r`,
/// `!r \/ a` and `!r \/ b`.
pub fn bool_and<P: Propagator>(solver: &mut Solver<P>, a: Lit, b: Lit, r: Lit) -> (posted: bool)
    requires
        old(solver).wf(),
        lits_below(seq![a, b, r], old(solver).num_vars()),
        old(solver).clauses_spec().clauses_spec().len() + 3 < clause_capacity(),
    ensures
        posted,
        final(solver).wf(),
        final(solver).num_vars() == old(solver).num_vars(),
        final(solver).domains_spec() == old(solver).domains_spec(),
        old(solver).conflict_at_root() ==> final(solver).conflict_at_root(),
        forall|c: Seq<Lit>| old(solver).entails(c) ==> #[trigger] final(solver).entails(c),
        old(solver).context_spec().depth_spec() == 0 ==> {
            &&& final(solver).entails(seq![a.negated(), b.negated(), r])
            &&& final(solver).entails(seq![r.negated(), a])
            &&& final(solver).entails(seq![r.negated(), b])
        },
        final(solver).context_spec().depth_spec() == old(solver).context_spec().depth_spec(),
{
    let not_a = core::ops::Not::not(a);
    let not_b = core::ops::Not::not(b);
    let not_r = core::ops::Not::not(r);
    proof {
        assert(seq![a, b, r][0] == a && seq![a, b, r][1] == b && seq![a, b, r][2] == r);
    }
    // (a /\ b) -> r, which is !a \/ !b \/ r.
    let first = [not_a, not_b, r];
    assert(lits_below(first@, solver.num_vars()));
    assert(first@ =~= seq![a.negated(), b.negated(), r]);
    solver.add_clause(&first);
    // r -> (a /\ b), which is (!r \/ a) /\ (!r \/ b).
    let second = [not_r, a];
    assert(lits_below(second@, solver.num_vars()));
    assert(second@ =~= seq![r.negated(), a]);
    solver.add_clause(&second);
    let third = [not_r, b];
    assert(lits_below(third@, solver.num_vars()));
    assert(third@ =~= seq![r.negated(), b]);
    solver.add_clause(&third);
    true
}

/// Post the constraint `x_1 + ... + x_n <= y`: a [`LinearBool`] propagator watching the literals
/// and the domain. When the domain may go below zero, the bound `y >= 0`, which the empty sum
/// gives without any literal to explain it, is added as a clause.
pub fn bool_lin_leq(solver: &mut Solver<LinearBool>, x: Vec<Lit>, y: DomainId<IntInterval>) -> (posted: bool)
    requires
        old(solver).wf(),
        lits_below(x@, old(solver).num_vars()),
        y.index_spec() < old(solver).domains_spec().len(),
        x@.len() < Int::MAX,
        old(solver).num_propagators() + 1 < usize::MAX / 8,
        old(solver).clauses_spec().clauses_spec().len() < clause_capacity(),
    ensures
        posted,
        final(solver).wf(),
        final(solver).num_vars() == old(solver).num_vars(),
        final(solver).num_propagators() == old(solver).num_propagators() + 1,
        final(solver).propagators_spec().subrange(0, old(solver).propagators_spec().len() as int) == old(solver).propagators_spec(),
        final(solver).propagators_spec().last().x_spec() == x@,
        final(solver).propagators_spec().last().y_spec() == y,
        final(solver).domains_spec() == old(solver).domains_spec(),
        final(solver).clauses_spec().clauses_spec().len() <= old(solver).clauses_spec().clauses_spec().len() + 1,
        old(solver).conflict_at_root() ==> final(solver).conflict_at_root(),
        forall|c: Seq<Lit>| old(solver).entails(c) ==> #[trigger] final(solver).entails(c),
        ({
            let dom = old(solver).domains_spec()[y.index_spec() as int];
            old(solver).context_spec().depth_spec() == 0 && dom.min_spec() < 0 ==> final(solver).entails(seq![dom.literal_spec(0)])
        }),
        final(solver).context_spec().depth_spec() == old(solver).context_spec().depth_spec(),
{
    let dom = solver.domain(y);
    proof {
        solver.lemma_domains_known();
    }
    if dom.min() < 0 {
        let at_least_zero = [dom.lower_bound_lit(0)];
        proof {
            assert(lits_below(dom.literals_spec(), solver.num_vars()));
            assert(at_least_zero@ =~= seq![dom.literal_spec(0)]);
        }
        solver.add_clause(&at_least_zero);
    }
    proof {
        solver.lemma_watch_list();
        let w = solver.watch_list_spec();
        assert forall|i: int| 0 <= i < x@.len() implies (#[trigger] x@[i]).watchable_in(w) by {
            assert(x@[i].var_code() < solver.num_vars());
        }
    }
    let factory = LinearBoolFactory { x, y };
    solver.add_propagator(factory)
}

/// Post the constraint made of `x_1 + ... + x_n <= y` and `!x_1 + ... + !x_n <= y`, two
/// [`LinearBool`] propagators.
pub fn bool_lin_eq(solver: &mut Solver<LinearBool>, x: Vec<Lit>, y: DomainId<IntInterval>) -> (posted: bool)
    requires
        old(solver).wf(),
        lits_below(x@, old(solver).num_vars()),
        y.index_spec() < old(solver).domains_spec().len(),
        x@.len() < Int::MAX,
        old(solver).num_propagators() + 2 < usize::MAX / 8,
        old(solver).clauses_spec().clauses_spec().len() + 1 < clause_capacity(),
    ensures
        posted,
        final(solver).wf(),
        final(solver).num_vars() == old(solver).num_vars(),
        final(solver).num_propagators() == old(solver).num_propagators() + 2,
        final(solver).propagators_spec().subrange(0, old(solver).propagators_spec().len() as int) == old(solver).propagators_spec(),
        ({
            let first = final(solver).propagators_spec()[old(solver).propagators_spec().len() as int];
            let second = final(solver).propagators_spec()[old(solver).propagators_spec().len() + 1 as int];
            &&& first.x_spec() == x@
            &&& first.y_spec() == y
            &&& second.x_spec().len() == x@.len()
            &&& forall|k: int| 0 <= k < x@.len() ==> #[trigger] second.x_spec()[k] == x@[k].negated()
            &&& second.y_spec() == y
        }),
        final(solver).domains_spec() == old(solver).domains_spec(),
        old(solver).conflict_at_root() ==> final(solver).conflict_at_root(),
        forall|c: Seq<Lit>| old(solver).entails(c) ==> #[trigger] final(solver).entails(c),
        final(solver).context_spec().depth_spec() == old(solver).context_spec().depth_spec(),
{
    let mut neg_x: Vec<Lit> = Vec::new();
    let mut i: usize = 0;
    while i < x.len()
        invariant
            i <= x@.len(),
            neg_x@.len() == i,
            forall|k: int| 0 <= k < i ==> #[trigger] neg_x@[k] == x@[k].negated(),
        decreases x@.len() - i,
    {
        neg_x.push(core::ops::Not::not(x[i]));
        i = i + 1;
    }
    proof {
        assert forall|k: int| 0 <= k < neg_x@.len() implies (#[trigger] neg_x@[k]).var_code() < solver.num_vars() by {
            assert(neg_x@[k] == x@[k].negated());
        }
    }
    bool_lin_leq(solver, x, y) && bool_lin_leq(solver, neg_x, y)
}

} // verus!
