//! The clause-learning solver.
use vstd::prelude::*;

use super::analysis::{db_below, db_grows, lemma_db_grows_trans, reasons_in, ConflictAnalyzer};
use super::assignment::Assignment;
use super::brancher::Brancher;
use super::clause::{ClauseDb, ClauseRef};
use super::domains::{Conflict, DomainId, DomainStore, GlobalDomainIdPool, TypedDomainStore};
use super::integer::interval_domain::{IntInterval, IntIntervalFactory};
use super::integer::{Int, IntEvent};
use super::lit::{group_lit, Lit, Var, MAX_VAR_CODE};
use super::preprocessor::{ClausePreProcessor, PreProcessedClause};
use super::propagation::{
    explained_clause, lits_below, propagator_conflict, reason_below, watch_of, Context, LitWatch, PropagatorId,
    PropagatorQueue, PropagatorWatch, Reason, VariableRegistrar, WatchList,
};
use super::storage::{Arena, Indexer};
use super::termination::Terminator;

verus! {

broadcast use {group_lit, PropagatorId::lemma_at};

/// Every domain has literals, all of them over the first `n` variables.
pub open spec fn domains_known(domains: Seq<IntInterval>, n: nat) -> bool {
    forall|d: int| 0 <= d < domains.len() ==> (#[trigger] domains[d]).literals_spec().len() > 0 && lits_below(domains[d].literals_spec(), n)
}

/// What a conflict shows of the state: for a clause, every literal is false; for a propagator,
/// the literal it wanted true is false and the literals explaining it are true.
pub open spec fn conflict_found(conflict: Conflict, clauses: ClauseDb, ctx: Context) -> bool {
    match conflict {
        Conflict::Clause(c) => forall|i: int| 0 <= i < clauses.clause(c).len() ==> #[trigger] ctx.value_spec(clauses.clause(c)[i]) == Some(false),
        Conflict::Propagator { .. } => explained_conflict(conflict, ctx),
    }
}

/// A conflict of a propagator: the literal it wanted true is false, and the literals explaining
/// it are true.
pub open spec fn explained_conflict(conflict: Conflict, ctx: Context) -> bool {
    match conflict {
        Conflict::Propagator { lit, explanation } => {
            &&& ctx.value_spec(lit) == Some(false)
            &&& forall|i: int| 0 <= i < explanation@.len() ==> #[trigger] ctx.value_spec(explanation@[i]) == Some(true)
        },
        Conflict::Clause(_) => false,
    }
}

/// Removes values from the domains it is registered for, by making literals true.
pub trait Propagator: Sized {
    /// The literals and domains the propagator reads are among the first `num_vars` variables
    /// and the first `num_domains` domains.
    spec fn valid(&self, num_vars: nat, num_domains: nat) -> bool;

    /// A propagator valid for some variables and domains stays valid when there are more.
    proof fn lemma_valid_grows(&self, num_vars: nat, num_domains: nat, more_vars: nat, more_domains: nat)
        requires
            self.valid(num_vars, num_domains),
            num_vars <= more_vars,
            num_domains <= more_domains,
        ensures
            self.valid(more_vars, more_domains),
    ;

    /// Should make as many literals true as the propagator can justify.
    fn propagate(&mut self, ctx: &mut Context, domains: &TypedDomainStore<IntInterval>) -> (res: Result<(), Conflict>)
        requires
            old(ctx).wf(),
            domains_known(domains.domains_spec(), old(ctx).num_vars()),
            old(self).valid(old(ctx).num_vars(), domains.domains_spec().len()),
        ensures
            final(ctx).wf(),
            final(ctx).extends(*old(ctx)),
            final(self).valid(old(ctx).num_vars(), domains.domains_spec().len()),
            res matches Err(c) ==> propagator_conflict(c, final(ctx).num_vars()),
            res matches Err(c) ==> explained_conflict(c, *final(ctx)),
    ;
}

/// Builds a propagator and registers what it watches.
pub trait PropagatorFactory<P: Propagator> {
    /// The literals the propagator will watch are known to the watch list, and the domains it
    /// reads are among the first `num_domains`.
    spec fn fits(&self, watch_list: WatchList<IntEvent>, num_domains: nat) -> bool;

    /// The propagator is one this factory builds.
    spec fn builds(&self, propagator: P) -> bool;

    /// Creates a new instance of a propagator; the given registrar should be used to register
    /// what the propagator is interested in.
    fn create(self, registrar: &mut VariableRegistrar<IntEvent>, num_domains: Ghost<nat>) -> (propagator: P)
        requires
            self.fits(old(registrar).watch_list, num_domains@),
        ensures
            final(registrar).propagator == old(registrar).propagator,
            final(registrar).watch_list.extends_with(old(registrar).watch_list, old(registrar).propagator),
            propagator.valid(old(registrar).watch_list.lit_watches().len() / 2, num_domains@),
            self.builds(propagator),
    ;
}

/// Whether a conflict at the root has been found.
#[derive(PartialEq, Eq, Structural, Clone, Copy, Debug)]
enum State {
    Consistent,
    ConflictAtRoot,
}

/// The most variables a solver can hold.
pub open spec fn var_capacity() -> nat {
    if (MAX_VAR_CODE as nat) + 1 < usize::MAX / 16 {
        (MAX_VAR_CODE as nat) + 1
    } else {
        (usize::MAX / 16) as nat
    }
}

/// The most clauses a solver can hold.
pub open spec fn clause_capacity() -> nat {
    (u32::MAX - 1) as nat
}

/// A watch refers to a clause of the database or to a registered propagator.
pub open spec fn watch_valid(watch: LitWatch<IntEvent>, clauses: ClauseDb, num_props: nat) -> bool {
    match watch {
        LitWatch::Clause(c) => clauses.contains(c),
        LitWatch::Propagator { propagator_id, .. } => propagator_id.id_spec() < num_props,
        LitWatch::DomainEvent { .. } => true,
    }
}

/// All watches of the list are valid.
pub open spec fn watches_valid(watches: Seq<LitWatch<IntEvent>>, clauses: ClauseDb, num_props: nat) -> bool {
    forall|j: int| 0 <= j < watches.len() ==> watch_valid(#[trigger] watches[j], clauses, num_props)
}

/// The number of watches of the list that belong to the clause at index `k`.
pub open spec fn watch_count(watches: Seq<LitWatch<IntEvent>>, k: int) -> nat
    decreases watches.len(),
{
    if watches.len() == 0 {
        0
    } else {
        watch_count(watches.drop_last(), k) + if watches.last() matches LitWatch::Clause(c) && c.index_spec() == k {
            1nat
        } else {
            0nat
        }
    }
}

/// How many of the two watched positions of the clause hold the literal with the code.
pub open spec fn watched_at(clause: Seq<Lit>, code: int) -> nat {
    (if clause[0].code_spec() == code { 1nat } else { 0nat }) + (if clause[1].code_spec() == code { 1nat } else { 0nat })
}

/// No list of watches holds more watches of a clause than the clause has watched positions
/// holding the list's literal: a clause is watched only by the lists of its first two literals.
#[verifier::opaque]
pub open spec fn watches_counted(watches: Seq<Seq<LitWatch<IntEvent>>>, clauses: Seq<Seq<Lit>>) -> bool {
    forall|x: int, k: int| 0 <= x < watches.len() && 0 <= k < clauses.len() ==> #[trigger] watch_count(watches[x], k) <= watched_at(clauses[k], x)
}

/// Appending a watch counts it when it belongs to the clause.
pub proof fn lemma_watch_count_push(watches: Seq<LitWatch<IntEvent>>, watch: LitWatch<IntEvent>, k: int)
    ensures
        watch_count(watches.push(watch), k) == watch_count(watches, k) + if watch matches LitWatch::Clause(c) && c.index_spec() == k {
            1nat
        } else {
            0nat
        },
{
    assert(watches.push(watch).drop_last() =~= watches);
}

/// A list without watches of the clause counts none.
pub proof fn lemma_watch_count_none(watches: Seq<LitWatch<IntEvent>>, k: int)
    requires
        forall|j: int| 0 <= j < watches.len() ==> !(#[trigger] watches[j] matches LitWatch::Clause(c) && c.index_spec() == k),
    ensures
        watch_count(watches, k) == 0,
    decreases watches.len(),
{
    if watches.len() > 0 {
        lemma_watch_count_none(watches.drop_last(), k);
        assert(watches.last() == watches[watches.len() - 1]);
    }
}

/// The watches of a concatenation are those of both parts.
pub proof fn lemma_watch_count_add(a: Seq<LitWatch<IntEvent>>, b: Seq<LitWatch<IntEvent>>, k: int)
    ensures
        watch_count(a + b, k) == watch_count(a, k) + watch_count(b, k),
    decreases b.len(),
{
    if b.len() == 0 {
        assert(a + b =~= a);
    } else {
        lemma_watch_count_add(a, b.drop_last(), k);
        assert((a + b).drop_last() =~= a + b.drop_last());
        assert((a + b).last() == b.last());
    }
}

/// The watches from position `i` on are the one at `i` and those after it.
pub proof fn lemma_watch_count_step(watches: Seq<LitWatch<IntEvent>>, i: int, k: int)
    requires
        0 <= i < watches.len(),
    ensures
        watch_count(watches.subrange(i, watches.len() as int), k) == watch_count(watches.subrange(i + 1, watches.len() as int), k) + if watches[i] matches LitWatch::Clause(c) && c.index_spec() == k {
            1nat
        } else {
            0nat
        },
{
    let one = seq![watches[i]];
    assert(watches.subrange(i, watches.len() as int) =~= one + watches.subrange(i + 1, watches.len() as int));
    lemma_watch_count_add(one, watches.subrange(i + 1, watches.len() as int), k);
    assert(one =~= Seq::<LitWatch<IntEvent>>::empty().push(watches[i]));
    lemma_watch_count_push(Seq::<LitWatch<IntEvent>>::empty(), watches[i], k);
    assert(watch_count(Seq::<LitWatch<IntEvent>>::empty(), k) == 0);
}

/// A list whose watches of the clause stand where they stood in another, at least as long, list
/// counts no more of them.
pub proof fn lemma_watch_count_le(new: Seq<LitWatch<IntEvent>>, old: Seq<LitWatch<IntEvent>>, k: int)
    requires
        new.len() >= old.len(),
        forall|j: int| 0 <= j < new.len() && (#[trigger] new[j] matches LitWatch::Clause(c) && c.index_spec() == k) ==> j < old.len() && new[j] == old[j],
    ensures
        watch_count(new, k) <= watch_count(old, k),
    decreases new.len(),
{
    if new.len() > 0 {
        let last = new.len() - 1;
        assert(new.last() == new[last]);
        if new.len() > old.len() {
            lemma_watch_count_le(new.drop_last(), old, k);
        } else {
            assert(old.last() == old[last]);
            assert forall|j: int| 0 <= j < new.drop_last().len() && (#[trigger] new.drop_last()[j] matches LitWatch::Clause(c) && c.index_spec() == k) implies j < old.drop_last().len() && new.drop_last()[j] == old.drop_last()[j] by {
                assert(new.drop_last()[j] == new[j]);
            }
            lemma_watch_count_le(new.drop_last(), old.drop_last(), k);
        }
    }
}

/// A watch of the clause stands at position `j` of the list, so the list counts at least one.
pub proof fn lemma_watch_count_pos(watches: Seq<LitWatch<IntEvent>>, j: int, k: int)
    requires
        0 <= j < watches.len(),
        watches[j] matches LitWatch::Clause(c) && c.index_spec() == k,
    ensures
        watch_count(watches, k) >= 1,
    decreases watches.len(),
{
    if j < watches.len() - 1 {
        assert(watches.drop_last()[j] == watches[j]);
        lemma_watch_count_pos(watches.drop_last(), j, k);
    } else {
        assert(watches.last() == watches[j]);
    }
}

/// Every clause watched from the list has its first literal true.
pub open spec fn heads_true(watches: Seq<LitWatch<IntEvent>>, clauses: ClauseDb, ctx: Context) -> bool {
    forall|j: int| 0 <= j < watches.len() ==> (#[trigger] watches[j] matches LitWatch::Clause(c) ==> ctx.value_spec(clauses.clause(c)[0]) == Some(true))
}

/// Every propagator watching from the list is queued.
pub open spec fn propagators_queued(watches: Seq<LitWatch<IntEvent>>, queued: Seq<PropagatorId>) -> bool {
    forall|j: int| 0 <= j < watches.len() ==> (#[trigger] watches[j] matches LitWatch::Propagator { propagator_id, .. } ==> queued.contains(propagator_id))
}

/// A queue that holds every propagator of another still has the propagators of the list queued.
pub proof fn lemma_queued_grows(watches: Seq<LitWatch<IntEvent>>, before: Seq<PropagatorId>, after: Seq<PropagatorId>)
    requires
        propagators_queued(watches, before),
        forall|p: PropagatorId| before.contains(p) ==> #[trigger] after.contains(p),
    ensures
        propagators_queued(watches, after),
{
    assert forall|j: int| 0 <= j < watches.len() implies (#[trigger] watches[j] matches LitWatch::Propagator { propagator_id, .. } ==> after.contains(propagator_id)) by {
        if let LitWatch::Propagator { propagator_id, .. } = watches[j] {
            assert(before.contains(propagator_id));
        }
    }
}

/// Some literal of the trail between positions `from` and `to` has a negation with the code.
pub open spec fn negation_visited(trail: Seq<Lit>, from: int, to: int, code: int) -> bool {
    exists|q: int| from <= q < to && trail[q].negated().code_spec() == code
}

/// Whether the negation of a trail literal has a code depends only on the trail up to `to`.
pub proof fn lemma_negation_visited_prefix(a: Seq<Lit>, b: Seq<Lit>, from: int, to: int, code: int)
    requires
        0 <= from,
        0 <= to <= a.len(),
        to <= b.len(),
        forall|q: int| 0 <= q < to ==> a[q] == b[q],
    ensures
        negation_visited(a, from, to, code) == negation_visited(b, from, to, code),
{
    if negation_visited(a, from, to, code) {
        let q = choose|q: int| from <= q < to && a[q].negated().code_spec() == code;
        assert(b[q] == a[q]);
    }
    if negation_visited(b, from, to, code) {
        let q = choose|q: int| from <= q < to && b[q].negated().code_spec() == code;
        assert(b[q] == a[q]);
    }
}

/// A prefix of a list stays a prefix when a watch is appended to some list.
pub proof fn lemma_prefix_after_push(a: Seq<LitWatch<IntEvent>>, w0: Seq<Seq<LitWatch<IntEvent>>>, w1: Seq<Seq<LitWatch<IntEvent>>>, x: int, y: int, e: LitWatch<IntEvent>)
    requires
        0 <= x < w0.len(),
        0 <= y < w0.len(),
        a.is_prefix_of(w0[x]),
        w1 == w0.update(y, w0[y].push(e)),
    ensures
        a.is_prefix_of(w1[x]),
{
    if x == y {
        assert(w0[y].push(e).subrange(0, a.len() as int) =~= w0[y].subrange(0, a.len() as int));
    }
}

/// Appending keeps what a sequence holds and adds the new element.
pub proof fn lemma_push_contains(s: Seq<PropagatorId>, p: PropagatorId)
    ensures
        forall|x: PropagatorId| s.contains(x) ==> #[trigger] s.push(p).contains(x),
        s.push(p).contains(p),
{
    assert forall|x: PropagatorId| s.contains(x) implies #[trigger] s.push(p).contains(x) by {
        let i = choose|i: int| 0 <= i < s.len() && s[i] == x;
        assert(s.push(p)[i] == x);
    }
    assert(s.push(p)[s.len() as int] == p);
}

/// Every watch of `before` that is not a clause's is still in `after`.
pub open spec fn non_clause_kept(before: Seq<LitWatch<IntEvent>>, after: Seq<LitWatch<IntEvent>>) -> bool {
    forall|j: int| 0 <= j < before.len() && !(#[trigger] before[j] is Clause) ==> after.contains(before[j])
}

/// Appending a watch to some list keeps what every list held.
pub proof fn lemma_kept_after_push(a: Seq<LitWatch<IntEvent>>, w0: Seq<Seq<LitWatch<IntEvent>>>, w1: Seq<Seq<LitWatch<IntEvent>>>, x: int, y: int, e: LitWatch<IntEvent>)
    requires
        0 <= x < w0.len(),
        0 <= y < w0.len(),
        non_clause_kept(a, w0[x]),
        w1 == w0.update(y, w0[y].push(e)),
    ensures
        non_clause_kept(a, w1[x]),
{
    assert forall|j: int| 0 <= j < a.len() && !(#[trigger] a[j] is Clause) implies w1[x].contains(a[j]) by {
        let m = choose|m: int| 0 <= m < w0[x].len() && w0[x][m] == a[j];
        if x == y {
            assert(w1[x][m] == a[j]);
        } else {
            assert(w1[x] == w0[x]);
        }
    }
}

/// The outcome of a search.
pub enum SolveResult<'solver> {
    /// A solution has been found for the formula.
    Satisfiable(Solution<'solver>),
    /// No solution exists for the formula.
    Unsatisfiable,
    /// The solver was interrupted before reaching a conclusion.
    Unknown,
}

/// A solution: an assignment of every variable.
pub struct Solution<'assignment> {
    assignment: &'assignment Assignment,
    domains: &'assignment TypedDomainStore<IntInterval>,
    next_new_var_code: u32,
}

impl<'a> Solution<'a> {
    /// The assignment of the solution.
    pub closed spec fn assignment_spec(&self) -> Assignment {
        *self.assignment
    }

    /// The number of variables.
    pub closed spec fn num_vars(&self) -> nat {
        self.next_new_var_code as nat
    }

    /// The domains of the solver.
    pub closed spec fn domains_spec(&self) -> Seq<IntInterval> {
        self.domains.domains_spec()
    }

    /// Every variable is assigned.
    pub closed spec fn wf(&self) -> bool {
        &&& self.assignment.wf()
        &&& self.assignment.num_vars() == self.next_new_var_code
        &&& forall|v: nat| v < self.next_new_var_code ==> (#[trigger] self.assignment.var_value(v)) is Some
    }

    /// The value of the variable in the solution.
    pub fn value(&self, var: Var) -> (value: bool)
        requires
            self.wf(),
            var.code_spec() < self.num_vars(),
        ensures
            Some(value) == self.assignment_spec().var_value(var.code_spec() as nat),
    {
        let lit = Lit::positive(var);
        match self.assignment.value(lit) {
            Some(b) => b,
            None => {
                proof {
                    assert(self.assignment.var_value(var.code_spec() as nat) is Some);
                }
                false
            },
        }
    }

    /// The value of an integer variable in the solution: its upper bound.
    pub fn domain_value(&self, domain: DomainId<IntInterval>) -> (value: Int)
        requires
            domain.index_spec() < self.domains_spec().len(),
        ensures
            value == self.domains_spec()[domain.index_spec() as int].max_spec(),
    {
        self.domains.read(domain).max()
    }

    /// The variables of the solution, in order of their codes.
    pub fn vars(&self) -> (vars: Vec<Var>)
        requires
            self.num_vars() <= MAX_VAR_CODE + 1,
        ensures
            vars@.len() == self.num_vars(),
            forall|i: int| 0 <= i < vars@.len() ==> (#[trigger] vars@[i]).code_spec() == i,
    {
        let mut out: Vec<Var> = Vec::new();
        let mut code: u32 = 0;
        while code < self.next_new_var_code
            invariant
                code <= self.next_new_var_code,
                self.next_new_var_code <= MAX_VAR_CODE + 1,
                out@.len() == code,
                forall|i: int| 0 <= i < out@.len() ==> (#[trigger] out@[i]).code_spec() == i,
            decreases self.next_new_var_code - code,
        {
            out.push(Var::new_unchecked(code));
            code = code + 1;
        }
        out
    }
}

/// The clause holds a literal and its negation.
pub open spec fn tautology(clause: Seq<Lit>) -> bool {
    exists|i: int, j: int| 0 <= i < clause.len() && 0 <= j < clause.len() && #[trigger] clause[j] == (#[trigger] clause[i]).negated()
}

/// Every literal of `part` is a literal of `whole`.
pub open spec fn subclause(part: Seq<Lit>, whole: Seq<Lit>) -> bool {
    forall|m: int| 0 <= m < part.len() ==> whole.contains(#[trigger] part[m])
}

/// Every clause of `old` is still in `new`, at the same position, with no literal it did not
/// have; `new` may hold more clauses.
pub open spec fn db_keeps(new: ClauseDb, old: ClauseDb) -> bool {
    &&& new.clauses_spec().len() >= old.clauses_spec().len()
    &&& forall|k: int, l: Lit| 0 <= k < old.clauses_spec().len() && #[trigger] new.clauses_spec()[k].contains(l) ==> old.clauses_spec()[k].contains(l)
}

/// A database that grows by appending keeps its clauses.
proof fn lemma_grows_keeps(new: ClauseDb, old: ClauseDb, n: nat)
    requires
        db_grows(new, old, n),
    ensures
        db_keeps(new, old),
{
    assert forall|k: int, l: Lit| 0 <= k < old.clauses_spec().len() && #[trigger] new.clauses_spec()[k].contains(l) implies old.clauses_spec()[k].contains(l) by {
        assert(new.clauses_spec().subrange(0, old.clauses_spec().len() as int)[k] == new.clauses_spec()[k]);
    }
}

/// A clause-learning solver over propositional literals, with propagators that reason over
/// integer domains encoded by literals.
pub struct Solver<P> {
    domains: TypedDomainStore<IntInterval>,
    domain_id_pool: GlobalDomainIdPool,
    preprocessor: ClausePreProcessor,
    analyzer: ConflictAnalyzer,
    clauses: ClauseDb,
    state: State,
    propagators: Arena<PropagatorId, P>,
    propagator_queue: PropagatorQueue,
    context: Context,
    next_propagation_idx: usize,
    watch_list: WatchList<IntEvent>,
    next_var_code: u32,
}

impl<P: Propagator> Solver<P> {
    /// The number of variables.
    pub closed spec fn num_vars(&self) -> nat {
        self.next_var_code as nat
    }

    /// The propositional state.
    pub closed spec fn context_spec(&self) -> Context {
        self.context
    }

    /// The clauses of at least two literals.
    pub closed spec fn clauses_spec(&self) -> ClauseDb {
        self.clauses
    }

    /// The watch list.
    pub closed spec fn watch_list_spec(&self) -> WatchList<IntEvent> {
        self.watch_list
    }

    /// The propagators, in the order they were added.
    pub closed spec fn propagators_spec(&self) -> Seq<P> {
        self.propagators@
    }

    /// The number of propagators.
    pub open spec fn num_propagators(&self) -> nat {
        self.propagators_spec().len()
    }

    /// A conflict at the root has been found.
    pub closed spec fn conflict_at_root(&self) -> bool {
        self.state == State::ConflictAtRoot
    }

    /// The domains.
    pub closed spec fn domains_spec(&self) -> Seq<IntInterval> {
        self.domains.domains_spec()
    }

    /// The parts of the solver agree with each other.
    pub closed spec fn wf(&self) -> bool {
        let n = self.next_var_code as nat;
        let nprops = self.propagators@.len();
        &&& self.context.wf()
        &&& self.context.num_vars() == n
        &&& n <= var_capacity()
        &&& self.analyzer.wf()
        &&& self.analyzer.num_vars() == n
        &&& db_below(self.clauses, n)
        &&& reasons_in(self.context.reasons(), self.clauses, n)
        &&& self.watch_list.lit_watches().len() == 2 * n
        &&& self.watch_list.event_watches().len() == 2
        &&& forall|i: int| 0 <= i < 2 * n ==> watches_valid(#[trigger] self.watch_list.lit_watches()[i], self.clauses, nprops)
        &&& watches_counted(self.watch_list.lit_watches(), self.clauses.clauses_spec())
        &&& forall|i: int, j: int| 0 <= i < 2 && 0 <= j < self.watch_list.event_watches()[i].len() ==> (#[trigger] self.watch_list.event_watches()[i][j]).propagator_id.id_spec() < nprops
        &&& self.propagator_queue.wf()
        &&& self.propagator_queue.capacity() == nprops
        &&& self.next_propagation_idx <= self.context.trail_lits().len()
        &&& self.domain_id_pool.issued() == self.domains.domains_spec().len()
        &&& domains_known(self.domains.domains_spec(), n)
        &&& forall|i: int| 0 <= i < nprops ==> (#[trigger] self.propagators@[i]).valid(n, self.domains.domains_spec().len())
    }

    /// A clause of the database is watched only from the lists of its first two literals, and
    /// from each of them at most as often as the literal stands among those two.
    pub proof fn lemma_watches_counted(&self)
        requires
            self.wf(),
        ensures
            watches_counted(self.watch_list_spec().lit_watches(), self.clauses_spec().clauses_spec()),
    {
    }

    /// The watch list holds the watches of every literal and of both events.
    pub proof fn lemma_watch_list(&self)
        requires
            self.wf(),
        ensures
            self.watch_list_spec().lit_watches().len() == 2 * self.num_vars(),
            self.watch_list_spec().event_watches().len() == 2,
    {
    }

    /// The clause follows from what the solver holds: a conflict at the root has been found, or
    /// the clause is over known variables and holds a literal and its negation, or holds a
    /// literal made true at the root level, or holds every literal of a clause of the database.
    pub closed spec fn entails(&self, clause: Seq<Lit>) -> bool {
        ||| self.state == State::ConflictAtRoot
        ||| {
            &&& lits_below(clause, self.next_var_code as nat)
            &&& {
                ||| tautology(clause)
                ||| exists|i: int| 0 <= i < clause.len() && self.context.root_lits().contains(#[trigger] clause[i])
                ||| exists|k: int| 0 <= k < self.clauses.clauses_spec().len() && subclause(#[trigger] self.clauses.clauses_spec()[k], clause)
            }
        }
    }

    /// The assignment gives every variable a value, makes every literal true that the solver
    /// made true at the root level, and satisfies every clause of the database.
    pub closed spec fn admits(&self, assignment: Assignment) -> bool {
        let root = self.context.root_lits();
        let db = self.clauses.clauses_spec();
        &&& forall|v: nat| v < self.next_var_code ==> (#[trigger] assignment.var_value(v)) is Some
        &&& forall|i: int| 0 <= i < root.len() ==> assignment.value_spec(#[trigger] root[i]) == Some(true)
        &&& forall|k: int| 0 <= k < db.len() ==> assignment.satisfies(#[trigger] db[k])
    }

    /// A clause of the database whose literals are all false at the root level leaves no
    /// assignment that the solver admits: the assignment would have to make one of them true,
    /// and the negations of all of them are root literals.
    pub proof fn lemma_root_conflict_admits_nothing(&self, conflict: Conflict, assignment: Assignment)
        requires
            self.wf(),
            self.context_spec().depth_spec() == 0,
            conflict is Clause,
            conflict_valid(conflict, self.clauses_spec(), self.num_vars()),
            conflict_found(conflict, self.clauses_spec(), self.context_spec()),
        ensures
            !self.admits(assignment),
    {
        if self.admits(assignment) {
            self.context.lemma_wf();
            self.context.lemma_root();
            let cr = conflict->Clause_0;
            let k = cr.index_spec() as int;
            let clause = self.clauses.clauses_spec()[k];
            assert(assignment.satisfies(clause));
            let i = choose|i: int| 0 <= i < clause.len() && assignment.value_spec(#[trigger] clause[i]) == Some(true);
            let l = clause[i];
            assert(self.context.value_spec(l) == Some(false));
            assert(lits_below(clause, self.next_var_code as nat));
            assert(self.context.value_spec(l.negated()) == Some(true));
            let root = self.context.root_lits();
            assert(root.contains(l.negated()));
            let j = choose|j: int| 0 <= j < root.len() && root[j] == l.negated();
            assert(assignment.value_spec(root[j]) == Some(true));
        }
    }

    /// Going from `old` to `self` lost nothing that `old` entailed: a conflict at the root stays,
    /// the variables, the root literals and the clauses of the database are kept.
    spec fn keeps(&self, old: Solver<P>) -> bool {
        &&& old.state == State::ConflictAtRoot ==> self.state == State::ConflictAtRoot
        &&& old.next_var_code <= self.next_var_code
        &&& forall|l: Lit| old.context.root_lits().contains(l) ==> #[trigger] self.context.root_lits().contains(l)
        &&& db_keeps(self.clauses, old.clauses)
    }

    /// Keeping is transitive.
    proof fn lemma_keeps_trans(a: Solver<P>, b: Solver<P>, c: Solver<P>)
        requires
            b.keeps(a),
            c.keeps(b),
        ensures
            c.keeps(a),
    {
        assert forall|k: int, l: Lit| 0 <= k < a.clauses.clauses_spec().len() && #[trigger] c.clauses.clauses_spec()[k].contains(l) implies a.clauses.clauses_spec()[k].contains(l) by {
            assert(b.clauses.clauses_spec()[k].contains(l));
        }
    }

    /// What `old` entailed, `self` entails.
    proof fn lemma_keeps_entails(&self, old: Solver<P>)
        requires
            self.keeps(old),
        ensures
            forall|c: Seq<Lit>| old.entails(c) ==> #[trigger] self.entails(c),
    {
        assert forall|c: Seq<Lit>| old.entails(c) implies #[trigger] self.entails(c) by {
            if old.state != State::ConflictAtRoot && self.state != State::ConflictAtRoot {
                assert(lits_below(c, self.next_var_code as nat));
                if exists|i: int| 0 <= i < c.len() && old.context.root_lits().contains(#[trigger] c[i]) {
                    let i = choose|i: int| 0 <= i < c.len() && old.context.root_lits().contains(#[trigger] c[i]);
                    assert(self.context.root_lits().contains(c[i]));
                } else if exists|k: int| 0 <= k < old.clauses.clauses_spec().len() && subclause(#[trigger] old.clauses.clauses_spec()[k], c) {
                    let k = choose|k: int| 0 <= k < old.clauses.clauses_spec().len() && subclause(#[trigger] old.clauses.clauses_spec()[k], c);
                    let d = self.clauses.clauses_spec()[k];
                    assert forall|m: int| 0 <= m < d.len() implies c.contains(#[trigger] d[m]) by {
                        assert(d.contains(d[m]));
                        assert(old.clauses.clauses_spec()[k].contains(d[m]));
                        let j = choose|j: int| 0 <= j < old.clauses.clauses_spec()[k].len() && old.clauses.clauses_spec()[k][j] == d[m];
                        assert(c.contains(old.clauses.clauses_spec()[k][j]));
                    }
                    assert(subclause(self.clauses.clauses_spec()[k], c));
                }
            }
        }
    }

    /// An assignment `self` admits, `old` admits too when both have the same variables.
    proof fn lemma_keeps_admits(&self, old: Solver<P>, assignment: Assignment)
        requires
            self.keeps(old),
            self.admits(assignment),
            old.next_var_code == self.next_var_code,
        ensures
            old.admits(assignment),
    {
        let root = old.context.root_lits();
        assert forall|i: int| 0 <= i < root.len() implies assignment.value_spec(#[trigger] root[i]) == Some(true) by {
            assert(root.contains(root[i]));
            assert(self.context.root_lits().contains(root[i]));
        }
        let db = old.clauses.clauses_spec();
        assert forall|k: int| 0 <= k < db.len() implies assignment.satisfies(#[trigger] db[k]) by {
            let d = self.clauses.clauses_spec()[k];
            assert(assignment.satisfies(d));
            let m = choose|m: int| 0 <= m < d.len() && assignment.value_spec(#[trigger] d[m]) == Some(true);
            assert(d.contains(d[m]));
            assert(db[k].contains(d[m]));
            let j = choose|j: int| 0 <= j < db[k].len() && db[k][j] == d[m];
            assert(assignment.value_spec(db[k][j]) == Some(true));
        }
    }

    /// Every clause the solver entails holds under every assignment it admits, unless a
    /// conflict at the root has been found.
    pub proof fn lemma_admitted_satisfies(&self, assignment: Assignment, clause: Seq<Lit>)
        requires
            self.entails(clause),
            self.admits(assignment),
            !self.conflict_at_root(),
        ensures
            assignment.satisfies(clause),
    {
        let n = self.next_var_code as nat;
        let root = self.context.root_lits();
        let db = self.clauses.clauses_spec();
        if tautology(clause) {
            let (i, j) = choose|i: int, j: int| 0 <= i < clause.len() && 0 <= j < clause.len() && #[trigger] clause[j] == (#[trigger] clause[i]).negated();
            assert(clause[i].var_code() < n);
            assert(assignment.var_value(clause[i].var_code() as nat) is Some);
            if assignment.value_spec(clause[i]) != Some(true) {
                assert(assignment.value_spec(clause[j]) == Some(true));
            }
        } else if exists|i: int| 0 <= i < clause.len() && root.contains(#[trigger] clause[i]) {
            let i = choose|i: int| 0 <= i < clause.len() && root.contains(#[trigger] clause[i]);
            let m = choose|m: int| 0 <= m < root.len() && root[m] == clause[i];
            assert(assignment.value_spec(root[m]) == Some(true));
        } else {
            let k = choose|k: int| 0 <= k < db.len() && subclause(#[trigger] db[k], clause);
            assert(assignment.satisfies(db[k]));
            let m = choose|m: int| 0 <= m < db[k].len() && assignment.value_spec(#[trigger] db[k][m]) == Some(true);
            assert(clause.contains(db[k][m]));
            let j = choose|j: int| 0 <= j < clause.len() && clause[j] == db[k][m];
            assert(assignment.value_spec(clause[j]) == Some(true));
        }
    }
}

impl<P: Propagator> Solver<P> {
    /// A solver without variables, clauses or propagators.
    pub fn new() -> (solver: Solver<P>)
        ensures
            solver.wf(),
            solver.num_vars() == 0,
            !solver.conflict_at_root(),
            solver.clauses_spec().clauses_spec().len() == 0,
            solver.context_spec().depth_spec() == 0,
            solver.domains_spec().len() == 0,
            solver.num_propagators() == 0,
    {
        proof {
            reveal(watches_counted);
        }
        let solver = Solver {
            domains: TypedDomainStore::default(),
            domain_id_pool: GlobalDomainIdPool::new(),
            preprocessor: ClausePreProcessor::new(),
            analyzer: ConflictAnalyzer::new(),
            clauses: ClauseDb::new(),
            state: State::Consistent,
            propagators: Arena::default(),
            propagator_queue: PropagatorQueue::new(),
            context: Context::new(),
            next_propagation_idx: 0,
            watch_list: WatchList::new(),
            next_var_code: 0,
        };
        proof {
            solver.context.lemma_wf();
            assert(solver.watch_list.lit_watches().len() == 0);
        }
        solver
    }

    /// The domain with the given identifier.
    pub fn domain(&self, id: DomainId<IntInterval>) -> (domain: &IntInterval)
        requires
            id.index_spec() < self.domains_spec().len(),
        ensures
            *domain == self.domains_spec()[id.index_spec() as int],
    {
        self.domains.read(id)
    }

    /// Every domain has literals, all of them over the variables of the solver.
    pub proof fn lemma_domains_known(&self)
        requires
            self.wf(),
        ensures
            domains_known(self.domains_spec(), self.num_vars()),
    {
    }

    /// The number of clauses of at least two literals.
    pub fn num_clauses(&self) -> (n: usize)
        ensures
            n == self.clauses_spec().clauses_spec().len(),
    {
        self.clauses.num_clauses()
    }

    /// The number of variables.
    pub fn num_vars_exec(&self) -> (n: u32)
        ensures
            n == self.num_vars(),
    {
        self.next_var_code
    }

    /// Create a new variable, returning its positive literal.
    pub fn new_lit(&mut self) -> (lit: Lit)
        requires
            old(self).wf(),
            old(self).num_vars() + 1 <= var_capacity(),
        ensures
            final(self).wf(),
            final(self).num_vars() == old(self).num_vars() + 1,
            lit.var_code() == old(self).num_vars(),
            lit.positive_spec(),
            final(self).context_spec().value_spec(lit) is None,
            final(self).clauses_spec() == old(self).clauses_spec(),
            final(self).conflict_at_root() == old(self).conflict_at_root(),
            final(self).context_spec().trail_lits() == old(self).context_spec().trail_lits(),
            final(self).context_spec().delims() == old(self).context_spec().delims(),
            forall|l: Lit| l.var_code() < old(self).num_vars() ==> #[trigger] final(self).context_spec().value_spec(l) == old(self).context_spec().value_spec(l),
            final(self).domains_spec() == old(self).domains_spec(),
            forall|c: Seq<Lit>| old(self).entails(c) ==> #[trigger] final(self).entails(c),
            final(self).context_spec().depth_spec() == old(self).context_spec().depth_spec(),
    {
        proof {
            reveal(watches_counted);
        }
        let var = Var::new_unchecked(self.next_var_code);
        let ghost old_watch = self.watch_list;
        self.context.add_var(var);
        let lit = Lit::positive(var);
        self.watch_list.grow_to(lit);
        self.analyzer.grow_to(var);
        self.next_var_code = self.next_var_code + 1;
        proof {
            let n = self.next_var_code as nat;
            self.context.lemma_wf();
            old(self).context.lemma_wf();
            assert forall|i: int| 0 <= i < 2 * n implies watches_valid(#[trigger] self.watch_list.lit_watches()[i], self.clauses, self.propagators@.len()) by {
                if i < 2 * (n - 1) {
                    assert(watches_valid(old_watch.lit_watches()[i], self.clauses, self.propagators@.len()));
                }
            }
            let c = self.context.reasons();
            assert forall|v: int| 0 <= v < n implies (#[trigger] c[v] matches Reason::Clause(cr) ==> self.clauses.contains(cr)) by {
                if v < n - 1 {
                    assert(old(self).context.reasons()[v] matches Reason::Clause(cr) ==> self.clauses.contains(cr));
                }
            }
            assert forall|i: int| 0 <= i < self.clauses.clauses_spec().len() implies lits_below(#[trigger] self.clauses.clauses_spec()[i], n) by {
                assert(lits_below(self.clauses.clauses_spec()[i], (n - 1) as nat));
            }
            self.lemma_keeps_entails(*old(self));
            let d = self.domains.domains_spec().len();
            assert forall|i: int| 0 <= i < self.propagators@.len() implies (#[trigger] self.propagators@[i]).valid(n, d) by {
                self.propagators@[i].lemma_valid_grows((n - 1) as nat, d, n, d);
            }
        }
        lit
    }

    /// Create the given number of new variables, returning their positive literals.
    pub fn new_lits(&mut self, count: usize) -> (lits: Vec<Lit>)
        requires
            old(self).wf(),
            old(self).num_vars() + count <= var_capacity(),
        ensures
            final(self).wf(),
            final(self).num_vars() == old(self).num_vars() + count,
            lits@.len() == count,
            forall|i: int| 0 <= i < count ==> (#[trigger] lits@[i]).var_code() == old(self).num_vars() + i && lits@[i].positive_spec(),
            final(self).clauses_spec() == old(self).clauses_spec(),
            final(self).conflict_at_root() == old(self).conflict_at_root(),
            final(self).context_spec().delims() == old(self).context_spec().delims(),
            final(self).domains_spec() == old(self).domains_spec(),
            forall|c: Seq<Lit>| old(self).entails(c) ==> #[trigger] final(self).entails(c),
            final(self).context_spec().depth_spec() == old(self).context_spec().depth_spec(),
    {
        let mut lits: Vec<Lit> = Vec::new();
        let mut i: usize = 0;
        while i < count
            invariant
                self.wf(),
                i <= count,
                self.num_vars() == old(self).num_vars() + i,
                old(self).num_vars() + count <= var_capacity(),
                lits@.len() == i,
                forall|k: int| 0 <= k < i ==> (#[trigger] lits@[k]).var_code() == old(self).num_vars() + k && lits@[k].positive_spec(),
                self.clauses_spec() == old(self).clauses_spec(),
                self.conflict_at_root() == old(self).conflict_at_root(),
                self.context_spec().delims() == old(self).context_spec().delims(),
                self.domains_spec() == old(self).domains_spec(),
                forall|c: Seq<Lit>| old(self).entails(c) ==> #[trigger] self.entails(c),
                self.context_spec().depth_spec() == old(self).context_spec().depth_spec(),
            decreases count - i,
        {
            let lit = self.new_lit();
            lits.push(lit);
            i = i + 1;
        }
        lits
    }
}

impl<P: Propagator> Default for Solver<P> {
    /// A solver without variables, clauses or propagators.
    fn default() -> (solver: Solver<P>)
        ensures
            solver.wf(),
            solver.num_vars() == 0,
            !solver.conflict_at_root(),
            solver.clauses_spec().clauses_spec().len() == 0,
    {
        Solver::new()
    }
}

/// Watches stay valid when the database and the propagators only grow.
pub proof fn lemma_watch_valid_grow(watch: LitWatch<IntEvent>, old_db: ClauseDb, new_db: ClauseDb, old_props: nat, new_props: nat)
    requires
        watch_valid(watch, old_db, old_props),
        old_db.clauses_spec().len() <= new_db.clauses_spec().len(),
        old_props <= new_props,
    ensures
        watch_valid(watch, new_db, new_props),
{
}

/// Exchanging two literals keeps the literals of a clause.
pub proof fn lemma_swap_keeps_lits(c: Seq<Lit>, i: int, j: int)
    requires
        0 <= i < c.len(),
        0 <= j < c.len(),
    ensures
        ({
            let d = c.update(i, c[j]).update(j, c[i]);
            &&& d.len() == c.len()
            &&& forall|l: Lit| d.contains(l) <==> c.contains(l)
            &&& forall|k: int| 0 <= k < d.len() ==> exists|m: int| 0 <= m < c.len() && #[trigger] d[k] == c[m]
        }),
{
    let d = c.update(i, c[j]).update(j, c[i]);
    assert forall|l: Lit| d.contains(l) <==> c.contains(l) by {
        if d.contains(l) {
            let k = choose|k: int| 0 <= k < d.len() && d[k] == l;
            if k == j {
                assert(c[i] == l);
            } else if k == i {
                assert(c[j] == l);
            } else {
                assert(c[k] == l);
            }
        }
        if c.contains(l) {
            let k = choose|k: int| 0 <= k < c.len() && c[k] == l;
            if k == i {
                assert(d[j] == l);
            } else if k == j {
                assert(d[i] == l);
            } else {
                assert(d[k] == l);
            }
        }
    }
    assert forall|k: int| 0 <= k < d.len() implies exists|m: int| 0 <= m < c.len() && #[trigger] d[k] == c[m] by {
        if k == j {
            assert(d[k] == c[i]);
        } else if k == i {
            assert(d[k] == c[j]);
        } else {
            assert(d[k] == c[k]);
        }
    }
}

impl<P: Propagator> Solver<P> {
    /// Watch the first two literals of the clause.
    fn watch_clause(&mut self, clause_ref: ClauseRef)
        requires
            old(self).wf(),
            old(self).clauses.contains(clause_ref),
            forall|x: int| 0 <= x < old(self).watch_list.lit_watches().len() ==> #[trigger] watch_count(old(self).watch_list.lit_watches()[x], clause_ref.index_spec() as int) == 0,
        ensures
            final(self).wf(),
            final(self).clauses == old(self).clauses,
            final(self).context == old(self).context,
            final(self).state == old(self).state,
            final(self).next_var_code == old(self).next_var_code,
            final(self).next_propagation_idx == old(self).next_propagation_idx,
            final(self).propagators == old(self).propagators,
            final(self).propagator_queue == old(self).propagator_queue,
            final(self).domains == old(self).domains,
            final(self).domain_id_pool == old(self).domain_id_pool,
            ({
                let clause = old(self).clauses.clause(clause_ref);
                let w0 = old(self).watch_list.lit_watches();
                let watch = LitWatch::<IntEvent>::Clause(clause_ref);
                let w1 = w0.update(clause[0].code_spec() as int, w0[clause[0].code_spec() as int].push(watch));
                final(self).watch_list.lit_watches() == w1.update(clause[1].code_spec() as int, w1[clause[1].code_spec() as int].push(watch))
            }),
            final(self).watch_list.event_watches() == old(self).watch_list.event_watches(),
    {
        proof {
            reveal(watches_counted);
        }
        let ghost n = self.next_var_code as nat;
        proof {
            assert(self.clauses.clause(clause_ref).len() >= 2);
            assert(lits_below(self.clauses.clauses_spec()[clause_ref.index_spec() as int], n));
        }
        let c0 = self.clauses.lit(clause_ref, 0);
        let c1 = self.clauses.lit(clause_ref, 1);
        self.watch_list.add_lit_watch(c0, LitWatch::Clause(clause_ref));
        let ghost w1 = self.watch_list.lit_watches();
        self.watch_list.add_lit_watch(c1, LitWatch::Clause(clause_ref));
        proof {
            let w = self.watch_list.lit_watches();
            let w0 = old(self).watch_list.lit_watches();
            let db = self.clauses.clauses_spec();
            let watch = LitWatch::<IntEvent>::Clause(clause_ref);
            assert forall|x: int, k: int| 0 <= x < w.len() && 0 <= k < db.len() implies #[trigger] watch_count(w[x], k) <= watched_at(db[k], x) by {
                assert(watch_count(w0[x], k) <= watched_at(db[k], x));
                if x == c0.code_spec() {
                    lemma_watch_count_push(w0[x], watch, k);
                } else {
                    assert(w1[x] == w0[x]);
                }
                if x == c1.code_spec() {
                    lemma_watch_count_push(w1[x], watch, k);
                } else {
                    assert(w[x] == w1[x]);
                }
            }
            assert forall|i: int| 0 <= i < 2 * n implies watches_valid(#[trigger] w[i], self.clauses, self.propagators@.len()) by {
                assert(watches_valid(old(self).watch_list.lit_watches()[i], self.clauses, self.propagators@.len()));
                assert forall|j: int| 0 <= j < w[i].len() implies watch_valid(#[trigger] w[i][j], self.clauses, self.propagators@.len()) by {
                    if j < old(self).watch_list.lit_watches()[i].len() {
                        if i == c1.code_spec() && j == w[i].len() - 1 {
                        } else if i == c0.code_spec() && j >= old(self).watch_list.lit_watches()[i].len() {
                        } else {
                            assert(w[i][j] == old(self).watch_list.lit_watches()[i][j]);
                        }
                    }
                }
            }
        }
    }

    /// Add a clause to the formula. A clause satisfied under the current assignment, or holding a
    /// literal and its negation, is dropped; the empty clause makes the formula unsatisfiable; a
    /// unit clause makes its literal true; a longer clause is added to the database with its
    /// literals sorted and deduplicated, watching its first two literals.
    pub fn add_clause(&mut self, lits: &[Lit])
        requires
            old(self).wf(),
            lits_below(lits@, old(self).num_vars()),
            old(self).clauses_spec().clauses_spec().len() < clause_capacity(),
        ensures
            final(self).wf(),
            final(self).num_vars() == old(self).num_vars(),
            old(self).conflict_at_root() ==> final(self).conflict_at_root(),
            final(self).clauses_spec().clauses_spec().len() <= old(self).clauses_spec().clauses_spec().len() + 1,
            final(self).domains_spec() == old(self).domains_spec(),
            final(self).context_spec().delims() == old(self).context_spec().delims(),
            forall|c: Seq<Lit>| old(self).entails(c) ==> #[trigger] final(self).entails(c),
            old(self).context_spec().depth_spec() == 0 ==> final(self).entails(lits@),
            final(self).context_spec().depth_spec() == old(self).context_spec().depth_spec(),
            final(self).propagators_spec() == old(self).propagators_spec(),
    {
        proof {
            reveal(watches_counted);
        }
        if self.state == State::ConflictAtRoot {
            return;
        }
        let ghost n = self.next_var_code as nat;
        proof {
            self.context.lemma_wf();
            self.context.lemma_root();
        }
        let result = self.preprocessor.preprocess(lits, self.context.assignment());
        match result {
            PreProcessedClause::Satisfiable => {
                proof {
                    if self.context.depth_spec() == 0 && !tautology(lits@) {
                        let i = choose|i: int| 0 <= i < lits@.len() && #[trigger] self.context.assignment_spec().value_spec(lits@[i]) == Some(true);
                        assert(self.context.value_spec(lits@[i]) == Some(true));
                        assert(self.context.root_lits().contains(lits@[i]));
                    }
                }
            },
            PreProcessedClause::Lits(l) => {
                proof {
                    assert forall|i: int| 0 <= i < l@.len() implies (#[trigger] l@[i]).var_code() < n by {
                        assert(l@.contains(l@[i]));
                        assert(lits@.contains(l@[i]));
                    }
                }
                if l.len() == 0 {
                    self.state = State::ConflictAtRoot;
                } else if l.len() > 1 {
                    let ghost old_db = self.clauses;
                    proof {
                        old(self).lemma_fresh_unwatched();
                    }
                    let clause_ref = self.clauses.add_clause(l);
                    proof {
                        let cs = self.clauses.clauses_spec();
                        let wl = self.watch_list.lit_watches();
                        assert forall|x: int, k: int| 0 <= x < wl.len() && 0 <= k < cs.len() implies #[trigger] watch_count(wl[x], k) <= watched_at(cs[k], x) by {
                            if k < old_db.clauses_spec().len() {
                                assert(cs[k] == old_db.clauses_spec()[k]);
                                assert(watch_count(wl[x], k) <= watched_at(old_db.clauses_spec()[k], x));
                            }
                        }
                        assert forall|i: int| 0 <= i < cs.len() implies lits_below(#[trigger] cs[i], n) by {
                            if i < old_db.clauses_spec().len() {
                                assert(cs[i] == old_db.clauses_spec()[i]);
                            }
                        }
                        assert forall|i: int| 0 <= i < cs.len() implies #[trigger] cs[i].len() >= 2 by {
                            if i < old_db.clauses_spec().len() {
                                assert(cs[i] == old_db.clauses_spec()[i]);
                            }
                        }
                        let r = self.context.reasons();
                        assert forall|v: int| 0 <= v < n implies (#[trigger] r[v] matches Reason::Clause(c) ==> self.clauses.contains(c)) by {
                            assert(r[v] matches Reason::Clause(c) ==> old_db.contains(c));
                        }
                        let w = self.watch_list.lit_watches();
                        assert forall|i: int| 0 <= i < 2 * n implies watches_valid(#[trigger] w[i], self.clauses, self.propagators@.len()) by {
                            assert(watches_valid(w[i], old_db, self.propagators@.len()));
                            assert forall|j: int| 0 <= j < w[i].len() implies watch_valid(#[trigger] w[i][j], self.clauses, self.propagators@.len()) by {
                                lemma_watch_valid_grow(w[i][j], old_db, self.clauses, self.propagators@.len(), self.propagators@.len());
                            }
                        }
                    }
                    self.watch_clause(clause_ref);
                    proof {
                        let k = old(self).clauses.clauses_spec().len() as int;
                        assert(self.clauses.clauses_spec()[k] == l@);
                        assert forall|m: int| 0 <= m < l@.len() implies lits@.contains(#[trigger] l@[m]) by {
                            assert(l@.contains(l@[m]));
                        }
                        assert(subclause(self.clauses.clauses_spec()[k], lits@));
                        assert(self.clauses.clauses_spec().subrange(0, k) =~= old(self).clauses.clauses_spec());
                        assert(db_grows(self.clauses, old(self).clauses, n));
                        lemma_grows_keeps(self.clauses, old(self).clauses, n);
                        assert(self.keeps(*old(self)));
                        self.lemma_keeps_entails(*old(self));
                    }
                } else {
                    let unit = l[0];
                    if !self.context.enqueue(unit, Reason::Decision) {
                        self.state = State::ConflictAtRoot;
                    }
                    proof {
                        self.context.lemma_wf();
                        let r = self.context.reasons();
                        assert forall|v: int| 0 <= v < n implies (#[trigger] r[v] matches Reason::Clause(c) ==> self.clauses.contains(c)) by {
                            assert(old(self).context.reasons()[v] matches Reason::Clause(c) ==> self.clauses.contains(c));
                        }
                        if self.state != State::ConflictAtRoot {
                            let old_ctx = old(self).context;
                            assert(self.context.trail_lits().subrange(0, old_ctx.trail_lits().len() as int) =~= old_ctx.trail_lits());
                            assert(self.context.delims().subrange(0, old_ctx.delims().len() as int) =~= old_ctx.delims());
                            self.context.lemma_root();
                            old_ctx.lemma_root_extends(self.context);
                            assert(self.keeps(*old(self)));
                            self.lemma_keeps_entails(*old(self));
                            if old_ctx.depth_spec() == 0 {
                                assert(l@.contains(unit));
                                assert(self.context.root_lits().contains(unit));
                                let j = choose|j: int| 0 <= j < lits@.len() && lits@[j] == unit;
                                assert(self.context.root_lits().contains(lits@[j]));
                            }
                        }
                    }
                }
            },
        }
    }
}

impl<P: Propagator> Solver<P> {
    /// The parts of the solver that propagation leaves alone are unchanged.
    pub closed spec fn same_frame(&self, old: Solver<P>) -> bool {
        &&& self.next_var_code == old.next_var_code
        &&& self.state == old.state
        &&& self.domains == old.domains
        &&& self.domain_id_pool == old.domain_id_pool
        &&& self.propagators@.len() == old.propagators@.len()
        &&& self.clauses.clauses_spec().len() == old.clauses.clauses_spec().len()
        &&& self.context.delims() == old.context.delims()
        &&& self.context.trail_lits().len() >= old.context.trail_lits().len()
        &&& self.context.trail_lits().subrange(0, old.context.trail_lits().len() as int) == old.context.trail_lits()
        &&& self.context.depth_spec() == old.context.depth_spec()
        &&& db_keeps(self.clauses, old.clauses)
    }

    /// Leaving the frame alone is transitive.
    proof fn lemma_same_frame_trans(a: Solver<P>, b: Solver<P>, c: Solver<P>)
        requires
            b.same_frame(a),
            c.same_frame(b),
        ensures
            c.same_frame(a),
    {
        assert(c.context.trail_lits().subrange(0, a.context.trail_lits().len() as int) =~= b.context.trail_lits().subrange(0, a.context.trail_lits().len() as int));
        assert forall|k: int, l: Lit| 0 <= k < a.clauses.clauses_spec().len() && #[trigger] c.clauses.clauses_spec()[k].contains(l) implies a.clauses.clauses_spec()[k].contains(l) by {
            assert(b.clauses.clauses_spec()[k].contains(l));
        }
    }

    /// Leaving the frame alone keeps what the solver entails.
    proof fn lemma_same_frame_keeps(&self, old: Solver<P>)
        requires
            old.wf(),
            self.same_frame(old),
        ensures
            self.keeps(old),
    {
        assert(self.context.delims().subrange(0, old.context.delims().len() as int) =~= old.context.delims());
        old.context.lemma_root();
        old.context.lemma_root_extends(self.context);
    }

    /// Visit a clause which watches a literal that became false: find another literal to
    /// watch, or, when every other literal is false, make the remaining watched literal true.
    /// Returns `false` when that literal is false too: every literal of the clause is false.
    /// `pending` counts the watches of the clause on the false literal's list that are still to be
    /// visited.
    fn propagate_clause(&mut self, clause_ref: ClauseRef, false_lit: Lit, Ghost(pending): Ghost<nat>) -> (ok: bool)
        requires
            old(self).wf(),
            old(self).clauses.contains(clause_ref),
            false_lit.var_code() < old(self).num_vars(),
            old(self).context.value_spec(false_lit) == Some(false),
            watch_count(old(self).watch_list.lit_watches()[false_lit.code_spec() as int], clause_ref.index_spec() as int) + pending + 1
                <= watched_at(old(self).clauses.clause(clause_ref), false_lit.code_spec() as int),
        ensures
            final(self).wf(),
            final(self).same_frame(*old(self)),
            final(self).next_propagation_idx == old(self).next_propagation_idx,
            final(self).propagator_queue == old(self).propagator_queue,
            ({
                let c = final(self).clauses.clause(clause_ref);
                let ctx = final(self).context;
                &&& forall|l: Lit| c.contains(l) <==> old(self).clauses.clause(clause_ref).contains(l)
                &&& c.len() == old(self).clauses.clause(clause_ref).len()
                &&& ok ==> ctx.value_spec(c[0]) == Some(true) || ctx.value_spec(c[1]) != Some(false)
                &&& !ok ==> ctx == old(self).context && forall|i: int| 0 <= i < c.len() ==> #[trigger] ctx.value_spec(c[i]) == Some(false)
            }),
            final(self).clauses.clauses_spec() == old(self).clauses.clauses_spec().update(clause_ref.index_spec() as int, final(self).clauses.clause(clause_ref)),
            watch_count(final(self).watch_list.lit_watches()[false_lit.code_spec() as int], clause_ref.index_spec() as int) + pending
                <= watched_at(final(self).clauses.clause(clause_ref), false_lit.code_spec() as int),
            ({
                let w0 = old(self).watch_list.lit_watches();
                let watch = LitWatch::<IntEvent>::Clause(clause_ref);
                let c = final(self).clauses.clause(clause_ref);
                ||| {
                    &&& final(self).watch_list.lit_watches() == w0.update(false_lit.code_spec() as int, w0[false_lit.code_spec() as int].push(watch))
                    &&& ok ==> final(self).context.value_spec(c[0]) == Some(true)
                }
                ||| {
                    &&& ok
                    &&& final(self).context.value_spec(c[1]) != Some(false)
                    &&& final(self).watch_list.lit_watches() == w0.update(c[1].code_spec() as int, w0[c[1].code_spec() as int].push(watch))
                }
            }),
            final(self).watch_list.event_watches() == old(self).watch_list.event_watches(),
    {
        proof {
            reveal(watches_counted);
        }
        let ghost n = self.next_var_code as nat;
        let ghost nprops = self.propagators@.len();
        proof {
            self.context.lemma_wf();
            assert(self.clauses.clause(clause_ref).len() >= 2);
            assert(lits_below(self.clauses.clauses_spec()[clause_ref.index_spec() as int], n));
        }
        let ghost db0 = self.clauses;
        if self.clauses.lit(clause_ref, 0).code() == false_lit.code() {
            self.clauses.swap_lits(clause_ref, 0, 1);
        }
        proof {
            let cs = self.clauses.clauses_spec();
            let k = clause_ref.index_spec() as int;
            assert(cs.len() == db0.clauses_spec().len());
            if cs != db0.clauses_spec() {
                lemma_swap_keeps_lits(db0.clauses_spec()[k], 0, 1);
            }
            assert forall|i: int| 0 <= i < cs.len() implies lits_below(#[trigger] cs[i], n) && cs[i].len() >= 2 by {
                if i == k && cs != db0.clauses_spec() {
                    assert forall|j: int| 0 <= j < cs[i].len() implies (#[trigger] cs[i][j]).var_code() < n by {
                        let m = choose|m: int| 0 <= m < db0.clauses_spec()[k].len() && cs[i][j] == db0.clauses_spec()[k][m];
                        assert(lits_below(db0.clauses_spec()[k], n));
                    }
                } else {
                    assert(cs[i] == db0.clauses_spec()[i]);
                }
            }
            let r = self.context.reasons();
            assert forall|v: int| 0 <= v < n implies (#[trigger] r[v] matches Reason::Clause(c) ==> self.clauses.contains(c)) by {
                assert(r[v] matches Reason::Clause(c) ==> db0.contains(c));
            }
            let wl = self.watch_list.lit_watches();
            assert forall|x: int, kk: int| 0 <= x < wl.len() && 0 <= kk < cs.len() implies #[trigger] watch_count(wl[x], kk) <= watched_at(cs[kk], x) by {
                assert(watch_count(wl[x], kk) <= watched_at(db0.clauses_spec()[kk], x));
                if kk != k {
                    assert(cs[kk] == db0.clauses_spec()[kk]);
                }
            }
            let w = self.watch_list.lit_watches();
            assert forall|i: int| 0 <= i < 2 * n implies watches_valid(#[trigger] w[i], self.clauses, nprops) by {
                assert(watches_valid(w[i], db0, nprops));
                assert forall|j: int| 0 <= j < w[i].len() implies watch_valid(#[trigger] w[i][j], self.clauses, nprops) by {
                    lemma_watch_valid_grow(w[i][j], db0, self.clauses, nprops, nprops);
                }
            }
            assert(self.wf());
        }
        let ghost c0 = self.clauses.clause(clause_ref);
        proof {
            let old_c = old(self).clauses.clause(clause_ref);
            if c0 != old_c {
                lemma_swap_keeps_lits(old_c, 0, 1);
                assert(c0 == old_c.update(0, old_c[1]).update(1, old_c[0]));
            }
            assert(forall|l: Lit| c0.contains(l) <==> old_c.contains(l));
            assert(old_c[0] == false_lit || old_c[1] == false_lit);
            assert(c0[1] == false_lit);
            assert(watched_at(c0, false_lit.code_spec() as int) == watched_at(old_c, false_lit.code_spec() as int));
            assert(self.clauses.clauses_spec() =~= old(self).clauses.clauses_spec().update(clause_ref.index_spec() as int, c0));
        }
        let first = self.clauses.lit(clause_ref, 0);
        proof {
            assert(lits_below(self.clauses.clauses_spec()[clause_ref.index_spec() as int], n));
        }
        if self.context.lit_value(first) == Some(true) {
            let ghost before = *self;
            self.watch_list.add_lit_watch(false_lit, LitWatch::Clause(clause_ref));
            proof {
                self.lemma_added_valid_watch(before, false_lit, LitWatch::Clause(clause_ref));
                assert(self.context.trail_lits().subrange(0, old(self).context.trail_lits().len() as int) =~= old(self).context.trail_lits());
                lemma_watch_count_push(before.watch_list.lit_watches()[false_lit.code_spec() as int], LitWatch::Clause(clause_ref), clause_ref.index_spec() as int);
            }
            return true;
        }
        let len = self.clauses.clause_len(clause_ref);
        let mut idx: usize = 2;
        proof {
            assert(self.context.trail_lits().subrange(0, old(self).context.trail_lits().len() as int) =~= old(self).context.trail_lits());
        }
        while idx < len
            invariant
                self.wf(),
                n == self.next_var_code,
                nprops == self.propagators@.len(),
                self.clauses.contains(clause_ref),
                len == self.clauses.clause(clause_ref).len(),
                2 <= idx,
                first == self.clauses.clause(clause_ref)[0],
                self.same_frame(*old(self)),
                self.next_propagation_idx == old(self).next_propagation_idx,
                self.propagator_queue == old(self).propagator_queue,
                self.context == old(self).context,
                self.clauses.clause(clause_ref) == c0,
                c0.len() == old(self).clauses.clause(clause_ref).len(),
                forall|l: Lit| c0.contains(l) <==> old(self).clauses.clause(clause_ref).contains(l),
                (old(self).clauses.clause(clause_ref)[0] == false_lit || old(self).clauses.clause(clause_ref)[1] == false_lit) ==> c0[1] == false_lit,
                idx <= len,
                forall|i: int| 2 <= i < idx ==> #[trigger] self.context.value_spec(c0[i]) == Some(false),
                self.context.value_spec(first) != Some(true),
                self.watch_list == old(self).watch_list,
                c0[1] == false_lit,
                old(self).context.value_spec(false_lit) == Some(false),
                watch_count(old(self).watch_list.lit_watches()[false_lit.code_spec() as int], clause_ref.index_spec() as int) + pending + 1
                    <= watched_at(c0, false_lit.code_spec() as int),
                self.clauses.clauses_spec() == old(self).clauses.clauses_spec().update(clause_ref.index_spec() as int, c0),
            decreases len - idx,
        {
            let candidate = self.clauses.lit(clause_ref, idx);
            proof {
                assert(lits_below(self.clauses.clauses_spec()[clause_ref.index_spec() as int], n));
            }
            if self.context.lit_value(candidate) != Some(false) {
                let ghost db1 = self.clauses;
                self.clauses.swap_lits(clause_ref, 1, idx);
                proof {
                    reveal(watches_counted);
                    let cs = self.clauses.clauses_spec();
                    let k = clause_ref.index_spec() as int;
                    lemma_swap_keeps_lits(db1.clauses_spec()[k], 1, idx as int);
                    assert(self.clauses.clause(clause_ref) == c0.update(1, c0[idx as int]).update(idx as int, c0[1]));
                    assert forall|i: int| 0 <= i < cs.len() implies lits_below(#[trigger] cs[i], n) && cs[i].len() >= 2 by {
                        if i == k {
                            assert forall|j: int| 0 <= j < cs[i].len() implies (#[trigger] cs[i][j]).var_code() < n by {
                                let m = choose|m: int| 0 <= m < db1.clauses_spec()[k].len() && cs[i][j] == db1.clauses_spec()[k][m];
                                assert(lits_below(db1.clauses_spec()[k], n));
                            }
                        } else {
                            assert(cs[i] == db1.clauses_spec()[i]);
                        }
                    }
                    let r = self.context.reasons();
                    assert forall|v: int| 0 <= v < n implies (#[trigger] r[v] matches Reason::Clause(c) ==> self.clauses.contains(c)) by {
                        assert(r[v] matches Reason::Clause(c) ==> db1.contains(c));
                    }
                    let w = self.watch_list.lit_watches();
                    assert forall|i: int| 0 <= i < 2 * n implies watches_valid(#[trigger] w[i], self.clauses, nprops) by {
                        assert(watches_valid(w[i], db1, nprops));
                        assert forall|j: int| 0 <= j < w[i].len() implies watch_valid(#[trigger] w[i][j], self.clauses, nprops) by {
                            lemma_watch_valid_grow(w[i][j], db1, self.clauses, nprops, nprops);
                        }
                    }
                    assert(self.wf());
                }
                let new_watch = self.clauses.lit(clause_ref, 1);
                proof {
                    assert(lits_below(self.clauses.clauses_spec()[clause_ref.index_spec() as int], n));
                }
                let ghost before = *self;
                self.watch_list.add_lit_watch(new_watch, LitWatch::Clause(clause_ref));
                proof {
                    self.lemma_added_valid_watch(before, new_watch, LitWatch::Clause(clause_ref));
                    assert(self.context.trail_lits().subrange(0, old(self).context.trail_lits().len() as int) =~= old(self).context.trail_lits());
                }
                return true;
            }
            idx = idx + 1;
        }
        let ghost before = *self;
        self.watch_list.add_lit_watch(false_lit, LitWatch::Clause(clause_ref));
        proof {
            self.lemma_added_valid_watch(before, false_lit, LitWatch::Clause(clause_ref));
            lemma_watch_count_push(before.watch_list.lit_watches()[false_lit.code_spec() as int], LitWatch::Clause(clause_ref), clause_ref.index_spec() as int);
        }
        let ghost before_enqueue = self.context;
        let ok = self.context.enqueue(first, Reason::Clause(clause_ref));
        proof {
            self.context.lemma_wf();
            let r = self.context.reasons();
            assert forall|v: int| 0 <= v < n implies (#[trigger] r[v] matches Reason::Clause(c) ==> self.clauses.contains(c)) by {
                assert(before_enqueue.reasons()[v] matches Reason::Clause(c) ==> self.clauses.contains(c));
            }
            assert(self.context.trail_lits().subrange(0, old(self).context.trail_lits().len() as int) =~= old(self).context.trail_lits());
        }
        ok
    }

    /// After a clause was visited from the list of `false_lit` without a conflict, the list `x`
    /// of `false_lit` or of another false literal `g` still watches only clauses whose first
    /// literal is true, when it did before.
    proof fn lemma_heads_after_visit(&self, mid: Solver<P>, clause_ref: ClauseRef, false_lit: Lit, pending: nat, g: Lit)
        requires
            mid.wf(),
            self.wf(),
            mid.clauses.contains(clause_ref),
            mid.context.value_spec(false_lit) == Some(false),
            watch_count(mid.watch_list.lit_watches()[false_lit.code_spec() as int], clause_ref.index_spec() as int) + pending + 1
                <= watched_at(mid.clauses.clause(clause_ref), false_lit.code_spec() as int),
            self.clauses.clauses_spec() == mid.clauses.clauses_spec().update(clause_ref.index_spec() as int, self.clauses.clause(clause_ref)),
            self.context.trail_lits().len() >= mid.context.trail_lits().len(),
            self.context.trail_lits().subrange(0, mid.context.trail_lits().len() as int) == mid.context.trail_lits(),
            self.next_var_code == mid.next_var_code,
            false_lit.var_code() < mid.next_var_code,
            g.var_code() < mid.next_var_code,
            mid.context.value_spec(g) == Some(false),
            g == false_lit || g.code_spec() != false_lit.code_spec(),
            ({
                let w0 = mid.watch_list.lit_watches();
                let watch = LitWatch::<IntEvent>::Clause(clause_ref);
                let c = self.clauses.clause(clause_ref);
                ||| {
                    &&& self.watch_list.lit_watches() == w0.update(false_lit.code_spec() as int, w0[false_lit.code_spec() as int].push(watch))
                    &&& self.context.value_spec(c[0]) == Some(true)
                }
                ||| {
                    &&& self.context.value_spec(c[1]) != Some(false)
                    &&& self.watch_list.lit_watches() == w0.update(c[1].code_spec() as int, w0[c[1].code_spec() as int].push(watch))
                }
            }),
            heads_true(mid.watch_list.lit_watches()[g.code_spec() as int], mid.clauses, mid.context),
        ensures
            heads_true(self.watch_list.lit_watches()[g.code_spec() as int], self.clauses, self.context),
    {
        reveal(watches_counted);
        let x = g.code_spec() as int;
        let fc = false_lit.code_spec() as int;
        let kc = clause_ref.index_spec() as int;
        let w0 = mid.watch_list.lit_watches();
        let w1 = self.watch_list.lit_watches();
        let watch = LitWatch::<IntEvent>::Clause(clause_ref);
        let c = self.clauses.clause(clause_ref);
        let old_c = mid.clauses.clause(clause_ref);
        mid.context.lemma_wf();
        self.context.lemma_wf();
        self.context.lemma_values_grow(mid.context);
        assert(self.context.value_spec(g) == Some(false));
        assert(mid.watch_list.lit_watches().len() == 2 * mid.next_var_code);
        // No watch of the visited clause stood on the list before, unless it was kept there.
        assert forall|j: int| 0 <= j < w0[x].len() implies !(#[trigger] w0[x][j] matches LitWatch::Clause(d) && d.index_spec() == kc) by {
            if w0[x][j] matches LitWatch::Clause(d) && d.index_spec() == kc {
                lemma_watch_count_pos(w0[x], j, kc);
                assert(mid.context.value_spec(old_c[0]) == Some(true));
                if x == fc {
                    assert(watched_at(old_c, fc) >= 2);
                    assert(old_c[0].code_spec() == fc);
                    assert(old_c[0] == false_lit);
                } else {
                    assert(watch_count(w0[x], kc) <= watched_at(old_c, x));
                    assert(old_c[0] != g);
                    assert(old_c[1] == g);
                    assert(watched_at(old_c, fc) >= 1);
                    assert(old_c[0] != false_lit);
                    assert(old_c[1] == false_lit);
                }
            }
        }
        if w1 == w0.update(fc, w0[fc].push(watch)) && self.context.value_spec(c[0]) == Some(true) {
        } else {
            assert(c[1] != g);
        }
        assert forall|j: int| 0 <= j < w1[x].len() implies (#[trigger] w1[x][j] matches LitWatch::Clause(d) ==> self.context.value_spec(self.clauses.clause(d)[0]) == Some(true)) by {
            if let LitWatch::Clause(d) = w1[x][j] {
                if j < w0[x].len() && w1[x][j] == w0[x][j] {
                    assert(d.index_spec() != kc);
                    assert(self.clauses.clause(d) == mid.clauses.clause(d));
                    let h = mid.clauses.clause(d)[0];
                    assert(mid.context.value_spec(h) == Some(true));
                    assert(lits_below(mid.clauses.clauses_spec()[d.index_spec() as int], mid.next_var_code as nat));
                    self.context.lemma_values_grow(mid.context);
                } else {
                    assert(d == clause_ref);
                }
            }
        }
    }

    /// Clauses whose first literal is true keep it true while the trail only grows and the
    /// watches and clauses stay.
    proof fn lemma_heads_persist(&self, later: Solver<P>, x: int)
        requires
            self.wf(),
            later.wf(),
            later.watch_list == self.watch_list,
            later.clauses == self.clauses,
            later.next_var_code == self.next_var_code,
            later.context.trail_lits().len() >= self.context.trail_lits().len(),
            later.context.trail_lits().subrange(0, self.context.trail_lits().len() as int) == self.context.trail_lits(),
            0 <= x < 2 * self.next_var_code,
            heads_true(self.watch_list.lit_watches()[x], self.clauses, self.context),
        ensures
            heads_true(later.watch_list.lit_watches()[x], later.clauses, later.context),
    {
        let w = self.watch_list.lit_watches()[x];
        self.context.lemma_wf();
        assert forall|j: int| 0 <= j < w.len() implies (#[trigger] w[j] matches LitWatch::Clause(c) ==> later.context.value_spec(later.clauses.clause(c)[0]) == Some(true)) by {
            if let LitWatch::Clause(c) = w[j] {
                assert(watches_valid(w, self.clauses, self.propagators@.len()));
                assert(watch_valid(w[j], self.clauses, self.propagators@.len()));
                assert(lits_below(self.clauses.clauses_spec()[c.index_spec() as int], self.next_var_code as nat));
                later.context.lemma_values_grow(self.context);
            }
        }
    }

    /// A clause beyond the end of the database has no watches.
    proof fn lemma_fresh_unwatched(&self)
        requires
            self.wf(),
        ensures
            forall|x: int, k: int| 0 <= x < self.watch_list.lit_watches().len() && k >= self.clauses.clauses_spec().len()
                ==> #[trigger] watch_count(self.watch_list.lit_watches()[x], k) == 0,
    {
        reveal(watches_counted);
        let w = self.watch_list.lit_watches();
        assert forall|x: int, k: int| 0 <= x < w.len() && k >= self.clauses.clauses_spec().len() implies #[trigger] watch_count(w[x], k) == 0 by {
            assert(watches_valid(w[x], self.clauses, self.propagators@.len()));
            assert forall|j: int| 0 <= j < w[x].len() implies !(#[trigger] w[x][j] matches LitWatch::Clause(c) && c.index_spec() == k) by {
                assert(watch_valid(w[x][j], self.clauses, self.propagators@.len()));
            }
            lemma_watch_count_none(w[x], k);
        }
    }

    /// Adding a valid watch to the list of a known literal keeps the solver consistent.
    proof fn lemma_added_valid_watch(&self, before: Solver<P>, lit: Lit, watch: LitWatch<IntEvent>)
        requires
            before.wf(),
            lit.var_code() < before.next_var_code,
            watch_valid(watch, before.clauses, before.propagators@.len()),
            watch matches LitWatch::Clause(c) ==> watch_count(before.watch_list.lit_watches()[lit.code_spec() as int], c.index_spec() as int) + 1
                <= watched_at(before.clauses.clause(c), lit.code_spec() as int),
            self.watch_list.lit_watches() == before.watch_list.lit_watches().update(
                lit.code_spec() as int,
                before.watch_list.lit_watches()[lit.code_spec() as int].push(watch),
            ),
            self.watch_list.event_watches() == before.watch_list.event_watches(),
            self.clauses == before.clauses,
            self.context == before.context,
            self.analyzer == before.analyzer,
            self.next_var_code == before.next_var_code,
            self.propagators == before.propagators,
            self.propagator_queue == before.propagator_queue,
            self.next_propagation_idx == before.next_propagation_idx,
            self.domains == before.domains,
            self.domain_id_pool == before.domain_id_pool,
        ensures
            self.wf(),
    {
        reveal(watches_counted);
        let n = self.next_var_code as nat;
        let nprops = self.propagators@.len();
        let w = self.watch_list.lit_watches();
        assert forall|i: int| 0 <= i < 2 * n implies watches_valid(#[trigger] w[i], self.clauses, nprops) by {
            assert(watches_valid(before.watch_list.lit_watches()[i], self.clauses, nprops));
            assert forall|j: int| 0 <= j < w[i].len() implies watch_valid(#[trigger] w[i][j], self.clauses, nprops) by {
                if i == lit.code_spec() && j == w[i].len() - 1 {
                } else {
                    assert(w[i][j] == before.watch_list.lit_watches()[i][j]);
                }
            }
        }
        let db = self.clauses.clauses_spec();
        assert forall|x: int, k: int| 0 <= x < w.len() && 0 <= k < db.len() implies #[trigger] watch_count(w[x], k) <= watched_at(db[k], x) by {
            let w0 = before.watch_list.lit_watches();
            assert(watch_count(w0[x], k) <= watched_at(db[k], x));
            if x == lit.code_spec() {
                lemma_watch_count_push(w0[x], watch, k);
            } else {
                assert(w[x] == w0[x]);
            }
        }
    }
}

/// A conflict refers to a clause of the database, or is a valid conflict of a propagator.
pub open spec fn conflict_valid(conflict: Conflict, clauses: ClauseDb, n: nat) -> bool {
    match conflict {
        Conflict::Clause(c) => clauses.contains(c),
        Conflict::Propagator { .. } => propagator_conflict(conflict, n),
    }
}

impl<P: Propagator> Solver<P> {
    /// Visit the watches of the negations of the trail literals not yet propagated: clauses
    /// propagate or report a conflict, propagators are enqueued and keep their watches, so that
    /// they are woken again after a backtrack. A conflict clause has every literal false; on
    /// success, every clause watching the negation of a literal visited here has its first
    /// literal true, every propagator that watched it is queued, and every watch of a
    /// propagator or a domain event is still on its list.
    #[verifier::rlimit(50)]
    #[verifier::spinoff_prover]
    fn propagate_propositional(&mut self) -> (res: Result<(), Conflict>)
        requires
            old(self).wf(),
        ensures
            final(self).wf(),
            final(self).same_frame(*old(self)),
            final(self).next_propagation_idx == final(self).context.trail_lits().len(),
            res matches Err(c) ==> conflict_valid(c, final(self).clauses, final(self).num_vars()),
            res matches Err(c) ==> conflict_found(c, final(self).clauses, final(self).context),
            old(self).next_propagation_idx == old(self).context.trail_lits().len() ==> *final(self) == *old(self) && res is Ok,
            res is Ok ==> forall|q: int| old(self).next_propagation_idx <= q < final(self).context.trail_lits().len()
                    ==> #[trigger] propagators_queued(old(self).watch_list.lit_watches()[final(self).context.trail_lits()[q].negated().code_spec() as int], final(self).propagator_queue.queued()),
            res is Ok ==> forall|q: int| old(self).next_propagation_idx <= q < final(self).context.trail_lits().len()
                    ==> #[trigger] non_clause_kept(old(self).watch_list.lit_watches()[final(self).context.trail_lits()[q].negated().code_spec() as int], final(self).watch_list.lit_watches()[final(self).context.trail_lits()[q].negated().code_spec() as int]),
            res is Ok ==> forall|q: int| old(self).next_propagation_idx <= q < final(self).context.trail_lits().len()
                ==> #[trigger] heads_true(final(self).watch_list.lit_watches()[final(self).context.trail_lits()[q].negated().code_spec() as int], final(self).clauses, final(self).context),
            res is Ok ==> forall|q: int| 0 <= q < old(self).next_propagation_idx && #[trigger] heads_true(old(self).watch_list.lit_watches()[old(self).context.trail_lits()[q].negated().code_spec() as int], old(self).clauses, old(self).context)
                    ==> heads_true(final(self).watch_list.lit_watches()[old(self).context.trail_lits()[q].negated().code_spec() as int], final(self).clauses, final(self).context),
    {
        proof {
            reveal(watches_counted);
        }
        let ghost n = self.next_var_code as nat;
        let ghost nprops = self.propagators@.len();
        proof {
            assert(self.context.trail_lits().subrange(0, old(self).context.trail_lits().len() as int) =~= old(self).context.trail_lits());
        }
        while self.next_propagation_idx < self.context.trail().len()
            invariant
                self.wf(),
                n == self.next_var_code,
                nprops == self.propagators@.len(),
                self.same_frame(*old(self)),
                old(self).next_propagation_idx <= old(self).context.trail_lits().len(),
                old(self).next_propagation_idx == old(self).context.trail_lits().len() ==> *self == *old(self),
                old(self).next_propagation_idx <= self.next_propagation_idx,
                old(self).watch_list.lit_watches().len() == 2 * n,
                forall|q: int| old(self).next_propagation_idx <= q < self.next_propagation_idx
                    ==> #[trigger] non_clause_kept(old(self).watch_list.lit_watches()[self.context.trail_lits()[q].negated().code_spec() as int], self.watch_list.lit_watches()[self.context.trail_lits()[q].negated().code_spec() as int]),
                forall|x: int| 0 <= x < old(self).watch_list.lit_watches().len() && !negation_visited(self.context.trail_lits(), old(self).next_propagation_idx as int, self.next_propagation_idx as int, x)
                    ==> old(self).watch_list.lit_watches()[x].is_prefix_of(#[trigger] self.watch_list.lit_watches()[x]),
                forall|q: int| old(self).next_propagation_idx <= q < self.next_propagation_idx
                    ==> #[trigger] propagators_queued(old(self).watch_list.lit_watches()[self.context.trail_lits()[q].negated().code_spec() as int], self.propagator_queue.queued()),
                forall|q: int| old(self).next_propagation_idx <= q < self.next_propagation_idx
                    ==> #[trigger] heads_true(self.watch_list.lit_watches()[self.context.trail_lits()[q].negated().code_spec() as int], self.clauses, self.context),
                forall|q: int| 0 <= q < old(self).next_propagation_idx && #[trigger] heads_true(old(self).watch_list.lit_watches()[old(self).context.trail_lits()[q].negated().code_spec() as int], old(self).clauses, old(self).context)
                    ==> heads_true(self.watch_list.lit_watches()[old(self).context.trail_lits()[q].negated().code_spec() as int], self.clauses, self.context),
            decreases n - self.next_propagation_idx,
        {
            proof {
                self.context.lemma_wf();
                self.context.lemma_trail_bounded();
            }
            proof {
                assert(self.next_propagation_idx < self.context.trail_lits().len());
                if old(self).next_propagation_idx == old(self).context.trail_lits().len() {
                    assert(*self == *old(self));
                    assert(self.next_propagation_idx == old(self).next_propagation_idx);
                }
                assert(old(self).next_propagation_idx < old(self).context.trail_lits().len());
            }
            let ghost head = *self;
            let trail_lit = self.context.trail().get(self.next_propagation_idx);
            let false_lit = core::ops::Not::not(trail_lit);
            self.next_propagation_idx = self.next_propagation_idx + 1;
            let ghost np = self.next_propagation_idx;
            let ghost fc = false_lit.code_spec() as int;
            let ghost pre = *self;
            let watches = self.watch_list.take(false_lit);
            proof {
                reveal(watches_counted);
                let w = self.watch_list.lit_watches();
                assert(watches_valid(watches@, self.clauses, nprops));
                assert(self.context.trail_lits().len() <= n);
                let db = self.clauses.clauses_spec();
                assert(watches@.subrange(0, watches@.len() as int) =~= watches@);
                assert(w[fc] =~= Seq::<LitWatch<IntEvent>>::empty());
                assert forall|kk: int| 0 <= kk < db.len() implies #[trigger] watch_count(w[fc], kk) + watch_count(watches@.subrange(0, watches@.len() as int), kk) <= watched_at(db[kk], fc) by {
                    assert(watch_count(pre.watch_list.lit_watches()[fc], kk) <= watched_at(db[kk], fc));
                }
                assert forall|x: int, kk: int| 0 <= x < w.len() && 0 <= kk < db.len() implies #[trigger] watch_count(w[x], kk) <= watched_at(db[kk], x) by {
                    assert(watch_count(pre.watch_list.lit_watches()[x], kk) <= watched_at(db[kk], x));
                    if x != fc {
                        assert(w[x] == pre.watch_list.lit_watches()[x]);
                    }
                }
                self.context.lemma_trail_distinct();
                assert forall|q: int| old(self).next_propagation_idx <= q < np - 1
                    implies #[trigger] heads_true(w[self.context.trail_lits()[q].negated().code_spec() as int], self.clauses, self.context) by {
                    assert(self.context.trail_lits()[q].var_code() != self.context.trail_lits()[np - 1].var_code());
                    let x = self.context.trail_lits()[q].negated().code_spec() as int;
                    assert(heads_true(pre.watch_list.lit_watches()[x], pre.clauses, pre.context));
                    assert(w[x] == pre.watch_list.lit_watches()[x]);
                }
                assert forall|q: int| 0 <= q < old(self).next_propagation_idx && #[trigger] heads_true(old(self).watch_list.lit_watches()[old(self).context.trail_lits()[q].negated().code_spec() as int], old(self).clauses, old(self).context)
                    implies heads_true(w[old(self).context.trail_lits()[q].negated().code_spec() as int], self.clauses, self.context) by {
                    assert(self.context.trail_lits()[q] == old(self).context.trail_lits()[q]);
                    assert(self.context.trail_lits()[q].var_code() != self.context.trail_lits()[np - 1].var_code());
                    let x = old(self).context.trail_lits()[q].negated().code_spec() as int;
                    assert(w[x] == pre.watch_list.lit_watches()[x]);
                }
                assert(self.context.trail_lits().subrange(0, old(self).context.trail_lits().len() as int) =~= old(self).context.trail_lits());
                assert(!negation_visited(head.context.trail_lits(), old(self).next_propagation_idx as int, np - 1, fc)) by {
                    if negation_visited(head.context.trail_lits(), old(self).next_propagation_idx as int, np - 1, fc) {
                        let q = choose|q: int| old(self).next_propagation_idx <= q < np - 1 && head.context.trail_lits()[q].negated().code_spec() == fc;
                        assert(self.context.trail_lits()[q].var_code() != self.context.trail_lits()[np - 1].var_code());
                    }
                }
                assert(old(self).watch_list.lit_watches()[fc].is_prefix_of(head.watch_list.lit_watches()[fc]));
                assert forall|x: int| 0 <= x < old(self).watch_list.lit_watches().len() && !negation_visited(self.context.trail_lits(), old(self).next_propagation_idx as int, np as int, x)
                    implies old(self).watch_list.lit_watches()[x].is_prefix_of(#[trigger] self.watch_list.lit_watches()[x]) by {
                    assert(!negation_visited(head.context.trail_lits(), old(self).next_propagation_idx as int, np - 1, x)) by {
                        if negation_visited(head.context.trail_lits(), old(self).next_propagation_idx as int, np - 1, x) {
                            let q = choose|q: int| old(self).next_propagation_idx <= q < np - 1 && head.context.trail_lits()[q].negated().code_spec() == x;
                            assert(negation_visited(self.context.trail_lits(), old(self).next_propagation_idx as int, np as int, x));
                        }
                    }
                    assert(x != fc) by {
                        assert(negation_visited(self.context.trail_lits(), old(self).next_propagation_idx as int, np as int, fc)) by {
                            assert(self.context.trail_lits()[np - 1].negated().code_spec() == fc);
                        }
                    }
                    assert(old(self).watch_list.lit_watches()[x].is_prefix_of(head.watch_list.lit_watches()[x]));
                }
                assert(watches@.subrange(0, 0) =~= Seq::<LitWatch<IntEvent>>::empty());
                assert forall|q: int| old(self).next_propagation_idx <= q < np - 1
                    implies #[trigger] non_clause_kept(old(self).watch_list.lit_watches()[self.context.trail_lits()[q].negated().code_spec() as int], w[self.context.trail_lits()[q].negated().code_spec() as int]) by {
                    assert(self.context.trail_lits()[q].var_code() != self.context.trail_lits()[np - 1].var_code());
                    let x = self.context.trail_lits()[q].negated().code_spec() as int;
                    assert(non_clause_kept(old(self).watch_list.lit_watches()[x], head.watch_list.lit_watches()[x]));
                    assert(w[x] == head.watch_list.lit_watches()[x]);
                }
            }
            let mut i: usize = 0;
            while i < watches.len()
                invariant
                    self.wf(),
                    n == self.next_var_code,
                    nprops == self.propagators@.len(),
                    self.same_frame(*old(self)),
                    false_lit.var_code() < n,
                    i <= watches@.len(),
                    self.next_propagation_idx <= self.context.trail_lits().len(),
                    self.next_propagation_idx == np,
                    np <= n,
                    old(self).next_propagation_idx < old(self).context.trail_lits().len(),
                    forall|j: int| 0 <= j < watches@.len() ==> watch_valid(#[trigger] watches@[j], self.clauses, nprops),
                    fc == false_lit.code_spec(),
                    1 <= np,
                    self.context.trail_lits()[np - 1] == trail_lit,
                    false_lit == trail_lit.negated(),
                    forall|kk: int| 0 <= kk < self.clauses.clauses_spec().len() ==> #[trigger] watch_count(self.watch_list.lit_watches()[fc], kk)
                        + watch_count(watches@.subrange(i as int, watches@.len() as int), kk) <= watched_at(self.clauses.clauses_spec()[kk], fc),
                    old(self).next_propagation_idx <= np - 1,
                    old(self).watch_list.lit_watches().len() == 2 * n,
                    forall|q: int| old(self).next_propagation_idx <= q < np - 1
                        ==> #[trigger] heads_true(self.watch_list.lit_watches()[self.context.trail_lits()[q].negated().code_spec() as int], self.clauses, self.context),
                    heads_true(self.watch_list.lit_watches()[fc], self.clauses, self.context),
                    forall|q: int| 0 <= q < old(self).next_propagation_idx && #[trigger] heads_true(old(self).watch_list.lit_watches()[old(self).context.trail_lits()[q].negated().code_spec() as int], old(self).clauses, old(self).context)
                    ==> heads_true(self.watch_list.lit_watches()[old(self).context.trail_lits()[q].negated().code_spec() as int], self.clauses, self.context),
                    self.context.trail_lits().subrange(0, old(self).context.trail_lits().len() as int) == old(self).context.trail_lits(),
                    forall|x: int| 0 <= x < old(self).watch_list.lit_watches().len() && !negation_visited(self.context.trail_lits(), old(self).next_propagation_idx as int, np as int, x)
                    ==> old(self).watch_list.lit_watches()[x].is_prefix_of(#[trigger] self.watch_list.lit_watches()[x]),
                    forall|q: int| old(self).next_propagation_idx <= q < np - 1
                    ==> #[trigger] propagators_queued(old(self).watch_list.lit_watches()[self.context.trail_lits()[q].negated().code_spec() as int], self.propagator_queue.queued()),
                    propagators_queued(watches@.subrange(0, i as int), self.propagator_queue.queued()),
                    forall|q: int| old(self).next_propagation_idx <= q < np - 1
                    ==> #[trigger] non_clause_kept(old(self).watch_list.lit_watches()[self.context.trail_lits()[q].negated().code_spec() as int], self.watch_list.lit_watches()[self.context.trail_lits()[q].negated().code_spec() as int]),
                    non_clause_kept(watches@.subrange(0, i as int), self.watch_list.lit_watches()[fc]),
                    old(self).watch_list.lit_watches()[fc].is_prefix_of(watches@),
                    np <= self.context.trail_lits().len(),
                decreases watches@.len() - i,
            {
                proof {
                    self.context.lemma_wf();
                    assert(self.context.value_spec(trail_lit) == Some(true));
                    assert(self.context.value_spec(false_lit) == Some(false));
                    assert forall|kk: int| 0 <= kk < self.clauses.clauses_spec().len() implies #[trigger] watch_count(watches@.subrange(i as int, watches@.len() as int), kk)
                        == watch_count(watches@.subrange(i + 1, watches@.len() as int), kk) + if watches@[i as int] matches LitWatch::Clause(c) && c.index_spec() == kk { 1nat } else { 0nat } by {
                        lemma_watch_count_step(watches@, i as int, kk);
                    }
                }
                let ghost before_watch = *self;
                let watch = watches[i];
                let mut conflict: Option<ClauseRef> = None;
                match watch {
                    LitWatch::Clause(clause_ref) => {
                        let ghost db0 = self.clauses;
                        let ghost mid = *self;
                        let ghost kc = clause_ref.index_spec() as int;
                        let ghost p = watch_count(watches@.subrange(i + 1, watches@.len() as int), kc);
                        proof {
                            assert(watch_count(self.watch_list.lit_watches()[fc], kc) + watch_count(watches@.subrange(i as int, watches@.len() as int), kc) <= watched_at(self.clauses.clauses_spec()[kc], fc));
                        }
                        if !self.propagate_clause(clause_ref, false_lit, Ghost(p)) {
                            conflict = Some(clause_ref);
                        }
                        proof {
                            Self::lemma_same_frame_trans(*old(self), mid, *self);
                            self.context.lemma_wf();
                            assert(self.context.trail_lits()[np - 1] == mid.context.trail_lits()[np - 1]);
                            assert(self.context.value_spec(false_lit) == Some(false));
                            let db = self.clauses.clauses_spec();
                            assert forall|kk: int| 0 <= kk < db.len() implies #[trigger] watch_count(self.watch_list.lit_watches()[fc], kk)
                                + watch_count(watches@.subrange(i + 1, watches@.len() as int), kk) <= watched_at(db[kk], fc) by {
                                if kk != kc {
                                    assert(db[kk] == db0.clauses_spec()[kk]);
                                    let w0 = mid.watch_list.lit_watches();
                                    let watch = LitWatch::<IntEvent>::Clause(clause_ref);
                                    if self.watch_list.lit_watches() == w0.update(fc, w0[fc].push(watch)) {
                                        lemma_watch_count_push(w0[fc], watch, kk);
                                    } else {
                                        let c1 = self.clauses.clause(clause_ref)[1];
                                        assert(c1 != false_lit);
                                        assert(self.watch_list.lit_watches()[fc] == w0[fc]);
                                    }
                                }
                            }
                            if conflict is None {
                                let w0 = mid.watch_list.lit_watches();
                                let w1 = self.watch_list.lit_watches();
                                let cw = LitWatch::<IntEvent>::Clause(clause_ref);
                                assert(w0.len() == 2 * n);
                                assert(w0.len() == w1.len());
                                assert forall|x: int| 0 <= x < old(self).watch_list.lit_watches().len() && !negation_visited(self.context.trail_lits(), old(self).next_propagation_idx as int, np as int, x)
                                    implies old(self).watch_list.lit_watches()[x].is_prefix_of(#[trigger] self.watch_list.lit_watches()[x]) by {
                                    lemma_negation_visited_prefix(self.context.trail_lits(), mid.context.trail_lits(), old(self).next_propagation_idx as int, np as int, x);
                                    let a = old(self).watch_list.lit_watches()[x];
                                    assert(a.is_prefix_of(w0[x]));
                                    if w1 == w0.update(fc, w0[fc].push(cw)) {
                                        lemma_prefix_after_push(a, w0, w1, x, fc, cw);
                                    } else {
                                        let y = self.clauses.clause(clause_ref)[1].code_spec() as int;
                                        assert(lits_below(self.clauses.clauses_spec()[clause_ref.index_spec() as int], n));
                                        lemma_prefix_after_push(a, w0, w1, x, y, cw);
                                    }
                                }
                                let yc = if w1 == w0.update(fc, w0[fc].push(cw)) { fc } else { self.clauses.clause(clause_ref)[1].code_spec() as int };
                                assert(w1 == w0.update(yc, w0[yc].push(cw)));
                                assert forall|q: int| old(self).next_propagation_idx <= q < np - 1
                                    implies #[trigger] non_clause_kept(old(self).watch_list.lit_watches()[self.context.trail_lits()[q].negated().code_spec() as int], w1[self.context.trail_lits()[q].negated().code_spec() as int]) by {
                                    assert(self.context.trail_lits()[q] == mid.context.trail_lits()[q]);
                                    let x = mid.context.trail_lits()[q].negated().code_spec() as int;
                                    assert(non_clause_kept(old(self).watch_list.lit_watches()[x], w0[x]));
                                    lemma_kept_after_push(old(self).watch_list.lit_watches()[x], w0, w1, x, yc, cw);
                                }
                                lemma_kept_after_push(watches@.subrange(0, i as int), w0, w1, fc, yc, cw);
                                assert(watches@.subrange(0, i + 1).drop_last() =~= watches@.subrange(0, i as int));
                                assert forall|j: int| 0 <= j < i + 1 && !(#[trigger] watches@.subrange(0, i + 1)[j] is Clause) implies w1[fc].contains(watches@.subrange(0, i + 1)[j]) by {
                                    assert(watches@.subrange(0, i + 1)[j] == watches@.subrange(0, i as int)[j]);
                                }
                                mid.context.lemma_wf();
                                self.lemma_heads_after_visit(mid, clause_ref, false_lit, p, false_lit);
                                mid.context.lemma_trail_distinct();
                                assert forall|q: int| old(self).next_propagation_idx <= q < np - 1
                                    implies #[trigger] heads_true(self.watch_list.lit_watches()[self.context.trail_lits()[q].negated().code_spec() as int], self.clauses, self.context) by {
                                    let g = self.context.trail_lits()[q].negated();
                                    assert(self.context.trail_lits()[q] == mid.context.trail_lits()[q]);
                                    assert(mid.context.trail_lits()[q].var_code() != mid.context.trail_lits()[np - 1].var_code());
                                    assert(heads_true(mid.watch_list.lit_watches()[g.code_spec() as int], mid.clauses, mid.context));
                                    self.lemma_heads_after_visit(mid, clause_ref, false_lit, p, g);
                                }
                                assert forall|q: int| 0 <= q < old(self).next_propagation_idx && #[trigger] heads_true(old(self).watch_list.lit_watches()[old(self).context.trail_lits()[q].negated().code_spec() as int], old(self).clauses, old(self).context)
                                    implies heads_true(self.watch_list.lit_watches()[old(self).context.trail_lits()[q].negated().code_spec() as int], self.clauses, self.context) by {
                                    let g = old(self).context.trail_lits()[q].negated();
                                    assert(mid.context.trail_lits()[q] == old(self).context.trail_lits()[q]);
                                    assert(mid.context.trail_lits()[q].var_code() != mid.context.trail_lits()[np - 1].var_code());
                                    assert(heads_true(mid.watch_list.lit_watches()[g.code_spec() as int], mid.clauses, mid.context));
                                    self.lemma_heads_after_visit(mid, clause_ref, false_lit, p, g);
                                }
                                assert(self.context.trail_lits().subrange(0, old(self).context.trail_lits().len() as int) =~= old(self).context.trail_lits());
                            }
                            assert forall|j: int| 0 <= j < watches@.len() implies watch_valid(#[trigger] watches@[j], self.clauses, nprops) by {
                                lemma_watch_valid_grow(watches@[j], db0, self.clauses, nprops, nprops);
                            }
                        }
                    },
                    LitWatch::Propagator { propagator_id, local_id: _ } => {
                        self.propagator_queue.push(propagator_id);
                        proof {
                            lemma_push_contains(before_watch.propagator_queue.queued(), propagator_id);
                        }
                    },
                    LitWatch::DomainEvent { domain_id: _, event } => {
                        let event_watches = self.watch_list.watches_of_event(event);
                        let mut k: usize = 0;
                        while k < event_watches.len()
                            invariant
                                k <= event_watches@.len(),
                                event_watches@ == self.watch_list.event_watches()[event.index_spec() as int],
                                event.index_spec() < 2,
                                self.wf(),
                                n == self.next_var_code,
                                nprops == self.propagators@.len(),
                                self.same_frame(*old(self)),
                                self.next_propagation_idx <= self.context.trail_lits().len(),
                                self.next_propagation_idx == np,
                                self.context == before_watch.context,
                                self.watch_list == before_watch.watch_list,
                                self.clauses == before_watch.clauses,
                                forall|p: PropagatorId| before_watch.propagator_queue.queued().contains(p) ==> #[trigger] self.propagator_queue.queued().contains(p),
                            decreases event_watches@.len() - k,
                        {
                            let ghost q0 = self.propagator_queue.queued();
                            proof {
                                assert(self.watch_list.event_watches()[event.index_spec() as int][k as int].propagator_id.id_spec() < nprops);
                            }
                            self.propagator_queue.push(event_watches[k].propagator_id);
                            proof {
                                lemma_push_contains(q0, event_watches@[k as int].propagator_id);
                            }
                            k = k + 1;
                        }
                    },
                }
                let readd = match watch {
                    LitWatch::Clause(_) => false,
                    _ => true,
                };
                if readd {
                    let ghost before_readd = *self;
                    proof {
                        assert(watch_valid(watches@[i as int], self.clauses, nprops));
                    }
                    self.watch_list.add_lit_watch(false_lit, watch);
                    proof {
                        self.lemma_added_valid_watch(before_readd, false_lit, watch);
                        let w0 = before_readd.watch_list.lit_watches();
                        let w1 = self.watch_list.lit_watches();
                        assert(w0.len() == 2 * n);
                        assert forall|kk: int| 0 <= kk < self.clauses.clauses_spec().len() implies #[trigger] watch_count(w1[fc], kk)
                            + watch_count(watches@.subrange(i + 1, watches@.len() as int), kk) <= watched_at(self.clauses.clauses_spec()[kk], fc) by {
                            lemma_watch_count_push(w0[fc], watch, kk);
                            assert(watch_count(w0[fc], kk) + watch_count(watches@.subrange(i as int, watches@.len() as int), kk) <= watched_at(self.clauses.clauses_spec()[kk], fc));
                        }
                        assert forall|j: int| 0 <= j < w1[fc].len() implies (#[trigger] w1[fc][j] matches LitWatch::Clause(c) ==> self.context.value_spec(self.clauses.clause(c)[0]) == Some(true)) by {
                            if j < w0[fc].len() {
                                assert(w1[fc][j] == w0[fc][j]);
                            }
                        }
                        assert forall|q: int| old(self).next_propagation_idx <= q < np - 1
                            implies #[trigger] non_clause_kept(old(self).watch_list.lit_watches()[self.context.trail_lits()[q].negated().code_spec() as int], w1[self.context.trail_lits()[q].negated().code_spec() as int]) by {
                            let x = self.context.trail_lits()[q].negated().code_spec() as int;
                            assert(non_clause_kept(old(self).watch_list.lit_watches()[x], w0[x]));
                            lemma_kept_after_push(old(self).watch_list.lit_watches()[x], w0, w1, x, fc, watch);
                        }
                        lemma_kept_after_push(watches@.subrange(0, i as int), w0, w1, fc, fc, watch);
                        assert(watches@.subrange(0, i + 1).drop_last() =~= watches@.subrange(0, i as int));
                        assert(w1[fc][w0[fc].len() as int] == watch);
                        assert forall|j: int| 0 <= j < i + 1 && !(#[trigger] watches@.subrange(0, i + 1)[j] is Clause) implies w1[fc].contains(watches@.subrange(0, i + 1)[j]) by {
                            if j < i {
                                assert(watches@.subrange(0, i + 1)[j] == watches@.subrange(0, i as int)[j]);
                            }
                        }
                        assert forall|x: int| 0 <= x < old(self).watch_list.lit_watches().len() && !negation_visited(self.context.trail_lits(), old(self).next_propagation_idx as int, np as int, x)
                            implies old(self).watch_list.lit_watches()[x].is_prefix_of(#[trigger] w1[x]) by {
                            assert(x != fc) by {
                                assert(negation_visited(self.context.trail_lits(), old(self).next_propagation_idx as int, np as int, fc)) by {
                                    assert(self.context.trail_lits()[np - 1].negated().code_spec() == fc);
                                }
                            }
                            assert(w1[x] == w0[x]);
                        }
                    }
                }
                if let Some(clause_ref) = conflict {
                    let ghost ctx_c = self.context;
                    let ghost clauses_c = self.clauses;
                    let mut j = i + 1;
                    while j < watches.len()
                        invariant
                            self.context == ctx_c,
                            self.clauses == clauses_c,
                            conflict_found(Conflict::Clause(clause_ref), clauses_c, ctx_c),
                            self.wf(),
                            n == self.next_var_code,
                            nprops == self.propagators@.len(),
                            self.same_frame(*old(self)),
                            false_lit.var_code() < n,
                            i < j,
                            self.next_propagation_idx <= self.context.trail_lits().len(),
                            old(self).next_propagation_idx < old(self).context.trail_lits().len(),
                            self.clauses.contains(clause_ref),
                            forall|m: int| 0 <= m < watches@.len() ==> watch_valid(#[trigger] watches@[m], self.clauses, nprops),
                            j <= watches@.len(),
                            fc == false_lit.code_spec(),
                            forall|kk: int| 0 <= kk < self.clauses.clauses_spec().len() ==> #[trigger] watch_count(self.watch_list.lit_watches()[fc], kk)
                                + watch_count(watches@.subrange(j as int, watches@.len() as int), kk) <= watched_at(self.clauses.clauses_spec()[kk], fc),
                        decreases watches@.len() - j,
                    {
                        let ghost before = *self;
                        proof {
                            assert forall|kk: int| 0 <= kk < self.clauses.clauses_spec().len() implies #[trigger] watch_count(watches@.subrange(j as int, watches@.len() as int), kk)
                                == watch_count(watches@.subrange(j + 1, watches@.len() as int), kk) + if watches@[j as int] matches LitWatch::Clause(c) && c.index_spec() == kk { 1nat } else { 0nat } by {
                                lemma_watch_count_step(watches@, j as int, kk);
                            }
                            if let LitWatch::Clause(c) = watches@[j as int] {
                                assert(watch_count(self.watch_list.lit_watches()[fc], c.index_spec() as int)
                                    + watch_count(watches@.subrange(j as int, watches@.len() as int), c.index_spec() as int) <= watched_at(self.clauses.clauses_spec()[c.index_spec() as int], fc));
                            }
                        }
                        self.watch_list.add_lit_watch(false_lit, watches[j]);
                        proof {
                            self.lemma_added_valid_watch(before, false_lit, watches@[j as int]);
                            assert forall|kk: int| 0 <= kk < self.clauses.clauses_spec().len() implies #[trigger] watch_count(self.watch_list.lit_watches()[fc], kk)
                                + watch_count(watches@.subrange(j + 1, watches@.len() as int), kk) <= watched_at(self.clauses.clauses_spec()[kk], fc) by {
                                lemma_watch_count_push(before.watch_list.lit_watches()[fc], watches@[j as int], kk);
                            }
                        }
                        j = j + 1;
                    }
                    self.next_propagation_idx = self.context.trail().len();
                    return Err(Conflict::Clause(clause_ref));
                }
                proof {
                    let qb = before_watch.propagator_queue.queued();
                    let qa = self.propagator_queue.queued();
                    assert(forall|p: PropagatorId| qb.contains(p) ==> #[trigger] qa.contains(p));
                    lemma_queued_grows(watches@.subrange(0, i as int), qb, qa);
                    assert forall|q: int| old(self).next_propagation_idx <= q < np - 1
                        implies #[trigger] propagators_queued(old(self).watch_list.lit_watches()[self.context.trail_lits()[q].negated().code_spec() as int], qa) by {
                        assert(self.context.trail_lits()[q] == before_watch.context.trail_lits()[q]);
                        lemma_queued_grows(old(self).watch_list.lit_watches()[self.context.trail_lits()[q].negated().code_spec() as int], qb, qa);
                    }
                    assert(watches@.subrange(0, i + 1).drop_last() =~= watches@.subrange(0, i as int));
                    assert forall|j: int| 0 <= j < i + 1 implies (#[trigger] watches@.subrange(0, i + 1)[j] matches LitWatch::Propagator { propagator_id, .. } ==> qa.contains(propagator_id)) by {
                        if j < i {
                            assert(watches@.subrange(0, i + 1)[j] == watches@.subrange(0, i as int)[j]);
                        }
                    }
                }
                i = i + 1;
            }
            proof {
                self.context.lemma_trail_bounded();
            }
        }
        Ok(())
    }
}

impl<P: Propagator> Solver<P> {
    /// Run one propagator on the current state.
    fn propagate_propagator(&mut self, propagator_id: PropagatorId) -> (res: Result<(), Conflict>)
        requires
            old(self).wf(),
            propagator_id.id_spec() < old(self).propagators@.len(),
        ensures
            final(self).wf(),
            final(self).same_frame(*old(self)),
            final(self).next_propagation_idx == old(self).next_propagation_idx,
            final(self).propagator_queue == old(self).propagator_queue,
            final(self).watch_list == old(self).watch_list,
            final(self).clauses == old(self).clauses,
            res matches Err(c) ==> conflict_valid(c, final(self).clauses, final(self).num_vars()),
            res matches Err(c) ==> conflict_found(c, final(self).clauses, final(self).context),
    {
        let ghost n = self.next_var_code as nat;
        let ghost before = self.context;
        let propagator = self.propagators.get_mut(propagator_id);
        let res = propagator.propagate(&mut self.context, &self.domains);
        proof {
            self.context.lemma_wf();
            before.lemma_wf();
            let r = self.context.reasons();
            assert forall|v: int| 0 <= v < n implies (#[trigger] r[v] matches Reason::Clause(c) ==> self.clauses.contains(c)) by {
                assert(r[v] == before.reasons()[v] || r[v] is Explanation);
                assert(before.reasons()[v] matches Reason::Clause(c) ==> self.clauses.contains(c));
            }
            assert(self.next_propagation_idx <= self.context.trail_lits().len());
        }
        res
    }

    /// Propagate until nothing changes or a conflict is found: the literals on the trail, then
    /// the queued propagators one by one, each followed by the literals it made true. On success,
    /// every clause watching the negation of a literal propagated here has its first literal
    /// true.
    fn propagate(&mut self) -> (res: Result<(), Conflict>)
        requires
            old(self).wf(),
        ensures
            final(self).wf(),
            final(self).same_frame(*old(self)),
            res is Ok ==> final(self).next_propagation_idx == final(self).context.trail_lits().len(),
            res matches Err(c) ==> conflict_valid(c, final(self).clauses, final(self).num_vars()),
            res matches Err(c) ==> conflict_found(c, final(self).clauses, final(self).context),
            res is Ok ==> forall|q: int| old(self).next_propagation_idx <= q < final(self).context.trail_lits().len()
                ==> #[trigger] heads_true(final(self).watch_list.lit_watches()[final(self).context.trail_lits()[q].negated().code_spec() as int], final(self).clauses, final(self).context),
    {
        let ghost n = self.next_var_code as nat;
        match self.propagate_propositional() {
            Err(conflict) => {
                return Err(conflict);
            },
            Ok(()) => {},
        }
        loop
            invariant
                self.wf(),
                n == self.next_var_code,
                self.same_frame(*old(self)),
                self.next_propagation_idx == self.context.trail_lits().len(),
                old(self).next_propagation_idx <= self.next_propagation_idx,
                forall|q: int| old(self).next_propagation_idx <= q < self.context.trail_lits().len()
                    ==> #[trigger] heads_true(self.watch_list.lit_watches()[self.context.trail_lits()[q].negated().code_spec() as int], self.clauses, self.context),
            decreases n - self.context.trail_lits().len(), self.propagator_queue.queued().len(),
        {
            proof {
                self.context.lemma_trail_bounded();
            }
            let ghost mid0 = *self;
            let next = self.propagator_queue.pop();
            match next {
                None => {
                    return Ok(());
                },
                Some(propagator_id) => {
                    let ghost mid1 = *self;
                    proof {
                        assert(self.context.trail_lits().subrange(0, mid0.context.trail_lits().len() as int) =~= mid0.context.trail_lits());
                    }
                    match self.propagate_propagator(propagator_id) {
                        Err(conflict) => {
                            proof {
                                Self::lemma_same_frame_trans(*old(self), mid1, *self);
                            }
                            return Err(conflict);
                        },
                        Ok(()) => {},
                    }
                    let ghost mid2 = *self;
                    proof {
                        Self::lemma_same_frame_trans(*old(self), mid1, *self);
                    }
                    match self.propagate_propositional() {
                        Err(conflict) => {
                            proof {
                                Self::lemma_same_frame_trans(*old(self), mid2, *self);
                            }
                            return Err(conflict);
                        },
                        Ok(()) => {},
                    }
                    proof {
                        Self::lemma_same_frame_trans(*old(self), mid2, *self);
                        self.context.lemma_trail_bounded();
                        mid0.context.lemma_wf();
                        mid2.context.lemma_wf();
                        assert forall|q: int| old(self).next_propagation_idx <= q < self.context.trail_lits().len()
                            implies #[trigger] heads_true(self.watch_list.lit_watches()[self.context.trail_lits()[q].negated().code_spec() as int], self.clauses, self.context) by {
                            if q < mid2.next_propagation_idx {
                                let x = mid0.context.trail_lits()[q].negated().code_spec() as int;
                                assert(mid2.context.trail_lits()[q] == mid0.context.trail_lits()[q]);
                                assert(self.context.trail_lits()[q] == mid2.context.trail_lits()[q]);
                                assert(heads_true(mid0.watch_list.lit_watches()[x], mid0.clauses, mid0.context));
                                assert(mid1.context == mid0.context);
                                mid1.lemma_heads_persist(mid2, x);
                                assert(heads_true(mid2.watch_list.lit_watches()[mid2.context.trail_lits()[q].negated().code_spec() as int], mid2.clauses, mid2.context));
                            }
                        }
                    }
                },
            }
        }
    }
}

impl<P: Propagator> Solver<P> {
    /// Every variable has a value and the assignment satisfies every clause of the database.
    pub closed spec fn complete(&self) -> bool {
        &&& forall|v: nat| v < self.next_var_code ==> (#[trigger] self.context.assignment_spec().var_value(v)) is Some
        &&& forall|k: int| 0 <= k < self.clauses.clauses_spec().len() ==> self.context.assignment_spec().satisfies(#[trigger] self.clauses.clauses_spec()[k])
    }

    /// The answer when the brancher has no decision left: the current assignment as a solution
    /// when it gives every variable a value and satisfies every clause of the database, and
    /// [`SolveResult::Unknown`] otherwise.
    fn answer_complete(&self) -> (result: SolveResult<'_>)
        requires
            self.wf(),
        ensures
            result is Satisfiable <==> self.complete(),
            result is Satisfiable || result is Unknown,
            result matches SolveResult::Satisfiable(solution) ==> {
                &&& solution.wf()
                &&& solution.num_vars() == self.num_vars()
                &&& solution.assignment_spec() == self.context_spec().assignment_spec()
                &&& forall|k: int| 0 <= k < self.clauses_spec().clauses_spec().len() ==> solution.assignment_spec().satisfies(#[trigger] self.clauses_spec().clauses_spec()[k])
                &&& solution.domains_spec() == self.domains_spec()
                &&& self.admits(solution.assignment_spec())
            },
    {
        let ghost n = self.next_var_code as nat;
        let mut v: u32 = 0;
        while v < self.next_var_code
            invariant
                self.wf(),
                n == self.next_var_code,
                v <= self.next_var_code,
                forall|c: nat| c < v ==> (#[trigger] self.context.assignment_spec().var_value(c)) is Some,
            decreases self.next_var_code - v,
        {
            let lit = Lit::positive(Var::new_unchecked(v));
            proof {
                self.context.lemma_wf();
            }
            if self.context.lit_value(lit).is_none() {
                return SolveResult::Unknown;
            }
            v = v + 1;
        }
        proof {
            self.context.lemma_wf();
            let cs = self.clauses.clauses_spec();
            assert forall|k: int, i: int| 0 <= k < cs.len() && 0 <= i < cs[k].len() implies self.context.assignment_spec().holds(#[trigger] cs[k][i]) by {
                assert(lits_below(cs[k], n));
            }
        }
        if !self.clauses.all_satisfied(self.context.assignment()) {
            return SolveResult::Unknown;
        }
        proof {
            self.context.lemma_root();
            let a = self.context.assignment_spec();
            assert(self.admits(a));
        }
        let solution = Solution {
            assignment: self.context.assignment(),
            domains: &self.domains,
            next_new_var_code: self.next_var_code,
        };
        SolveResult::Satisfiable(solution)
    }

    /// Take a decision of the brancher: when its literal is over a known variable that has no
    /// value, open a new decision level on which the literal is true and return `true`;
    /// otherwise change nothing and return `false`.
    fn apply_decision(&mut self, decision: Lit) -> (accepted: bool)
        requires
            old(self).wf(),
        ensures
            final(self).wf(),
            accepted == (decision.var_code() < old(self).num_vars() && old(self).context.value_spec(decision) is None),
            !accepted ==> *final(self) == *old(self),
            accepted ==> {
                &&& final(self).context.trail_lits() == old(self).context.trail_lits().push(decision)
                &&& final(self).context.depth_spec() == old(self).context.depth_spec() + 1
                &&& final(self).context.value_spec(decision) == Some(true)
            },
            final(self).keeps(*old(self)),
            final(self).domains == old(self).domains,
            final(self).next_var_code == old(self).next_var_code,
            final(self).clauses == old(self).clauses,
            final(self).watch_list == old(self).watch_list,
    {
        let ghost n = self.next_var_code as nat;
        proof {
            self.context.lemma_wf();
            assert(self.context.trail_lits().subrange(0, self.context.trail_lits().len() as int) =~= self.context.trail_lits());
            assert(self.context.delims().subrange(0, self.context.delims().len() as int) =~= self.context.delims());
            self.context.lemma_root();
            self.context.lemma_root_extends(self.context);
        }
        if decision.var().code() >= self.next_var_code {
            return false;
        }
        if self.context.lit_value(decision).is_some() {
            return false;
        }
        let ghost before = self.context;
        proof {
            before.lemma_trail_bounded();
        }
        self.context.decide(decision);
        proof {
            self.context.lemma_wf();
            let r = self.context.reasons();
            assert forall|v: int| 0 <= v < n implies (#[trigger] r[v] matches Reason::Clause(c) ==> self.clauses.contains(c)) by {
                assert(before.reasons()[v] matches Reason::Clause(c) ==> self.clauses.contains(c));
            }
            before.lemma_root();
            self.context.lemma_root();
            assert(self.context.trail_lits().subrange(0, before.trail_lits().len() as int) =~= before.trail_lits());
            assert(self.context.delims().subrange(0, before.delims().len() as int) =~= before.delims());
            assert(self.context.delims()[before.delims().len() as int] == before.trail_lits().len());
            before.lemma_root_extends(self.context);
        }
        true
    }
}

impl<P: Propagator> Solver<P> {
    /// Search for an assignment that satisfies the clauses. Propagation alternates with
    /// decisions from the brancher; a conflict is analyzed into a learned clause, after which the
    /// search jumps back and makes the asserting literal true. The search stops when the
    /// terminator says so.
    ///
    /// Without variables (and without a conflict at the root) the empty assignment is the
    /// solution at once. A solution assigns every variable and satisfies every clause of the
    /// database. The formula is reported unsatisfiable only on a conflict at the root level: a
    /// clause of the database whose literals are all false there, so that no assignment making
    /// the root literals true satisfies the database, or a propagator whose literal is false
    /// there while its explanation holds. When the brancher has no decision left, the answer is
    /// the current assignment if it gives every variable a value and satisfies the database, and
    /// [`SolveResult::Unknown`] otherwise. When the brancher proposes an unknown or assigned
    /// literal, or the database is full, the answer is [`SolveResult::Unknown`].
    pub fn solve<T: Terminator, B: Brancher>(&mut self, terminator: T, brancher: B) -> (result: SolveResult<'_>)
        requires
            old(self).wf(),
        ensures
            final(self).wf(),
            final(self).num_vars() == old(self).num_vars(),
            old(self).conflict_at_root() ==> result is Unsatisfiable,
            !old(self).conflict_at_root() && old(self).num_vars() == 0 ==> result is Satisfiable,
            result matches SolveResult::Satisfiable(solution) ==> {
                &&& solution.wf()
                &&& solution.num_vars() == final(self).num_vars()
                &&& solution.assignment_spec() == final(self).context_spec().assignment_spec()
                &&& forall|k: int| 0 <= k < final(self).clauses_spec().clauses_spec().len() ==> solution.assignment_spec().satisfies(#[trigger] final(self).clauses_spec().clauses_spec()[k])
                &&& solution.domains_spec() == final(self).domains_spec()
            },
            final(self).domains_spec() == old(self).domains_spec(),
            forall|c: Seq<Lit>| old(self).entails(c) ==> #[trigger] final(self).entails(c),
            result is Unsatisfiable ==> old(self).conflict_at_root() || {
                &&& final(self).context_spec().depth_spec() == 0
                &&& exists|c: Conflict| conflict_valid(c, final(self).clauses_spec(), final(self).num_vars())
                    && #[trigger] conflict_found(c, final(self).clauses_spec(), final(self).context_spec())
            },
            result is Unsatisfiable ==> old(self).conflict_at_root() || (forall|a: Assignment| !#[trigger] final(self).admits(a)) || {
                &&& final(self).context_spec().depth_spec() == 0
                &&& exists|c: Conflict| c is Propagator && conflict_valid(c, final(self).clauses_spec(), final(self).num_vars())
                    && #[trigger] conflict_found(c, final(self).clauses_spec(), final(self).context_spec())
            },
            result matches SolveResult::Satisfiable(solution) ==> {
                &&& old(self).admits(solution.assignment_spec())
                &&& forall|c: Seq<Lit>| old(self).entails(c) ==> #[trigger] solution.assignment_spec().satisfies(c)
            },
    {
        let mut brancher = brancher;
        if self.state == State::ConflictAtRoot {
            proof {
                self.lemma_keeps_entails(*old(self));
            }
            return SolveResult::Unsatisfiable;
        }
        let ghost n = self.next_var_code as nat;
        if self.next_var_code == 0 {
            proof {
                assert forall|k: int| 0 <= k < self.clauses.clauses_spec().len() implies self.context.assignment_spec().satisfies(#[trigger] self.clauses.clauses_spec()[k]) by {
                    assert(lits_below(self.clauses.clauses_spec()[k], 0));
                    assert(self.clauses.clauses_spec()[k].len() >= 2);
                    assert(self.clauses.clauses_spec()[k][0].var_code() < 0);
                }
                assert(self.complete());
                old(self).context.lemma_root();
            }
            let result = self.answer_complete();
            proof {
                if let SolveResult::Satisfiable(ref solution) = result {
                    let a = solution.assignment_spec();
                    assert forall|c: Seq<Lit>| old(self).entails(c) implies #[trigger] a.satisfies(c) by {
                        old(self).lemma_admitted_satisfies(a, c);
                    }
                }
            }
            return result;
        }
        let mut code: u32 = 0;
        while code < self.next_var_code
            invariant
                code <= self.next_var_code,
                self.next_var_code <= var_capacity(),
            decreases self.next_var_code - code,
        {
            brancher.on_new_var(Var::new_unchecked(code));
            code = code + 1;
        }
        let mut budget: u64 = u64::MAX;
        while budget > 0
            invariant
                self.wf(),
                n == self.next_var_code,
                n == old(self).num_vars(),
                n > 0,
                !old(self).conflict_at_root(),
                self.domains_spec() == old(self).domains_spec(),
                self.keeps(*old(self)),
            decreases budget,
        {
            budget = budget - 1;
            if terminator.should_stop() {
                proof {
                    self.lemma_keeps_entails(*old(self));
                }
                return SolveResult::Unknown;
            }
            let ghost before_propagation = *self;
            let propagated = self.propagate();
            proof {
                self.lemma_same_frame_keeps(before_propagation);
                Self::lemma_keeps_trans(*old(self), before_propagation, *self);
            }
            match propagated {
                Err(conflict) => {
                    proof {
                        self.context.lemma_wf();
                        self.context.lemma_trail_bounded();
                        self.lemma_keeps_entails(*old(self));
                    }
                    if self.context.search_tree().is_at_root() {
                        proof {
                            assert(conflict_valid(conflict, self.clauses_spec(), self.num_vars()) && conflict_found(conflict, self.clauses_spec(), self.context_spec()));
                            if conflict is Clause {
                                assert forall|a: Assignment| !#[trigger] self.admits(a) by {
                                    self.lemma_root_conflict_admits_nothing(conflict, a);
                                }
                            }
                        }
                        return SolveResult::Unsatisfiable;
                    }
                    let num_clauses = self.clauses.num_clauses() as u64;
                    let trail_len = self.context.trail().len() as u64;
                    if num_clauses >= 0xffff_fffcu64 || trail_len >= 0xffff_fffcu64 - num_clauses {
                        return SolveResult::Unknown;
                    }
                    let ghost before_learning = *self;
                    let ghost db0 = self.clauses;
                    let confl = match conflict {
                        Conflict::Clause(clause_ref) => clause_ref,
                        Conflict::Propagator { lit, explanation } => {
                            let lits = explained_clause(lit, &explanation);
                            proof {
                                assert forall|k: int| 0 <= k < lits@.len() implies (#[trigger] lits@[k]).var_code() < n by {
                                    if k > 0 {
                                        assert(lits@[k] == explanation@[k - 1].negated());
                                    }
                                }
                            }
                            self.clauses.add_explanation_clause(lits.as_slice())
                        },
                    };
                    proof {
                        let cs = self.clauses.clauses_spec();
                        if cs.len() > db0.clauses_spec().len() {
                            assert forall|i: int| 0 <= i < cs.len() implies lits_below(#[trigger] cs[i], n) && cs[i].len() >= 2 by {
                                if i < db0.clauses_spec().len() {
                                    assert(cs[i] == db0.clauses_spec()[i]);
                                }
                            }
                        }
                        assert(cs.subrange(0, db0.clauses_spec().len() as int) =~= db0.clauses_spec());
                        let r = self.context.reasons();
                        assert forall|v: int| 0 <= v < n implies (#[trigger] r[v] matches Reason::Clause(c) ==> self.clauses.contains(c)) by {
                            assert(r[v] matches Reason::Clause(c) ==> db0.contains(c));
                        }
                    }
                    let ghost db1 = self.clauses;
                    let analysis = self.analyzer.analyze(
                        confl,
                        &mut self.clauses,
                        self.context.implication_graph(),
                        self.context.search_tree(),
                        self.context.trail(),
                        &mut brancher,
                    );
                    let learned = analysis.learned_clause;
                    let backjump_level = analysis.backjump_level;
                    if learned.len() == 0 {
                        proof {
                            lemma_db_grows_trans(self.clauses, db1, db0, n);
                            self.lemma_db_grown(db0);
                            lemma_grows_keeps(self.clauses, db0, n);
                            Self::lemma_keeps_trans(*old(self), before_learning, *self);
                            self.lemma_keeps_entails(*old(self));
                        }
                        return SolveResult::Unknown;
                    }
                    let asserting = learned[0];
                    let ghost db2 = self.clauses;
                    let reason = if learned.len() > 1 {
                        let clause_ref = self.clauses.add_learned_clause(learned);
                        proof {
                            let cs = self.clauses.clauses_spec();
                            assert forall|i: int| 0 <= i < cs.len() implies lits_below(#[trigger] cs[i], n) && cs[i].len() >= 2 by {
                                if i < db2.clauses_spec().len() {
                                    assert(cs[i] == db2.clauses_spec()[i]);
                                }
                            }
                        }
                        Reason::Clause(clause_ref)
                    } else {
                        Reason::Decision
                    };
                    proof {
                        assert(self.clauses.clauses_spec().subrange(0, db2.clauses_spec().len() as int) =~= db2.clauses_spec());
                        lemma_db_grows_trans(db2, db1, db0, n);
                        lemma_db_grows_trans(self.clauses, db2, db0, n);
                        self.lemma_db_grown(db0);
                    }
                    if let Reason::Clause(clause_ref) = reason {
                        self.watch_clause(clause_ref);
                    }
                    proof {
                        lemma_grows_keeps(self.clauses, db0, n);
                        Self::lemma_keeps_trans(*old(self), before_learning, *self);
                    }
                    if backjump_level >= self.context.search_tree().depth() {
                        proof {
                            self.lemma_keeps_entails(*old(self));
                        }
                        return SolveResult::Unknown;
                    }
                    let ghost before_backjump = *self;
                    proof {
                        self.context.lemma_wf();
                    }
                    let ghost before_bt = self.context;
                    self.context.backtrack_to(backjump_level, &mut brancher);
                    self.next_propagation_idx = self.context.trail().len();
                    let ghost before_enq = self.context;
                    let ok = self.context.enqueue(asserting, reason);
                    proof {
                        self.context.lemma_wf();
                        let r = self.context.reasons();
                        assert forall|v: int| 0 <= v < n implies (#[trigger] r[v] matches Reason::Clause(c) ==> self.clauses.contains(c)) by {
                            assert(before_bt.reasons()[v] matches Reason::Clause(c) ==> self.clauses.contains(c));
                            assert(before_enq.reasons()[v] == before_bt.reasons()[v]);
                        }
                        before_bt.lemma_root_backtrack(before_enq, backjump_level as int);
                        before_enq.lemma_root();
                        assert(self.context.delims().subrange(0, before_enq.delims().len() as int) =~= before_enq.delims());
                        if before_enq.value_spec(asserting) is None {
                            assert(self.context.trail_lits().subrange(0, before_enq.trail_lits().len() as int) =~= before_enq.trail_lits());
                        } else {
                            assert(self.context.trail_lits().subrange(0, before_enq.trail_lits().len() as int) =~= before_enq.trail_lits());
                        }
                        self.context.lemma_root();
                        before_enq.lemma_root_extends(self.context);
                        assert(self.keeps(before_backjump));
                        Self::lemma_keeps_trans(*old(self), before_backjump, *self);
                    }
                    if !ok {
                        proof {
                            self.lemma_keeps_entails(*old(self));
                        }
                        return SolveResult::Unknown;
                    }
                    brancher.on_conflict();
                },
                Ok(()) => {
                    proof {
                        self.context.lemma_wf();
                        self.lemma_keeps_entails(*old(self));
                    }
                    match brancher.next_decision(self.context.assignment()) {
                        Some(decision) => {
                            let ghost before_decision = *self;
                            if !self.apply_decision(decision) {
                                proof {
                                    self.lemma_keeps_entails(*old(self));
                                }
                                return SolveResult::Unknown;
                            }
                            proof {
                                Self::lemma_keeps_trans(*old(self), before_decision, *self);
                            }
                        },
                        None => {
                            let result = self.answer_complete();
                            proof {
                                if let SolveResult::Satisfiable(ref solution) = result {
                                    let a = solution.assignment_spec();
                                    self.lemma_keeps_admits(*old(self), a);
                                    assert forall|c: Seq<Lit>| old(self).entails(c) implies #[trigger] a.satisfies(c) by {
                                        old(self).lemma_admitted_satisfies(a, c);
                                    }
                                }
                                self.lemma_keeps_entails(*old(self));
                            }
                            return result;
                        },
                    }
                },
            }
        }
        proof {
            self.lemma_keeps_entails(*old(self));
        }
        SolveResult::Unknown
    }

    /// After the database grew with clauses over known variables, the solver is consistent
    /// again.
    proof fn lemma_db_grown(&self, db0: ClauseDb)
        requires
            db_grows(self.clauses, db0, self.next_var_code as nat),
            forall|i: int| 0 <= i < 2 * self.next_var_code ==> watches_valid(#[trigger] self.watch_list.lit_watches()[i], db0, self.propagators@.len()),
            reasons_in(self.context.reasons(), db0, self.next_var_code as nat),
            self.watch_list.lit_watches().len() == 2 * self.next_var_code,
            watches_counted(self.watch_list.lit_watches(), db0.clauses_spec()),
        ensures
            forall|i: int| 0 <= i < 2 * self.next_var_code ==> watches_valid(#[trigger] self.watch_list.lit_watches()[i], self.clauses, self.propagators@.len()),
            reasons_in(self.context.reasons(), self.clauses, self.next_var_code as nat),
            watches_counted(self.watch_list.lit_watches(), self.clauses.clauses_spec()),
            forall|x: int, k: int| 0 <= x < self.watch_list.lit_watches().len() && k >= db0.clauses_spec().len()
                ==> #[trigger] watch_count(self.watch_list.lit_watches()[x], k) == 0,
    {
        reveal(watches_counted);
        let n = self.next_var_code as nat;
        let nprops = self.propagators@.len();
        let w = self.watch_list.lit_watches();
        assert forall|i: int| 0 <= i < 2 * n implies watches_valid(#[trigger] w[i], self.clauses, nprops) by {
            assert(watches_valid(w[i], db0, nprops));
            assert forall|j: int| 0 <= j < w[i].len() implies watch_valid(#[trigger] w[i][j], self.clauses, nprops) by {
                lemma_watch_valid_grow(w[i][j], db0, self.clauses, nprops, nprops);
            }
        }
        let r = self.context.reasons();
        assert forall|v: int| 0 <= v < n implies (#[trigger] r[v] matches Reason::Clause(c) ==> self.clauses.contains(c)) by {
            assert(r[v] matches Reason::Clause(c) ==> db0.contains(c));
        }
        let old_len = db0.clauses_spec().len();
        assert forall|x: int, k: int| 0 <= x < w.len() && k >= old_len implies #[trigger] watch_count(w[x], k) == 0 by {
            assert(watches_valid(w[x], db0, nprops));
            assert forall|j: int| 0 <= j < w[x].len() implies !(#[trigger] w[x][j] matches LitWatch::Clause(c) && c.index_spec() == k) by {
                assert(watch_valid(w[x][j], db0, nprops));
            }
            lemma_watch_count_none(w[x], k);
        }
        let cs = self.clauses.clauses_spec();
        assert forall|x: int, k: int| 0 <= x < w.len() && 0 <= k < cs.len() implies #[trigger] watch_count(w[x], k) <= watched_at(cs[k], x) by {
            if k < old_len {
                assert(cs[k] == cs.subrange(0, old_len as int)[k]);
                assert(watch_count(w[x], k) <= watched_at(db0.clauses_spec()[k], x));
            }
        }
    }
}

impl<P: Propagator> Solver<P> {
    /// Add the propagator the factory creates: it registers the literals and domain events it
    /// watches, and it is queued for propagation whenever one of them happens.
    pub fn add_propagator<F: PropagatorFactory<P>>(&mut self, factory: F) -> (added: bool)
        requires
            old(self).wf(),
            factory.fits(old(self).watch_list_spec(), old(self).domains_spec().len()),
            old(self).num_propagators() + 1 < usize::MAX / 8,
        ensures
            added,
            final(self).wf(),
            final(self).num_propagators() == old(self).num_propagators() + 1,
            final(self).num_vars() == old(self).num_vars(),
            final(self).clauses_spec() == old(self).clauses_spec(),
            final(self).context_spec() == old(self).context_spec(),
            final(self).domains_spec() == old(self).domains_spec(),
            final(self).conflict_at_root() == old(self).conflict_at_root(),
            forall|c: Seq<Lit>| old(self).entails(c) ==> #[trigger] final(self).entails(c),
            final(self).propagators_spec().len() == old(self).propagators_spec().len() + 1,
            final(self).propagators_spec().subrange(0, old(self).propagators_spec().len() as int) == old(self).propagators_spec(),
            factory.builds(final(self).propagators_spec().last()),
    {
        proof {
            reveal(watches_counted);
        }
        let ghost nprops = self.propagators@.len();
        let ghost old_watch = self.watch_list;
        let slot = self.propagators.new_ref();
        let id = slot.id();
        proof {
            self.propagator_queue.lemma_queued_capacity();
        }
        self.propagator_queue.grow_to(id);
        let mut watch_list = WatchList::new();
        std::mem::swap(&mut watch_list, &mut self.watch_list);
        let mut registrar = VariableRegistrar::new(id, watch_list);
        let propagator = factory.create(&mut registrar, Ghost(self.domains.domains_spec().len()));
        self.watch_list = registrar.watch_list;
        slot.allocate(propagator);
        proof {
            assert(self.watch_list.extends_with(old_watch, id));
            let n = self.next_var_code as nat;
            let w = self.watch_list.lit_watches();
            assert forall|i: int| 0 <= i < 2 * n implies watches_valid(#[trigger] w[i], self.clauses, nprops + 1) by {
                assert(watches_valid(old_watch.lit_watches()[i], self.clauses, nprops));
                assert forall|j: int| 0 <= j < w[i].len() implies watch_valid(#[trigger] w[i][j], self.clauses, nprops + 1) by {
                    if j < old_watch.lit_watches()[i].len() && w[i][j] == old_watch.lit_watches()[i][j] {
                        lemma_watch_valid_grow(w[i][j], self.clauses, self.clauses, nprops, nprops + 1);
                    }
                }
            }
            let db = self.clauses.clauses_spec();
            let ow = old_watch.lit_watches();
            assert forall|x: int, k: int| 0 <= x < w.len() && 0 <= k < db.len() implies #[trigger] watch_count(w[x], k) <= watched_at(db[k], x) by {
                assert(watch_count(ow[x], k) <= watched_at(db[k], x));
                assert forall|j: int| 0 <= j < w[x].len() && (#[trigger] w[x][j] matches LitWatch::Clause(c) && c.index_spec() == k) implies j < ow[x].len() && w[x][j] == ow[x][j] by {
                    assert(!watch_of(w[x][j], id));
                }
                lemma_watch_count_le(w[x], ow[x], k);
            }
            let e = self.watch_list.event_watches();
            assert forall|i: int, j: int| 0 <= i < 2 && 0 <= j < e[i].len() implies (#[trigger] e[i][j]).propagator_id.id_spec() < nprops + 1 by {
                if j < old_watch.event_watches()[i].len() && e[i][j] == old_watch.event_watches()[i][j] {
                }
            }
            self.lemma_keeps_entails(*old(self));
        }
        true
    }
}

/// The number of literals of an interval domain with the bounds: one for each value, and one
/// more for the value above the upper bound.
pub open spec fn interval_literals(lower: Int, upper: Int) -> nat {
    (if upper >= lower { upper - lower } else { lower - upper }) as nat + 2
}

impl<P: Propagator> Solver<P> {
    /// Create an integer variable with the bounds of the factory. Its literal at position `i`
    /// stands for `[x >= lower + i]`; the clauses `[x >= v] -> [x >= v - 1]` for the values above
    /// the lower bound, `![x >= upper + 1]` and `[x >= lower]` tie the literals together.
    #[verifier::rlimit(60)]
    #[verifier::spinoff_prover]
    pub fn new_domain(&mut self, factory: IntIntervalFactory) -> (id: DomainId<IntInterval>)
        requires
            old(self).wf(),
            factory.upper_bound < Int::MAX,
            old(self).num_vars() + interval_literals(factory.lower_bound, factory.upper_bound) <= var_capacity(),
            old(self).clauses_spec().clauses_spec().len() + interval_literals(factory.lower_bound, factory.upper_bound) < clause_capacity(),
            old(self).domains_spec().len() + 1 < usize::MAX,
        ensures
            final(self).wf(),
            final(self).num_vars() == old(self).num_vars() + interval_literals(factory.lower_bound, factory.upper_bound),
            final(self).domains_spec().len() == old(self).domains_spec().len() + 1,
            final(self).domains_spec().subrange(0, old(self).domains_spec().len() as int) == old(self).domains_spec(),
            id.index_spec() == old(self).domains_spec().len(),
            ({
                let d = final(self).domains_spec()[id.index_spec() as int];
                &&& d.min_spec() == factory.lower_bound
                &&& d.max_spec() == factory.upper_bound
                &&& d.origin_spec() == factory.lower_bound
                &&& d.literals_spec().len() == interval_literals(factory.lower_bound, factory.upper_bound)
                &&& forall|i: int| 0 <= i < d.literals_spec().len() ==> (#[trigger] d.literals_spec()[i]).var_code() == old(self).num_vars() + i && d.literals_spec()[i].positive_spec()
            }),
            old(self).conflict_at_root() ==> final(self).conflict_at_root(),
            forall|c: Seq<Lit>| old(self).entails(c) ==> #[trigger] final(self).entails(c),
            old(self).context_spec().depth_spec() == 0 ==> {
                let d = final(self).domains_spec()[id.index_spec() as int];
                &&& forall|v: Int| factory.lower_bound < v <= factory.upper_bound ==> final(self).entails(seq![(#[trigger] d.literal_spec(v)).negated(), d.literal_spec((v - 1) as Int)])
                &&& final(self).entails(seq![d.literal_spec((factory.upper_bound + 1) as Int).negated()])
                &&& final(self).entails(seq![d.literal_spec(factory.lower_bound)])
            },
            final(self).context_spec().depth_spec() == old(self).context_spec().depth_spec(),
    {
        let lower = factory.lower_bound;
        let upper = factory.upper_bound;
        let diff: u64 = if upper >= lower { (upper as i64 - lower as i64) as u64 } else { (lower as i64 - upper as i64) as u64 };
        let count: usize = (diff + 2) as usize;
        let ghost n0 = self.next_var_code as nat;
        let ghost db0 = self.clauses.clauses_spec().len();
        let literals = self.new_lits(count);
        let domain = IntInterval::from_literals(lower, upper, literals);
        proof {
            self.context.lemma_wf();
            old(self).context.lemma_wf();
        }
        let mut v: i64 = lower as i64 + 1;
        while v <= upper as i64
            invariant
                self.wf(),
                self.num_vars() == n0 + count,
                domain.literals_spec().len() == count,
                count == interval_literals(lower, upper),
                forall|i: int| 0 <= i < count ==> (#[trigger] domain.literals_spec()[i]).var_code() == n0 + i && domain.literals_spec()[i].positive_spec(),
                domain.min_spec() == lower,
                domain.max_spec() == upper,
                domain.origin_spec() == lower,
                lower as i64 + 1 <= v,
                v <= upper as i64 + 1 || v == lower as i64 + 1,
                self.clauses_spec().clauses_spec().len() <= db0 + (v - lower - 1),
                db0 + count < clause_capacity(),
                self.domains_spec() == old(self).domains_spec(),
                old(self).conflict_at_root() ==> self.conflict_at_root(),
                upper < Int::MAX,
                forall|c: Seq<Lit>| old(self).entails(c) ==> #[trigger] self.entails(c),
                self.context_spec().depth_spec() == old(self).context_spec().depth_spec(),
                old(self).context_spec().depth_spec() == 0 ==> forall|w: Int| lower < w < v ==> self.entails(seq![(#[trigger] domain.literal_spec(w)).negated(), domain.literal_spec((w - 1) as Int)]),
            decreases upper as i64 + 1 - v,
        {
            let above = core::ops::Not::not(domain.literal(v as i32));
            let below = domain.literal((v - 1) as i32);
            let clause = [above, below];
            proof {
                assert(clause@.len() == 2);
                assert forall|k: int| 0 <= k < clause@.len() implies (#[trigger] clause@[k]).var_code() < self.num_vars() by {}
                assert(clause@ =~= seq![domain.literal_spec(v as Int).negated(), domain.literal_spec((v - 1) as Int)]);
            }
            let ghost before = *self;
            self.add_clause(&clause);
            proof {
                if old(self).context_spec().depth_spec() == 0 {
                    assert forall|w: Int| lower < w < v + 1 implies self.entails(seq![(#[trigger] domain.literal_spec(w)).negated(), domain.literal_spec((w - 1) as Int)]) by {
                        if w < v {
                            assert(before.entails(seq![domain.literal_spec(w).negated(), domain.literal_spec((w - 1) as Int)]));
                        }
                    }
                }
            }
            v = v + 1;
        }
        let not_above = [core::ops::Not::not(domain.literal((upper as i64 + 1) as i32))];
        proof {
            assert(not_above@ =~= seq![domain.literal_spec((upper + 1) as Int).negated()]);
            self.context.lemma_wf();
        }
        self.add_clause(&not_above);
        proof {
            self.context.lemma_wf();
        }
        let at_lower = [domain.literal(lower)];
        proof {
            assert(at_lower@ =~= seq![domain.literal_spec(lower)]);
            self.context.lemma_wf();
        }
        self.add_clause(&at_lower);
        let ghost before = *self;
        let untyped = self.domain_id_pool.next_id();
        let id = self.domains.allocate(untyped, domain);
        proof {
            self.lemma_keeps_entails(before);
            assert(self.domains_spec()[id.index_spec() as int] == domain);
            let n = self.next_var_code as nat;
            let d = self.domains.domains_spec().len();
            assert forall|i: int| 0 <= i < self.propagators@.len() implies (#[trigger] self.propagators@[i]).valid(n, d) by {
                self.propagators@[i].lemma_valid_grows(n, (d - 1) as nat, n, d);
            }
            if old(self).context_spec().depth_spec() == 0 {
                assert forall|w: Int| lower < w <= upper implies self.entails(seq![(#[trigger] domain.literal_spec(w)).negated(), domain.literal_spec((w - 1) as Int)]) by {
                    assert(before.entails(seq![domain.literal_spec(w).negated(), domain.literal_spec((w - 1) as Int)]));
                }
            }
        }
        id
    }
}

} // verus!
