//! The constraint programming solver: propagation to a fixpoint, and depth-first search over the
//! branches a brancher creates.
use std::collections::VecDeque;

use vstd::prelude::*;

use super::domains::store::views_of;
use super::domains::{BitSetDomain, Domain, DomainStore, Domains, GlobalDomainId};
use super::propagator_queue::PropagatorQueue;
use super::propagators::{PropagationResult, Propagator, PropagatorId, PropagatorRegistration, PropagatorStore};
use super::search::{Branch, Brancher};
use super::variables::{IntVar, Variable, VariableStore};

verus! {

/// The variables of the solver.
pub type SolverVar = IntVar<BitSetDomain, Domains, PropagatorRegistration>;

/// Whether the last search found a solution.
#[derive(PartialEq, Eq, Structural, Clone, Copy, Debug)]
enum State {
    Finished,
    Solution,
}

/// A step of the search: descend into a branch, or undo the last descent.
pub enum Action {
    Branch(Branch<SolverVar>),
    Backtrack,
}

/// The number of backtracks among the actions.
pub open spec fn backtracks(actions: Seq<Action>) -> nat
    decreases actions.len(),
{
    if actions.len() == 0 {
        0
    } else {
        (if actions[0] is Backtrack { 1nat } else { 0nat }) + backtracks(actions.subrange(1, actions.len() as int))
    }
}

/// An action put in front adds one backtrack when it is one.
pub proof fn lemma_backtracks_front(a: Action, rest: Seq<Action>)
    ensures
        backtracks(seq![a] + rest) == (if a is Backtrack { 1nat } else { 0nat }) + backtracks(rest),
{
    assert((seq![a] + rest).subrange(1, (seq![a] + rest).len() as int) =~= rest);
}

/// The queue after reacting to the updated domains, in order: the propagators watching each
/// updated domain that has watches are appended to the queue.
pub open spec fn reaction(queued: Seq<PropagatorId>, watches: Seq<Seq<PropagatorId>>, updated: Seq<GlobalDomainId>) -> Seq<PropagatorId>
    decreases updated.len(),
{
    if updated.len() == 0 {
        queued
    } else {
        let before = reaction(queued, watches, updated.drop_last());
        let d = updated.last().index_spec();
        if d < watches.len() {
            before + watches[d as int]
        } else {
            before
        }
    }
}

/// A constraint programming solver over integer variables with bit set domains, and the
/// propagators of type `P` posted to it.
pub struct Solver<P> {
    domains: Domains,
    propagators: PropagatorStore<P>,
    state: State,
    propagator_queue: PropagatorQueue,
    saved_stores: Ghost<Seq<Domains>>,
}

/// The result of a search.
pub enum SolveOutcome<'solver, P, B> {
    Satisfiable(SolutionIterator<'solver, P, B>),
    Unsatisfiable,
}

/// Goes through the solutions one after the other.
pub struct SolutionIterator<'solver, P, B> {
    solver: &'solver mut Solver<P>,
    brancher: B,
    search_on_next: bool,
    actions: VecDeque<Action>,
}

/// A solution: the domains of the solver when the search found it.
pub struct Solution<'solver, P> {
    solver: &'solver Solver<P>,
}

impl<P: Propagator<Domains, PropagatorRegistration>> Solver<P> {
    /// The solver is consistent: its store is, its propagators can work on it and on every saved
    /// state, and the queue and the watches name posted propagators only.
    pub closed spec fn wf(&self) -> bool {
        let n = self.propagators@.len();
        &&& self.domains.store_wf()
        &&& forall|i: int| 0 <= i < n ==> (#[trigger] self.propagators@[i]).prop_wf(&self.domains)
        &&& self.saved_stores@.len() == self.domains.saved().len()
        &&& forall|k: int| 0 <= k < self.saved_stores@.len() ==> {
            &&& views_of((#[trigger] self.saved_stores@[k]).domains_spec()) == self.domains.saved()[k]
            &&& self.saved_stores@[k].store_wf()
        }
        &&& forall|k: int, i: int| 0 <= k < self.saved_stores@.len() && 0 <= i < n ==> #[trigger] self.propagators@[i].prop_wf(&self.saved_stores@[k])
        &&& forall|q: int| 0 <= q < self.propagator_queue.queued().len() ==> (#[trigger] self.propagator_queue.queued()[q]).index_spec() < n
        &&& forall|d: int, w: int| 0 <= d < self.propagator_queue.watches().len() && 0 <= w < self.propagator_queue.watches()[d].len() ==> (#[trigger] self.propagator_queue.watches()[d][w]).index_spec() < n
    }

    /// The domains of the solver.
    pub closed spec fn domains_spec(&self) -> Domains {
        self.domains
    }

    /// The propagators of the solver.
    pub closed spec fn propagators_spec(&self) -> Seq<P> {
        self.propagators@
    }

    /// The number of saved states.
    pub closed spec fn depth(&self) -> nat {
        self.domains.saved().len()
    }

    /// Whether the last search ended with a solution; otherwise it ended because no branch was
    /// left to try, or because its step budget ran out.
    pub closed spec fn found_solution(&self) -> bool {
        self.state == State::Solution
    }

    /// Whether propagation is at a fixpoint: no propagator waits to run.
    pub closed spec fn at_fixpoint(&self) -> bool {
        self.propagator_queue.queued().len() == 0
    }

    /// A solver without variables or propagators.
    pub fn new() -> (solver: Solver<P>)
        ensures
            solver.wf(),
            solver.depth() == 0,
            solver.domains_spec().domains_spec().len() == 0,
            solver.domains_spec().allocated() == 0,
            solver.propagators_spec().len() == 0,
    {
        Solver {
            domains: Domains::new(),
            propagators: PropagatorStore::default(),
            state: State::Finished,
            propagator_queue: PropagatorQueue::new(),
            saved_stores: Ghost(Seq::empty()),
        }
    }

    /// The domains of the solver.
    pub fn domains(&self) -> (domains: &Domains)
        ensures
            *domains == self.domains_spec(),
    {
        &self.domains
    }

    /// Create a variable with the domain.
    pub fn new_int_var(&mut self, domain: BitSetDomain) -> (var: SolverVar)
        requires
            old(self).wf(),
            old(self).depth() == 0,
            domain.domain_wf(),
            old(self).domains_spec().has_room(),
        ensures
            final(self).wf(),
            final(self).depth() == 0,
            var.var_wf(&final(self).domains_spec()),
            forall|v: int| #[trigger] var.contains(&final(self).domains_spec(), v) == domain.contains(v),
            var.size_spec(&final(self).domains_spec()) == domain.size_spec(),
            final(self).propagators_spec() == old(self).propagators_spec(),
            final(self).domains_spec().allocated() == old(self).domains_spec().allocated() + 1,
    {
        let ghost d0 = self.domains;
        let id = self.domains.allocate(domain);
        let global = id.global_id();
        if global.index() < usize::MAX {
            self.propagator_queue.on_new_domain(global);
        }
        proof {
            assert forall|i: int| 0 <= i < self.propagators@.len() implies (#[trigger] self.propagators@[i]).prop_wf(&self.domains) by {
                assert(d0.narrows(&self.domains));
                self.propagators@[i].lemma_prop_shrink(&d0, &self.domains);
            }
            assert forall|d: int, w: int| 0 <= d < self.propagator_queue.watches().len() && 0 <= w < self.propagator_queue.watches()[d].len() implies (#[trigger] self.propagator_queue.watches()[d][w]).index_spec() < self.propagators@.len() by {
                if d < old(self).propagator_queue.watches().len() {
                    assert(self.propagator_queue.watches()[d] == old(self).propagator_queue.watches()[d]);
                }
            }
        }
        IntVar::from_domain(id)
    }

    /// Post a propagator: register the domains it watches and propagate.
    pub fn post(&mut self, propagator: P) -> (res: PropagationResult)
        requires
            old(self).wf(),
            old(self).depth() == 0,
            propagator.prop_wf(&old(self).domains_spec()),
        ensures
            final(self).wf(),
            final(self).depth() == 0,
            final(self).propagators_spec().len() == old(self).propagators_spec().len() + 1,
            old(self).domains_spec().shrinks(&final(self).domains_spec()),
    {
        let id = self.propagators.allocate(propagator);
        let mut ctx = PropagatorRegistration(Vec::new());
        let p = self.propagators.get_mut(id);
        p.initialize(&mut ctx);
        let ghost d0 = self.domains;
        let res = p.propagate(&mut self.domains);
        proof {
            d0.lemma_shrinks_narrows(&self.domains);
            self.lemma_props_after_shrink(d0);
        }
        let registered = ctx.0;
        let mut k: usize = 0;
        while k < registered.len()
            invariant
                self.wf(),
                self.depth() == 0,
                k <= registered@.len(),
                id.index_spec() < self.propagators@.len(),
                self.propagators@.len() == old(self).propagators@.len() + 1,
                old(self).domains.shrinks(&self.domains),
            decreases registered@.len() - k,
        {
            let domain = registered[k];
            if domain.index() < self.propagator_queue.num_watched() {
                self.propagator_queue.register_watch(domain, id);
                proof {
                    assert forall|d: int, w: int| 0 <= d < self.propagator_queue.watches().len() && 0 <= w < self.propagator_queue.watches()[d].len() implies (#[trigger] self.propagator_queue.watches()[d][w]).index_spec() < self.propagators@.len() by {
                        if d != domain.index_spec() || w < self.propagator_queue.watches()[d].len() - 1 {
                        }
                    }
                }
            }
            k = k + 1;
        }
        if res.branch() {
            return PropagationResult::Inconsistent;
        }
        let ghost d1 = self.domains;
        let res = self.propagate();
        proof {
            old(self).domains.lemma_shrinks_trans(&d1, &self.domains);
        }
        res
    }
}

impl<P: Propagator<Domains, PropagatorRegistration>> Solver<P> {
    /// After the domains shrank from `d0`, the propagators that could work on `d0` can work on
    /// them.
    proof fn lemma_props_after_shrink(&self, d0: Domains)
        requires
            forall|i: int| 0 <= i < self.propagators@.len() ==> (#[trigger] self.propagators@[i]).prop_wf(&d0),
            d0.narrows(&self.domains),
        ensures
            forall|i: int| 0 <= i < self.propagators@.len() ==> (#[trigger] self.propagators@[i]).prop_wf(&self.domains),
    {
        assert forall|i: int| 0 <= i < self.propagators@.len() implies (#[trigger] self.propagators@[i]).prop_wf(&self.domains) by {
            self.propagators@[i].lemma_prop_shrink(&d0, &self.domains);
        }
    }

    /// Enqueue the propagators watching the domains that shrank.
    fn react_to_updated_domains(&mut self)
        requires
            old(self).wf(),
        ensures
            final(self).wf(),
            final(self).depth() == old(self).depth(),
            old(self).domains.shrinks(&final(self).domains),
            final(self).propagators@ == old(self).propagators@,
            final(self).propagator_queue.queued().len() >= old(self).propagator_queue.queued().len(),
            final(self).propagator_queue.queued() == reaction(old(self).propagator_queue.queued(), old(self).propagator_queue.watches(), old(self).domains.updated()),
            final(self).propagator_queue.watches() == old(self).propagator_queue.watches(),
            final(self).domains.domains_spec() == old(self).domains.domains_spec(),
            final(self).domains.updated().len() == 0,
    {
        let updated = self.domains.drain_updated_domains();
        proof {
            old(self).domains.lemma_shrinks_refl();
            assert(old(self).domains.shrinks(&self.domains));
            old(self).domains.lemma_shrinks_narrows(&self.domains);
            self.lemma_props_after_shrink(old(self).domains);
        }
        let mut k: usize = 0;
        while k < updated.len()
            invariant
                self.wf(),
                self.depth() == old(self).depth(),
                old(self).domains.shrinks(&self.domains),
                self.propagators@ == old(self).propagators@,
                self.propagator_queue.queued().len() >= old(self).propagator_queue.queued().len(),
                k <= updated@.len(),
                updated@ == old(self).domains.updated(),
                self.propagator_queue.queued() == reaction(old(self).propagator_queue.queued(), old(self).propagator_queue.watches(), updated@.subrange(0, k as int)),
                self.propagator_queue.watches() == old(self).propagator_queue.watches(),
                self.domains.domains_spec() == old(self).domains.domains_spec(),
                self.domains.updated().len() == 0,
            decreases updated@.len() - k,
        {
            proof {
                assert(updated@.subrange(0, k + 1).drop_last() =~= updated@.subrange(0, k as int));
            }
            let domain = updated[k];
            if domain.index() < self.propagator_queue.num_watched() {
                let ghost q0 = self.propagator_queue.queued();
                self.propagator_queue.react(domain);
                proof {
                    let n = self.propagators@.len();
                    let w = old(self).propagator_queue.watches();
                    assert forall|q: int| 0 <= q < self.propagator_queue.queued().len() implies (#[trigger] self.propagator_queue.queued()[q]).index_spec() < n by {
                        if q >= q0.len() {
                            assert(self.propagator_queue.queued()[q] == self.propagator_queue.watches()[domain.index_spec() as int][q - q0.len()]);
                        }
                    }
                }
            }
            k = k + 1;
        }
        proof {
            assert(updated@.subrange(0, updated@.len() as int) =~= updated@);
        }
    }

    /// Run the propagators in the queue until none is left or one finds a domain empty.
    /// Propagation of a node is given up, as inconsistent, after `u64::MAX` steps.
    fn propagate(&mut self) -> (res: PropagationResult)
        requires
            old(self).wf(),
        ensures
            final(self).wf(),
            final(self).depth() == old(self).depth(),
            old(self).domains.shrinks(&final(self).domains),
            final(self).propagators@.len() == old(self).propagators@.len(),
            res == PropagationResult::Consistent ==> final(self).at_fixpoint(),
    {
        proof {
            old(self).domains.lemma_shrinks_refl();
        }
        let mut budget: u64 = u64::MAX;
        while budget > 0
            invariant
                self.wf(),
                self.depth() == old(self).depth(),
                old(self).domains.shrinks(&self.domains),
                self.propagators@.len() == old(self).propagators@.len(),
            decreases budget,
        {
            budget = budget - 1;
            match self.propagator_queue.pop() {
                None => {
                    return PropagationResult::Consistent;
                },
                Some(id) => {
                    let ghost d0 = self.domains;
                    let ghost props0 = self.propagators@;
                    let p = self.propagators.get_mut(id);
                    let r = p.propagate(&mut self.domains);
                    proof {
                        let i0 = id.index_spec() as int;
                        d0.lemma_shrinks_narrows(&self.domains);
                        assert forall|i: int| 0 <= i < self.propagators@.len() implies (#[trigger] self.propagators@[i]).prop_wf(&self.domains) by {
                            props0[i].lemma_prop_shrink(&d0, &self.domains);
                        }
                        assert forall|k: int, i: int| 0 <= k < self.saved_stores@.len() && 0 <= i < self.propagators@.len() implies #[trigger] self.propagators@[i].prop_wf(&self.saved_stores@[k]) by {
                            assert(props0[i].prop_wf(&self.saved_stores@[k]));
                        }
                        old(self).domains.lemma_shrinks_trans(&d0, &self.domains);
                    }
                    if r.branch() {
                        return PropagationResult::Inconsistent;
                    }
                    let ghost d1 = self.domains;
                    self.react_to_updated_domains();
                    proof {
                        old(self).domains.lemma_shrinks_trans(&d1, &self.domains);
                    }
                },
            }
        }
        PropagationResult::Inconsistent
    }

    /// Return to the last saved state.
    fn backtrack(&mut self)
        requires
            old(self).wf(),
        ensures
            final(self).wf(),
            old(self).depth() > 0 ==> final(self).depth() == old(self).depth() - 1,
            old(self).depth() > 0 ==> views_of(final(self).domains.domains_spec()) == old(self).domains.saved().last(),
            old(self).depth() > 0 ==> final(self).domains.saved() == old(self).domains.saved().drop_last(),
            old(self).depth() == 0 ==> final(self).depth() == 0,
            final(self).propagators@ == old(self).propagators@,
    {
        self.domains.pop();
        proof {
            let n = self.propagators@.len();
            if old(self).depth() > 0 {
                let last = self.saved_stores@.last();
                let k = self.saved_stores@.len() - 1;
                self.saved_stores@ = self.saved_stores@.drop_last();
                last.lemma_same_views(&self.domains);
                assert(last.narrows(&self.domains));
                assert forall|i: int| 0 <= i < n implies (#[trigger] self.propagators@[i]).prop_wf(&self.domains) by {
                    assert(self.propagators@[i].prop_wf(&last));
                    self.propagators@[i].lemma_prop_shrink(&last, &self.domains);
                }
                assert forall|j: int| 0 <= j < self.saved_stores@.len() implies {
                    &&& views_of((#[trigger] self.saved_stores@[j]).domains_spec()) == self.domains.saved()[j]
                    &&& self.saved_stores@[j].store_wf()
                } by {
                    assert(self.saved_stores@[j] == old(self).saved_stores@[j]);
                }
                assert forall|j: int, i: int| 0 <= j < self.saved_stores@.len() && 0 <= i < n implies #[trigger] self.propagators@[i].prop_wf(&self.saved_stores@[j]) by {
                    assert(self.saved_stores@[j] == old(self).saved_stores@[j]);
                }
            } else {
                old(self).domains.lemma_same_views(&self.domains);
                assert(old(self).domains.narrows(&self.domains));
                self.lemma_props_after_shrink(old(self).domains);
            }
        }
    }

    /// Save the current state.
    fn save(&mut self)
        requires
            old(self).wf(),
        ensures
            final(self).wf(),
            final(self).depth() == old(self).depth() + 1,
            final(self).domains.domains_spec() == old(self).domains.domains_spec(),
            final(self).domains.saved() == old(self).domains.saved().push(views_of(old(self).domains.domains_spec())),
            final(self).propagators@ == old(self).propagators@,
            final(self).propagator_queue == old(self).propagator_queue,
    {
        let ghost d0 = self.domains;
        self.domains.push();
        proof {
            self.saved_stores@ = self.saved_stores@.push(d0);
            d0.lemma_same_views(&self.domains);
            assert(d0.narrows(&self.domains));
            self.lemma_props_after_shrink(d0);
        }
    }
}

impl<P: Propagator<Domains, PropagatorRegistration>> Solver<P> {
    /// Ask the brancher for branches and put them in front of the actions, followed by the
    /// backtrack that undoes them; the last branch is tried first. Returns whether there were
    /// branches.
    fn add_branches<B: Brancher<Domains, Var = SolverVar>>(&self, actions: &mut VecDeque<Action>, brancher: &mut B) -> (branched: bool)
        requires
            self.wf(),
        ensures
            !branched ==> final(actions)@ == old(actions)@,
            !branched ==> final(brancher).finished(&self.domains),
            branched ==> final(actions)@.len() > old(actions)@.len(),
            branched ==> backtracks(final(actions)@) == backtracks(old(actions)@) + 1,
    {
        match brancher.branch(&self.domains) {
            Some(branches) => {
                actions.push_front(Action::Backtrack);
                proof {
                    lemma_backtracks_front(Action::Backtrack, old(actions)@);
                }
                let mut branches = branches;
                let mut k: usize = 0;
                let n = branches.len();
                while k < n
                    invariant
                        actions@.len() > old(actions)@.len(),
                        backtracks(actions@) == backtracks(old(actions)@) + 1,
                        k <= n,
                    decreases n - k,
                {
                    match branches.pop() {
                        Some(b) => {
                            let ghost before = actions@;
                            actions.push_front(Action::Branch(b));
                            proof {
                                lemma_backtracks_front(Action::Branch(b), before);
                            }
                        },
                        None => {},
                    }
                    k = k + 1;
                }
                true
            },
            None => false,
        }
    }

    /// Apply the branch, when its variable belongs to the store.
    fn apply_branch(&mut self, branch: &Branch<SolverVar>)
        requires
            old(self).wf(),
        ensures
            final(self).wf(),
            final(self).depth() == old(self).depth(),
            final(self).propagators@ == old(self).propagators@,
            final(self).propagator_queue == old(self).propagator_queue,
            old(self).domains.shrinks(&final(self).domains),
            ({
                let var = branch.var_spec();
                if var.domain_spec().index_spec() < old(self).domains.domains_spec().len() {
                    forall|v: int| #[trigger] var.contains(&final(self).domains, v) == (var.contains(&old(self).domains, v) && match branch {
                        Branch::Fix(_, value) => v == *value,
                        Branch::Remove(_, value) => v != *value,
                    })
                } else {
                    final(self).domains == old(self).domains
                }
            }),
    {
        proof {
            self.domains.lemma_shrinks_refl();
        }
        if branch.var().domain().index() < self.domains.num_domains() {
            let ghost d0 = self.domains;
            branch.apply(&mut self.domains);
            proof {
                d0.lemma_shrinks_narrows(&self.domains);
                self.lemma_props_after_shrink(d0);
            }
        }
    }

    /// Descend into a branch: save the state, apply the branch and propagate. When propagation
    /// finds a domain empty, the state saved before the branch is restored: the depth and the
    /// domains are those before the branch, so the next branch starts from the same node.
    /// Otherwise the search stands one level deeper, at a fixpoint, with the state before the
    /// branch saved.
    fn explore(&mut self, branch: &Branch<SolverVar>) -> (consistent: bool)
        requires
            old(self).wf(),
        ensures
            final(self).wf(),
            final(self).propagators@.len() == old(self).propagators@.len(),
            !consistent ==> {
                &&& final(self).depth() == old(self).depth()
                &&& views_of(final(self).domains.domains_spec()) == views_of(old(self).domains.domains_spec())
                &&& final(self).domains.saved() == old(self).domains.saved()
            },
            consistent ==> {
                &&& final(self).depth() == old(self).depth() + 1
                &&& final(self).at_fixpoint()
                &&& final(self).domains.saved() == old(self).domains.saved().push(views_of(old(self).domains.domains_spec()))
                &&& old(self).domains.narrows(&final(self).domains)
            },
    {
        self.save();
        let ghost saved = *self;
        self.apply_branch(branch);
        let ghost applied = *self;
        self.react_to_updated_domains();
        let ghost reacted = *self;
        let res = self.propagate();
        proof {
            saved.domains.lemma_shrinks_trans(&applied.domains, &reacted.domains);
            saved.domains.lemma_shrinks_trans(&reacted.domains, &self.domains);
            old(self).domains.lemma_same_views(&saved.domains);
        }
        if res.branch() {
            self.backtrack();
            return false;
        }
        proof {
            saved.domains.lemma_shrinks_narrows(&self.domains);
            assert(old(self).domains.narrows(&saved.domains));
            old(self).domains.lemma_narrows_trans(&saved.domains, &self.domains);
        }
        true
    }

    /// Go on with the search until a solution is found or no action is left. The search gives
    /// up, as finished, after `u64::MAX` actions.
    fn next_solution<B: Brancher<Domains, Var = SolverVar>>(&mut self, actions: &mut VecDeque<Action>, brancher: &mut B)
        requires
            old(self).wf(),
        ensures
            final(self).wf(),
            final(self).found_solution() ==> final(self).at_fixpoint(),
            final(self).found_solution() ==> final(brancher).finished(&final(self).domains),
            final(self).propagators@.len() == old(self).propagators@.len(),
            old(self).depth() + 1 >= backtracks(old(actions)@) ==> {
                let p0 = old(self).depth() - backtracks(old(actions)@);
                let p = final(self).depth() - backtracks(final(actions)@) - (if final(self).found_solution() { 1int } else { 0int });
                p == p0 || (p == 0 && p0 == -1)
            },
    {
        let mut budget: u64 = u64::MAX;
        while budget > 0
            invariant
                self.wf(),
                self.propagators@.len() == old(self).propagators@.len(),
                old(self).depth() + 1 >= backtracks(old(actions)@) ==> {
                let p0 = old(self).depth() - backtracks(old(actions)@);
                let p = self.depth() - backtracks(actions@);
                p == p0 || (p == 0 && p0 == -1)
            },
            decreases budget,
        {
            budget = budget - 1;
            let ghost before = actions@;
            let ghost depth_before = self.depth();
            match actions.pop_front() {
                None => {
                    break;
                },
                Some(Action::Branch(branch)) => {
                    proof {
                        assert(before =~= seq![Action::Branch(branch)] + actions@);
                        lemma_backtracks_front(Action::Branch(branch), actions@);
                    }
                    if self.explore(&branch) && !self.add_branches(actions, brancher) {
                        self.state = State::Solution;
                        return;
                    }
                },
                Some(Action::Backtrack) => {
                    proof {
                        assert(before =~= seq![Action::Backtrack] + actions@);
                        lemma_backtracks_front(Action::Backtrack, actions@);
                    }
                    self.backtrack();
                },
            }
        }
        self.state = State::Finished;
    }

    /// Search for a solution with the brancher.
    pub fn solve<B: Brancher<Domains, Var = SolverVar>>(&mut self, brancher: B) -> (outcome: SolveOutcome<'_, P, B>)
        requires
            old(self).wf(),
        ensures
            match outcome {
                SolveOutcome::Satisfiable(iterator) => {
                    &&& iterator.solver_spec().wf()
                    &&& iterator.solver_spec().at_fixpoint()
                    &&& !iterator.searched()
                    &&& iterator.brancher_spec().finished(&iterator.solver_spec().domains_spec())
                },
                SolveOutcome::Unsatisfiable => final(self).wf() && !final(self).found_solution(),
            },
    {
        let mut brancher = brancher;
        let mut actions: VecDeque<Action> = VecDeque::new();
        self.add_branches(&mut actions, &mut brancher);
        self.next_solution(&mut actions, &mut brancher);
        if self.state == State::Solution {
            SolveOutcome::Satisfiable(SolutionIterator { solver: self, brancher, search_on_next: false, actions })
        } else {
            SolveOutcome::Unsatisfiable
        }
    }
}

impl<'solver, P: Propagator<Domains, PropagatorRegistration>, B: Brancher<Domains, Var = SolverVar>> SolutionIterator<'solver, P, B> {
    /// The solver the iterator searches with.
    pub closed spec fn solver_spec(&self) -> Solver<P> {
        *self.solver
    }

    /// Whether the solution the search found first was handed out.
    pub closed spec fn searched(&self) -> bool {
        self.search_on_next
    }

    /// The brancher of the search.
    pub closed spec fn brancher_spec(&self) -> B {
        self.brancher
    }

    /// The next solution: the one the search found first, then the following ones. Every
    /// solution is one on which the brancher has nothing left to branch over; once a search
    /// ended without a solution, there is no next one.
    pub fn next_solution(&mut self) -> (solution: Option<Solution<'_, P>>)
        requires
            old(self).solver_spec().wf(),
            !old(self).searched() ==> old(self).brancher_spec().finished(&old(self).solver_spec().domains_spec())
                && old(self).solver_spec().at_fixpoint(),
        ensures
            final(self).solver_spec().wf(),
            final(self).searched(),
            !old(self).searched() ==> solution is Some && final(self).solver_spec() == old(self).solver_spec(),
            old(self).searched() && !old(self).solver_spec().found_solution() ==> solution is None,
            solution is None ==> !final(self).solver_spec().found_solution(),
            solution matches Some(s) ==> {
                &&& s.solver_spec() == final(self).solver_spec()
                &&& s.solver_spec().at_fixpoint()
                &&& final(self).brancher_spec().finished(&s.solver_spec().domains_spec())
            },
    {
        if !self.search_on_next {
            self.search_on_next = true;
            return Some(Solution { solver: self.solver });
        }
        if self.solver.state == State::Finished {
            return None;
        }
        self.solver.backtrack();
        self.solver.next_solution(&mut self.actions, &mut self.brancher);
        if self.solver.state == State::Solution {
            Some(Solution { solver: self.solver })
        } else {
            None
        }
    }
}

impl<'solver, P: Propagator<Domains, PropagatorRegistration>> Solution<'solver, P> {
    /// The solver whose domains are the solution.
    pub closed spec fn solver_spec(&self) -> Solver<P> {
        *self.solver
    }

    /// The domains of the solution.
    pub fn domains(&self) -> (domains: &Domains)
        ensures
            *domains == self.solver_spec().domains_spec(),
    {
        &self.solver.domains
    }

    /// The value of a fixed variable in the solution.
    pub fn value(&self, variable: SolverVar) -> (value: i64)
        requires
            self.solver_spec().wf(),
            variable.var_wf(&self.solver_spec().domains_spec()),
            variable.size_spec(&self.solver_spec().domains_spec()) == 1,
        ensures
            variable.contains(&self.solver_spec().domains_spec(), value as int),
            forall|v: int| #[trigger] variable.contains(&self.solver_spec().domains_spec(), v) ==> v == value,
    {
        proof {
            variable.lemma_variable(&self.solver.domains);
        }
        variable.min(&self.solver.domains)
    }
}

} // verus!
