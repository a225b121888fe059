//! The propositional state of the solver: assignment, trail, reasons and decision levels.
use vstd::prelude::*;

use crate::cdcl::assignment::Assignment;
use crate::cdcl::brancher::Brancher;
use crate::cdcl::domains::Conflict;
use crate::cdcl::implication_graph::ImplicationGraph;
use crate::cdcl::lit::{group_lit, Lit, Var};
use crate::cdcl::search_tree::SearchTree;
use crate::cdcl::trail::Trail;

use super::{Explanation, PropagatorVar, Reason};

verus! {

broadcast use group_lit;

/// The variables of the literals are all below `n`.
pub open spec fn lits_below(lits: Seq<Lit>, n: nat) -> bool {
    forall|i: int| 0 <= i < lits.len() ==> (#[trigger] lits[i]).var_code() < n
}

/// A reason refers only to variables below `n`, and an explanation is not empty.
pub open spec fn reason_below(reason: Reason, n: nat) -> bool {
    match reason {
        Reason::Explanation { propagated_lit, explanation } => {
            &&& explanation@.len() > 0
            &&& propagated_lit.var_code() < n
            &&& lits_below(explanation@, n)
        },
        _ => true,
    }
}

/// A conflict reported by a propagator: a literal that should have been true, with a non-empty
/// explanation over variables below `n`.
pub open spec fn propagator_conflict(conflict: Conflict, n: nat) -> bool {
    match conflict {
        Conflict::Propagator { lit, explanation } => {
            &&& explanation@.len() > 0
            &&& lit.var_code() < n
            &&& lits_below(explanation@, n)
        },
        Conflict::Clause(_) => false,
    }
}

/// A sequence of distinct values below `n` is at most `n` long.
pub proof fn lemma_distinct_below(s: Seq<int>, n: nat)
    requires
        forall|i: int| 0 <= i < s.len() ==> 0 <= #[trigger] s[i] < n,
        forall|i: int, j: int| 0 <= i < j < s.len() ==> #[trigger] s[i] != #[trigger] s[j],
    ensures
        s.len() <= n,
{
    assert(s.no_duplicates());
    s.unique_seq_to_set();
    vstd::set_lib::lemma_int_range(0, n as int);
    assert(s.to_set().subset_of(vstd::set_lib::set_int_range(0, n as int)));
    vstd::set_lib::lemma_len_subset(s.to_set(), vstd::set_lib::set_int_range(0, n as int));
}

/// The propositional state of the search: which literals are true, in which order they became
/// true, why, and at which decision level.
pub struct Context {
    assignment: Assignment,
    trail: Trail,
    implication_graph: ImplicationGraph,
    search_tree: SearchTree,
}

impl Context {
    /// The number of variables.
    pub closed spec fn num_vars(&self) -> nat {
        self.assignment.num_vars()
    }

    /// The assignment.
    pub closed spec fn assignment_spec(&self) -> Assignment {
        self.assignment
    }

    /// The true literals, in the order they became true.
    pub closed spec fn trail_lits(&self) -> Seq<Lit> {
        self.trail.lits()
    }

    /// Where every decision level above the root starts on the trail.
    pub closed spec fn delims(&self) -> Seq<usize> {
        self.trail.delims()
    }

    /// The current decision level.
    pub closed spec fn depth_spec(&self) -> nat {
        self.search_tree.depth_spec()
    }

    /// The reason of every variable, by code.
    pub closed spec fn reasons(&self) -> Seq<Reason> {
        self.implication_graph.reasons_spec()
    }

    /// The decision level of every variable, by code.
    pub closed spec fn levels(&self) -> Seq<usize> {
        self.search_tree.levels()
    }

    /// The literals made true at the root level: the trail before the first decision.
    pub open spec fn root_lits(&self) -> Seq<Lit> {
        if self.delims().len() == 0 {
            self.trail_lits()
        } else {
            self.trail_lits().subrange(0, self.delims()[0] as int)
        }
    }

    /// The value of a literal.
    pub open spec fn value_spec(&self, lit: Lit) -> Option<bool> {
        self.assignment_spec().value_spec(lit)
    }

    /// The state is consistent: the trail holds exactly the true literals, one per variable; the
    /// decision levels start at increasing positions of the trail; the reasons refer to known
    /// variables.
    pub closed spec fn wf(&self) -> bool {
        let n = self.num_vars();
        let lits = self.trail.lits();
        let delims = self.trail.delims();
        &&& self.assignment.wf()
        &&& n <= usize::MAX / 16
        &&& self.implication_graph.reasons_spec().len() == n
        &&& self.search_tree.levels().len() == n
        &&& forall|i: int| 0 <= i < lits.len() ==> (#[trigger] lits[i]).var_code() < n
        &&& forall|i: int| 0 <= i < lits.len() ==> self.assignment.value_spec(#[trigger] lits[i]) == Some(true)
        &&& forall|i: int, j: int| 0 <= i < j < lits.len() ==> (#[trigger] lits[i]).var_code() != (#[trigger] lits[j]).var_code()
        &&& forall|v: nat| v < n && (#[trigger] self.assignment.var_value(v)) is Some ==> exists|i: int| 0 <= i < lits.len() && lits[i].var_code() == v
        &&& forall|i: int, j: int| 0 <= i < j < delims.len() ==> #[trigger] delims[i] < #[trigger] delims[j]
        &&& forall|i: int| 0 <= i < delims.len() ==> #[trigger] delims[i] < lits.len()
        &&& self.search_tree.depth_spec() == delims.len()
        &&& forall|v: int| 0 <= v < n ==> reason_below(#[trigger] self.implication_graph.reasons_spec()[v], n)
    }

    /// Everything [`Context::wf`] states, but for the levels starting before the end of the
    /// trail.
    pub closed spec fn wf_except_delims(&self) -> bool {
        let n = self.num_vars();
        let lits = self.trail.lits();
        let delims = self.trail.delims();
        &&& self.assignment.wf()
        &&& n <= usize::MAX / 16
        &&& self.implication_graph.reasons_spec().len() == n
        &&& self.search_tree.levels().len() == n
        &&& forall|i: int| 0 <= i < lits.len() ==> (#[trigger] lits[i]).var_code() < n
        &&& forall|i: int| 0 <= i < lits.len() ==> self.assignment.value_spec(#[trigger] lits[i]) == Some(true)
        &&& forall|i: int, j: int| 0 <= i < j < lits.len() ==> (#[trigger] lits[i]).var_code() != (#[trigger] lits[j]).var_code()
        &&& forall|v: nat| v < n && (#[trigger] self.assignment.var_value(v)) is Some ==> exists|i: int| 0 <= i < lits.len() && lits[i].var_code() == v
        &&& forall|i: int, j: int| 0 <= i < j < delims.len() ==> #[trigger] delims[i] < #[trigger] delims[j]
        &&& self.search_tree.depth_spec() == delims.len()
        &&& forall|v: int| 0 <= v < n ==> reason_below(#[trigger] self.implication_graph.reasons_spec()[v], n)
    }

    /// `self` came from `old` by propagation: the same variables and decision levels, the old
    /// trail followed by new literals, and reasons that are either unchanged or explanations.
    pub open spec fn extends(&self, old: Context) -> bool {
        &&& self.num_vars() == old.num_vars()
        &&& self.trail_lits().len() >= old.trail_lits().len()
        &&& self.trail_lits().subrange(0, old.trail_lits().len() as int) == old.trail_lits()
        &&& self.delims() == old.delims()
        &&& self.depth_spec() == old.depth_spec()
        &&& forall|v: int| 0 <= v < self.reasons().len() ==> #[trigger] self.reasons()[v] == old.reasons()[v] || self.reasons()[v] is Explanation
    }

    /// What consistency says of the sizes of the parts and of the trail.
    pub proof fn lemma_wf(&self)
        requires
            self.wf(),
        ensures
            self.reasons().len() == self.num_vars(),
            self.levels().len() == self.num_vars(),
            self.num_vars() <= usize::MAX / 16,
            self.assignment_spec().wf(),
            self.assignment_spec().num_vars() == self.num_vars(),
            lits_below(self.trail_lits(), self.num_vars()),
            forall|i: int| 0 <= i < self.trail_lits().len() ==> self.value_spec(#[trigger] self.trail_lits()[i]) == Some(true),
            forall|v: int| 0 <= v < self.num_vars() ==> reason_below(#[trigger] self.reasons()[v], self.num_vars()),
            self.depth_spec() == self.delims().len(),
    {
    }

    /// The root literals are true and lie on the trail; at the root level, every true literal
    /// is a root literal.
    pub proof fn lemma_root(&self)
        requires
            self.wf(),
        ensures
            forall|i: int| 0 <= i < self.root_lits().len() ==> self.value_spec(#[trigger] self.root_lits()[i]) == Some(true),
            forall|i: int| 0 <= i < self.root_lits().len() ==> (#[trigger] self.root_lits()[i]).var_code() < self.num_vars(),
            self.depth_spec() == 0 ==> forall|l: Lit| #[trigger] self.value_spec(l) == Some(true) && l.var_code() < self.num_vars() ==> self.root_lits().contains(l),
            self.delims().len() > 0 ==> self.delims()[0] < self.trail_lits().len(),
            self.depth_spec() == self.delims().len(),
    {
        let lits = self.trail.lits();
        let root = self.root_lits();
        if self.delims().len() > 0 {
            assert(self.delims()[0] < lits.len());
        }
        assert forall|i: int| 0 <= i < root.len() implies self.value_spec(#[trigger] root[i]) == Some(true) && root[i].var_code() < self.num_vars() by {
            assert(root[i] == lits[i]);
        }
        if self.depth_spec() == 0 {
            assert forall|l: Lit| #[trigger] self.value_spec(l) == Some(true) && l.var_code() < self.num_vars() implies root.contains(l) by {
                let v = l.var_code() as nat;
                assert(self.assignment.var_value(v) is Some);
                let i = choose|i: int| 0 <= i < lits.len() && lits[i].var_code() == v;
                assert(self.assignment.value_spec(lits[i]) == Some(true));
                assert(lits[i].code_spec() == l.code_spec());
                assert(root[i] == l);
            }
        }
    }

    /// A state whose trail extends this one, and whose levels keep the old ones and start any
    /// new one after the old trail, keeps the root literals.
    pub proof fn lemma_root_extends(&self, new: Context)
        requires
            self.wf(),
            new.trail_lits().len() >= self.trail_lits().len(),
            new.trail_lits().subrange(0, self.trail_lits().len() as int) == self.trail_lits(),
            new.delims().len() >= self.delims().len(),
            new.delims().subrange(0, self.delims().len() as int) == self.delims(),
            new.delims().len() > self.delims().len() ==> new.delims()[self.delims().len() as int] >= self.trail_lits().len(),
            new.delims().len() > 0 ==> new.delims()[0] <= new.trail_lits().len(),
        ensures
            forall|l: Lit| self.root_lits().contains(l) ==> #[trigger] new.root_lits().contains(l),
    {
        let old_lits = self.trail.lits();
        let root = self.root_lits();
        let new_root = new.root_lits();
        if self.delims().len() > 0 {
            assert(self.delims()[0] < old_lits.len());
            assert(new.delims()[0] == self.delims()[0]);
        }
        assert forall|l: Lit| root.contains(l) implies #[trigger] new_root.contains(l) by {
            let m = choose|m: int| 0 <= m < root.len() && root[m] == l;
            assert(root[m] == old_lits[m]);
            assert(new.trail_lits()[m] == old_lits[m]);
            assert(new_root[m] == l);
        }
    }

    /// Along a trail that grew, every literal assigned before keeps its value, and a variable
    /// assigned now but not before has a literal among the new trail literals.
    pub proof fn lemma_values_grow(&self, old: Context)
        requires
            old.wf(),
            self.wf(),
            self.num_vars() == old.num_vars(),
            self.trail_lits().len() >= old.trail_lits().len(),
            self.trail_lits().subrange(0, old.trail_lits().len() as int) == old.trail_lits(),
        ensures
            forall|lit: Lit| lit.var_code() < self.num_vars() && old.value_spec(lit) is Some ==> #[trigger] self.value_spec(lit) == old.value_spec(lit),
            forall|lit: Lit| lit.var_code() < self.num_vars() && old.value_spec(lit) is None && #[trigger] self.value_spec(lit) is Some ==> exists|i: int| old.trail_lits().len() <= i < self.trail_lits().len() && self.trail_lits()[i].var_code() == lit.var_code(),
    {
        let n = self.num_vars();
        let old_lits = old.trail.lits();
        let lits = self.trail.lits();
        assert forall|lit: Lit| lit.var_code() < n && old.value_spec(lit) is Some implies #[trigger] self.value_spec(lit) == old.value_spec(lit) by {
            let v = lit.var_code() as nat;
            assert(old.assignment.var_value(v) is Some);
            let i = choose|i: int| 0 <= i < old_lits.len() && old_lits[i].var_code() == v;
            assert(old.assignment.value_spec(old_lits[i]) == Some(true));
            assert(lits[i] == old_lits[i]);
            assert(self.assignment.value_spec(lits[i]) == Some(true));
        }
        assert forall|lit: Lit| lit.var_code() < n && old.value_spec(lit) is None && #[trigger] self.value_spec(lit) is Some implies exists|i: int| old.trail_lits().len() <= i < self.trail_lits().len() && self.trail_lits()[i].var_code() == lit.var_code() by {
            let v = lit.var_code() as nat;
            assert(self.assignment.var_value(v) is Some);
            let i = choose|i: int| 0 <= i < lits.len() && lits[i].var_code() == v;
            if i < old_lits.len() {
                assert(lits[i] == old_lits[i]);
                assert(old.assignment.value_spec(old_lits[i]) == Some(true));
            }
        }
    }

    /// Going back to a decision level keeps the root literals.
    pub proof fn lemma_root_backtrack(&self, new: Context, level: int)
        requires
            self.wf(),
            0 <= level < self.delims().len(),
            new.trail_lits() == self.trail_lits().subrange(0, self.delims()[level] as int),
            new.delims() == self.delims().subrange(0, level),
        ensures
            new.root_lits() == self.root_lits(),
    {
        let d = self.delims();
        assert(d[level] < self.trail_lits().len());
        if level > 0 {
            assert(d[0] < d[level]);
            assert(new.root_lits() =~= self.root_lits());
        } else {
            assert(new.root_lits() =~= self.root_lits());
        }
    }

    /// No two literals of the trail share a variable.
    pub proof fn lemma_trail_distinct(&self)
        requires
            self.wf(),
        ensures
            forall|i: int, j: int| 0 <= i < j < self.trail_lits().len() ==> (#[trigger] self.trail_lits()[i]).var_code() != (#[trigger] self.trail_lits()[j]).var_code(),
    {
    }

    /// The trail is no longer than the number of variables.
    pub proof fn lemma_trail_bounded(&self)
        requires
            self.wf(),
        ensures
            self.trail_lits().len() <= self.num_vars(),
            self.delims().len() <= self.trail_lits().len(),
            self.depth_spec() == self.delims().len(),
    {
        let lits = self.trail.lits();
        let s = lits.map_values(|l: Lit| l.var_code() as int);
        assert forall|i: int, j: int| 0 <= i < j < s.len() implies #[trigger] s[i] != #[trigger] s[j] by {
            assert(lits[i].var_code() != lits[j].var_code());
        }
        assert forall|i: int| 0 <= i < s.len() implies 0 <= #[trigger] s[i] < self.num_vars() by {
            assert(lits[i].var_code() < self.num_vars());
        }
        lemma_distinct_below(s, self.num_vars());
        let d = self.trail.delims();
        let ds = d.map_values(|x: usize| x as int);
        assert forall|i: int, j: int| 0 <= i < j < ds.len() implies #[trigger] ds[i] != #[trigger] ds[j] by {
            assert(d[i] < d[j]);
        }
        assert forall|i: int| 0 <= i < ds.len() implies 0 <= #[trigger] ds[i] < lits.len() by {
            assert(d[i] < lits.len());
        }
        lemma_distinct_below(ds, lits.len());
    }

    /// An empty state over no variables.
    pub fn new() -> (ctx: Context)
        ensures
            ctx.wf(),
            ctx.num_vars() == 0,
            ctx.trail_lits() == Seq::<Lit>::empty(),
            ctx.depth_spec() == 0,
            ctx.delims() == Seq::<usize>::empty(),
            ctx.reasons() == Seq::<Reason>::empty(),
            ctx.levels() == Seq::<usize>::empty(),
            ctx.assignment_spec().num_vars() == 0,
    {
        let ctx = Context {
            assignment: Assignment::new(),
            trail: Trail::new(),
            implication_graph: ImplicationGraph::new(),
            search_tree: SearchTree::new(),
        };
        ctx
    }

    /// Add the next variable, unassigned, decided at the root.
    pub fn add_var(&mut self, var: Var)
        requires
            old(self).wf(),
            var.code_spec() == old(self).num_vars(),
            var.code_spec() < usize::MAX / 16,
        ensures
            final(self).wf(),
            final(self).num_vars() == old(self).num_vars() + 1,
            final(self).trail_lits() == old(self).trail_lits(),
            final(self).delims() == old(self).delims(),
            final(self).depth_spec() == old(self).depth_spec(),
            forall|l: Lit| l.var_code() == var.code_spec() ==> #[trigger] final(self).value_spec(l) is None,
            forall|l: Lit| l.var_code() < old(self).num_vars() ==> #[trigger] final(self).value_spec(l) == old(self).value_spec(l),
            forall|v: int| 0 <= v < old(self).num_vars() ==> #[trigger] final(self).reasons()[v] == old(self).reasons()[v],
            final(self).reasons()[var.code_spec() as int] is Decision,
    {
        let ghost old_ctx = *self;
        self.assignment.grow_to(var);
        self.implication_graph.grow_to(var);
        self.search_tree.grow_to(var);
        proof {
            let n = self.num_vars();
            let lits = self.trail.lits();
            assert forall|i: int| 0 <= i < lits.len() implies self.assignment.value_spec(#[trigger] lits[i]) == Some(true) by {
                assert(old_ctx.assignment.value_spec(lits[i]) == Some(true));
                assert(self.assignment.var_value(lits[i].var_code() as nat) == old_ctx.assignment.var_value(lits[i].var_code() as nat));
            }
            assert forall|v: nat| v < n && (#[trigger] self.assignment.var_value(v)) is Some implies exists|i: int| 0 <= i < lits.len() && lits[i].var_code() == v by {
                if v < old_ctx.num_vars() {
                    assert(old_ctx.assignment.var_value(v) is Some);
                }
            }
            assert forall|v: int| 0 <= v < n implies reason_below(#[trigger] self.implication_graph.reasons_spec()[v], n) by {
                if v < old_ctx.num_vars() {
                    assert(reason_below(old_ctx.implication_graph.reasons_spec()[v], old_ctx.num_vars()));
                }
            }
            assert forall|l: Lit| l.var_code() < old(self).num_vars() implies #[trigger] self.value_spec(l) == old(self).value_spec(l) by {
                assert(self.assignment.var_value(l.var_code() as nat) == old_ctx.assignment.var_value(l.var_code() as nat));
            }
            assert(self.assignment.var_value(var.code_spec() as nat) is None);
        }
    }

    /// The assignment.
    pub fn assignment(&self) -> (assignment: &Assignment)
        ensures
            *assignment == self.assignment_spec(),
    {
        &self.assignment
    }

    /// The trail.
    pub fn trail(&self) -> (trail: &Trail)
        ensures
            trail.lits() == self.trail_lits(),
            trail.delims() == self.delims(),
    {
        &self.trail
    }

    /// The implication graph.
    pub fn implication_graph(&self) -> (graph: &ImplicationGraph)
        ensures
            graph.reasons_spec() == self.reasons(),
    {
        &self.implication_graph
    }

    /// The search tree.
    pub fn search_tree(&self) -> (tree: &SearchTree)
        ensures
            tree.levels() == self.levels(),
            tree.depth_spec() == self.depth_spec(),
    {
        &self.search_tree
    }

    /// The value of a literal of the state.
    pub fn lit_value(&self, lit: Lit) -> (value: Option<bool>)
        requires
            self.wf(),
            lit.var_code() < self.num_vars(),
        ensures
            value == self.value_spec(lit),
    {
        self.assignment.value(lit)
    }

    /// The value of a literal a propagator watches.
    pub fn value(&self, lit: PropagatorVar<Lit>) -> (value: Option<bool>)
        requires
            self.wf(),
            lit.variable.var_code() < self.num_vars(),
        ensures
            value == self.value_spec(lit.variable),
    {
        self.assignment.value(lit.variable)
    }


    /// Open a new decision level and decide the literal, which must be unassigned.
    pub fn decide(&mut self, lit: Lit)
        requires
            old(self).wf(),
            lit.var_code() < old(self).num_vars(),
            old(self).value_spec(lit) is None,
        ensures
            final(self).wf(),
            final(self).num_vars() == old(self).num_vars(),
            final(self).trail_lits() == old(self).trail_lits().push(lit),
            final(self).delims() == old(self).delims().push(old(self).trail_lits().len() as usize),
            final(self).depth_spec() == old(self).depth_spec() + 1,
            final(self).reasons() == old(self).reasons().update(lit.var_code() as int, Reason::Decision),
            final(self).value_spec(lit) == Some(true),
    {
        proof {
            self.lemma_trail_bounded();
        }
        let ghost old_ctx = *self;
        self.trail.push();
        self.search_tree.branch();
        proof {
            assert(self.wf_except_delims());
        }
        let ok = self.enqueue_unassigned(lit, Reason::Decision);
        proof {
            let d = self.trail.delims();
            assert forall|i: int, j: int| 0 <= i < j < d.len() implies #[trigger] d[i] < #[trigger] d[j] by {
                if j == d.len() - 1 {
                    assert(d[i] < old_ctx.trail.lits().len());
                }
            }
            assert forall|i: int| 0 <= i < d.len() implies #[trigger] d[i] < self.trail.lits().len() by {
                if i < d.len() - 1 {
                    assert(d[i] < old_ctx.trail.lits().len());
                }
            }
        }
    }


    /// Go back to the given decision level: the literals enqueued after that level was entered
    /// become unassigned, the brancher hears of each of them (the last enqueued first), and the
    /// search continues at that level.
    pub fn backtrack_to<B: Brancher>(&mut self, decision_level: usize, brancher: &mut B)
        requires
            old(self).wf(),
            decision_level < old(self).delims().len(),
        ensures
            final(self).wf(),
            final(self).num_vars() == old(self).num_vars(),
            final(self).trail_lits() == old(self).trail_lits().subrange(0, old(self).delims()[decision_level as int] as int),
            final(self).delims() == old(self).delims().subrange(0, decision_level as int),
            final(self).depth_spec() == decision_level,
            final(self).reasons() == old(self).reasons(),
    {
        let ghost old_ctx = *self;
        let ghost n = self.num_vars();
        let ghost old_lits = self.trail.lits();
        let ghost target = self.trail.delims()[decision_level as int] as int;
        let removed = self.trail.backtrack_to(decision_level);
        proof {
            assert(target < old_lits.len());
        }
        let mut j: usize = 0;
        while j < removed.len()
            invariant
                j <= removed@.len(),
                removed@ == old_lits.subrange(target, old_lits.len() as int).reverse(),
                0 <= target < old_lits.len(),
                old_ctx.wf(),
                n == old_ctx.num_vars(),
                old_lits == old_ctx.trail_lits(),
                self.assignment.wf(),
                self.assignment.num_vars() == n,
                forall|v: nat| v < n ==> #[trigger] self.assignment.var_value(v) == if exists|k: int| 0 <= k < j && removed@[k].var_code() == v {
                    None
                } else {
                    old_ctx.assignment.var_value(v)
                },
                self.trail.lits() == old_lits.subrange(0, target),
                self.trail.delims() == old_ctx.trail.delims().subrange(0, decision_level as int),
                self.implication_graph == old_ctx.implication_graph,
                self.search_tree == old_ctx.search_tree,
            decreases removed@.len() - j,
        {
            let lit = removed[j];
            proof {
                assert(lit == old_lits[old_lits.len() - 1 - j]);
                assert(lit.var_code() < n);
            }
            let ghost before = self.assignment;
            self.assignment.unassign(lit);
            brancher.on_variable_unassigned(lit.var());
            proof {
                assert forall|v: nat| v < n implies #[trigger] self.assignment.var_value(v) == if exists|k: int| 0 <= k < j + 1 && removed@[k].var_code() == v {
                    None
                } else {
                    old_ctx.assignment.var_value(v)
                } by {
                    if v == lit.var_code() {
                        assert(removed@[j as int].var_code() == v);
                    } else {
                        assert(self.assignment.var_value(v) == before.var_value(v));
                        if exists|k: int| 0 <= k < j + 1 && removed@[k].var_code() == v {
                            let k = choose|k: int| 0 <= k < j + 1 && removed@[k].var_code() == v;
                            assert(k < j);
                        }
                    }
                }
            }
            j = j + 1;
        }
        self.search_tree.cut(decision_level);
        proof {
            let lits = self.trail.lits();
            assert forall|v: nat| v < n implies #[trigger] self.assignment.var_value(v) == if exists|k: int| 0 <= k < removed@.len() && removed@[k].var_code() == v {
                None
            } else {
                old_ctx.assignment.var_value(v)
            } by {
            }
            assert forall|i: int| 0 <= i < lits.len() implies self.assignment.value_spec(#[trigger] lits[i]) == Some(true) by {
                let v = lits[i].var_code() as nat;
                assert(lits[i] == old_lits[i]);
                assert(old_ctx.assignment.value_spec(old_lits[i]) == Some(true));
                if exists|k: int| 0 <= k < removed@.len() && removed@[k].var_code() == v {
                    let k = choose|k: int| 0 <= k < removed@.len() && removed@[k].var_code() == v;
                    assert(removed@[k] == old_lits[old_lits.len() - 1 - k]);
                    assert(old_lits[i].var_code() != old_lits[old_lits.len() - 1 - k].var_code());
                }
                assert(self.assignment.var_value(v) == old_ctx.assignment.var_value(v));
            }
            assert forall|v: nat| v < n && (#[trigger] self.assignment.var_value(v)) is Some implies exists|i: int| 0 <= i < lits.len() && lits[i].var_code() == v by {
                assert(old_ctx.assignment.var_value(v) is Some);
                let p = choose|p: int| 0 <= p < old_lits.len() && old_lits[p].var_code() == v;
                if p >= target {
                    let k = old_lits.len() - 1 - p;
                    assert(removed@[k] == old_lits[p]);
                    assert(exists|k: int| 0 <= k < removed@.len() && removed@[k].var_code() == v);
                }
                assert(lits[p].var_code() == v);
            }
            let d = self.trail.delims();
            let od = old_ctx.trail.delims();
            assert forall|i: int| 0 <= i < d.len() implies #[trigger] d[i] < lits.len() by {
                assert(od[i] < od[decision_level as int]);
            }
        }
    }

    /// Make the unassigned literal true for the given reason, keeping every part of the
    /// consistency of the state but the position of the levels, which only grows.
    fn enqueue_unassigned(&mut self, lit: Lit, reason: Reason) -> (ok: bool)
        requires
            old(self).wf_except_delims(),
            forall|i: int| 0 <= i < old(self).delims().len() ==> #[trigger] old(self).delims()[i] <= old(self).trail_lits().len(),
            lit.var_code() < old(self).num_vars(),
            old(self).value_spec(lit) is None,
            reason_below(reason, old(self).num_vars()),
        ensures
            final(self).wf_except_delims(),
            final(self).num_vars() == old(self).num_vars(),
            final(self).delims() == old(self).delims(),
            final(self).depth_spec() == old(self).depth_spec(),
            final(self).trail_lits() == old(self).trail_lits().push(lit),
            final(self).reasons() == old(self).reasons().update(lit.var_code() as int, reason),
            final(self).value_spec(lit) == Some(true),
            forall|i: int| 0 <= i < final(self).delims().len() ==> #[trigger] final(self).delims()[i] < final(self).trail_lits().len(),
            ok,
    {
        let ghost old_ctx = *self;
        self.trail.enqueue(lit);
        self.assignment.assign(lit);
        self.implication_graph.add(lit.var(), reason);
        self.search_tree.register_assignment(lit);
        proof {
            let n = self.num_vars();
            let lits = self.trail.lits();
            let old_lits = old_ctx.trail.lits();
            assert forall|i: int| 0 <= i < lits.len() implies self.assignment.value_spec(#[trigger] lits[i]) == Some(true) by {
                if i < old_lits.len() {
                    assert(old_ctx.assignment.value_spec(old_lits[i]) == Some(true));
                    assert(old_lits[i].var_code() != lit.var_code());
                }
            }
            assert forall|i: int, j: int| 0 <= i < j < lits.len() implies (#[trigger] lits[i]).var_code() != (#[trigger] lits[j]).var_code() by {
                if j == lits.len() - 1 {
                    assert(old_ctx.assignment.value_spec(old_lits[i]) == Some(true));
                }
            }
            assert forall|v: nat| v < n && (#[trigger] self.assignment.var_value(v)) is Some implies exists|i: int| 0 <= i < lits.len() && lits[i].var_code() == v by {
                if v == lit.var_code() {
                    assert(lits[lits.len() - 1].var_code() == v);
                } else {
                    assert(old_ctx.assignment.var_value(v) is Some);
                    let i = choose|i: int| 0 <= i < old_lits.len() && old_lits[i].var_code() == v;
                    assert(lits[i].var_code() == v);
                }
            }
            assert forall|v: int| 0 <= v < n implies reason_below(#[trigger] self.implication_graph.reasons_spec()[v], n) by {
                if v != lit.var_code() {
                    assert(reason_below(old_ctx.implication_graph.reasons_spec()[v], n));
                }
            }
            let d = self.trail.delims();
            assert forall|i: int| 0 <= i < d.len() implies #[trigger] d[i] < lits.len() by {
                assert(old_ctx.delims()[i] <= old_lits.len());
            }
        }
        true
    }

    /// Make the literal true for the given reason. Nothing changes when the literal is true
    /// already; when it is false, nothing changes and `false` is returned.
    pub fn enqueue(&mut self, lit: Lit, reason: Reason) -> (ok: bool)
        requires
            old(self).wf(),
            lit.var_code() < old(self).num_vars(),
            reason_below(reason, old(self).num_vars()),
        ensures
            final(self).wf(),
            ok == (old(self).value_spec(lit) != Some(false)),
            final(self).num_vars() == old(self).num_vars(),
            final(self).delims() == old(self).delims(),
            final(self).depth_spec() == old(self).depth_spec(),
            old(self).value_spec(lit) is None ==> {
                &&& final(self).trail_lits() == old(self).trail_lits().push(lit)
                &&& final(self).reasons() == old(self).reasons().update(lit.var_code() as int, reason)
            },
            old(self).value_spec(lit) is Some ==> *final(self) == *old(self),
            final(self).value_spec(lit) == Some(true) || !ok,
    {
        let value = self.assignment.value(lit);
        if value.is_some() {
            return value == Some(true);
        }
        self.enqueue_unassigned(lit, reason)
    }

    /// Make the literal the propagator watches take the given value, explained by the given
    /// literals. When the literal already has the other value, the state is unchanged and the
    /// conflict is reported.
    pub fn assign(&mut self, lit: PropagatorVar<Lit>, value: bool, explanation: Explanation) -> (res: Result<(), Conflict>)
        requires
            old(self).wf(),
            lit.variable.var_code() < old(self).num_vars(),
            explanation@.len() > 0,
            lits_below(explanation@, old(self).num_vars()),
        ensures
            final(self).wf(),
            final(self).extends(*old(self)),
            ({
                let target = if value { lit.variable } else { lit.variable.negated() };
                &&& res is Ok <==> old(self).value_spec(target) != Some(false)
                &&& res is Ok ==> final(self).value_spec(target) == Some(true)
                &&& res is Err ==> *final(self) == *old(self)
                &&& res matches Err(c) ==> c == Conflict::Propagator { lit: target, explanation }
                &&& old(self).value_spec(target) is Some ==> *final(self) == *old(self)
                &&& old(self).value_spec(target) is None ==> final(self).trail_lits() == old(self).trail_lits().push(target)
            }),
            res matches Err(c) ==> propagator_conflict(c, final(self).num_vars()),
    {
        let target = if value { lit.variable } else { core::ops::Not::not(lit.variable) };
        if self.assignment.value(target) == Some(false) {
            proof {
                assert(self.trail_lits().subrange(0, self.trail_lits().len() as int) =~= self.trail_lits());
            }
            return Err(Conflict::Propagator { lit: target, explanation });
        }
        let ghost old_ctx = *self;
        let ok = self.enqueue(target, Reason::Explanation { propagated_lit: target, explanation });
        proof {
            assert(self.trail_lits().subrange(0, old_ctx.trail_lits().len() as int) =~= old_ctx.trail_lits());
        }
        Ok(())
    }
}

} // verus!
