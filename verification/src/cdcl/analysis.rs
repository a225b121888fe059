//! Learning a clause from a conflict.
use vstd::prelude::*;

use super::brancher::Brancher;
use super::clause::{ClauseDb, ClauseRef};
use super::implication_graph::ImplicationGraph;
use super::lit::{group_lit, Lit, Var};
use super::propagation::{explained_clause, lemma_distinct_below, lits_below, reason_below, Reason};
use super::search_tree::SearchTree;
use super::storage::KeyedVec;
use super::trail::Trail;

verus! {

broadcast use group_lit;

/// The literals a reason gives for its variable: those of the clause, or those of the
/// explanation; a decision gives none.
pub open spec fn reason_literals(reason: Reason, clauses: ClauseDb) -> Seq<Lit> {
    match reason {
        Reason::Decision => Seq::empty(),
        Reason::Clause(c) => clauses.clause(c),
        Reason::Explanation { propagated_lit: _, explanation } => explanation@,
    }
}

/// The variable follows through its reason from marked variables and root assignments: it was
/// not decided, and every literal of its reason is over a variable assigned at the root level or
/// marked.
pub open spec fn justified(v: int, reasons: Seq<Reason>, clauses: ClauseDb, levels: Seq<usize>, seen: Seq<bool>) -> bool {
    let r = reason_literals(reasons[v], clauses);
    &&& !(reasons[v] is Decision)
    &&& forall|k: int| 0 <= k < r.len() ==> levels[(#[trigger] r[k]).var_code() as int] == 0 || (r[k].var_code() < seen.len() && seen[r[k].var_code() as int])
}

/// Marking more variables keeps a variable justified.
pub proof fn lemma_justified_grows(v: int, reasons: Seq<Reason>, clauses: ClauseDb, levels: Seq<usize>, s1: Seq<bool>, s2: Seq<bool>)
    requires
        justified(v, reasons, clauses, levels, s1),
        s1.len() == s2.len(),
        forall|x: int| 0 <= x < s1.len() && #[trigger] s1[x] ==> s2[x],
    ensures
        justified(v, reasons, clauses, levels, s2),
{
    let r = reason_literals(reasons[v], clauses);
    assert forall|k: int| 0 <= k < r.len() implies levels[(#[trigger] r[k]).var_code() as int] == 0 || (r[k].var_code() < s2.len() && s2[r[k].var_code() as int]) by {
        if levels[r[k].var_code() as int] != 0 {
            assert(s1[r[k].var_code() as int]);
        }
    }
}

/// Some literal of the stack is over the variable.
pub open spec fn stack_has_var(stack: Seq<Lit>, v: int) -> bool {
    exists|i: int| 0 <= i < stack.len() && stack[i].var_code() == v
}

/// No literal from position `from` on was assigned at the current decision level.
pub open spec fn off_current_level(lits: Seq<Lit>, from: int, search_tree: SearchTree) -> bool {
    forall|k: int| from <= k < lits.len() ==> search_tree.levels()[(#[trigger] lits[k]).var_code() as int] != search_tree.depth_spec()
}

/// Every clause of the database is over variables below `n`.
pub open spec fn db_below(db: ClauseDb, n: nat) -> bool {
    &&& db.wf()
    &&& forall|i: int| 0 <= i < db.clauses_spec().len() ==> lits_below(#[trigger] db.clauses_spec()[i], n)
}

/// Every clause the reasons refer to is in the database, and the reasons refer to variables
/// below `n`.
pub open spec fn reasons_in(reasons: Seq<Reason>, db: ClauseDb, n: nat) -> bool {
    &&& reasons.len() == n
    &&& forall|v: int| 0 <= v < n ==> reason_below(#[trigger] reasons[v], n)
    &&& forall|v: int| 0 <= v < n ==> (#[trigger] reasons[v] matches Reason::Clause(c) ==> db.contains(c))
}

/// `new` is `old` with clauses over variables below `n`, of at least two literals, appended.
pub open spec fn db_grows(new: ClauseDb, old: ClauseDb, n: nat) -> bool {
    &&& new.clauses_spec().len() >= old.clauses_spec().len()
    &&& new.clauses_spec().subrange(0, old.clauses_spec().len() as int) == old.clauses_spec()
    &&& db_below(new, n)
}

/// Growth of the clause database is transitive.
pub proof fn lemma_db_grows_trans(c: ClauseDb, b: ClauseDb, a: ClauseDb, n: nat)
    requires
        db_grows(b, a, n),
        db_grows(c, b, n),
    ensures
        db_grows(c, a, n),
{
    let la = a.clauses_spec().len() as int;
    let lb = b.clauses_spec().len() as int;
    assert(c.clauses_spec().subrange(0, la) =~= c.clauses_spec().subrange(0, lb).subrange(0, la));
}

/// The largest level among the variables of the literals, or 0 when there are none.
pub open spec fn max_level(lits: Seq<Lit>, levels: Seq<usize>) -> nat
    decreases lits.len(),
{
    if lits.len() == 0 {
        0
    } else {
        let rest = max_level(lits.drop_last(), levels);
        let l = levels[lits.last().var_code() as int] as nat;
        if l > rest { l } else { rest }
    }
}

/// Responsible for clause learning when a conflict is encountered. The analyzer uses the 1-UIP
/// learning strategy.
pub struct ConflictAnalyzer {
    /// The working buffer on which analysis is performed.
    buffer: Vec<Lit>,
    /// The number of literals in the buffer that have been assigned at the level of the conflict
    /// (i.e. the current decision level).
    current_level_count: usize,
    /// For every variable, indicate whether it has been encountered during the analysis.
    seen: KeyedVec<Var, bool>,
    /// Variables which have been seen during conflict analysis.
    to_clear: Vec<Var>,
    /// The DFS stack for clause minimization.
    stack: Vec<Lit>,
}

/// The result of conflict analysis.
pub struct Analysis<'a> {
    /// The clause to learn.
    pub learned_clause: &'a [Lit],
    /// The decision level to backjump to.
    pub backjump_level: usize,
}

impl ConflictAnalyzer {
    /// The number of variables the analyzer knows.
    pub closed spec fn num_vars(&self) -> nat {
        self.seen@.len()
    }

    /// The marks are exactly the variables to clear, which are distinct and known.
    closed spec fn marks_consistent(&self) -> bool {
        let n = self.seen@.len();
        &&& n <= usize::MAX / 16
        &&& forall|i: int| 0 <= i < self.to_clear@.len() ==> (#[trigger] self.to_clear@[i]).code_spec() < n
        &&& forall|i: int, j: int| 0 <= i < j < self.to_clear@.len() ==> (#[trigger] self.to_clear@[i]).code_spec() != (#[trigger] self.to_clear@[j]).code_spec()
        &&& forall|i: int| 0 <= i < self.to_clear@.len() ==> self.seen@[(#[trigger] self.to_clear@[i]).code_spec() as int]
        &&& forall|v: int| 0 <= v < n && #[trigger] self.seen@[v] ==> exists|i: int| 0 <= i < self.to_clear@.len() && self.to_clear@[i].code_spec() == v
    }

    /// At rest, no variable is marked.
    pub closed spec fn wf(&self) -> bool {
        &&& self.marks_consistent()
        &&& self.to_clear@.len() == 0
        &&& self.num_vars() <= usize::MAX / 16
    }

    /// An analyzer that knows no variables.
    pub fn new() -> (analyzer: ConflictAnalyzer)
        ensures
            analyzer.wf(),
            analyzer.num_vars() == 0,
    {
        ConflictAnalyzer {
            buffer: Vec::new(),
            current_level_count: 0,
            seen: KeyedVec::new(),
            to_clear: Vec::new(),
            stack: Vec::new(),
        }
    }

    /// Make room for every variable up to the given one.
    pub fn grow_to(&mut self, var: Var)
        requires
            old(self).wf(),
            var.code_spec() < usize::MAX / 16,
        ensures
            final(self).wf(),
            final(self).num_vars() == if old(self).num_vars() > var.code_spec() {
                old(self).num_vars()
            } else {
                (var.code_spec() + 1) as nat
            },
    {
        let ghost old_seen = self.seen@;
        let _code = var.code();
        self.seen.grow_to(var);
        proof {
            assert forall|v: int| 0 <= v < self.seen@.len() && #[trigger] self.seen@[v] implies exists|i: int| 0 <= i < self.to_clear@.len() && self.to_clear@[i].code_spec() == v by {
                if v < old_seen.len() {
                    assert(self.seen@.subrange(0, old_seen.len() as int)[v] == old_seen[v]);
                } else {
                    assert(call_ensures(bool::default, (), self.seen@[v]));
                }
            }
        }
    }

    /// When the marks of `b` extend those of `a`, every variable marked in `a` is marked in `b`.
    proof fn lemma_marks_grow(a: ConflictAnalyzer, b: ConflictAnalyzer)
        requires
            a.marks_consistent(),
            b.marks_consistent(),
            a.seen@.len() == b.seen@.len(),
            b.to_clear@.len() >= a.to_clear@.len(),
            b.to_clear@.subrange(0, a.to_clear@.len() as int) == a.to_clear@,
        ensures
            forall|x: int| 0 <= x < a.seen@.len() && #[trigger] a.seen@[x] ==> b.seen@[x],
    {
        assert forall|x: int| 0 <= x < a.seen@.len() && #[trigger] a.seen@[x] implies b.seen@[x] by {
            let i = choose|i: int| 0 <= i < a.to_clear@.len() && a.to_clear@[i].code_spec() == x;
            assert(b.to_clear@.subrange(0, a.to_clear@.len() as int)[i] == a.to_clear@[i]);
            assert(b.to_clear@[i] == a.to_clear@[i]);
        }
    }

    /// The number of marked variables is bounded by the number of variables.
    proof fn lemma_marks_bounded(&self)
        requires
            self.marks_consistent(),
        ensures
            self.to_clear@.len() <= self.num_vars(),
    {
        let s = self.to_clear@.map_values(|v: Var| v.code_spec() as int);
        assert forall|i: int, j: int| 0 <= i < j < s.len() implies #[trigger] s[i] != #[trigger] s[j] by {
            assert(self.to_clear@[i].code_spec() != self.to_clear@[j].code_spec());
        }
        assert forall|i: int| 0 <= i < s.len() implies 0 <= #[trigger] s[i] < self.num_vars() by {
            assert(self.to_clear@[i].code_spec() < self.num_vars());
        }
        lemma_distinct_below(s, self.num_vars());
    }

    /// Mark an unmarked variable.
    fn mark(&mut self, var: Var)
        requires
            old(self).marks_consistent(),
            var.code_spec() < old(self).num_vars(),
            !old(self).seen@[var.code_spec() as int],
        ensures
            final(self).marks_consistent(),
            final(self).num_vars() == old(self).num_vars(),
            final(self).to_clear@ == old(self).to_clear@.push(var),
            final(self).seen@ == old(self).seen@.update(var.code_spec() as int, true),
            final(self).buffer@ == old(self).buffer@,
            final(self).stack@ == old(self).stack@,
            final(self).current_level_count == old(self).current_level_count,
    {
        self.seen.set(var, true);
        self.to_clear.push(var);
        proof {
            let n = self.seen@.len();
            let tc = self.to_clear@;
            assert forall|i: int, j: int| 0 <= i < j < tc.len() implies (#[trigger] tc[i]).code_spec() != (#[trigger] tc[j]).code_spec() by {
                if j == tc.len() - 1 {
                    assert(old(self).seen@[tc[i].code_spec() as int]);
                }
            }
            assert forall|i: int| 0 <= i < tc.len() implies self.seen@[(#[trigger] tc[i]).code_spec() as int] by {
                if i < tc.len() - 1 {
                    assert(old(self).seen@[old(self).to_clear@[i].code_spec() as int]);
                }
            }
            assert forall|v: int| 0 <= v < n && #[trigger] self.seen@[v] implies exists|i: int| 0 <= i < tc.len() && tc[i].code_spec() == v by {
                if v == var.code_spec() {
                    assert(tc[tc.len() - 1].code_spec() == v);
                } else {
                    assert(old(self).seen@[v]);
                    let i = choose|i: int| 0 <= i < old(self).to_clear@.len() && old(self).to_clear@[i].code_spec() == v;
                    assert(tc[i].code_spec() == v);
                }
            }
        }
    }

    /// Unmark the variables marked from position `top` on.
    fn unmark_from(&mut self, top: usize)
        requires
            old(self).marks_consistent(),
            top <= old(self).to_clear@.len(),
        ensures
            final(self).marks_consistent(),
            final(self).num_vars() == old(self).num_vars(),
            final(self).to_clear@ == old(self).to_clear@.subrange(0, top as int),
            final(self).buffer@ == old(self).buffer@,
            final(self).stack@ == old(self).stack@,
            final(self).current_level_count == old(self).current_level_count,
    {
        while self.to_clear.len() > top
            invariant
                self.marks_consistent(),
                top <= self.to_clear@.len(),
                self.seen@.len() == old(self).seen@.len(),
                self.to_clear@.subrange(0, top as int) == old(self).to_clear@.subrange(0, top as int),
                self.buffer@ == old(self).buffer@,
                self.stack@ == old(self).stack@,
                self.current_level_count == old(self).current_level_count,
            decreases self.to_clear@.len(),
        {
            let ghost tc_before = self.to_clear@;
            let var = self.to_clear.pop().unwrap();
            proof {
                assert(var.code_spec() < self.seen@.len());
            }
            let ghost before = self.seen@;
            self.seen.set(var, false);
            proof {
                let n = self.seen@.len();
                let tc = self.to_clear@;
                assert forall|i: int| 0 <= i < tc.len() implies self.seen@[(#[trigger] tc[i]).code_spec() as int] by {
                    assert(tc[i].code_spec() != var.code_spec());
                }
                assert forall|v: int| 0 <= v < n && #[trigger] self.seen@[v] implies exists|i: int| 0 <= i < tc.len() && tc[i].code_spec() == v by {
                    assert(before[v]);
                    let i = choose|i: int| 0 <= i < tc_before.len() && tc_before[i].code_spec() == v;
                    assert(i < tc.len());
                    assert(tc[i] == tc_before[i]);
                }
                assert(self.to_clear@.subrange(0, top as int) =~= old(self).to_clear@.subrange(0, top as int));
            }
        }
        proof {
            assert(self.to_clear@ =~= old(self).to_clear@.subrange(0, top as int));
        }
    }

    /// Mark the variable of a literal assigned above the root the first time it is seen: count
    /// it when it was assigned at the current level, otherwise keep the literal for the learned
    /// clause.
    fn add_literal<SearchProc: Brancher>(&mut self, lit: Lit, search_tree: &SearchTree, brancher: &mut SearchProc)
        requires
            old(self).marks_consistent(),
            lit.var_code() < old(self).num_vars(),
            search_tree.levels().len() == old(self).num_vars(),
            old(self).current_level_count <= old(self).to_clear@.len(),
            old(self).buffer@.len() <= old(self).to_clear@.len() + 1,
        ensures
            final(self).marks_consistent(),
            final(self).num_vars() == old(self).num_vars(),
            final(self).current_level_count <= final(self).to_clear@.len(),
            final(self).buffer@.len() <= final(self).to_clear@.len() + 1,
            final(self).to_clear@.len() >= old(self).to_clear@.len(),
            final(self).current_level_count >= old(self).current_level_count,
            lits_below(old(self).buffer@, old(self).num_vars()) ==> lits_below(final(self).buffer@, old(self).num_vars()),
            final(self).buffer@.len() >= old(self).buffer@.len(),
            final(self).buffer@.subrange(0, old(self).buffer@.len() as int) == old(self).buffer@,
            final(self).stack@ == old(self).stack@,
            ({
                let v = lit.var_code() as int;
                let level = search_tree.levels()[v];
                if level > 0 && !old(self).seen@[v] {
                    &&& final(self).seen@ == old(self).seen@.update(v, true)
                    &&& final(self).to_clear@ == old(self).to_clear@.push(final(self).to_clear@.last())
                    &&& final(self).to_clear@.last().code_spec() == lit.var_code()
                    &&& level == search_tree.depth_spec() ==> final(self).current_level_count == old(self).current_level_count + 1 && final(self).buffer@ == old(self).buffer@
                    &&& level != search_tree.depth_spec() ==> final(self).current_level_count == old(self).current_level_count && final(self).buffer@ == old(self).buffer@.push(lit)
                } else {
                    &&& final(self).seen@ == old(self).seen@
                    &&& final(self).to_clear@ == old(self).to_clear@
                    &&& final(self).current_level_count == old(self).current_level_count
                    &&& final(self).buffer@ == old(self).buffer@
                }
            }),
    {
        let var = lit.var();
        if search_tree.decision_level(var) > 0 && !*self.seen.get(var) {
            self.mark(var);
            proof {
                self.lemma_marks_bounded();
            }
            assert(self.marks_consistent());
            brancher.on_variable_activated(var);
            assert(self.marks_consistent());
            if search_tree.decision_level(var) == search_tree.depth() {
                self.current_level_count = self.current_level_count + 1;
            } else {
                self.buffer.push(lit);
            }
            assert(self.marks_consistent());
            proof {
                assert(self.buffer@.subrange(0, old(self).buffer@.len() as int) =~= old(self).buffer@);
            }
        } else {
            proof {
                assert(self.buffer@.subrange(0, old(self).buffer@.len() as int) =~= old(self).buffer@);
            }
        }
    }
}

impl ConflictAnalyzer {
    /// Exchange two literals of the buffer.
    fn swap_buffer(&mut self, i: usize, j: usize)
        requires
            i < old(self).buffer@.len(),
            j < old(self).buffer@.len(),
        ensures
            final(self).buffer@ == old(self).buffer@.update(i as int, old(self).buffer@[j as int]).update(j as int, old(self).buffer@[i as int]),
            final(self).seen@ == old(self).seen@,
            final(self).to_clear@ == old(self).to_clear@,
            final(self).stack@ == old(self).stack@,
            final(self).current_level_count == old(self).current_level_count,
    {
        let a = self.buffer[i];
        let b = self.buffer[j];
        self.buffer.set(i, b);
        self.buffer.set(j, a);
    }

    /// Remove from the buffer the literals, other than the first, which are implied by the
    /// others.
    fn minimize_clause(&mut self, clauses: &ClauseDb, implication_graph: &ImplicationGraph, search_tree: &SearchTree)
        requires
            old(self).marks_consistent(),
            db_below(*clauses, old(self).num_vars()),
            reasons_in(implication_graph.reasons_spec(), *clauses, old(self).num_vars()),
            search_tree.levels().len() == old(self).num_vars(),
            lits_below(old(self).buffer@, old(self).num_vars()),
        ensures
            final(self).marks_consistent(),
            final(self).num_vars() == old(self).num_vars(),
            lits_below(final(self).buffer@, old(self).num_vars()),
            final(self).buffer@.len() <= old(self).buffer@.len(),
            old(self).buffer@.len() > 0 ==> final(self).buffer@.len() > 0 && final(self).buffer@[0] == old(self).buffer@[0],
            forall|l: Lit| final(self).buffer@.contains(l) ==> old(self).buffer@.contains(l),
            forall|k: int| 0 <= k < old(self).buffer@.len() && (#[trigger] implication_graph.reasons_spec()[old(self).buffer@[k].var_code() as int]) is Decision
                ==> final(self).buffer@.contains(old(self).buffer@[k]),
            forall|i: int| 1 <= i < final(self).buffer@.len() ==> #[trigger] old(self).buffer@.subrange(1, old(self).buffer@.len() as int).contains(final(self).buffer@[i]),
            final(self).buffer@.to_multiset().subset_of(old(self).buffer@.to_multiset()),
            final(self).to_clear@.len() >= old(self).to_clear@.len(),
            final(self).to_clear@.subrange(0, old(self).to_clear@.len() as int) == old(self).to_clear@,
            forall|l: Lit| old(self).buffer@.contains(l) && !final(self).buffer@.contains(l) ==> justified(l.var_code() as int, implication_graph.reasons_spec(), *clauses, search_tree.levels(), final(self).seen@),
            forall|j: int| old(self).to_clear@.len() <= j < final(self).to_clear@.len() ==> justified((#[trigger] final(self).to_clear@[j]).code_spec() as int, implication_graph.reasons_spec(), *clauses, search_tree.levels(), final(self).seen@),
    {
        let ghost n = self.num_vars();
        let mut idx: usize = 0;
        let ghost b0 = self.buffer@;
        proof {
            assert(b0.to_multiset().subset_of(b0.to_multiset()));
            assert forall|i: int| 1 <= i < self.buffer@.len() implies #[trigger] b0.subrange(1, b0.len() as int).contains(self.buffer@[i]) by {
                assert(self.buffer@[i] == b0.subrange(1, b0.len() as int)[i - 1]);
            }
        }
        while self.buffer.len() > 0 && idx < self.buffer.len() - 1
            invariant
                self.marks_consistent(),
                self.num_vars() == n,
                n == old(self).num_vars(),
                db_below(*clauses, n),
                reasons_in(implication_graph.reasons_spec(), *clauses, n),
                search_tree.levels().len() == n,
                lits_below(self.buffer@, n),
                self.buffer@.len() <= old(self).buffer@.len(),
                old(self).buffer@.len() > 0 ==> self.buffer@.len() > 0 && self.buffer@[0] == old(self).buffer@[0],
                idx <= self.buffer@.len(),
                forall|l: Lit| self.buffer@.contains(l) ==> old(self).buffer@.contains(l),
                forall|k: int| 0 <= k < old(self).buffer@.len() && (#[trigger] implication_graph.reasons_spec()[old(self).buffer@[k].var_code() as int]) is Decision
                    ==> self.buffer@.contains(old(self).buffer@[k]),
                b0 == old(self).buffer@,
                forall|i: int| 1 <= i < self.buffer@.len() ==> #[trigger] b0.subrange(1, b0.len() as int).contains(self.buffer@[i]),
                self.buffer@.to_multiset().subset_of(b0.to_multiset()),
                self.to_clear@.len() >= old(self).to_clear@.len(),
                self.to_clear@.subrange(0, old(self).to_clear@.len() as int) == old(self).to_clear@,
                forall|l: Lit| old(self).buffer@.contains(l) && !self.buffer@.contains(l) ==> justified(l.var_code() as int, implication_graph.reasons_spec(), *clauses, search_tree.levels(), self.seen@),
                forall|j: int| old(self).to_clear@.len() <= j < self.to_clear@.len() ==> justified((#[trigger] self.to_clear@[j]).code_spec() as int, implication_graph.reasons_spec(), *clauses, search_tree.levels(), self.seen@),
            decreases self.buffer@.len() - idx,
        {
            assert(self.marks_consistent());
            idx = idx + 1;
            let lit = self.buffer[idx];
            let is_decision = match implication_graph.reason(lit.var()) {
                Reason::Decision => true,
                _ => false,
            };
            if !is_decision {
                let ghost pre = *self;
                let red = self.lit_redundant(lit, clauses, implication_graph, search_tree);
                assert(self.marks_consistent());
                proof {
                    Self::lemma_marks_grow(pre, *self);
                    let reasons = implication_graph.reasons_spec();
                    let levels = search_tree.levels();
                    assert forall|l: Lit| old(self).buffer@.contains(l) && !self.buffer@.contains(l) implies justified(l.var_code() as int, implication_graph.reasons_spec(), *clauses, search_tree.levels(), self.seen@) by {
                        lemma_justified_grows(l.var_code() as int, reasons, *clauses, levels, pre.seen@, self.seen@);
                    }
                    assert forall|j: int| old(self).to_clear@.len() <= j < self.to_clear@.len() implies justified((#[trigger] self.to_clear@[j]).code_spec() as int, implication_graph.reasons_spec(), *clauses, search_tree.levels(), self.seen@) by {
                        if j < pre.to_clear@.len() {
                            assert(self.to_clear@[j] == self.to_clear@.subrange(0, pre.to_clear@.len() as int)[j]);
                            assert(pre.to_clear@[j] == self.to_clear@[j]);
                            lemma_justified_grows(self.to_clear@[j].code_spec() as int, reasons, *clauses, levels, pre.seen@, self.seen@);
                        }
                    }
                    assert(self.to_clear@.subrange(0, old(self).to_clear@.len() as int) =~= pre.to_clear@.subrange(0, old(self).to_clear@.len() as int)) by {
                        assert forall|j: int| 0 <= j < old(self).to_clear@.len() implies self.to_clear@[j] == pre.to_clear@[j] by {
                            assert(self.to_clear@.subrange(0, pre.to_clear@.len() as int)[j] == pre.to_clear@[j]);
                        }
                    }
                }
                if red {
                    let ghost before = self.buffer@;
                    let ghost seen_before = self.seen;
                    let ghost tc_before = self.to_clear@;
                    self.buffer.swap_remove(idx);
                    assert(self.seen == seen_before);
                    assert(self.to_clear@ == tc_before);
                    proof {
                        assert forall|i: int| 0 <= i < self.buffer@.len() implies (#[trigger] self.buffer@[i]).var_code() < n by {
                            if i == idx {
                                assert(self.buffer@[i] == before[before.len() - 1]);
                            } else {
                                assert(self.buffer@[i] == before[i]);
                            }
                        }
                        assert forall|l: Lit| self.buffer@.contains(l) implies old(self).buffer@.contains(l) by {
                            let i = choose|i: int| 0 <= i < self.buffer@.len() && self.buffer@[i] == l;
                            if i == idx {
                                assert(before.contains(before[before.len() - 1]));
                            } else {
                                assert(before.contains(before[i]));
                            }
                        }
                        assert forall|k: int| 0 <= k < old(self).buffer@.len() && (#[trigger] implication_graph.reasons_spec()[old(self).buffer@[k].var_code() as int]) is Decision
                            implies self.buffer@.contains(old(self).buffer@[k]) by {
                            let x = old(self).buffer@[k];
                            assert(before.contains(x));
                            let p = choose|p: int| 0 <= p < before.len() && before[p] == x;
                            assert(p != idx);
                            if p == before.len() - 1 {
                                assert(self.buffer@[idx as int] == x);
                            } else {
                                assert(self.buffer@[p] == x);
                            }
                        }
                        let last = before.len() - 1;
                        let upd = before.update(idx as int, before.last());
                        vstd::seq_lib::to_multiset_update(before, idx as int, before.last());
                        vstd::seq_lib::to_multiset_remove(upd, last);
                        assert(upd.remove(last) =~= self.buffer@);
                        assert(upd[last] == before.last());
                        assert(self.buffer@.to_multiset() =~= before.to_multiset().remove(before[idx as int])) by {
                            broadcast use vstd::multiset::group_multiset_axioms;
                        }
                        assert(self.buffer@.to_multiset().subset_of(b0.to_multiset())) by {
                            broadcast use vstd::multiset::group_multiset_axioms;
                        }
                        assert forall|l: Lit| old(self).buffer@.contains(l) && !self.buffer@.contains(l) implies justified(l.var_code() as int, implication_graph.reasons_spec(), *clauses, search_tree.levels(), self.seen@) by {
                            if l != lit && before.contains(l) {
                                let p = choose|p: int| 0 <= p < before.len() && before[p] == l;
                                assert(p != idx);
                                if p == before.len() - 1 {
                                    assert(self.buffer@[idx as int] == l);
                                } else {
                                    assert(self.buffer@[p] == l);
                                }
                            }
                        }
                        assert forall|i: int| 1 <= i < self.buffer@.len() implies #[trigger] b0.subrange(1, b0.len() as int).contains(self.buffer@[i]) by {
                            if i == idx {
                                assert(self.buffer@[i] == before[before.len() - 1]);
                                assert(b0.subrange(1, b0.len() as int).contains(before[before.len() - 1]));
                            } else {
                                assert(self.buffer@[i] == before[i]);
                                assert(b0.subrange(1, b0.len() as int).contains(before[i]));
                            }
                        }
                    }
                    assert(self.marks_consistent());
                }
            } else {
                assert(self.marks_consistent());
            }
        }
    }

    /// Learn a clause from the conflicting clause, following the 1-UIP strategy: resolve the
    /// conflict with the reasons of the literals of the current decision level, latest first,
    /// until one literal of that level is left; then drop the literals implied by the others.
    /// The asserting literal comes first, a literal of the backjump level second; no other
    /// literal was assigned at the current decision level.
    pub fn analyze<SearchProc: Brancher>(
        &mut self,
        confl: ClauseRef,
        clauses: &mut ClauseDb,
        implication_graph: &ImplicationGraph,
        search_tree: &SearchTree,
        trail: &Trail,
        brancher: &mut SearchProc,
    ) -> (analysis: Analysis<'_>)
        requires
            old(self).wf(),
            db_below(*old(clauses), old(self).num_vars()),
            old(clauses).contains(confl),
            reasons_in(implication_graph.reasons_spec(), *old(clauses), old(self).num_vars()),
            search_tree.levels().len() == old(self).num_vars(),
            lits_below(trail.lits(), old(self).num_vars()),
            old(clauses).clauses_spec().len() + trail.lits().len() < u32::MAX,
        ensures
            final(self).wf(),
            final(self).num_vars() == old(self).num_vars(),
            db_grows(*final(clauses), *old(clauses), old(self).num_vars()),
            final(clauses).clauses_spec().len() <= old(clauses).clauses_spec().len() + trail.lits().len(),
            lits_below(analysis.learned_clause@, old(self).num_vars()),
            forall|i: int| 1 <= i < analysis.learned_clause@.len() ==> search_tree.levels()[(#[trigger] analysis.learned_clause@[i]).var_code() as int] <= analysis.backjump_level,
            analysis.learned_clause@.len() > 1 ==> search_tree.levels()[analysis.learned_clause@[1].var_code() as int] == analysis.backjump_level,
            analysis.learned_clause@.len() <= 1 ==> analysis.backjump_level == 0,
            off_current_level(analysis.learned_clause@, 1, *search_tree),
    {
        let ghost n = self.num_vars();
        let ghost db0 = *clauses;
        self.current_level_count = 0;
        self.buffer.clear();
        let mut confl = confl;
        let mut t = trail.len();
        let mut done = false;
        proof {
            assert(clauses.clauses_spec().subrange(0, db0.clauses_spec().len() as int) =~= db0.clauses_spec());
        }
        while t > 0 && !done
            invariant
                self.marks_consistent(),
                self.num_vars() == n,
                t <= trail.lits().len(),
                db_grows(*clauses, db0, n),
                db_below(db0, n),
                clauses.contains(confl),
                clauses.clauses_spec().len() <= db0.clauses_spec().len() + trail.lits().len() - t,
                db0.clauses_spec().len() + trail.lits().len() < u32::MAX,
                reasons_in(implication_graph.reasons_spec(), db0, n),
                search_tree.levels().len() == n,
                lits_below(trail.lits(), n),
                lits_below(self.buffer@, n),
                !done ==> self.current_level_count <= self.to_clear@.len(),
                !done ==> self.buffer@.len() <= self.to_clear@.len() + 1,
                !done ==> off_current_level(self.buffer@, 0, *search_tree),
                done ==> off_current_level(self.buffer@, 1, *search_tree),
            decreases t,
        {
            t = t - 1;
            let lit = trail.get(t);
            let m = clauses.clause_len(confl);
            let mut i: usize = 0;
            while i < m
                invariant
                    self.marks_consistent(),
                    self.num_vars() == n,
                    i <= m,
                    m == clauses.clause(confl).len(),
                    clauses.contains(confl),
                    db_grows(*clauses, db0, n),
                    search_tree.levels().len() == n,
                    lits_below(self.buffer@, n),
                    self.current_level_count <= self.to_clear@.len(),
                    self.buffer@.len() <= self.to_clear@.len() + 1,
                    off_current_level(self.buffer@, 0, *search_tree),
                decreases m - i,
            {
                let p = clauses.lit(confl, i);
                proof {
                    assert(lits_below(clauses.clauses_spec()[confl.index_spec() as int], n));
                    assert(p.var_code() < n);
                }
                self.add_literal(p, search_tree, brancher);
                i = i + 1;
            }
            if self.current_level_count == 0 {
                done = true;
            } else if *self.seen.get(lit.var()) {
                self.current_level_count = self.current_level_count - 1;
                if self.current_level_count == 0 {
                    self.buffer.push(core::ops::Not::not(lit));
                    let last = self.buffer.len() - 1;
                    self.swap_buffer(0, last);
                    done = true;
                } else {
                    match implication_graph.reason(lit.var()) {
                        Reason::Decision => {
                            self.buffer.push(core::ops::Not::not(lit));
                            let last = self.buffer.len() - 1;
                            self.swap_buffer(0, last);
                            done = true;
                        },
                        Reason::Clause(clause_ref) => {
                            proof {
                                assert(implication_graph.reasons_spec()[lit.var_code() as int] matches Reason::Clause(c) ==> db0.contains(c));
                            }
                            confl = *clause_ref;
                        },
                        Reason::Explanation { propagated_lit, explanation } => {
                            let lits = explained_clause(*propagated_lit, explanation);
                            let ghost before = *clauses;
                            proof {
                                assert(reason_below(implication_graph.reasons_spec()[lit.var_code() as int], n));
                            }
                            confl = clauses.add_explanation_clause(lits.as_slice());
                            proof {
                                let cs = clauses.clauses_spec();
                                assert(cs.subrange(0, db0.clauses_spec().len() as int) =~= db0.clauses_spec()) by {
                                    assert(before.clauses_spec().subrange(0, db0.clauses_spec().len() as int) == db0.clauses_spec());
                                    assert(cs.subrange(0, before.clauses_spec().len() as int) =~= before.clauses_spec());
                                }
                                assert forall|k: int| 0 <= k < lits@.len() implies (#[trigger] lits@[k]).var_code() < n by {
                                    if k > 0 {
                                        assert(lits@[k] == explanation@[k - 1].negated());
                                    }
                                }
                                assert forall|k: int| 0 <= k < cs.len() implies lits_below(#[trigger] cs[k], n) by {
                                    if k < before.clauses_spec().len() {
                                        assert(cs[k] == before.clauses_spec()[k]);
                                    }
                                }
                                assert forall|k: int| 0 <= k < cs.len() implies #[trigger] cs[k].len() >= 2 by {
                                    if k < before.clauses_spec().len() {
                                        assert(cs[k] == before.clauses_spec()[k]);
                                    }
                                }
                            }
                        },
                    }
                }
            }
        }
        proof {
            assert(reasons_in(implication_graph.reasons_spec(), *clauses, n)) by {
                assert forall|v: int| 0 <= v < n implies (#[trigger] implication_graph.reasons_spec()[v] matches Reason::Clause(c) ==> clauses.contains(c)) by {
                    assert(implication_graph.reasons_spec()[v] matches Reason::Clause(c) ==> db0.contains(c));
                }
            }
        }
        let ghost before_min = self.buffer@;
        proof {
            assert(off_current_level(before_min, 1, *search_tree));
        }
        self.minimize_clause(clauses, implication_graph, search_tree);
        proof {
            let b = self.buffer@;
            assert forall|k: int| 1 <= k < b.len() implies search_tree.levels()[(#[trigger] b[k]).var_code() as int] != search_tree.depth_spec() by {
                let tail = before_min.subrange(1, before_min.len() as int);
                assert(tail.contains(b[k]));
                let j = choose|j: int| 0 <= j < tail.len() && tail[j] == b[k];
                assert(before_min[j + 1] == b[k]);
            }
        }
        self.unmark_from(0);
        let mut best_idx: usize = 0;
        let mut best_level: usize = 0;
        let mut i: usize = 1;
        while i < self.buffer.len()
            invariant
                1 <= i,
                lits_below(self.buffer@, n),
                search_tree.levels().len() == n,
                best_idx < i,
                best_idx == 0 ==> best_level == 0,
                best_idx > 0 ==> best_idx < self.buffer@.len() && search_tree.levels()[self.buffer@[best_idx as int].var_code() as int] == best_level,
                forall|k: int| 1 <= k < i && k < self.buffer@.len() ==> search_tree.levels()[(#[trigger] self.buffer@[k]).var_code() as int] <= best_level,
                i >= 2 && i <= self.buffer@.len() ==> best_idx > 0,
            decreases self.buffer@.len() - i,
        {
            let level = search_tree.decision_level(self.buffer[i].var());
            if level >= best_level {
                best_idx = i;
                best_level = level;
            }
            i = i + 1;
        }
        let ghost before_swap = self.buffer@;
        proof {
            assert(off_current_level(before_swap, 1, *search_tree));
        }
        if best_idx > 1 {
            self.swap_buffer(1, best_idx);
        }
        proof {
            let b = self.buffer@;
            assert forall|k: int| 1 <= k < b.len() implies search_tree.levels()[(#[trigger] b[k]).var_code() as int] != search_tree.depth_spec() by {
                if best_idx > 1 && k == 1 {
                    assert(b[k] == before_swap[best_idx as int]);
                } else if best_idx > 1 && k == best_idx {
                    assert(b[k] == before_swap[1]);
                } else {
                    assert(b[k] == before_swap[k]);
                }
            }
            assert(self.to_clear@.len() == 0);
            let b = self.buffer@;
            assert forall|k: int| 1 <= k < b.len() implies search_tree.levels()[(#[trigger] b[k]).var_code() as int] <= best_level by {
            }
        }
        Analysis { learned_clause: self.buffer.as_slice(), backjump_level: best_level }
    }

    /// Whether the literal at `idx` of the buffer is implied by the other marked literals: a
    /// search through the reasons that only meets marked variables or root assignments. Marks
    /// made by a failed search are undone.
    fn lit_redundant(&mut self, lit: Lit, clauses: &ClauseDb, implication_graph: &ImplicationGraph, search_tree: &SearchTree) -> (redundant: bool)
        requires
            old(self).marks_consistent(),
            lit.var_code() < old(self).num_vars(),
            db_below(*clauses, old(self).num_vars()),
            reasons_in(implication_graph.reasons_spec(), *clauses, old(self).num_vars()),
            search_tree.levels().len() == old(self).num_vars(),
        ensures
            final(self).marks_consistent(),
            final(self).num_vars() == old(self).num_vars(),
            final(self).buffer@ == old(self).buffer@,
            final(self).current_level_count == old(self).current_level_count,
            final(self).to_clear@.len() >= old(self).to_clear@.len(),
            final(self).to_clear@.subrange(0, old(self).to_clear@.len() as int) == old(self).to_clear@,
            !redundant ==> final(self).to_clear@ == old(self).to_clear@,
            redundant ==> justified(lit.var_code() as int, implication_graph.reasons_spec(), *clauses, search_tree.levels(), final(self).seen@),
            redundant ==> forall|j: int| old(self).to_clear@.len() <= j < final(self).to_clear@.len()
                ==> justified((#[trigger] final(self).to_clear@[j]).code_spec() as int, implication_graph.reasons_spec(), *clauses, search_tree.levels(), final(self).seen@),
    {
        let ghost n = self.num_vars();
        let ghost reasons = implication_graph.reasons_spec();
        let ghost levels = search_tree.levels();
        let ghost lv = lit.var_code() as int;
        self.stack.clear();
        self.stack.push(core::ops::Not::not(lit));
        let top = self.to_clear.len();
        proof {
            assert(self.to_clear@.subrange(0, top as int) =~= self.to_clear@);
            assert(self.stack@[0].var_code() == lv);
        }
        loop
            invariant
                self.marks_consistent(),
                self.num_vars() == n,
                n == old(self).num_vars(),
                top <= self.to_clear@.len(),
                self.to_clear@.subrange(0, top as int) == old(self).to_clear@,
                self.buffer@ == old(self).buffer@,
                self.current_level_count == old(self).current_level_count,
                lits_below(self.stack@, n),
                db_below(*clauses, n),
                reasons_in(implication_graph.reasons_spec(), *clauses, n),
                search_tree.levels().len() == n,
                reasons == implication_graph.reasons_spec(),
                levels == search_tree.levels(),
                lv == lit.var_code(),
                justified(lv, reasons, *clauses, levels, self.seen@) || stack_has_var(self.stack@, lv),
                forall|j: int| top <= j < self.to_clear@.len() ==> justified((#[trigger] self.to_clear@[j]).code_spec() as int, reasons, *clauses, levels, self.seen@)
                    || stack_has_var(self.stack@, self.to_clear@[j].code_spec() as int),
            decreases n - self.to_clear@.len(), self.stack@.len(),
        {
            proof {
                self.lemma_marks_bounded();
            }
            let ghost stack_before_pop = self.stack@;
            let popped = self.stack.pop();
            let current = match popped {
                Some(l) => l,
                None => {
                    return true;
                },
            };
            let ghost w = current.var_code() as int;
            let ghost seen_at_pop = self.seen@;
            proof {
                assert(stack_before_pop.last() == current);
                assert forall|v: int| stack_has_var(stack_before_pop, v) implies v == w || stack_has_var(self.stack@, v) by {
                    let i = choose|i: int| 0 <= i < stack_before_pop.len() && stack_before_pop[i].var_code() == v;
                    if i < stack_before_pop.len() - 1 {
                        assert(self.stack@[i] == stack_before_pop[i]);
                    }
                }
            }
            let ghost to_clear_at_pop = self.to_clear@.len();
            let ghost stack_at_pop = self.stack@.len();
            let reason = implication_graph.reason(current.var());
            let reason_lits: &[Lit] = match reason {
                Reason::Decision => {
                    self.unmark_from(top);
                    return false;
                },
                Reason::Clause(clause_ref) => clauses.get(*clause_ref).lits(),
                Reason::Explanation { propagated_lit: _, explanation } => explanation.lits(),
            };
            proof {
                assert(lits_below(reason_lits@, n)) by {
                    match *reason {
                        Reason::Clause(c) => {
                            assert(lits_below(clauses.clauses_spec()[c.index_spec() as int], n));
                        },
                        _ => {},
                    }
                }
                assert(stack_before_pop.contains(current));
                assert(lits_below(stack_before_pop, n));
                assert(reason_lits@ == reason_literals(reasons[w], *clauses));
                assert forall|j: int| top <= j < self.to_clear@.len() implies (#[trigger] self.to_clear@[j]).code_spec() == w
                    || justified(self.to_clear@[j].code_spec() as int, reasons, *clauses, levels, self.seen@)
                    || stack_has_var(self.stack@, self.to_clear@[j].code_spec() as int) by {
                    if !justified(self.to_clear@[j].code_spec() as int, reasons, *clauses, levels, self.seen@) {
                        assert(stack_has_var(stack_before_pop, self.to_clear@[j].code_spec() as int));
                    }
                }
                if !justified(lv, reasons, *clauses, levels, self.seen@) {
                    assert(stack_has_var(stack_before_pop, lv));
                }
            }
            let mut k: usize = 0;
            while k < reason_lits.len()
                invariant
                    self.marks_consistent(),
                    self.num_vars() == n,
                    n == old(self).num_vars(),
                    top <= self.to_clear@.len(),
                    to_clear_at_pop <= self.to_clear@.len(),
                    self.to_clear@.subrange(0, top as int) == old(self).to_clear@,
                    self.buffer@ == old(self).buffer@,
                    self.current_level_count == old(self).current_level_count,
                    lits_below(self.stack@, n),
                    lits_below(reason_lits@, n),
                    k <= reason_lits@.len(),
                    reasons_in(implication_graph.reasons_spec(), *clauses, n),
                    search_tree.levels().len() == n,
                    self.to_clear@.len() == to_clear_at_pop ==> self.stack@.len() == stack_at_pop,
                    reasons == implication_graph.reasons_spec(),
                    levels == search_tree.levels(),
                    lv == lit.var_code(),
                    0 <= w < n,
                    !(reasons[w] is Decision),
                    reason_lits@ == reason_literals(reasons[w], *clauses),
                    self.seen@.len() == seen_at_pop.len(),
                    forall|x: int| 0 <= x < seen_at_pop.len() && #[trigger] seen_at_pop[x] ==> self.seen@[x],
                    forall|k2: int| 0 <= k2 < k ==> levels[(#[trigger] reason_lits@[k2]).var_code() as int] == 0
                        || (reason_lits@[k2].var_code() < self.seen@.len() && self.seen@[reason_lits@[k2].var_code() as int]),
                    lv == w || justified(lv, reasons, *clauses, levels, self.seen@) || stack_has_var(self.stack@, lv),
                    forall|j: int| top <= j < self.to_clear@.len() ==> (#[trigger] self.to_clear@[j]).code_spec() == w
                        || justified(self.to_clear@[j].code_spec() as int, reasons, *clauses, levels, self.seen@)
                        || stack_has_var(self.stack@, self.to_clear@[j].code_spec() as int),
                decreases reason_lits@.len() - k,
            {
                let reason_lit = reason_lits[k];
                let var = reason_lit.var();
                let reason_level = search_tree.decision_level(var);
                if !*self.seen.get(var) && reason_level > 0 {
                    match implication_graph.reason(var) {
                        Reason::Decision => {
                            self.unmark_from(top);
                            proof {
                                assert(self.to_clear@.subrange(0, top as int) =~= self.to_clear@);
                            }
                            return false;
                        },
                        _ => {
                            let ghost seen0 = self.seen@;
                            let ghost stack0 = self.stack@;
                            let ghost tc0 = self.to_clear@;
                            self.mark(var);
                            self.stack.push(core::ops::Not::not(reason_lit));
                            proof {
                                let s1 = self.seen@;
                                assert(forall|x: int| 0 <= x < seen0.len() && #[trigger] seen0[x] ==> s1[x]);
                                assert(self.stack@.last().var_code() == var.code_spec());
                                assert forall|v: int| stack_has_var(stack0, v) implies stack_has_var(self.stack@, v) by {
                                    let i = choose|i: int| 0 <= i < stack0.len() && stack0[i].var_code() == v;
                                    assert(self.stack@[i] == stack0[i]);
                                }
                                assert(stack_has_var(self.stack@, var.code_spec() as int)) by {
                                    assert(self.stack@[self.stack@.len() - 1].var_code() == var.code_spec());
                                }
                                assert forall|j: int| top <= j < self.to_clear@.len() implies (#[trigger] self.to_clear@[j]).code_spec() == w
                                    || justified(self.to_clear@[j].code_spec() as int, reasons, *clauses, levels, self.seen@)
                                    || stack_has_var(self.stack@, self.to_clear@[j].code_spec() as int) by {
                                    if j < tc0.len() {
                                        assert(self.to_clear@[j] == tc0[j]);
                                        let v = tc0[j].code_spec() as int;
                                        if v != w && justified(v, reasons, *clauses, levels, seen0) {
                                            lemma_justified_grows(v, reasons, *clauses, levels, seen0, s1);
                                        }
                                    } else {
                                        assert(self.to_clear@[j].code_spec() == var.code_spec());
                                    }
                                }
                                if lv != w && justified(lv, reasons, *clauses, levels, seen0) {
                                    lemma_justified_grows(lv, reasons, *clauses, levels, seen0, s1);
                                }
                                assert forall|k2: int| 0 <= k2 < k + 1 implies levels[(#[trigger] reason_lits@[k2]).var_code() as int] == 0
                                    || (reason_lits@[k2].var_code() < self.seen@.len() && self.seen@[reason_lits@[k2].var_code() as int]) by {
                                    if k2 < k && levels[reason_lits@[k2].var_code() as int] != 0 {
                                        assert(seen0[reason_lits@[k2].var_code() as int]);
                                    }
                                }
                                assert(self.to_clear@.subrange(0, top as int) =~= old(self).to_clear@) by {
                                    assert(self.to_clear@.subrange(0, top as int) =~= self.to_clear@.drop_last().subrange(0, top as int));
                                }
                            }
                        },
                    }
                }
                k = k + 1;
            }
            proof {
                self.lemma_marks_bounded();
                assert(justified(w, reasons, *clauses, levels, self.seen@));
            }
        }
    }
}

impl Default for ConflictAnalyzer {
    fn default() -> (analyzer: ConflictAnalyzer)
        ensures
            analyzer.wf(),
            analyzer.num_vars() == 0,
    {
        ConflictAnalyzer::new()
    }
}

} // verus!
