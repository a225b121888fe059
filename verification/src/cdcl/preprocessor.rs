//! Simplification of clauses before they are added to the solver.
use vstd::prelude::*;

use super::assignment::Assignment;
use super::lit::{group_lit, Lit};

verus! {

broadcast use group_lit;

/// Performs pre-processing on clauses that are added to the solver.
pub struct ClausePreProcessor {
    /// The buffer on which preprocessing operates.
    buffer: Vec<Lit>,
}

/// The outcome of preprocessing a clause.
#[derive(Debug, PartialEq, Eq)]
pub enum PreProcessedClause<'a> {
    /// The clause is already satisfied. Either because it contained a literal already assigned to
    /// true, or because it contained literals of opposite polarity.
    Satisfiable,
    /// The remaining literals after preprocessing. Note: there might be 0 literals remaining, in
    /// which case the problem is unsatisfiable.
    Lits(&'a [Lit]),
}

/// The literals are in strictly increasing order of their codes.
pub open spec fn strictly_sorted(s: Seq<Lit>) -> bool {
    forall|i: int, j: int| 0 <= i < j < s.len() ==> #[trigger] s[i].code_spec() < #[trigger] s[j].code_spec()
}

/// The clause is trivially satisfied: one of its literals is true, or it holds a literal and its
/// negation.
pub open spec fn trivially_satisfied(lits: Seq<Lit>, assignment: Assignment) -> bool {
    ||| exists|i: int| 0 <= i < lits.len() && #[trigger] assignment.value_spec(lits[i]) == Some(true)
    ||| exists|i: int, j: int| 0 <= i < lits.len() && 0 <= j < lits.len() && #[trigger] lits[j] == (#[trigger] lits[i]).negated()
}

/// In a strictly sorted sequence, two codes that follow each other sit at adjacent positions.
proof fn lemma_consecutive_codes_adjacent(s: Seq<Lit>, i: int, j: int)
    requires
        strictly_sorted(s),
        0 <= i < s.len(),
        0 <= j < s.len(),
        s[j].code_spec() == s[i].code_spec() + 1,
    ensures
        j == i + 1,
{
    if j <= i {
        assert(s[j].code_spec() <= s[i].code_spec()) by {
            if j < i {
                assert(s[j].code_spec() < s[i].code_spec());
            }
        }
    } else if j > i + 1 {
        assert(s[i].code_spec() < s[i + 1].code_spec());
        assert(s[i + 1].code_spec() < s[j].code_spec());
    }
}

impl ClausePreProcessor {
    /// The literals the last preprocessing left in the buffer.
    pub closed spec fn buffer_spec(&self) -> Seq<Lit> {
        self.buffer@
    }

    /// A preprocessor with an empty buffer.
    pub fn new() -> (p: ClausePreProcessor)
        ensures
            p.buffer_spec() == Seq::<Lit>::empty(),
    {
        ClausePreProcessor { buffer: Vec::new() }
    }

    /// Insert the literal into the sorted buffer, unless it is already there.
    fn insert_sorted(&mut self, lit: Lit)
        requires
            strictly_sorted(old(self).buffer@),
        ensures
            strictly_sorted(final(self).buffer@),
            forall|l: Lit| final(self).buffer@.contains(l) <==> (old(self).buffer@.contains(l) || l == lit),
    {
        let mut k: usize = 0;
        while k < self.buffer.len() && self.buffer[k].code() < lit.code()
            invariant
                k <= self.buffer@.len(),
                self.buffer@ == old(self).buffer@,
                forall|i: int| 0 <= i < k ==> #[trigger] self.buffer@[i].code_spec() < lit.code_spec(),
            decreases self.buffer@.len() - k,
        {
            k = k + 1;
        }
        if k < self.buffer.len() && self.buffer[k].code() == lit.code() {
            return;
        }
        let ghost old_buf = self.buffer@;
        self.buffer.insert(k, lit);
        proof {
            let buf = self.buffer@;
            assert forall|i: int, j: int| 0 <= i < j < buf.len() implies #[trigger] buf[i].code_spec()
                < #[trigger] buf[j].code_spec() by {
                if k < old_buf.len() {
                    assert(old_buf[k as int].code_spec() > lit.code_spec());
                }
                if j < k {
                } else if i < k && j == k {
                } else if i < k && j > k {
                    assert(buf[j] == old_buf[j - 1]);
                    if k < old_buf.len() {
                        assert(old_buf[k as int].code_spec() <= old_buf[j - 1].code_spec()) by {
                            if k < j - 1 {
                                assert(old_buf[k as int].code_spec() < old_buf[j - 1].code_spec());
                            }
                        }
                    }
                } else if i == k {
                    assert(buf[j] == old_buf[j - 1]);
                    assert(old_buf[k as int].code_spec() <= old_buf[j - 1].code_spec()) by {
                        if k < j - 1 {
                            assert(old_buf[k as int].code_spec() < old_buf[j - 1].code_spec());
                        }
                    }
                } else {
                    assert(buf[i] == old_buf[i - 1]);
                    assert(buf[j] == old_buf[j - 1]);
                }
            }
            assert forall|l: Lit| buf.contains(l) <==> (old_buf.contains(l) || l == lit) by {
                if buf.contains(l) {
                    let i = choose|i: int| 0 <= i < buf.len() && buf[i] == l;
                    if i < k {
                        assert(old_buf[i] == l);
                    } else if i > k {
                        assert(old_buf[i - 1] == l);
                    }
                }
                if old_buf.contains(l) {
                    let i = choose|i: int| 0 <= i < old_buf.len() && old_buf[i] == l;
                    if i < k {
                        assert(buf[i] == l);
                    } else {
                        assert(buf[i + 1] == l);
                    }
                }
                if l == lit {
                    assert(buf[k as int] == l);
                }
            }
        }
    }

    /// Sort and deduplicate the literals of a clause. The clause is reported satisfiable when one
    /// of its literals is true under the assignment, or when it holds a literal and its negation;
    /// otherwise the distinct literals are returned in increasing order of their codes.
    pub fn preprocess<'a>(&'a mut self, lits: &[Lit], assignment: &Assignment) -> (result:
        PreProcessedClause<'a>)
        requires
            assignment.wf(),
            forall|i: int| 0 <= i < lits@.len() ==> assignment.holds(#[trigger] lits@[i]),
        ensures
            result is Satisfiable <==> trivially_satisfied(lits@, *assignment),
            result matches PreProcessedClause::Lits(s) ==> {
                &&& strictly_sorted(s@)
                &&& forall|l: Lit| s@.contains(l) <==> lits@.contains(l)
            },
    {
        self.buffer.clear();
        let mut n: usize = 0;
        while n < lits.len()
            invariant
                n <= lits@.len(),
                strictly_sorted(self.buffer@),
                forall|l: Lit| self.buffer@.contains(l) <==> lits@.subrange(0, n as int).contains(l),
            decreases lits@.len() - n,
        {
            let ghost before = self.buffer@;
            self.insert_sorted(lits[n]);
            proof {
                let s0 = lits@.subrange(0, n as int);
                let s1 = lits@.subrange(0, n + 1);
                assert forall|l: Lit| self.buffer@.contains(l) <==> s1.contains(l) by {
                    if s1.contains(l) {
                        let i = choose|i: int| 0 <= i < n + 1 && #[trigger] s1[i] == l;
                        if i < n {
                            assert(s0[i] == l);
                        }
                    }
                    if s0.contains(l) {
                        let i = choose|i: int| 0 <= i < n && #[trigger] s0[i] == l;
                        assert(s1[i] == l);
                    }
                    if l == lits@[n as int] {
                        assert(s1[n as int] == l);
                    }
                }
            }
            n = n + 1;
        }
        proof {
            assert(lits@.subrange(0, lits@.len() as int) =~= lits@);
        }
        let ghost buf = self.buffer@;
        let mut i: usize = 0;
        while i < self.buffer.len()
            invariant
                self.buffer@ == buf,
                i <= buf.len(),
                strictly_sorted(buf),
                forall|l: Lit| buf.contains(l) <==> lits@.contains(l),
                assignment.wf(),
                forall|k: int| 0 <= k < lits@.len() ==> assignment.holds(#[trigger] lits@[k]),
                forall|k: int| 0 <= k < i ==> #[trigger] assignment.value_spec(buf[k]) != Some(true),
                forall|k: int| 0 <= k < i && k + 1 < buf.len() ==> buf[k + 1] != (#[trigger] buf[k]).negated(),
            decreases buf.len() - i,
        {
            let x = self.buffer[i];
            proof {
                assert(buf.contains(x));
                let k = choose|k: int| 0 <= k < lits@.len() && lits@[k] == x;
                assert(assignment.holds(lits@[k]));
            }
            if assignment.value(x) == Some(true) {
                proof {
                    let k = choose|k: int| 0 <= k < lits@.len() && lits@[k] == x;
                    assert(assignment.value_spec(lits@[k]) == Some(true));
                }
                return PreProcessedClause::Satisfiable;
            }
            if i + 1 < self.buffer.len() {
                let y = self.buffer[i + 1];
                if x.code() == core::ops::Not::not(y).code() {
                    proof {
                        assert(buf.contains(y));
                        let kx = choose|k: int| 0 <= k < lits@.len() && lits@[k] == x;
                        let ky = choose|k: int| 0 <= k < lits@.len() && lits@[k] == y;
                        assert(lits@[kx] == lits@[ky].negated());
                    }
                    return PreProcessedClause::Satisfiable;
                }
            }
            i = i + 1;
        }
        proof {
            if trivially_satisfied(lits@, *assignment) {
                if exists|k: int| 0 <= k < lits@.len() && #[trigger] assignment.value_spec(lits@[k]) == Some(true) {
                    let k = choose|k: int| 0 <= k < lits@.len() && #[trigger] assignment.value_spec(lits@[k]) == Some(true);
                    assert(lits@.contains(lits@[k]));
                    assert(buf.contains(lits@[k]));
                    let m = choose|m: int| 0 <= m < buf.len() && buf[m] == lits@[k];
                    assert(assignment.value_spec(buf[m]) != Some(true));
                } else {
                    let (a, b) = choose|a: int, b: int| 0 <= a < lits@.len() && 0 <= b < lits@.len() && #[trigger] lits@[b] == (#[trigger] lits@[a]).negated();
                    assert(lits@.contains(lits@[a]));
                    assert(lits@.contains(lits@[b]));
                    assert(buf.contains(lits@[a]));
                    assert(buf.contains(lits@[b]));
                    let ma = choose|m: int| 0 <= m < buf.len() && buf[m] == lits@[a];
                    let mb = choose|m: int| 0 <= m < buf.len() && buf[m] == lits@[b];
                    if lits@[a].positive_spec() {
                        assert(buf[ma].code_spec() == buf[mb].code_spec() + 1);
                        lemma_consecutive_codes_adjacent(buf, mb, ma);
                        assert(buf[mb + 1] == buf[mb].negated());
                    } else {
                        assert(buf[mb].code_spec() == buf[ma].code_spec() + 1);
                        lemma_consecutive_codes_adjacent(buf, ma, mb);
                        assert(buf[ma + 1] == buf[ma].negated());
                    }
                }
            }
        }
        PreProcessedClause::Lits(self.buffer.as_slice())
    }
}

impl Default for ClausePreProcessor {
    fn default() -> (p: ClausePreProcessor) {
        ClausePreProcessor::new()
    }
}

} // verus!
