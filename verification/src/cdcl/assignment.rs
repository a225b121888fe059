//! The current truth values of the variables.
use vstd::prelude::*;

use super::bits::{bitvec_get, bitvec_len, bitvec_new, bitvec_resize, bitvec_set, bits_of, Bits};
use super::lit::{Lit, Var};

verus! {

/// The truth values of the variables. For every variable two bits are stored: whether it is
/// assigned, and if so, its value.
pub struct Assignment {
    snapshot: Bits,
}

/// The truth value of a literal under a given value of its variable.
pub open spec fn lit_value(var_value: Option<bool>, lit: Lit) -> Option<bool> {
    match var_value {
        Some(b) => Some(b == lit.positive_spec()),
        None => None,
    }
}

impl Assignment {
    /// The number of variables the assignment can hold.
    pub closed spec fn num_vars(&self) -> nat {
        bits_of(self.snapshot).len() / 2
    }

    /// The value of the variable with the given code.
    pub closed spec fn var_value(&self, code: nat) -> Option<bool> {
        let bits = bits_of(self.snapshot);
        if bits[(2 * code) as int] {
            Some(bits[(2 * code + 1) as int])
        } else {
            None
        }
    }

    /// The value of a literal.
    pub open spec fn value_spec(&self, lit: Lit) -> Option<bool> {
        lit_value(self.var_value(lit.var_code() as nat), lit)
    }

    /// One of the literals of the clause is true.
    pub open spec fn satisfies(&self, clause: Seq<Lit>) -> bool {
        exists|i: int| 0 <= i < clause.len() && self.value_spec(#[trigger] clause[i]) == Some(true)
    }

    /// The assignment holds the variable of this literal.
    pub open spec fn holds(&self, lit: Lit) -> bool {
        lit.var_code() < self.num_vars()
    }

    /// The bits come in pairs.
    pub closed spec fn wf(&self) -> bool {
        bits_of(self.snapshot).len() % 2 == 0
    }

    /// An assignment for no variables.
    pub fn new() -> (assignment: Assignment)
        ensures
            assignment.wf(),
            assignment.num_vars() == 0,
    {
        Assignment { snapshot: bitvec_new() }
    }

    /// Make room for every variable up to the given one. The values of the variables already
    /// held are kept, and the new variables are unassigned.
    pub fn grow_to(&mut self, var: Var)
        requires
            old(self).wf(),
            var.code_spec() < usize::MAX / 16,
        ensures
            final(self).wf(),
            final(self).num_vars() == if old(self).num_vars() > var.code_spec() {
                old(self).num_vars()
            } else {
                (var.code_spec() + 1) as nat
            },
            forall|code: nat|
                code < final(self).num_vars() ==> #[trigger] final(self).var_value(code) == if code
                    < old(self).num_vars() {
                    old(self).var_value(code)
                } else {
                    None
                },
    {
        let new_len = var_to_idx(var) + 2;
        if bitvec_len(&self.snapshot) < new_len + 1 {
            let ghost old_bits = bits_of(self.snapshot);
            bitvec_resize(&mut self.snapshot, new_len, false);
            proof {
                let bits = bits_of(self.snapshot);
                assert forall|code: nat| code < self.num_vars() implies #[trigger] self.var_value(
                    code,
                ) == if code < old(self).num_vars() {
                    old(self).var_value(code)
                } else {
                    None
                } by {
                    assert(bits[(2 * code) as int] == if 2 * code < old_bits.len() {
                        old_bits[(2 * code) as int]
                    } else {
                        false
                    });
                    assert(bits[(2 * code + 1) as int] == if 2 * code + 1 < old_bits.len() {
                        old_bits[(2 * code + 1) as int]
                    } else {
                        false
                    });
                }
            }
        }
    }

    /// The value of the literal, if its variable is assigned.
    pub fn value(&self, lit: Lit) -> (value: Option<bool>)
        requires
            self.wf(),
            self.holds(lit),
        ensures
            value == self.value_spec(lit),
    {
        let idx = lit_to_idx(lit);
        if bitvec_get(&self.snapshot, idx) {
            Some(bitvec_get(&self.snapshot, idx + 1) == lit.is_positive())
        } else {
            None
        }
    }

    /// Whether the variable of the literal is unassigned.
    pub fn is_unassigned(&self, lit: Lit) -> (unassigned: bool)
        requires
            self.wf(),
            self.holds(lit),
        ensures
            unassigned == (self.value_spec(lit) is None),
    {
        let idx = lit_to_idx(lit);
        !bitvec_get(&self.snapshot, idx)
    }

    /// Make the literal true. Only the variable of the literal changes.
    pub fn assign(&mut self, lit: Lit)
        requires
            old(self).wf(),
            old(self).holds(lit),
        ensures
            final(self).wf(),
            final(self).num_vars() == old(self).num_vars(),
            final(self).var_value(lit.var_code() as nat) == Some(lit.positive_spec()),
            forall|code: nat|
                code != lit.var_code() && code < old(self).num_vars()
                    ==> #[trigger] final(self).var_value(code) == old(self).var_value(code),
    {
        let idx = lit_to_idx(lit);
        bitvec_set(&mut self.snapshot, idx, true);
        bitvec_set(&mut self.snapshot, idx + 1, lit.is_positive());
        proof {
            assert forall|code: nat| code != lit.var_code() && code < old(self).num_vars() implies #[trigger] self.var_value(code)
                == old(self).var_value(code) by {
                assert(2 * code != idx && 2 * code != idx + 1);
                assert(2 * code + 1 != idx && 2 * code + 1 != idx + 1);
            }
        }
    }

    /// Make the variable of the literal unassigned. Only that variable changes.
    pub fn unassign(&mut self, lit: Lit)
        requires
            old(self).wf(),
            old(self).holds(lit),
        ensures
            final(self).wf(),
            final(self).num_vars() == old(self).num_vars(),
            final(self).var_value(lit.var_code() as nat) is None,
            forall|code: nat|
                code != lit.var_code() && code < old(self).num_vars()
                    ==> #[trigger] final(self).var_value(code) == old(self).var_value(code),
    {
        let idx = lit_to_idx(lit);
        bitvec_set(&mut self.snapshot, idx, false);
        proof {
            assert forall|code: nat| code != lit.var_code() && code < old(self).num_vars() implies #[trigger] self.var_value(code)
                == old(self).var_value(code) by {
                assert(2 * code != idx);
                assert(2 * code + 1 != idx);
            }
        }
    }
}

impl Default for Assignment {
    fn default() -> (assignment: Assignment)
        ensures
            assignment.wf(),
            assignment.num_vars() == 0,
    {
        Assignment::new()
    }
}

#[inline]
fn lit_to_idx(lit: Lit) -> (idx: usize)
    ensures
        idx == 2 * lit.var_code(),
{
    var_to_idx(lit.var())
}

#[inline]
fn var_to_idx(var: Var) -> (idx: usize)
    ensures
        idx == 2 * var.code_spec(),
{
    proof {
        assert(usize::MAX >= u32::MAX);
    }
    var.code() as usize * 2
}

} // verus!
