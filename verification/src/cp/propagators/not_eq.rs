//! The constraint that two variables differ.
use vstd::prelude::*;

use crate::cp::variables::{Register, Variable, VariableStore};

use super::{PropagationResult, Propagator, RegistrationContext};

verus! {

/// The propagator of `a != b`.
pub struct NotEq<VX, VY> {
    pub a: VX,
    pub b: VY,
}

/// Create a propagator for the constraint `a != b`.
pub fn not_eq<VX, VY>(a: VX, b: VY) -> (propagator: NotEq<VX, VY>)
    ensures
        propagator.a == a,
        propagator.b == b,
{
    NotEq { a, b }
}

/// What one direction of the propagation does between two stores: when `a` is fixed, its value
/// leaves `b`, and the result tells whether `b` kept a value; otherwise nothing changes.
pub open spec fn one_direction<Store: VariableStore, VX: Variable<Store>, VY: Variable<Store>>(
    a: VX,
    b: VY,
    s0: Store,
    s1: Store,
    res: PropagationResult,
) -> bool {
    if a.size_spec(&s0) == 1 {
        &&& forall|x: int| #[trigger] b.contains(&s1, x) == (b.contains(&s0, x) && x != a.min_spec(&s0))
        &&& res == if b.size_spec(&s1) > 0 { PropagationResult::Consistent } else { PropagationResult::Inconsistent }
        &&& b.var_wf(&s1)
        &&& s0.shrinks(&s1)
    } else {
        s1 == s0 && res == PropagationResult::Consistent
    }
}

/// If `a` is fixed, remove its value from `b`.
pub fn propagate_one_direction<Store: VariableStore, VX: Variable<Store>, VY: Variable<Store>>(
    a: &VX,
    b: &VY,
    store: &mut Store,
) -> (res: PropagationResult)
    requires
        a.var_wf(old(store)),
        b.var_wf(old(store)),
    ensures
        one_direction(*a, *b, *old(store), *final(store), res),
        old(store).shrinks(final(store)),
{
    proof {
        b.lemma_variable(old(store));
        old(store).lemma_shrinks_refl();
    }
    match a.fixed_value(store) {
        Some(value) => PropagationResult::from(b.remove(store, &value)),
        None => PropagationResult::Consistent,
    }
}

impl<Store: VariableStore, VX: Variable<Store> + Register<Registrar>, VY: Variable<Store> + Register<Registrar>, Registrar> Propagator<Store, Registrar> for NotEq<VX, VY> {
    open spec fn prop_wf(&self, store: &Store) -> bool {
        self.a.var_wf(store) && self.b.var_wf(store)
    }

    proof fn lemma_prop_shrink(&self, s1: &Store, s2: &Store) {
        self.a.lemma_shrink(s1, s2);
        self.b.lemma_shrink(s1, s2);
    }

    /// Register what `a` registers, then what `b` registers.
    fn initialize(&mut self, ctx: &mut Registrar)
        ensures
            *final(self) == *old(self),
            exists|mid: Registrar| old(self).a.registers(*old(ctx), mid) && old(self).b.registers(mid, *final(ctx)),
    {
        self.a.register(ctx);
        self.b.register(ctx);
    }

    /// Remove the value of a fixed `a` from `b`, then the value of a fixed `b` from `a`, stopping
    /// when a domain becomes empty.
    fn propagate(&mut self, store: &mut Store) -> (res: PropagationResult)
        ensures
            exists|mid: Store, first: PropagationResult| {
                &&& one_direction(old(self).a, old(self).b, *old(store), mid, first)
                &&& if first == PropagationResult::Inconsistent {
                    *final(store) == mid && res == PropagationResult::Inconsistent
                } else {
                    one_direction(old(self).b, old(self).a, mid, *final(store), res)
                }
            },
            *final(self) == *old(self),
    {
        let first = propagate_one_direction(&self.a, &self.b, store);
        let ghost mid = *store;
        proof {
            old(store).lemma_shrinks_narrows(store);
            self.a.lemma_shrink(old(store), store);
        }
        if first.branch() {
            return PropagationResult::Inconsistent;
        }
        let res = propagate_one_direction(&self.b, &self.a, store);
        proof {
            old(store).lemma_shrinks_trans(&mid, store);
        }
        res
    }
}

} // verus!
