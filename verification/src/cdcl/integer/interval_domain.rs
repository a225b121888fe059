//! Integer domains given by a lower and an upper bound, encoded with one literal per bound.
use vstd::prelude::*;

use crate::cdcl::domains::{Conflict, Domain};
use crate::cdcl::lit::{group_lit, Lit};
use crate::cdcl::propagation::{lits_below, propagator_conflict, Context, Explanation, LocalId, PropagatorVar};

use super::{Int, IntEvent};

verus! {

broadcast use group_lit;

/// An integer domain defined by an upper and lower bound. This domain does not support removing
/// individual values. Only operations on the bounds of the domain are supported.
///
/// The literal at position `i` stands for `[x >= lower_bound + i]`, where `lower_bound` is the
/// bound the domain was created with.
pub struct IntInterval {
    lower_bound: Int,
    upper_bound: Int,
    origin: Int,
    literals: Vec<Lit>,
}

/// Builds an [`IntInterval`] domain.
#[derive(Clone, Copy, Debug)]
pub struct IntIntervalFactory {
    pub lower_bound: Int,
    pub upper_bound: Int,
}

/// The position of the literal for `[x >= value]`, in a domain created with the given lower bound
/// and holding `len` literals: the distance between the value and the lower bound, capped at the
/// last literal.
pub open spec fn literal_index(origin: Int, len: nat, value: Int) -> int {
    let diff = if value >= origin { value - origin } else { origin - value };
    if diff < len - 1 { diff } else { len - 1 }
}

impl IntInterval {
    /// A factory for a domain with the given bounds.
    pub fn factory(lower_bound: Int, upper_bound: Int) -> (factory: IntIntervalFactory)
        ensures
            factory.lower_bound == lower_bound,
            factory.upper_bound == upper_bound,
    {
        IntIntervalFactory { lower_bound, upper_bound }
    }

    /// The current lower bound.
    pub closed spec fn min_spec(&self) -> Int {
        self.lower_bound
    }

    /// The current upper bound.
    pub closed spec fn max_spec(&self) -> Int {
        self.upper_bound
    }

    /// The lower bound the domain was created with.
    pub closed spec fn origin_spec(&self) -> Int {
        self.origin
    }

    /// The literals of the domain, by position.
    pub closed spec fn literals_spec(&self) -> Seq<Lit> {
        self.literals@
    }

    /// The literal standing for `[x >= value]`, as [`IntInterval::literal`] finds it.
    pub open spec fn literal_spec(&self, value: Int) -> Lit {
        self.literals_spec()[literal_index(self.origin_spec(), self.literals_spec().len(), value)]
    }

    /// Build a domain from its bounds and its literals.
    pub fn from_literals(lower_bound: Int, upper_bound: Int, literals: Vec<Lit>) -> (domain: IntInterval)
        ensures
            domain.min_spec() == lower_bound,
            domain.max_spec() == upper_bound,
            domain.origin_spec() == lower_bound,
            domain.literals_spec() == literals@,
    {
        IntInterval { lower_bound, upper_bound, origin: lower_bound, literals }
    }

    /// The literal standing for `[x >= value]`; values outside the domain map to the literal of
    /// the nearest end.
    #[inline]
    pub fn literal(&self, value: Int) -> (lit: Lit)
        requires
            self.literals_spec().len() > 0,
        ensures
            lit == self.literals_spec()[literal_index(self.origin_spec(), self.literals_spec().len(), value)],
    {
        let diff: i64 = if value >= self.origin {
            value as i64 - self.origin as i64
        } else {
            self.origin as i64 - value as i64
        };
        let last = self.literals.len() - 1;
        let idx: usize = if (diff as u64) < (last as u64) { diff as usize } else { last };
        self.literals[idx]
    }

    /// The upper bound of the domain.
    pub fn max(&self) -> (max: Int)
        ensures
            max == self.max_spec(),
    {
        self.upper_bound
    }

    /// The lower bound of the domain.
    pub fn min(&self) -> (min: Int)
        ensures
            min == self.min_spec(),
    {
        self.lower_bound
    }

    /// The literal that holds when the variable is at least the given bound.
    pub fn lower_bound_lit(&self, bound: Int) -> (lit: Lit)
        requires
            self.literals_spec().len() > 0,
        ensures
            lit == self.literals_spec()[literal_index(self.origin_spec(), self.literals_spec().len(), bound)],
    {
        self.literal(bound)
    }

    /// The literal that holds when the variable is at most the given bound.
    pub fn upper_bound_lit(&self, bound: Int) -> (lit: Lit)
        requires
            self.literals_spec().len() > 0,
            bound < Int::MAX,
        ensures
            lit == self.literals_spec()[literal_index(self.origin_spec(), self.literals_spec().len(), (bound + 1) as Int)].negated(),
    {
        core::ops::Not::not(self.literal(bound + 1))
    }

    /// Tighten the lower bound of the domain to the given bound: when the bound is above the
    /// current lower bound, the literal `[x >= bound]` is made true, for the literals of the
    /// explanation, and the lower bound becomes the bound; a conflict is reported, and the domain
    /// left as it is, when that literal is false. A bound not above the lower bound changes
    /// nothing.
    pub fn set_min(&mut self, bound: Int, explanation: Explanation, ctx: &mut Context, local_id: LocalId) -> (res: Result<(), Conflict>)
        requires
            old(ctx).wf(),
            old(self).literals_spec().len() > 0,
            lits_below(old(self).literals_spec(), old(ctx).num_vars()),
            bound > old(self).min_spec() ==> explanation@.len() > 0 && lits_below(explanation@, old(ctx).num_vars()),
            bound > old(self).max_spec() && bound > old(self).min_spec() ==> old(ctx).value_spec(old(self).literal_spec(bound)) == Some(false),
        ensures
            final(ctx).wf(),
            final(ctx).extends(*old(ctx)),
            final(self).max_spec() == old(self).max_spec(),
            final(self).origin_spec() == old(self).origin_spec(),
            final(self).literals_spec() == old(self).literals_spec(),
            bound <= old(self).min_spec() ==> res is Ok && *final(ctx) == *old(ctx) && *final(self) == *old(self),
            bound > old(self).min_spec() ==> {
                let lit = old(self).literal_spec(bound);
                &&& res is Ok <==> old(ctx).value_spec(lit) != Some(false)
                &&& res is Ok ==> final(ctx).value_spec(lit) == Some(true) && final(self).min_spec() == bound
                &&& res is Err ==> *final(self) == *old(self)
                &&& res matches Err(c) ==> c == Conflict::Propagator { lit, explanation }
                &&& old(ctx).value_spec(lit) is Some ==> *final(ctx) == *old(ctx)
                &&& old(ctx).value_spec(lit) is None ==> final(ctx).trail_lits() == old(ctx).trail_lits().push(lit)
            },
            res matches Err(c) ==> propagator_conflict(c, final(ctx).num_vars()),
    {
        if bound > self.lower_bound {
            let lit = PropagatorVar { variable: self.literal(bound), local_id };
            let res = ctx.assign(lit, true, explanation);
            if res.is_ok() {
                self.lower_bound = bound;
            }
            res
        } else {
            proof {
                ctx.lemma_wf();
                assert(ctx.trail_lits().subrange(0, ctx.trail_lits().len() as int) =~= ctx.trail_lits());
            }
            Ok(())
        }
    }

    /// The literal asserting the upper bound of the domain.
    pub fn max_lit(&self) -> (lit: Lit)
        requires
            self.literals_spec().len() > 0,
        ensures
            lit == self.literals_spec()[literal_index(self.origin_spec(), self.literals_spec().len(), self.max_spec())],
    {
        self.literal(self.upper_bound)
    }
}

impl Domain for IntInterval {
    type ProducedEvent = IntEvent;
}

} // verus!
