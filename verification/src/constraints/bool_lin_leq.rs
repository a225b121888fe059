//! The constraint `x_1 + ... + x_n <= y` over literals `x_i` and an integer domain `y`.
use vstd::prelude::*;

use crate::cdcl::domains::{Conflict, DomainId, DomainStore, TypedDomainStore};
use crate::cdcl::integer::interval_domain::IntInterval;
use crate::cdcl::integer::{Int, IntEvent};
use crate::cdcl::lit::{group_lit, Lit};
use crate::cdcl::storage::Indexer;
use crate::cdcl::propagation::{
    lits_below, propagator_conflict, Context, Explanation, LitEvent, LitWatch, LocalId, PropagatorVar, PropagatorWatch, VariableRegistrar, WatchList, Watchable,
};
use crate::cdcl::solver::{domains_known, explained_conflict, Propagator, PropagatorFactory};

verus! {

broadcast use group_lit;

/// The number of literals of `x` that are true in the state.
pub open spec fn true_count(x: Seq<Lit>, ctx: Context) -> nat
    decreases x.len(),
{
    if x.len() == 0 {
        0
    } else {
        true_count(x.drop_last(), ctx) + if ctx.value_spec(x.last()) == Some(true) {
            1nat
        } else {
            0nat
        }
    }
}

/// The number of true literals is at most the number of literals.
pub proof fn lemma_true_count_bounded(x: Seq<Lit>, ctx: Context)
    ensures
        true_count(x, ctx) <= x.len(),
    decreases x.len(),
{
    if x.len() > 0 {
        lemma_true_count_bounded(x.drop_last(), ctx);
    }
}

/// Builds a [`LinearBool`] propagator for `x_1 + ... + x_n <= y`.
pub struct LinearBoolFactory {
    pub x: Vec<Lit>,
    pub y: DomainId<IntInterval>,
}

/// A propagator for the constraint `\sum x_i <= y`, where `x_i` are propositional literals and `y`
/// is an integer variable.
pub struct LinearBool {
    x: Vec<PropagatorVar<Lit>>,
    y: PropagatorVar<DomainId<IntInterval>>,
}

impl LinearBool {
    /// The literals that are summed.
    pub closed spec fn x_spec(&self) -> Seq<Lit> {
        self.x@.map_values(|v: PropagatorVar<Lit>| v.variable)
    }

    /// The domain bounding the sum.
    pub closed spec fn y_spec(&self) -> DomainId<IntInterval> {
        self.y.variable
    }
}

/// A copy of the literals.
fn copy_lits(lits: &Vec<Lit>) -> (copy: Vec<Lit>)
    ensures
        copy@ == lits@,
{
    let mut copy: Vec<Lit> = Vec::new();
    let mut i: usize = 0;
    while i < lits.len()
        invariant
            i <= lits@.len(),
            copy@ == lits@.subrange(0, i as int),
        decreases lits@.len() - i,
    {
        copy.push(lits[i]);
        i = i + 1;
        proof {
            assert(copy@ =~= lits@.subrange(0, i as int));
        }
    }
    proof {
        assert(copy@ =~= lits@);
    }
    copy
}

impl LinearBool {
    /// Raise the lower bound of `y` to the number of true literals of `x`, explained by those
    /// literals; when that number reaches the upper bound of `y`, make every unassigned literal
    /// of `x` false. The bound is only raised when the number is positive and above the lower
    /// bound `y` was created with, by making the literal `[y >= count]` true: during propagation
    /// the domains are shared and read-only, so the bounds they hold stay as they are.
    pub fn propagate_sum(&mut self, ctx: &mut Context, domains: &TypedDomainStore<IntInterval>) -> (res: Result<(), Conflict>)
        requires
            old(ctx).wf(),
            domains_known(domains.domains_spec(), old(ctx).num_vars()),
            old(self).valid(old(ctx).num_vars(), domains.domains_spec().len()),
        ensures
            final(ctx).wf(),
            final(ctx).extends(*old(ctx)),
            *final(self) == *old(self),
            ({
                let x = old(self).x_spec();
                let dom = domains.domains_spec()[old(self).y_spec().index_spec() as int];
                let count = true_count(x, *old(ctx));
                let raise = count > dom.min_spec() && count > 0;
                let bound_lit = dom.literal_spec(count as Int);
                &&& res is Err <==> raise && old(ctx).value_spec(bound_lit) == Some(false)
                &&& res is Ok && raise ==> final(ctx).value_spec(bound_lit) == Some(true)
                &&& res is Ok && count == dom.max_spec() ==> forall|i: int| 0 <= i < x.len() && old(ctx).value_spec(x[i]) is None ==> {
                    &&& final(ctx).value_spec(#[trigger] x[i]) is Some
                    &&& !x.contains(x[i].negated()) && !(raise && x[i] == bound_lit) ==> final(ctx).value_spec(x[i]) == Some(false)
                }
                &&& count != dom.max_spec() && !raise ==> *final(ctx) == *old(ctx)
            }),
            res matches Err(c) ==> propagator_conflict(c, final(ctx).num_vars()),
            res matches Err(c) ==> explained_conflict(c, *final(ctx)),
    {
        let ghost n = ctx.num_vars();
        let ghost ctx0 = *ctx;
        let ghost x = self.x_spec();
        proof {
            ctx.lemma_wf();
            assert(ctx0.trail_lits().subrange(0, ctx0.trail_lits().len() as int) =~= ctx0.trail_lits());
        }
        let mut true_lits: Vec<Lit> = Vec::new();
        let mut i: usize = 0;
        while i < self.x.len()
            invariant
                i <= self.x@.len(),
                x == self.x_spec(),
                self.x@.len() == x.len(),
                *ctx == ctx0,
                ctx.wf(),
                n == ctx.num_vars(),
                lits_below(x, n),
                true_lits@.len() == true_count(x.subrange(0, i as int), ctx0),
                lits_below(true_lits@, n),
                forall|k: int| 0 <= k < true_lits@.len() ==> #[trigger] ctx0.value_spec(true_lits@[k]) == Some(true),
            decreases self.x@.len() - i,
        {
            let x_i = self.x[i];
            proof {
                assert(x[i as int] == x_i.variable);
                assert(x.subrange(0, i + 1).drop_last() =~= x.subrange(0, i as int));
            }
            if ctx.value(x_i) == Some(true) {
                true_lits.push(x_i.variable);
            }
            i = i + 1;
        }
        proof {
            assert(x.subrange(0, x.len() as int) =~= x);
            lemma_true_count_bounded(x, ctx0);
        }
        let count: Int = true_lits.len() as Int;
        let dom = domains.read(self.y.variable);
        let ghost raise_spec = count > dom.min_spec() && count > 0;
        let ghost bound_spec = dom.literal_spec(count);
        proof {
            assert(domains_known(domains.domains_spec(), n));
            assert(dom.literals_spec().len() > 0);
        }
        if count > 0 {
            proof {
                assert(lits_below(dom.literals_spec(), n));
            }
            let res = if count > dom.min() {
                let bound_lit = PropagatorVar { variable: dom.lower_bound_lit(count), local_id: self.y.local_id };
                ctx.assign(bound_lit, true, Explanation::new(copy_lits(&true_lits)))
            } else {
                proof {
                    assert(ctx.trail_lits().subrange(0, ctx.trail_lits().len() as int) =~= ctx.trail_lits());
                }
                Ok(())
            };
            if res.is_err() {
                return res;
            }
            proof {
                ctx.lemma_wf();
                ctx.lemma_values_grow(ctx0);
            }
        }
        proof {
            ctx.lemma_wf();
        }
        if count == dom.max() {
            let ghost ctx1 = *ctx;
            let upper_lit = dom.upper_bound_lit(dom.max());
            proof {
                assert(lits_below(dom.literals_spec(), n));
                assert(ctx1.trail_lits().subrange(0, ctx1.trail_lits().len() as int) =~= ctx1.trail_lits());
            }
            let mut reason: Vec<Lit> = copy_lits(&true_lits);
            reason.push(upper_lit);
            let mut j: usize = 0;
            while j < self.x.len()
                invariant
                    j <= self.x@.len(),
                    x == self.x_spec(),
                    self.x@.len() == x.len(),
                    ctx1.wf(),
                    ctx.wf(),
                    n == ctx.num_vars(),
                    n == ctx1.num_vars(),
                    ctx.extends(ctx0),
                    ctx.trail_lits().len() >= ctx1.trail_lits().len(),
                    ctx.trail_lits().subrange(0, ctx1.trail_lits().len() as int) == ctx1.trail_lits(),
                    forall|i: int| ctx1.trail_lits().len() <= i < ctx.trail_lits().len() ==> exists|k: int| 0 <= k < j && #[trigger] ctx.trail_lits()[i] == x[k].negated(),
                    lits_below(x, n),
                    lits_below(reason@, n),
                    reason@.len() > 0,
                    forall|k: int| 0 <= k < j && ctx1.value_spec(x[k]) is None ==> {
                        &&& ctx.value_spec(#[trigger] x[k]) is Some
                        &&& !x.contains(x[k].negated()) ==> ctx.value_spec(x[k]) == Some(false)
                    },
                decreases self.x@.len() - j,
            {
                let x_j = self.x[j];
                proof {
                    assert(x[j as int] == x_j.variable);
                }
                let ghost before = *ctx;
                if ctx.value(x_j).is_none() {
                    let _ = ctx.assign(x_j, false, Explanation::new(copy_lits(&reason)));
                    proof {
                        ctx.lemma_wf();
                        assert(ctx.trail_lits() == before.trail_lits().push(x_j.variable.negated()));
                        assert(ctx.trail_lits().subrange(0, ctx0.trail_lits().len() as int) =~= before.trail_lits().subrange(0, ctx0.trail_lits().len() as int));
                        assert(ctx.trail_lits().subrange(0, ctx1.trail_lits().len() as int) =~= before.trail_lits().subrange(0, ctx1.trail_lits().len() as int));
                        assert(ctx.trail_lits().subrange(0, before.trail_lits().len() as int) =~= before.trail_lits());
                        ctx.lemma_values_grow(before);
                        before.lemma_wf();
                        assert forall|v: int| 0 <= v < ctx.reasons().len() implies #[trigger] ctx.reasons()[v] == ctx0.reasons()[v] || ctx.reasons()[v] is Explanation by {
                            assert(ctx.reasons()[v] == before.reasons()[v] || ctx.reasons()[v] is Explanation);
                            assert(before.reasons()[v] == ctx0.reasons()[v] || before.reasons()[v] is Explanation);
                        }
                        assert forall|i: int| ctx1.trail_lits().len() <= i < ctx.trail_lits().len() implies exists|k: int| 0 <= k < j + 1 && #[trigger] ctx.trail_lits()[i] == x[k].negated() by {
                            if i < before.trail_lits().len() {
                                assert(ctx.trail_lits()[i] == before.trail_lits()[i]);
                            } else {
                                assert(ctx.trail_lits()[i] == x[j as int].negated());
                            }
                        }
                    }
                } else {
                    proof {
                        if ctx1.value_spec(x_j.variable) is None {
                            before.lemma_wf();
                            before.lemma_values_grow(ctx1);
                            let i = choose|i: int| ctx1.trail_lits().len() <= i < before.trail_lits().len() && before.trail_lits()[i].var_code() == x_j.variable.var_code();
                            let k = choose|k: int| 0 <= k < j && #[trigger] before.trail_lits()[i] == x[k].negated();
                            assert(before.value_spec(before.trail_lits()[i]) == Some(true));
                            if x_j.variable == x[k] {
                                assert(before.value_spec(x[k]) == Some(false));
                            } else {
                                assert(x_j.variable == x[k].negated());
                                assert(x[k] == x_j.variable.negated());
                                assert(x.contains(x_j.variable.negated()));
                            }
                        }
                    }
                }
                proof {
                    assert forall|k: int| 0 <= k < j + 1 && ctx1.value_spec(x[k]) is None implies {
                        &&& ctx.value_spec(#[trigger] x[k]) is Some
                        &&& !x.contains(x[k].negated()) ==> ctx.value_spec(x[k]) == Some(false)
                    } by {
                        if k < j {
                            assert(before.value_spec(x[k]) is Some);
                        }
                    }
                }
                j = j + 1;
            }
            proof {
                ctx.lemma_values_grow(ctx1);
                assert forall|i: int| 0 <= i < x.len() && ctx0.value_spec(x[i]) is None implies {
                    &&& ctx.value_spec(#[trigger] x[i]) is Some
                    &&& !x.contains(x[i].negated()) && !(raise_spec && x[i] == bound_spec) ==> ctx.value_spec(x[i]) == Some(false)
                } by {
                    if ctx1.value_spec(x[i]) is Some {
                        assert(raise_spec);
                        assert(x[i].var_code() == bound_spec.var_code());
                    }
                }
            }
        }
        Ok(())
    }
}

impl Propagator for LinearBool {
    /// The summed literals are known, the domain bounding the sum is in the store, and the
    /// number of literals fits an [`Int`].
    open spec fn valid(&self, num_vars: nat, num_domains: nat) -> bool {
        &&& lits_below(self.x_spec(), num_vars)
        &&& self.y_spec().index_spec() < num_domains
        &&& self.x_spec().len() < Int::MAX
    }

    proof fn lemma_valid_grows(&self, num_vars: nat, num_domains: nat, more_vars: nat, more_domains: nat) {
    }

    fn propagate(&mut self, ctx: &mut Context, domains: &TypedDomainStore<IntInterval>) -> (res: Result<(), Conflict>) {
        self.propagate_sum(ctx, domains)
    }
}

impl PropagatorFactory<LinearBool> for LinearBoolFactory {
    /// The summed literals and their negations have watches, both events have watches, the
    /// domain is in the store and the number of literals fits an [`Int`].
    open spec fn fits(&self, watch_list: WatchList<IntEvent>, num_domains: nat) -> bool {
        &&& forall|i: int| 0 <= i < self.x@.len() ==> (#[trigger] self.x@[i]).watchable_in(watch_list)
        &&& watch_list.event_watches().len() == 2
        &&& watch_list.lit_watches().len() % 2 == 0
        &&& self.y.index_spec() < num_domains
        &&& self.x@.len() < Int::MAX
    }

    /// The propagator sums the literals of `x` and bounds the sum by `y`.
    open spec fn builds(&self, propagator: LinearBool) -> bool {
        propagator.x_spec() == self.x@ && propagator.y_spec() == self.y
    }

    /// Watch every literal of `x` for becoming true and `y` for changes of its upper bound. The
    /// list of a literal is visited when that literal becomes false, so the watch for `x[i]`
    /// becoming true stands on the list of the negation of `x[i]`, with local identifier `i`.
    fn create(self, registrar: &mut VariableRegistrar<IntEvent>, num_domains: Ghost<nat>) -> (propagator: LinearBool)
        ensures
            forall|i: int| 0 <= i < self.x@.len() ==> #[trigger] final(registrar).watch_list.lit_watches()[self.x@[i].negated().code_spec() as int].contains(
                LitWatch::Propagator { propagator_id: old(registrar).propagator, local_id: LocalId::at(i as u32) },
            ),
            final(registrar).watch_list.event_watches()[IntEvent::UpperBound.index_spec() as int].contains(
                PropagatorWatch { propagator_id: old(registrar).propagator, local_id: LocalId::at(self.x@.len() as u32) },
            ),
    {
        let ghost w0 = registrar.watch_list;
        let ghost n = (w0.lit_watches().len() / 2) as nat;
        proof {
            w0.lemma_extends_refl(registrar.propagator);
        }
        let mut x: Vec<PropagatorVar<Lit>> = Vec::new();
        let mut i: usize = 0;
        while i < self.x.len()
            invariant
                i <= self.x@.len(),
                self.fits(w0, num_domains@),
                n == w0.lit_watches().len() / 2,
                registrar.propagator == old(registrar).propagator,
                w0 == old(registrar).watch_list,
                registrar.watch_list.extends_with(w0, registrar.propagator),
                x@.len() == i,
                forall|k: int| 0 <= k < i ==> (#[trigger] x@[k]).variable == self.x@[k],
                forall|k: int| 0 <= k < i ==> #[trigger] registrar.watch_list.lit_watches()[self.x@[k].negated().code_spec() as int].contains(
                    LitWatch::Propagator { propagator_id: registrar.propagator, local_id: LocalId::at(k as u32) },
                ),
            decreases self.x@.len() - i,
        {
            let ghost before = registrar.watch_list;
            let x_i = registrar.register(self.x[i], LocalId::from(i as u32), LitEvent::FixedTrue);
            proof {
                registrar.watch_list.lemma_extends_trans(before, w0, registrar.propagator);
                let wb = before.lit_watches();
                let wa = registrar.watch_list.lit_watches();
                let c = self.x@[i as int].negated().code_spec() as int;
                let watch = LitWatch::<IntEvent>::Propagator { propagator_id: registrar.propagator, local_id: LocalId::at(i as u32) };
                assert(wa == wb.update(c, wb[c].push(watch)));
                assert(wa[c][wb[c].len() as int] == watch);
                assert forall|k: int| 0 <= k < i + 1 implies #[trigger] wa[self.x@[k].negated().code_spec() as int].contains(
                    LitWatch::Propagator { propagator_id: registrar.propagator, local_id: LocalId::at(k as u32) },
                ) by {
                    let ck = self.x@[k].negated().code_spec() as int;
                    let wk = LitWatch::<IntEvent>::Propagator { propagator_id: registrar.propagator, local_id: LocalId::at(k as u32) };
                    if k < i {
                        assert(wb[ck].contains(wk));
                        let m = choose|m: int| 0 <= m < wb[ck].len() && wb[ck][m] == wk;
                        assert(wa[ck][m] == wk);
                    }
                }
            }
            x.push(x_i);
            i = i + 1;
        }
        let ghost before = registrar.watch_list;
        let y = registrar.register(self.y, LocalId::from(self.x.len() as u32), IntEvent::UpperBound);
        proof {
            registrar.watch_list.lemma_extends_trans(before, w0, registrar.propagator);
            let e = IntEvent::UpperBound.index_spec() as int;
            assert(registrar.watch_list.event_watches()[e][before.event_watches()[e].len() as int]
                == PropagatorWatch { propagator_id: registrar.propagator, local_id: LocalId::at(self.x@.len() as u32) });
        }
        let propagator = LinearBool { x, y };
        proof {
            let xs = propagator.x_spec();
            assert(xs =~= self.x@);
            assert forall|k: int| 0 <= k < xs.len() implies (#[trigger] xs[k]).var_code() < n by {
                assert(xs[k] == self.x@[k]);
                assert(self.x@[k].watchable_in(w0));
            }
        }
        propagator
    }
}

} // verus!
