//! Views: variables whose domains are those of other variables, transformed.
use std::marker::PhantomData;

use vstd::prelude::*;

use super::variables::{Register, Variable, VariableStore};

verus! {

/// A view that offsets the domain of the inner variable by a constant amount. It models the
/// constraint `x = y + c` where `x, y` are variables and `c` is a constant.
pub struct OffsetView<Var, Value, Store, Registrar> {
    inner: Var,
    offset: Value,
    registrar: PhantomData<Registrar>,
    store: PhantomData<Store>,
}

impl<Var, Value, Store, Registrar> OffsetView<Var, Value, Store, Registrar> {
    /// The view of `var + offset`.
    pub fn new(var: Var, offset: Value) -> (view: Self)
        ensures
            view.inner_spec() == var,
            view.offset_spec() == offset,
    {
        OffsetView { inner: var, offset, registrar: PhantomData, store: PhantomData }
    }

    /// The variable that is viewed.
    pub closed spec fn inner_spec(&self) -> Var {
        self.inner
    }

    /// The offset.
    pub closed spec fn offset_spec(&self) -> Value {
        self.offset
    }
}

/// The value `w - offset` when it is an `i64`.
fn unshift(value: i64, offset: i64) -> (res: Option<i64>)
    ensures
        match res {
            Some(w) => w == value - offset,
            None => value - offset < i64::MIN || value - offset > i64::MAX,
        },
{
    let w: i128 = value as i128 - offset as i128;
    if w < i64::MIN as i128 || w > i64::MAX as i128 {
        None
    } else {
        Some(w as i64)
    }
}

impl<Var: Variable<Store>, Store: VariableStore, Registrar> OffsetView<Var, i64, Store, Registrar> {
    /// Empty the domain of the inner variable.
    fn clear(&self, store: &mut Store) -> (nonempty: bool)
        requires
            self.inner.var_wf(old(store)),
        ensures
            self.inner.var_wf(final(store)),
            old(store).shrinks(final(store)),
            forall|v: int| !(#[trigger] self.inner.contains(final(store), v)),
            !nonempty,
            self.inner.size_spec(final(store)) == 0,
    {
        let ghost s0 = *store;
        self.inner.set_min(store, &i64::MAX);
        let ghost s1 = *store;
        proof {
            self.inner.lemma_variable(&s0);
        }
        let nonempty = self.inner.remove(store, &i64::MAX);
        proof {
            s0.lemma_shrinks_trans(&s1, store);
            s0.lemma_shrinks_narrows(&s1);
            s1.lemma_shrinks_narrows(store);
            self.inner.lemma_variable(store);
            assert forall|v: int| !(#[trigger] self.inner.contains(store, v)) by {
                if self.inner.contains(store, v) {
                    assert(self.inner.contains(&s1, v));
                    assert(self.inner.contains(&s0, v));
                }
            }
        }
        nonempty
    }
}

impl<Var: Variable<Store>, Store: VariableStore, Registrar> Variable<Store> for OffsetView<Var, i64, Store, Registrar> {
    open spec fn contains(&self, store: &Store, value: int) -> bool {
        self.inner_spec().contains(store, value - self.offset_spec())
    }

    open spec fn size_spec(&self, store: &Store) -> nat {
        self.inner_spec().size_spec(store)
    }

    open spec fn min_spec(&self, store: &Store) -> i64 {
        (self.inner_spec().min_spec(store) + self.offset_spec()) as i64
    }

    open spec fn max_spec(&self, store: &Store) -> i64 {
        (self.inner_spec().max_spec(store) + self.offset_spec()) as i64
    }

    open spec fn var_wf(&self, store: &Store) -> bool {
        &&& self.inner_spec().var_wf(store)
        &&& forall|v: int| #[trigger] self.inner_spec().contains(store, v) ==> i64::MIN <= v + self.offset_spec() <= i64::MAX
    }

    proof fn lemma_shrink(&self, s1: &Store, s2: &Store) {
        self.inner.lemma_shrink(s1, s2);
    }

    proof fn lemma_variable(&self, store: &Store) {
        self.inner.lemma_variable(store);
        if self.inner.size_spec(store) > 0 {
            assert(self.inner.contains(store, self.inner.min_spec(store) as int));
            assert(self.inner.contains(store, self.inner.max_spec(store) as int));
        }
    }

    fn min(&self, store: &Store) -> (min: i64) {
        (self.inner.min(store) as i128 + self.offset as i128) as i64
    }

    fn max(&self, store: &Store) -> (max: i64) {
        (self.inner.max(store) as i128 + self.offset as i128) as i64
    }

    fn size(&self, store: &Store) -> (size: usize) {
        self.inner.size(store)
    }

    fn fixed_value(&self, store: &Store) -> (value: Option<i64>) {
        proof {
            self.inner.lemma_variable(store);
        }
        match self.inner.fixed_value(store) {
            Some(v) => {
                assert(self.inner.contains(store, v as int));
                Some(v + self.offset)
            },
            None => None,
        }
    }

    fn remove(&self, store: &mut Store, value: &i64) -> (nonempty: bool) {
        proof {
            self.inner.lemma_variable(old(store));
        }
        match unshift(*value, self.offset) {
            Some(w) => {
                let nonempty = self.inner.remove(store, &w);
                proof {
                    old(store).lemma_shrinks_narrows(store);
                    self.inner.lemma_shrink(old(store), store);
                }
                nonempty
            },
            None => {
                proof {
                    old(store).lemma_shrinks_refl();
                }
                self.inner.size(store) > 0
            },
        }
    }

    fn set_min(&self, store: &mut Store, value: &i64) -> (nonempty: bool) {
        proof {
            self.inner.lemma_variable(old(store));
        }
        match unshift(*value, self.offset) {
            Some(w) => {
                let nonempty = self.inner.set_min(store, &w);
                proof {
                    old(store).lemma_shrinks_narrows(store);
                    self.inner.lemma_shrink(old(store), store);
                }
                nonempty
            },
            None => {
                if *value > self.offset {
                    self.clear(store)
                } else {
                    proof {
                        old(store).lemma_shrinks_refl();
                    }
                    self.inner.size(store) > 0
                }
            },
        }
    }

    fn set_max(&self, store: &mut Store, value: &i64) -> (nonempty: bool) {
        proof {
            self.inner.lemma_variable(old(store));
        }
        match unshift(*value, self.offset) {
            Some(w) => {
                let nonempty = self.inner.set_max(store, &w);
                proof {
                    old(store).lemma_shrinks_narrows(store);
                    self.inner.lemma_shrink(old(store), store);
                }
                nonempty
            },
            None => {
                if *value < self.offset {
                    self.clear(store)
                } else {
                    proof {
                        old(store).lemma_shrinks_refl();
                    }
                    self.inner.size(store) > 0
                }
            },
        }
    }

    fn fix(&self, store: &mut Store, value: &i64) -> (nonempty: bool) {
        proof {
            self.inner.lemma_variable(old(store));
        }
        match unshift(*value, self.offset) {
            Some(w) => {
                let nonempty = self.inner.fix(store, &w);
                proof {
                    old(store).lemma_shrinks_narrows(store);
                    self.inner.lemma_shrink(old(store), store);
                }
                nonempty
            },
            None => self.clear(store),
        }
    }
}

impl<Var: Register<Registrar>, Value, Store, Registrar> Register<Registrar> for OffsetView<Var, Value, Store, Registrar> {
    /// The view registers what the viewed variable registers.
    open spec fn registers(&self, before: Registrar, after: Registrar) -> bool {
        self.inner_spec().registers(before, after)
    }

    fn register(&self, registrar: &mut Registrar) {
        self.inner.register(registrar);
    }
}

impl<Var: Clone, Value: Clone, Store, Registrar> Clone for OffsetView<Var, Value, Store, Registrar> {
    fn clone(&self) -> (copy: Self) {
        OffsetView::new(self.inner.clone(), self.offset.clone())
    }
}

} // verus!
