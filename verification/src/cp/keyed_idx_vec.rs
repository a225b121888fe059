//! A vector indexed by keys.
use std::marker::PhantomData;

use vstd::prelude::*;

verus! {

/// A key that stands for a position.
pub trait Key {
    /// The position the key stands for.
    spec fn key_spec(&self) -> nat;

    /// The position the key stands for.
    fn to_index(&self) -> (index: usize)
        ensures
            index == self.key_spec(),
    ;
}

/// A vector whose positions are given by keys.
pub struct KeyedVec<Idx, Val> {
    buffer: Vec<Val>,
    idx: PhantomData<Idx>,
}

impl<Idx, Val> View for KeyedVec<Idx, Val> {
    type V = Seq<Val>;

    closed spec fn view(&self) -> Seq<Val> {
        self.buffer@
    }
}

impl<Idx: Key, Val: Clone> KeyedVec<Idx, Val> {
    /// Make the vector end just after the key's position, filling new positions with clones of the
    /// value.
    pub fn resize(&mut self, key: Idx, value: Val)
        requires
            key.key_spec() < usize::MAX,
        ensures
            final(self)@.len() == key.key_spec() + 1,
            key.key_spec() < old(self)@.len() ==> final(self)@ == old(self)@.subrange(0, (key.key_spec() + 1) as int),
            key.key_spec() >= old(self)@.len() ==> final(self)@.subrange(0, old(self)@.len() as int) == old(self)@,
            forall|i: int| old(self)@.len() <= i < final(self)@.len() ==> cloned(value, #[trigger] final(self)@[i]),
    {
        self.buffer.resize(key.to_index() + 1, value);
    }
}

impl<Idx, Val> KeyedVec<Idx, Val> {
    /// The number of positions.
    pub fn len(&self) -> (len: usize)
        ensures
            len == self@.len(),
    {
        self.buffer.len()
    }
}

impl<Idx: Key, Val> KeyedVec<Idx, Val> {
    /// The value at the key's position.
    pub fn get(&self, key: Idx) -> (value: &Val)
        requires
            key.key_spec() < self@.len(),
        ensures
            *value == self@[key.key_spec() as int],
    {
        &self.buffer[key.to_index()]
    }

    /// The value at the key's position, to change in place.
    pub fn get_mut(&mut self, key: Idx) -> (value: &mut Val)
        requires
            key.key_spec() < old(self)@.len(),
        ensures
            *value == old(self)@[key.key_spec() as int],
            final(self)@ == old(self)@.update(key.key_spec() as int, *final(value)),
    {
        &mut self.buffer[key.to_index()]
    }
}

impl<Idx, Val> Default for KeyedVec<Idx, Val> {
    fn default() -> (v: Self)
        ensures
            v@ == Seq::<Val>::empty(),
    {
        KeyedVec { buffer: Vec::new(), idx: PhantomData }
    }
}

} // verus!
