//! Containers indexed by typed keys.
use std::marker::PhantomData;
use vstd::prelude::*;

use super::lit::{Lit, Var};

verus! {

/// A type whose values can be used as an index into a vector.
pub trait Indexer {
    /// The position this key refers to.
    spec fn index_spec(&self) -> nat;

    /// The position this key refers to.
    fn index(&self) -> (idx: usize)
        ensures
            idx as nat == self.index_spec(),
    ;
}

/// A type which indexes a statically known number of positions.
pub trait StaticIndexer {
    /// The number of positions.
    spec fn len_spec() -> nat;

    /// The number of positions.
    fn get_len() -> (len: usize)
        ensures
            len as nat == Self::len_spec(),
    ;
}

impl Indexer for Var {
    open spec fn index_spec(&self) -> nat {
        self.code_spec() as nat
    }

    fn index(&self) -> (idx: usize) {
        self.code() as usize
    }
}

impl Indexer for Lit {
    open spec fn index_spec(&self) -> nat {
        self.code_spec() as nat
    }

    fn index(&self) -> (idx: usize) {
        self.code() as usize
    }
}

impl StaticIndexer for () {
    open spec fn len_spec() -> nat {
        0
    }

    fn get_len() -> (len: usize) {
        0
    }
}

/// A vector whose positions are addressed by keys of a given type.
pub struct KeyedVec<Key, Value> {
    key: PhantomData<Key>,
    values: Vec<Value>,
}

impl<Key, Value> View for KeyedVec<Key, Value> {
    type V = Seq<Value>;

    closed spec fn view(&self) -> Seq<Value> {
        self.values@
    }
}

impl<Key, Value> KeyedVec<Key, Value> {
    /// An empty vector.
    pub fn new() -> (kv: Self)
        ensures
            kv@ == Seq::<Value>::empty(),
    {
        KeyedVec { key: PhantomData, values: Vec::new() }
    }

    /// The number of positions.
    pub fn len(&self) -> (len: usize)
        ensures
            len == self@.len(),
    {
        self.values.len()
    }
}

impl<Key: Indexer, Value> KeyedVec<Key, Value> {
    /// Whether the key addresses a position of this vector.
    pub open spec fn has(&self, key: Key) -> bool {
        key.index_spec() < self@.len()
    }

    /// The value at the key.
    pub open spec fn at(&self, key: Key) -> Value {
        self@[key.index_spec() as int]
    }

    /// Read the value stored for the key.
    pub fn get(&self, key: Key) -> (value: &Value)
        requires
            self.has(key),
        ensures
            *value == self.at(key),
    {
        let idx = key.index();
        &self.values[idx]
    }

    /// Replace the value stored for the key.
    pub fn set(&mut self, key: Key, value: Value)
        requires
            old(self).has(key),
        ensures
            final(self)@ == old(self)@.update(key.index_spec() as int, value),
    {
        let idx = key.index();
        self.values.set(idx, value);
    }

    /// Swap the value stored for the key with the given value, returning the old one.
    pub fn replace(&mut self, key: Key, value: Value) -> (previous: Value)
        requires
            old(self).has(key),
        ensures
            previous == old(self).at(key),
            final(self)@ == old(self)@.update(key.index_spec() as int, value),
    {
        let idx = key.index();
        let mut value = value;
        std::mem::swap(&mut self.values[idx], &mut value);
        value
    }
}

impl<Key: StaticIndexer, Value: Default> KeyedVec<Key, Value> {
    /// A vector with one default value for every position of the key type.
    pub fn with_static_len() -> (kv: Self)
        ensures
            kv@.len() == Key::len_spec(),
            forall|i: int| 0 <= i < kv@.len() ==> call_ensures(Value::default, (), #[trigger] kv@[i]),
    {
        let len = Key::get_len();
        let mut values: Vec<Value> = Vec::new();
        while values.len() < len
            invariant
                values@.len() <= len,
                forall|i: int| 0 <= i < values@.len() ==> call_ensures(Value::default, (), #[trigger] values@[i]),
            decreases len - values@.len(),
        {
            values.push(Value::default());
        }
        KeyedVec { key: PhantomData, values }
    }
}

impl<Key: Indexer, Value: Default> KeyedVec<Key, Value> {
    /// Make sure the key addresses a position, adding default values where needed.
    pub fn grow_to(&mut self, key: Key)
        requires
            key.index_spec() + 1 <= usize::MAX,
        ensures
            final(self)@.len() == if old(self)@.len() > key.index_spec() {
                old(self)@.len()
            } else {
                key.index_spec() + 1
            },
            final(self)@.subrange(0, old(self)@.len() as int) == old(self)@,
            forall|i: int|
                old(self)@.len() <= i < final(self)@.len() ==> call_ensures(
                    Value::default,
                    (),
                    #[trigger] final(self)@[i],
                ),
    {
        let minimum_len = key.index() + 1;
        let ghost old_values = self.values@;
        while self.values.len() < minimum_len
            invariant
                old_values.len() <= self.values@.len(),
                self.values@.len() <= if old_values.len() > minimum_len { old_values.len() as int } else { minimum_len as int },
                self.values@.subrange(0, old_values.len() as int) == old_values,
                forall|i: int|
                    old_values.len() <= i < self.values@.len() ==> call_ensures(
                        Value::default,
                        (),
                        #[trigger] self.values@[i],
                    ),
            decreases minimum_len - self.values@.len(),
        {
            self.values.push(Value::default());
        }
    }
}

impl<Key: Indexer, Value: Clone> KeyedVec<Key, Value> {
    /// Make sure the key addresses a position, adding clones of the given value where needed.
    pub fn grow_to_with(&mut self, key: Key, value: Value)
        requires
            key.index_spec() + 1 <= usize::MAX,
        ensures
            final(self)@.len() == if old(self)@.len() > key.index_spec() {
                old(self)@.len()
            } else {
                key.index_spec() + 1
            },
            final(self)@.subrange(0, old(self)@.len() as int) == old(self)@,
            forall|i: int|
                old(self)@.len() <= i < final(self)@.len() ==> cloned(value, #[trigger] final(self)@[i]),
    {
        let minimum_len = key.index() + 1;
        if self.values.len() < minimum_len {
            self.values.resize(minimum_len, value);
        }
    }
}

impl<Key, Value> Default for KeyedVec<Key, Value> {
    fn default() -> (kv: Self)
        ensures
            kv@ == Seq::<Value>::empty(),
    {
        KeyedVec::new()
    }
}

/// A store which hands out an identifier for every value put into it.
pub struct Arena<Id, Value> {
    buffer: Vec<Value>,
    id: PhantomData<Id>,
}

impl<Id, Value> View for Arena<Id, Value> {
    type V = Seq<Value>;

    closed spec fn view(&self) -> Seq<Value> {
        self.buffer@
    }
}

/// A type of identifiers that an [`Arena`] hands out.
pub trait ArenaId: Sized + Indexer {
    /// The identifier of the given position.
    fn from_index(index: usize) -> (id: Self)
        ensures
            id.index_spec() == index,
    ;
}

/// A handle to the next slot of an arena.
pub struct ArenaSlot<'a, Id, Value> {
    pub arena: &'a mut Arena<Id, Value>,
}

impl<Id, Value> Default for Arena<Id, Value> {
    fn default() -> (arena: Self)
        ensures
            arena@ == Seq::<Value>::empty(),
    {
        Arena { buffer: Vec::new(), id: PhantomData }
    }
}

impl<Id, Value> Arena<Id, Value> {
    /// The number of values in the arena.
    pub fn len(&self) -> (len: usize)
        ensures
            len == self@.len(),
    {
        self.buffer.len()
    }

    /// Get a handle to the slot the next value goes into.
    pub fn new_ref(&mut self) -> (slot: ArenaSlot<'_, Id, Value>)
        ensures
            *slot.arena == *old(self),
            *final(self) == *final(slot.arena),
    {
        ArenaSlot { arena: self }
    }
}

impl<'a, Id: ArenaId, Value> ArenaSlot<'a, Id, Value> {
    /// Store the value in the slot, returning its identifier.
    pub fn allocate(self, value: Value) -> (id: Id)
        requires
            old(self.arena)@.len() < usize::MAX,
        ensures
            final(self.arena)@ == old(self.arena)@.push(value),
            id.index_spec() == old(self.arena)@.len(),
    {
        self.arena.buffer.push(value);
        let id = self.arena.buffer.len() - 1;
        Id::from_index(id)
    }

    /// The identifier the value in this slot will get.
    pub fn id(&self) -> (id: Id)
        ensures
            id.index_spec() == old(self.arena)@.len(),
    {
        Id::from_index(self.arena.buffer.len())
    }
}

impl<Id: Indexer, Value> Arena<Id, Value> {
    /// The value with the given identifier, to be changed in place.
    pub fn get_mut(&mut self, id: Id) -> (value: &mut Value)
        requires
            id.index_spec() < old(self)@.len(),
        ensures
            *value == old(self)@[id.index_spec() as int],
            final(self)@ == old(self)@.update(id.index_spec() as int, *final(value)),
    {
        &mut self.buffer[id.index()]
    }

    /// The value with the given identifier.
    pub fn get(&self, id: Id) -> (value: &Value)
        requires
            id.index_spec() < self@.len(),
        ensures
            *value == self@[id.index_spec() as int],
    {
        &self.buffer[id.index()]
    }
}

} // verus!
