use vstd::prelude::*;
use crate::common::Key;

verus! {

/// The key of the item at `index` of an arena.
pub open spec fn key_of(index: int) -> u64 {
    index as u64
}

/// A growing store of items, each found again by the key that `allocate` gave out: the
/// keys are the indices, in the order of allocation.
#[derive(Debug)]
pub struct Arena<T> {
    storage: Vec<T>,
}

/// Allocating `t` into an arena of `n` items gives the key `n`; afterwards the arena holds
/// `n + 1` items, the item under the new key is `t`, and the item under every older key
/// is unchanged. (`before` and `after` are the arena's contents before and after the
/// allocation, as `allocate` states them; `get` reads the item under a key from them.)
pub proof fn law_get_after_allocate<T>(before: Seq<T>, after: Seq<T>, t: T, k: Key, j: Key)
    requires
        after == before.push(t),
        k.raw() == before.len(),
        before.len() < u64::MAX,
        before.len() < usize::MAX,
    ensures
        after.len() == before.len() + 1,
        (k.raw() as usize) < after.len() && after[k.raw() as usize as int] == t,
        (j.raw() as usize) < before.len() ==> (j.raw() as usize) < after.len()
            && after[j.raw() as usize as int] == before[j.raw() as usize as int],
{
}

impl<T> View for Arena<T> {
    type V = Seq<T>;

    closed spec fn view(&self) -> Seq<T> {
        self.storage@
    }
}

impl<T> Default for Arena<T> {
    fn default() -> (r: Self)
        ensures
            r@ == Seq::<T>::empty(),
    {
        Arena { storage: Vec::new() }
    }
}

impl<T> Arena<T> {
    /// An arena with no items.
    pub fn new() -> (r: Self)
        ensures
            r@ == Seq::<T>::empty(),
    {
        Arena { storage: Vec::new() }
    }

    /// Stores `t` and returns its key, the number of items stored before it.
    pub fn allocate(&mut self, t: T) -> (r: Key)
        requires
            old(self)@.len() < u64::MAX,
        ensures
            final(self)@ == old(self)@.push(t),
            r.raw() == old(self)@.len(),
    {
        self.storage.push(t);
        let index = self.storage.len() - 1;
        Key::from_raw(index as u64)
    }

    /// The item stored under `key`, if there is one.
    pub fn get(&self, key: Key) -> (r: Option<&T>)
        ensures
            r == if (key.raw() as usize) < self@.len() {
                Some(&self@[key.raw() as usize as int])
            } else {
                None
            },
    {
        let index = key.to_raw() as usize;
        if index < self.storage.len() {
            Some(&self.storage[index])
        } else {
            None
        }
    }

    /// The item stored under `key`, if there is one, to change in place.
    pub fn get_mut(&mut self, key: Key) -> (r: Option<&mut T>)
        ensures
            (key.raw() as usize) < old(self)@.len() ==> (r matches Some(e) && *e == old(self)@[key.raw() as usize as int]
                && final(self)@ == old(self)@.update(key.raw() as usize as int, *final(e))),
            (key.raw() as usize) >= old(self)@.len() ==> r is None && final(self)@ == old(self)@,
    {
        let index = key.to_raw() as usize;
        if index < self.storage.len() {
            Some(&mut self.storage[index])
        } else {
            None
        }
    }

    /// The number of items stored.
    pub fn len(&self) -> (r: usize)
        ensures
            r == self@.len(),
    {
        self.storage.len()
    }

    /// The keys of all items, in order.
    pub fn keyspace(&self) -> (r: Vec<Key>)
        requires
            self@.len() <= u64::MAX,
        ensures
            r@.len() == self@.len(),
            forall|i: int| 0 <= i < r@.len() ==> (#[trigger] r@[i]).raw() == i,
    {
        let mut keys: Vec<Key> = Vec::new();
        let n = self.storage.len();
        let mut i: usize = 0;
        while i < n
            invariant
                n == self@.len(),
                i <= n,
                keys@.len() == i,
                forall|j: int| 0 <= j < i ==> (#[trigger] keys@[j]).raw() == j,
            decreases n - i,
        {
            keys.push(Key::from_raw(i as u64));
            i = i + 1;
        }
        keys
    }

    /// Every item with its key, in order.
    pub fn iter(&self) -> (r: Vec<(Key, &T)>)
        ensures
            r@.len() == self@.len(),
            forall|i: int| 0 <= i < r@.len() ==> (#[trigger] r@[i]).0.raw() == i && r@[i].1 == &self@[i],
    {
        let mut items: Vec<(Key, &T)> = Vec::new();
        let n = self.storage.len();
        let mut i: usize = 0;
        while i < n
            invariant
                n == self@.len(),
                i <= n,
                items@.len() == i,
                forall|j: int| 0 <= j < i ==> (#[trigger] items@[j]).0.raw() == j && items@[j].1 == &self@[j],
            decreases n - i,
        {
            items.push((Key::from_raw(i as u64), &self.storage[i]));
            i = i + 1;
        }
        items
    }

    /// An arena of what `f` makes of each item with its key, called on the items in
    /// order; the keys stay the same.
    pub fn type_convert<X, F: Fn((Key, T)) -> X>(self, f: F) -> (r: Arena<X>)
        requires
            forall|i: int|
                0 <= i < self@.len() ==> #[trigger] call_requires(f, ((Key::of(i as u64), self@[i]),)),
        ensures
            r@.len() == self@.len(),
            forall|i: int|
                0 <= i < r@.len() ==> call_ensures(f, ((Key::of(i as u64), self@[i]),), #[trigger] r@[i]),
    {
        let ghost items = self@;
        let mut storage = self.storage;
        let n = storage.len();
        let mut reversed: Vec<T> = Vec::new();
        while storage.len() > 0
            invariant
                n == items.len(),
                storage@.len() + reversed@.len() == n,
                storage@ == items.subrange(0, storage@.len() as int),
                forall|j: int| 0 <= j < reversed@.len() ==> #[trigger] reversed@[j] == items[n - 1 - j],
            decreases storage@.len(),
        {
            let t = storage.pop().unwrap();
            reversed.push(t);
            assert(storage@ =~= items.subrange(0, storage@.len() as int));
        }
        let mut converted: Vec<X> = Vec::new();
        let mut i: usize = 0;
        while i < n
            invariant
                n == items.len(),
                i <= n,
                reversed@.len() == n - i,
                converted@.len() == i,
                forall|j: int| 0 <= j < reversed@.len() ==> #[trigger] reversed@[j] == items[n - 1 - j],
                forall|j: int|
                    0 <= j < items.len() ==> #[trigger] call_requires(f, ((Key::of(j as u64), items[j]),)),
                forall|j: int|
                    0 <= j < i ==> call_ensures(f, ((Key::of(j as u64), items[j]),), #[trigger] converted@[j]),
            decreases n - i,
        {
            let t = reversed.pop().unwrap();
            let k = Key::from_raw(i as u64);
            assert(t == items[i as int]);
            assert(call_requires(f, ((Key::of(i as u64), items[i as int]),)));
            let x = f((k, t));
            converted.push(x);
            i = i + 1;
        }
        Arena { storage: converted }
    }
}

} // verus!
