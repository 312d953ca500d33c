use crate::lru::capacity::Capacity;
use crate::lru::model::{
    demoted, displaced, distinct_keys, entry_of, has_key, inserted, last_of, position, promoted,
    shrunk, value_of, without, without_last,
};
use std::hash::Hash;
use vstd::prelude::*;

verus! {

/// The hash builder of a cache that was given none.
pub type DefaultHasher = std::collections::hash_map::RandomState;

/// Cloning a `K` gives back an identical `K`.
///
/// A cache keeps each key twice, once in its index and once in its recency
/// list, so it can only be trusted with keys whose copies are exact.
pub open spec fn clone_is_exact<K: Clone>() -> bool {
    forall|a: K, b: K| call_ensures(K::clone, (&a,), b) ==> a == b
}

/// A bounded key-value store that decides by itself which entry leaves
/// when it is full.
///
/// The view of a cache is the sequence of its entries, most recently used
/// first. Every operation is stated over that sequence.
pub trait Cache<K, V, S = DefaultHasher>: View<V = Seq<(K, V)>> where K: Hash + Eq {
    /// The internal consistency that every operation expects and keeps.
    spec fn wf(&self) -> bool;

    /// The largest number of entries the cache holds.
    spec fn capacity(&self) -> nat;

    /// A consistent cache is never over its capacity, its capacity is never
    /// zero, and no key occurs twice in it.
    proof fn lemma_bounded(&self)
        requires
            self.wf(),
        ensures
            self@.len() <= self.capacity(),
            0 < self.capacity() <= usize::MAX,
            distinct_keys(self@),
    ;

    /// Returns the number of key-value pairs that are currently in the cache.
    fn len(&self) -> (n: usize)
        requires
            self.wf(),
        ensures
            n == self@.len(),
    ;

    /// Returns the maximum number of key-value pairs the cache can hold.
    fn cap(&self) -> (c: Capacity)
        requires
            self.wf(),
        ensures
            c.value() == self.capacity(),
    ;

    /// Returns a bool indicating whether the cache is empty or not.
    fn is_empty(&self) -> (b: bool)
        requires
            self.wf(),
        ensures
            b == (self@.len() == 0),
    ;

    /// Puts a key-value pair into cache. If the key already exists in the cache, then it updates
    /// the key's value and returns the old value. Otherwise, `None` is returned.
    ///
    /// The pair becomes the most recently used. A new key in a full cache
    /// pushes out the least recently used pair, which is dropped.
    fn put(&mut self, k: K, v: V) -> (r: Option<V>)
        requires
            old(self).wf(),
        ensures
            final(self).wf(),
            final(self).capacity() == old(self).capacity(),
            final(self)@ == inserted(old(self)@, old(self).capacity(), k, v),
            r == value_of(old(self)@, k),
    ;

    /// Pushes a key-value pair into the cache. If an entry with key `k` already exists in
    /// the cache or another cache entry is removed (due to the capacity), then it returns
    /// the old entry's key-value pair. Otherwise, returns `None`.
    fn push(&mut self, k: K, v: V) -> (r: Option<(K, V)>)
        requires
            old(self).wf(),
        ensures
            final(self).wf(),
            final(self).capacity() == old(self).capacity(),
            final(self)@ == inserted(old(self)@, old(self).capacity(), k, v),
            r == displaced(old(self)@, old(self).capacity(), k),
    ;

    /// Returns a reference to the value of the key in the cache or `None` if it is not
    /// present in the cache. Moves the key to the head of the LRU list if it exists.
    fn get<'a>(&'a mut self, k: &K) -> (r: Option<&'a V>)
        requires
            old(self).wf(),
        ensures
            final(self).wf(),
            final(self).capacity() == old(self).capacity(),
            final(self)@ == promoted(old(self)@, *k),
            match r {
                Some(v) => value_of(old(self)@, *k) == Some(*v),
                None => !has_key(old(self)@, *k),
            },
    ;

    /// Returns a mutable reference to the value of the key in the cache or `None` if it
    /// is not present in the cache. Moves the key to the head of the LRU list if it exists.
    fn get_mut<'a>(&'a mut self, k: &K) -> (r: Option<&'a mut V>)
        requires
            old(self).wf(),
        ensures
            final(self).wf(),
            final(self).capacity() == old(self).capacity(),
            match r {
                Some(v) => value_of(old(self)@, *k) == Some(*v) && final(self)@ == promoted(
                    old(self)@,
                    *k,
                ).update(0, (*k, *final(v))),
                None => !has_key(old(self)@, *k) && final(self)@ == old(self)@,
            },
    ;

    /// Returns a reference to the value of the key in the cache if it is
    /// present in the cache and moves the key to the head of the LRU list.
    /// If the key does not exist the provided `FnOnce` is used to populate
    /// the list and a reference is returned.
    ///
    /// `f` only has to be callable when the key is absent: on a hit it is
    /// not called. A pair that is pushed out to make room is dropped.
    fn get_or_insert<F: FnOnce() -> V>(&mut self, k: K, f: F) -> (r: &V)
        requires
            old(self).wf(),
            !has_key(old(self)@, k) ==> call_requires(f, ()),
        ensures
            final(self).wf(),
            final(self).capacity() == old(self).capacity(),
            has_key(old(self)@, k) ==> value_of(old(self)@, k) == Some(*r) && final(self)@
                == promoted(old(self)@, k),
            !has_key(old(self)@, k) ==> call_ensures(f, (), *r) && final(self)@ == inserted(
                old(self)@,
                old(self).capacity(),
                k,
                *r,
            ),
    ;

    /// Returns a mutable reference to the value of the key in the cache if it is
    /// present in the cache and moves the key to the head of the LRU list.
    /// If the key does not exist the provided `FnOnce` is used to populate
    /// the list and a mutable reference is returned.
    ///
    /// `f` only has to be callable when the key is absent: on a hit it is
    /// not called. A pair that is pushed out to make room is dropped.
    fn get_or_insert_mut<F: FnOnce() -> V>(&mut self, k: K, f: F) -> (r: &mut V)
        requires
            old(self).wf(),
            !has_key(old(self)@, k) ==> call_requires(f, ()),
        ensures
            final(self).wf(),
            final(self).capacity() == old(self).capacity(),
            has_key(old(self)@, k) ==> value_of(old(self)@, k) == Some(*r) && final(self)@
                == promoted(old(self)@, k).update(0, (k, *final(r))),
            !has_key(old(self)@, k) ==> call_ensures(f, (), *r) && final(self)@ == inserted(
                old(self)@,
                old(self).capacity(),
                k,
                *r,
            ).update(0, (k, *final(r))),
    ;

    /// Returns a reference to the value corresponding to the key in the cache or `None` if it is
    /// not present in the cache. Unlike `get`, `peek` does not update the LRU list so the key's
    /// position will be unchanged.
    fn peek<'a>(&'a mut self, k: &K) -> (r: Option<&'a V>)
        requires
            old(self).wf(),
        ensures
            final(self).wf(),
            final(self).capacity() == old(self).capacity(),
            final(self)@ == old(self)@,
            match r {
                Some(v) => value_of(old(self)@, *k) == Some(*v),
                None => !has_key(old(self)@, *k),
            },
    ;

    /// Returns a mutable reference to the value corresponding to the key in the cache or `None`
    /// if it is not present in the cache. Unlike `get_mut`, `peek_mut` does not update the LRU
    /// list so the key's position will be unchanged.
    fn peek_mut<'a>(&'a mut self, k: &K) -> (r: Option<&'a mut V>)
        requires
            old(self).wf(),
        ensures
            final(self).wf(),
            final(self).capacity() == old(self).capacity(),
            match r {
                Some(v) => value_of(old(self)@, *k) == Some(*v) && final(self)@ == old(self)@.update(
                    position(old(self)@, *k),
                    (*k, *final(v)),
                ),
                None => !has_key(old(self)@, *k) && final(self)@ == old(self)@,
            },
    ;

    /// Returns the value corresponding to the least recently used item or `None` if the
    /// cache is empty. Like `peek`, `peek_last` does not update the LRU list so the item's
    /// position will be unchanged.
    fn peek_last(&mut self) -> (r: Option<(&K, &V)>)
        requires
            old(self).wf(),
        ensures
            final(self).wf(),
            final(self).capacity() == old(self).capacity(),
            final(self)@ == old(self)@,
            match r {
                Some((k, v)) => last_of(old(self)@) == Some((*k, *v)),
                None => old(self)@.len() == 0,
            },
    ;

    /// Returns a bool indicating whether the given key is in the cache. Does not update the
    /// LRU list.
    fn contains(&self, k: &K) -> (b: bool)
        requires
            self.wf(),
        ensures
            b == has_key(self@, *k),
    ;

    /// Removes and returns the value corresponding to the key from the cache or
    /// `None` if it does not exist.
    fn pop(&mut self, k: &K) -> (r: Option<V>)
        requires
            old(self).wf(),
        ensures
            final(self).wf(),
            final(self).capacity() == old(self).capacity(),
            final(self)@ == without(old(self)@, *k),
            r == value_of(old(self)@, *k),
    ;

    /// Removes and returns the key and the value corresponding to the key from the cache or
    /// `None` if it does not exist.
    fn pop_entry(&mut self, k: &K) -> (r: Option<(K, V)>)
        requires
            old(self).wf(),
        ensures
            final(self).wf(),
            final(self).capacity() == old(self).capacity(),
            final(self)@ == without(old(self)@, *k),
            r == entry_of(old(self)@, *k),
    ;

    /// Removes and returns the key and value corresponding to the least recently
    /// used item or `None` if the cache is empty.
    fn pop_last(&mut self) -> (r: Option<(K, V)>)
        requires
            old(self).wf(),
        ensures
            final(self).wf(),
            final(self).capacity() == old(self).capacity(),
            final(self)@ == without_last(old(self)@),
            r == last_of(old(self)@),
    ;

    /// Marks the key as the most recently used one.
    fn promote(&mut self, k: &K)
        requires
            old(self).wf(),
        ensures
            final(self).wf(),
            final(self).capacity() == old(self).capacity(),
            final(self)@ == promoted(old(self)@, *k),
    ;

    /// Marks the key as the least recently used one.
    fn demote(&mut self, k: &K)
        requires
            old(self).wf(),
        ensures
            final(self).wf(),
            final(self).capacity() == old(self).capacity(),
            final(self)@ == demoted(old(self)@, *k),
    ;

    /// Resizes the cache. If the new capacity is smaller than the size of the current
    /// cache any entries past the new capacity are discarded.
    fn resize(&mut self, cap: Capacity)
        requires
            old(self).wf(),
        ensures
            final(self).wf(),
            final(self).capacity() == cap.value(),
            final(self)@ == shrunk(old(self)@, cap.value() as nat),
    ;

    /// Clears the contents of the cache.
    fn clear(&mut self)
        requires
            old(self).wf(),
        ensures
            final(self).wf(),
            final(self).capacity() == old(self).capacity(),
            final(self)@ == Seq::<(K, V)>::empty(),
    ;
}

} // verus!
