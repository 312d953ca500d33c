use crate::lru::cache::{clone_is_exact, Cache, DefaultHasher};
use crate::lru::capacity::Capacity;
use crate::lru::list::{
    filled, indexed, lemma_attach, lemma_attach_last, lemma_detach, lemma_detached_frame,
    lemma_ends, lemma_frame, lemma_index_size, lemma_linked_front, lemma_lookup, lemma_moved_back,
    lemma_moved_front, lemma_neighbours, lemma_revalued, lemma_unlinked, lemma_view_distinct,
    links_valid, pair_at, pairs, revalued, same_pairs, slots_valid, vacant, LRUEntry, HEAD, TAIL,
};
use crate::lru::model::{
    displaced, has_key, inserted, key_set, last_of, shrunk, to_back, to_front, without_last,
};
use std::collections::HashMap;
use std::hash::{BuildHasher, Hash};
use vstd::prelude::*;
use vstd::std_specs::hash::{builds_valid_hashers, obeys_key_model};

verus! {

/// `HashMap::with_capacity_and_hasher` of std, taken on trust: the map it
/// makes holds no key. It sets memory aside for `capacity` entries, and
/// fails as the allocator does where that much cannot be had.
pub assume_specification<K, V, S>[ HashMap::<K, V, S>::with_capacity_and_hasher ](
    capacity: usize,
    hasher: S,
) -> (result: HashMap<K, V, S>)
    ensures
        result@.dom() == Set::<K>::empty(),
;

/// `HashMap::with_hasher` of std, taken on trust: the map it makes holds no
/// key.
pub assume_specification<K, V, S>[ HashMap::<K, V, S>::with_hasher ](hasher: S) -> (result: HashMap<
    K,
    V,
    S,
>)
    ensures
        result@.dom() == Set::<K>::empty(),
;

/// `HashMap::shrink_to_fit` of std, taken on trust: it gives spare memory
/// back and leaves in the map what was in it.
#[verifier::external_body]
fn shrink_index<K: Hash + Eq, S: BuildHasher>(map: &mut HashMap<K, usize, S>)
    ensures
        final(map)@ == old(map)@,
{
    map.shrink_to_fit();
}

/// An iterator over the entries of a `LRUCache`, most recently used first.
///
/// Its view is the sequence of the entries it has yet to yield. It can be
/// read from both ends; the two ends meet without handing out an entry
/// twice.
pub struct Iter<'a, K, V> {
    len: usize,
    ptr: usize,
    end: usize,
    nodes: &'a Vec<LRUEntry<K, V>>,
    order: Ghost<Seq<usize>>,
    front: Ghost<int>,
}

impl<'a, K, V> View for Iter<'a, K, V> {
    type V = Seq<(K, V)>;

    closed spec fn view(&self) -> Seq<(K, V)> {
        pairs(self.nodes@, self.order@).subrange(self.front@, self.front@ + self.len)
    }
}

impl<'a, K, V> Iter<'a, K, V> {
    /// The iterator stands on the list of a consistent cache.
    pub closed spec fn wf(&self) -> bool {
        &&& slots_valid(self.nodes@, self.order@)
        &&& links_valid(self.nodes@, self.order@)
        &&& filled(self.nodes@, self.order@)
        &&& 0 <= self.front@
        &&& self.front@ + self.len <= self.order@.len()
        &&& self.len > 0 ==> self.ptr == self.order@[self.front@] && self.end == self.order@[self.front@
            + self.len - 1]
    }

    /// Yields the most recently used of the remaining entries.
    pub fn next(&mut self) -> (r: Option<(&'a K, &'a V)>)
        requires
            old(self).wf(),
        ensures
            final(self).wf(),
            match r {
                Some((k, v)) => old(self)@.len() > 0 && old(self)@[0] == (*k, *v) && final(self)@
                    == old(self)@.drop_first(),
                None => old(self)@.len() == 0 && final(self)@ == old(self)@,
            },
    {
        if self.len == 0 {
            return None;
        }
        let nodes: &'a Vec<LRUEntry<K, V>> = self.nodes;
        let ghost i = self.front@;
        proof {
            lemma_neighbours(nodes@, self.order@, i);
            assert(nodes@[self.order@[i] as int].key is Some);
        }
        let node = &nodes[self.ptr];
        self.len -= 1;
        self.ptr = node.next;
        proof {
            self.front@ = i + 1;
            assert(self@ =~= old(self)@.drop_first());
        }
        Some((node.key.as_ref().unwrap(), node.value.as_ref().unwrap()))
    }

    /// Yields the least recently used of the remaining entries.
    pub fn next_back(&mut self) -> (r: Option<(&'a K, &'a V)>)
        requires
            old(self).wf(),
        ensures
            final(self).wf(),
            match r {
                Some((k, v)) => old(self)@.len() > 0 && old(self)@.last() == (*k, *v) && final(self)@
                    == old(self)@.drop_last(),
                None => old(self)@.len() == 0 && final(self)@ == old(self)@,
            },
    {
        if self.len == 0 {
            return None;
        }
        let nodes: &'a Vec<LRUEntry<K, V>> = self.nodes;
        let ghost j = self.front@ + self.len - 1;
        proof {
            lemma_neighbours(nodes@, self.order@, j);
            assert(nodes@[self.order@[j] as int].key is Some);
        }
        let node = &nodes[self.end];
        self.len -= 1;
        self.end = node.prev;
        proof {
            assert(self@ =~= old(self)@.drop_last());
        }
        Some((node.key.as_ref().unwrap(), node.value.as_ref().unwrap()))
    }

    /// The number of entries that remain.
    pub fn len(&self) -> (n: usize)
        requires
            self.wf(),
        ensures
            n == self@.len(),
    {
        self.len
    }

    /// The bounds on the number of entries that remain: both are that number.
    pub fn size_hint(&self) -> (r: (usize, Option<usize>))
        requires
            self.wf(),
        ensures
            r.0 == self@.len(),
            r.1 == Some(r.0),
    {
        (self.len, Some(self.len))
    }

    /// The number of entries that remain.
    pub fn count(self) -> (n: usize)
        requires
            self.wf(),
        ensures
            n == self@.len(),
    {
        self.len
    }
}

impl<'a, K, V> Clone for Iter<'a, K, V> {
    /// A second iterator at the same place, which goes on independently.
    fn clone(&self) -> (r: Self)
        ensures
            r == *self,
    {
        Iter {
            len: self.len,
            ptr: self.ptr,
            end: self.end,
            nodes: self.nodes,
            order: self.order,
            front: self.front,
        }
    }
}

/// An iterator that moves out of a `LRUCache`, least recently used first.
///
/// Its view is the sequence of the entries it has yet to yield, in the
/// order of the cache it came from: it yields them from the back.
pub struct IntoIter<K, V> where K: Hash + Eq + Clone {
    cache: LRUCache<K, V>,
}

impl<K, V> View for IntoIter<K, V> where K: Hash + Eq + Clone {
    type V = Seq<(K, V)>;

    closed spec fn view(&self) -> Seq<(K, V)> {
        self.cache@
    }
}

impl<K, V> IntoIter<K, V> where K: Hash + Eq + Clone {
    /// The cache inside is consistent.
    pub closed spec fn wf(&self) -> bool {
        self.cache.wf()
    }

    /// Yields the least recently used of the remaining entries.
    pub fn next(&mut self) -> (r: Option<(K, V)>)
        requires
            old(self).wf(),
        ensures
            final(self).wf(),
            final(self)@ == without_last(old(self)@),
            r == last_of(old(self)@),
    {
        self.cache.pop_last()
    }

    /// The number of entries that remain.
    pub fn len(&self) -> (n: usize)
        requires
            self.wf(),
        ensures
            n == self@.len(),
    {
        self.cache.len()
    }

    /// The bounds on the number of entries that remain: both are that number.
    pub fn size_hint(&self) -> (r: (usize, Option<usize>))
        requires
            self.wf(),
        ensures
            r.0 == self@.len(),
            r.1 == Some(r.0),
    {
        let len = self.cache.len();
        (len, Some(len))
    }

    /// The number of entries that remain.
    pub fn count(self) -> (n: usize)
        requires
            self.wf(),
        ensures
            n == self@.len(),
    {
        self.cache.len()
    }
}

/// A LRU cache.
///
/// The entries live in an arena of slots. A hash index finds the slot of a
/// key, and a doubly linked list threaded through the slots, between two
/// sigils, keeps the entries in the order of their last use.
#[verifier::reject_recursive_types(S)]
pub struct LRUCache<K, V, S = DefaultHasher> {
    // map is used to speed up LRU access.
    map: HashMap<K, usize, S>,
    // cap is used to specific LRU cache capacity.
    cap: Capacity,
    // the arena: the two sigils first, then the entries and the vacant slots
    nodes: Vec<LRUEntry<K, V>>,
    // the vacant slots
    free: Vec<usize>,
    // the slots of the list, most recently used first
    order: Ghost<Seq<usize>>,
}

impl<K, V, S> View for LRUCache<K, V, S> {
    type V = Seq<(K, V)>;

    closed spec fn view(&self) -> Seq<(K, V)> {
        pairs(self.nodes@, self.order@)
    }
}

impl<K, V, S> LRUCache<K, V, S> where K: Hash + Eq + Clone, S: BuildHasher {
    /// The keys behave as the index expects of them.
    spec fn lawful() -> bool {
        &&& obeys_key_model::<K>()
        &&& builds_valid_hashers::<S>()
        &&& clone_is_exact::<K>()
    }

    /// The list is sound: its slots, its links and its pairs.
    spec fn listed(&self) -> bool {
        &&& slots_valid(self.nodes@, self.order@)
        &&& links_valid(self.nodes@, self.order@)
        &&& filled(self.nodes@, self.order@)
    }

    /// The whole invariant.
    spec fn inv(&self) -> bool {
        &&& Self::lawful()
        &&& self.cap.value() > 0
        &&& self.listed()
        &&& vacant(self.nodes@, self.free@)
        &&& indexed(self.nodes@, self.order@, self.map@)
        &&& self.order@.len() + self.free@.len() + 2 == self.nodes@.len()
        &&& self.order@.len() <= self.cap.value()
    }

    /// The invariant of a cache in which the slot `d` holds a pair but is
    /// neither listed nor indexed, on its way in or out.
    spec fn inv_detached(&self, d: usize) -> bool {
        &&& Self::lawful()
        &&& self.cap.value() > 0
        &&& self.listed()
        &&& vacant(self.nodes@, self.free@)
        &&& indexed(self.nodes@, self.order@, self.map@)
        &&& 2 <= d < self.nodes@.len()
        &&& self.nodes@[d as int].key is Some
        &&& self.nodes@[d as int].value is Some
        &&& !self.order@.contains(d)
        &&& !self.map@.contains_key(self.nodes@[d as int].key.unwrap())
        &&& self.order@.len() + self.free@.len() + 3 == self.nodes@.len()
        &&& self.order@.len() < self.cap.value()
    }

    /// Creates a new LRU Cache with the given capacity.
    fn construct(cap: Capacity, map: HashMap<K, usize, S>) -> (cache: Self)
        requires
            Self::lawful(),
            map@.dom() == Set::<K>::empty(),
        ensures
            cache.inv(),
            cache@ == Seq::<(K, V)>::empty(),
            cache.cap == cap,
    {
        let _positive = cap.get();
        let mut nodes: Vec<LRUEntry<K, V>> = Vec::new();
        nodes.push(LRUEntry::new_sigil());
        nodes.push(LRUEntry::new_sigil());
        nodes[HEAD].next = TAIL;
        nodes[TAIL].prev = HEAD;
        let cache = LRUCache { map, cap, nodes, free: Vec::new(), order: Ghost(Seq::empty()) };
        proof {
            assert(cache@ =~= Seq::<(K, V)>::empty());
        }
        cache
    }

    /// Detach specific `node`.
    fn detach(&mut self, node: usize, Ghost(p): Ghost<int>)
        requires
            old(self).listed(),
            0 <= p < old(self).order@.len(),
            old(self).order@[p] == node,
        ensures
            final(self).listed(),
            final(self).order@ == old(self).order@.remove(p),
            same_pairs(final(self).nodes@, old(self).nodes@),
            final(self).map == old(self).map,
            final(self).free == old(self).free,
            final(self).cap == old(self).cap,
    {
        let prev = self.nodes[node].prev;
        let next = self.nodes[node].next;
        proof {
            lemma_neighbours(self.nodes@, self.order@, p);
        }
        self.nodes[prev].next = next;
        self.nodes[next].prev = prev;
        proof {
            lemma_detach(old(self).nodes@, self.nodes@, self.order@, p);
            self.order@ = self.order@.remove(p);
        }
    }

    /// Attaches `node` after the head sigil.
    fn attach(&mut self, node: usize)
        requires
            old(self).listed(),
            2 <= node < old(self).nodes@.len(),
            !old(self).order@.contains(node),
            old(self).nodes@[node as int].key is Some,
            old(self).nodes@[node as int].value is Some,
        ensures
            final(self).listed(),
            final(self).order@ == seq![node] + old(self).order@,
            same_pairs(final(self).nodes@, old(self).nodes@),
            final(self).map == old(self).map,
            final(self).free == old(self).free,
            final(self).cap == old(self).cap,
    {
        let first = self.nodes[HEAD].next;
        proof {
            lemma_ends(self.nodes@, self.order@);
        }
        self.nodes[node].next = first;
        self.nodes[node].prev = HEAD;
        self.nodes[HEAD].next = node;
        self.nodes[first].prev = node;
        proof {
            lemma_attach(old(self).nodes@, self.nodes@, self.order@, node);
            self.order@ = seq![node] + self.order@;
        }
    }

    /// Attaches `node` before the tail sigil.
    fn attach_last(&mut self, node: usize)
        requires
            old(self).listed(),
            2 <= node < old(self).nodes@.len(),
            !old(self).order@.contains(node),
            old(self).nodes@[node as int].key is Some,
            old(self).nodes@[node as int].value is Some,
        ensures
            final(self).listed(),
            final(self).order@ == old(self).order@.push(node),
            same_pairs(final(self).nodes@, old(self).nodes@),
            final(self).map == old(self).map,
            final(self).free == old(self).free,
            final(self).cap == old(self).cap,
    {
        let last = self.nodes[TAIL].prev;
        proof {
            lemma_ends(self.nodes@, self.order@);
        }
        self.nodes[node].next = TAIL;
        self.nodes[node].prev = last;
        self.nodes[TAIL].prev = node;
        self.nodes[last].next = node;
        proof {
            lemma_attach_last(old(self).nodes@, self.nodes@, self.order@, node);
            self.order@ = self.order@.push(node);
        }
    }

    /// Moves the listed slot `node` to the most recently used end.
    fn move_to_front(&mut self, node: usize, Ghost(p): Ghost<int>)
        requires
            old(self).inv(),
            0 <= p < old(self).order@.len(),
            old(self).order@[p] == node,
        ensures
            final(self).inv(),
            final(self)@ == to_front(old(self)@, p),
            final(self).cap == old(self).cap,
            final(self).order@[0] == node,
            final(self).order@.len() == old(self).order@.len(),
            final(self).nodes@[node as int].key == old(self).nodes@[node as int].key,
            final(self).nodes@[node as int].value == old(self).nodes@[node as int].value,
    {
        proof {
            lemma_moved_front(self.nodes@, self.nodes@, self.order@, p, self.map@);
        }
        self.detach(node, Ghost(p));
        self.attach(node);
        proof {
            lemma_moved_front(old(self).nodes@, self.nodes@, old(self).order@, p, self.map@);
        }
    }

    /// Moves the listed slot `node` to the least recently used end.
    fn move_to_back(&mut self, node: usize, Ghost(p): Ghost<int>)
        requires
            old(self).inv(),
            0 <= p < old(self).order@.len(),
            old(self).order@[p] == node,
        ensures
            final(self).inv(),
            final(self)@ == to_back(old(self)@, p),
            final(self).cap == old(self).cap,
    {
        proof {
            lemma_moved_back(self.nodes@, self.nodes@, self.order@, p, self.map@);
        }
        self.detach(node, Ghost(p));
        self.attach_last(node);
        proof {
            lemma_moved_back(old(self).nodes@, self.nodes@, old(self).order@, p, self.map@);
        }
    }

    /// Empties the detached slot `node`, hands out its pair and keeps the
    /// slot for later use.
    fn release(&mut self, node: usize) -> (pair: (K, V))
        requires
            old(self).inv_detached(node),
        ensures
            final(self).inv(),
            final(self)@ == old(self)@,
            final(self).cap == old(self).cap,
            pair == pair_at(old(self).nodes@, node),
    {
        let key = self.nodes[node].key.take().unwrap();
        let value = self.nodes[node].value.take().unwrap();
        self.free.push(node);
        proof {
            lemma_frame(old(self).nodes@, self.nodes@, self.order@, node, self.map@);
            let f1 = old(self).free@;
            let f2 = self.free@;
            assert forall|i: int, j: int| 0 <= i < f2.len() && 0 <= j < f2.len() && i != j implies f2[i] != f2[j] by {
                if i < f1.len() {
                    assert(f2[i] == f1[i]);
                    assert(old(self).nodes@[f1[i] as int].key is None);
                }
                if j < f1.len() {
                    assert(f2[j] == f1[j]);
                    assert(old(self).nodes@[f1[j] as int].key is None);
                }
            }
            assert forall|j: int| 0 <= j < f2.len() implies 2 <= #[trigger] f2[j] < self.nodes@.len()
                && self.nodes@[f2[j] as int].key is None && self.nodes@[f2[j] as int].value is None by {
                if j < f1.len() {
                    assert(f2[j] == f1[j]);
                    assert(old(self).nodes@[f1[j] as int].key is None);
                }
            }
        }
        (key, value)
    }

    /// Finds a slot for the new pair `(k, v)`: a vacant one if there is any,
    /// else a new one at the end of the arena. The slot is left detached.
    fn acquire(&mut self, k: K, v: V) -> (node: usize)
        requires
            old(self).inv(),
            old(self).order@.len() < old(self).cap.value(),
            !old(self).map@.contains_key(k),
        ensures
            final(self).inv_detached(node),
            final(self)@ == old(self)@,
            final(self).cap == old(self).cap,
            pair_at(final(self).nodes@, node) == (k, v),
    {
        match self.free.pop() {
            Some(node) => {
                proof {
                    let f1 = old(self).free@;
                    assert(node == f1[f1.len() - 1]);
                    assert(2 <= node < self.nodes@.len() && self.nodes@[node as int].key is None);
                    if self.order@.contains(node) {
                        let i = self.order@.index_of(node);
                        assert(self.nodes@[self.order@[i] as int].key is Some);
                    }
                }
                self.nodes[node].key = Some(k);
                self.nodes[node].value = Some(v);
                proof {
                    lemma_frame(old(self).nodes@, self.nodes@, self.order@, node, self.map@);
                    let f1 = old(self).free@;
                    let f2 = self.free@;
                    assert forall|j: int| 0 <= j < f2.len() implies 2 <= #[trigger] f2[j] < self.nodes@.len()
                        && self.nodes@[f2[j] as int].key is None && self.nodes@[f2[j] as int].value is None by {
                        assert(f2[j] == f1[j]);
                        assert(f1[j] != f1[f1.len() - 1]);
                    }
                    assert forall|i: int, j: int| 0 <= i < f2.len() && 0 <= j < f2.len() && i != j implies f2[i] != f2[j] by {
                        assert(f2[i] == f1[i]);
                        assert(f2[j] == f1[j]);
                    }
                }
                node
            },
            None => {
                let node = self.nodes.len();
                self.nodes.push(LRUEntry::new(k, v));
                proof {
                    if self.order@.contains(node) {
                        let i = self.order@.index_of(node);
                        assert(self.order@[i] < old(self).nodes@.len());
                    }
                    lemma_frame(old(self).nodes@, self.nodes@, self.order@, node, self.map@);
                }
                node
            },
        }
    }

    /// Lists the detached slot `node` first and enters its key in the index.
    fn link_front(&mut self, node: usize, key: K)
        requires
            old(self).inv_detached(node),
            old(self).nodes@[node as int].key == Some(key),
        ensures
            final(self).inv(),
            final(self)@ == seq![pair_at(old(self).nodes@, node)] + old(self)@,
            final(self).cap == old(self).cap,
            final(self).order@.len() > 0,
            final(self).order@[0] == node,
            final(self).nodes@[node as int].key == old(self).nodes@[node as int].key,
            final(self).nodes@[node as int].value == old(self).nodes@[node as int].value,
    {
        self.attach(node);
        self.map.insert(key, node);
        proof {
            lemma_linked_front(old(self).nodes@, self.nodes@, old(self).order@, node, old(self).map@);
        }
    }

    /// Takes the least recently used slot out of the list and its key out of
    /// the index. The slot is left detached, with its pair still in it.
    fn unlink_last(&mut self) -> (node: usize)
        requires
            old(self).inv(),
            old(self)@.len() > 0,
        ensures
            final(self).inv_detached(node),
            final(self).cap == old(self).cap,
            final(self)@ == old(self)@.drop_last(),
            pair_at(final(self).nodes@, node) == old(self)@.last(),
            final(self).map@ == old(self).map@.remove(old(self)@.last().0),
    {
        let ghost p = self.order@.len() - 1;
        proof {
            lemma_ends(self.nodes@, self.order@);
            assert(self.nodes@[self.order@[p] as int].key is Some);
        }
        let node = self.nodes[TAIL].prev;
        let old_key = self.nodes[node].key.as_ref().unwrap();
        self.map.remove(old_key);
        self.detach(node, Ghost(p));
        proof {
            lemma_unlinked(old(self).nodes@, self.nodes@, old(self).order@, p, old(self).map@);
            assert(old(self).order@.remove(p) =~= old(self).order@.drop_last());
            assert(old(self)@.remove(p) =~= old(self)@.drop_last());
        }
        node
    }

    /// Takes the least recently used slot out of the cache, if there is
    /// one, and leaves it detached.
    fn detach_last(&mut self) -> (r: Option<usize>)
        requires
            old(self).inv(),
        ensures
            final(self).cap == old(self).cap,
            match r {
                Some(node) => old(self)@.len() > 0 && final(self).inv_detached(node)
                    && final(self)@ == old(self)@.drop_last()
                    && pair_at(final(self).nodes@, node) == old(self)@.last(),
                None => old(self)@.len() == 0 && final(self).inv() && final(self)@ == old(self)@,
            },
    {
        proof {
            lemma_ends(self.nodes@, self.order@);
        }
        if self.nodes[TAIL].prev != HEAD {
            Some(self.unlink_last())
        } else {
            None
        }
    }

    /// Puts `(k, v)` in the detached slot `node` and hands out the pair that
    /// was there.
    fn refill(&mut self, node: usize, k: K, v: V) -> (pair: (K, V))
        requires
            old(self).inv_detached(node),
            !old(self).map@.contains_key(k),
        ensures
            final(self).inv_detached(node),
            final(self).cap == old(self).cap,
            final(self)@ == old(self)@,
            final(self).map@ == old(self).map@,
            pair_at(final(self).nodes@, node) == (k, v),
            pair == pair_at(old(self).nodes@, node),
    {
        let old_key = self.nodes[node].key.take().unwrap();
        let old_val = self.nodes[node].value.take().unwrap();
        self.nodes[node].key = Some(k);
        self.nodes[node].value = Some(v);
        proof {
            if self.free@.contains(node) {
                let j = self.free@.index_of(node);
                assert(old(self).nodes@[self.free@[j] as int].key is None);
            }
            lemma_frame(old(self).nodes@, self.nodes@, self.order@, node, self.map@);
            lemma_detached_frame(old(self).nodes@, self.nodes@, self.free@, node);
        }
        (old_key, old_val)
    }

    // Used internally to swap out a node if the cache is full or to create a new node if space
    // is available. Shared between `put`, `push`, `get_or_insert`, and `get_or_insert_mut`.
    fn replace_or_create_node(&mut self, k: K, v: V) -> (r: (Option<(K, V)>, usize))
        requires
            old(self).inv(),
            !has_key(old(self)@, k),
        ensures
            final(self).inv_detached(r.1),
            final(self).cap == old(self).cap,
            pair_at(final(self).nodes@, r.1) == (k, v),
            r.0 == (if old(self)@.len() < old(self).cap.value() {
                None
            } else {
                Some(old(self)@.last())
            }),
            final(self)@ == (if old(self)@.len() < old(self).cap.value() {
                old(self)@
            } else {
                old(self)@.drop_last()
            }),
    {
        proof {
            lemma_index_size(self.nodes@, self.order@, self.map@);
            lemma_lookup(self.nodes@, self.order@, self.map@, k);
        }
        if self.map.len() == self.cap.get() {
            // if the cache is full, remove the last entry so we can use it for the new key.
            let node = self.unlink_last();
            // read out the node's old key and value and then replace it
            let replaced = self.refill(node, k, v);
            (Some(replaced), node)
        } else {
            (None, self.acquire(k, v))
        }
    }

    /// Replaces the value of the listed slot `node` and hands out the value
    /// that was there.
    fn revalue(&mut self, node: usize, v: V, Ghost(p): Ghost<int>) -> (old_v: V)
        requires
            old(self).inv(),
            0 <= p < old(self).order@.len(),
            old(self).order@[p] == node,
        ensures
            final(self).inv(),
            final(self).cap == old(self).cap,
            final(self).order@ == old(self).order@,
            final(self)@ == old(self)@.update(p, (old(self)@[p].0, v)),
            old_v == old(self)@[p].1,
    {
        let old_v = self.nodes[node].value.take().unwrap();
        self.nodes[node].value = Some(v);
        proof {
            if self.free@.contains(node) {
                let j = self.free@.index_of(node);
                assert(old(self).nodes@[self.free@[j] as int].key is None);
            }
            lemma_revalued(old(self).nodes@, self.nodes@, self.order@, p, self.map@);
            lemma_detached_frame(old(self).nodes@, self.nodes@, self.free@, node);
        }
        old_v
    }

    /// The slot at place `i` of the list, found by walking from the head
    /// sigil.
    fn slot_at(&self, i: usize) -> (node: usize)
        requires
            self.inv(),
            i < self.order@.len(),
        ensures
            node == self.order@[i as int],
    {
        proof {
            lemma_ends(self.nodes@, self.order@);
        }
        let mut node = self.nodes[HEAD].next;
        let mut j: usize = 0;
        while j < i
            invariant
                self.inv(),
                j <= i < self.order@.len(),
                node == self.order@[j as int],
            decreases i - j,
        {
            proof {
                lemma_neighbours(self.nodes@, self.order@, j as int);
            }
            node = self.nodes[node].next;
            j += 1;
        }
        node
    }

    /// Lends out the pair of the listed slot `node`, its value for writing.
    fn entry_mut(&mut self, node: usize, Ghost(p): Ghost<int>) -> (r: (&K, &mut V))
        requires
            old(self).inv(),
            0 <= p < old(self).order@.len(),
            old(self).order@[p] == node,
        ensures
            final(self).inv(),
            final(self).cap == old(self).cap,
            final(self)@ == old(self)@.update(p, (old(self)@[p].0, *final(r.1))),
            *r.0 == old(self)@[p].0,
            *r.1 == old(self)@[p].1,
    {
        let ghost a = self.nodes@;
        let ghost order = self.order@;
        let ghost free = self.free@;
        let ghost m = self.map@;
        proof {
            if free.contains(node) {
                let j = free.index_of(node);
                assert(a[free[j] as int].key is None);
            }
            assert forall|b: Seq<LRUEntry<K, V>>| revalued(a, b, node) implies #[trigger] links_valid(b, order)
                && slots_valid(b, order) && filled(b, order) && indexed(b, order, m) && vacant(b, free)
                && pairs(b, order) == pairs(a, order).update(
                p,
                (a[node as int].key.unwrap(), b[node as int].value.unwrap()),
            ) by {
                lemma_revalued(a, b, order, p, m);
                lemma_detached_frame(a, b, free, node);
            }
        }
        let entry = &mut self.nodes[node];
        (entry.key.as_ref().unwrap(), entry.value.as_mut().unwrap())
    }

    // Used internally by `put` and `push` to add a new entry to the lru.
    // Takes ownership of and returns entries replaced due to the cache's capacity
    // when `capture` is true.
    fn capturing_put(&mut self, k: K, v: V, capture: bool) -> (r: Option<(K, V)>)
        requires
            old(self).inv(),
        ensures
            final(self).inv(),
            final(self).cap == old(self).cap,
            final(self)@ == inserted(old(self)@, old(self).cap.value() as nat, k, v),
            r == (if has_key(old(self)@, k) || capture {
                displaced(old(self)@, old(self).cap.value() as nat, k)
            } else {
                None
            }),
    {
        proof {
            lemma_lookup(self.nodes@, self.order@, self.map@, k);
        }
        match self.map.get(&k) {
            // if the key is already in the cache just update its
            // value and move it to the front of the list
            Some(node) => {
                let node = *node;
                let ghost p = self.order@.index_of(node);
                let old_v = self.revalue(node, v, Ghost(p));
                self.move_to_front(node, Ghost(p));
                proof {
                    assert(self@ =~= inserted(old(self)@, old(self).cap.value() as nat, k, v));
                }
                Some((k, old_v))
            },
            None => {
                let key = k.clone();
                let (replaced, node) = self.replace_or_create_node(k, v);
                self.link_front(node, key);
                if capture {
                    replaced
                } else {
                    None
                }
            },
        }
    }

    /// Creates a new LRU Cache that holds at most `cap` items and
    /// uses the provided hash builder to hash keys.
    ///
    /// The keys must hash, compare and clone lawfully, and `hasher` must
    /// build hashers that agree with each other.
    pub fn with_hasher(cap: Capacity, hasher: S) -> (cache: Self)
        requires
            obeys_key_model::<K>(),
            builds_valid_hashers::<S>(),
            clone_is_exact::<K>(),
        ensures
            cache.wf(),
            cache@ == Seq::<(K, V)>::empty(),
            cache.capacity() == cap.value(),
    {
        LRUCache::construct(cap, HashMap::with_capacity_and_hasher(cap.get(), hasher))
    }

    /// Creates a new LRU Cache that never automatically evicts items and
    /// uses the provided hash builder to hash keys.
    pub fn unbounded_with_hasher(hasher: S) -> (cache: Self)
        requires
            obeys_key_model::<K>(),
            builds_valid_hashers::<S>(),
            clone_is_exact::<K>(),
        ensures
            cache.wf(),
            cache@ == Seq::<(K, V)>::empty(),
            cache.capacity() == usize::MAX,
    {
        LRUCache::construct(Capacity::unbounded(), HashMap::with_hasher(hasher))
    }

    /// An iterator visiting all entries in most-recently used order. The iterator element type is
    /// `(&K, &V)`.
    pub fn iter(&self) -> (it: Iter<'_, K, V>)
        requires
            self.wf(),
        ensures
            it.wf(),
            it@ == self@,
    {
        proof {
            lemma_ends(self.nodes@, self.order@);
        }
        let it = Iter {
            len: self.len(),
            ptr: self.nodes[HEAD].next,
            end: self.nodes[TAIL].prev,
            nodes: &self.nodes,
            order: Ghost(self.order@),
            front: Ghost(0),
        };
        proof {
            assert(it@ =~= self@);
        }
        it
    }

    /// Lends out the entry at place `i` of the recency order, the most
    /// recently used being at place 0, with its value for writing. The order
    /// is left as it is. Walking to the place takes `i` steps.
    pub fn nth_mut(&mut self, i: usize) -> (r: Option<(&K, &mut V)>)
        requires
            old(self).wf(),
        ensures
            final(self).wf(),
            final(self).capacity() == old(self).capacity(),
            match r {
                Some((k, v)) => i < old(self)@.len() && old(self)@[i as int] == (*k, *v) && final(self)@
                    == old(self)@.update(i as int, (*k, *final(v))),
                None => i >= old(self)@.len() && final(self)@ == old(self)@,
            },
    {
        if i >= self.len() {
            return None;
        }
        let node = self.slot_at(i);
        Some(self.entry_mut(node, Ghost(i as int)))
    }

    /// The keys that the index knows.
    pub closed spec fn index_keys(&self) -> Set<K> {
        self.map@.dom()
    }

    /// The index and the recency list agree: the index knows exactly the
    /// keys of the entries on the list, and as many keys as the list has
    /// entries.
    pub proof fn lemma_index_agrees(&self)
        requires
            self.wf(),
        ensures
            self.index_keys() == key_set(self@),
            self.index_keys().finite(),
            self.index_keys().len() == self@.len(),
    {
        lemma_index_size(self.nodes@, self.order@, self.map@);
    }
}

impl<K, V> LRUCache<K, V> where K: Hash + Eq + Clone {
    /// Creates a new LRU Cache that holds at most `cap` items.
    ///
    /// The keys must hash, compare and clone lawfully.
    pub fn new(cap: Capacity) -> (cache: Self)
        requires
            obeys_key_model::<K>(),
            clone_is_exact::<K>(),
        ensures
            cache.wf(),
            cache@ == Seq::<(K, V)>::empty(),
            cache.capacity() == cap.value(),
    {
        LRUCache::construct(cap, HashMap::with_capacity(cap.get()))
    }

    /// Creates a new LRU Cache that never automatically evicts items.
    ///
    /// The keys must hash, compare and clone lawfully.
    pub fn unbounded() -> (cache: Self)
        requires
            obeys_key_model::<K>(),
            clone_is_exact::<K>(),
        ensures
            cache.wf(),
            cache@ == Seq::<(K, V)>::empty(),
            cache.capacity() == usize::MAX,
    {
        LRUCache::construct(Capacity::unbounded(), HashMap::default())
    }
}

impl<K, V> LRUCache<K, V> where K: Hash + Eq + Clone {
    /// Turns the cache into an iterator that yields its entries by value,
    /// least recently used first.
    pub fn into_iter(self) -> (it: IntoIter<K, V>)
        requires
            self.wf(),
        ensures
            it.wf(),
            it@ == self@,
    {
        IntoIter { cache: self }
    }
}

impl<K, V, S> Cache<K, V, S> for LRUCache<K, V, S> where K: Hash + Eq + Clone, S: BuildHasher {
    closed spec fn wf(&self) -> bool {
        self.inv()
    }

    closed spec fn capacity(&self) -> nat {
        self.cap.value() as nat
    }

    proof fn lemma_bounded(&self) {
        lemma_view_distinct(self.nodes@, self.order@, self.map@);
    }

    fn len(&self) -> (n: usize) {
        proof {
            lemma_index_size(self.nodes@, self.order@, self.map@);
        }
        self.map.len()
    }

    fn cap(&self) -> (c: Capacity) {
        self.cap
    }

    fn is_empty(&self) -> (b: bool) {
        proof {
            lemma_index_size(self.nodes@, self.order@, self.map@);
        }
        self.map.len() == 0
    }

    fn put(&mut self, k: K, v: V) -> (r: Option<V>) {
        match self.capturing_put(k, v, false) {
            Some((_, v)) => Some(v),
            None => None,
        }
    }

    fn push(&mut self, k: K, v: V) -> (r: Option<(K, V)>) {
        self.capturing_put(k, v, true)
    }

    fn get<'a>(&'a mut self, k: &K) -> (r: Option<&'a V>) {
        proof {
            lemma_lookup(self.nodes@, self.order@, self.map@, *k);
        }
        match self.map.get(k) {
            Some(node) => {
                let node = *node;
                let ghost p = self.order@.index_of(node);
                self.move_to_front(node, Ghost(p));
                self.nodes[node].value.as_ref()
            },
            None => None,
        }
    }

    fn get_mut<'a>(&'a mut self, k: &K) -> (r: Option<&'a mut V>) {
        proof {
            lemma_lookup(self.nodes@, self.order@, self.map@, *k);
        }
        match self.map.get(k) {
            Some(node) => {
                let node = *node;
                let ghost p = self.order@.index_of(node);
                self.move_to_front(node, Ghost(p));
                Some(self.entry_mut(node, Ghost(0)).1)
            },
            None => None,
        }
    }

    fn get_or_insert<F: FnOnce() -> V>(&mut self, k: K, f: F) -> (r: &V) {
        proof {
            lemma_lookup(self.nodes@, self.order@, self.map@, k);
        }
        match self.map.get(&k) {
            Some(node) => {
                let node = *node;
                let ghost p = self.order@.index_of(node);
                self.move_to_front(node, Ghost(p));
                self.nodes[node].value.as_ref().unwrap()
            },
            None => {
                let v = f();
                let key = k.clone();
                let (_, node) = self.replace_or_create_node(k, v);
                self.link_front(node, key);
                self.nodes[node].value.as_ref().unwrap()
            },
        }
    }

    fn get_or_insert_mut<F: FnOnce() -> V>(&mut self, k: K, f: F) -> (r: &mut V) {
        proof {
            lemma_lookup(self.nodes@, self.order@, self.map@, k);
        }
        match self.map.get(&k) {
            Some(node) => {
                let node = *node;
                let ghost p = self.order@.index_of(node);
                self.move_to_front(node, Ghost(p));
                self.entry_mut(node, Ghost(0)).1
            },
            None => {
                let v = f();
                let key = k.clone();
                let (_, node) = self.replace_or_create_node(k, v);
                self.link_front(node, key);
                self.entry_mut(node, Ghost(0)).1
            },
        }
    }

    fn peek<'a>(&'a mut self, k: &K) -> (r: Option<&'a V>) {
        proof {
            lemma_lookup(self.nodes@, self.order@, self.map@, *k);
        }
        match self.map.get(k) {
            Some(node) => {
                let node = *node;
                self.nodes[node].value.as_ref()
            },
            None => None,
        }
    }

    fn peek_mut<'a>(&'a mut self, k: &K) -> (r: Option<&'a mut V>) {
        proof {
            lemma_lookup(self.nodes@, self.order@, self.map@, *k);
        }
        match self.map.get(k) {
            Some(node) => {
                let node = *node;
                let ghost p = self.order@.index_of(node);
                Some(self.entry_mut(node, Ghost(p)).1)
            },
            None => None,
        }
    }

    fn peek_last(&mut self) -> (r: Option<(&K, &V)>) {
        if self.is_empty() {
            return None;
        }
        proof {
            lemma_ends(self.nodes@, self.order@);
            assert(self.nodes@[self.order@.last() as int].key is Some);
        }
        let node = &self.nodes[self.nodes[TAIL].prev];
        Some((node.key.as_ref().unwrap(), node.value.as_ref().unwrap()))
    }

    fn contains(&self, k: &K) -> (b: bool) {
        proof {
            lemma_lookup(self.nodes@, self.order@, self.map@, *k);
        }
        self.map.contains_key(k)
    }

    fn pop(&mut self, k: &K) -> (r: Option<V>) {
        match self.pop_entry(k) {
            Some((_, value)) => Some(value),
            None => None,
        }
    }

    fn pop_entry(&mut self, k: &K) -> (r: Option<(K, V)>) {
        proof {
            lemma_lookup(self.nodes@, self.order@, self.map@, *k);
        }
        match self.map.remove(k) {
            Some(node) => {
                let ghost p = self.order@.index_of(node);
                self.detach(node, Ghost(p));
                proof {
                    lemma_unlinked(old(self).nodes@, self.nodes@, old(self).order@, p, old(self).map@);
                }
                Some(self.release(node))
            },
            None => None,
        }
    }

    fn pop_last(&mut self) -> (r: Option<(K, V)>) {
        match self.detach_last() {
            Some(node) => Some(self.release(node)),
            None => None,
        }
    }

    fn promote(&mut self, k: &K) {
        proof {
            lemma_lookup(self.nodes@, self.order@, self.map@, *k);
        }
        if let Some(node) = self.map.get(k) {
            let node = *node;
            let ghost p = self.order@.index_of(node);
            self.move_to_front(node, Ghost(p));
        }
    }

    fn demote(&mut self, k: &K) {
        proof {
            lemma_lookup(self.nodes@, self.order@, self.map@, *k);
        }
        if let Some(node) = self.map.get(k) {
            let node = *node;
            let ghost p = self.order@.index_of(node);
            self.move_to_back(node, Ghost(p));
        }
    }

    fn resize(&mut self, cap: Capacity) {
        let new_cap = cap.get();
        if new_cap == self.cap.get() {
            return;
        }
        proof {
            lemma_index_size(self.nodes@, self.order@, self.map@);
        }
        while self.map.len() > new_cap
            invariant
                self.inv(),
                self.cap.value() == old(self).cap.value(),
                new_cap == cap.value(),
                self.map@.dom().len() == self@.len(),
                self@.len() <= old(self)@.len(),
                self@.len() >= new_cap || self@.len() == old(self)@.len(),
                self@ == old(self)@.take(self@.len() as int),
            decreases self@.len(),
        {
            self.pop_last();
            proof {
                lemma_index_size(self.nodes@, self.order@, self.map@);
                assert(self@ =~= old(self)@.take(self@.len() as int));
            }
        }
        shrink_index(&mut self.map);
        self.cap = cap;
        proof {
            assert(self@ =~= shrunk(old(self)@, cap.value() as nat));
        }
    }

    fn clear(&mut self) {
        loop
            invariant
                self.inv(),
                self.cap.value() == old(self).cap.value(),
            ensures
                self.inv(),
                self.cap.value() == old(self).cap.value(),
                self@.len() == 0,
            decreases self@.len(),
        {
            match self.pop_last() {
                Some(_) => {},
                None => {
                    break ;
                },
            }
        }
        proof {
            assert(self@ =~= Seq::<(K, V)>::empty());
        }
    }
}

} // verus!
