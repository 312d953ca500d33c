//! The arena of slots and the recency list threaded through it: what it
//! means for the list and the index to be sound, and how each pointer
//! update changes them.

use crate::lru::model::{distinct_keys, has_key, key_set, lemma_position, position, to_back, to_front};
use vstd::prelude::*;

verus! {

/// The slot of the sigil that stands before the most recently used entry.
pub(crate) const HEAD: usize = 0;

/// The slot of the sigil that stands after the least recently used entry.
pub(crate) const TAIL: usize = 1;

/// The link of an entry that is in no list.
pub(crate) const NIL: usize = usize::MAX;

/// A slot of the arena: a key-value pair and its two links in the recency
/// list. The sigils and the vacant slots hold no pair.
pub(crate) struct LRUEntry<K, V> {
    pub(crate) key: Option<K>,
    pub(crate) value: Option<V>,
    pub(crate) prev: usize,
    pub(crate) next: usize,
}

impl<K, V> LRUEntry<K, V> {
    /// A slot that holds the pair `(key, val)` and is in no list.
    pub(crate) fn new(key: K, val: V) -> (e: Self)
        ensures
            e.key == Some(key),
            e.value == Some(val),
            e.prev == NIL,
            e.next == NIL,
    {
        LRUEntry { key: Some(key), value: Some(val), prev: NIL, next: NIL }
    }

    /// A slot that holds no pair: a sigil.
    pub(crate) fn new_sigil() -> (e: Self)
        ensures
            e.key is None,
            e.value is None,
            e.prev == NIL,
            e.next == NIL,
    {
        LRUEntry { key: None, value: None, prev: NIL, next: NIL }
    }
}

/// The slot before place `i` of the list `order`.
pub(crate) open spec fn before(order: Seq<usize>, i: int) -> usize {
    if i == 0 {
        HEAD
    } else {
        order[i - 1]
    }
}

/// The slot after place `i` of the list `order`.
pub(crate) open spec fn after(order: Seq<usize>, i: int) -> usize {
    if i == order.len() - 1 {
        TAIL
    } else {
        order[i + 1]
    }
}

/// The listed slots are slots of the arena, none is a sigil and none is
/// listed twice.
pub(crate) open spec fn slots_valid<K, V>(nodes: Seq<LRUEntry<K, V>>, order: Seq<usize>) -> bool {
    &&& nodes.len() >= 2
    &&& order.no_duplicates()
    &&& forall|i: int| 0 <= i < order.len() ==> 2 <= #[trigger] order[i] < nodes.len()
}

/// Walking `next` from the head sigil visits the slots of `order` in turn
/// and ends at the tail sigil; walking `prev` from the tail goes back.
pub(crate) open spec fn links_valid<K, V>(nodes: Seq<LRUEntry<K, V>>, order: Seq<usize>) -> bool {
    &&& nodes[HEAD as int].next == first_of(order)
    &&& nodes[TAIL as int].prev == last_of(order)
    &&& forall|i: int|
        0 <= i < order.len() ==> nodes[#[trigger] order[i] as int].prev == before(order, i)
            && nodes[order[i] as int].next == after(order, i)
}

/// Every listed slot holds a pair.
pub(crate) open spec fn filled<K, V>(nodes: Seq<LRUEntry<K, V>>, order: Seq<usize>) -> bool {
    forall|i: int|
        0 <= i < order.len() ==> nodes[#[trigger] order[i] as int].key is Some
            && nodes[order[i] as int].value is Some
}

/// The vacant slots are slots of the arena that hold nothing, none twice.
pub(crate) open spec fn vacant<K, V>(nodes: Seq<LRUEntry<K, V>>, free: Seq<usize>) -> bool {
    &&& free.no_duplicates()
    &&& forall|j: int|
        0 <= j < free.len() ==> 2 <= #[trigger] free[j] < nodes.len() && nodes[free[j] as int].key is None
            && nodes[free[j] as int].value is None
}

/// The index maps exactly the keys of the listed slots, each to its slot.
pub(crate) open spec fn indexed<K, V>(
    nodes: Seq<LRUEntry<K, V>>,
    order: Seq<usize>,
    index: Map<K, usize>,
) -> bool {
    &&& forall|i: int|
        0 <= i < order.len() ==> index.contains_key(nodes[#[trigger] order[i] as int].key.unwrap())
            && index[nodes[order[i] as int].key.unwrap()] == order[i]
    &&& forall|k: K| #[trigger]
        index.contains_key(k) ==> order.contains(index[k]) && nodes[index[k] as int].key == Some(k)
}

/// The pairs of the listed slots, in the order of the list.
pub(crate) open spec fn pairs<K, V>(nodes: Seq<LRUEntry<K, V>>, order: Seq<usize>) -> Seq<(K, V)> {
    Seq::new(
        order.len(),
        |i: int| (nodes[order[i] as int].key.unwrap(), nodes[order[i] as int].value.unwrap()),
    )
}

/// Two arenas hold the same pairs in the same slots.
pub(crate) open spec fn same_pairs<K, V>(a: Seq<LRUEntry<K, V>>, b: Seq<LRUEntry<K, V>>) -> bool {
    &&& a.len() == b.len()
    &&& forall|s: int| 0 <= s < a.len() ==> (#[trigger] a[s]).key == b[s].key && a[s].value == b[s].value
}

/// The slot after the head sigil: the first of the list, or the tail sigil
/// where the list is empty.
pub(crate) open spec fn first_of(order: Seq<usize>) -> usize {
    if order.len() == 0 {
        TAIL
    } else {
        order[0]
    }
}

/// The slot before the tail sigil: the last of the list, or the head sigil
/// where the list is empty.
pub(crate) open spec fn last_of(order: Seq<usize>) -> usize {
    if order.len() == 0 {
        HEAD
    } else {
        order.last()
    }
}

/// The two ends of the list are slots of the arena.
pub(crate) proof fn lemma_ends<K, V>(nodes: Seq<LRUEntry<K, V>>, order: Seq<usize>)
    requires
        slots_valid(nodes, order),
        links_valid(nodes, order),
    ensures
        nodes[HEAD as int].next == first_of(order),
        nodes[TAIL as int].prev == last_of(order),
        first_of(order) < nodes.len(),
        last_of(order) < nodes.len(),
        first_of(order) != HEAD,
        last_of(order) != TAIL,
{
    if order.len() > 0 {
        assert(2 <= order[0] < nodes.len());
        assert(2 <= order[order.len() - 1] < nodes.len());
    }
}

/// Linking a slot between the head sigil and the first slot puts it first.
pub(crate) proof fn lemma_attach<K, V>(a: Seq<LRUEntry<K, V>>, b: Seq<LRUEntry<K, V>>, order: Seq<usize>, node: usize)
    requires
        slots_valid(a, order),
        links_valid(a, order),
        filled(a, order),
        2 <= node < a.len(),
        !order.contains(node),
        a[node as int].key is Some,
        a[node as int].value is Some,
        same_pairs(b, a),
        b[node as int].next == first_of(order),
        b[node as int].prev == HEAD,
        b[HEAD as int].next == node,
        b[first_of(order) as int].prev == node,
        forall|s: int| 0 <= s < a.len() && s != node && s != HEAD ==> (#[trigger] b[s]).next == a[s].next,
        forall|s: int| 0 <= s < a.len() && s != node && s != first_of(order) ==> (#[trigger] b[s]).prev == a[s].prev,
    ensures
        slots_valid(b, seq![node] + order),
        links_valid(b, seq![node] + order),
        filled(b, seq![node] + order),
{
    let o2 = seq![node] + order;
    assert(o2[0] == node);
    assert forall|i: int| 1 <= i < o2.len() implies o2[i] == order[i - 1] by {}
    assert forall|i: int, j: int| 0 <= i < o2.len() && 0 <= j < o2.len() && i != j implies o2[i] != o2[j] by {
        if i > 0 && j > 0 {
            assert(order[i - 1] != order[j - 1]);
        } else if i > 0 {
            assert(order.contains(order[i - 1]));
        } else {
            assert(order.contains(order[j - 1]));
        }
    }
    assert(o2.no_duplicates());
    assert forall|i: int| 0 <= i < o2.len() implies 2 <= #[trigger] o2[i] < b.len() by {
        if i > 0 {
            assert(2 <= order[i - 1] < a.len());
        }
    }
    assert forall|i: int| 0 <= i < o2.len() implies b[#[trigger] o2[i] as int].key is Some && b[o2[i] as int].value is Some by {
        if i > 0 {
            assert(a[order[i - 1] as int].key is Some);
        }
    }
    assert forall|i: int| 0 <= i < o2.len() implies b[#[trigger] o2[i] as int].prev == before(o2, i) && b[o2[i] as int].next == after(o2, i) by {
        if i > 0 {
            let s = order[i - 1];
            assert(o2[i] == s);
            assert(order.contains(s));
            assert(2 <= s < a.len());
            assert(a[s as int].prev == before(order, i - 1));
            assert(a[s as int].next == after(order, i - 1));
            if i == 1 {
                assert(s == first_of(order));
            } else {
                assert(order[0] != s);
                assert(before(o2, i) == order[i - 2]);
            }
        } else {
            if order.len() > 0 {
                assert(o2[1] == order[0]);
            }
        }
    }
    if order.len() > 0 {
        assert(order.contains(order.last()));
        assert(2 <= order.last() < a.len());
        assert(o2.last() == order.last());
        assert(order.len() == 1 ==> order.last() == first_of(order));
        assert(order.len() > 1 ==> order.last() != order[0]);
    }
}

/// Linking a slot between the last slot and the tail sigil puts it last.
pub(crate) proof fn lemma_attach_last<K, V>(a: Seq<LRUEntry<K, V>>, b: Seq<LRUEntry<K, V>>, order: Seq<usize>, node: usize)
    requires
        slots_valid(a, order),
        links_valid(a, order),
        filled(a, order),
        2 <= node < a.len(),
        !order.contains(node),
        a[node as int].key is Some,
        a[node as int].value is Some,
        same_pairs(b, a),
        b[node as int].next == TAIL,
        b[node as int].prev == last_of(order),
        b[TAIL as int].prev == node,
        b[last_of(order) as int].next == node,
        forall|s: int| 0 <= s < a.len() && s != node && s != last_of(order) ==> (#[trigger] b[s]).next == a[s].next,
        forall|s: int| 0 <= s < a.len() && s != node && s != TAIL ==> (#[trigger] b[s]).prev == a[s].prev,
    ensures
        slots_valid(b, order.push(node)),
        links_valid(b, order.push(node)),
        filled(b, order.push(node)),
{
    let o2 = order.push(node);
    let n = order.len() as int;
    assert(o2[n] == node);
    assert forall|i: int| 0 <= i < n implies o2[i] == order[i] by {}
    assert forall|i: int, j: int| 0 <= i < o2.len() && 0 <= j < o2.len() && i != j implies o2[i] != o2[j] by {
        if i < n && j < n {
            assert(order[i] != order[j]);
        } else if i < n {
            assert(order.contains(order[i]));
        } else {
            assert(order.contains(order[j]));
        }
    }
    assert(o2.no_duplicates());
    assert forall|i: int| 0 <= i < o2.len() implies 2 <= #[trigger] o2[i] < b.len() by {
        if i < n {
            assert(2 <= order[i] < a.len());
        }
    }
    assert forall|i: int| 0 <= i < o2.len() implies b[#[trigger] o2[i] as int].key is Some && b[o2[i] as int].value is Some by {
        if i < n {
            assert(a[order[i] as int].key is Some);
        }
    }
    assert forall|i: int| 0 <= i < o2.len() implies b[#[trigger] o2[i] as int].prev == before(o2, i) && b[o2[i] as int].next == after(o2, i) by {
        if i < n {
            let s = order[i];
            assert(o2[i] == s);
            assert(order.contains(s));
            assert(2 <= s < a.len());
            assert(a[s as int].prev == before(order, i));
            assert(a[s as int].next == after(order, i));
            if i == n - 1 {
                assert(s == last_of(order));
            } else {
                assert(order[n - 1] != s);
                assert(after(o2, i) == order[i + 1]);
            }
            if i > 0 {
                assert(before(o2, i) == order[i - 1]);
            }
        } else {
            if n > 0 {
                assert(o2[n - 1] == order[n - 1]);
            }
        }
    }
    if n > 0 {
        assert(order.contains(order[0]));
        assert(2 <= order[0] < a.len());
        assert(o2[0] == order[0]);
        assert(n == 1 ==> order[0] == last_of(order));
        assert(n > 1 ==> order.last() != order[0]);
    }
}

/// The neighbours of a listed slot are slots of the arena, and differ from it.
pub(crate) proof fn lemma_neighbours<K, V>(nodes: Seq<LRUEntry<K, V>>, order: Seq<usize>, p: int)
    requires
        slots_valid(nodes, order),
        links_valid(nodes, order),
        0 <= p < order.len(),
    ensures
        nodes[order[p] as int].prev == before(order, p),
        nodes[order[p] as int].next == after(order, p),
        before(order, p) < nodes.len(),
        after(order, p) < nodes.len(),
        before(order, p) != order[p],
        after(order, p) != order[p],
        before(order, p) != TAIL,
        after(order, p) != HEAD,
{
    if p > 0 {
        assert(2 <= order[p - 1] < nodes.len());
    }
    if p < order.len() - 1 {
        assert(2 <= order[p + 1] < nodes.len());
    }
}

/// Joining the two neighbours of the slot at place `p` takes it out of the
/// list and leaves a sound list of the others.
pub(crate) proof fn lemma_detach<K, V>(a: Seq<LRUEntry<K, V>>, b: Seq<LRUEntry<K, V>>, order: Seq<usize>, p: int)
    requires
        slots_valid(a, order),
        links_valid(a, order),
        filled(a, order),
        0 <= p < order.len(),
        same_pairs(b, a),
        b[before(order, p) as int].next == after(order, p),
        b[after(order, p) as int].prev == before(order, p),
        forall|s: int| 0 <= s < a.len() && s != before(order, p) ==> (#[trigger] b[s]).next == a[s].next,
        forall|s: int| 0 <= s < a.len() && s != after(order, p) ==> (#[trigger] b[s]).prev == a[s].prev,
    ensures
        slots_valid(b, order.remove(p)),
        links_valid(b, order.remove(p)),
        filled(b, order.remove(p)),
{
    let o2 = order.remove(p);
    let n = order.len();
    assert forall|i: int| 0 <= i < o2.len() implies o2[i] == order[if i < p { i } else { i + 1 }] by {}
    assert forall|i: int, j: int| 0 <= i < o2.len() && 0 <= j < o2.len() && i != j implies o2[i] != o2[j] by {
        let si = if i < p { i } else { i + 1 };
        let sj = if j < p { j } else { j + 1 };
        assert(order[si] != order[sj]);
    }
    assert(o2.no_duplicates());
    assert forall|i: int| 0 <= i < o2.len() implies 2 <= #[trigger] o2[i] < b.len() by {
        let si = if i < p { i } else { i + 1 };
        assert(2 <= order[si] < a.len());
    }
    assert forall|i: int| 0 <= i < o2.len() implies b[#[trigger] o2[i] as int].key is Some && b[o2[i] as int].value is Some by {
        let si = if i < p { i } else { i + 1 };
        assert(a[order[si] as int].key is Some);
    }
    assert forall|i: int| 0 <= i < o2.len() implies b[#[trigger] o2[i] as int].prev == before(o2, i) && b[o2[i] as int].next == after(o2, i) by {
        let si = if i < p { i } else { i + 1 };
        let s = order[si];
        assert(o2[i] == s);
        assert(a[s as int].prev == before(order, si));
        assert(a[s as int].next == after(order, si));
        assert(2 <= s < a.len());
        // the slot after the one that left
        if si == p + 1 {
            assert(s == after(order, p));
            assert(before(o2, i) == before(order, p));
        } else {
            if p < n - 1 {
                assert(order[p + 1] != s);
            }
            assert(s != after(order, p));
            if si > 0 {
                assert(before(order, si) == order[si - 1]);
            }
            assert(before(o2, i) == before(order, si));
        }
        // the slot before the one that left
        if si == p - 1 {
            assert(s == before(order, p));
            assert(after(o2, i) == after(order, p));
        } else {
            if p > 0 {
                assert(order[p - 1] != s);
            }
            assert(s != before(order, p));
            assert(after(o2, i) == after(order, si));
        }
    }
    if p == 0 {
        assert(before(order, p) == HEAD);
    } else {
        assert(order[p - 1] >= 2);
        assert(order[0] == o2[0]);
    }
    if p == n - 1 {
        assert(after(order, p) == TAIL);
    } else {
        assert(order[p + 1] >= 2);
        assert(order.last() == o2.last());
    }
}

/// The key and the value that a filled slot holds.
pub(crate) open spec fn pair_at<K, V>(nodes: Seq<LRUEntry<K, V>>, slot: usize) -> (K, V) {
    (nodes[slot as int].key.unwrap(), nodes[slot as int].value.unwrap())
}

/// An indexed list holds no key twice.
pub(crate) proof fn lemma_view_distinct<K, V>(nodes: Seq<LRUEntry<K, V>>, order: Seq<usize>, m: Map<K, usize>)
    requires
        slots_valid(nodes, order),
        indexed(nodes, order, m),
    ensures
        distinct_keys(pairs(nodes, order)),
{
    let s = pairs(nodes, order);
    assert forall|i: int, j: int| 0 <= i < s.len() && 0 <= j < s.len() && i != j implies (#[trigger] s[i]).0 != (#[trigger] s[j]).0 by {
        assert(m[nodes[order[i] as int].key.unwrap()] == order[i]);
        assert(m[nodes[order[j] as int].key.unwrap()] == order[j]);
        assert(order[i] != order[j]);
    }
}

/// The index knows a key exactly when the list holds it, and then leads to
/// the slot that stands at the key's position.
pub(crate) proof fn lemma_lookup<K, V>(nodes: Seq<LRUEntry<K, V>>, order: Seq<usize>, m: Map<K, usize>, k: K)
    requires
        slots_valid(nodes, order),
        filled(nodes, order),
        indexed(nodes, order, m),
    ensures
        m.contains_key(k) <==> has_key(pairs(nodes, order), k),
        m.contains_key(k) ==> {
            let p = order.index_of(m[k]);
            &&& 0 <= p < order.len()
            &&& order[p] == m[k]
            &&& position(pairs(nodes, order), k) == p
            &&& pairs(nodes, order)[p] == pair_at(nodes, m[k])
            &&& pairs(nodes, order)[p].0 == k
        },
{
    let s = pairs(nodes, order);
    lemma_view_distinct(nodes, order, m);
    if m.contains_key(k) {
        assert(order.contains(m[k]));
        let p = order.index_of(m[k]);
        assert(0 <= p < order.len() && order[p] == m[k]);
        assert(s[p].0 == k);
        lemma_position(s, p);
    }
    if has_key(s, k) {
        let i = position(s, k);
        assert(0 <= i < s.len() && s[i].0 == k);
        assert(m.contains_key(nodes[order[i] as int].key.unwrap()));
    }
}

/// The index has as many keys as the list has slots.
pub(crate) proof fn lemma_index_size<K, V>(nodes: Seq<LRUEntry<K, V>>, order: Seq<usize>, m: Map<K, usize>)
    requires
        slots_valid(nodes, order),
        filled(nodes, order),
        indexed(nodes, order, m),
    ensures
        m.dom().finite(),
        m.dom().len() == order.len(),
        m.dom() =~= key_set(pairs(nodes, order)),
{
    let s = pairs(nodes, order);
    let ks = Seq::new(order.len(), |i: int| nodes[order[i] as int].key.unwrap());
    lemma_view_distinct(nodes, order, m);
    assert forall|i: int, j: int| 0 <= i < ks.len() && 0 <= j < ks.len() && i != j implies ks[i] != ks[j] by {
        assert(s[i].0 == ks[i]);
        assert(s[j].0 == ks[j]);
    }
    assert(ks.no_duplicates());
    ks.unique_seq_to_set();
    vstd::seq_lib::seq_to_set_is_finite(ks);
    assert forall|k: K| ks.to_set().contains(k) <==> m.dom().contains(k) by {
        lemma_lookup(nodes, order, m, k);
        if ks.to_set().contains(k) {
            let i = choose|i: int| 0 <= i < ks.len() && ks[i] == k;
            assert(s[i].0 == k);
        }
        if m.dom().contains(k) {
            let p = order.index_of(m[k]);
            assert(ks[p] == k);
        }
    }
    assert(ks.to_set() =~= m.dom());
    assert forall|k: K| m.dom().contains(k) <==> key_set(s).contains(k) by {
        lemma_lookup(nodes, order, m, k);
    }
}

/// Moving a slot to the front of the list moves its pair to the front of
/// the view and leaves the index as it was.
pub(crate) proof fn lemma_moved_front<K, V>(
    a: Seq<LRUEntry<K, V>>,
    b: Seq<LRUEntry<K, V>>,
    order: Seq<usize>,
    p: int,
    m: Map<K, usize>,
)
    requires
        slots_valid(a, order),
        indexed(a, order, m),
        0 <= p < order.len(),
        same_pairs(b, a),
    ensures
        indexed(b, seq![order[p]] + order.remove(p), m),
        pairs(b, seq![order[p]] + order.remove(p)) == to_front(pairs(a, order), p),
        !order.remove(p).contains(order[p]),
{
    let o2 = seq![order[p]] + order.remove(p);
    assert forall|i: int| 0 <= i < o2.len() implies o2[i] == order[if i == 0 { p } else if i - 1 < p { i - 1 } else { i }] by {}
    assert forall|i: int| 0 <= i < o2.len() implies m.contains_key(b[#[trigger] o2[i] as int].key.unwrap())
        && m[b[o2[i] as int].key.unwrap()] == o2[i] by {
        let si = if i == 0 { p } else if i - 1 < p { i - 1 } else { i };
        assert(o2[i] == order[si]);
        assert(m.contains_key(a[order[si] as int].key.unwrap()));
    }
    assert forall|k: K| #[trigger] m.contains_key(k) implies o2.contains(m[k]) && b[m[k] as int].key == Some(k) by {
        assert(order.contains(m[k]));
        let j = order.index_of(m[k]);
        let i = if j == p { 0 } else if j < p { j + 1 } else { j };
        assert(o2[i] == order[j]);
    }
    assert(pairs(b, o2) =~= to_front(pairs(a, order), p));
    let r = order.remove(p);
    if r.contains(order[p]) {
        let i = r.index_of(order[p]);
        let si = if i < p { i } else { i + 1 };
        assert(r[i] == order[si]);
        assert(order[si] != order[p]);
    }
}

/// Moving a slot to the back of the list moves its pair to the back of the
/// view and leaves the index as it was.
pub(crate) proof fn lemma_moved_back<K, V>(
    a: Seq<LRUEntry<K, V>>,
    b: Seq<LRUEntry<K, V>>,
    order: Seq<usize>,
    p: int,
    m: Map<K, usize>,
)
    requires
        slots_valid(a, order),
        indexed(a, order, m),
        0 <= p < order.len(),
        same_pairs(b, a),
    ensures
        indexed(b, order.remove(p).push(order[p]), m),
        pairs(b, order.remove(p).push(order[p])) == to_back(pairs(a, order), p),
        !order.remove(p).contains(order[p]),
{
    let o2 = order.remove(p).push(order[p]);
    let n = order.len() as int;
    assert forall|i: int| 0 <= i < o2.len() implies o2[i] == order[if i == n - 1 { p } else if i < p { i } else { i + 1 }] by {}
    assert forall|i: int| 0 <= i < o2.len() implies m.contains_key(b[#[trigger] o2[i] as int].key.unwrap())
        && m[b[o2[i] as int].key.unwrap()] == o2[i] by {
        let si = if i == n - 1 { p } else if i < p { i } else { i + 1 };
        assert(o2[i] == order[si]);
        assert(m.contains_key(a[order[si] as int].key.unwrap()));
    }
    assert forall|k: K| #[trigger] m.contains_key(k) implies o2.contains(m[k]) && b[m[k] as int].key == Some(k) by {
        assert(order.contains(m[k]));
        let j = order.index_of(m[k]);
        let i = if j == p { n - 1 } else if j < p { j } else { j - 1 };
        assert(o2[i] == order[j]);
    }
    assert(pairs(b, o2) =~= to_back(pairs(a, order), p));
    let r = order.remove(p);
    if r.contains(order[p]) {
        let i = r.index_of(order[p]);
        let si = if i < p { i } else { i + 1 };
        assert(r[i] == order[si]);
        assert(order[si] != order[p]);
    }
}

/// Taking a slot out of the list and its key out of the index takes its
/// pair out of the view; the rest stays indexed.
pub(crate) proof fn lemma_unlinked<K, V>(
    a: Seq<LRUEntry<K, V>>,
    b: Seq<LRUEntry<K, V>>,
    order: Seq<usize>,
    p: int,
    m: Map<K, usize>,
)
    requires
        slots_valid(a, order),
        indexed(a, order, m),
        0 <= p < order.len(),
        same_pairs(b, a),
    ensures
        indexed(b, order.remove(p), m.remove(a[order[p] as int].key.unwrap())),
        pairs(b, order.remove(p)) == pairs(a, order).remove(p),
        !order.remove(p).contains(order[p]),
{
    let o2 = order.remove(p);
    let kp = a[order[p] as int].key.unwrap();
    let m2 = m.remove(kp);
    assert(m[kp] == order[p]);
    assert forall|i: int| 0 <= i < o2.len() implies o2[i] == order[if i < p { i } else { i + 1 }] by {}
    assert forall|i: int| 0 <= i < o2.len() implies m2.contains_key(b[#[trigger] o2[i] as int].key.unwrap())
        && m2[b[o2[i] as int].key.unwrap()] == o2[i] by {
        let si = if i < p { i } else { i + 1 };
        assert(o2[i] == order[si]);
        assert(m[a[order[si] as int].key.unwrap()] == order[si]);
        assert(order[si] != order[p]);
    }
    assert forall|k: K| #[trigger] m2.contains_key(k) implies o2.contains(m2[k]) && b[m2[k] as int].key == Some(k) by {
        assert(m.contains_key(k));
        assert(order.contains(m[k]));
        let j = order.index_of(m[k]);
        assert(j != p);
        let i = if j < p { j } else { j - 1 };
        assert(o2[i] == order[j]);
    }
    assert(pairs(b, o2) =~= pairs(a, order).remove(p));
    if o2.contains(order[p]) {
        let i = o2.index_of(order[p]);
        let si = if i < p { i } else { i + 1 };
        assert(o2[i] == order[si]);
        assert(order[si] != order[p]);
    }
}

/// What the list and the index say does not depend on a slot that is not
/// listed, nor on slots that were added to the arena.
pub(crate) proof fn lemma_frame<K, V>(
    a: Seq<LRUEntry<K, V>>,
    b: Seq<LRUEntry<K, V>>,
    order: Seq<usize>,
    d: usize,
    m: Map<K, usize>,
)
    requires
        slots_valid(a, order),
        links_valid(a, order),
        filled(a, order),
        indexed(a, order, m),
        d >= 2,
        !order.contains(d),
        b.len() >= a.len(),
        forall|s: int| 0 <= s < a.len() && s != d ==> #[trigger] b[s] == a[s],
    ensures
        slots_valid(b, order),
        links_valid(b, order),
        filled(b, order),
        indexed(b, order, m),
        pairs(b, order) == pairs(a, order),
{
    assert forall|i: int| 0 <= i < order.len() implies b[#[trigger] order[i] as int] == a[order[i] as int] by {
        assert(order.contains(order[i]));
    }
    assert forall|k: K| #[trigger] m.contains_key(k) implies order.contains(m[k]) && b[m[k] as int].key == Some(k) by {
        assert(order.contains(m[k]));
        let j = order.index_of(m[k]);
        assert(b[order[j] as int] == a[order[j] as int]);
    }
    assert(pairs(b, order) =~= pairs(a, order));
}

/// Listing a slot first and entering its key in the index puts its pair in
/// front of the view.
pub(crate) proof fn lemma_linked_front<K, V>(
    a: Seq<LRUEntry<K, V>>,
    b: Seq<LRUEntry<K, V>>,
    order: Seq<usize>,
    d: usize,
    m: Map<K, usize>,
)
    requires
        slots_valid(a, order),
        indexed(a, order, m),
        2 <= d < a.len(),
        !order.contains(d),
        a[d as int].key is Some,
        !m.contains_key(a[d as int].key.unwrap()),
        same_pairs(b, a),
    ensures
        indexed(b, seq![d] + order, m.insert(a[d as int].key.unwrap(), d)),
        pairs(b, seq![d] + order) == seq![pair_at(a, d)] + pairs(a, order),
{
    let o2 = seq![d] + order;
    let k = a[d as int].key.unwrap();
    let m2 = m.insert(k, d);
    assert forall|i: int| 0 <= i < o2.len() implies m2.contains_key(b[#[trigger] o2[i] as int].key.unwrap())
        && m2[b[o2[i] as int].key.unwrap()] == o2[i] by {
        if i > 0 {
            assert(o2[i] == order[i - 1]);
            assert(m.contains_key(a[order[i - 1] as int].key.unwrap()));
        }
    }
    assert forall|kk: K| #[trigger] m2.contains_key(kk) implies o2.contains(m2[kk]) && b[m2[kk] as int].key == Some(kk) by {
        if kk == k {
            assert(o2[0] == d);
        } else {
            assert(m.contains_key(kk));
            assert(order.contains(m[kk]));
            let j = order.index_of(m[kk]);
            assert(o2[j + 1] == order[j]);
        }
    }
    assert(pairs(b, o2) =~= seq![pair_at(a, d)] + pairs(a, order));
}

/// The vacant slots stay vacant when another slot changes.
pub(crate) proof fn lemma_detached_frame<K, V>(a: Seq<LRUEntry<K, V>>, b: Seq<LRUEntry<K, V>>, free: Seq<usize>, d: usize)
    requires
        vacant(a, free),
        b.len() >= a.len(),
        forall|s: int| 0 <= s < a.len() && s != d ==> #[trigger] b[s] == a[s],
        !free.contains(d),
    ensures
        vacant(b, free),
{
    assert forall|j: int| 0 <= j < free.len() implies 2 <= #[trigger] free[j] < b.len()
        && b[free[j] as int].key is None && b[free[j] as int].value is None by {
        assert(free.contains(free[j]));
        assert(b[free[j] as int] == a[free[j] as int]);
    }
}

/// The arena `b` is the arena `a` with another value in the slot `node`.
pub(crate) open spec fn revalued<K, V>(a: Seq<LRUEntry<K, V>>, b: Seq<LRUEntry<K, V>>, node: usize) -> bool {
    &&& b.len() == a.len()
    &&& forall|s: int| 0 <= s < a.len() && s != node ==> #[trigger] b[s] == a[s]
    &&& b[node as int].key == a[node as int].key
    &&& b[node as int].prev == a[node as int].prev
    &&& b[node as int].next == a[node as int].next
    &&& b[node as int].value is Some
}

/// Changing the value of a listed slot changes the value at its place in
/// the view and nothing else.
pub(crate) proof fn lemma_revalued<K, V>(
    a: Seq<LRUEntry<K, V>>,
    b: Seq<LRUEntry<K, V>>,
    order: Seq<usize>,
    p: int,
    m: Map<K, usize>,
)
    requires
        slots_valid(a, order),
        links_valid(a, order),
        filled(a, order),
        indexed(a, order, m),
        0 <= p < order.len(),
        b.len() == a.len(),
        forall|s: int| 0 <= s < a.len() && s != order[p] ==> #[trigger] b[s] == a[s],
        b[order[p] as int].key == a[order[p] as int].key,
        b[order[p] as int].prev == a[order[p] as int].prev,
        b[order[p] as int].next == a[order[p] as int].next,
        b[order[p] as int].value is Some,
    ensures
        slots_valid(b, order),
        links_valid(b, order),
        filled(b, order),
        indexed(b, order, m),
        pairs(b, order) == pairs(a, order).update(
            p,
            (a[order[p] as int].key.unwrap(), b[order[p] as int].value.unwrap()),
        ),
{
    assert(2 <= order[p] < a.len());
    assert forall|i: int| 0 <= i < order.len() implies b[#[trigger] order[i] as int].key == a[order[i] as int].key
        && b[order[i] as int].prev == a[order[i] as int].prev && b[order[i] as int].next == a[order[i] as int].next
        && b[order[i] as int].value is Some by {
        assert(2 <= order[i] < a.len());
        assert(a[order[i] as int].value is Some);
    }
    assert forall|k: K| #[trigger] m.contains_key(k) implies order.contains(m[k]) && b[m[k] as int].key == Some(k) by {
        assert(order.contains(m[k]));
        let j = order.index_of(m[k]);
        assert(b[order[j] as int].key == a[order[j] as int].key);
    }
    assert forall|i: int| 0 <= i < order.len() && i != p implies b[#[trigger] order[i] as int] == a[order[i] as int] by {
        assert(order[i] != order[p]);
        assert(2 <= order[i] < a.len());
    }
    assert(pairs(b, order) =~= pairs(a, order).update(
        p,
        (a[order[p] as int].key.unwrap(), b[order[p] as int].value.unwrap()),
    ));
}

} // verus!
