//! The mathematical model of a cache: a sequence of key-value pairs without
//! repeated keys, most recently used first.

use vstd::prelude::*;

verus! {

/// Whether some pair of `s` has the key `k`.
pub open spec fn has_key<K, V>(s: Seq<(K, V)>, k: K) -> bool {
    exists|i: int| 0 <= i < s.len() && (#[trigger] s[i]).0 == k
}

/// The place of the pair with key `k` in `s`, where there is one.
pub open spec fn position<K, V>(s: Seq<(K, V)>, k: K) -> int {
    choose|i: int| 0 <= i < s.len() && (#[trigger] s[i]).0 == k
}

/// No key occurs twice in `s`.
pub open spec fn distinct_keys<K, V>(s: Seq<(K, V)>) -> bool {
    forall|i: int, j: int|
        0 <= i < s.len() && 0 <= j < s.len() && i != j ==> (#[trigger] s[i]).0 != (#[trigger] s[j]).0
}

/// The keys of `s`, in their order.
pub open spec fn key_order<K, V>(s: Seq<(K, V)>) -> Seq<K> {
    Seq::new(s.len(), |i: int| s[i].0)
}

/// The keys of `s`, as a set.
pub open spec fn key_set<K, V>(s: Seq<(K, V)>) -> Set<K> {
    Set::new(|k: K| has_key(s, k))
}

/// The pair stored under `k`, if any.
pub open spec fn entry_of<K, V>(s: Seq<(K, V)>, k: K) -> Option<(K, V)> {
    if has_key(s, k) {
        Some(s[position(s, k)])
    } else {
        None
    }
}

/// The value stored under `k`, if any.
pub open spec fn value_of<K, V>(s: Seq<(K, V)>, k: K) -> Option<V> {
    if has_key(s, k) {
        Some(s[position(s, k)].1)
    } else {
        None
    }
}

/// The least recently used pair, if any.
pub open spec fn last_of<K, V>(s: Seq<(K, V)>) -> Option<(K, V)> {
    if s.len() == 0 {
        None
    } else {
        Some(s.last())
    }
}

/// `s` with the pair at `i` moved to the most recently used end.
pub open spec fn to_front<K, V>(s: Seq<(K, V)>, i: int) -> Seq<(K, V)> {
    seq![s[i]] + s.remove(i)
}

/// `s` with the pair at `i` moved to the least recently used end.
pub open spec fn to_back<K, V>(s: Seq<(K, V)>, i: int) -> Seq<(K, V)> {
    s.remove(i).push(s[i])
}

/// `s` after the key `k` was used: its pair comes first. Nothing changes
/// when `k` is absent.
pub open spec fn promoted<K, V>(s: Seq<(K, V)>, k: K) -> Seq<(K, V)> {
    if has_key(s, k) {
        to_front(s, position(s, k))
    } else {
        s
    }
}

/// `s` with the pair of `k` made the next to be evicted. Nothing changes
/// when `k` is absent.
pub open spec fn demoted<K, V>(s: Seq<(K, V)>, k: K) -> Seq<(K, V)> {
    if has_key(s, k) {
        to_back(s, position(s, k))
    } else {
        s
    }
}

/// `s` without the pair of `k`.
pub open spec fn without<K, V>(s: Seq<(K, V)>, k: K) -> Seq<(K, V)> {
    if has_key(s, k) {
        s.remove(position(s, k))
    } else {
        s
    }
}

/// `s` without its least recently used pair.
pub open spec fn without_last<K, V>(s: Seq<(K, V)>) -> Seq<(K, V)> {
    if s.len() == 0 {
        s
    } else {
        s.drop_last()
    }
}

/// `s` after `(k, v)` was stored in a cache of capacity `cap`: the pair comes
/// first; it takes the place of the old pair of `k` where there was one, and
/// otherwise pushes out the least recently used pair when `s` was full.
pub open spec fn inserted<K, V>(s: Seq<(K, V)>, cap: nat, k: K, v: V) -> Seq<(K, V)> {
    if has_key(s, k) {
        seq![(k, v)] + s.remove(position(s, k))
    } else if s.len() < cap {
        seq![(k, v)] + s
    } else {
        seq![(k, v)] + s.drop_last()
    }
}

/// The pair that leaves `s` when `k` is stored in a cache of capacity `cap`:
/// the old pair of `k`, or else the least recently used pair of a full cache.
pub open spec fn displaced<K, V>(s: Seq<(K, V)>, cap: nat, k: K) -> Option<(K, V)> {
    if has_key(s, k) {
        Some(s[position(s, k)])
    } else if s.len() < cap {
        None
    } else {
        Some(s.last())
    }
}

/// The `n` most recently used pairs of `s`, or all of `s` if it has fewer.
pub open spec fn shrunk<K, V>(s: Seq<(K, V)>, n: nat) -> Seq<(K, V)> {
    if s.len() > n {
        s.take(n as int)
    } else {
        s
    }
}

/// Among distinct keys, a key is found where it stands.
pub proof fn lemma_position<K, V>(s: Seq<(K, V)>, i: int)
    requires
        distinct_keys(s),
        0 <= i < s.len(),
    ensures
        has_key(s, s[i].0),
        position(s, s[i].0) == i,
        entry_of(s, s[i].0) == Some(s[i]),
        value_of(s, s[i].0) == Some(s[i].1),
{
    let k = s[i].0;
    assert(0 <= i < s.len() && s[i].0 == k);
    let j = position(s, k);
    assert(0 <= j < s.len() && s[j].0 == k);
}

/// A key that is present stands at its position.
pub proof fn lemma_position_in_range<K, V>(s: Seq<(K, V)>, k: K)
    requires
        has_key(s, k),
    ensures
        0 <= position(s, k) < s.len(),
        s[position(s, k)].0 == k,
{
}

/// Moving a pair to either end keeps the keys distinct.
pub proof fn lemma_move_keeps_distinct<K, V>(s: Seq<(K, V)>, i: int)
    requires
        distinct_keys(s),
        0 <= i < s.len(),
    ensures
        distinct_keys(to_front(s, i)),
        distinct_keys(to_back(s, i)),
        distinct_keys(s.remove(i)),
        to_front(s, i).len() == s.len(),
        to_back(s, i).len() == s.len(),
{
    let f = to_front(s, i);
    assert forall|a: int, b: int| 0 <= a < f.len() && 0 <= b < f.len() && a != b implies (#[trigger] f[a]).0 != (#[trigger] f[b]).0 by {
        let sa = if a == 0 { i } else if a - 1 < i { a - 1 } else { a };
        let sb = if b == 0 { i } else if b - 1 < i { b - 1 } else { b };
        assert(f[a] == s[sa]);
        assert(f[b] == s[sb]);
    }
    let t = to_back(s, i);
    assert forall|a: int, b: int| 0 <= a < t.len() && 0 <= b < t.len() && a != b implies (#[trigger] t[a]).0 != (#[trigger] t[b]).0 by {
        let sa = if a == t.len() - 1 { i } else if a < i { a } else { a + 1 };
        let sb = if b == t.len() - 1 { i } else if b < i { b } else { b + 1 };
        assert(t[a] == s[sa]);
        assert(t[b] == s[sb]);
    }
    let r = s.remove(i);
    assert forall|a: int, b: int| 0 <= a < r.len() && 0 <= b < r.len() && a != b implies (#[trigger] r[a]).0 != (#[trigger] r[b]).0 by {
        let sa = if a < i { a } else { a + 1 };
        let sb = if b < i { b } else { b + 1 };
        assert(r[a] == s[sa]);
        assert(r[b] == s[sb]);
    }
}

/// A prefix of distinct keys has distinct keys.
pub proof fn lemma_prefix_keeps_distinct<K, V>(s: Seq<(K, V)>, n: int)
    requires
        distinct_keys(s),
        0 <= n <= s.len(),
    ensures
        distinct_keys(s.take(n)),
{
    let t = s.take(n);
    assert forall|a: int, b: int| 0 <= a < t.len() && 0 <= b < t.len() && a != b implies (#[trigger] t[a]).0 != (#[trigger] t[b]).0 by {
        assert(t[a] == s[a]);
        assert(t[b] == s[b]);
    }
}

/// Putting a new key in front of distinct keys keeps them distinct.
pub proof fn lemma_cons_keeps_distinct<K, V>(s: Seq<(K, V)>, k: K, v: V)
    requires
        distinct_keys(s),
        !has_key(s, k),
    ensures
        distinct_keys(seq![(k, v)] + s),
{
    let t = seq![(k, v)] + s;
    assert forall|a: int, b: int| 0 <= a < t.len() && 0 <= b < t.len() && a != b implies (#[trigger] t[a]).0 != (#[trigger] t[b]).0 by {
        if a > 0 {
            assert(t[a] == s[a - 1]);
        }
        if b > 0 {
            assert(t[b] == s[b - 1]);
        }
    }
}

/// A sequence that lost a pair no longer has that pair's key, and has every
/// other key it had.
pub proof fn lemma_remove_keys<K, V>(s: Seq<(K, V)>, i: int, k: K)
    requires
        distinct_keys(s),
        0 <= i < s.len(),
    ensures
        has_key(s.remove(i), k) <==> (has_key(s, k) && k != s[i].0),
{
    let r = s.remove(i);
    if has_key(r, k) {
        let a = choose|a: int| 0 <= a < r.len() && (#[trigger] r[a]).0 == k;
        let sa = if a < i { a } else { a + 1 };
        assert(r[a] == s[sa]);
        assert(s[sa].0 == k);
    }
    if has_key(s, k) && k != s[i].0 {
        let b = choose|b: int| 0 <= b < s.len() && (#[trigger] s[b]).0 == k;
        let a = if b < i { b } else { b - 1 };
        assert(r[a] == s[b]);
        assert(r[a].0 == k);
    }
}

/// A value is stored under a key exactly when the pair of the two is one of
/// the pairs; no value is stored under a key that is absent.
pub proof fn lemma_value_of<K, V>(s: Seq<(K, V)>, k: K)
    requires
        distinct_keys(s),
    ensures
        forall|v: V| value_of(s, k) == Some(v) <==> s.contains((k, v)),
        value_of(s, k) is None <==> !has_key(s, k),
{
    assert forall|v: V| value_of(s, k) == Some(v) <==> s.contains((k, v)) by {
        if value_of(s, k) == Some(v) {
            lemma_position_in_range(s, k);
            assert(s[position(s, k)] == (k, v));
        }
        if s.contains((k, v)) {
            let i = choose|i: int| 0 <= i < s.len() && s[i] == (k, v);
            lemma_position(s, i);
        }
    }
}

/// Storing a pair keeps the keys distinct and the cache within its
/// capacity, and makes the pair the most recently used.
pub proof fn lemma_inserted<K, V>(s: Seq<(K, V)>, cap: nat, k: K, v: V)
    requires
        distinct_keys(s),
        s.len() <= cap,
        0 < cap,
    ensures
        distinct_keys(inserted(s, cap, k, v)),
        0 < inserted(s, cap, k, v).len() <= cap,
        inserted(s, cap, k, v)[0] == (k, v),
        has_key(inserted(s, cap, k, v), k),
        position(inserted(s, cap, k, v), k) == 0,
{
    let t = inserted(s, cap, k, v);
    if has_key(s, k) {
        let p = position(s, k);
        lemma_position_in_range(s, k);
        lemma_move_keeps_distinct(s, p);
        lemma_remove_keys(s, p, k);
        lemma_cons_keeps_distinct(s.remove(p), k, v);
    } else if s.len() < cap {
        lemma_cons_keeps_distinct(s, k, v);
    } else {
        let r = s.drop_last();
        assert(r =~= s.take(s.len() - 1));
        lemma_prefix_keeps_distinct(s, s.len() - 1);
        if has_key(r, k) {
            let i = choose|i: int| 0 <= i < r.len() && (#[trigger] r[i]).0 == k;
            assert(s[i].0 == k);
        }
        lemma_cons_keeps_distinct(r, k, v);
    }
    assert(t[0] == (k, v));
    lemma_position(t, 0);
}

/// A new key put into a full cache pushes out the pair that was the least
/// recently used, and no other: every other pair stays, in its order,
/// behind the new one.
pub proof fn lemma_full_insert_evicts_last<K, V>(s: Seq<(K, V)>, cap: nat, k: K, v: V)
    requires
        distinct_keys(s),
        !has_key(s, k),
        s.len() == cap,
        0 < cap,
    ensures
        displaced(s, cap, k) == last_of(s),
        inserted(s, cap, k, v) == seq![(k, v)] + s.drop_last(),
        !has_key(inserted(s, cap, k, v), s.last().0),
        forall|i: int| 0 <= i < s.len() - 1 ==> inserted(s, cap, k, v)[i + 1] == s[i],
{
    let t = inserted(s, cap, k, v);
    let n = s.len() as int;
    assert(s[n - 1].0 == s.last().0);
    if has_key(t, s.last().0) {
        let i = choose|i: int| 0 <= i < t.len() && (#[trigger] t[i]).0 == s.last().0;
        if i > 0 {
            assert(t[i] == s[i - 1]);
        }
    }
}

/// A key that was just read is not the next to be evicted, unless it is the
/// only key of the cache.
pub proof fn lemma_used_is_not_last<K, V>(s: Seq<(K, V)>, k: K)
    requires
        distinct_keys(s),
        has_key(s, k),
        s.len() != 1,
    ensures
        promoted(s, k).len() == s.len(),
        last_of(promoted(s, k)) is Some,
        last_of(promoted(s, k)).unwrap().0 != k,
{
    let p = position(s, k);
    lemma_position_in_range(s, k);
    lemma_move_keeps_distinct(s, p);
    let t = promoted(s, k);
    assert(t[0].0 == k);
    assert(t.len() >= 2);
    assert(t.last() == t[t.len() - 1]);
}

/// Promoting a key twice is promoting it once.
pub proof fn lemma_promote_idempotent<K, V>(s: Seq<(K, V)>, k: K)
    requires
        distinct_keys(s),
    ensures
        promoted(promoted(s, k), k) == promoted(s, k),
{
    if has_key(s, k) {
        let p = position(s, k);
        lemma_position_in_range(s, k);
        lemma_move_keeps_distinct(s, p);
        let t = promoted(s, k);
        assert(t[0].0 == k);
        lemma_position(t, 0);
        assert(to_front(t, 0) =~= t);
    }
}

/// Promoting a key after demoting it is promoting it. So the two together
/// put a key back where it was exactly when it was the most recently used,
/// or absent.
pub proof fn lemma_demote_then_promote<K, V>(s: Seq<(K, V)>, k: K)
    requires
        distinct_keys(s),
    ensures
        promoted(demoted(s, k), k) == promoted(s, k),
        (has_key(s, k) && position(s, k) != 0) ==> promoted(demoted(s, k), k) != s,
        (!has_key(s, k) || position(s, k) == 0) ==> promoted(demoted(s, k), k) == s,
{
    if has_key(s, k) {
        let p = position(s, k);
        lemma_position_in_range(s, k);
        lemma_move_keeps_distinct(s, p);
        let d = demoted(s, k);
        let n = s.len() as int;
        assert(d[n - 1] == s[p]);
        lemma_position(d, n - 1);
        assert(promoted(d, k) =~= promoted(s, k));
        if p == 0 {
            assert(promoted(s, k) =~= s);
        } else {
            assert(promoted(s, k)[0].0 == k);
            lemma_position(s, 0);
        }
    }
}

/// Taking out a key that was just stored gives back the stored pair and
/// leaves what storing it had left of the others. Where the key was new and
/// there was room for it, the cache is again what it was.
pub proof fn lemma_insert_then_remove<K, V>(s: Seq<(K, V)>, cap: nat, k: K, v: V)
    requires
        distinct_keys(s),
        s.len() <= cap,
        0 < cap,
    ensures
        entry_of(inserted(s, cap, k, v), k) == Some((k, v)),
        without(inserted(s, cap, k, v), k) == (if has_key(s, k) {
            s.remove(position(s, k))
        } else if s.len() < cap {
            s
        } else {
            s.drop_last()
        }),
        (!has_key(s, k) && s.len() < cap) <==> without(inserted(s, cap, k, v), k).len() == s.len(),
{
    let t = inserted(s, cap, k, v);
    lemma_inserted(s, cap, k, v);
    assert(t.remove(0) =~= t.subrange(1, t.len() as int));
    if has_key(s, k) {
        lemma_position_in_range(s, k);
        assert(t.remove(0) =~= s.remove(position(s, k)));
    } else if s.len() < cap {
        assert(t.remove(0) =~= s);
    } else {
        assert(t.remove(0) =~= s.drop_last());
    }
}

/// Shrinking keeps the most recently used pairs, in their order, and no
/// more of them than asked for.
pub proof fn lemma_shrunk<K, V>(s: Seq<(K, V)>, n: nat)
    requires
        distinct_keys(s),
    ensures
        shrunk(s, n).len() <= n,
        shrunk(s, n).len() <= s.len(),
        shrunk(s, n).len() == n || shrunk(s, n) == s,
        forall|i: int| 0 <= i < shrunk(s, n).len() ==> shrunk(s, n)[i] == s[i],
        distinct_keys(shrunk(s, n)),
{
    if s.len() > n {
        lemma_prefix_keeps_distinct(s, n as int);
    }
}

/// Writing another value under a key moves no key: a value that is changed
/// in place, as through a reference that a peek lent out, leaves the order
/// of the cache as it was.
pub proof fn lemma_write_keeps_order<K, V>(s: Seq<(K, V)>, k: K, v: V)
    requires
        has_key(s, k),
    ensures
        key_order(s.update(position(s, k), (k, v))) == key_order(s),
        s.update(position(s, k), (k, v)).len() == s.len(),
{
    lemma_position_in_range(s, k);
    assert(key_order(s.update(position(s, k), (k, v))) =~= key_order(s));
}

/// What is left of `s` after `a` pairs were taken from its front and `b`
/// from its back.
pub open spec fn middle<K, V>(s: Seq<(K, V)>, a: nat, b: nat) -> Seq<(K, V)> {
    s.subrange(a as int, s.len() - b)
}

/// Reading a sequence from both ends hands out every pair once: whatever
/// the order of the steps, after `a` steps at the front and `b` at the back
/// the next step at the front yields the pair at place `a`, the next step at
/// the back the pair at place `len - 1 - b`, and the two places only meet
/// in the last pair that is left.
pub proof fn lemma_both_ends<K, V>(s: Seq<(K, V)>, a: nat, b: nat)
    requires
        a + b < s.len(),
    ensures
        middle(s, a, b).len() == s.len() - a - b,
        middle(s, a, b)[0] == s[a as int],
        middle(s, a, b).last() == s[s.len() - 1 - b],
        middle(s, a, b).drop_first() == middle(s, a + 1, b),
        middle(s, a, b).drop_last() == middle(s, a, b + 1),
        a as int == s.len() - 1 - b <==> middle(s, a, b).len() == 1,
        middle(s, 0, 0) == s,
{
    assert(middle(s, a, b).drop_first() =~= middle(s, a + 1, b));
    assert(middle(s, a, b).drop_last() =~= middle(s, a, b + 1));
    assert(middle(s, 0, 0) =~= s);
}

} // verus!
