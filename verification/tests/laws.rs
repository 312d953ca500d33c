use lru::lru::cache::Cache;
use lru::lru::capacity::Capacity;
use lru::lru::lru_cache::LRUCache;
use std::collections::hash_map::RandomState;
use std::hash::BuildHasherDefault;
use std::sync::atomic::{AtomicUsize, Ordering};

fn cap(n: usize) -> Capacity {
    Capacity::new(n).unwrap()
}

fn order<S: std::hash::BuildHasher>(cache: &LRUCache<u32, u32, S>) -> Vec<(u32, u32)> {
    let mut out = Vec::new();
    let mut iter = cache.iter();
    while let Some((k, v)) = iter.next() {
        out.push((*k, *v));
    }
    out
}

fn filled(n: usize, keys: &[u32]) -> LRUCache<u32, u32> {
    let mut cache = LRUCache::new(cap(n));
    for k in keys {
        cache.put(*k, *k * 10);
    }
    cache
}

#[test]
fn len_never_exceeds_capacity() {
    let mut cache = LRUCache::new(cap(3));
    let mut x: u32 = 7;
    for step in 0..500u32 {
        x = x.wrapping_mul(1103515245).wrapping_add(12345);
        let key = (x >> 16) % 8;
        match step % 7 {
            0 | 1 | 2 => {
                cache.put(key, step);
            }
            3 => {
                cache.get(&key);
            }
            4 => {
                cache.pop(&key);
            }
            5 => {
                cache.push(key, step);
            }
            _ => {
                cache.demote(&key);
            }
        }
        assert!(cache.len() <= cache.cap().get());
        assert_eq!(order(&cache).len(), cache.len());
    }
}

#[test]
fn index_and_list_hold_the_same_keys() {
    let mut cache = filled(4, &[1, 2, 3, 4, 5, 6]);
    cache.pop(&4);
    cache.put(9, 90);
    let listed = order(&cache);
    assert_eq!(listed.len(), cache.len());
    for (k, _) in &listed {
        assert!(cache.contains(k));
    }
    for k in 0..12u32 {
        assert_eq!(cache.contains(&k), listed.iter().any(|(l, _)| *l == k));
    }
}

#[test]
fn a_key_just_read_is_not_the_next_to_leave() {
    let mut cache = filled(3, &[1, 2, 3]);
    assert_eq!(cache.peek_last(), Some((&1, &10)));
    assert_eq!(cache.get(&1), Some(&10));
    assert_eq!(cache.peek_last(), Some((&2, &20)));
}

#[test]
fn the_only_key_stays_the_next_to_leave() {
    let mut cache = filled(3, &[1]);
    assert_eq!(cache.get(&1), Some(&10));
    assert_eq!(cache.peek_last(), Some((&1, &10)));
}

#[test]
fn peeking_changes_no_order() {
    let mut plain = filled(4, &[1, 2, 3, 4]);
    let mut peeked = filled(4, &[1, 2, 3, 4]);

    assert_eq!(peeked.peek(&1), Some(&10));
    assert!(peeked.contains(&2));
    assert_eq!(peeked.peek_mut(&3), Some(&mut 30));
    assert_eq!(peeked.peek_last(), Some((&1, &10)));
    assert_eq!(peeked.peek(&7), None);
    assert_eq!(order(&peeked), order(&plain));

    plain.put(5, 50);
    peeked.peek(&2);
    peeked.put(5, 50);
    peeked.peek_last();
    assert_eq!(order(&peeked), order(&plain));
    assert_eq!(order(&plain), vec![(5, 50), (4, 40), (3, 30), (2, 20)]);
}

#[test]
fn put_returns_the_old_value_of_a_present_key_only() {
    let mut cache = filled(2, &[1, 2]);
    assert_eq!(cache.put(1, 11), Some(10));
    assert_eq!(cache.put(3, 30), None);
    assert!(!cache.contains(&2));
    assert_eq!(order(&cache), vec![(3, 30), (1, 11)]);
}

#[test]
fn push_hands_out_what_leaves() {
    let mut cache = LRUCache::new(cap(2));
    assert_eq!(cache.push(1, 10), None);
    assert_eq!(cache.push(2, 20), None);
    assert_eq!(cache.push(1, 11), Some((1, 10)));
    assert_eq!(cache.peek_last(), Some((&2, &20)));
    assert_eq!(cache.push(3, 30), Some((2, 20)));
    assert_eq!(order(&cache), vec![(3, 30), (1, 11)]);
}

#[test]
fn a_full_cache_evicts_what_peek_last_showed() {
    let mut cache = filled(3, &[1, 2, 3]);
    cache.get(&1);
    let last = cache.peek_last().map(|(k, v)| (*k, *v));
    assert_eq!(last, Some((2, 20)));
    assert_eq!(cache.push(4, 40), last);
    assert_eq!(order(&cache), vec![(4, 40), (1, 10), (3, 30)]);
}

#[test]
fn resize_keeps_the_most_recently_used_in_order() {
    let mut cache = filled(5, &[1, 2, 3, 4, 5]);
    cache.get(&2);
    cache.resize(cap(3));
    assert_eq!(cache.cap().get(), 3);
    assert_eq!(order(&cache), vec![(2, 20), (5, 50), (4, 40)]);
    cache.resize(cap(3));
    assert_eq!(order(&cache), vec![(2, 20), (5, 50), (4, 40)]);
    cache.resize(cap(8));
    assert_eq!(cache.cap().get(), 8);
    assert_eq!(order(&cache), vec![(2, 20), (5, 50), (4, 40)]);
    cache.put(6, 60);
    assert_eq!(cache.len(), 4);
}

#[test]
fn both_ends_of_an_iterator_meet_without_repeats() {
    let cache = filled(5, &[1, 2, 3, 4, 5]);
    let mut iter = cache.iter();
    assert_eq!(iter.size_hint(), (5, Some(5)));
    assert_eq!(iter.next(), Some((&5, &50)));
    assert_eq!(iter.next_back(), Some((&1, &10)));
    assert_eq!(iter.next_back(), Some((&2, &20)));
    assert_eq!(iter.next(), Some((&4, &40)));
    assert_eq!(iter.len(), 1);
    assert_eq!(iter.next_back(), Some((&3, &30)));
    assert_eq!(iter.next(), None);
    assert_eq!(iter.next_back(), None);
    assert_eq!(iter.next(), None);
    assert_eq!(iter.count(), 0);
    assert_eq!(order(&cache), vec![(5, 50), (4, 40), (3, 30), (2, 20), (1, 10)]);
}

#[test]
fn into_iter_yields_the_reverse_of_iter() {
    let cache = filled(4, &[1, 2, 3, 4]);
    let mut forward = order(&cache);
    let mut iter = cache.into_iter();
    assert_eq!(iter.size_hint(), (4, Some(4)));
    let mut backward = Vec::new();
    while let Some(pair) = iter.next() {
        backward.push(pair);
    }
    assert_eq!(iter.next(), None);
    assert_eq!(iter.count(), 0);
    forward.reverse();
    assert_eq!(backward, forward);
}

#[test]
fn push_then_pop_entry_gives_the_pair_back() {
    let mut cache = filled(4, &[1, 2]);
    let before = order(&cache);
    assert_eq!(cache.push(7, 70), None);
    assert_eq!(cache.pop_entry(&7), Some((7, 70)));
    assert_eq!(cache.len(), 2);
    assert_eq!(order(&cache), before);
}

#[test]
fn push_then_pop_entry_in_a_full_cache_leaves_one_less() {
    let mut cache = filled(2, &[1, 2]);
    assert_eq!(cache.push(7, 70), Some((1, 10)));
    assert_eq!(cache.pop_entry(&7), Some((7, 70)));
    assert_eq!(order(&cache), vec![(2, 20)]);

    let mut cache = filled(2, &[1, 2]);
    assert_eq!(cache.push(1, 70), Some((1, 10)));
    assert_eq!(cache.pop_entry(&1), Some((1, 70)));
    assert_eq!(order(&cache), vec![(2, 20)]);
}

#[test]
fn promoting_twice_is_promoting_once() {
    let mut once = filled(4, &[1, 2, 3, 4]);
    let mut twice = filled(4, &[1, 2, 3, 4]);
    once.promote(&2);
    twice.promote(&2);
    twice.promote(&2);
    assert_eq!(order(&once), order(&twice));
    assert_eq!(order(&once), vec![(2, 20), (4, 40), (3, 30), (1, 10)]);
    once.promote(&9);
    assert_eq!(order(&once), order(&twice));
}

#[test]
fn demote_then_promote_restores_the_front_only() {
    let mut cache = filled(3, &[1, 2, 3]);
    let before = order(&cache);
    cache.demote(&3);
    assert_eq!(order(&cache), vec![(2, 20), (1, 10), (3, 30)]);
    cache.promote(&3);
    assert_eq!(order(&cache), before);

    cache.demote(&2);
    cache.promote(&2);
    assert_eq!(order(&cache), vec![(2, 20), (3, 30), (1, 10)]);

    cache.demote(&8);
    cache.promote(&8);
    assert_eq!(order(&cache), vec![(2, 20), (3, 30), (1, 10)]);
}

#[test]
fn get_promotes_before_the_next_eviction() {
    let mut cache = LRUCache::new(cap(2));
    cache.put("a", 1);
    cache.put("b", 2);
    cache.get(&"a");
    cache.put("c", 3);
    assert!(!cache.contains(&"b"));
    assert_eq!(cache.get(&"a"), Some(&1));
    assert_eq!(cache.get(&"c"), Some(&3));
}

#[test]
fn get_or_insert_evicts_to_make_room() {
    let mut cache = LRUCache::new(cap(2));
    cache.put("apple", "red");
    cache.put("banana", "yellow");
    assert_eq!(cache.get_or_insert("lemon", || "orange"), &"orange");
    assert_eq!(cache.get_or_insert("lemon", || "red"), &"orange");
    assert_eq!(cache.get(&"apple"), None);
    assert_eq!(cache.len(), 2);
}

#[test]
fn get_or_insert_calls_the_factory_on_a_miss_only() {
    static CALLS: AtomicUsize = AtomicUsize::new(0);
    let mut cache = LRUCache::new(cap(2));
    let make = || {
        CALLS.fetch_add(1, Ordering::SeqCst);
        5
    };
    assert_eq!(cache.get_or_insert(1, make), &5);
    assert_eq!(CALLS.load(Ordering::SeqCst), 1);
    assert_eq!(cache.get_or_insert(1, make), &5);
    assert_eq!(*cache.get_or_insert_mut(1, make), 5);
    assert_eq!(CALLS.load(Ordering::SeqCst), 1);
    *cache.get_or_insert_mut(2, make) += 1;
    assert_eq!(CALLS.load(Ordering::SeqCst), 2);
    assert_eq!(cache.peek(&2), Some(&6));
}

#[test]
fn a_cache_with_its_own_hasher_starts_empty_and_works() {
    let mut cache: LRUCache<u32, u32, BuildHasherDefault<std::hash::DefaultHasher>> =
        LRUCache::with_hasher(cap(2), BuildHasherDefault::default());
    assert!(cache.is_empty());
    assert_eq!(cache.cap().get(), 2);
    assert!(!cache.contains(&1));
    cache.put(1, 10);
    cache.put(2, 20);
    cache.put(3, 30);
    assert_eq!(order(&cache), vec![(3, 30), (2, 20)]);

    let mut cache: LRUCache<u32, u32, RandomState> =
        LRUCache::unbounded_with_hasher(RandomState::new());
    assert!(cache.is_empty());
    assert_eq!(cache.cap().get(), usize::MAX);
    for i in 0..1000 {
        cache.put(i, i);
    }
    assert_eq!(cache.len(), 1000);
    assert_eq!(cache.peek_last(), Some((&0, &0)));
}

#[test]
fn vacated_slots_are_used_again() {
    let mut cache = filled(3, &[1, 2, 3]);
    assert_eq!(cache.pop(&2), Some(20));
    assert_eq!(cache.pop_last(), Some((1, 10)));
    cache.put(4, 40);
    cache.put(5, 50);
    cache.put(6, 60);
    assert_eq!(order(&cache), vec![(6, 60), (5, 50), (4, 40)]);
    cache.clear();
    assert!(cache.is_empty());
    assert_eq!(cache.pop_last(), None);
    assert_eq!(cache.pop(&4), None);
    assert_eq!(cache.pop_entry(&4), None);
    cache.put(7, 70);
    assert_eq!(order(&cache), vec![(7, 70)]);
}

#[test]
fn capacity_is_never_zero() {
    assert!(Capacity::new(0).is_none());
    assert_eq!(Capacity::new(1).unwrap().get(), 1);
    assert_eq!(Capacity::new(usize::MAX).unwrap().get(), usize::MAX);
    assert_eq!(Capacity::unbounded().get(), usize::MAX);
}

#[test]
fn every_key_copy_is_dropped_with_pop() {
    static DROP_COUNT: AtomicUsize = AtomicUsize::new(0);

    #[derive(Hash, PartialEq, Eq)]
    struct KeyDropCounter(usize);

    impl Clone for KeyDropCounter {
        fn clone(&self) -> Self {
            KeyDropCounter(self.0)
        }
    }

    impl Drop for KeyDropCounter {
        fn drop(&mut self) {
            DROP_COUNT.fetch_add(1, Ordering::SeqCst);
        }
    }

    let n = 100;
    for _ in 0..n {
        let mut cache = LRUCache::new(cap(1));

        for i in 0..100 {
            cache.put(KeyDropCounter(i), i);
            cache.pop(&KeyDropCounter(i));
        }
    }

    // the key that was put, its copy in the index, and the key that was asked for
    assert_eq!(DROP_COUNT.load(Ordering::SeqCst), n * n * 3);
}

fn model_put(model: &mut Vec<(u32, u32)>, cap: usize, k: u32, v: u32) -> Option<(u32, u32)> {
    if let Some(i) = model.iter().position(|(key, _)| *key == k) {
        let old = model.remove(i);
        model.insert(0, (k, v));
        Some(old)
    } else if model.len() < cap {
        model.insert(0, (k, v));
        None
    } else {
        let old = model.pop();
        model.insert(0, (k, v));
        old
    }
}

#[test]
fn random_operations_match_the_model() {
    for capacity in [1usize, 2, 3, 7] {
        let mut cache = LRUCache::new(cap(capacity));
        let mut limit = capacity;
        let mut model: Vec<(u32, u32)> = Vec::new();
        let mut x: u32 = 2463534242;
        for step in 0..4000u32 {
            x ^= x << 13;
            x ^= x >> 17;
            x ^= x << 5;
            let key = (x >> 8) % 10;
            let found = model.iter().position(|(k, _)| *k == key);
            match (x >> 3) % 13 {
                0 | 1 => {
                    let old = model_put(&mut model, limit, key, step);
                    let expected = if found.is_some() { old.map(|(_, v)| v) } else { None };
                    assert_eq!(cache.put(key, step), expected);
                }
                2 => {
                    let old = model_put(&mut model, limit, key, step);
                    assert_eq!(cache.push(key, step), old);
                }
                3 => {
                    let expected = found.map(|i| {
                        let pair = model.remove(i);
                        model.insert(0, pair);
                        pair.1
                    });
                    assert_eq!(cache.get(&key).copied(), expected);
                }
                4 => {
                    let expected = found.map(|i| {
                        let pair = model.remove(i);
                        model.insert(0, (pair.0, pair.1 + 1));
                        pair.1
                    });
                    let got = cache.get_mut(&key).map(|v| {
                        let old = *v;
                        *v += 1;
                        old
                    });
                    assert_eq!(got, expected);
                }
                5 => {
                    assert_eq!(cache.peek(&key).copied(), found.map(|i| model[i].1));
                    assert_eq!(cache.contains(&key), found.is_some());
                }
                6 => {
                    if let Some(i) = found {
                        model[i].1 += 2;
                    }
                    if let Some(v) = cache.peek_mut(&key) {
                        *v += 2;
                    }
                }
                7 => {
                    assert_eq!(cache.pop(&key), found.map(|i| model.remove(i).1));
                }
                8 => {
                    assert_eq!(cache.pop_entry(&key), found.map(|i| model.remove(i)));
                }
                9 => {
                    assert_eq!(cache.pop_last(), model.pop());
                }
                10 => {
                    if let Some(i) = found {
                        let pair = model.remove(i);
                        model.insert(0, pair);
                    }
                    cache.promote(&key);
                }
                11 => {
                    if let Some(i) = found {
                        let pair = model.remove(i);
                        model.push(pair);
                    }
                    cache.demote(&key);
                }
                _ => {
                    let expected = match found {
                        Some(i) => {
                            let pair = model.remove(i);
                            model.insert(0, pair);
                            pair.1
                        }
                        None => {
                            model_put(&mut model, limit, key, step);
                            step
                        }
                    };
                    assert_eq!(*cache.get_or_insert(key, || step), expected);
                }
            }
            if step % 997 == 0 {
                limit = 1 + (x as usize >> 5) % 8;
                model.truncate(limit);
                cache.resize(cap(limit));
            }
            if step % 1499 == 0 {
                model.clear();
                cache.clear();
            }
            assert_eq!(order(&cache), model);
            assert_eq!(cache.len(), model.len());
            assert_eq!(cache.cap().get(), limit);
            assert_eq!(cache.is_empty(), model.is_empty());
            assert_eq!(cache.peek_last().map(|(k, v)| (*k, *v)), model.last().copied());
        }
    }
}

#[test]
fn entries_are_written_by_place_without_moving() {
    let mut cache = filled(4, &[1, 2, 3, 4]);
    for i in 0..cache.len() {
        if let Some((k, v)) = cache.nth_mut(i) {
            *v += *k;
        }
    }
    assert_eq!(order(&cache), vec![(4, 44), (3, 33), (2, 22), (1, 11)]);
    assert_eq!(cache.nth_mut(4), None);
    assert_eq!(cache.nth_mut(usize::MAX), None);
    assert_eq!(cache.nth_mut(3), Some((&1, &mut 11)));
    assert_eq!(cache.peek_last(), Some((&1, &11)));

    let mut empty: LRUCache<u32, u32> = LRUCache::new(cap(2));
    assert_eq!(empty.nth_mut(0), None);
}
