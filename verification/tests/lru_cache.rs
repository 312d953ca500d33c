use lru::lru::cache::Cache;
use lru::lru::capacity::Capacity;
use lru::lru::lru_cache::LRUCache;
use std::fmt::Debug;
use std::sync::atomic::{AtomicUsize, Ordering};

fn cap(n: usize) -> Capacity {
    Capacity::new(n).unwrap()
}

fn assert_opt_eq<V: PartialEq + Debug>(opt: Option<&V>, v: V) {
    assert!(opt.is_some());
    assert_eq!(opt.unwrap(), &v);
}

fn assert_opt_eq_mut<V: PartialEq + Debug>(opt: Option<&mut V>, v: V) {
    assert!(opt.is_some());
    assert_eq!(opt.unwrap(), &v);
}

fn assert_opt_eq_mut_tuple<K: PartialEq + Debug, V: PartialEq + Debug>(
    opt: Option<(&K, &mut V)>,
    kv: (K, V),
) {
    assert!(opt.is_some());
    let res = opt.unwrap();
    assert_eq!(res.0, &kv.0);
    assert_eq!(res.1, &kv.1);
}

fn assert_opt_eq_tuple<K: PartialEq + Debug, V: PartialEq + Debug>(
    opt: Option<(&K, &V)>,
    kv: (K, V),
) {
    assert!(opt.is_some());
    let res = opt.unwrap();
    assert_eq!(res.0, &kv.0);
    assert_eq!(res.1, &kv.1);
}

#[test]
fn test_unbounded() {
    let mut cache = LRUCache::unbounded();
    for i in 0..13370 {
        cache.put(i, ());
    }
    assert_eq!(cache.len(), 13370);
}

#[test]
fn test_put_and_get() {
    let mut cache = LRUCache::new(cap(2));
    assert!(cache.is_empty());

    assert_eq!(cache.put("apple", "red"), None);
    assert_eq!(cache.put("banana", "yellow"), None);

    assert_eq!(cache.cap().get(), 2);
    assert_eq!(cache.len(), 2);
    assert!(!cache.is_empty());
    assert_opt_eq(cache.get(&"apple"), "red");
    assert_opt_eq(cache.get(&"banana"), "yellow");
}

#[test]
fn test_put_and_get_or_insert() {
    let mut cache = LRUCache::new(cap(2));
    assert!(cache.is_empty());

    assert_eq!(cache.put("apple", "red"), None);
    assert_eq!(cache.put("banana", "yellow"), None);

    assert_eq!(cache.cap().get(), 2);
    assert_eq!(cache.len(), 2);
    assert!(!cache.is_empty());
    assert_eq!(cache.get_or_insert("apple", || "orange"), &"red");
    assert_eq!(cache.get_or_insert("banana", || "orange"), &"yellow");
    assert_eq!(cache.get_or_insert("lemon", || "orange"), &"orange");
    assert_eq!(cache.get_or_insert("lemon", || "red"), &"orange");
}

#[test]
fn test_put_and_get_or_insert_mut() {
    let mut cache = LRUCache::new(cap(2));
    assert!(cache.is_empty());

    assert_eq!(cache.put("apple", "red"), None);
    assert_eq!(cache.put("banana", "yellow"), None);

    assert_eq!(cache.cap().get(), 2);
    assert_eq!(cache.len(), 2);

    let v = cache.get_or_insert_mut("apple", || "orange");
    assert_eq!(v, &"red");
    *v = "blue";

    assert_eq!(cache.get_or_insert_mut("apple", || "orange"), &"blue");
    assert_eq!(cache.get_or_insert_mut("banana", || "orange"), &"yellow");
    assert_eq!(cache.get_or_insert_mut("lemon", || "orange"), &"orange");
    assert_eq!(cache.get_or_insert_mut("lemon", || "red"), &"orange");
}

#[test]
fn test_put_and_get_mut() {
    let mut cache = LRUCache::new(cap(2));

    cache.put("apple", "red");
    cache.put("banana", "yellow");

    assert_eq!(cache.cap().get(), 2);
    assert_eq!(cache.len(), 2);
    assert_opt_eq_mut(cache.get_mut(&"apple"), "red");
    assert_opt_eq_mut(cache.get_mut(&"banana"), "yellow");
}

#[test]
fn test_get_mut_and_update() {
    let mut cache = LRUCache::new(cap(2));

    cache.put("apple", 1);
    cache.put("banana", 3);

    {
        let v = cache.get_mut(&"apple").unwrap();
        *v = 4;
    }

    assert_eq!(cache.cap().get(), 2);
    assert_eq!(cache.len(), 2);
    assert_opt_eq_mut(cache.get_mut(&"apple"), 4);
    assert_opt_eq_mut(cache.get_mut(&"banana"), 3);
}

#[test]
fn test_put_update() {
    let mut cache = LRUCache::new(cap(2));

    assert_eq!(cache.put("apple", "red"), None);
    assert_eq!(cache.put("apple", "green"), Some("red"));

    assert_eq!(cache.len(), 1);
    assert_opt_eq(cache.get(&"apple"), "green");
}

#[test]
fn test_put_removes_oldest() {
    let mut cache = LRUCache::new(cap(2));

    assert_eq!(cache.put("apple", "red"), None);
    assert_eq!(cache.put("banana", "yellow"), None);
    assert_eq!(cache.put("pear", "green"), None);

    assert!(cache.get(&"apple").is_none());
    assert_opt_eq(cache.get(&"banana"), "yellow");
    assert_opt_eq(cache.get(&"pear"), "green");

    // Even though we inserted "apple" into the cache earlier it has since been removed from
    // the cache so there is no current value for `put` to return.
    assert_eq!(cache.put("apple", "green"), None);
    assert_eq!(cache.put("tomato", "red"), None);

    assert!(cache.get(&"pear").is_none());
    assert_opt_eq(cache.get(&"apple"), "green");
    assert_opt_eq(cache.get(&"tomato"), "red");
}

#[test]
fn test_peek() {
    let mut cache = LRUCache::new(cap(2));

    cache.put("apple", "red");
    cache.put("banana", "yellow");

    assert_opt_eq(cache.peek(&"banana"), "yellow");
    assert_opt_eq(cache.peek(&"apple"), "red");

    cache.put("pear", "green");

    assert!(cache.peek(&"apple").is_none());
    assert_opt_eq(cache.peek(&"banana"), "yellow");
    assert_opt_eq(cache.peek(&"pear"), "green");
}

#[test]
fn test_peek_mut() {
    let mut cache = LRUCache::new(cap(2));

    cache.put("apple", "red");
    cache.put("banana", "yellow");

    assert_opt_eq_mut(cache.peek_mut(&"banana"), "yellow");
    assert_opt_eq_mut(cache.peek_mut(&"apple"), "red");
    assert!(cache.peek_mut(&"pear").is_none());

    cache.put("pear", "green");

    assert!(cache.peek_mut(&"apple").is_none());
    assert_opt_eq_mut(cache.peek_mut(&"banana"), "yellow");
    assert_opt_eq_mut(cache.peek_mut(&"pear"), "green");

    {
        let v = cache.peek_mut(&"banana").unwrap();
        *v = "green";
    }

    assert_opt_eq_mut(cache.peek_mut(&"banana"), "green");
}

#[test]
fn test_peek_lru() {
    let mut cache = LRUCache::new(cap(2));

    assert!(cache.peek_last().is_none());

    cache.put("apple", "red");
    cache.put("banana", "yellow");
    assert_opt_eq_tuple(cache.peek_last(), ("apple", "red"));

    cache.get(&"apple");
    assert_opt_eq_tuple(cache.peek_last(), ("banana", "yellow"));

    cache.clear();
    assert!(cache.peek_last().is_none());
}

#[test]
fn test_contains() {
    let mut cache = LRUCache::new(cap(2));

    cache.put("apple", "red");
    cache.put("banana", "yellow");
    cache.put("pear", "green");

    assert!(!cache.contains(&"apple"));
    assert!(cache.contains(&"banana"));
    assert!(cache.contains(&"pear"));
}

#[test]
fn test_pop() {
    let mut cache = LRUCache::new(cap(2));

    cache.put("apple", "red");
    cache.put("banana", "yellow");

    assert_eq!(cache.len(), 2);
    assert_opt_eq(cache.get(&"apple"), "red");
    assert_opt_eq(cache.get(&"banana"), "yellow");

    let popped = cache.pop(&"apple");
    assert!(popped.is_some());
    assert_eq!(popped.unwrap(), "red");
    assert_eq!(cache.len(), 1);
    assert!(cache.get(&"apple").is_none());
    assert_opt_eq(cache.get(&"banana"), "yellow");
}

#[test]
fn test_pop_entry() {
    let mut cache = LRUCache::new(cap(2));
    cache.put("apple", "red");
    cache.put("banana", "yellow");

    assert_eq!(cache.len(), 2);
    assert_opt_eq(cache.get(&"apple"), "red");
    assert_opt_eq(cache.get(&"banana"), "yellow");

    let popped = cache.pop_entry(&"apple");
    assert!(popped.is_some());
    assert_eq!(popped.unwrap(), ("apple", "red"));
    assert_eq!(cache.len(), 1);
    assert!(cache.get(&"apple").is_none());
    assert_opt_eq(cache.get(&"banana"), "yellow");
}

#[test]
fn test_pop_lru() {
    let mut cache = LRUCache::new(cap(200));

    for i in 0..75 {
        cache.put(i, "A");
    }
    for i in 0..75 {
        cache.put(i + 100, "B");
    }
    for i in 0..75 {
        cache.put(i + 200, "C");
    }
    assert_eq!(cache.len(), 200);

    for i in 0..75 {
        assert_opt_eq(cache.get(&(74 - i + 100)), "B");
    }
    assert_opt_eq(cache.get(&25), "A");

    for i in 26..75 {
        assert_eq!(cache.pop_last(), Some((i, "A")));
    }
    for i in 0..75 {
        assert_eq!(cache.pop_last(), Some((i + 200, "C")));
    }
    for i in 0..75 {
        assert_eq!(cache.pop_last(), Some((74 - i + 100, "B")));
    }
    assert_eq!(cache.pop_last(), Some((25, "A")));
    for _ in 0..50 {
        assert_eq!(cache.pop_last(), None);
    }
}

#[test]
fn test_clear() {
    let mut cache = LRUCache::new(cap(2));

    cache.put("apple", "red");
    cache.put("banana", "yellow");

    assert_eq!(cache.len(), 2);
    assert_opt_eq(cache.get(&"apple"), "red");
    assert_opt_eq(cache.get(&"banana"), "yellow");

    cache.clear();
    assert_eq!(cache.len(), 0);
}

#[test]
fn test_resize_larger() {
    let mut cache = LRUCache::new(cap(2));

    cache.put(1, "a");
    cache.put(2, "b");
    cache.resize(cap(4));
    cache.put(3, "c");
    cache.put(4, "d");

    assert_eq!(cache.len(), 4);
    assert_eq!(cache.get(&1), Some(&"a"));
    assert_eq!(cache.get(&2), Some(&"b"));
    assert_eq!(cache.get(&3), Some(&"c"));
    assert_eq!(cache.get(&4), Some(&"d"));
}

#[test]
fn test_resize_smaller() {
    let mut cache = LRUCache::new(cap(4));

    cache.put(1, "a");
    cache.put(2, "b");
    cache.put(3, "c");
    cache.put(4, "d");

    cache.resize(cap(2));

    assert_eq!(cache.len(), 2);
    assert!(cache.get(&1).is_none());
    assert!(cache.get(&2).is_none());
    assert_eq!(cache.get(&3), Some(&"c"));
    assert_eq!(cache.get(&4), Some(&"d"));
}

#[test]
fn test_iter_clone() {
    let mut cache = LRUCache::new(cap(3));
    cache.put("a", 1);
    cache.put("b", 2);

    let mut iter = cache.iter();
    let mut iter_clone = iter.clone();

    assert_eq!(iter.len(), 2);
    assert_opt_eq_tuple(iter.next(), ("b", 2));
    assert_eq!(iter_clone.len(), 2);
    assert_opt_eq_tuple(iter_clone.next(), ("b", 2));

    assert_eq!(iter.len(), 1);
    assert_opt_eq_tuple(iter.next(), ("a", 1));
    assert_eq!(iter_clone.len(), 1);
    assert_opt_eq_tuple(iter_clone.next(), ("a", 1));

    assert_eq!(iter.len(), 0);
    assert_eq!(iter.next(), None);
    assert_eq!(iter_clone.len(), 0);
    assert_eq!(iter_clone.next(), None);
}

#[test]
fn test_into_iter() {
    let mut cache = LRUCache::new(cap(3));
    cache.put("a", 1);
    cache.put("b", 2);
    cache.put("c", 3);

    let mut iter = cache.into_iter();
    assert_eq!(iter.len(), 3);
    assert_eq!(iter.next(), Some(("a", 1)));

    assert_eq!(iter.len(), 2);
    assert_eq!(iter.next(), Some(("b", 2)));

    assert_eq!(iter.len(), 1);
    assert_eq!(iter.next(), Some(("c", 3)));

    assert_eq!(iter.len(), 0);
    assert_eq!(iter.next(), None);
}

#[test]
fn test_that_pop_actually_detaches_node() {
    let mut cache = LRUCache::new(cap(5));

    cache.put("a", 1);
    cache.put("b", 2);
    cache.put("c", 3);
    cache.put("d", 4);
    cache.put("e", 5);

    assert_eq!(cache.pop(&"c"), Some(3));

    cache.put("f", 6);

    let mut iter = cache.iter();
    assert_opt_eq_tuple(iter.next(), ("f", 6));
    assert_opt_eq_tuple(iter.next(), ("e", 5));
    assert_opt_eq_tuple(iter.next(), ("d", 4));
    assert_opt_eq_tuple(iter.next(), ("b", 2));
    assert_opt_eq_tuple(iter.next(), ("a", 1));
    assert!(iter.next().is_none());
}

#[test]
fn test_get_with_borrow() {
    let mut cache = LRUCache::new(cap(2));

    let key = String::from("apple");
    cache.put(key, "red");

    assert_opt_eq(cache.get(&String::from("apple")), "red");
}

#[test]
fn test_get_mut_with_borrow() {
    let mut cache = LRUCache::new(cap(2));

    let key = String::from("apple");
    cache.put(key, "red");

    assert_opt_eq_mut(cache.get_mut(&String::from("apple")), "red");
}

#[test]
fn test_no_memory_leaks() {
    static DROP_COUNT: AtomicUsize = AtomicUsize::new(0);

    struct DropCounter;

    impl Drop for DropCounter {
        fn drop(&mut self) {
            DROP_COUNT.fetch_add(1, Ordering::SeqCst);
        }
    }

    let n = 100;
    for _ in 0..n {
        let mut cache = LRUCache::new(cap(1));
        for i in 0..n {
            cache.put(i, DropCounter {});
        }
    }
    assert_eq!(DROP_COUNT.load(Ordering::SeqCst), n * n);
}

#[test]
fn test_no_memory_leaks_with_clear() {
    static DROP_COUNT: AtomicUsize = AtomicUsize::new(0);

    struct DropCounter;

    impl Drop for DropCounter {
        fn drop(&mut self) {
            DROP_COUNT.fetch_add(1, Ordering::SeqCst);
        }
    }

    let n = 100;
    for _ in 0..n {
        let mut cache = LRUCache::new(cap(1));
        for i in 0..n {
            cache.put(i, DropCounter {});
        }
        cache.clear();
    }
    assert_eq!(DROP_COUNT.load(Ordering::SeqCst), n * n);
}

#[test]
fn test_no_memory_leaks_with_resize() {
    static DROP_COUNT: AtomicUsize = AtomicUsize::new(0);

    struct DropCounter;

    impl Drop for DropCounter {
        fn drop(&mut self) {
            DROP_COUNT.fetch_add(1, Ordering::SeqCst);
        }
    }

    let n = 100;
    for _ in 0..n {
        let mut cache = LRUCache::new(cap(1));
        for i in 0..n {
            cache.put(i, DropCounter {});
        }
        cache.clear();
    }
    assert_eq!(DROP_COUNT.load(Ordering::SeqCst), n * n);
}

#[test]
fn test_promote_and_demote() {
    let mut cache = LRUCache::new(cap(5));
    for i in 0..5 {
        cache.push(i, i);
    }
    cache.promote(&1);
    cache.promote(&0);
    cache.demote(&3);
    cache.demote(&4);
    assert_eq!(cache.pop_last(), Some((4, 4)));
    assert_eq!(cache.pop_last(), Some((3, 3)));
    assert_eq!(cache.pop_last(), Some((2, 2)));
    assert_eq!(cache.pop_last(), Some((1, 1)));
    assert_eq!(cache.pop_last(), Some((0, 0)));
    assert_eq!(cache.pop_last(), None);
}

#[test]
fn test_iter_forwards() {
    let mut cache = LRUCache::new(cap(3));
    cache.put("a", 1);
    cache.put("b", 2);
    cache.put("c", 3);

    {
        // iter const
        let mut iter = cache.iter();
        assert_eq!(iter.len(), 3);
        assert_opt_eq_tuple(iter.next(), ("c", 3));

        assert_eq!(iter.len(), 2);
        assert_opt_eq_tuple(iter.next(), ("b", 2));

        assert_eq!(iter.len(), 1);
        assert_opt_eq_tuple(iter.next(), ("a", 1));

        assert_eq!(iter.len(), 0);
        assert_eq!(iter.next(), None);
    }
    {
        // by place, for writing
        assert_eq!(cache.len(), 3);
        assert_opt_eq_mut_tuple(cache.nth_mut(0), ("c", 3));
        assert_opt_eq_mut_tuple(cache.nth_mut(1), ("b", 2));
        assert_opt_eq_mut_tuple(cache.nth_mut(2), ("a", 1));
        assert_eq!(cache.nth_mut(3), None);
    }
}

#[test]
fn test_iter_backwards() {
    let mut cache = LRUCache::new(cap(3));
    cache.put("a", 1);
    cache.put("b", 2);
    cache.put("c", 3);

    {
        // iter const
        let mut iter = cache.iter();
        assert_eq!(iter.len(), 3);
        assert_opt_eq_tuple(iter.next_back(), ("a", 1));

        assert_eq!(iter.len(), 2);
        assert_opt_eq_tuple(iter.next_back(), ("b", 2));

        assert_eq!(iter.len(), 1);
        assert_opt_eq_tuple(iter.next_back(), ("c", 3));

        assert_eq!(iter.len(), 0);
        assert_eq!(iter.next_back(), None);
    }

    {
        // by place, for writing
        assert_eq!(cache.len(), 3);
        assert_opt_eq_mut_tuple(cache.nth_mut(2), ("a", 1));
        assert_opt_eq_mut_tuple(cache.nth_mut(1), ("b", 2));
        assert_opt_eq_mut_tuple(cache.nth_mut(0), ("c", 3));
        assert_eq!(cache.nth_mut(3), None);
    }
}

#[test]
fn test_iter_forwards_and_backwards() {
    let mut cache = LRUCache::new(cap(3));
    cache.put("a", 1);
    cache.put("b", 2);
    cache.put("c", 3);

    {
        // iter const
        let mut iter = cache.iter();
        assert_eq!(iter.len(), 3);
        assert_opt_eq_tuple(iter.next(), ("c", 3));

        assert_eq!(iter.len(), 2);
        assert_opt_eq_tuple(iter.next_back(), ("a", 1));

        assert_eq!(iter.len(), 1);
        assert_opt_eq_tuple(iter.next(), ("b", 2));

        assert_eq!(iter.len(), 0);
        assert_eq!(iter.next_back(), None);
    }
    {
        // by place, for writing
        assert_eq!(cache.len(), 3);
        assert_opt_eq_mut_tuple(cache.nth_mut(0), ("c", 3));
        assert_opt_eq_mut_tuple(cache.nth_mut(2), ("a", 1));
        assert_opt_eq_mut_tuple(cache.nth_mut(1), ("b", 2));
        assert_eq!(cache.nth_mut(3), None);
    }
}
