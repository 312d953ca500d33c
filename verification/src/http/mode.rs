use crate::lru::cache::Cache;
use crate::lru::capacity::Capacity;
use crate::lru::lru_cache::LRUCache;
use vstd::prelude::*;
use vstd::string::StringExecFns;

verus! {

/// How a configuration asks for the cache to be built.
#[derive(Clone, Copy, Debug, PartialEq, Eq, Structural)]
pub enum CacheMode {
    /// A cache bounded by a number of items.
    Item,
    /// Reserved for a cache bounded by the size of its items; for now it is
    /// bounded by their number, like `Item`.
    Capacity,
    /// A cache that never evicts on its own.
    Unlimited,
}

/// The mode that a configured word stands for.
pub open spec fn mode_of(word: Seq<char>) -> CacheMode {
    if word == "unlimited"@ {
        CacheMode::Unlimited
    } else if word == "capacity"@ {
        CacheMode::Capacity
    } else {
        CacheMode::Item
    }
}

/// The capacity of the cache that `mode` and a configured size ask for, or
/// `None` where they ask for a bounded cache of no items.
pub open spec fn capacity_of(mode: CacheMode, size: usize) -> Option<nat> {
    if mode == CacheMode::Unlimited {
        Some(usize::MAX as nat)
    } else if size == 0 {
        None
    } else {
        Some(size as nat)
    }
}

/// Reads the configured cache mode: `unlimited` and `capacity` stand for
/// themselves; `item`, `default` and every other word stand for `Item`.
pub fn parse_cache_mode(word: &str) -> (mode: CacheMode)
    ensures
        mode == mode_of(word@),
{
    let word = String::from_str(word);
    if word == String::from_str("unlimited") {
        CacheMode::Unlimited
    } else if word == String::from_str("capacity") {
        CacheMode::Capacity
    } else {
        CacheMode::Item
    }
}

/// Builds the empty cache of payloads that `mode` and the configured size
/// ask for. There is none for a bounded cache of no items.
pub fn build_cache(mode: CacheMode, size: usize) -> (r: Option<LRUCache<u64, Vec<u8>>>)
    ensures
        match r {
            Some(cache) => cache.wf() && cache@.len() == 0 && capacity_of(mode, size) == Some(
                cache.capacity(),
            ),
            None => capacity_of(mode, size) is None,
        },
{
    match mode {
        CacheMode::Unlimited => Some(LRUCache::unbounded()),
        _ => match Capacity::new(size) {
            Some(cap) => Some(LRUCache::new(cap)),
            None => None,
        },
    }
}

} // verus!
