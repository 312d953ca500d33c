//! The cache engine: its mathematical model, the capacity type, the cache
//! interface and the list-and-index implementation of it.

pub mod cache;
pub mod capacity;
pub mod item_size;
mod list;
pub mod lru_cache;
pub mod model;
