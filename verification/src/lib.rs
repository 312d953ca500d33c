//! A bounded least-recently-used cache and the decisions of a small blob
//! service that stores uploaded payloads in it.

pub mod http;
pub mod lru;
