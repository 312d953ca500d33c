//! The decisions of the blob service that sits on the cache: which cache a
//! configuration asks for, what an upload stores and answers, and what a
//! download finds.

pub mod common;
pub mod data;
pub mod decimal;
pub mod dtos;
pub mod mode;
