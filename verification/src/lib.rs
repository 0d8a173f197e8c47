//! A set-associative cache simulator with verified hit/miss/eviction
//! accounting.
//!
//! The crate models a hardware cache as two layers: [`set_store`] holds the
//! per-set residency state with least-recently-used eviction, and [`driver`]
//! decomposes byte addresses into tag/index/offset fields and walks an access
//! across cache-line boundaries while accumulating run statistics.

pub mod addr;
pub mod driver;
pub mod set_store;
