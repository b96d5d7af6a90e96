//! A fixed-capacity key-value cache with least-recently-used eviction and a
//! durable, self-describing text snapshot of its full state.

pub mod cache;
pub mod codec;
pub mod model;
pub mod traits;
