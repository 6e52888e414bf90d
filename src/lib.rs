//! A fixed-capacity cache with least-recently-used eviction, and the
//! compute-once protocol that serves derived image blobs out of it.

pub mod lrucache;
pub mod reqimage;
pub mod serve;
pub mod utils;
