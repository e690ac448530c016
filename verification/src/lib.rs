//! An in-process object cache with bounded capacity, LRU eviction, and
//! admission backpressure, meant to sit beneath a reverse proxy so that
//! downstream response bodies need not be fetched twice.
//!
//! The verified core is the cache engine in [`cache`]: a recency-ordered
//! store, a soft/hard capacity gate, and the waiter bookkeeping that lets
//! writers suspend while the cache is saturated.  [`ingest`] drains a byte
//! stream into a buffer while teeing it to a relay buffer, and [`proxy`]
//! holds the cacheability filter and the proxy's response summary type.
//! The asynchronous plumbing around the engine (HTTP, channels, awaiting)
//! lives outside the library and drives these functions.

pub mod cache;
pub mod ingest;
pub mod proxy;
