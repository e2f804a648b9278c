//! A batched, deduplicating, cached key-to-value loader for resolving
//! one-to-many relationships (for example, the questions that belong to a
//! band) without issuing one query per parent object.
//!
//! Many call sites ask for `load(key)` during one resolution pass; the
//! loader coalesces them into windowed batches, fetches each batch in one
//! bulk round trip, caches the per-key results, and fans them back out to
//! every waiter — including waiters whose key has no rows at all, which
//! receive an empty value rather than an error.


pub mod record;
pub mod value_map;
pub mod group;
pub mod loader;
