//! A fixed-capacity least-recently-used (LRU) key-value cache.
//!
//! The cache keeps at most `capacity` entries; inserting a fresh key into a
//! full cache evicts the least-recently-used entry.  `get` promotes the key it
//! finds to most-recently-used.  The `codec` module gives the cache a
//! line-oriented text form (one `key<TAB>value` line per entry, written from
//! least- to most-recently-used) so that a caller can mirror the contents to a
//! file and rebuild a cache from it; the file I/O itself is left to the
//! caller, which hands lines in and out as plain byte vectors.
//!
//! The `laws` module states and proves the behavioural properties of the
//! cache and the codec.

pub mod cache;
pub mod codec;
pub mod laws;
pub mod model;
