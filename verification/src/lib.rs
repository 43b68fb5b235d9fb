//! Deduplication of geocoded postal addresses.
//!
//! Addresses stream into a store together with locality-sensitive hashes;
//! addresses sharing a hash form a pack, and each pack is resolved into
//! survivors and deletion marks by pairwise comparison against the survivors
//! kept so far. Deletion marks are then applied to the store, and the
//! surviving addresses can be dumped as a gzip-compressed CSV.

pub mod address;
pub mod similarity;
pub mod store;
pub mod dedupe;
pub mod sys;
pub mod deduplicator;
pub mod osm;
pub mod dump;
