//! An embedded, persistent key-value store built around an append-only log
//! and an in-memory index.
//!
//! The log is a sequence of records, each a fixed 8-byte big-endian header
//! (key length, value length) followed by the key and value bytes. A record
//! with an empty value is a tombstone that deletes its key. The index maps
//! each live key to its current value; it is rebuilt from the log on open and
//! kept in step with the log by every write. Compaction rewrites the log so
//! that it holds exactly one record per live key and no tombstones.

use vstd::prelude::*;

pub mod engine;
pub mod index;
pub mod laws;
pub mod log;
pub mod order;
pub mod record;
pub mod sql;

verus! {

/// Largest key length accepted on a write, in bytes.
pub const MAX_KEY_LEN: usize = 1024;

/// Largest value length accepted on a write, in bytes.
pub const MAX_VALUE_LEN: usize = 262144;

/// A key is writable when it is non-empty and within the size limit.
pub open spec fn valid_key(k: Seq<u8>) -> bool {
    1 <= k.len() <= MAX_KEY_LEN
}

/// A value is writable when it is within the size limit; the empty value is
/// reserved as the tombstone marker.
pub open spec fn valid_value(v: Seq<u8>) -> bool {
    v.len() <= MAX_VALUE_LEN
}

} // verus!
