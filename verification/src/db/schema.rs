//! The version of the stored index.

use vstd::prelude::*;

verus! {

/// The version that an index is written in.
pub const SCHEMA_VERSION: i64 = 6;

/// Whether an index was written in the current version. An index that names no version
/// was not.
pub fn schema_matches(found: Option<i64>) -> (matches: bool)
    ensures
        matches == (found == Some(SCHEMA_VERSION)),
{
    match found {
        Some(version) => version == SCHEMA_VERSION,
        None => false,
    }
}

/// Whether what an index holds is dropped before it is written to: the index was written
/// in an earlier version. One that names no version is new, and one of a later version is
/// left alone.
pub fn is_outdated(found: Option<i64>) -> (outdated: bool)
    ensures
        outdated == (found is Some && found->0 < SCHEMA_VERSION),
{
    match found {
        Some(version) => version < SCHEMA_VERSION,
        None => false,
    }
}

} // verus!
