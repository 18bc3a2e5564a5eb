//! The mathematical values that nested byte vectors stand for.

use vstd::prelude::*;

verus! {

/// The byte strings that a sequence of byte vectors holds.
pub open spec fn byte_strings(segments: Seq<Vec<u8>>) -> Seq<Seq<u8>> {
    segments.map_values(|segment: Vec<u8>| segment@)
}

/// The table that a sequence of rows of byte vectors holds.
pub open spec fn byte_tables(rows: Seq<Vec<Vec<u8>>>) -> Seq<Seq<Seq<u8>>> {
    rows.map_values(|row: Vec<Vec<u8>>| byte_strings(row@))
}

} // verus!
