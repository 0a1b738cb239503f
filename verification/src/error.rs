//! The error that reading reports.

use vstd::prelude::*;

verus! {

/// Why a buffer could not be read as a chunk.
#[derive(Clone, Copy, Debug, PartialEq, Eq)]
pub enum Error {
    /// The buffer is too short for a header, a declared size runs past the end of its
    /// container, or an envelope declares fewer than four payload bytes.
    MalformedData,
}

} // verus!
