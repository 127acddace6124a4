//! Why a status report could not be built.

use vstd::prelude::*;

verus! {

#[derive(Debug, Clone, Copy, PartialEq, Eq, Structural)]
pub enum StatusError {
    /// The lease database could not be read, or the neighbor command could not be started.
    SourceUnavailable,
    /// The lease block with this index (from 0, in the order of the text) does not parse.
    MalformedLease { block: usize },
    /// The line with this index (from 0, the header included) of the neighbor table does not parse.
    MalformedNeighbor { line: usize },
    /// The neighbor command ran but failed, or its output was not text.
    CommandFailure,
}

} // verus!
