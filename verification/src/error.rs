//! The failures a run can end with.

use vstd::prelude::*;

verus! {

/// Why a run stopped.
#[derive(Clone, Copy, Debug, PartialEq, Eq, Structural)]
pub enum Error {
    /// A line has the wrong number of fields, a token cannot be read, or a
    /// name is given a second meaning.
    MalformedLine,
    /// A `First>` row without its `Last>` row, or the reverse.
    UnpairedRangeMarker,
    /// A range whose bounds are reversed, out of the codepoint domain, or
    /// out of order within its stream.
    InvalidRange,
    /// A property or property value that no alias table knows.
    UnknownPropertyValue,
    /// Reading or writing failed.
    IoFailure,
    /// The consumer closed the output early.
    BrokenPipe,
}

impl Error {
    /// Whether the run may end quietly with success.
    pub fn is_broken_pipe(&self) -> (b: bool)
        ensures
            b == (*self == Error::BrokenPipe),
    {
        match self {
            Error::BrokenPipe => true,
            _ => false,
        }
    }
}

} // verus!
