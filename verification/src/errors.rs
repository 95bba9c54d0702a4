use vstd::prelude::*;

verus! {

/// A byte source had no byte left to hand out.
#[derive(Clone, Copy, Debug, PartialEq, Eq, Structural)]
pub struct ReadError;

/// A byte sink refused the bytes handed to it.
#[derive(Clone, Copy, Debug, PartialEq, Eq, Structural)]
pub struct WriteError;

/// Why an LEB128 decode failed.
#[derive(Clone, Copy, Debug, PartialEq, Eq, Structural)]
pub enum Leb128Error {
    /// The byte source ran out before a terminating byte was seen.
    SourceExhausted,
    /// The encoding does not fit a 64-bit value, or the final group's
    /// unused bits disagree with its sign.
    InvalidEncoding,
}

} // verus!
