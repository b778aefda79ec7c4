//! The ways in which decoding fails.

use vstd::prelude::*;

verus! {

/// A failure of the decoder. Each one is fatal to the call that reports it.
#[derive(Debug, Clone, Copy, PartialEq, Eq, Structural)]
pub enum Error {
    /// The input ended inside an opcode's payload.
    Io,
    /// The payload of a decimal-text opcode is not a number that fits the
    /// event; carries the opcode.
    Protocol(u8),
    /// An opcode byte that the format does not define; carries the byte.
    OpCode(u8),
    /// A text payload that is not valid UTF-8.
    Str,
}

} // verus!
