//! Decoder for Python's pickle wire format (protocols 0 to 5).
//!
//! A pickle stream is read as a flat sequence of [`reader::Event`]s, one per
//! opcode; no object graph is built, and nothing is written.
//!
//! - [`format`] states what the bytes at the head of a stream decode to.
//! - [`reader`] holds the decoder, which meets that statement: one event at
//!   a time, with a scratch buffer of the caller for the payloads.
//! - [`collect`] decodes a whole stream. Large frames are cut out and
//!   decoded by readers of their own.
//! - [`merge`] puts what several readers found back into stream order.
//! - [`order`] proves that the merge gives the order of the stream, and
//!   that decoding frames apart changes nothing on a well-framed stream.
//! - [`scalar`] and [`text`] read the numbers of the format.

pub mod collect;
pub mod errors;
pub mod format;
pub mod merge;
pub mod order;
pub mod reader;
pub mod scalar;
pub mod text;
