//! Decoders for a family of game-archive binary formats: a container
//! archive holding named member files, a nested sub-archive holding
//! optionally zlib-compressed payloads, and a flat, indentation-encoded
//! binary tree format that is rendered as structured markup.

use vstd::prelude::*;

pub mod cursor;
pub mod dat;
pub mod manifest;
pub mod pak;
pub mod symbols;
pub mod xml;
pub mod yax;

verus! {

/// Failure cases shared by all decoders in this crate.
///
/// - `OutOfBounds`: a table or record read would exceed the source buffer;
///   the source file is malformed or truncated.
/// - `Decompression`: a member marked as compressed does not hold a valid
///   zlib stream.
/// - `LevelSkip`: a flat tree record stream is malformed: its first record
///   is not at indentation zero, or a record's indentation exceeds the
///   previous record's indentation by more than one.
#[derive(Clone, Copy, Debug, PartialEq, Eq, Structural)]
pub enum DecodeError {
    OutOfBounds,
    Decompression,
    LevelSkip,
}

} // verus!
