//! What can go wrong when a tag document is read, written or cleaned.

use vstd::prelude::*;

verus! {

/// A stream or a document that does not have the expected form.
///
/// An `offset` counts bytes from the start of the uncompressed stream and
/// points at the field that could not be read.
#[derive(Clone, Copy, Debug, PartialEq, Eq, Structural)]
pub enum FormatError {
    /// The stream ends inside the field that starts at `offset`.
    Truncated { offset: usize },
    /// The byte at `offset` should announce a tag and is no id of one that
    /// may stand there.
    InvalidTagId { offset: usize, id: u8 },
    /// The stream does not start with a compound.
    RootNotCompound { id: u8 },
    /// The array whose length stands at `offset` claims a negative length.
    NegativeLength { offset: usize },
    /// The document holds a value that the format has no room for: a name
    /// or a text longer than 65535 bytes, an array or a list of more than
    /// 2147483647 items, or a list with an item of another kind than the
    /// list's own.
    Unencodable,
    /// The root compound holds no compound named "Data".
    NoData,
}

/// Why a compressed tag document could not be decoded or encoded.
#[derive(Clone, Copy, Debug, PartialEq, Eq, Structural)]
pub enum CodecError {
    /// The uncompressed stream, or the document, is malformed.
    Format(FormatError),
    /// The compressed stream could not be inflated.
    Io,
}

} // verus!
