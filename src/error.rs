use vstd::prelude::*;

verus! {

/// Why an entry of the container could not be decoded.
#[derive(Clone, Copy, Debug, PartialEq, Eq, Structural)]
pub enum DecodeError {
    /// A read needs more bytes than remain.
    TruncatedInput,
    /// A computed slice (palette, payload or table range) lies outside the buffer.
    RangeError,
    /// A decoded palette index has no entry in the palette.
    PaletteIndexOutOfRange,
    /// The grid cells do not fit the sprites, or a tile's size does not match its slot.
    LayoutMismatch,
}

/// A failed entry of the container: its position in the offset table, the
/// byte offset at which it starts, and the reason.
#[derive(Clone, Copy, Debug, PartialEq, Eq, Structural)]
pub struct EntryError {
    pub entry: usize,
    pub offset: usize,
    pub error: DecodeError,
}

} // verus!
