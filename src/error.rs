use vstd::prelude::*;

verus! {

/// Why a decode or an encode failed. Every error is fatal for the buffer at hand.
#[derive(Debug, Clone, Copy, PartialEq, Eq, Structural)]
pub enum VdfError {
    /// The first four bytes of an appinfo buffer name no known format version.
    UnsupportedMagic,
    /// A field tag other than map, string, uint32 or end-of-map.
    UnexpectedFieldTag,
    /// A read or a seek would go past the end of the buffer.
    TruncatedInput,
    /// A key index that the string table does not hold.
    InvalidStringTableIndex,
    /// The encoder was given a root that is not a map.
    NotAnObject,
    /// A shortcuts buffer that does not start with the `shortcuts` header.
    InvalidHeader,
    /// String bytes that are not UTF-8.
    InvalidText,
}

} // verus!
