use vstd::prelude::*;

verus! {

/// Why a buffer could not be decoded.
#[derive(Debug, Clone, Copy, PartialEq, Eq, Structural)]
pub enum ParseError {
    /// The entry tag, or a tag whose name the layout fixes, is not the expected one.
    InvalidFileType,
    /// The compressed layer is not a well-formed zlib stream.
    DecompressionError,
    /// The obfuscated layer is malformed (kept for stricter checking; never produced today).
    UnprotectError,
    /// A structural mismatch inside a tag stream: an undecodable name,
    /// an unexpected header tag, or an identifier of the wrong size.
    NomError,
    /// The buffer ends before a name, a length field or a payload is complete.
    TruncatedInput,
}

} // verus!
