//! The ways in which reading a container or its text form can fail.

use vstd::prelude::*;

verus! {

/// Why a byte stream or a text document was refused. Failures of reading or
/// writing a file are not among these: the library takes bytes and gives bytes.
#[derive(Debug, Clone, Copy, PartialEq, Eq, Structural)]
pub enum Error {
    /// The stream does not begin with the magic of the wanted file kind.
    MagicMismatch,
    /// The stream ends before the count or the records that the count promises.
    TruncatedInput,
    /// A name written as a hexadecimal literal does not spell a 64-bit number.
    TextParseError,
}

} // verus!
