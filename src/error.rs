use vstd::prelude::*;

verus! {

/// A column of a mount or swap table line.
#[derive(Debug, Clone, Copy, PartialEq, Eq, Structural)]
pub enum Field {
    Source,
    Dest,
    FsType,
    Options,
    Dump,
    Pass,
    Kind,
    Size,
    Used,
    Priority,
}

/// Why a table line could not be turned into a record.
#[derive(Debug, Clone, Copy, PartialEq, Eq, Structural)]
pub enum ParseError {
    /// A required column is absent.
    MissingField(Field),
    /// A numeric column holds something that is not a number in range.
    InvalidNumber(Field),
    /// Decoded text that must be UTF-8 is not.
    NonUtf8Path,
    /// A backslash is followed by fewer than three digits.
    TruncatedEscape,
    /// A backslash is followed by a byte that is not an octal digit.
    InvalidEscapeDigit,
    /// A stable device alias names no device.
    AliasNotFound,
    /// A stable device alias could not be interpreted.
    AliasReadError,
}

} // verus!
