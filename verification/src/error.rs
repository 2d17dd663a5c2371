use vstd::prelude::*;

verus! {

/// Why a cache could not be written or read back.
#[derive(Debug, Clone, Copy, PartialEq, Eq, Structural)]
pub enum CacheError {
    /// The file does not start with the format's signature.
    MagicMismatch,
    /// The file was written in another version of the format.
    VersionMismatch,
    /// Fewer bytes are left than a field declares.
    TruncatedInput,
    /// The bytes of a string are not UTF-8.
    InvalidUtf8,
    /// A length or count does not fit the width of its prefix.
    LengthOverflow,
    /// A Huffman code is longer than the sixteen bits a table entry holds.
    CodeLengthOverflow,
}

impl CacheError {
    /// A short description of the error, for logs and messages.
    pub fn message(&self) -> (text: &'static str)
        ensures
            text@ == match *self {
                CacheError::MagicMismatch => "Invalid magic value"@,
                CacheError::VersionMismatch => "Invalid version"@,
                CacheError::TruncatedInput => "Unexpected end of input"@,
                CacheError::InvalidUtf8 => "Invalid UTF-8"@,
                CacheError::LengthOverflow => "Length does not fit its prefix"@,
                CacheError::CodeLengthOverflow => "Huffman code longer than 16 bits"@,
            },
    {
        match self {
            CacheError::MagicMismatch => "Invalid magic value",
            CacheError::VersionMismatch => "Invalid version",
            CacheError::TruncatedInput => "Unexpected end of input",
            CacheError::InvalidUtf8 => "Invalid UTF-8",
            CacheError::LengthOverflow => "Length does not fit its prefix",
            CacheError::CodeLengthOverflow => "Huffman code longer than 16 bits",
        }
    }
}

} // verus!
