//! Typed errors reported by the archive codec.

use vstd::prelude::*;

verus! {

/// Everything that can go wrong while opening, querying or building an
/// archive.  Corruption of an input archive is an expected condition, not an
/// exceptional one, so every corruption check reports a typed variant here.
#[derive(Debug)]
#[allow(inconsistent_fields)]
pub enum BsaError {
    /// The archive must be opened or created before it can be queried.
    NotOpen,
    /// The archive was already opened or created; instances are single-use.
    AlreadyOpen,
    /// The input is shorter than the fixed 12-byte header.
    TooSmall(u64),
    /// The first four bytes are not the format's magic constant.
    BadHeader,
    /// The directory cannot fit inside the archive as declared.
    DirSize,
    /// An entry's data range reaches outside the archive.
    OffsetOutside,
    /// The queried name is not present in the archive.
    FileNotFound(String),
    /// The directory fields promise a layout that does not add up: after the
    /// size/offset table the read position cannot land at the declared start
    /// of the hash table.
    Position { expected: u32, actual: u64 },
    /// A section did not come out at the byte count the format demands.
    BytesWritten { expected: u32, actual: usize },
}

impl BsaError {
    /// The fixed description of each variant, as a sequence of characters.
    pub open spec fn describe_spec(&self) -> Seq<char> {
        match self {
            BsaError::NotOpen => "BSA file must be open before reading"@,
            BsaError::AlreadyOpen => "BSA file is already open for reading"@,
            BsaError::TooSmall(_) => "File too small to be a valid BSA"@,
            BsaError::BadHeader => "Unrecognized BSA header"@,
            BsaError::DirSize => "Directory information larger than entire archive, file may be corrupt"@,
            BsaError::OffsetOutside => "Archive contains offsets outside itself"@,
            BsaError::FileNotFound(_) => "File not found in archive"@,
            BsaError::Position { .. } => "Read file position does not match the directory size"@,
            BsaError::BytesWritten { .. } => "Unexpected number of bytes written"@,
        }
    }

    /// A short human-readable description of the error.
    pub fn describe(&self) -> (r: &'static str)
        ensures
            r@ == self.describe_spec(),
    {
        match self {
            BsaError::NotOpen => "BSA file must be open before reading",
            BsaError::AlreadyOpen => "BSA file is already open for reading",
            BsaError::TooSmall(_) => "File too small to be a valid BSA",
            BsaError::BadHeader => "Unrecognized BSA header",
            BsaError::DirSize => "Directory information larger than entire archive, file may be corrupt",
            BsaError::OffsetOutside => "Archive contains offsets outside itself",
            BsaError::FileNotFound(_) => "File not found in archive",
            BsaError::Position { .. } => "Read file position does not match the directory size",
            BsaError::BytesWritten { .. } => "Unexpected number of bytes written",
        }
    }
}

} // verus!
