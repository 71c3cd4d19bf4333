//! Why reading a ROM image failed.

use vstd::prelude::*;

verus! {

/// The ways in which the tables of a ROM image can fail to load.
#[derive(Debug, Clone, Copy, PartialEq, Eq)]
pub enum LoadError {
    /// The data ended before a value that had to be read.
    UnexpectedEof,
    /// An offset points past the end of the data it is taken in.
    OutOfBounds,
    /// The file name table claims more than `0x1000` directories.
    InvalidTotalDirCount,
    /// A file's data range is in the secure area, reversed, or past the end
    /// of the ROM.
    InvalidFileDataAddress,
    /// A file table entry name holds a byte that is not ASCII.
    NameNotAscii,
    /// A file table entry is named `.` or `..`.
    DotName,
    /// A directory's parent id names no directory read so far.
    InvalidParentId,
    /// A directory's id is not the next one in walking order.
    NonsequentialDirId,
    /// A file index does not fit a file id.
    FileIdOverflow,
    /// An overlay table starts past the end of the ROM.
    InvalidOverlayTableOffset,
    /// An overlay table reaches past the end of the ROM.
    InvalidOverlayTableSize,
    /// An overlay's id is not its position in the table.
    NonsequentialOverlayIds,
    /// An overlay's static initializers end before they start.
    StaticInitializerOrder,
    /// An overlay names a file that does not exist.
    InvalidFileId,
    /// An overlay names a file that is not an overlay file.
    NotOverlayFile,
}

} // verus!
