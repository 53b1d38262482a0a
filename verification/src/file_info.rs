//! The raw file-information record a firmware file service fills in: a
//! fixed header followed by a file name, with the file's size stored as a
//! little-endian 64-bit number at a fixed offset.

use vstd::prelude::*;

verus! {

/// Bytes of a file-information record: the fixed header plus room for the
/// file name.
pub const FILE_INFO_SIZE: usize = 592;

/// A zeroed byte buffer sized to take one file-information record.
pub struct FileInfoBuffer {
    pub info: [u8; FILE_INFO_SIZE],
}

impl FileInfoBuffer {
    /// A fresh, zeroed record buffer.
    pub fn new() -> (r: FileInfoBuffer)
        ensures
            forall|i: int| 0 <= i < FILE_INFO_SIZE ==> r.info@[i] == 0,
    {
        FileInfoBuffer { info: [0; FILE_INFO_SIZE] }
    }
}

/// The 64-bit file size stored little endian at bytes 8 to 15 of a
/// file-information record.
pub open spec fn file_size_of(b: Seq<u8>) -> int {
    b[8] + 0x100 * b[9] + 0x1_0000 * b[10] + 0x100_0000 * b[11] + 0x1_0000_0000 * b[12]
        + 0x100_0000_0000 * b[13] + 0x1_0000_0000_0000 * b[14] + 0x100_0000_0000_0000 * b[15]
}

/// Reads the file size out of a filled record buffer.
pub fn file_size(info: &FileInfoBuffer) -> (r: u64)
    ensures
        r == file_size_of(info.info@),
{
    info.info[8] as u64 + 0x100 * info.info[9] as u64 + 0x1_0000 * info.info[10] as u64
        + 0x100_0000 * info.info[11] as u64 + 0x1_0000_0000 * info.info[12] as u64
        + 0x100_0000_0000 * info.info[13] as u64 + 0x1_0000_0000_0000 * info.info[14] as u64
        + 0x100_0000_0000_0000 * info.info[15] as u64
}

} // verus!
