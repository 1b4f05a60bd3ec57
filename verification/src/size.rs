//! Size ceiling consulted before a journal file is decompressed.

use vstd::prelude::*;

verus! {

/// Largest file size, in bytes, that the batch layer will decompress (2 GiB).
pub const MAX_FILE_SIZE: u64 = 2147483648;

/// Check a journal file's size against the ceiling: `true` means the file is
/// small enough to decompress.
pub fn get_file_size(file_size: u64) -> (r: bool)
    ensures
        r == (file_size < MAX_FILE_SIZE),
{
    file_size < MAX_FILE_SIZE
}

} // verus!
