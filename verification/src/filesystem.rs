//! The file-system boundary shared by boot-time drivers, and the path
//! handling every driver needs: splitting a path into its components.
//!
//! Paths arrive as sequences of 16-bit characters, separated by `/` and
//! ended by a terminating zero character.

use vstd::prelude::*;

verus! {

/// The path separator character, `/`.
pub const PATH_SEPARATOR: u16 = 0x2f;

/// The terminating zero character.
pub const PATH_NUL: u16 = 0;

/// A path may not be longer than this, the terminator excluded.
pub const MAX_PATH_LEN: usize = 32760;

/// A single path component may not be longer than this.
pub const COMPONENT_MAX_LEN: usize = 255;

/// An error returned from opening a file.
#[derive(Clone, Copy, Debug, PartialEq, Eq, Structural)]
pub enum OpenFileError {
    /// The opened path is too long to be valid for this filesystem.
    PathTooLong,
    /// One of the path's components is too long to be valid for this
    /// filesystem.
    ComponentTooLong,
    /// The opened path cannot be converted into the proper charset.
    InvalidCharset,
    /// The opened file was not found on the filesystem.
    FileNotFound,
    /// An error occurred while reading from this filesystem's device.
    DeviceError,
    /// Access was denied to this file.
    AccessDenied,
    /// The filesystem state has been corrupted.
    FileSystemCorrupted,
    /// A directory on the path to the opened file was not found on the
    /// filesystem.
    DirectoryNotFound,
    /// Tried to open a file as a directory.
    IsFile,
    /// Tried to open a directory as a normal file.
    IsDirectory,
    /// Tried to open a file when the maximum number of files are already
    /// opened.
    TooManyOpenFiles,
    /// This file is already opened and has not yet been closed.
    AlreadyOpen,
}

/// Marker for driver-private state attached to an open file.
pub trait FileDescriptorInterface {

}

/// An open file tracked by a boot-time file-system driver.
pub struct FileDescriptor {
    /// The slot this descriptor occupies in its driver's table.
    pub index: usize,
    /// The current read offset in bytes.
    pub offset: u64,
    /// The path the file was opened under.
    pub path: String,
}

/// The capability a boot-time file system offers: opening, reading,
/// seeking and closing files named by descriptor slots. Implementations
/// sit on firmware services, so no behaviour is promised here beyond the
/// signatures.
pub trait FileSystemInterface {
    fn open_file(&mut self, path: &str) -> Result<usize, OpenFileError>;

    fn close_file(&mut self, fd: usize) -> Result<(), ()>;

    fn read_file(&mut self, fd: usize, buf: &mut Vec<u8>) -> Result<usize, usize>;

    fn seek_file(&mut self, fd: usize, location: u64) -> Result<(), ()>;

    fn get_size(&mut self, fd: usize) -> Result<u64, ()>;
}

/// The components that splitting `path` leaves, as half-open index
/// ranges, processed up to position `idx` with `prev` the position of the
/// last separator seen.
///
/// A component is pushed for every separator or terminator at `idx` that
/// stands more than one place after the previous separator: the bytes
/// strictly between the two. Empty components are omitted, and the
/// leading position 0 counts as a separator, as a path begins with one.
pub open spec fn split_path_rec(path: Seq<u16>, idx: int, prev: int, acc: Seq<(usize, usize)>) -> Seq<
    (usize, usize),
>
    decreases path.len() - idx,
{
    if idx < 0 || idx >= path.len() {
        acc
    } else {
        let c = path[idx];
        if c == PATH_SEPARATOR || c == PATH_NUL {
            let acc2 = if idx > prev + 1 {
                acc.push((((prev + 1) as usize), (idx as usize)))
            } else {
                acc
            };
            split_path_rec(path, idx + 1, idx, acc2)
        } else {
            split_path_rec(path, idx + 1, prev, acc)
        }
    }
}

/// The components of a whole path.
pub open spec fn split_path_spec(path: Seq<u16>) -> Seq<(usize, usize)> {
    split_path_rec(path, 0, 0, Seq::empty())
}

/// Splits a path into its individual components.
///
/// Each component is delimited by the `/` character or the terminating
/// zero character; empty components are omitted. The components come back
/// as `(start, end)` index ranges into `path_slice`.
pub fn split_path(path_slice: &[u16]) -> (components: Vec<(usize, usize)>)
    ensures
        components@ == split_path_spec(path_slice@),
{
    let mut components: Vec<(usize, usize)> = Vec::new();
    let mut prev_separator: usize = 0;
    let mut idx: usize = 0;
    let n: usize = path_slice.len();
    while idx < n
        invariant
            n == path_slice@.len(),
            0 <= idx <= n,
            prev_separator <= idx,
            split_path_rec(path_slice@, idx as int, prev_separator as int, components@)
                == split_path_spec(path_slice@),
        decreases n - idx,
    {
        let c: u16 = path_slice[idx];
        if c == PATH_SEPARATOR || c == PATH_NUL {
            if idx > prev_separator + 1 {
                components.push((prev_separator + 1, idx));
            }
            prev_separator = idx;
        }
        idx += 1;
    }
    components
}


/// Every component range a split produces is non-empty and lies inside
/// the path.
proof fn lemma_split_rec_ranges(path: Seq<u16>, idx: int, prev: int, acc: Seq<(usize, usize)>)
    requires
        path.len() <= usize::MAX,
        0 <= prev,
        forall|k: int|
            0 <= k < acc.len() ==> (#[trigger] acc[k]).0 < acc[k].1 && acc[k].1 <= path.len(),
    ensures
        forall|k: int|
            0 <= k < split_path_rec(path, idx, prev, acc).len() ==> (#[trigger] split_path_rec(
                path,
                idx,
                prev,
                acc,
            )[k]).0 < split_path_rec(path, idx, prev, acc)[k].1 && split_path_rec(
                path,
                idx,
                prev,
                acc,
            )[k].1 <= path.len(),
    decreases path.len() - idx,
{
    if idx < 0 || idx >= path.len() {
    } else {
        let c = path[idx];
        if c == PATH_SEPARATOR || c == PATH_NUL {
            if idx > prev + 1 {
                let acc2 = acc.push((((prev + 1) as usize), (idx as usize)));
                assert forall|k: int|
                    0 <= k < acc2.len() implies (#[trigger] acc2[k]).0 < acc2[k].1 && acc2[k].1
                    <= path.len() by {
                    if k < acc.len() {
                        assert(acc2[k] == acc[k]);
                    }
                }
                lemma_split_rec_ranges(path, idx + 1, idx, acc2);
                assert(split_path_rec(path, idx, prev, acc) == split_path_rec(
                    path,
                    idx + 1,
                    idx,
                    acc2,
                ));
            } else {
                lemma_split_rec_ranges(path, idx + 1, idx, acc);
                assert(split_path_rec(path, idx, prev, acc) == split_path_rec(
                    path,
                    idx + 1,
                    idx,
                    acc,
                ));
            }
        } else {
            lemma_split_rec_ranges(path, idx + 1, prev, acc);
            assert(split_path_rec(path, idx, prev, acc) == split_path_rec(
                path,
                idx + 1,
                prev,
                acc,
            ));
        }
    }
}

/// Every component of a split path is a non-empty range inside the path.
pub proof fn lemma_split_path_ranges(path: Seq<u16>)
    requires
        path.len() <= usize::MAX,
    ensures
        forall|k: int|
            0 <= k < split_path_spec(path).len() ==> (#[trigger] split_path_spec(path)[k]).0
                < split_path_spec(path)[k].1 && split_path_spec(path)[k].1 <= path.len(),
{
    lemma_split_rec_ranges(path, 0, 0, Seq::empty());
}

/// Validates a path the way a driver must before opening it: the whole
/// path may not run past `MAX_PATH_LEN` (plus its terminator), and no
/// single component may be longer than `COMPONENT_MAX_LEN`. A valid path
/// comes back split into its components.
pub fn validate_path(path_slice: &[u16]) -> (result: Result<Vec<(usize, usize)>, OpenFileError>)
    ensures
        result == Err::<Vec<(usize, usize)>, OpenFileError>(OpenFileError::PathTooLong)
            <==> path_slice@.len() > MAX_PATH_LEN + 1,
        result == Err::<Vec<(usize, usize)>, OpenFileError>(OpenFileError::ComponentTooLong)
            <==> (path_slice@.len() <= MAX_PATH_LEN + 1 && exists|k: int|
            0 <= k < split_path_spec(path_slice@).len() && (#[trigger] split_path_spec(
                path_slice@,
            )[k]).1 - split_path_spec(path_slice@)[k].0 > COMPONENT_MAX_LEN),
        result matches Ok(components) ==> {
            &&& components@ == split_path_spec(path_slice@)
            &&& path_slice@.len() <= MAX_PATH_LEN + 1
            &&& forall|k: int|
                0 <= k < components@.len() ==> (#[trigger] components@[k]).1 - components@[k].0
                    <= COMPONENT_MAX_LEN
        },
{
    if path_slice.len() > MAX_PATH_LEN + 1 {
        return Err(OpenFileError::PathTooLong);
    }
    proof {
        lemma_split_path_ranges(path_slice@);
    }
    let components = split_path(path_slice);
    let n: usize = components.len();
    let mut k: usize = 0;
    while k < n
        invariant
            path_slice@.len() <= MAX_PATH_LEN + 1,
            n == components@.len(),
            components@ == split_path_spec(path_slice@),
            forall|j: int|
                0 <= j < components@.len() ==> (#[trigger] components@[j]).0 < components@[j].1,
            0 <= k <= n,
            forall|j: int|
                0 <= j < k ==> (#[trigger] components@[j]).1 - components@[j].0
                    <= COMPONENT_MAX_LEN,
        decreases n - k,
    {
        let (start, end) = components[k];
        if end - start > COMPONENT_MAX_LEN {
            proof {
                let spec_components = split_path_spec(path_slice@);
                assert(0 <= k < spec_components.len() && (#[trigger] spec_components[k as int]).1
                    - spec_components[k as int].0 > COMPONENT_MAX_LEN);
            }
            return Err(OpenFileError::ComponentTooLong);
        }
        k += 1;
    }
    Ok(components)
}

} // verus!
