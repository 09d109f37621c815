//! Deciding whether a working-tree file still matches its index entry,
//! from plain values: sizes and object identifiers.  Reading the file and
//! hashing its bytes happen outside this crate; the decisions here are
//! pure.

use vstd::prelude::*;
use crate::lines::bytes_eq;

verus! {

/// Lazy access to blob data; reading may perform expensive work outside
/// this crate and is only done when a comparison needs the bytes.
pub trait LazyBlob {
    /// The blob's bytes, or an error of the underlying source.
    fn read(self) -> Result<Vec<u8>, ()>;
}

/// Compares blobs by size first and only then by object id, so unchanged
/// files of a different size are detected without reading them.
pub struct FastEq;

/// Compares blobs by object id alone, always producing the freshly
/// computed id so the caller can reuse it.
pub struct HashEq;

impl FastEq {
    /// The fast path: the entry is already known to differ when the
    /// recorded size disagrees with the file's size — except for a racily
    /// smudged entry, whose recorded size of zero proves nothing unless
    /// the entry is the empty blob.
    pub fn size_differs(entry_stat_size: u64, entry_is_empty_blob: bool, blob_size: u64) -> (r:
        bool)
        ensures
            r == (entry_stat_size != blob_size && (entry_is_empty_blob || entry_stat_size != 0)),
    {
        entry_stat_size != blob_size && (entry_is_empty_blob || entry_stat_size != 0)
    }

    /// The slow path, given the freshly computed id of the file's bytes:
    /// the file changed exactly when the ids differ.
    pub fn compare_blob(entry_id: &Vec<u8>, file_hash: &Vec<u8>) -> (r: Option<()>)
        ensures
            r is Some <==> entry_id@ != file_hash@,
    {
        if bytes_eq(entry_id, file_hash) {
            None
        } else {
            Some(())
        }
    }
}

impl HashEq {
    /// Given the freshly computed id of the file's bytes: the changed
    /// file's new id, or nothing when the file still matches the entry.
    pub fn compare_blob(entry_id: &Vec<u8>, file_hash: &Vec<u8>) -> (r: Option<Vec<u8>>)
        ensures
            entry_id@ != file_hash@ <==> r matches Some(h),
            r matches Some(h) ==> h@ == file_hash@,
    {
        if bytes_eq(entry_id, file_hash) {
            None
        } else {
            Some(crate::lines::clone_bytes(file_hash))
        }
    }
}

} // verus!
