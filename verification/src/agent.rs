//! Bookkeeping of the scanner agent while it walks the filesystem.

use crate::wire::{Summary, KIND_DIR, KIND_FILE, KIND_OTHER, KIND_SYMLINK};
use vstd::prelude::*;

verus! {

/// The wire kind of an entry: a directory, else a file, else a symlink, else other.
pub fn kind_of(is_dir: bool, is_file: bool, is_symlink: bool) -> (k: u8)
    ensures
        k == if is_dir {
            KIND_DIR
        } else if is_file {
            KIND_FILE
        } else if is_symlink {
            KIND_SYMLINK
        } else {
            KIND_OTHER
        },
{
    if is_dir {
        KIND_DIR
    } else if is_file {
        KIND_FILE
    } else if is_symlink {
        KIND_SYMLINK
    } else {
        KIND_OTHER
    }
}

/// Ids handed out and totals counted during a walk. The root has id 0 and
/// is counted from the start; its size is not added to the bytes.
pub struct ScanCounts {
    pub next_id: u32,
    pub entries: u64,
    pub bytes: u64,
}

impl ScanCounts {
    pub fn new() -> (c: ScanCounts)
        ensures
            c.next_id == 1,
            c.entries == 1,
            c.bytes == 0,
    {
        ScanCounts { next_id: 1, entries: 1, bytes: 0 }
    }

    /// Records one entry below the root: hands out the next id and counts
    /// the entry and its size.
    pub fn record(&mut self, size: u64) -> (id: u32)
        requires
            old(self).next_id < u32::MAX,
            old(self).entries < u64::MAX,
            old(self).bytes + size <= u64::MAX,
        ensures
            id == old(self).next_id,
            final(self).next_id == old(self).next_id + 1,
            final(self).entries == old(self).entries + 1,
            final(self).bytes == old(self).bytes + size,
    {
        let id = self.next_id;
        self.next_id = self.next_id + 1;
        self.bytes = self.bytes + size;
        self.entries = self.entries + 1;
        id
    }

    /// The closing frame's contents.
    pub fn summary(&self, errors: u64, elapsed_ms: u64) -> (s: Summary)
        ensures
            s == (Summary { entries: self.entries, bytes: self.bytes, errors, elapsed_ms }),
    {
        Summary { entries: self.entries, bytes: self.bytes, errors, elapsed_ms }
    }
}

} // verus!
