//! File records and their timestamp ordering.

use vstd::prelude::*;
use crate::names::norm_spec;

verus! {

/// One filesystem entry met during traversal. `dir` is the directory part of
/// the entry's path including the trailing separator, `name` the base name,
/// so that the full path is their concatenation. Timestamps are nanoseconds
/// since the epoch, read from filesystem metadata by the caller.
pub struct FileRecord {
    pub dir: String,
    pub name: String,
    pub created: u64,
    pub modified: u64,
}

/// The full path of a record: directory part followed by base name.
pub open spec fn path_of(r: FileRecord) -> Seq<char> {
    r.dir@ + r.name@
}

/// The canonical identity a record is grouped by: its normalized base name.
pub open spec fn identity_of(r: FileRecord) -> Seq<char> {
    norm_spec(r.name@)
}

/// Ascending order on `(created, modified)`: oldest-created first, ties
/// broken by oldest-modified.
pub open spec fn key_le(a: FileRecord, b: FileRecord) -> bool {
    a.created < b.created || (a.created == b.created && a.modified <= b.modified)
}

impl FileRecord {
    /// Decides `key_le`: whether `self` was created (or on a tie, modified)
    /// no later than `other`.
    pub fn older_or_same(&self, other: &FileRecord) -> (r: bool)
        ensures
            r == key_le(*self, *other),
    {
        self.created < other.created
            || (self.created == other.created && self.modified <= other.modified)
    }

    /// An exact copy of the record.
    pub fn duplicate(&self) -> (r: FileRecord)
        ensures
            r == *self,
    {
        let r = FileRecord {
            dir: self.dir.clone(),
            name: self.name.clone(),
            created: self.created,
            modified: self.modified,
        };
        assert(r == *self);
        r
    }
}

} // verus!
