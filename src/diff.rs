use vstd::prelude::*;
use crate::models::{HashValue, IndexEntry, BlobLocation};

verus! {

/// The content hash that an index row still vouches for: its hash where the
/// row's modification time and size equal the probe exactly.
pub open spec fn index_hit(row: Option<IndexEntry>, mtime: i64, size: u64) -> Option<HashValue> {
    match row {
        Some(e) => if e.mtime == mtime && e.size == size {
            Some(e.hash)
        } else {
            None
        },
        None => None,
    }
}

/// Fast-path check of a file against its index row. `Some(h)` means the file
/// is clean and `h` is its content hash, so its bytes need not be read;
/// `None` means it must be hashed.
pub fn check_index(row: Option<IndexEntry>, mtime: i64, size: u64) -> (r: Option<HashValue>)
    ensures
        r == index_hit(row, mtime, size),
{
    match row {
        Some(e) => {
            if e.mtime == mtime && e.size == size {
                Some(e.hash)
            } else {
                None
            }
        },
        None => None,
    }
}

/// Whether a blob must be written: the catalog holds no location for it.
pub fn should_backup_blob(location: Option<BlobLocation>) -> (r: bool)
    ensures
        r == (location is None),
{
    location.is_none()
}

} // verus!
