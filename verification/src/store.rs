//! The store handle: the file path a phone book is persisted at.
//!
//! The store's file operations themselves (create, read, write) are the
//! shell's concern; the text they write and read is produced and consumed
//! by the codec, so everything between the bytes and the book is verified.

use vstd::prelude::*;

verus! {

/// A phone book database: a handle on the backing file's path.
pub struct PhoneBookDB {
    pub file_path1: String,
}

impl PhoneBookDB {
    /// Builds a store handle for the given path.
    pub fn _new(file_path: String) -> (r: PhoneBookDB)
        ensures
            r.file_path1@ == file_path@,
    {
        PhoneBookDB { file_path1: file_path }
    }
}

} // verus!
