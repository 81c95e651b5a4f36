//! The metadata of a file system object that a snapshot records.

use vstd::prelude::*;

verus! {

/// The recorded metadata of a file, directory or link.
#[derive(Debug, Clone, Copy, PartialEq, Eq, Default)]
pub struct Attributes {
    pub st_dev: u64,
    pub st_ino: u64,
    pub st_nlink: u64,
    pub st_mode: u32,
    pub st_uid: u32,
    pub st_gid: u32,
    pub st_size: u64,
    pub st_atime: i64,
    pub st_atime_nsec: i64,
    pub st_mtime: i64,
    pub st_mtime_nsec: i64,
    pub st_ctime: i64,
    pub st_ctime_nsec: i64,
}

/// What the library asks of recorded attributes.
pub trait AttributesIfce {
    /// The size in bytes of the object.
    fn size(&self) -> u64;
}

impl AttributesIfce for Attributes {
    fn size(&self) -> (r: u64)
        ensures
            r == self.st_size,
    {
        self.st_size
    }
}

} // verus!
