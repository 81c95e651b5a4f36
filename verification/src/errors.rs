//! The errors that the library reports.

use vstd::prelude::*;
use crate::archive::ArchiveNameOrDirPath;

verus! {

/// The kind of an I/O failure.
#[derive(Debug, Clone, Copy, PartialEq, Eq, Structural)]
pub enum IoErrorKind {
    NotFound,
    PermissionDenied,
    Other,
}

/// A failure of the back-up library. Paths are carried as text; the
/// failures of outside formats are carried as their messages.
#[derive(Debug)]
pub enum Error {
    ArchiveDirError(IoErrorKind, String),
    ArchiveEmpty(ArchiveNameOrDirPath),
    ArchiveExists(String),
    ArchiveUnknown(String),
    ArchiveReadError(IoErrorKind, String),
    ArchiveWriteError(IoErrorKind, String),
    ArchiveYamlReadError(String, String),
    ArchiveYamlWriteError(String, String),
    RelativeIncludePath(String, String),
    ArchiveIncludePathError(crate::path_ext::Error, String),

    GlobError(globset::Error),

    IOError(IoErrorKind),

    ContentCopyIOError(IoErrorKind),
    RepoError(String),
    RepoExists(String),
    UnknownRepo(String),

    LastSnapshot(ArchiveNameOrDirPath),
    NoSnapshotAvailable,
    SnapshotDeleteIOError(IoErrorKind, String),
    SnapshotDirIOError(IoErrorKind, String),
    SnapshotIndexOutOfRange(ArchiveNameOrDirPath, i64),
    SnapshotMismatch(String),
    SnapshotMismatchDirty(IoErrorKind, String),
    SnapshotMoveAsideFailed(String, IoErrorKind),
    SnapshotReadIOError(IoErrorKind, String),
    SnapshotReadJsonError(String, String),
    SnapshotUnknownFile(String),
    SnapshotUnknownDirectory(String),
    SnapshotWriteIOError(IoErrorKind, String),
    SnapshotSerializeError(String),
    SnapshotsFailed(i32),

    DuplicateFileSystemObjectName,
    FSOMalformedPath(String),
    FSOBrokenSymLink(String, String),
}

/// The result type of the library.
pub type EResult<T> = Result<T, Error>;

} // verus!
