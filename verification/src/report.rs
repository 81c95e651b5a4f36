//! Which failures met while recording a directory tree are passed over.

use vstd::prelude::*;
use crate::errors::{Error, IoErrorKind};

verus! {

/// Whether a failure met at a path while recording is passed over: a
/// broken link, or an object that vanished or may not be read.
pub open spec fn is_ignorable(err: Error) -> bool {
    match err {
        Error::FSOBrokenSymLink(_, _) => true,
        Error::IOError(kind) => kind == IoErrorKind::NotFound || kind == IoErrorKind::PermissionDenied,
        _ => false,
    }
}

/// Passes over the failure `err`, met at `path`, when it is ignorable;
/// hands it back otherwise.
pub fn ignore_report_or_fail(err: Error, path: &str) -> (r: Result<(), Error>)
    ensures
        r is Ok <==> is_ignorable(err),
        r matches Err(e) ==> e == err,
{
    match &err {
        Error::FSOBrokenSymLink(_, _) => Ok(()),
        Error::IOError(kind) => match kind {
            IoErrorKind::NotFound => Ok(()),
            IoErrorKind::PermissionDenied => Ok(()),
            IoErrorKind::Other => Err(err),
        },
        _ => Err(err),
    }
}

} // verus!
