//! The bytes of snapshot files: the text of a snapshot held in the
//! frames of the `snap` crate's Snappy frame format.

use vstd::prelude::*;
use std::io::{Read, Write};
use crate::errors::{Error, IoErrorKind};

verus! {

/// The text that `snap`'s frame decoder reads from `bytes`: `None` where
/// the frames or the UTF-8 they hold are not valid.
pub uninterp spec fn snappy_text(bytes: Seq<u8>) -> Option<Seq<char>>;

/// The frames that `snap`'s frame encoder writes for `text`.
pub uninterp spec fn snappy_frames(text: Seq<char>) -> Seq<u8>;

/// `snap::read::FrameDecoder` over `bytes`, read to the end as text:
/// the text, or `None` where the decoder or the UTF-8 check refuses it.
#[verifier::external_body]
fn decode_snappy_text(bytes: &Vec<u8>) -> (r: Option<String>)
    ensures
        r matches Some(t) ==> snappy_text(bytes@) == Some(t@),
        r is None ==> snappy_text(bytes@) is None,
{
    let mut text = String::new();
    match snap::read::FrameDecoder::new(bytes.as_slice()).read_to_string(&mut text) {
        Ok(_) => Some(text),
        Err(_) => None,
    }
}

/// `snap::write::FrameEncoder` writing `text` into a vector of bytes: the
/// frames, which the frame decoder reads back as `text`. `None` stands for
/// a failure to flush into the vector, which the source does not rule out.
#[verifier::external_body]
fn encode_snappy_frames(text: &str) -> (r: Option<Vec<u8>>)
    ensures
        r matches Some(b) ==> b@ == snappy_frames(text@) && snappy_text(b@) == Some(text@),
{
    let mut encoder = snap::write::FrameEncoder::new(Vec::new());
    match encoder.write_all(text.as_bytes()) {
        Ok(_) => encoder.into_inner().ok(),
        Err(_) => None,
    }
}

/// The text held in the bytes of the snapshot file at `file_path`; a
/// failure to decode them is a read failure of that file.
pub fn snapshot_text(bytes: &Vec<u8>, file_path: &str) -> (r: Result<String, Error>)
    ensures
        r matches Ok(t) ==> snappy_text(bytes@) == Some(t@),
        r is Err ==> snappy_text(bytes@) is None,
        r is Err ==> (r matches Err(Error::SnapshotReadIOError(k, p)) && k == IoErrorKind::Other && p@ == file_path@),
{
    match decode_snappy_text(bytes) {
        Some(text) => Ok(text),
        None => Err(Error::SnapshotReadIOError(IoErrorKind::Other, file_path.to_owned())),
    }
}

/// The bytes to write to the snapshot file at `file_path` for the text
/// `text`; they read back as `text`.
pub fn snapshot_bytes(text: &str, file_path: &str) -> (r: Result<Vec<u8>, Error>)
    ensures
        r matches Ok(b) ==> b@ == snappy_frames(text@) && snappy_text(b@) == Some(text@),
        r is Err ==> (r matches Err(Error::SnapshotWriteIOError(k, p)) && k == IoErrorKind::Other && p@ == file_path@),
{
    match encode_snappy_frames(text) {
        Some(bytes) => Ok(bytes),
        None => Err(Error::SnapshotWriteIOError(IoErrorKind::Other, file_path.to_owned())),
    }
}

} // verus!
