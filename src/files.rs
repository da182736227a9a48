//! Reading a blob's content as text.

use crate::codec::utf8_string;
use crate::error::GitError;
use crate::objects::{decode_loose, load_object, GitObjectType};
use vstd::prelude::*;
use vstd::utf8::{decode_utf8, valid_utf8};

verus! {

/// What reading the stored (compressed) object `raw` as a text blob gives.
pub open spec fn cat_file(raw: Seq<u8>) -> Result<Seq<char>, GitError> {
    match decode_loose(raw) {
        None => Err(GitError::Corrupt),
        Some((k, p)) => if k != GitObjectType::Blob {
            Err(GitError::WrongKind)
        } else if !valid_utf8(p) {
            Err(GitError::Corrupt)
        } else {
            Ok(decode_utf8(p))
        },
    }
}

/// The text of the blob stored as `raw`; fails with `WrongKind` for a tree
/// or commit and with `Corrupt` for bytes that do not load or are not UTF-8.
pub fn catfile(raw: &[u8]) -> (r: Result<String, GitError>)
    ensures
        cat_file(raw@) == match r {
            Ok(s) => Ok(s@),
            Err(e) => Err(e),
        },
{
    let obj = load_object(raw)?;
    if obj.type_ != GitObjectType::Blob {
        return Err(GitError::WrongKind);
    }
    match utf8_string(obj.data) {
        Some(s) => Ok(s),
        None => Err(GitError::Corrupt),
    }
}

} // verus!
