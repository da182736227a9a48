//! The decisions of cloning over the smart HTTP protocol: the repository
//! URL, the ref advertisement, the request for a pack, the response framing,
//! persisting decoded entries, and where checked-out files go. The requests
//! themselves and the file writes are the caller's.

use crate::codec::{find_byte, index_of, utf8_string};
use crate::error::GitError;
use crate::objects::{object_frame, object_id, object_path, store_object, LooseObject};
use crate::packs::{parse_packfile, Entry, EntryModel, Packfile};
use vstd::prelude::*;
use vstd::string::{StrSliceExecFns, StringExecFns};
use vstd::utf8::{decode_utf8, encode_utf8, valid_utf8};

verus! {

/// `".git"` as bytes.
pub open spec fn git_suffix() -> Seq<u8> {
    seq![46u8, 103u8, 105u8, 116u8]
}

pub open spec fn ends_with_git(b: Seq<u8>) -> bool {
    b.len() >= 4 && b.subrange(b.len() - 4, b.len() as int) == git_suffix()
}

/// The repository URL: `url` itself when it ends in `.git`, else with `.git` added.
pub fn repo_url(url: &String) -> (r: String)
    ensures
        r@ == if ends_with_git(encode_utf8(url@)) {
            url@
        } else {
            url@ + ".git"@
        },
{
    let b = url.as_str().as_bytes();
    let n = b.len();
    let has_suffix = n >= 4 && b[n - 4] == 46u8 && b[n - 3] == 103u8 && b[n - 2] == 105u8 && b[n
        - 1] == 116u8;
    assert(has_suffix <==> ends_with_git(b@)) by {
        if n >= 4 {
            assert(has_suffix <==> b@.subrange(n - 4, n as int) =~= git_suffix());
        }
    }
    let mut base_url = url.clone();
    if !has_suffix {
        base_url.append(".git");
    }
    base_url
}

/// `"0000"`, the flush line that ends the advertisement.
pub open spec fn flush_line() -> Seq<u8> {
    seq![48u8, 48u8, 48u8, 48u8]
}

/// The id part of an advertised ref line: characters 4 to 44 (fewer if the
/// line is shorter).
pub open spec fn ref_field(line: Seq<char>) -> Seq<char> {
    if line.len() <= 4 {
        Seq::empty()
    } else if line.len() <= 44 {
        line.subrange(4, line.len() as int)
    } else {
        line.subrange(4, 44)
    }
}

/// The ref lines in `rest`, split at newlines: after `skip` header lines,
/// each line up to the flush line or the end.
pub open spec fn advertised(rest: Seq<u8>, skip: nat) -> Seq<Seq<u8>>
    decreases rest.len(),
{
    let i = index_of(rest, 10u8) as int;
    let line = rest.subrange(0, i);
    let tail = if i < rest.len() {
        advertised(
            rest.subrange(i + 1, rest.len() as int),
            if skip > 0 {
                (skip - 1) as nat
            } else {
                0
            },
        )
    } else {
        Seq::empty()
    };
    if skip > 0 {
        tail
    } else if line == flush_line() {
        Seq::empty()
    } else {
        seq![line] + tail
    }
}

/// The advertised ids of an `info/refs` response body; `None` if one of the
/// ref lines is not UTF-8.
pub open spec fn advertised_refs(body: Seq<u8>) -> Option<Seq<Seq<char>>> {
    let lines = advertised(body, 2);
    if forall|i: int| 0 <= i < lines.len() ==> valid_utf8(#[trigger] lines[i]) {
        Some(lines.map_values(|l: Seq<u8>| ref_field(decode_utf8(l))))
    } else {
        None
    }
}

/// Reads the ref ids from an `info/refs?service=git-upload-pack` response
/// body: the lines after the first two, up to the `0000` flush line, each
/// with its 4-character length prefix dropped and cut to 40 characters.
pub fn parse_refs(body: &[u8]) -> (r: Result<Vec<String>, GitError>)
    ensures
        advertised_refs(body@) == match r {
            Ok(v) => Some(v@.map_values(|s: String| s@)),
            Err(_) => None,
        },
        r matches Err(e) ==> e == GitError::Corrupt,
{
    let ghost fields = advertised(body@, 2);
    let mut hashes: Vec<String> = Vec::new();
    let mut pos: usize = 0;
    let mut skip: usize = 2;
    assert(body@.subrange(0, body@.len() as int) =~= body@);
    loop
        invariant_except_break
            fields == fields.subrange(0, hashes@.len() as int) + advertised(
                body@.subrange(pos as int, body@.len() as int),
                skip as nat,
            ),
        invariant
            fields == advertised(body@, 2),
            pos <= body@.len(),
            skip <= 2,
            forall|i: int| 0 <= i < hashes@.len() ==> valid_utf8(#[trigger] fields[i]),
            hashes@.len() <= fields.len(),
            forall|i: int|
                0 <= i < hashes@.len() ==> #[trigger] hashes@[i]@ == ref_field(
                    decode_utf8(fields[i]),
                ),
        ensures
            hashes@.len() == fields.len(),
            forall|i: int| 0 <= i < hashes@.len() ==> valid_utf8(#[trigger] fields[i]),
            forall|i: int|
                0 <= i < hashes@.len() ==> #[trigger] hashes@[i]@ == ref_field(
                    decode_utf8(fields[i]),
                ),
        decreases body@.len() - pos,
    {
        let ghost rest = body@.subrange(pos as int, body@.len() as int);
        let end = find_byte(body, pos, 10u8);
        let line = &body[pos..end];
        assert(line@ =~= rest.subrange(0, index_of(rest, 10u8) as int));
        let more = end < body.len();
        proof {
            if more {
                assert(rest.subrange(end - pos + 1, rest.len() as int) =~= body@.subrange(
                    end + 1,
                    body@.len() as int,
                ));
            }
        }
        if skip > 0 {
            if !more {
                assert(advertised(rest, skip as nat) =~= Seq::empty());
                break;
            }
            skip = skip - 1;
            pos = end + 1;
        } else {
            let is_flush = line.len() == 4 && line[0] == 48u8 && line[1] == 48u8 && line[2]
                == 48u8 && line[3] == 48u8;
            assert(is_flush <==> line@ =~= flush_line());
            if is_flush {
                break;
            }
            let mut line_bytes: Vec<u8> = Vec::new();
            line_bytes.extend_from_slice(line);
            assert(line_bytes@ =~= line@);
            let ghost k = hashes@.len() as int;
            let ghost tail = if more {
                advertised(body@.subrange(end + 1, body@.len() as int), 0)
            } else {
                Seq::empty()
            };
            assert(advertised(rest, 0) == seq![line@] + tail);
            assert(fields == fields.subrange(0, k) + (seq![line@] + tail));
            assert(k < fields.len());
            assert(fields[k] == line@);
            let text = match utf8_string(line_bytes) {
                Some(t) => t,
                None => {
                    assert(!valid_utf8(fields[k]));
                    assert(advertised_refs(body@) is None);
                    return Err(GitError::Corrupt);
                },
            };
            let n = text.as_str().unicode_len();
            let h = if n <= 4 {
                String::new()
            } else {
                let stop = if n <= 44 {
                    n
                } else {
                    44
                };
                text.as_str().substring_char(4, stop).to_owned()
            };
            assert(h@ =~= ref_field(decode_utf8(fields[k])));
            hashes.push(h);
            assert(fields.subrange(0, k + 1) =~= fields.subrange(0, k).push(line@));
            assert(fields =~= fields.subrange(0, k + 1) + tail);
            if !more {
                assert(fields =~= fields.subrange(0, k + 1) + Seq::empty());
                break;
            }
            pos = end + 1;
        }
    }
    let ghost texts = hashes@.map_values(|s: String| s@);
    assert forall|i: int| 0 <= i < fields.len() implies #[trigger] texts[i] == ref_field(
        decode_utf8(fields[i]),
    ) by {
        assert(texts[i] == hashes@[i]@);
    }
    assert(texts =~= fields.map_values(|l: Seq<u8>| ref_field(decode_utf8(l))));
    Ok(hashes)
}

/// The body of the upload-pack request that wants the first advertised ref.
pub open spec fn want_request(id: Seq<char>) -> Seq<char> {
    "0032want "@ + id + "\n"@ + "00000009done\n"@
}

/// The upload-pack request body for the first advertised ref; fails with
/// `NotFound` when nothing was advertised.
pub fn upload_pack_request(refs: &Vec<String>) -> (r: Result<String, GitError>)
    ensures
        refs@.len() == 0 <==> r is Err,
        r matches Ok(body) ==> body@ == want_request(refs@[0]@),
        r matches Err(e) ==> e == GitError::NotFound,
{
    if refs.len() == 0 {
        return Err(GitError::NotFound);
    }
    let mut body = "0032want ".to_owned();
    body.append(refs[0].as_str());
    body.append("\n");
    body.append("00000009done\n");
    assert(body@ =~= want_request(refs@[0]@));
    Ok(body)
}

/// Decodes the pack in an upload-pack response, after its 8-byte
/// `0008NAK\n` line.
pub fn parse_upload_pack_response(data: &[u8]) -> (r: Result<Packfile, GitError>)
    ensures
        data@.len() < 8 ==> r == Err::<Packfile, GitError>(GitError::Corrupt),
        data@.len() >= 8 ==> crate::packs::decode_pack(data@.subrange(8, data@.len() as int))
            == match r {
            Ok(p) => Ok(p@),
            Err(e) => Err(e),
        },
{
    if data.len() < 8 {
        return Err(GitError::Corrupt);
    }
    parse_packfile(&data[8..data.len()])
}

/// Every entry is a commit, tree or blob.
pub open spec fn entry_kinds_ok(entries: Seq<EntryModel>) -> bool {
    forall|i: int| 0 <= i < entries.len() ==> (#[trigger] entries[i]).kind.object_kind() is Some
}

/// Every entry's id is the id of its kind and content.
pub open spec fn entry_ids_ok(entries: Seq<EntryModel>) -> bool {
    forall|i: int|
        0 <= i < entries.len() ==> ((#[trigger] entries[i]).kind.object_kind() matches Some(k)
            && entries[i].id == object_id(k, entries[i].data))
}

/// Prepares every decoded entry for the store. Succeeds exactly when every
/// entry is a commit, tree or blob whose id is the id of its content; fails
/// with `Unsupported` for another kind and with `Corrupt` for a wrong id.
pub fn store_pack_objects(packfile: &Packfile) -> (r: Result<Vec<LooseObject>, GitError>)
    ensures
        r matches Ok(v) ==> {
            &&& v@.len() == packfile@.entries.len()
            &&& forall|i: int|
                0 <= i < v@.len() ==> {
                    let e = #[trigger] packfile@.entries[i];
                    &&& e.kind.object_kind() is Some
                    &&& v@[i].id@ == e.id
                    &&& v@[i].path@ == object_path(e.id)
                    &&& crate::codec::zlib_inflate(v@[i].data@) == Some(
                        (v@[i].data@.len(), object_frame(e.kind.object_kind()->Some_0, e.data)),
                    )
                }
        },
        r is Ok <==> entry_ids_ok(packfile@.entries),
        r matches Err(e) ==> {
            ||| e == GitError::Unsupported && !entry_kinds_ok(packfile@.entries)
            ||| e == GitError::Corrupt && !entry_ids_ok(packfile@.entries)
        },
{
    let ghost entries = packfile@.entries;
    let mut stored: Vec<LooseObject> = Vec::new();
    let mut i: usize = 0;
    while i < packfile.entries.len()
        invariant
            entries == packfile@.entries,
            i <= entries.len(),
            stored@.len() == i,
            forall|j: int|
                0 <= j < i ==> ((#[trigger] entries[j]).kind.object_kind() matches Some(k)
                    && entries[j].id == object_id(k, entries[j].data)),
            forall|j: int|
                0 <= j < i ==> {
                    let e = #[trigger] entries[j];
                    &&& e.kind.object_kind() is Some
                    &&& stored@[j].id@ == e.id
                    &&& stored@[j].path@ == object_path(e.id)
                    &&& crate::codec::zlib_inflate(stored@[j].data@) == Some(
                        (
                            stored@[j].data@.len(),
                            object_frame(e.kind.object_kind()->Some_0, e.data),
                        ),
                    )
                },
        decreases entries.len() - i,
    {
        let entry: &Entry = &packfile.entries[i];
        assert(entries[i as int] == entry@);
        let kind = match entry.type_.to_object_kind() {
            Some(k) => k,
            None => {
                assert(!entry_kinds_ok(entries));
                assert(!entry_ids_ok(entries));
                return Err(GitError::Unsupported);
            },
        };
        let lo = store_object(kind, entry.data.as_slice())?;
        if lo.id != entry.sha1 {
            assert(!entry_ids_ok(entries));
            return Err(GitError::Corrupt);
        }
        stored.push(lo);
        i = i + 1;
    }
    assert(entry_ids_ok(entries));
    Ok(stored)
}

/// Where a checked-out entry goes: `base/name`, without a leading `/`.
pub open spec fn checkout_location(base: Seq<char>, name: Seq<char>) -> Seq<char> {
    let joined = base + "/"@ + name;
    if base.len() == 0 || base[0] == '/' {
        joined.drop_first()
    } else {
        joined
    }
}

/// The path of entry `name` of a tree checked out under `base`.
pub fn checkout_path(base: &String, name: &String) -> (r: String)
    ensures
        r@ == checkout_location(base@, name@),
{
    let mut joined = base.clone();
    joined.append("/");
    joined.append(name.as_str());
    proof {
        reveal_strlit("/");
    }
    let b = base.as_str();
    let leading_slash = if b.is_empty() {
        true
    } else {
        b.get_char(0) == '/'
    };
    if leading_slash {
        let s = joined.as_str();
        let n = s.unicode_len();
        assert(joined@.len() >= 1);
        let rest = s.substring_char(1, n);
        assert(rest@ =~= joined@.drop_first());
        rest.to_owned()
    } else {
        joined
    }
}

} // verus!
