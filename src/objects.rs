//! Loose objects: kinds, the `"<kind> <len>\0"` framing, ids, on-disk paths,
//! and the compressed form in which objects are stored and loaded.

use crate::codec::{
    bytes_equal, decimal, decimal_value, find_byte, hex_digit, hex_text, index_of, is_decimal,
    is_lower_hex_char, is_object_id, lemma_decimal_digits, lemma_decimal_value, lemma_index_of,
    parse_decimal, push_decimal, sha1_digest, sha1_of, to_hex, zlib_compress, zlib_decompress,
    zlib_inflate,
};
use crate::error::GitError;
use crate::tree::{parse_tree_data, tree_nodes};
use vstd::prelude::*;
use vstd::string::{StrSliceExecFns, StringExecFns, StringSliceAdditionalSpecFns};
use vstd::utf8::is_ascii_chars;

verus! {

/// The kinds of object that the store holds.
#[derive(Debug, Clone, Copy, PartialEq, Eq, Structural)]
pub enum GitObjectType {
    Blob,
    Tree,
    Commit,
}

impl GitObjectType {
    /// The lowercase type word, as ASCII bytes.
    pub open spec fn name_bytes(self) -> Seq<u8> {
        match self {
            GitObjectType::Blob => seq![98u8, 108u8, 111u8, 98u8],
            GitObjectType::Tree => seq![116u8, 114u8, 101u8, 101u8],
            GitObjectType::Commit => seq![99u8, 111u8, 109u8, 109u8, 105u8, 116u8],
        }
    }

    pub open spec fn spec_name(self) -> Seq<char> {
        match self {
            GitObjectType::Blob => "blob"@,
            GitObjectType::Tree => "tree"@,
            GitObjectType::Commit => "commit"@,
        }
    }

    /// The kind whose type word is `b`, if any.
    pub open spec fn from_name(b: Seq<u8>) -> Option<GitObjectType> {
        if b == GitObjectType::Blob.name_bytes() {
            Some(GitObjectType::Blob)
        } else if b == GitObjectType::Tree.name_bytes() {
            Some(GitObjectType::Tree)
        } else if b == GitObjectType::Commit.name_bytes() {
            Some(GitObjectType::Commit)
        } else {
            None
        }
    }

    /// The type word: `blob`, `tree` or `commit`.
    pub fn name(&self) -> (r: &'static str)
        ensures
            r@ == self.spec_name(),
    {
        match self {
            GitObjectType::Blob => "blob",
            GitObjectType::Tree => "tree",
            GitObjectType::Commit => "commit",
        }
    }

    /// Appends the type word to `out`.
    pub fn push_name(&self, out: &mut Vec<u8>)
        ensures
            final(out)@ == old(out)@ + self.name_bytes(),
    {
        match self {
            GitObjectType::Blob => {
                out.push(98u8);
                out.push(108u8);
                out.push(111u8);
                out.push(98u8);
            },
            GitObjectType::Tree => {
                out.push(116u8);
                out.push(114u8);
                out.push(101u8);
                out.push(101u8);
            },
            GitObjectType::Commit => {
                out.push(99u8);
                out.push(111u8);
                out.push(109u8);
                out.push(109u8);
                out.push(105u8);
                out.push(116u8);
            },
        }
        assert(final(out)@ =~= old(out)@ + self.name_bytes());
    }

    /// The kind whose type word is the bytes `b`.
    pub fn from_bytes(b: &[u8]) -> (r: Option<GitObjectType>)
        ensures
            r == GitObjectType::from_name(b@),
    {
        let mut word = Vec::new();
        GitObjectType::Blob.push_name(&mut word);
        if bytes_equal(b, word.as_slice()) {
            return Some(GitObjectType::Blob);
        }
        let mut word = Vec::new();
        GitObjectType::Tree.push_name(&mut word);
        if bytes_equal(b, word.as_slice()) {
            return Some(GitObjectType::Tree);
        }
        let mut word = Vec::new();
        GitObjectType::Commit.push_name(&mut word);
        if bytes_equal(b, word.as_slice()) {
            return Some(GitObjectType::Commit);
        }
        None
    }

    /// The kind whose type word is `string`.
    pub fn from_string(string: &str) -> (r: Option<GitObjectType>)
        ensures
            r == GitObjectType::from_name(string.spec_bytes()),
    {
        GitObjectType::from_bytes(string.as_bytes())
    }
}

/// The header that frames a payload of `len` bytes, without its NUL:
/// `"<kind> <len>"`.
pub open spec fn header_bytes(kind: GitObjectType, len: nat) -> Seq<u8> {
    kind.name_bytes() + seq![32u8] + decimal(len)
}

/// `"<kind> <len>\0" + payload`: the bytes that are hashed and stored.
pub open spec fn object_frame(kind: GitObjectType, payload: Seq<u8>) -> Seq<u8> {
    header_bytes(kind, payload.len()) + seq![0u8] + payload
}

/// The id of an object: the lowercase hex SHA-1 of its framed bytes.
pub open spec fn object_id(kind: GitObjectType, payload: Seq<u8>) -> Seq<char> {
    hex_text(sha1_of(object_frame(kind, payload)))
}

/// Frames `data` as an object of kind `type_`.
fn prepare_data(type_: GitObjectType, data: &[u8]) -> (r: Vec<u8>)
    ensures
        r@ == object_frame(type_, data@),
        data@.len() <= usize::MAX,
{
    let mut content: Vec<u8> = Vec::new();
    type_.push_name(&mut content);
    content.push(32u8);
    push_decimal(data.len(), &mut content);
    content.push(0u8);
    content.extend_from_slice(data);
    assert(content@ =~= object_frame(type_, data@));
    content
}

/// Hex of twenty bytes is an object id.
pub proof fn lemma_hex_text_is_id(b: Seq<u8>)
    requires
        b.len() == 20,
    ensures
        is_object_id(hex_text(b)),
{
    assert forall|i: int| 0 <= i < hex_text(b).len() implies is_lower_hex_char(
        #[trigger] hex_text(b)[i],
    ) by {
        let n: int = if i % 2 == 0 {
            b[i / 2] as int / 16
        } else {
            b[i / 2] as int % 16
        };
        assert(0 <= n < 16);
        assert(hex_text(b)[i] == hex_digit(n));
    }
}

/// Hex SHA-1 of already framed object bytes.
fn inner_calculate_object_hash(content: &[u8]) -> (r: String)
    ensures
        r@ == hex_text(sha1_of(content@)),
        is_object_id(r@),
{
    let digest = sha1_digest(content);
    proof {
        lemma_hex_text_is_id(digest@);
    }
    to_hex(digest.as_slice())
}

/// The id of an object of kind `type_` with payload `data`: forty lowercase
/// hex digits, a function of kind and payload alone.
pub fn calculate_object_hash(type_: GitObjectType, data: &[u8]) -> (r: String)
    ensures
        r@ == object_id(type_, data@),
        is_object_id(r@),
{
    let content = prepare_data(type_, data);
    inner_calculate_object_hash(content.as_slice())
}

/// Where an object lives, relative to the repository root:
/// `.git/objects/` + the first two hex digits + `/` + the other thirty-eight.
pub open spec fn object_path(id: Seq<char>) -> Seq<char> {
    ".git/objects/"@ + id.subrange(0, 2) + "/"@ + id.subrange(2, id.len() as int)
}

/// The path of the object with id `sha1digest`, relative to the repository root.
pub fn objstore_path(sha1digest: &String) -> (r: String)
    requires
        is_object_id(sha1digest@),
    ensures
        r@ == object_path(sha1digest@),
{
    let id = sha1digest.as_str();
    assert forall|i: int| 0 <= i < id@.len() implies '\0' <= #[trigger] id@[i] <= '\u{7f}' by {
        assert(is_lower_hex_char(id@[i]));
    }
    assert(is_ascii_chars(id@));
    let mut path = ".git/objects/".to_owned();
    path.append(id.substring_ascii(0, 2));
    path.append("/");
    path.append(id.substring_ascii(2, 40));
    path
}

/// Different object ids live at different paths.
pub proof fn lemma_object_path_injective(a: Seq<char>, b: Seq<char>)
    requires
        is_object_id(a),
        is_object_id(b),
        object_path(a) == object_path(b),
    ensures
        a == b,
{
    reveal_strlit(".git/objects/");
    reveal_strlit("/");
    let pa = object_path(a);
    let pb = object_path(b);
    assert forall|i: int| 0 <= i < 40 implies a[i] == b[i] by {
        if i < 2 {
            assert(pa[13 + i] == a[i]);
            assert(pb[13 + i] == b[i]);
        } else {
            assert(pa[14 + i] == a[i]);
            assert(pb[14 + i] == b[i]);
        }
    }
    assert(a =~= b);
}

/// An object as loaded from the store: its kind and its payload.
pub struct GitObject {
    pub type_: GitObjectType,
    pub data: Vec<u8>,
}

impl View for GitObject {
    type V = (GitObjectType, Seq<u8>);

    open spec fn view(&self) -> (GitObjectType, Seq<u8>) {
        (self.type_, self.data@)
    }
}

/// An object ready to be written to the store: its id, its path relative to
/// the repository root, and the zlib-compressed framed bytes to write there.
pub struct LooseObject {
    pub id: String,
    pub path: String,
    pub data: Vec<u8>,
}

/// Kind, declared length and payload of framed object bytes: the header
/// runs to the first NUL and reads `"<kind> <decimal length>"`.
pub open spec fn decode_frame(content: Seq<u8>) -> Option<(GitObjectType, nat, Seq<u8>)> {
    let nul = index_of(content, 0u8) as int;
    if nul >= content.len() {
        None
    } else {
        let header = content.subrange(0, nul);
        let payload = content.subrange(nul + 1, content.len() as int);
        let sp = index_of(header, 32u8) as int;
        if sp >= header.len() {
            None
        } else {
            let digits = header.subrange(sp + 1, header.len() as int);
            match GitObjectType::from_name(header.subrange(0, sp)) {
                Some(k) => if is_decimal(digits) && decimal_value(digits) <= usize::MAX {
                    Some((k, decimal_value(digits), payload))
                } else {
                    None
                },
                None => None,
            }
        }
    }
}

/// Kind and payload of a stored (compressed) object; a tree's payload must
/// decode as tree entries.
pub open spec fn decode_loose(raw: Seq<u8>) -> Option<(GitObjectType, Seq<u8>)> {
    match zlib_inflate(raw) {
        None => None,
        Some((_, content)) => match decode_frame(content) {
            Some((k, _, p)) => if k == GitObjectType::Tree && tree_nodes(p) is None {
                None
            } else {
                Some((k, p))
            },
            None => None,
        },
    }
}

/// Framing then unframing gives back kind and payload, and the declared
/// length is the payload's.
pub proof fn lemma_frame_round_trip(kind: GitObjectType, payload: Seq<u8>)
    requires
        payload.len() <= usize::MAX,
    ensures
        decode_frame(object_frame(kind, payload)) == Some((kind, payload.len(), payload)),
{
    let header = header_bytes(kind, payload.len());
    let content = object_frame(kind, payload);
    let name = kind.name_bytes();
    let digits = decimal(payload.len());
    lemma_decimal_digits(payload.len());
    lemma_decimal_value(payload.len());
    assert(header =~= name + seq![32u8] + digits);
    assert forall|j: int| 0 <= j < header.len() implies content[j] != 0u8 by {
        assert(content[j] == header[j]);
        if j > name.len() {
            assert(header[j] == digits[j - name.len() - 1]);
        }
    }
    lemma_index_of(content, 0u8, header.len() as int);
    assert(content.subrange(0, header.len() as int) =~= header);
    assert(content.subrange(header.len() as int + 1, content.len() as int) =~= payload);
    assert forall|j: int| 0 <= j < name.len() implies header[j] != 32u8 by {
        assert(header[j] == name[j]);
    }
    lemma_index_of(header, 32u8, name.len() as int);
    assert(header.subrange(0, name.len() as int) =~= name);
    assert(header.subrange(name.len() as int + 1, header.len() as int) =~= digits);
}

/// Reads the header of framed object bytes; returns where the payload
/// starts, the declared length and the object's kind.
fn parse_header(content: &[u8]) -> (r: Option<(usize, usize, GitObjectType)>)
    ensures
        r is None <==> decode_frame(content@) is None,
        r matches Some((start, size, k)) ==> start <= content@.len() && decode_frame(content@)
            == Some((k, size as nat, content@.subrange(start as int, content@.len() as int))),
{
    assert(content@.subrange(0, content@.len() as int) =~= content@);
    let nul = find_byte(content, 0, 0u8);
    if nul >= content.len() {
        return None;
    }
    let header = &content[0..nul];
    let sp = find_byte(header, 0, 32u8);
    assert(header@.subrange(0, header@.len() as int) =~= header@);
    if sp >= header.len() {
        return None;
    }
    let kind = match GitObjectType::from_bytes(&header[0..sp]) {
        Some(k) => k,
        None => {
            return None;
        },
    };
    let size = match parse_decimal(&header[sp + 1..nul]) {
        Some(n) => n,
        None => {
            return None;
        },
    };
    Some((nul + 1, size, kind))
}

/// Loads an object from its stored (compressed) bytes; fails with `Corrupt`
/// when they do not inflate, when the header is malformed or names an
/// unknown kind, or when a tree payload does not decode.
pub fn load_object(raw: &[u8]) -> (r: Result<GitObject, GitError>)
    ensures
        decode_loose(raw@) == match r {
            Ok(o) => Some(o@),
            Err(_) => None,
        },
        r matches Err(e) ==> e == GitError::Corrupt,
{
    let (consumed, buf) = match zlib_decompress(raw) {
        Some(pair) => pair,
        None => {
            return Err(GitError::Corrupt);
        },
    };
    assert(zlib_inflate(raw@) == Some((consumed as nat, buf@)));
    let (start, _size, type_) = match parse_header(buf.as_slice()) {
        Some(h) => h,
        None => {
            return Err(GitError::Corrupt);
        },
    };
    let mut data: Vec<u8> = Vec::new();
    data.extend_from_slice(&buf.as_slice()[start..buf.len()]);
    assert(data@ =~= buf@.subrange(start as int, buf@.len() as int));
    if type_ == GitObjectType::Tree {
        if parse_tree_data(data.as_slice()).is_none() {
            return Err(GitError::Corrupt);
        }
    }
    Ok(GitObject { type_, data })
}

/// Prepares an object for the store: its id, its path, and its compressed
/// framed bytes. Loading those bytes gives the object back whenever its
/// payload is a valid encoding of its kind.
pub fn store_object(type_: GitObjectType, data: &[u8]) -> (r: Result<LooseObject, GitError>)
    ensures
        r is Ok,
        r matches Ok(lo) ==> {
            &&& lo.id@ == object_id(type_, data@)
            &&& lo.path@ == object_path(lo.id@)
            &&& zlib_inflate(lo.data@) == Some((lo.data@.len(), object_frame(type_, data@)))
            &&& (type_ == GitObjectType::Tree ==> tree_nodes(data@) is Some) ==> decode_loose(
                lo.data@,
            ) == Some((type_, data@))
        },
{
    let data_to_write = prepare_data(type_, data);
    let sha1 = inner_calculate_object_hash(data_to_write.as_slice());
    let path = objstore_path(&sha1);
    let compressed = match zlib_compress(data_to_write.as_slice()) {
        Some(z) => z,
        None => Vec::new(),
    };
    proof {
        lemma_frame_round_trip(type_, data@);
    }
    Ok(LooseObject { id: sha1, path, data: compressed })
}

} // verus!
