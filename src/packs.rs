//! Packfile decoding: the `PACK` header, entry headers with their size
//! varints, zlib-compressed full objects, and REF_DELTA entries rebuilt from
//! copy/insert instructions against a base resolved earlier in the same pack.

use crate::codec::{hex_text, to_hex, zlib_decompress, zlib_inflate};
use crate::error::GitError;
use crate::objects::{calculate_object_hash, object_id, GitObjectType};
use vstd::arithmetic::power2::{lemma2_to64, lemma_pow2_unfold, pow2};
use vstd::prelude::*;

verus! {

/// The object types that a pack entry header can declare.
#[derive(Debug, Clone, Copy, PartialEq, Eq, Structural)]
pub enum ObjectType {
    Commit,
    Tree,
    Blob,
    Tag,
    OfsDelta,
    RefDelta,
}

impl ObjectType {
    /// The type that the three type bits `b` of an entry header declare.
    pub open spec fn spec_from_u8(b: u8) -> Option<ObjectType> {
        if b == 1 {
            Some(ObjectType::Commit)
        } else if b == 2 {
            Some(ObjectType::Tree)
        } else if b == 3 {
            Some(ObjectType::Blob)
        } else if b == 4 {
            Some(ObjectType::Tag)
        } else if b == 6 {
            Some(ObjectType::OfsDelta)
        } else if b == 7 {
            Some(ObjectType::RefDelta)
        } else {
            None
        }
    }

    pub fn from_u8(b: u8) -> (r: Option<ObjectType>)
        ensures
            r == ObjectType::spec_from_u8(b),
    {
        match b {
            1 => Some(ObjectType::Commit),
            2 => Some(ObjectType::Tree),
            3 => Some(ObjectType::Blob),
            4 => Some(ObjectType::Tag),
            6 => Some(ObjectType::OfsDelta),
            7 => Some(ObjectType::RefDelta),
            _ => None,
        }
    }

    pub open spec fn spec_name(self) -> Seq<char> {
        match self {
            ObjectType::Commit => "commit"@,
            ObjectType::Tree => "tree"@,
            ObjectType::Blob => "blob"@,
            ObjectType::Tag => "tag"@,
            ObjectType::OfsDelta => "ofs-delta"@,
            ObjectType::RefDelta => "ref-delta"@,
        }
    }

    /// The type's name.
    pub fn name(&self) -> (r: &'static str)
        ensures
            r@ == self.spec_name(),
    {
        match self {
            ObjectType::Commit => "commit",
            ObjectType::Tree => "tree",
            ObjectType::Blob => "blob",
            ObjectType::Tag => "tag",
            ObjectType::OfsDelta => "ofs-delta",
            ObjectType::RefDelta => "ref-delta",
        }
    }

    /// The loose-object kind of a commit, tree or blob.
    pub open spec fn object_kind(self) -> Option<GitObjectType> {
        match self {
            ObjectType::Commit => Some(GitObjectType::Commit),
            ObjectType::Tree => Some(GitObjectType::Tree),
            ObjectType::Blob => Some(GitObjectType::Blob),
            _ => None,
        }
    }

    pub fn to_object_kind(&self) -> (r: Option<GitObjectType>)
        ensures
            r == self.object_kind(),
    {
        match self {
            ObjectType::Commit => Some(GitObjectType::Commit),
            ObjectType::Tree => Some(GitObjectType::Tree),
            ObjectType::Blob => Some(GitObjectType::Blob),
            _ => None,
        }
    }
}

/// The kind under which a resolved entry is hashed (entries hold commits,
/// trees and blobs only).
pub open spec fn hash_kind(t: ObjectType) -> GitObjectType {
    match t {
        ObjectType::Commit => GitObjectType::Commit,
        ObjectType::Tree => GitObjectType::Tree,
        _ => GitObjectType::Blob,
    }
}

fn to_hash_kind(t: ObjectType) -> (r: GitObjectType)
    ensures
        r == hash_kind(t),
{
    match t {
        ObjectType::Commit => GitObjectType::Commit,
        ObjectType::Tree => GitObjectType::Tree,
        _ => GitObjectType::Blob,
    }
}

/// A resolved pack entry: its kind and declared size (both inherited from the
/// base for a delta), its id recomputed from kind and content, and its content.
pub struct Entry {
    pub type_: ObjectType,
    pub size: usize,
    pub sha1: String,
    pub data: Vec<u8>,
}

pub struct EntryModel {
    pub kind: ObjectType,
    pub size: nat,
    pub id: Seq<char>,
    pub data: Seq<u8>,
}

impl View for Entry {
    type V = EntryModel;

    open spec fn view(&self) -> EntryModel {
        EntryModel { kind: self.type_, size: self.size as nat, id: self.sha1@, data: self.data@ }
    }
}

pub open spec fn entries_view(v: Seq<Entry>) -> Seq<EntryModel> {
    v.map_values(|e: Entry| e@)
}

/// A decoded packfile: the trailing checksum as hex, and the resolved entries
/// in the order in which they first appear.
pub struct Packfile {
    pub sha1: String,
    pub entries: Vec<Entry>,
}

pub struct PackModel {
    pub checksum: Seq<char>,
    pub entries: Seq<EntryModel>,
}

impl View for Packfile {
    type V = PackModel;

    open spec fn view(&self) -> PackModel {
        PackModel { checksum: self.sha1@, entries: entries_view(self.entries@) }
    }
}

// ---------------------------------------------------------------------------
// Size varints

/// The continuation bytes from `pos` on: each gives its low seven bits at
/// `weight`, then `128 * weight`, and so on until a byte with the high bit
/// clear. Yields the end position and the value of those chunks.
pub open spec fn varint_tail(data: Seq<u8>, pos: int, weight: nat) -> Option<(int, nat)>
    decreases data.len() - pos,
{
    if pos < 0 || pos >= data.len() {
        None
    } else {
        let chunk = (data[pos] % 128) as nat * weight;
        if data[pos] < 128 {
            Some((pos + 1, chunk))
        } else {
            match varint_tail(data, pos + 1, weight * 128) {
                Some((end, v)) => Some((end, chunk + v)),
                None => None,
            }
        }
    }
}

/// The varint at `ix` read without bound: the low `shift` bits of the first
/// byte, then seven bits from each continuation byte, least significant chunk
/// first.
pub open spec fn varint_value(data: Seq<u8>, ix: int, shift: nat) -> Option<(int, nat)> {
    if ix < 0 || ix >= data.len() {
        None
    } else {
        let low = (data[ix] as nat) % pow2(shift);
        if data[ix] < 128 {
            Some((ix + 1, low))
        } else {
            match varint_tail(data, ix + 1, pow2(shift)) {
                Some((end, v)) => Some((end, low + v)),
                None => None,
            }
        }
    }
}

/// The varint at `ix`, when it ends within `data` and its value fits in a
/// `usize`: its end position and its value.
pub open spec fn varint(data: Seq<u8>, ix: int, shift: nat) -> Option<(int, nat)> {
    match varint_value(data, ix, shift) {
        Some((end, v)) => if v <= usize::MAX {
            Some((end, v))
        } else {
            None
        },
        None => None,
    }
}

/// Decodes the size varint at `ix`; returns the number of bytes it took and
/// its value.
pub fn parse_size_encoding(data: &[u8], ix: usize, starting_shift: u8) -> (r: Result<
    (usize, usize),
    GitError,
>)
    requires
        starting_shift <= 7,
    ensures
        r is Ok <==> varint(data@, ix as int, starting_shift as nat) is Some,
        r matches Ok((n, v)) ==> varint(data@, ix as int, starting_shift as nat) == Some(
            (ix + n, v as nat),
        ),
        r matches Ok((n, v)) ==> 1 <= n && ix + n <= data@.len(),
        r matches Err(e) ==> e == GitError::Corrupt,
{
    if ix >= data.len() {
        return Err(GitError::Corrupt);
    }
    proof {
        lemma2_to64();
    }
    let mut weight: usize = 1;
    let mut k: u8 = 0;
    while k < starting_shift
        invariant
            k <= starting_shift <= 7,
            weight == pow2(k as nat),
            pow2(7) == 128,
        decreases starting_shift - k,
    {
        proof {
            lemma_pow2_unfold((k + 1) as nat);
            lemma2_to64();
        }
        weight = weight * 2;
        k = k + 1;
    }
    let first = data[ix];
    let mut value: usize = (first as usize) % weight;
    if first < 128 {
        return Ok((1, value));
    }
    let ghost w: nat = weight as nat;
    let mut wide = false;
    let mut pos: usize = ix + 1;
    loop
        invariant
            ix < pos <= data@.len(),
            w > 0,
            !wide ==> weight as nat == w,
            wide ==> w > usize::MAX,
            varint_value(data@, ix as int, starting_shift as nat) == match varint_tail(
                data@,
                pos as int,
                w,
            ) {
                Some((end, v)) => Some((end, (value + v) as nat)),
                None => None,
            },
        decreases data@.len() - pos,
    {
        if pos >= data.len() {
            return Err(GitError::Corrupt);
        }
        let b = data[pos];
        let low7 = (b % 128) as usize;
        let ghost before = value;
        if low7 != 0 {
            if wide {
                assert(low7 * w >= w) by (nonlinear_arith)
                    requires
                        low7 >= 1,
                ;
                return Err(GitError::Corrupt);
            }
            let chunk = match low7.checked_mul(weight) {
                Some(c) => c,
                None => {
                    return Err(GitError::Corrupt);
                },
            };
            value = match value.checked_add(chunk) {
                Some(v) => v,
                None => {
                    return Err(GitError::Corrupt);
                },
            };
        }
        assert(value as nat == before + (b % 128) as nat * w) by {
            if low7 == 0 {
                assert((b % 128) as nat == 0);
                assert((b % 128) as nat * w == 0) by (nonlinear_arith)
                    requires
                        (b % 128) as nat == 0,
                ;
            }
        }
        if b < 128 {
            return Ok((pos + 1 - ix, value));
        }
        if !wide {
            match weight.checked_mul(128) {
                Some(next) => {
                    weight = next;
                },
                None => {
                    wide = true;
                },
            }
        }
        proof {
            w = w * 128;
        }
        pos = pos + 1;
    }
}

// ---------------------------------------------------------------------------
// Delta instructions

/// How many operand bytes the low `n` bits of `flags` select.
pub open spec fn operand_count(flags: nat, n: nat) -> nat
    decreases n,
{
    if n == 0 {
        0
    } else {
        flags % 2 + operand_count(flags / 2, (n - 1) as nat)
    }
}

/// The little-endian value whose byte `k` is present (read in turn from
/// `pos` on) when bit `k` of `flags` is set, and zero otherwise.
pub open spec fn operand_value(instr: Seq<u8>, pos: int, flags: nat, n: nat) -> nat
    decreases n,
{
    if n == 0 {
        0
    } else if flags % 2 == 1 {
        instr[pos] as nat + 256 * operand_value(instr, pos + 1, flags / 2, (n - 1) as nat)
    } else {
        256 * operand_value(instr, pos, flags / 2, (n - 1) as nat)
    }
}

pub open spec fn byte_range(n: nat) -> nat
    decreases n,
{
    if n == 0 {
        1
    } else {
        256 * byte_range((n - 1) as nat)
    }
}

/// Runs the instructions from `pos` on, with `out` built so far. A copy
/// opcode (high bit set) takes up to four offset bytes (bits 0-3) and up to
/// three size bytes (bits 4-6) and appends that range of the base; an insert
/// opcode `b` (1 to 127) appends the next `b` instruction bytes.
pub open spec fn delta_from(instr: Seq<u8>, base: Seq<u8>, pos: int, out: Seq<u8>) -> Option<
    Seq<u8>,
>
    decreases instr.len() - pos,
{
    if pos < 0 || pos >= instr.len() {
        Some(out)
    } else {
        let op = instr[pos];
        if op >= 128 {
            let oflags = (op % 16) as nat;
            let sflags = (op / 16 % 8) as nat;
            let sstart = pos + 1 + operand_count(oflags, 4);
            let next = sstart + operand_count(sflags, 3);
            if next > instr.len() {
                None
            } else {
                let offset = operand_value(instr, pos + 1, oflags, 4);
                let size = operand_value(instr, sstart, sflags, 3);
                if offset + size > base.len() {
                    None
                } else {
                    delta_from(instr, base, next, out + base.subrange(offset as int, (offset + size) as int))
                }
            }
        } else if op == 0 {
            None
        } else {
            let next = pos + 1 + op;
            if next > instr.len() {
                None
            } else {
                delta_from(instr, base, next, out + instr.subrange(pos + 1, next))
            }
        }
    }
}

/// What a delta's instructions build from `base`, if they run cleanly and
/// build exactly `target_size` bytes.
pub open spec fn delta_target(instr: Seq<u8>, base: Seq<u8>, target_size: nat) -> Option<Seq<u8>> {
    match delta_from(instr, base, 0, Seq::empty()) {
        Some(t) => if t.len() == target_size {
            Some(t)
        } else {
            None
        },
        None => None,
    }
}

fn count_operands(flags: u8, n: u8) -> (r: usize)
    requires
        n <= 8,
    ensures
        r == operand_count(flags as nat, n as nat),
        r <= n,
    decreases n,
{
    if n == 0 {
        0
    } else {
        let rest = count_operands(flags / 2, n - 1);
        (flags % 2) as usize + rest
    }
}

proof fn lemma_byte_range_small(n: nat)
    requires
        n <= 3,
    ensures
        byte_range(n) <= 0x100_0000,
{
    assert(byte_range(0) == 1);
    assert(byte_range(1) == 0x100);
    assert(byte_range(2) == 0x1_0000);
    assert(byte_range(3) == 0x100_0000);
}

fn read_operand(instr: &[u8], pos: usize, flags: u8, n: u8) -> (r: usize)
    requires
        n <= 4,
        pos + operand_count(flags as nat, n as nat) <= instr@.len(),
    ensures
        r == operand_value(instr@, pos as int, flags as nat, n as nat),
        r < byte_range(n as nat),
    decreases n,
{
    if n == 0 {
        return 0;
    }
    proof {
        lemma_byte_range_small((n - 1) as nat);
        assert(operand_count(flags as nat, n as nat) == (flags % 2) as nat + operand_count(
            (flags / 2) as nat,
            (n - 1) as nat,
        ));
    }
    let len = instr.len();
    if flags % 2 == 1 {
        assert(pos < len);
        let rest = read_operand(instr, pos + 1, flags / 2, n - 1);
        instr[pos] as usize + 256 * rest
    } else {
        let rest = read_operand(instr, pos, flags / 2, n - 1);
        256 * rest
    }
}

/// Rebuilds a delta's target from its instruction stream `data` and the base
/// bytes `source_buf`; fails with `Corrupt` on a malformed instruction, a copy
/// outside the base, or a result whose length is not `target_size`.
pub fn apply_delta(data: &[u8], source_buf: &[u8], target_size: usize) -> (r: Result<
    Vec<u8>,
    GitError,
>)
    ensures
        r is Ok <==> delta_target(data@, source_buf@, target_size as nat) is Some,
        r matches Ok(t) ==> delta_target(data@, source_buf@, target_size as nat) == Some(t@),
        r matches Err(e) ==> e == GitError::Corrupt,
{
    let mut pos: usize = 0;
    let mut target_buf: Vec<u8> = Vec::new();
    while pos < data.len()
        invariant
            pos <= data@.len(),
            delta_from(data@, source_buf@, 0, Seq::empty()) == delta_from(
                data@,
                source_buf@,
                pos as int,
                target_buf@,
            ),
        decreases data@.len() - pos,
    {
        let b = data[pos];
        if b >= 128 {
            let oflags = b % 16;
            let sflags = b / 16 % 8;
            let ocount = count_operands(oflags, 4);
            let scount = count_operands(sflags, 3);
            if data.len() - pos - 1 < ocount + scount {
                return Err(GitError::Corrupt);
            }
            let offset = read_operand(data, pos + 1, oflags, 4);
            let size = read_operand(data, pos + 1 + ocount, sflags, 3);
            if offset > source_buf.len() || size > source_buf.len() - offset {
                return Err(GitError::Corrupt);
            }
            let ghost before = target_buf@;
            target_buf.extend_from_slice(&source_buf[offset..offset + size]);
            assert(target_buf@ == before + source_buf@.subrange(
                offset as int,
                (offset + size) as int,
            ));
            pos = pos + 1 + ocount + scount;
        } else if b == 0 {
            return Err(GitError::Corrupt);
        } else {
            let n = b as usize;
            if data.len() - pos - 1 < n {
                return Err(GitError::Corrupt);
            }
            let ghost before = target_buf@;
            target_buf.extend_from_slice(&data[pos + 1..pos + 1 + n]);
            assert(target_buf@ == before + data@.subrange(pos + 1, pos + 1 + n));
            pos = pos + 1 + n;
        }
    }
    if target_buf.len() != target_size {
        return Err(GitError::Corrupt);
    }
    Ok(target_buf)
}

// ---------------------------------------------------------------------------
// Entries

/// The first entry at or after `i` whose id is `id`.
pub open spec fn find_from(resolved: Seq<EntryModel>, id: Seq<char>, i: int) -> Option<int>
    decreases resolved.len() - i,
{
    if i < 0 || i >= resolved.len() {
        None
    } else if resolved[i].id == id {
        Some(i)
    } else {
        find_from(resolved, id, i + 1)
    }
}

/// Where the entry with id `id` stands among those resolved so far.
pub open spec fn find_entry(resolved: Seq<EntryModel>, id: Seq<char>) -> Option<int> {
    find_from(resolved, id, 0)
}

/// Adds an entry to the resolved ones unless its id is there already.
pub open spec fn insert_resolved(resolved: Seq<EntryModel>, e: EntryModel) -> Seq<EntryModel> {
    if find_entry(resolved, e.id) is Some {
        resolved
    } else {
        resolved.push(e)
    }
}

/// A REF_DELTA entry whose header ends at `p`: the 20-byte base id, then a
/// zlib stream holding the source size, the target size and the instructions.
pub open spec fn delta_entry(data: Seq<u8>, p: int, resolved: Seq<EntryModel>) -> Result<
    (int, EntryModel),
    GitError,
> {
    if p + 20 > data.len() {
        Err(GitError::Corrupt)
    } else {
        let base_id = hex_text(data.subrange(p, p + 20));
        match zlib_inflate(data.subrange(p + 20, data.len() as int)) {
            None => Err(GitError::Corrupt),
            Some((n, delta)) => match varint(delta, 0, 7) {
                None => Err(GitError::Corrupt),
                Some((q, source_len)) => match varint(delta, q, 7) {
                    None => Err(GitError::Corrupt),
                    Some((q2, target_len)) => match find_entry(resolved, base_id) {
                        None => Err(GitError::MissingBase),
                        Some(i) => {
                            let base = resolved[i];
                            if base.data.len() != source_len {
                                Err(GitError::Corrupt)
                            } else {
                                match delta_target(
                                    delta.subrange(q2, delta.len() as int),
                                    base.data,
                                    target_len,
                                ) {
                                    None => Err(GitError::Corrupt),
                                    Some(t) => Ok(
                                        (
                                            p + 20 + n,
                                            EntryModel {
                                                kind: base.kind,
                                                size: base.size,
                                                id: object_id(hash_kind(base.kind), t),
                                                data: t,
                                            },
                                        ),
                                    ),
                                }
                            }
                        },
                    },
                },
            },
        }
    }
}

/// The entry at `ix`: its header byte gives the type in bits 4-6 and starts
/// the size varint; a full object follows as a zlib stream, a REF_DELTA as
/// `delta_entry` reads it. Tags and OFS_DELTA entries are refused.
pub open spec fn entry_step(data: Seq<u8>, ix: int, resolved: Seq<EntryModel>) -> Result<
    (int, EntryModel),
    GitError,
> {
    if ix < 0 || ix >= data.len() {
        Err(GitError::Corrupt)
    } else {
        match ObjectType::spec_from_u8(data[ix] / 16 % 8) {
            None => Err(GitError::Corrupt),
            Some(t) => if t == ObjectType::Tag || t == ObjectType::OfsDelta {
                Err(GitError::Unsupported)
            } else {
                match varint(data, ix, 4) {
                    None => Err(GitError::Corrupt),
                    Some((p, size)) => if t == ObjectType::RefDelta {
                        delta_entry(data, p, resolved)
                    } else {
                        match zlib_inflate(data.subrange(p, data.len() as int)) {
                            None => Err(GitError::Corrupt),
                            Some((n, content)) => Ok(
                                (
                                    p + n,
                                    EntryModel {
                                        kind: t,
                                        size,
                                        id: object_id(hash_kind(t), content),
                                        data: content,
                                    },
                                ),
                            ),
                        }
                    },
                }
            },
        }
    }
}

/// `count` entries from `pos` on, each resolved against those before it; an
/// entry may not start inside the 20-byte checksum that ends the data.
pub open spec fn pack_entries(
    data: Seq<u8>,
    pos: int,
    count: nat,
    resolved: Seq<EntryModel>,
) -> Result<(int, Seq<EntryModel>), GitError>
    decreases count,
{
    if count == 0 {
        Ok((pos, resolved))
    } else if pos + 20 >= data.len() {
        Err(GitError::Corrupt)
    } else {
        match entry_step(data, pos, resolved) {
            Err(e) => Err(e),
            Ok((next, e)) => pack_entries(data, next, (count - 1) as nat, insert_resolved(resolved, e)),
        }
    }
}

/// `"PACK"`
pub open spec fn pack_magic() -> Seq<u8> {
    seq![80u8, 65u8, 67u8, 75u8]
}

pub open spec fn be32(data: Seq<u8>, i: int) -> nat {
    (data[i] as nat) * 0x100_0000 + (data[i + 1] as nat) * 0x1_0000 + (data[i + 2] as nat) * 0x100
        + (data[i + 3] as nat)
}

/// The whole packfile: magic, version 2, entry count, the entries, and a
/// 20-byte checksum that ends the data. The entries must resolve to as many
/// distinct objects as the header counts.
pub open spec fn decode_pack(data: Seq<u8>) -> Result<PackModel, GitError> {
    if data.len() < 12 || data.subrange(0, 4) != pack_magic() || be32(data, 4) != 2 {
        Err(GitError::Corrupt)
    } else {
        match pack_entries(data, 12, be32(data, 8), Seq::empty()) {
            Err(e) => Err(e),
            Ok((end, entries)) => if end + 20 != data.len() || entries.len() != be32(data, 8) {
                Err(GitError::Corrupt)
            } else {
                Ok(PackModel { checksum: hex_text(data.subrange(end, end + 20)), entries })
            },
        }
    }
}

/// The index of the resolved entry whose id is `id`.
fn lookup_entry(resolved: &Vec<Entry>, id: &String) -> (r: Option<usize>)
    ensures
        find_entry(entries_view(resolved@), id@) == match r {
            Some(i) => Some(i as int),
            None => None,
        },
        r matches Some(i) ==> i < resolved@.len(),
{
    let ghost view = entries_view(resolved@);
    let mut i: usize = 0;
    while i < resolved.len()
        invariant
            i <= resolved@.len(),
            view == entries_view(resolved@),
            find_entry(view, id@) == find_from(view, id@, i as int),
        decreases resolved@.len() - i,
    {
        assert(view[i as int] == resolved@[i as int]@);
        if resolved[i].sha1 == *id {
            return Some(i);
        }
        i = i + 1;
    }
    None
}

/// Hex of the 20 bytes at `ix`.
fn read_hash(data: &[u8], ix: usize) -> (r: String)
    requires
        ix + 20 <= data@.len(),
    ensures
        r@ == hex_text(data@.subrange(ix as int, ix + 20)),
{
    let len = data.len();
    assert(ix + 20 <= len);
    to_hex(&data[ix..ix + 20])
}

/// Decodes the REF_DELTA entry whose header ends at `p`.
fn parse_delta_entry(data: &[u8], p: usize, resolved: &Vec<Entry>) -> (r: Result<
    (usize, Entry),
    GitError,
>)
    requires
        p <= data@.len(),
    ensures
        delta_entry(data@, p as int, entries_view(resolved@)) == match r {
            Ok((next, e)) => Ok((next as int, e@)),
            Err(e) => Err(e),
        },
        r matches Ok((next, e)) ==> next <= data@.len(),
{
    if data.len() - p < 20 {
        return Err(GitError::Corrupt);
    }
    let base_id = read_hash(data, p);
    let rest = &data[p + 20..data.len()];
    let (consumed, delta) = match zlib_decompress(rest) {
        Some(pair) => pair,
        None => {
            return Err(GitError::Corrupt);
        },
    };
    let (source_bytes, source_len) = parse_size_encoding(delta.as_slice(), 0, 7)?;
    let (target_bytes, target_len) = parse_size_encoding(delta.as_slice(), source_bytes, 7)?;
    let idx = match lookup_entry(resolved, &base_id) {
        Some(i) => i,
        None => {
            return Err(GitError::MissingBase);
        },
    };
    let base = &resolved[idx];
    assert(entries_view(resolved@)[idx as int] == base@);
    if base.data.len() != source_len {
        return Err(GitError::Corrupt);
    }
    let header_bytes_read = source_bytes + target_bytes;
    let instructions = &delta.as_slice()[header_bytes_read..delta.len()];
    let deltified = apply_delta(instructions, base.data.as_slice(), target_len)?;
    let kind = to_hash_kind(base.type_);
    let sha1 = calculate_object_hash(kind, deltified.as_slice());
    let entry = Entry { type_: base.type_, size: base.size, sha1, data: deltified };
    Ok((p + 20 + consumed, entry))
}

/// Decodes the entry at `ix` against the entries resolved before it.
fn parse_entry(data: &[u8], ix: usize, resolved: &Vec<Entry>) -> (r: Result<
    (usize, Entry),
    GitError,
>)
    requires
        ix <= data@.len(),
    ensures
        entry_step(data@, ix as int, entries_view(resolved@)) == match r {
            Ok((next, e)) => Ok((next as int, e@)),
            Err(e) => Err(e),
        },
        r matches Ok((next, e)) ==> next <= data@.len(),
{
    if ix >= data.len() {
        return Err(GitError::Corrupt);
    }
    let object_type = match ObjectType::from_u8(data[ix] / 16 % 8) {
        Some(t) => t,
        None => {
            return Err(GitError::Corrupt);
        },
    };
    match object_type {
        ObjectType::Tag | ObjectType::OfsDelta => {
            return Err(GitError::Unsupported);
        },
        _ => {},
    }
    let (bytes_read, size) = parse_size_encoding(data, ix, 4)?;
    let p = ix + bytes_read;
    match object_type {
        ObjectType::RefDelta => parse_delta_entry(data, p, resolved),
        _ => {
            let (consumed, content) = match zlib_decompress(&data[p..data.len()]) {
                Some(pair) => pair,
                None => {
                    return Err(GitError::Corrupt);
                },
            };
            let kind = to_hash_kind(object_type);
            let sha1 = calculate_object_hash(kind, content.as_slice());
            let entry = Entry { type_: object_type, size, sha1, data: content };
            Ok((p + consumed, entry))
        },
    }
}

/// Decodes `count` entries from `start` on; returns where they end and the
/// resolved entries, each id once, in order of first appearance.
pub fn parse_entries(data: &[u8], start: usize, count: u32) -> (r: Result<(usize, Vec<Entry>), GitError>)
    requires
        start <= data@.len(),
    ensures
        pack_entries(data@, start as int, count as nat, Seq::empty()) == match r {
            Ok((end, v)) => Ok((end as int, entries_view(v@))),
            Err(e) => Err(e),
        },
        r matches Ok((end, v)) ==> end <= data@.len(),
{
    let mut byhash: Vec<Entry> = Vec::new();
    let mut ix = start;
    let mut i: u32 = 0;
    assert(entries_view(byhash@) =~= Seq::empty());
    while i < count
        invariant
            i <= count,
            ix <= data@.len(),
            pack_entries(data@, start as int, count as nat, Seq::empty()) == pack_entries(
                data@,
                ix as int,
                (count - i) as nat,
                entries_view(byhash@),
            ),
        decreases count - i,
    {
        if data.len() - ix <= 20 {
            return Err(GitError::Corrupt);
        }
        let (next, entry) = parse_entry(data, ix, &byhash)?;
        let ghost e = entry@;
        let ghost before = entries_view(byhash@);
        match lookup_entry(&byhash, &entry.sha1) {
            Some(_) => {},
            None => {
                byhash.push(entry);
                assert(entries_view(byhash@) =~= before.push(e));
            },
        }
        assert(entries_view(byhash@) == insert_resolved(before, e));
        ix = next;
        i = i + 1;
    }
    Ok((ix, byhash))
}

fn read_be32(data: &[u8], i: usize) -> (r: u32)
    requires
        i + 4 <= data@.len(),
    ensures
        r as nat == be32(data@, i as int),
{
    (data[i] as u32) * 0x100_0000 + (data[i + 1] as u32) * 0x1_0000 + (data[i + 2] as u32) * 0x100
        + (data[i + 3] as u32)
}

/// Checks the magic and version of a pack header; returns the entry count.
fn parse_header(data: &[u8]) -> (r: Result<u32, GitError>)
    requires
        data@.len() >= 12,
    ensures
        r is Ok <==> data@.subrange(0, 4) == pack_magic() && be32(data@, 4) == 2,
        r matches Ok(n) ==> n as nat == be32(data@, 8),
        r matches Err(e) ==> e == GitError::Corrupt,
{
    let magic = data[0] == 80u8 && data[1] == 65u8 && data[2] == 67u8 && data[3] == 75u8;
    assert(magic <==> data@.subrange(0, 4) =~= pack_magic());
    if !magic {
        return Err(GitError::Corrupt);
    }
    let version = read_be32(data, 4);
    if version != 2 {
        return Err(GitError::Corrupt);
    }
    Ok(read_be32(data, 8))
}

/// Decodes a packfile: every entry in stream order, each REF_DELTA against a
/// base resolved earlier in the same pack.
pub fn parse_packfile(data: &[u8]) -> (r: Result<Packfile, GitError>)
    ensures
        decode_pack(data@) == match r {
            Ok(p) => Ok(p@),
            Err(e) => Err(e),
        },
{
    if data.len() < 12 {
        return Err(GitError::Corrupt);
    }
    let objects = parse_header(data)?;
    let (end, entries) = parse_entries(data, 12, objects)?;
    if data.len() - end != 20 || entries.len() != objects as usize {
        return Err(GitError::Corrupt);
    }
    let packhash = read_hash(data, end);
    Ok(Packfile { sha1: packhash, entries })
}

// ---------------------------------------------------------------------------
// Laws

/// A copy of bytes 2..7 of the base followed by an insert of `"XY"` builds
/// exactly `base[2..7] + "XY"`, and a declared target size other than seven
/// makes the delta fail.
pub proof fn lemma_copy_then_insert(base: Seq<u8>, target_size: nat)
    requires
        base.len() >= 7,
    ensures
        delta_target(seq![0x91u8, 2u8, 5u8, 2u8, 88u8, 89u8], base, 7) == Some(
            base.subrange(2, 7) + seq![88u8, 89u8],
        ),
        target_size != 7 ==> delta_target(seq![0x91u8, 2u8, 5u8, 2u8, 88u8, 89u8], base, target_size)
            is None,
{
    let instr = seq![0x91u8, 2u8, 5u8, 2u8, 88u8, 89u8];
    reveal_with_fuel(operand_count, 5);
    reveal_with_fuel(operand_value, 5);
    assert(operand_count(1, 4) == 1);
    assert(operand_count(1, 3) == 1);
    assert(operand_value(instr, 1, 1, 4) == 2);
    assert(operand_value(instr, 2, 1, 3) == 5);
    let copied = base.subrange(2, 7);
    assert(Seq::<u8>::empty() + copied =~= copied);
    assert(instr.subrange(4, 6) =~= seq![88u8, 89u8]);
    assert(delta_from(instr, base, 6, copied + seq![88u8, 89u8]) == Some(
        copied + seq![88u8, 89u8],
    ));
    assert(delta_from(instr, base, 3, copied) == delta_from(
        instr,
        base,
        6,
        copied + seq![88u8, 89u8],
    ));
    assert(delta_from(instr, base, 0, Seq::empty()) == delta_from(instr, base, 3, copied));
    assert((copied + seq![88u8, 89u8]).len() == 7);
}

/// A well-formed REF_DELTA entry whose base id is not among the entries
/// resolved so far fails with `MissingBase`.
/// (`p` is where the entry header ends, `delta` the inflated instruction
/// stream, which starts with two well-formed size varints.)
pub proof fn lemma_missing_base(
    data: Seq<u8>,
    ix: int,
    resolved: Seq<EntryModel>,
    p: int,
    delta: Seq<u8>,
)
    requires
        0 <= ix < data.len(),
        data[ix] / 16 % 8 == 7,
        varint(data, ix, 4) matches Some((end, _)) && end == p,
        p + 20 <= data.len(),
        zlib_inflate(data.subrange(p + 20, data.len() as int)) matches Some((_, d)) && d == delta,
        varint(delta, 0, 7) matches Some((q, _)) && varint(delta, q, 7) is Some,
        find_entry(resolved, hex_text(data.subrange(p, p + 20))) is None,
    ensures
        entry_step(data, ix, resolved) == Err::<(int, EntryModel), GitError>(
            GitError::MissingBase,
        ),
{
}

/// An entry header that declares OFS_DELTA fails with `Unsupported`, and so
/// does a pack whose first entry is one (and starts before the checksum).
pub proof fn lemma_ofs_delta_unsupported(data: Seq<u8>, ix: int, resolved: Seq<EntryModel>)
    requires
        0 <= ix < data.len(),
        data[ix] / 16 % 8 == 6,
    ensures
        entry_step(data, ix, resolved) == Err::<(int, EntryModel), GitError>(
            GitError::Unsupported,
        ),
        ix == 12 && data.len() > 32 && data.subrange(0, 4) == pack_magic() && be32(data, 4) == 2
            && be32(data, 8) >= 1 ==> decode_pack(data) == Err::<PackModel, GitError>(
            GitError::Unsupported,
        ),
{
    if ix == 12 && data.len() > 32 && data.subrange(0, 4) == pack_magic() && be32(data, 4) == 2
        && be32(data, 8) >= 1 {
        assert(pack_entries(data, 12, be32(data, 8), Seq::empty()) == Err::<
            (int, Seq<EntryModel>),
            GitError,
        >(GitError::Unsupported));
    }
}

} // verus!
