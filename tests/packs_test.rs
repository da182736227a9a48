use std::io::Write;

use minigit::clone::{parse_upload_pack_response, store_pack_objects};
use minigit::error::GitError;
use minigit::objects::{calculate_object_hash, load_object, GitObjectType};
use minigit::packs::{apply_delta, parse_entries, parse_packfile, parse_size_encoding, ObjectType};

fn zlib(data: &[u8]) -> Vec<u8> {
    let mut e = flate2::write::ZlibEncoder::new(Vec::new(), flate2::Compression::default());
    e.write_all(data).unwrap();
    e.finish().unwrap()
}

fn entry_header(kind: u8, size: usize) -> Vec<u8> {
    let mut out = Vec::new();
    let mut b = (kind << 4) | (size & 0x0f) as u8;
    let mut rest = size >> 4;
    while rest > 0 {
        out.push(b | 0x80);
        b = (rest & 0x7f) as u8;
        rest >>= 7;
    }
    out.push(b);
    out
}

fn full_entry(kind: u8, data: &[u8]) -> Vec<u8> {
    let mut out = entry_header(kind, data.len());
    out.extend_from_slice(&zlib(data));
    out
}

fn ref_delta_entry(base_id: &str, delta: &[u8]) -> Vec<u8> {
    let mut out = entry_header(7, delta.len());
    out.extend_from_slice(&hex::decode(base_id).unwrap());
    out.extend_from_slice(&zlib(delta));
    out
}

fn pack(entries: &[Vec<u8>]) -> Vec<u8> {
    let mut out = b"PACK".to_vec();
    out.extend_from_slice(&2u32.to_be_bytes());
    out.extend_from_slice(&(entries.len() as u32).to_be_bytes());
    for e in entries {
        out.extend_from_slice(e);
    }
    let digest = <sha1::Sha1 as sha1::Digest>::digest(&out);
    out.extend_from_slice(&digest);
    out
}

/// source 11, target 11: copy "hello" from offset 0, insert " there".
fn hello_there_delta() -> Vec<u8> {
    let mut d = vec![11u8, 11u8, 0x90u8, 5u8, 6u8];
    d.extend_from_slice(b" there");
    d
}

#[test]
fn size_varint_single_and_multi_byte() {
    assert_eq!(parse_size_encoding(&[0x35], 0, 4).unwrap(), (1, 5));
    assert_eq!(parse_size_encoding(&[0x95, 0x0a], 0, 4).unwrap(), (2, 5 + (10 << 4)));
    assert_eq!(parse_size_encoding(&[0x80, 0x81, 0x01], 0, 7).unwrap(), (3, (1 << 7) + (1 << 14)));
    assert_eq!(parse_size_encoding(&[0x00, 0x7f], 1, 7).unwrap(), (1, 127));
}

#[test]
fn size_varint_running_off_the_end_is_corrupt() {
    assert!(matches!(parse_size_encoding(&[0x80, 0x80], 0, 7), Err(GitError::Corrupt)));
    assert!(matches!(parse_size_encoding(&[], 0, 4), Err(GitError::Corrupt)));
}

#[test]
fn size_varint_padded_with_zero_chunks() {
    let mut bytes = vec![0x80u8; 9];
    bytes.push(0x00);
    assert_eq!(parse_size_encoding(&bytes, 0, 7).unwrap(), (10, 0));
    let mut bytes = vec![0x81u8];
    bytes.extend_from_slice(&[0x80u8; 10]);
    bytes.push(0x00);
    assert_eq!(parse_size_encoding(&bytes, 0, 7).unwrap(), (12, 1));
}

#[test]
fn size_varint_too_wide_is_corrupt() {
    let bytes = [0xffu8; 12];
    assert!(matches!(parse_size_encoding(&bytes, 0, 4), Err(GitError::Corrupt)));
}

#[test]
fn delta_copy_then_insert() {
    let base = b"0123456789";
    let instr = [0x91u8, 2, 5, 2, b'X', b'Y'];
    let out = apply_delta(&instr, base, 7).unwrap();
    assert_eq!(out, b"23456XY".to_vec());
}

#[test]
fn delta_with_wrong_target_size_is_corrupt() {
    let base = b"0123456789";
    let instr = [0x91u8, 2, 5, 2, b'X', b'Y'];
    assert!(matches!(apply_delta(&instr, base, 8), Err(GitError::Corrupt)));
}

#[test]
fn delta_copy_past_the_base_is_corrupt() {
    let base = b"0123";
    let instr = [0x91u8, 2, 5];
    assert!(matches!(apply_delta(&instr, base, 5), Err(GitError::Corrupt)));
}

#[test]
fn delta_zero_insert_is_corrupt() {
    assert!(matches!(apply_delta(&[0u8], b"abc", 0), Err(GitError::Corrupt)));
}

#[test]
fn delta_truncated_insert_is_corrupt() {
    assert!(matches!(apply_delta(&[3u8, b'a'], b"abc", 3), Err(GitError::Corrupt)));
}

#[test]
fn delta_multi_byte_offset_and_size() {
    let base: Vec<u8> = (0..=255u8).cycle().take(70000).collect();
    // offset 0x0102 (bytes 0 and 1), size 0x010000 (byte 2 of the size)
    let instr = [0x80u8 | 0x01 | 0x02 | 0x40, 0x02, 0x01, 0x01];
    let out = apply_delta(&instr, &base, 0x10000).unwrap();
    assert_eq!(out, base[0x102..0x102 + 0x10000].to_vec());
}

#[test]
fn pack_with_blob_and_ref_delta() {
    let base_id = calculate_object_hash(GitObjectType::Blob, b"hello world");
    let data = pack(&[
        full_entry(3, b"hello world"),
        ref_delta_entry(&base_id, &hello_there_delta()),
    ]);
    let packfile = parse_packfile(&data).unwrap();
    assert_eq!(packfile.entries.len(), 2);
    assert_eq!(packfile.entries[0].data, b"hello world".to_vec());
    assert_eq!(packfile.entries[0].sha1, base_id);
    assert_eq!(packfile.entries[0].size, 11);
    assert_eq!(packfile.entries[1].data, b"hello there".to_vec());
    assert_eq!(packfile.entries[1].type_, ObjectType::Blob);
    assert_eq!(packfile.entries[1].size, 11);
    assert_eq!(
        packfile.entries[1].sha1,
        calculate_object_hash(GitObjectType::Blob, b"hello there")
    );
    assert_eq!(packfile.sha1, hex::encode(&data[data.len() - 20..]));
}

#[test]
fn delta_entry_takes_kind_and_size_from_its_base() {
    let base_id = calculate_object_hash(GitObjectType::Blob, b"hello world");
    let delta = [11u8, 5u8, 0x90u8, 5u8];
    let data = pack(&[full_entry(3, b"hello world"), ref_delta_entry(&base_id, &delta)]);
    let packfile = parse_packfile(&data).unwrap();
    assert_eq!(packfile.entries[1].data, b"hello".to_vec());
    assert_eq!(packfile.entries[1].type_, ObjectType::Blob);
    assert_eq!(packfile.entries[1].size, 11);
}

#[test]
fn pack_entries_are_stored_as_loose_objects() {
    let base_id = calculate_object_hash(GitObjectType::Blob, b"hello world");
    let data = pack(&[
        full_entry(3, b"hello world"),
        ref_delta_entry(&base_id, &hello_there_delta()),
    ]);
    let packfile = parse_packfile(&data).unwrap();
    let stored = store_pack_objects(&packfile).unwrap();
    assert_eq!(stored.len(), 2);
    assert_eq!(stored[1].id, packfile.entries[1].sha1);
    let obj = load_object(&stored[1].data).unwrap();
    assert_eq!(obj.data, b"hello there".to_vec());
}

#[test]
fn storing_an_entry_with_a_wrong_id_is_corrupt() {
    let data = pack(&[full_entry(3, b"abc")]);
    let mut packfile = parse_packfile(&data).unwrap();
    packfile.entries[0].sha1 = "0".repeat(40);
    assert!(matches!(store_pack_objects(&packfile), Err(GitError::Corrupt)));
    packfile.entries[0].type_ = ObjectType::Tag;
    assert!(matches!(store_pack_objects(&packfile), Err(GitError::Unsupported)));
}

#[test]
fn pack_delta_inherits_commit_kind() {
    let text = b"tree 4b825dc642cb6eb9a060e54bf8d69288fbee4904\n\none\n";
    let base_id = calculate_object_hash(GitObjectType::Commit, text);
    // copy the first 47 bytes, insert "two\n"
    let mut delta = vec![51u8, 51u8, 0x90u8, 47u8, 4u8];
    delta.extend_from_slice(b"two\n");
    let data = pack(&[full_entry(1, text), ref_delta_entry(&base_id, &delta)]);
    let packfile = parse_packfile(&data).unwrap();
    assert_eq!(packfile.entries[1].type_, ObjectType::Commit);
    assert_eq!(
        packfile.entries[1].data,
        b"tree 4b825dc642cb6eb9a060e54bf8d69288fbee4904\n\ntwo\n".to_vec()
    );
}

#[test]
fn ref_delta_to_unknown_base_is_missing_base() {
    let absent = calculate_object_hash(GitObjectType::Blob, b"not in this pack");
    let data = pack(&[ref_delta_entry(&absent, &hello_there_delta())]);
    assert!(matches!(parse_packfile(&data), Err(GitError::MissingBase)));
}

#[test]
fn ref_delta_before_its_base_is_missing_base() {
    let base_id = calculate_object_hash(GitObjectType::Blob, b"hello world");
    let data = pack(&[
        ref_delta_entry(&base_id, &hello_there_delta()),
        full_entry(3, b"hello world"),
    ]);
    assert!(matches!(parse_packfile(&data), Err(GitError::MissingBase)));
}

#[test]
fn delta_with_wrong_source_size_is_corrupt() {
    let base_id = calculate_object_hash(GitObjectType::Blob, b"hello world");
    let mut delta = hello_there_delta();
    delta[0] = 12;
    let data = pack(&[full_entry(3, b"hello world"), ref_delta_entry(&base_id, &delta)]);
    assert!(matches!(parse_packfile(&data), Err(GitError::Corrupt)));
}

#[test]
fn ofs_delta_is_unsupported() {
    let mut entry = entry_header(6, 4);
    entry.push(0x05);
    entry.extend_from_slice(&zlib(&[4u8, 4u8, 0x90, 4]));
    let data = pack(&[full_entry(3, b"abcd"), entry]);
    assert!(matches!(parse_packfile(&data), Err(GitError::Unsupported)));
}

#[test]
fn tag_entry_is_unsupported() {
    let data = pack(&[full_entry(4, b"object x\n")]);
    assert!(matches!(parse_packfile(&data), Err(GitError::Unsupported)));
}

#[test]
fn bad_magic_version_and_count_are_corrupt() {
    let mut data = pack(&[full_entry(3, b"abc")]);
    data[0] = b'K';
    assert!(matches!(parse_packfile(&data), Err(GitError::Corrupt)));
    let mut data = pack(&[full_entry(3, b"abc")]);
    data[7] = 3;
    assert!(matches!(parse_packfile(&data), Err(GitError::Corrupt)));
    let mut data = pack(&[full_entry(3, b"abc")]);
    data[11] = 2;
    assert!(matches!(parse_packfile(&data), Err(GitError::Corrupt)));
    assert!(matches!(parse_packfile(b"PACK"), Err(GitError::Corrupt)));
}

#[test]
fn duplicate_objects_fail_the_count() {
    let data = pack(&[full_entry(3, b"abc"), full_entry(3, b"abc")]);
    assert!(matches!(parse_packfile(&data), Err(GitError::Corrupt)));
}

#[test]
fn upload_pack_response_skips_the_nak_line() {
    let mut response = b"0008NAK\n".to_vec();
    response.extend_from_slice(&pack(&[full_entry(2, b"")]));
    let packfile = parse_upload_pack_response(&response).unwrap();
    assert_eq!(packfile.entries.len(), 1);
    assert_eq!(packfile.entries[0].type_, ObjectType::Tree);
    assert_eq!(packfile.entries[0].sha1, "4b825dc642cb6eb9a060e54bf8d69288fbee4904");
    assert!(matches!(parse_upload_pack_response(b"0008"), Err(GitError::Corrupt)));
}

#[test]
fn object_type_codes_and_names() {
    assert_eq!(ObjectType::from_u8(1), Some(ObjectType::Commit));
    assert_eq!(ObjectType::from_u8(6), Some(ObjectType::OfsDelta));
    assert_eq!(ObjectType::from_u8(7), Some(ObjectType::RefDelta));
    assert_eq!(ObjectType::from_u8(5), None);
    assert_eq!(ObjectType::RefDelta.name(), "ref-delta");
    assert_eq!(ObjectType::Tag.to_object_kind(), None);
}

#[test]
fn pack_declaring_more_entries_than_it_holds_is_corrupt() {
    let mut data = b"PACK".to_vec();
    data.extend_from_slice(&2u32.to_be_bytes());
    data.extend_from_slice(&1u32.to_be_bytes());
    data.push(0x40);
    data.extend_from_slice(&[0u8; 19]);
    assert!(matches!(parse_packfile(&data), Err(GitError::Corrupt)));

    let mut data = pack(&[full_entry(3, b"abc")]);
    data[11] = 3;
    assert!(matches!(parse_packfile(&data), Err(GitError::Corrupt)));
}

#[test]
fn entry_stream_with_base_only_later_is_missing_base() {
    let base_id = calculate_object_hash(GitObjectType::Blob, b"hello world");
    let data = pack(&[
        ref_delta_entry(&base_id, &hello_there_delta()),
        full_entry(3, b"hello world"),
    ]);
    assert!(matches!(parse_entries(&data, 12, 2), Err(GitError::MissingBase)));
}
