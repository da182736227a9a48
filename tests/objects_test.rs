use std::io::Write;

use minigit::error::GitError;
use minigit::files::catfile;
use minigit::objects::{
    calculate_object_hash, load_object, objstore_path, store_object, GitObjectType,
};

#[test]
fn hash_is_forty_lowercase_hex_and_deterministic() {
    let a = calculate_object_hash(GitObjectType::Blob, b"some payload");
    let b = calculate_object_hash(GitObjectType::Blob, b"some payload");
    assert_eq!(a, b);
    assert_eq!(a.len(), 40);
    assert!(a.chars().all(|c| c.is_ascii_digit() || ('a'..='f').contains(&c)));
}

#[test]
fn hash_of_hello_blob() {
    let id = calculate_object_hash(GitObjectType::Blob, b"hello\n");
    assert_eq!(id, "ce013625030ba8dba906f756967f9e9ca394464a");
}

#[test]
fn hash_of_capitalised_hello_blob() {
    let id = calculate_object_hash(GitObjectType::Blob, b"Hello\n");
    assert_eq!(id, "e965047ad7c57865823c7d992b1d046ea66edf78");
}

#[test]
fn hash_of_empty_blob_and_tree() {
    assert_eq!(
        calculate_object_hash(GitObjectType::Blob, b""),
        "e69de29bb2d1d6434b8b29ae775ad8c2e48c5391"
    );
    assert_eq!(
        calculate_object_hash(GitObjectType::Tree, b""),
        "4b825dc642cb6eb9a060e54bf8d69288fbee4904"
    );
}

#[test]
fn kind_changes_the_id() {
    let blob = calculate_object_hash(GitObjectType::Blob, b"x");
    let commit = calculate_object_hash(GitObjectType::Commit, b"x");
    assert_ne!(blob, commit);
}

#[test]
fn store_then_load_hello_blob() {
    let lo = store_object(GitObjectType::Blob, b"hello\n").unwrap();
    assert_eq!(lo.id, "ce013625030ba8dba906f756967f9e9ca394464a");
    assert_eq!(lo.path, ".git/objects/ce/013625030ba8dba906f756967f9e9ca394464a");
    let obj = load_object(&lo.data).unwrap();
    assert_eq!(obj.type_, GitObjectType::Blob);
    assert_eq!(obj.data, b"hello\n".to_vec());
}

#[test]
fn store_load_round_trip_commit_and_tree() {
    let text = b"tree 4b825dc642cb6eb9a060e54bf8d69288fbee4904\n\nmsg\n".to_vec();
    let lo = store_object(GitObjectType::Commit, &text).unwrap();
    let obj = load_object(&lo.data).unwrap();
    assert_eq!(obj.type_, GitObjectType::Commit);
    assert_eq!(obj.data, text);

    let mut tree = b"100644 a.txt\0".to_vec();
    tree.extend_from_slice(&[7u8; 20]);
    let lo = store_object(GitObjectType::Tree, &tree).unwrap();
    let obj = load_object(&lo.data).unwrap();
    assert_eq!(obj.type_, GitObjectType::Tree);
    assert_eq!(obj.data, tree);
}

#[test]
fn store_twice_gives_same_id_and_path() {
    let first = store_object(GitObjectType::Blob, b"same content").unwrap();
    let second = store_object(GitObjectType::Blob, b"same content").unwrap();
    assert_eq!(first.id, second.id);
    assert_eq!(first.path, second.path);
    assert_eq!(load_object(&second.data).unwrap().data, b"same content".to_vec());
}

#[test]
fn objstore_path_splits_after_two_digits() {
    let id = "e69de29bb2d1d6434b8b29ae775ad8c2e48c5391".to_string();
    assert_eq!(objstore_path(&id), ".git/objects/e6/9de29bb2d1d6434b8b29ae775ad8c2e48c5391");
}

#[test]
fn load_rejects_bytes_that_do_not_inflate() {
    assert!(matches!(load_object(b"not zlib at all"), Err(GitError::Corrupt)));
}

#[test]
fn load_keeps_the_payload_whatever_length_is_declared() {
    let z = zlib(b"blob 5\0abc");
    let obj = load_object(&z).unwrap();
    assert_eq!(obj.type_, GitObjectType::Blob);
    assert_eq!(obj.data, b"abc".to_vec());
}

#[test]
fn load_rejects_a_length_that_is_not_decimal() {
    assert!(matches!(load_object(&zlib(b"blob x\0abc")), Err(GitError::Corrupt)));
    assert!(matches!(load_object(&zlib(b"blob \0abc")), Err(GitError::Corrupt)));
    assert!(matches!(load_object(&zlib(b"blob\0abc")), Err(GitError::Corrupt)));
    let huge = b"blob 99999999999999999999999\0abc";
    assert!(matches!(load_object(&zlib(huge)), Err(GitError::Corrupt)));
}

#[test]
fn load_rejects_an_unknown_kind() {
    let z = zlib(b"tag 3\0abc");
    assert!(matches!(load_object(&z), Err(GitError::Corrupt)));
}

#[test]
fn load_rejects_a_truncated_tree() {
    let z = zlib(b"tree 10\0100644 a\0x");
    assert!(matches!(load_object(&z), Err(GitError::Corrupt)));
}

#[test]
fn load_accepts_what_git_writes() {
    let z = zlib(b"blob 3\0abc");
    let obj = load_object(&z).unwrap();
    assert_eq!(obj.type_, GitObjectType::Blob);
    assert_eq!(obj.data, b"abc".to_vec());
}

#[test]
fn test_hashobject_and_catfile() {
    let covs = vec![
        ("myfile.txt", "my contents\n"),
        ("another_file.py", "another\nfile\ncontents\n"),
    ];
    for (_path, content) in covs {
        let sha1 = calculate_object_hash(GitObjectType::Blob, content.as_bytes());
        let stored = store_object(GitObjectType::Blob, content.as_bytes()).unwrap();
        assert_eq!(sha1, stored.id);
        let read_content = catfile(&stored.data).unwrap();
        assert!(read_content.eq(content));
    }
}

#[test]
fn catfile_refuses_a_tree() {
    let lo = store_object(GitObjectType::Tree, b"").unwrap();
    assert!(matches!(catfile(&lo.data), Err(GitError::WrongKind)));
}

#[test]
fn catfile_refuses_binary_content() {
    let lo = store_object(GitObjectType::Blob, &[0xffu8, 0xfe]).unwrap();
    assert!(matches!(catfile(&lo.data), Err(GitError::Corrupt)));
}

#[test]
fn kind_names_and_parsing() {
    assert_eq!(GitObjectType::Blob.name(), "blob");
    assert_eq!(GitObjectType::Tree.name(), "tree");
    assert_eq!(GitObjectType::Commit.name(), "commit");
    assert_eq!(GitObjectType::from_string("commit"), Some(GitObjectType::Commit));
    assert_eq!(GitObjectType::from_string("tree"), Some(GitObjectType::Tree));
    assert_eq!(GitObjectType::from_string("blob"), Some(GitObjectType::Blob));
    assert_eq!(GitObjectType::from_string("tag"), None);
}

#[test]
fn error_messages() {
    assert_eq!(GitError::MissingBase.message(), "delta base is missing");
    assert_eq!(GitError::Unsupported.message(), "unsupported object type");
}

fn zlib(data: &[u8]) -> Vec<u8> {
    let mut e = flate2::write::ZlibEncoder::new(Vec::new(), flate2::Compression::default());
    e.write_all(data).unwrap();
    e.finish().unwrap()
}
