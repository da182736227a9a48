use minigit::clone::{checkout_path, parse_refs, repo_url, upload_pack_request};
use minigit::error::GitError;
use minigit::objects::{calculate_object_hash, load_object, store_object, GitObjectType};
use minigit::tree::{
    commit_content, commit_tree_id, committree, hash_dir, lstree, parse_tree, parse_tree_data,
    writetree,
    DirChild, Tree, TreeNode,
};

fn node(mode: &str, name: &str, hash: &str) -> TreeNode {
    TreeNode { permissions: mode.to_string(), filename: name.to_string(), hash: hash.to_string() }
}

fn file_child(name: &str, content: &[u8]) -> DirChild {
    DirChild {
        name: name.to_string(),
        is_dir: false,
        hash: store_object(GitObjectType::Blob, content).unwrap().id,
    }
}

#[test]
fn tree_encoding_layout() {
    let id = "e69de29bb2d1d6434b8b29ae775ad8c2e48c5391";
    let tree = Tree { nodes: vec![node("100644", "a.txt", id)] };
    let mut buf = Vec::new();
    tree.to_buf(&mut buf);
    let mut expected = b"100644 a.txt\0".to_vec();
    expected.extend_from_slice(&hex::decode(id).unwrap());
    assert_eq!(buf, expected);
}

#[test]
fn tree_encode_decode_round_trip_keeps_order() {
    let a = "e69de29bb2d1d6434b8b29ae775ad8c2e48c5391";
    let b = "4b825dc642cb6eb9a060e54bf8d69288fbee4904";
    let tree = Tree {
        nodes: vec![node("100644", "zeta", a), node("40000", "alpha", b), node("100644", "é.md", a)],
    };
    let mut buf = Vec::new();
    tree.to_buf(&mut buf);
    let back = parse_tree_data(&buf).unwrap();
    assert_eq!(back.len(), 3);
    for (x, y) in back.iter().zip(tree.nodes.iter()) {
        assert_eq!(x.permissions, y.permissions);
        assert_eq!(x.filename, y.filename);
        assert_eq!(x.hash, y.hash);
    }
}

#[test]
fn empty_tree_has_no_entries() {
    assert_eq!(parse_tree_data(b"").unwrap().len(), 0);
}

#[test]
fn tree_entry_without_space_or_id_does_not_decode() {
    assert!(parse_tree_data(b"100644").is_none());
    assert!(parse_tree_data(b"100644 a\0short").is_none());
}

#[test]
fn tree_of_one_file() {
    let children = vec![file_child("a.txt", b"x")];
    let (tree, lo) = hash_dir(&children, false).unwrap();
    assert_eq!(tree.nodes.len(), 1);
    let listed = lstree(&lo.data).unwrap();
    assert_eq!(listed.nodes.len(), 1);
    assert_eq!(listed.nodes[0].permissions, "100644");
    assert_eq!(listed.nodes[0].filename, "a.txt");
    assert_eq!(listed.nodes[0].hash, calculate_object_hash(GitObjectType::Blob, b"x"));
    assert_eq!(lo.id, calculate_object_hash(GitObjectType::Tree, &{
        let mut buf = Vec::new();
        tree.to_buf(&mut buf);
        buf
    }));
}

#[test]
fn tree_entries_are_sorted_and_metadata_is_left_out_at_the_root() {
    let sub = hash_dir(&vec![file_child("f.txt", b"1")], false).unwrap().1.id;
    let children = vec![
        file_child("b.txt", b"b"),
        DirChild { name: "dir".to_string(), is_dir: true, hash: sub.clone() },
        DirChild { name: ".git".to_string(), is_dir: true, hash: sub.clone() },
        file_child("a.txt", b"a"),
    ];
    let (tree, _) = writetree(&children).unwrap();
    let names: Vec<&str> = tree.iter().iter().map(|n| n.filename.as_str()).collect();
    assert_eq!(names, vec!["a.txt", "b.txt", "dir"]);
    assert_eq!(tree.nodes[2].permissions, "40000");
    assert!(tree.nodes[2].is_subtree());
    assert!(!tree.nodes[0].is_subtree());
    let (inner, _) = hash_dir(&children, false).unwrap();
    assert_eq!(inner.nodes.len(), 4);
    assert_eq!(inner.nodes[0].filename, ".git");
}

#[test]
fn tree_with_a_bad_child_id_is_corrupt() {
    let children =
        vec![DirChild { name: "a".to_string(), is_dir: false, hash: "xyz".to_string() }];
    assert!(matches!(hash_dir(&children, false), Err(GitError::Corrupt)));
}

#[test]
fn test_tree_funcs() {
    let f2 = file_child("f2.txt", b"other content");
    let (_, b) = hash_dir(&vec![f2], false).unwrap();
    let f1 = file_child("f1.txt", b"some content");
    let b_child = DirChild { name: "b".to_string(), is_dir: true, hash: b.id.clone() };
    let (_, a) = hash_dir(&vec![f1, b_child], false).unwrap();
    let a_child = DirChild { name: "a".to_string(), is_dir: true, hash: a.id.clone() };
    let (_, root) = writetree(&vec![a_child]).unwrap();
    let tree = lstree(&root.data).unwrap();
    assert_eq!(tree.nodes.len(), 1);
    let inner = lstree(&a.data).unwrap();
    assert_eq!(inner.nodes.len(), 2);
    assert_eq!(inner.nodes[0].filename, "b");
    assert_eq!(inner.nodes[0].hash, b.id);
}

#[test]
fn lstree_of_a_blob_is_wrong_kind() {
    let lo = store_object(GitObjectType::Blob, b"x").unwrap();
    assert!(matches!(lstree(&lo.data), Err(GitError::WrongKind)));
    assert!(matches!(Tree::new(&load_object(&lo.data).unwrap()), Err(GitError::WrongKind)));
}

#[test]
fn commit_text_with_and_without_parent() {
    let author = "me@example.com".to_string();
    let tree = "4b825dc642cb6eb9a060e54bf8d69288fbee4904".to_string();
    let parent = "e69de29bb2d1d6434b8b29ae775ad8c2e48c5391".to_string();
    let message = "first".to_string();
    let ts = "1700000000 +0000".to_string();
    let with = commit_content(&author, &tree, &parent, &message, &ts);
    assert_eq!(
        String::from_utf8(with).unwrap(),
        "tree 4b825dc642cb6eb9a060e54bf8d69288fbee4904\n\
         parent e69de29bb2d1d6434b8b29ae775ad8c2e48c5391\n\
         author me@example.com 1700000000 +0000\n\
         committer me@example.com 1700000000 +0000\n\
         \n\
         first\n"
    );
    let without = commit_content(&author, &tree, &String::new(), &message, &ts);
    assert!(!String::from_utf8(without).unwrap().contains("parent"));
}

#[test]
fn committree_stores_a_commit_naming_its_tree() {
    let tree = "4b825dc642cb6eb9a060e54bf8d69288fbee4904".to_string();
    let ts = "1700000000 +0000".to_string();
    let lo =
        committree(&"a@b".to_string(), &tree, &String::new(), &"msg".to_string(), &ts).unwrap();
    let obj = load_object(&lo.data).unwrap();
    assert_eq!(obj.type_, GitObjectType::Commit);
    assert_eq!(commit_tree_id(&obj.data).unwrap(), tree);
    assert_eq!(lo.id, calculate_object_hash(GitObjectType::Commit, &obj.data));
    assert_eq!(lo.path, format!(".git/objects/{}/{}", &lo.id[..2], &lo.id[2..]));
    let text = commit_content(&"a@b".to_string(), &tree, &String::new(), &"msg".to_string(), &ts);
    assert_eq!(obj.data, text);
}

#[test]
fn empty_tree_object_lists_nothing() {
    let lo = store_object(GitObjectType::Tree, b"").unwrap();
    let obj = load_object(&lo.data).unwrap();
    assert_eq!(parse_tree(&obj).unwrap().len(), 0);
}

#[test]
fn tree_object_path_and_bytes() {
    let children = vec![file_child("a.txt", b"x")];
    let (_, lo) = writetree(&children).unwrap();
    assert_eq!(lo.path, format!(".git/objects/{}/{}", &lo.id[..2], &lo.id[2..]));
    let obj = load_object(&lo.data).unwrap();
    assert_eq!(obj.type_, GitObjectType::Tree);
    let mut expected = b"100644 a.txt\0".to_vec();
    expected.extend_from_slice(&hex::decode(calculate_object_hash(GitObjectType::Blob, b"x")).unwrap());
    assert_eq!(obj.data, expected);
}

#[test]
fn tree_id_does_not_depend_on_listing_order() {
    let one = vec![file_child("a", b"1"), file_child("b", b"2")];
    let other = vec![file_child("b", b"2"), file_child("a", b"1")];
    assert_eq!(hash_dir(&one, false).unwrap().1.id, hash_dir(&other, false).unwrap().1.id);
}

#[test]
fn commit_tree_id_needs_an_id() {
    assert!(matches!(commit_tree_id(b"tree xyz\n"), Err(GitError::Corrupt)));
    assert!(matches!(commit_tree_id(b"tree\n"), Err(GitError::Corrupt)));
}

#[test]
fn repo_url_gets_git_suffix_once() {
    assert_eq!(repo_url(&"https://h/r".to_string()), "https://h/r.git");
    assert_eq!(repo_url(&"https://h/r.git".to_string()), "https://h/r.git");
}

#[test]
fn refs_from_advertisement() {
    let body = b"001e# service=git-upload-pack\n0000\n\
00f5e69de29bb2d1d6434b8b29ae775ad8c2e48c5391 HEAD\0multi_ack\n\
003f4b825dc642cb6eb9a060e54bf8d69288fbee4904 refs/heads/master\n\
0000";
    let refs = parse_refs(body).unwrap();
    assert_eq!(
        refs,
        vec![
            "e69de29bb2d1d6434b8b29ae775ad8c2e48c5391".to_string(),
            "4b825dc642cb6eb9a060e54bf8d69288fbee4904".to_string()
        ]
    );
}

#[test]
fn ref_lines_are_cut_by_characters() {
    let body = "head\n0000\n0\u{e9}3fe69de29bb2d1d6434b8b29ae775ad8c2e48c5391 refs/heads/x\n0000";
    let refs = parse_refs(body.as_bytes()).unwrap();
    assert_eq!(refs, vec!["e69de29bb2d1d6434b8b29ae775ad8c2e48c5391".to_string()]);
}

#[test]
fn ref_line_that_is_not_utf8_is_corrupt() {
    let body = b"a\nb\n0000\xff\xfe\n0000";
    assert!(matches!(parse_refs(body), Err(GitError::Corrupt)));
}

#[test]
fn want_request_for_first_ref() {
    let refs = vec!["e69de29bb2d1d6434b8b29ae775ad8c2e48c5391".to_string()];
    assert_eq!(
        upload_pack_request(&refs).unwrap(),
        "0032want e69de29bb2d1d6434b8b29ae775ad8c2e48c5391\n00000009done\n"
    );
    assert!(matches!(upload_pack_request(&Vec::new()), Err(GitError::NotFound)));
}

#[test]
fn checkout_paths() {
    assert_eq!(checkout_path(&String::new(), &"a".to_string()), "a");
    assert_eq!(checkout_path(&"a".to_string(), &"b".to_string()), "a/b");
    assert_eq!(checkout_path(&"/x".to_string(), &"b".to_string()), "x/b");
}
