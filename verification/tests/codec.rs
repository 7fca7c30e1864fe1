use wyag::git_object::{
    deserialize_object, serialize_object, FileType, GitObject, GitObjectKind, TreeOject,
};
use wyag::GitError;

fn rt(obj: &GitObject) -> GitObject {
    let bytes = serialize_object(obj).expect("record should be encodable");
    let kind = obj.kind();
    deserialize_object(&kind, &bytes).expect("canonical payload should decode")
}

fn sha_a() -> String {
    "2aae6c35c94fcfb415dbe95f408b9ce91ee846ed".to_string()
}

fn sha_b() -> String {
    "95d09f2b10159347eece71399a7e2e907ea3df4f".to_string()
}

fn sha_c() -> String {
    "a94a8fe5ccb19ba61c4c0873d391e987982fbbd3".to_string()
}

#[test]
fn blob_round_trip() {
    let obj = GitObject::Blob { content: b"hello world".to_vec() };
    assert_eq!(rt(&obj), obj);
}

#[test]
fn blob_empty_round_trip() {
    let obj = GitObject::Blob { content: Vec::new() };
    assert_eq!(rt(&obj), obj);
}

#[test]
fn commit_round_trip_merge() {
    let obj = GitObject::Commit {
        tree: sha_c(),
        parent: vec![sha_a(), sha_b()],
        author: "A U Thor <author@example.com> 1700000000 +0000".to_string(),
        committer: "C O Mitter <committer@example.com> 1700000001 +0000".to_string(),
        message: "merge two histories\n\nwith a longer body\n".to_string(),
    };
    assert_eq!(rt(&obj), obj);
}

#[test]
fn commit_round_trip_root() {
    let obj = GitObject::Commit {
        tree: sha_c(),
        parent: Vec::new(),
        author: "a".to_string(),
        committer: "c".to_string(),
        message: String::new(),
    };
    assert_eq!(rt(&obj), obj);
}

#[test]
fn commit_encoding_exact() {
    let obj = GitObject::Commit {
        tree: "T".to_string(),
        parent: vec!["P1".to_string(), "P2".to_string()],
        author: "a".to_string(),
        committer: "c".to_string(),
        message: "m".to_string(),
    };
    let bytes = serialize_object(&obj).unwrap();
    assert_eq!(
        bytes,
        b"tree T\nparent P1\nparent P2\nauthor a\ncommitter c\n\nm".to_vec()
    );
}

#[test]
fn folded_header_round_trip() {
    // an embedded newline in a value is folded on encode and restored on
    // decode, with no residual leading space
    let obj = GitObject::Commit {
        tree: sha_c(),
        parent: Vec::new(),
        author: "first line\nsecond line".to_string(),
        committer: "c".to_string(),
        message: "subject\n\nbody\n".to_string(),
    };
    let bytes = serialize_object(&obj).unwrap();
    let text = String::from_utf8(bytes.clone()).unwrap();
    assert!(text.contains("author first line\n second line\n"));
    assert_eq!(rt(&obj), obj);
}

#[test]
fn tag_round_trip() {
    let obj = GitObject::Tag {
        object: sha_a(),
        kind: GitObjectKind::Commit,
        tag: "v1.0".to_string(),
        tagger: "T Agger <t@example.com>".to_string(),
        message: "release\n".to_string(),
    };
    assert_eq!(rt(&obj), obj);
}

#[test]
fn tag_encoding_exact() {
    let obj = GitObject::Tag {
        object: "O".to_string(),
        kind: GitObjectKind::Commit,
        tag: "t".to_string(),
        tagger: "tg".to_string(),
        message: "m".to_string(),
    };
    let bytes = serialize_object(&obj).unwrap();
    assert_eq!(bytes, b"object O\ntype commit\ntag t\ntagger tg\n\nm".to_vec());
}

fn entry(ft: FileType, perm: &str, path: &str, sha: String) -> TreeOject {
    TreeOject { file_type: ft, permission: perm.to_string(), path: path.to_string(), sha }
}

#[test]
fn tree_round_trip_sorted() {
    let obj = GitObject::Tree(vec![
        entry(FileType::RegularFile, "0644", "afile", sha_a()),
        entry(FileType::RegularFile, "0644", "foo.txt", sha_b()),
        entry(FileType::Tree, "0755", "foo", sha_c()),
    ]);
    assert_eq!(rt(&obj), obj);
}

#[test]
fn tree_sorts_on_encode() {
    // supplied in arbitrary order; the directory `foo` sorts as `foo/`,
    // after the file `foo.txt`
    let unsorted = GitObject::Tree(vec![
        entry(FileType::Tree, "0755", "foo", sha_c()),
        entry(FileType::RegularFile, "0644", "foo.txt", sha_b()),
        entry(FileType::RegularFile, "0644", "bar", sha_a()),
    ]);
    let sorted = GitObject::Tree(vec![
        entry(FileType::RegularFile, "0644", "bar", sha_a()),
        entry(FileType::RegularFile, "0644", "foo.txt", sha_b()),
        entry(FileType::Tree, "0755", "foo", sha_c()),
    ]);
    let bytes = serialize_object(&unsorted).unwrap();
    let back = deserialize_object(&GitObjectKind::Tree, &bytes).unwrap();
    assert_eq!(back, sorted);
}

#[test]
fn tree_permission_widths() {
    // three- and four-digit permissions both survive the trip
    let obj = GitObject::Tree(vec![
        entry(FileType::RegularFile, "644", "narrow", sha_a()),
        entry(FileType::RegularFile, "0755", "wide", sha_b()),
    ]);
    assert_eq!(rt(&obj), obj);
}

#[test]
fn tree_binary_digest_on_wire() {
    let obj = GitObject::Tree(vec![entry(FileType::RegularFile, "0644", "f", sha_a())]);
    let bytes = serialize_object(&obj).unwrap();
    // mode + permission + SP + name + NUL + 20 raw digest bytes
    assert_eq!(bytes.len(), 2 + 4 + 1 + 1 + 1 + 20);
    assert_eq!(&bytes[..7], b"100644 ");
    assert_eq!(bytes[8], 0);
    assert_eq!(bytes[9], 0x2a);
    assert_eq!(bytes[10], 0xae);
}

#[test]
fn tree_invalid_sha_rejected() {
    let obj = GitObject::Tree(vec![entry(FileType::RegularFile, "0644", "f", "zz".to_string())]);
    assert_eq!(serialize_object(&obj), Err(GitError::InvalidRecord));
}

#[test]
fn tree_invalid_permission_rejected() {
    let obj = GitObject::Tree(vec![entry(FileType::RegularFile, "0944", "f", sha_a())]);
    assert_eq!(serialize_object(&obj), Err(GitError::InvalidRecord));
}

#[test]
fn commit_unknown_key_dropped() {
    // an unrecognized header key, even a folded multi-line one, is dropped
    // on decode while the known fields survive
    let bytes =
        b"tree T\ngpgsig -----BEGIN-----\n siglinetwo\nauthor a\ncommitter c\n\nmsg".to_vec();
    match deserialize_object(&GitObjectKind::Commit, &bytes).unwrap() {
        GitObject::Commit { tree, parent, author, committer, message } => {
            assert_eq!(tree, "T");
            assert!(parent.is_empty());
            assert_eq!(author, "a");
            assert_eq!(committer, "c");
            assert_eq!(message, "msg");
        }
        other => panic!("expected a commit, got {:?}", other),
    }
}

#[test]
fn tag_folded_tagger_round_trip() {
    let obj = GitObject::Tag {
        object: sha_a(),
        kind: GitObjectKind::Tree,
        tag: "snapshot".to_string(),
        tagger: "name\nover two lines".to_string(),
        message: "m\n".to_string(),
    };
    assert_eq!(rt(&obj), obj);
}

#[test]
fn commit_missing_tree_is_corrupt() {
    // the header region ends at byte 22, where the missing field was given up on
    let bytes = b"author a\ncommitter c\n\nmsg".to_vec();
    match deserialize_object(&GitObjectKind::Commit, &bytes) {
        Err(GitError::CorruptPayload { offset }) => assert_eq!(offset, 22),
        other => panic!("expected CorruptPayload, got {:?}", other),
    }
}

#[test]
fn commit_garbage_is_corrupt() {
    let bytes = b"no separators here at all".to_vec();
    match deserialize_object(&GitObjectKind::Commit, &bytes) {
        Err(GitError::CorruptPayload { .. }) => {}
        other => panic!("expected CorruptPayload, got {:?}", other),
    }
}

#[test]
fn tree_truncated_digest_is_corrupt() {
    let bytes = b"100644 f\x00short".to_vec();
    match deserialize_object(&GitObjectKind::Tree, &bytes) {
        Err(GitError::CorruptPayload { .. }) => {}
        other => panic!("expected CorruptPayload, got {:?}", other),
    }
}

#[test]
fn tree_zero_dropped_mode_accepted() {
    // a five-character mode field with the leading zero dropped, as real
    // repositories write subtree entries
    let mut bytes = b"40000 sub\x00".to_vec();
    bytes.extend_from_slice(&[0u8; 20]);
    let back = deserialize_object(&GitObjectKind::Tree, &bytes).unwrap();
    match back {
        GitObject::Tree(entries) => {
            assert_eq!(entries.len(), 1);
            assert_eq!(entries[0].file_type, FileType::Tree);
            assert_eq!(entries[0].permission, "0000");
            assert_eq!(entries[0].path, "sub");
            assert_eq!(entries[0].sha, "0".repeat(40));
        }
        other => panic!("expected tree, got {:?}", other),
    }
}

#[test]
fn tree_decode_preserves_order() {
    // a well-formed but unsorted payload decodes in its on-disk order:
    // the store never re-sorts on read
    let mut bytes = b"100644 b\x00".to_vec();
    bytes.extend_from_slice(&[0x11u8; 20]);
    bytes.extend_from_slice(b"100644 a\x00");
    bytes.extend_from_slice(&[0x22u8; 20]);
    match deserialize_object(&GitObjectKind::Tree, &bytes).unwrap() {
        GitObject::Tree(entries) => {
            assert_eq!(entries.len(), 2);
            assert_eq!(entries[0].path, "b");
            assert_eq!(entries[0].sha, "11".repeat(20));
            assert_eq!(entries[1].path, "a");
            assert_eq!(entries[1].sha, "22".repeat(20));
        }
        other => panic!("expected tree, got {:?}", other),
    }
}

#[test]
fn kind_names_round_trip() {
    for kind in [
        GitObjectKind::Blob,
        GitObjectKind::Commit,
        GitObjectKind::Tag,
        GitObjectKind::Tree,
    ] {
        assert_eq!(GitObjectKind::from_str(kind.as_str()), Some(kind));
    }
    assert_eq!(GitObjectKind::from_str("branch"), None);
}

#[test]
fn file_type_tags() {
    assert_eq!(FileType::Tree.as_str(), "04");
    assert_eq!(FileType::RegularFile.as_str(), "10");
    assert_eq!(FileType::SymbolicLink.as_str(), "12");
    assert_eq!(FileType::Submodule.as_str(), "16");
    assert_eq!(FileType::Tree.kind(), GitObjectKind::Tree);
    assert_eq!(FileType::RegularFile.kind(), GitObjectKind::Blob);
    assert_eq!(FileType::SymbolicLink.kind(), GitObjectKind::Blob);
    assert_eq!(FileType::Submodule.kind(), GitObjectKind::Commit);
    assert_eq!(FileType::try_from(b"04".as_slice()), Some(FileType::Tree));
    assert_eq!(FileType::try_from(b"99".as_slice()), None);
}
