use wyag::git_object::{GitObject, GitObjectKind};
use wyag::store::{frame_payload, object_read_data};
use wyag::GitError;

fn deflate(data: &[u8]) -> Vec<u8> {
    let mut enc = flate2::write::ZlibEncoder::new(Vec::new(), flate2::Compression::default());
    std::io::Write::write_all(&mut enc, data).unwrap();
    enc.finish().unwrap()
}

fn sample_commit() -> GitObject {
    GitObject::Commit {
        tree: "a94a8fe5ccb19ba61c4c0873d391e987982fbbd3".to_string(),
        parent: vec!["2aae6c35c94fcfb415dbe95f408b9ce91ee846ed".to_string()],
        author: "A U Thor <author@example.com> 1700000000 +0000".to_string(),
        committer: "C O Mitter <committer@example.com> 1700000001 +0000".to_string(),
        message: "store round trip\n".to_string(),
    }
}

#[test]
fn write_then_read_round_trip() {
    let obj = sample_commit();
    let plan = obj.prepare_write().unwrap();
    assert_eq!(plan.sha.len(), 40);
    assert_eq!(plan.dir_name.len(), 2);
    assert_eq!(plan.file_name.len(), 38);
    assert_eq!(format!("{}{}", plan.dir_name, plan.file_name), plan.sha);
    let back = object_read_data(&plan.compressed).unwrap();
    assert_eq!(back, obj);
}

#[test]
fn write_is_idempotent() {
    // the plan is a function of the record: a second write computes the
    // same digest and targets the same single file
    let first = sample_commit().prepare_write().unwrap();
    let second = sample_commit().prepare_write().unwrap();
    assert_eq!(first.sha, second.sha);
    assert_eq!(first.dir_name, second.dir_name);
    assert_eq!(first.file_name, second.file_name);
    assert_eq!(first.compressed, second.compressed);
}

#[test]
fn compression_is_real_zlib() {
    let obj = GitObject::Blob { content: b"hello world".to_vec() };
    let plan = obj.prepare_write().unwrap();
    let framed = frame_payload(&GitObjectKind::Blob, b"hello world");
    assert_ne!(plan.compressed, framed);
    assert_eq!(plan.compressed[0], 0x78);
    let mut out = Vec::new();
    let mut dec = flate2::read::ZlibDecoder::new(&plan.compressed[..]);
    std::io::Read::read_to_end(&mut dec, &mut out).unwrap();
    assert_eq!(out, framed);
}

#[test]
fn blob_write_read() {
    let obj = GitObject::Blob { content: b"hello world".to_vec() };
    let plan = obj.prepare_write().unwrap();
    assert_eq!(plan.sha, "95d09f2b10159347eece71399a7e2e907ea3df4f");
    assert_eq!(plan.dir_name, "95");
    assert_eq!(plan.file_name, "d09f2b10159347eece71399a7e2e907ea3df4f");
    assert_eq!(object_read_data(&plan.compressed).unwrap(), obj);
}

#[test]
fn unknown_kind_detected() {
    // flipping the kind tag to an unrecognized string is UnknownKind,
    // never a silent wrong decode
    let framed = b"blub 11\x00hello world".to_vec();
    let z = deflate(&framed);
    assert_eq!(object_read_data(&z), Err(GitError::UnknownKind));
}

#[test]
fn size_mismatch_detected() {
    // a declared length that disagrees with the payload is SizeMismatch
    let framed = b"blob 12\x00hello world".to_vec();
    let z = deflate(&framed);
    assert_eq!(object_read_data(&z), Err(GitError::SizeMismatch));
}

#[test]
fn truncated_length_field_rejected() {
    // dropping the digits of the length field breaks the frame; the offset
    // names the byte just past the kind's space, where digits were expected
    let framed = b"blob \x00hello world".to_vec();
    let z = deflate(&framed);
    match object_read_data(&z) {
        Err(GitError::CorruptPayload { offset }) => assert_eq!(offset, 5),
        other => panic!("expected CorruptPayload, got {:?}", other),
    }
}

#[test]
fn missing_separator_rejected() {
    let framed = b"blob11hello".to_vec();
    let z = deflate(&framed);
    match object_read_data(&z) {
        Err(GitError::CorruptPayload { .. }) => {}
        other => panic!("expected CorruptPayload, got {:?}", other),
    }
}

#[test]
fn not_zlib_rejected() {
    match object_read_data(b"definitely not a zlib stream") {
        Err(_) => {}
        Ok(o) => panic!("expected an error, got {:?}", o),
    }
}
