use sha1::{Digest, Sha1};
use wyag::git_object::{GitObject, GitObjectKind};
use wyag::store::digest_of;

#[test]
fn a() {
    let result = "hello world".to_string().into_bytes();
    let hash = Sha1::digest(&result);
    let hash = hex::encode(hash);
    assert_eq!(hash, "2aae6c35c94fcfb415dbe95f408b9ce91ee846ed")
}

#[test]
fn known_blob_vector() {
    // the canonical smoke test: digest of the 11-byte blob payload
    // "hello world" under the framed form "blob 11\0hello world"
    let d = digest_of(&GitObjectKind::Blob, b"hello world");
    assert_eq!(d, "95d09f2b10159347eece71399a7e2e907ea3df4f");
}

#[test]
fn digest_deterministic() {
    let d1 = digest_of(&GitObjectKind::Blob, b"some payload");
    let d2 = digest_of(&GitObjectKind::Blob, b"some payload");
    assert_eq!(d1, d2);
}

#[test]
fn digest_separates_kinds_and_payloads() {
    let blob = digest_of(&GitObjectKind::Blob, b"x");
    let tag = digest_of(&GitObjectKind::Tag, b"x");
    let other = digest_of(&GitObjectKind::Blob, b"y");
    assert_ne!(blob, tag);
    assert_ne!(blob, other);
}

#[test]
fn hash_matches_digest_of() {
    let obj = GitObject::Blob { content: b"hello world".to_vec() };
    assert_eq!(
        obj.hash().unwrap(),
        "95d09f2b10159347eece71399a7e2e907ea3df4f".to_string()
    );
}
