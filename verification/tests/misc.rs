use wyag::git_config::GitConfig;
use wyag::git_object::{GitObject, GitObjectKind};
use wyag::header::{parse_commit, serialize_indexmap};
use wyag::hexstr::{bytes_to_hex, hex_str_to_bytes};
use wyag::show_ref::parse_ref_content;
use wyag::store::object_path_parts;
use wyag::tag::{cmd_tag, create_lightweight_tag, TagAction};

const SHA: &str = "2aae6c35c94fcfb415dbe95f408b9ce91ee846ed";

#[test]
fn ref_indirection_parsed() {
    let (indirect, target) = parse_ref_content(b"ref: refs/heads/master\n");
    assert!(indirect);
    assert_eq!(target, b"refs/heads/master".to_vec());
}

#[test]
fn ref_direct_digest_parsed() {
    let (indirect, target) = parse_ref_content(b"  2aae6c35c94fcfb415dbe95f408b9ce91ee846ed\n");
    assert!(!indirect);
    assert_eq!(target, SHA.as_bytes().to_vec());
}

#[test]
fn lightweight_tag_builds_ref() {
    let rw = create_lightweight_tag("v1".to_string(), SHA.to_string());
    assert_eq!(rw.rel_path, "refs/tags/v1");
    assert_eq!(rw.contents, format!("{}\n", SHA));
}

#[test]
fn tag_command_decides() {
    match cmd_tag("v1".to_string(), false, SHA.to_string()) {
        TagAction::Lightweight { ref_write } => {
            assert_eq!(ref_write.rel_path, "refs/tags/v1");
            assert_eq!(ref_write.contents, format!("{}\n", SHA));
        }
        TagAction::Annotated { .. } => panic!("expected a lightweight tag"),
    }
    match cmd_tag("v2".to_string(), true, SHA.to_string()) {
        TagAction::Annotated { tag, name } => {
            assert_eq!(name, "v2");
            match tag {
                GitObject::Tag { object, kind, tag: tag_name, tagger, message } => {
                    assert_eq!(object, SHA);
                    assert_eq!(kind, GitObjectKind::Commit);
                    assert_eq!(tag_name, "v2");
                    assert_eq!(tagger, "tagger <tagger1919@example.com>");
                    assert_eq!(message, "tag message");
                }
                other => panic!("expected a tag record, got {:?}", other),
            }
        }
        TagAction::Lightweight { .. } => panic!("expected an annotated tag"),
    }
}

#[test]
fn config_defaults() {
    let conf = GitConfig::default();
    assert_eq!(conf.repository_format_version, 0);
    assert!(!conf.filemode);
    assert!(!conf.bare);
    assert!(conf.supported());
    let newer = GitConfig { repository_format_version: 1, ..GitConfig::default() };
    assert!(!newer.supported());
}

#[test]
fn hex_text_round_trips() {
    assert_eq!(bytes_to_hex(&[0x00, 0x01, 0xff]), "0001ff");
    assert_eq!(hex_str_to_bytes("0001ff"), Some(vec![0x00, 0x01, 0xff]));
    assert_eq!(hex_str_to_bytes("0001F"), None);
    assert_eq!(hex_str_to_bytes("00FF"), None);
}

#[test]
fn object_path_split() {
    let (dir, file) = object_path_parts(SHA).unwrap();
    assert_eq!(dir, "2a");
    assert_eq!(file, "ae6c35c94fcfb415dbe95f408b9ce91ee846ed");
}

#[test]
fn header_codec_direct() {
    let lines = vec![
        ("alpha".to_string(), "one".to_string()),
        ("beta".to_string(), "two\nthree".to_string()),
        ("alpha".to_string(), "four".to_string()),
    ];
    let payload = serialize_indexmap(&lines, "the message\n");
    assert_eq!(
        payload,
        b"alpha one\nbeta two\n three\nalpha four\n\nthe message\n".to_vec()
    );
    let parsed = parse_commit(&payload).unwrap();
    assert_eq!(parsed.lines, lines);
    assert_eq!(parsed.message, "the message\n");
}

#[test]
fn header_non_ascii_round_trip() {
    let lines = vec![("author".to_string(), "Ægir Ångström".to_string())];
    let payload = serialize_indexmap(&lines, "naïve café\n");
    let parsed = parse_commit(&payload).unwrap();
    assert_eq!(parsed.lines, lines);
    assert_eq!(parsed.message, "naïve café\n");
}
