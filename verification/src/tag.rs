//! Tag creation: building the annotated tag record and the reference file
//! that points at a digest. Writing the object and the file is the caller's
//! work; everything decided here is decided from the arguments alone.

use vstd::prelude::*;
use vstd::string::StringExecFns;
use crate::git_object::{GitObject, GitObjectKind, RecordV};

verus! {

/// The path, below the git directory, of the reference for a tag name.
pub open spec fn tags_ref_path(name: Seq<char>) -> Seq<char> {
    "refs/tags/"@ + name
}

/// One reference file to create: its path below the git directory and its
/// contents, the pointed-at digest plus a trailing newline.
pub struct RefWrite {
    pub rel_path: String,
    pub contents: String,
}

/// Builds the reference file for `ref_name` pointing at `sha`.
pub fn create_ref(ref_name: String, sha: String) -> (r: RefWrite)
    ensures
        r.rel_path@ == tags_ref_path(ref_name@),
        r.contents@ == sha@ + "\n"@,
{
    let rel_path = "refs/tags/".to_owned().concat(ref_name.as_str());
    let contents = sha.concat("\n");
    RefWrite { rel_path, contents }
}

/// A lightweight tag is nothing but a reference to the given digest.
pub fn create_lightweight_tag(ref_name: String, object: String) -> (r: RefWrite)
    ensures
        r.rel_path@ == tags_ref_path(ref_name@),
        r.contents@ == object@ + "\n"@,
{
    create_ref(ref_name, object)
}

/// Builds the annotated tag record for `name`, pointing at a commit digest.
pub fn create_tag_object(name: String, object: String, tagger: String, message: String) -> (r:
    GitObject)
    ensures
        r@ == (RecordV::Tag {
            object: object@,
            kind: GitObjectKind::Commit,
            tag: name@,
            tagger: tagger@,
            message: message@,
        }),
{
    GitObject::Tag { object, kind: GitObjectKind::Commit, tag: name, tagger, message }
}

/// What the tag command decided to do.
pub enum TagAction {
    /// Write the tag record to the store, then point `refs/tags/<name>` at
    /// its digest.
    Annotated { tag: GitObject, name: String },
    /// Point `refs/tags/<name>` directly at the given digest.
    Lightweight { ref_write: RefWrite },
}

/// Decides what creating tag `name` for `object` does: an annotated tag
/// becomes a tag record carrying the command's fixed tagger and message; a
/// lightweight tag becomes a bare reference to `object`.
pub fn cmd_tag(name: String, annotate: bool, object: String) -> (r: TagAction)
    ensures
        annotate ==> (r matches TagAction::Annotated { tag, name: n } && n@ == name@ && tag@ == (
        RecordV::Tag {
            object: object@,
            kind: GitObjectKind::Commit,
            tag: name@,
            tagger: "tagger <tagger1919@example.com>"@,
            message: "tag message"@,
        })),
        !annotate ==> (r matches TagAction::Lightweight { ref_write } && ref_write.rel_path@
            == tags_ref_path(name@) && ref_write.contents@ == object@ + "\n"@),
{
    let tagger = "tagger <tagger1919@example.com>".to_owned();
    let message = "tag message".to_owned();
    if annotate {
        let ref_name = name.clone();
        TagAction::Annotated {
            tag: create_tag_object(name, object, tagger, message),
            name: ref_name,
        }
    } else {
        TagAction::Lightweight { ref_write: create_lightweight_tag(name, object) }
    }
}

} // verus!
