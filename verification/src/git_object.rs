//! The typed records of the object store — blob, commit, tag, tree — their
//! mathematical views, and the canonical payload each one encodes to.

use vstd::prelude::*;
use vstd::utf8::encode_utf8;
use crate::header::{header_payload_str, wf_key_str, wf_lines_str, parse_header_from, lines_utf8};
use crate::tree::{tree_payload, sort_entries, wf_entries, entries_sorted};
use crate::text::str_eq;
use crate::GitError;

verus! {

/// The four record kinds of the object store.
#[derive(Debug, Clone, PartialEq, Eq, Structural)]
pub enum GitObjectKind {
    Blob,
    Commit,
    Tag,
    Tree,
}

impl GitObjectKind {
    /// The kind name at the specification level.
    pub open spec fn name_chars(&self) -> Seq<char> {
        match self {
            GitObjectKind::Blob => "blob"@,
            GitObjectKind::Commit => "commit"@,
            GitObjectKind::Tag => "tag"@,
            GitObjectKind::Tree => "tree"@,
        }
    }

    /// The canonical ASCII name of the kind, as it appears in a framed object.
    pub fn as_str(&self) -> (r: &'static str)
        ensures
            r@ == self.name_chars(),
    {
        match self {
            GitObjectKind::Blob => "blob",
            GitObjectKind::Commit => "commit",
            GitObjectKind::Tag => "tag",
            GitObjectKind::Tree => "tree",
        }
    }

    /// Which kind a name denotes, if any.
    pub open spec fn from_chars(s: Seq<char>) -> Option<GitObjectKind> {
        if s == "blob"@ {
            Some(GitObjectKind::Blob)
        } else if s == "commit"@ {
            Some(GitObjectKind::Commit)
        } else if s == "tag"@ {
            Some(GitObjectKind::Tag)
        } else if s == "tree"@ {
            Some(GitObjectKind::Tree)
        } else {
            None
        }
    }

    pub fn from_str(s: &str) -> (r: Option<GitObjectKind>)
        ensures
            r == GitObjectKind::from_chars(s@),
    {
        if str_eq(s, "blob") {
            Some(GitObjectKind::Blob)
        } else if str_eq(s, "commit") {
            Some(GitObjectKind::Commit)
        } else if str_eq(s, "tag") {
            Some(GitObjectKind::Tag)
        } else if str_eq(s, "tree") {
            Some(GitObjectKind::Tree)
        } else {
            None
        }
    }
}

/// Reading a kind's own name back yields that kind.
pub proof fn lemma_kind_name_roundtrip(k: GitObjectKind)
    ensures
        GitObjectKind::from_chars(k.name_chars()) == Some(k),
{
    reveal_strlit("blob");
    reveal_strlit("commit");
    reveal_strlit("tag");
    reveal_strlit("tree");
    assert("blob"@.len() == 4 && "commit"@.len() == 6 && "tag"@.len() == 3 && "tree"@.len() == 4);
    match k {
        GitObjectKind::Blob => {},
        GitObjectKind::Commit => {
            assert("commit"@ != "blob"@);
        },
        GitObjectKind::Tag => {
            assert("tag"@ != "blob"@ && "tag"@ != "commit"@);
        },
        GitObjectKind::Tree => {
            assert("tree"@ != "blob"@) by {
                assert("tree"@[0] == 't' && "blob"@[0] == 'b');
            }
            assert("tree"@ != "commit"@ && "tree"@ != "tag"@);
        },
    }
}

/// What a tree entry may point at: a subtree, a file in one of three
/// flavours, or a commit (a submodule).
#[derive(Debug, Clone, Copy, PartialEq, Eq, Structural)]
pub enum FileType {
    Tree,
    RegularFile,
    SymbolicLink,
    Submodule,
}

impl FileType {
    /// The two-character mode family of the entry.
    pub open spec fn mode_chars(&self) -> Seq<char> {
        match self {
            FileType::Tree => "04"@,
            FileType::RegularFile => "10"@,
            FileType::SymbolicLink => "12"@,
            FileType::Submodule => "16"@,
        }
    }

    pub fn as_str(&self) -> (r: &'static str)
        ensures
            r@ == self.mode_chars(),
    {
        match self {
            FileType::Tree => "04",
            FileType::RegularFile => "10",
            FileType::SymbolicLink => "12",
            FileType::Submodule => "16",
        }
    }

    /// The kind of object an entry of this type points at.
    pub open spec fn kind_spec(&self) -> GitObjectKind {
        match self {
            FileType::Tree => GitObjectKind::Tree,
            FileType::RegularFile => GitObjectKind::Blob,
            FileType::SymbolicLink => GitObjectKind::Blob,
            FileType::Submodule => GitObjectKind::Commit,
        }
    }

    pub fn kind(&self) -> (k: GitObjectKind)
        ensures
            k == self.kind_spec(),
    {
        match self {
            FileType::Tree => GitObjectKind::Tree,
            FileType::RegularFile => GitObjectKind::Blob,
            FileType::SymbolicLink => GitObjectKind::Blob,
            FileType::Submodule => GitObjectKind::Commit,
        }
    }

    /// Which type a two-byte ASCII mode denotes, if any.
    pub open spec fn from_mode_bytes(b0: u8, b1: u8) -> Option<FileType> {
        if b0 == 48u8 && b1 == 52u8 {
            Some(FileType::Tree)
        } else if b0 == 49u8 && b1 == 48u8 {
            Some(FileType::RegularFile)
        } else if b0 == 49u8 && b1 == 50u8 {
            Some(FileType::SymbolicLink)
        } else if b0 == 49u8 && b1 == 54u8 {
            Some(FileType::Submodule)
        } else {
            None
        }
    }

    /// Recognises a two-byte mode field.
    pub fn try_from(value: &[u8]) -> (r: Option<FileType>)
        ensures
            value@.len() == 2 ==> r == FileType::from_mode_bytes(value@[0], value@[1]),
            value@.len() != 2 ==> r is None,
    {
        if value.len() != 2 {
            return None;
        }
        let b0 = value[0];
        let b1 = value[1];
        if b0 == 48u8 && b1 == 52u8 {
            Some(FileType::Tree)
        } else if b0 == 49u8 && b1 == 48u8 {
            Some(FileType::RegularFile)
        } else if b0 == 49u8 && b1 == 50u8 {
            Some(FileType::SymbolicLink)
        } else if b0 == 49u8 && b1 == 54u8 {
            Some(FileType::Submodule)
        } else {
            None
        }
    }
}

/// One entry of a tree record.
#[derive(Debug, Clone, PartialEq, Eq)]
pub struct TreeOject {
    pub file_type: FileType,
    pub permission: String,
    pub path: String,
    pub sha: String,
}

/// The specification view of a tree entry.
pub struct TreeEntryV {
    pub file_type: FileType,
    pub permission: Seq<char>,
    pub path: Seq<char>,
    pub sha: Seq<char>,
}

/// The view of a list of strings.
pub open spec fn strings_view(ss: Seq<String>) -> Seq<Seq<char>> {
    ss.map_values(|s: String| s@)
}

impl View for TreeOject {
    type V = TreeEntryV;

    open spec fn view(&self) -> TreeEntryV {
        TreeEntryV {
            file_type: self.file_type,
            permission: self.permission@,
            path: self.path@,
            sha: self.sha@,
        }
    }
}

/// A typed record of the store.
#[derive(Debug, Clone, PartialEq, Eq)]
pub enum GitObject {
    Blob { content: Vec<u8> },
    Commit {
        tree: String,
        parent: Vec<String>,
        author: String,
        committer: String,
        message: String,
    },
    Tag { object: String, kind: GitObjectKind, tag: String, tagger: String, message: String },
    Tree(Vec<TreeOject>),
}

/// The view of an executable entry list.
pub open spec fn entries_view(es: Seq<TreeOject>) -> Seq<TreeEntryV> {
    es.map_values(|e: TreeOject| e@)
}

/// The specification view of a record.
pub enum RecordV {
    Blob { content: Seq<u8> },
    Commit {
        tree: Seq<char>,
        parent: Seq<Seq<char>>,
        author: Seq<char>,
        committer: Seq<char>,
        message: Seq<char>,
    },
    Tag {
        object: Seq<char>,
        kind: GitObjectKind,
        tag: Seq<char>,
        tagger: Seq<char>,
        message: Seq<char>,
    },
    Tree { entries: Seq<TreeEntryV> },
}

impl View for GitObject {
    type V = RecordV;

    open spec fn view(&self) -> RecordV {
        match self {
            GitObject::Blob { content } => RecordV::Blob { content: content@ },
            GitObject::Commit { tree, parent, author, committer, message } => RecordV::Commit {
                tree: tree@,
                parent: strings_view(parent@),
                author: author@,
                committer: committer@,
                message: message@,
            },
            GitObject::Tag { object, kind, tag, tagger, message } => RecordV::Tag {
                object: object@,
                kind: *kind,
                tag: tag@,
                tagger: tagger@,
                message: message@,
            },
            GitObject::Tree(entries) => RecordV::Tree { entries: entries_view(entries@) },
        }
    }
}

/// The `parent` header lines of a commit, one per parent in order.
pub open spec fn parent_lines(parents: Seq<Seq<char>>) -> Seq<(Seq<char>, Seq<char>)> {
    parents.map_values(|p: Seq<char>| ("parent"@, p))
}

/// The header lines of a commit payload, in canonical order.
pub open spec fn commit_lines(
    tree: Seq<char>,
    parents: Seq<Seq<char>>,
    author: Seq<char>,
    committer: Seq<char>,
) -> Seq<(Seq<char>, Seq<char>)> {
    seq![("tree"@, tree)] + parent_lines(parents) + seq![
        ("author"@, author),
        ("committer"@, committer),
    ]
}

/// The header lines of a tag payload, in canonical order.
pub open spec fn tag_lines(
    object: Seq<char>,
    kind: GitObjectKind,
    tag: Seq<char>,
    tagger: Seq<char>,
) -> Seq<(Seq<char>, Seq<char>)> {
    seq![("object"@, object), ("type"@, kind.name_chars()), ("tag"@, tag), ("tagger"@, tagger)]
}

impl RecordV {
    /// The kind a record belongs to.
    pub open spec fn kind(self) -> GitObjectKind {
        match self {
            RecordV::Blob { .. } => GitObjectKind::Blob,
            RecordV::Commit { .. } => GitObjectKind::Commit,
            RecordV::Tag { .. } => GitObjectKind::Tag,
            RecordV::Tree { .. } => GitObjectKind::Tree,
        }
    }

    /// Whether the record can be encoded at all: tree entries must carry a
    /// well-formed permission, name and child digest; the other kinds are
    /// encodable as constructed.
    pub open spec fn encodable(self) -> bool {
        match self {
            RecordV::Tree { entries } => wf_entries(entries),
            _ => true,
        }
    }

    /// A constructible record: encodable, with tree entries already in
    /// canonical order. Decoding the encoding of such a record gives it back
    /// exactly.
    pub open spec fn wf(self) -> bool {
        match self {
            RecordV::Tree { entries } => wf_entries(entries) && entries_sorted(entries),
            _ => true,
        }
    }

    /// The payload of a record whose entries are stored in wire order.
    pub open spec fn payload(self) -> Seq<u8> {
        match self {
            RecordV::Blob { content } => content,
            RecordV::Commit { tree, parent, author, committer, message } => header_payload_str(
                commit_lines(tree, parent, author, committer),
                message,
            ),
            RecordV::Tag { object, kind, tag, tagger, message } => header_payload_str(
                tag_lines(object, kind, tag, tagger),
                message,
            ),
            RecordV::Tree { entries } => tree_payload(entries),
        }
    }

    /// The payload the encoder actually emits: tree entries are sorted first.
    pub open spec fn canonical_payload(self) -> Seq<u8> {
        match self {
            RecordV::Tree { entries } => tree_payload(sort_entries(entries)),
            _ => self.payload(),
        }
    }
}

/// On a constructible record the encoder's output is the record's payload:
/// sorting already sorted entries changes nothing.
pub proof fn lemma_wf_canonical_payload(v: RecordV)
    requires
        v.wf(),
    ensures
        v.canonical_payload() == v.payload(),
{
    match v {
        RecordV::Tree { entries } => {
            crate::tree::lemma_sort_sorted(entries);
        },
        _ => {},
    }
}

impl GitObject {
    /// The kind of this record.
    pub fn kind(&self) -> (k: GitObjectKind)
        ensures
            k == self@.kind(),
    {
        match self {
            GitObject::Blob { .. } => GitObjectKind::Blob,
            GitObject::Commit { .. } => GitObjectKind::Commit,
            GitObject::Tag { .. } => GitObjectKind::Tag,
            GitObject::Tree(..) => GitObjectKind::Tree,
        }
    }
}

/// The fixed header keys are well-formed.
pub proof fn lemma_header_keys_wf()
    ensures
        wf_key_str("tree"@),
        wf_key_str("parent"@),
        wf_key_str("author"@),
        wf_key_str("committer"@),
        wf_key_str("object"@),
        wf_key_str("type"@),
        wf_key_str("tag"@),
        wf_key_str("tagger"@),
        wf_key_str("blob"@),
        wf_key_str("commit"@),
{
    reveal_strlit("tree");
    reveal_strlit("parent");
    reveal_strlit("author");
    reveal_strlit("committer");
    reveal_strlit("object");
    reveal_strlit("type");
    reveal_strlit("tag");
    reveal_strlit("tagger");
    reveal_strlit("blob");
    reveal_strlit("commit");
}

/// Every kind name is well-formed as a key (used by the framing header).
pub proof fn lemma_kind_names_wf(k: GitObjectKind)
    ensures
        wf_key_str(k.name_chars()),
{
    lemma_header_keys_wf();
    match k {
        GitObjectKind::Blob => {},
        GitObjectKind::Commit => {},
        GitObjectKind::Tag => {},
        GitObjectKind::Tree => {},
    }
}

/// The lines of a commit payload have well-formed keys.
pub proof fn lemma_commit_lines_wf(
    tree: Seq<char>,
    parents: Seq<Seq<char>>,
    author: Seq<char>,
    committer: Seq<char>,
)
    ensures
        wf_lines_str(commit_lines(tree, parents, author, committer)),
{
    lemma_header_keys_wf();
    let ls = commit_lines(tree, parents, author, committer);
    assert forall|i: int| 0 <= i < ls.len() implies wf_key_str(#[trigger] ls[i].0) by {
        if i == 0 {
            assert(ls[0].0 == "tree"@);
        } else if i <= parents.len() {
            assert(ls[i] == parent_lines(parents)[i - 1]);
            assert(ls[i].0 == "parent"@);
        } else if i == parents.len() + 1 {
            assert(ls[i].0 == "author"@);
        } else {
            assert(ls[i].0 == "committer"@);
        }
    }
}

/// The lines of a tag payload have well-formed keys.
pub proof fn lemma_tag_lines_wf(
    object: Seq<char>,
    kind: GitObjectKind,
    tag: Seq<char>,
    tagger: Seq<char>,
)
    ensures
        wf_lines_str(tag_lines(object, kind, tag, tagger)),
{
    lemma_header_keys_wf();
    let ls = tag_lines(object, kind, tag, tagger);
    assert forall|i: int| 0 <= i < ls.len() implies wf_key_str(#[trigger] ls[i].0) by {
        if i == 0 {
        } else if i == 1 {
        } else if i == 2 {
        } else {
        }
    }
}

/// The first value stored under `key`, in line order.
pub open spec fn first_val(ls: Seq<(Seq<char>, Seq<char>)>, key: Seq<char>) -> Option<Seq<char>>
    decreases ls.len(),
{
    if ls.len() == 0 {
        None
    } else if ls[0].0 == key {
        Some(ls[0].1)
    } else {
        first_val(ls.drop_first(), key)
    }
}

/// Every value stored under `key`, in line order.
pub open spec fn vals_of(ls: Seq<(Seq<char>, Seq<char>)>, key: Seq<char>) -> Seq<Seq<char>>
    decreases ls.len(),
{
    if ls.len() == 0 {
        Seq::empty()
    } else if ls[0].0 == key {
        seq![ls[0].1] + vals_of(ls.drop_first(), key)
    } else {
        vals_of(ls.drop_first(), key)
    }
}

proof fn lemma_first_val_concat(
    a: Seq<(Seq<char>, Seq<char>)>,
    b: Seq<(Seq<char>, Seq<char>)>,
    key: Seq<char>,
)
    ensures
        first_val(a + b, key) == if first_val(a, key) is Some {
            first_val(a, key)
        } else {
            first_val(b, key)
        },
    decreases a.len(),
{
    if a.len() == 0 {
        assert(a + b =~= b);
    } else {
        assert((a + b).len() > 0);
        assert((a + b)[0] == a[0]);
        assert((a + b).drop_first() =~= a.drop_first() + b);
        lemma_first_val_concat(a.drop_first(), b, key);
    }
}

proof fn lemma_vals_of_concat(
    a: Seq<(Seq<char>, Seq<char>)>,
    b: Seq<(Seq<char>, Seq<char>)>,
    key: Seq<char>,
)
    ensures
        vals_of(a + b, key) == vals_of(a, key) + vals_of(b, key),
    decreases a.len(),
{
    if a.len() == 0 {
        assert(a + b =~= b);
        assert(vals_of(a, key) + vals_of(b, key) =~= vals_of(b, key));
    } else {
        assert((a + b)[0] == a[0]);
        assert((a + b).drop_first() =~= a.drop_first() + b);
        lemma_vals_of_concat(a.drop_first(), b, key);
        if a[0].0 == key {
            assert(seq![a[0].1] + (vals_of(a.drop_first(), key) + vals_of(b, key)) =~= (seq![
                a[0].1,
            ] + vals_of(a.drop_first(), key)) + vals_of(b, key));
        }
    }
}


proof fn lemma_vals_of_none(ls: Seq<(Seq<char>, Seq<char>)>, key: Seq<char>)
    requires
        forall|i: int| 0 <= i < ls.len() ==> #[trigger] ls[i].0 != key,
    ensures
        vals_of(ls, key) == Seq::<Seq<char>>::empty(),
        first_val(ls, key) is None,
    decreases ls.len(),
{
    if ls.len() > 0 {
        assert(ls[0].0 != key);
        assert(forall|i: int|
            0 <= i < ls.drop_first().len() ==> #[trigger] ls.drop_first()[i] == ls[i + 1]);
        lemma_vals_of_none(ls.drop_first(), key);
    }
}

proof fn lemma_first_val_at(ls: Seq<(Seq<char>, Seq<char>)>, key: Seq<char>, idx: int)
    requires
        0 <= idx < ls.len(),
        ls[idx].0 == key,
        forall|j: int| 0 <= j < idx ==> #[trigger] ls[j].0 != key,
    ensures
        first_val(ls, key) == Some(ls[idx].1),
    decreases idx,
{
    if idx == 0 {
    } else {
        assert(ls[0].0 != key);
        assert(forall|j: int|
            0 <= j < ls.drop_first().len() ==> #[trigger] ls.drop_first()[j] == ls[j + 1]);
        lemma_first_val_at(ls.drop_first(), key, idx - 1);
    }
}

proof fn lemma_parent_lines_vals(ps: Seq<Seq<char>>)
    ensures
        vals_of(parent_lines(ps), "parent"@) == ps,
    decreases ps.len(),
{
    let pl = parent_lines(ps);
    if ps.len() == 0 {
        assert(pl =~= Seq::<(Seq<char>, Seq<char>)>::empty());
        assert(vals_of(pl, "parent"@) =~= ps);
    } else {
        assert(pl[0] == ("parent"@, ps[0]));
        assert(pl.drop_first() =~= parent_lines(ps.drop_first()));
        lemma_parent_lines_vals(ps.drop_first());
        assert(vals_of(pl, "parent"@) == seq![ps[0]] + ps.drop_first());
        assert(seq![ps[0]] + ps.drop_first() =~= ps);
    }
}

/// Reading the canonical commit lines back recovers each field exactly.
pub proof fn lemma_commit_extract(
    t: Seq<char>,
    ps: Seq<Seq<char>>,
    a: Seq<char>,
    c: Seq<char>,
)
    ensures
        first_val(commit_lines(t, ps, a, c), "tree"@) == Some(t),
        vals_of(commit_lines(t, ps, a, c), "parent"@) == ps,
        first_val(commit_lines(t, ps, a, c), "author"@) == Some(a),
        first_val(commit_lines(t, ps, a, c), "committer"@) == Some(c),
{
    reveal_strlit("tree");
    reveal_strlit("parent");
    reveal_strlit("author");
    reveal_strlit("committer");
    assert("tree"@.len() == 4 && "parent"@.len() == 6 && "author"@.len() == 6 && "committer"@.len()
        == 9);
    assert("parent"@ != "author"@) by {
        assert("parent"@[0] == 'p' && "author"@[0] == 'a');
    }
    let first = seq![("tree"@, t)];
    let mid = parent_lines(ps);
    let last = seq![("author"@, a), ("committer"@, c)];
    let ls = commit_lines(t, ps, a, c);
    assert(ls == first + mid + last);
    assert(ls.len() == 1 + ps.len() + 2);
    assert forall|i: int| 0 <= i < ls.len() implies #[trigger] ls[i].0 == (if i == 0 {
        "tree"@
    } else if i <= ps.len() {
        "parent"@
    } else if i == ps.len() + 1 {
        "author"@
    } else {
        "committer"@
    }) && ls[i].1 == (if i == 0 {
        t
    } else if i <= ps.len() {
        ps[i - 1]
    } else if i == ps.len() + 1 {
        a
    } else {
        c
    }) by {
        if i == 0 {
            assert(ls[0] == first[0]);
        } else if i <= ps.len() {
            assert(ls[i] == mid[i - 1]);
            assert(mid[i - 1] == ("parent"@, ps[i - 1]));
        } else {
            assert(ls[i] == last[i - 1 - ps.len()]);
        }
    }
    lemma_first_val_at(ls, "tree"@, 0);
    lemma_first_val_at(ls, "author"@, ps.len() as int + 1);
    lemma_first_val_at(ls, "committer"@, ps.len() as int + 2);
    // parents: split the concatenation around the parent block
    lemma_vals_of_concat(first + mid, last, "parent"@);
    lemma_vals_of_concat(first, mid, "parent"@);
    lemma_vals_of_none(first, "parent"@);
    lemma_vals_of_none(last, "parent"@);
    lemma_parent_lines_vals(ps);
    assert(vals_of(ls, "parent"@) =~= ps);
}

/// Reading the canonical tag lines back recovers each field exactly.
pub proof fn lemma_tag_extract(o: Seq<char>, k: GitObjectKind, tg: Seq<char>, tgr: Seq<char>)
    ensures
        first_val(tag_lines(o, k, tg, tgr), "object"@) == Some(o),
        first_val(tag_lines(o, k, tg, tgr), "type"@) == Some(k.name_chars()),
        first_val(tag_lines(o, k, tg, tgr), "tag"@) == Some(tg),
        first_val(tag_lines(o, k, tg, tgr), "tagger"@) == Some(tgr),
{
    reveal_strlit("object");
    reveal_strlit("type");
    reveal_strlit("tag");
    reveal_strlit("tagger");
    assert("object"@.len() == 6 && "type"@.len() == 4 && "tag"@.len() == 3 && "tagger"@.len()
        == 6);
    assert("object"@ != "tagger"@) by {
        assert("object"@[0] == 'o' && "tagger"@[0] == 't');
    }
    let ls = tag_lines(o, k, tg, tgr);
    assert(ls[0] == ("object"@, o));
    assert(ls[1] == ("type"@, k.name_chars()));
    assert(ls[2] == ("tag"@, tg));
    assert(ls[3] == ("tagger"@, tgr));
    lemma_first_val_at(ls, "object"@, 0);
    lemma_first_val_at(ls, "type"@, 1);
    lemma_first_val_at(ls, "tag"@, 2);
    lemma_first_val_at(ls, "tagger"@, 3);
}

/// An `Ok` commit decode is exactly the extraction of the parsed header:
/// the payload parses as header lines and a message, the message is the
/// record's message, and each field is the first value — for parents, every
/// value in order — under its key.
pub open spec fn commit_sound(data: Seq<u8>, v: RecordV) -> bool {
    exists|hl: Seq<(Seq<char>, Seq<char>)>|
        #![trigger lines_utf8(hl)]
        parse_header_from(data, 0) == Some((lines_utf8(hl), encode_utf8(v->Commit_message)))
            && first_val(hl, "tree"@) == Some(v->Commit_tree) && vals_of(hl, "parent"@)
            == v->Commit_parent && first_val(hl, "author"@) == Some(v->Commit_author)
            && first_val(hl, "committer"@) == Some(v->Commit_committer)
}

/// An `Ok` tag decode is exactly the extraction of the parsed header.
pub open spec fn tag_sound(data: Seq<u8>, v: RecordV) -> bool {
    exists|hl: Seq<(Seq<char>, Seq<char>)>|
        #![trigger lines_utf8(hl)]
        parse_header_from(data, 0) == Some((lines_utf8(hl), encode_utf8(v->Tag_message)))
            && first_val(hl, "object"@) == Some(v->Tag_object) && first_val(hl, "type"@) == Some(
            v->Tag_kind.name_chars(),
        ) && first_val(hl, "tag"@) == Some(v->Tag_tag) && first_val(hl, "tagger"@) == Some(
            v->Tag_tagger,
        )
}

/// Finds the first line carrying `key` and hands its value out.
fn find_first(lines: &Vec<(String, String)>, key: &str) -> (r: Option<String>)
    ensures
        r matches Some(s) ==> crate::header::str_pairs_view(lines@).len() > 0 && first_val(
            crate::header::str_pairs_view(lines@),
            key@,
        ) == Some(s@),
        r is None ==> first_val(crate::header::str_pairs_view(lines@), key@) is None,
{
    let ghost big = crate::header::str_pairs_view(lines@);
    let mut i: usize = 0;
    proof {
        assert(big.skip(0) =~= big);
    }
    while i < lines.len()
        invariant
            0 <= i <= lines@.len(),
            big == crate::header::str_pairs_view(lines@),
            big.len() == lines@.len(),
            first_val(big, key@) == first_val(big.skip(i as int), key@),
        decreases lines@.len() - i,
    {
        proof {
            assert(big.skip(i as int)[0] == big[i as int]);
            assert(big[i as int] == (lines@[i as int].0@, lines@[i as int].1@));
        }
        let pair = &lines[i];
        if str_eq(pair.0.as_str(), key) {
            let v = pair.1.clone();
            return Some(v);
        }
        proof {
            assert(big.skip(i as int).drop_first() =~= big.skip(i + 1));
        }
        i = i + 1;
    }
    proof {
        assert(big.skip(i as int) =~= Seq::<(Seq<char>, Seq<char>)>::empty());
    }
    None
}

/// Collects the values of every line carrying `key`, in order.
fn collect_all(lines: &Vec<(String, String)>, key: &str) -> (r: Vec<String>)
    ensures
        strings_view(r@) == vals_of(crate::header::str_pairs_view(lines@), key@),
{
    let ghost big = crate::header::str_pairs_view(lines@);
    let mut out: Vec<String> = Vec::new();
    let mut i: usize = 0;
    proof {
        assert(strings_view(out@) =~= Seq::<Seq<char>>::empty());
        assert(big.skip(0) =~= big);
    }
    while i < lines.len()
        invariant
            0 <= i <= lines@.len(),
            big == crate::header::str_pairs_view(lines@),
            big.len() == lines@.len(),
            strings_view(out@) + vals_of(big.skip(i as int), key@) == vals_of(big, key@),
        decreases lines@.len() - i,
    {
        let ghost acc0 = strings_view(out@);
        proof {
            assert(big.skip(i as int)[0] == big[i as int]);
            assert(big[i as int] == (lines@[i as int].0@, lines@[i as int].1@));
            assert(big.skip(i as int).drop_first() =~= big.skip(i + 1));
        }
        let pair = &lines[i];
        if str_eq(pair.0.as_str(), key) {
            out.push(pair.1.clone());
            proof {
                assert(strings_view(out@) =~= acc0.push(lines@[i as int].1@));
                assert(vals_of(big.skip(i as int), key@) == seq![big[i as int].1] + vals_of(
                    big.skip(i + 1),
                    key@,
                ));
                assert(acc0.push(big[i as int].1) + vals_of(big.skip(i + 1), key@) =~= acc0 + (seq![
                    big[i as int].1,
                ] + vals_of(big.skip(i + 1), key@)));
            }
        }
        i = i + 1;
    }
    proof {
        assert(big.skip(i as int) =~= Seq::<(Seq<char>, Seq<char>)>::empty());
        assert(strings_view(out@) + Seq::<Seq<char>>::empty() =~= strings_view(out@));
    }
    out
}

/// Encodes a record into its canonical payload bytes.
///
/// Succeeds exactly on encodable records; a tree with a malformed entry is
/// rejected as `InvalidRecord` rather than encoded to invalid bytes.
pub fn serialize_object(obj: &GitObject) -> (r: Result<Vec<u8>, GitError>)
    ensures
        r is Ok <==> obj@.encodable(),
        r matches Ok(v) ==> v@ == obj@.canonical_payload(),
{
    match obj {
        GitObject::Blob { content } => {
            let out = vstd::slice::slice_to_vec(content.as_slice());
            Ok(out)
        },
        GitObject::Commit { tree, parent, author, committer, message } => {
            let ghost parents_view = strings_view(parent@);
            let ghost pl = parent_lines(parents_view);
            let mut lines: Vec<(String, String)> = Vec::new();
            lines.push(("tree".to_owned(), tree.clone()));
            proof {
                assert(crate::header::str_pairs_view(lines@) =~= seq![("tree"@, tree@)] + pl.take(
                    0,
                ));
            }
            let mut i: usize = 0;
            while i < parent.len()
                invariant
                    0 <= i <= parent@.len(),
                    parents_view == parent@.map_values(|s: String| s@),
                    pl == parent_lines(parents_view),
                    pl.len() == parent@.len(),
                    crate::header::str_pairs_view(lines@) == seq![("tree"@, tree@)] + pl.take(
                        i as int,
                    ),
                decreases parent@.len() - i,
            {
                let ghost l0 = lines@;
                lines.push(("parent".to_owned(), parent[i].clone()));
                proof {
                    assert(pl[i as int] == ("parent"@, parents_view[i as int]));
                    assert(parents_view[i as int] == parent@[i as int]@);
                    assert(pl.take(i + 1) =~= pl.take(i as int).push(pl[i as int]));
                    assert(crate::header::str_pairs_view(lines@) =~= crate::header::str_pairs_view(
                        l0,
                    ).push(("parent"@, parent@[i as int]@)));
                    assert(crate::header::str_pairs_view(lines@) =~= seq![("tree"@, tree@)]
                        + pl.take(i + 1));
                }
                i = i + 1;
            }
            lines.push(("author".to_owned(), author.clone()));
            lines.push(("committer".to_owned(), committer.clone()));
            proof {
                assert(pl.take(pl.len() as int) =~= pl);
                assert(crate::header::str_pairs_view(lines@) =~= commit_lines(
                    tree@,
                    parents_view,
                    author@,
                    committer@,
                )) by {
                    let big = crate::header::str_pairs_view(lines@);
                    let want = commit_lines(tree@, parents_view, author@, committer@);
                    assert(big.len() == want.len());
                    assert forall|j: int| 0 <= j < big.len() implies big[j] == want[j] by {
                        assert(big[j] == (lines@[j].0@, lines@[j].1@));
                        if j == 0 {
                            assert(want[0] == ("tree"@, tree@));
                        } else if j <= pl.len() {
                            assert(want[j] == pl[j - 1]);
                        } else if j == pl.len() + 1 {
                            assert(want[j] == ("author"@, author@));
                        } else {
                            assert(want[j] == ("committer"@, committer@));
                        }
                    }
                }
                lemma_commit_lines_wf(tree@, parents_view, author@, committer@);
            }
            Ok(crate::header::serialize_indexmap(&lines, message.as_str()))
        },
        GitObject::Tag { object, kind, tag, tagger, message } => {
            let mut lines: Vec<(String, String)> = Vec::new();
            lines.push(("object".to_owned(), object.clone()));
            lines.push(("type".to_owned(), kind.as_str().to_owned()));
            lines.push(("tag".to_owned(), tag.clone()));
            lines.push(("tagger".to_owned(), tagger.clone()));
            proof {
                assert(crate::header::str_pairs_view(lines@) =~= tag_lines(
                    object@,
                    *kind,
                    tag@,
                    tagger@,
                )) by {
                    let big = crate::header::str_pairs_view(lines@);
                    assert(forall|j: int|
                        0 <= j < big.len() ==> #[trigger] big[j] == (lines@[j].0@, lines@[j].1@));
                }
                lemma_tag_lines_wf(object@, *kind, tag@, tagger@);
            }
            Ok(crate::header::serialize_indexmap(&lines, message.as_str()))
        },
        GitObject::Tree(_) => crate::tree::tree_serialize(obj),
    }
}

/// Decodes a commit payload.
fn decode_commit(data: &[u8]) -> (r: Result<GitObject, GitError>)
    ensures
        forall|v: RecordV|
            #![trigger v.payload()]
            v is Commit && v.encodable() && data@ == v.payload() ==> (r matches Ok(o) && o@ == v),
        r matches Ok(o) ==> o@ is Commit && commit_sound(data@, o@),
        r matches Err(e) ==> e is CorruptPayload,
{
    let h = match crate::header::parse_commit(data) {
        Ok(h) => h,
        Err(e) => {
            proof {
                assert forall|v: RecordV|
                    #![trigger v.payload()]
                    !(v is Commit && v.encodable() && data@ == v.payload()) by {
                    if v is Commit && v.encodable() && data@ == v.payload() {
                        lemma_commit_lines_wf(
                            v->Commit_tree,
                            v->Commit_parent,
                            v->Commit_author,
                            v->Commit_committer,
                        );
                    }
                }
            }
            return Err(e);
        },
    };
    let ghost hl = crate::header::str_pairs_view(h.lines@);
    let tree = match find_first(&h.lines, "tree") {
        Some(t) => t,
        None => {
            proof {
                lemma_no_commit_payload(data@, hl, h.message@);
            }
            return Err(GitError::CorruptPayload { offset: h.message_offset });
        },
    };
    let parent = collect_all(&h.lines, "parent");
    let author = match find_first(&h.lines, "author") {
        Some(a) => a,
        None => {
            proof {
                lemma_no_commit_payload(data@, hl, h.message@);
            }
            return Err(GitError::CorruptPayload { offset: h.message_offset });
        },
    };
    let committer = match find_first(&h.lines, "committer") {
        Some(c) => c,
        None => {
            proof {
                lemma_no_commit_payload(data@, hl, h.message@);
            }
            return Err(GitError::CorruptPayload { offset: h.message_offset });
        },
    };
    let o = GitObject::Commit { tree, parent, author, committer, message: h.message };
    proof {
        assert(parse_header_from(data@, 0) == Some((lines_utf8(hl), encode_utf8(o@->Commit_message))));
        assert(first_val(hl, "tree"@) == Some(o@->Commit_tree));
        assert(vals_of(hl, "parent"@) == o@->Commit_parent);
        assert(first_val(hl, "author"@) == Some(o@->Commit_author));
        assert(first_val(hl, "committer"@) == Some(o@->Commit_committer));
        assert(commit_sound(data@, o@));
        assert forall|v: RecordV|
            #![trigger v.payload()]
            v is Commit && v.encodable() && data@ == v.payload() implies o@ == v by {
            let vt = v->Commit_tree;
            let vps = v->Commit_parent;
            let va = v->Commit_author;
            let vc = v->Commit_committer;
            let vm = v->Commit_message;
            lemma_commit_lines_wf(vt, vps, va, vc);
            assert(hl == commit_lines(vt, vps, va, vc));
            lemma_commit_extract(vt, vps, va, vc);
        }
    }
    Ok(o)
}

/// From an exec `Err` of the extraction, no commit payload can equal `data`.
proof fn lemma_no_commit_payload(data: Seq<u8>, hl: Seq<(Seq<char>, Seq<char>)>, hm: Seq<char>)
    requires
        crate::header::header_payload_str(hl, hm) == crate::header::header_payload_str(hl, hm),
        forall|ls: Seq<(Seq<char>, Seq<char>)>, msg: Seq<char>|
            wf_lines_str(ls) && data == #[trigger] crate::header::header_payload_str(ls, msg)
                ==> ls == hl && msg == hm,
        first_val(hl, "tree"@) is None || first_val(hl, "author"@) is None || first_val(
            hl,
            "committer"@,
        ) is None,
    ensures
        forall|v: RecordV| #![trigger v.payload()] !(v is Commit && data == v.payload()),
{
    assert forall|v: RecordV| #![trigger v.payload()] !(v is Commit && data == v.payload()) by {
        if v is Commit && data == v.payload() {
            let vt = v->Commit_tree;
            let vps = v->Commit_parent;
            let va = v->Commit_author;
            let vc = v->Commit_committer;
            lemma_commit_lines_wf(vt, vps, va, vc);
            assert(hl == commit_lines(vt, vps, va, vc));
            lemma_commit_extract(vt, vps, va, vc);
        }
    }
}

/// Decodes a tag payload.
fn decode_tag(data: &[u8]) -> (r: Result<GitObject, GitError>)
    ensures
        forall|v: RecordV|
            #![trigger v.payload()]
            v is Tag && v.encodable() && data@ == v.payload() ==> (r matches Ok(o) && o@ == v),
        r matches Ok(o) ==> o@ is Tag && tag_sound(data@, o@),
        r matches Err(e) ==> e is CorruptPayload,
{
    let h = match crate::header::parse_commit(data) {
        Ok(h) => h,
        Err(e) => {
            proof {
                assert forall|v: RecordV|
                    #![trigger v.payload()]
                    !(v is Tag && v.encodable() && data@ == v.payload()) by {
                    if v is Tag && v.encodable() && data@ == v.payload() {
                        lemma_tag_lines_wf(v->Tag_object, v->Tag_kind, v->Tag_tag, v->Tag_tagger);
                    }
                }
            }
            return Err(e);
        },
    };
    let ghost hl = crate::header::str_pairs_view(h.lines@);
    let object = match find_first(&h.lines, "object") {
        Some(x) => x,
        None => {
            proof {
                lemma_no_tag_payload(data@, hl);
            }
            return Err(GitError::CorruptPayload { offset: h.message_offset });
        },
    };
    let kind_field = match find_first(&h.lines, "type") {
        Some(x) => x,
        None => {
            proof {
                lemma_no_tag_payload(data@, hl);
            }
            return Err(GitError::CorruptPayload { offset: h.message_offset });
        },
    };
    let kind = match GitObjectKind::from_str(kind_field.as_str()) {
        Some(k) => k,
        None => {
            proof {
                assert forall|v: RecordV|
                    #![trigger v.payload()]
                    !(v is Tag && data@ == v.payload()) by {
                    if v is Tag && data@ == v.payload() {
                        lemma_tag_lines_wf(v->Tag_object, v->Tag_kind, v->Tag_tag, v->Tag_tagger);
                        assert(hl == tag_lines(v->Tag_object, v->Tag_kind, v->Tag_tag, v->Tag_tagger));
                        lemma_tag_extract(v->Tag_object, v->Tag_kind, v->Tag_tag, v->Tag_tagger);
                        lemma_kind_name_roundtrip(v->Tag_kind);
                    }
                }
            }
            return Err(GitError::CorruptPayload { offset: h.message_offset });
        },
    };
    let tag = match find_first(&h.lines, "tag") {
        Some(x) => x,
        None => {
            proof {
                lemma_no_tag_payload(data@, hl);
            }
            return Err(GitError::CorruptPayload { offset: h.message_offset });
        },
    };
    let tagger = match find_first(&h.lines, "tagger") {
        Some(x) => x,
        None => {
            proof {
                lemma_no_tag_payload(data@, hl);
            }
            return Err(GitError::CorruptPayload { offset: h.message_offset });
        },
    };
    let o = GitObject::Tag { object, kind, tag, tagger, message: h.message };
    proof {
        assert(parse_header_from(data@, 0) == Some((lines_utf8(hl), encode_utf8(o@->Tag_message))));
        assert(first_val(hl, "object"@) == Some(o@->Tag_object));
        assert(first_val(hl, "type"@) == Some(o@->Tag_kind.name_chars()));
        assert(first_val(hl, "tag"@) == Some(o@->Tag_tag));
        assert(first_val(hl, "tagger"@) == Some(o@->Tag_tagger));
        assert(tag_sound(data@, o@));
        assert forall|v: RecordV|
            #![trigger v.payload()]
            v is Tag && v.encodable() && data@ == v.payload() implies o@ == v by {
            let vo = v->Tag_object;
            let vk = v->Tag_kind;
            let vt = v->Tag_tag;
            let vtr = v->Tag_tagger;
            lemma_tag_lines_wf(vo, vk, vt, vtr);
            assert(hl == tag_lines(vo, vk, vt, vtr));
            lemma_tag_extract(vo, vk, vt, vtr);
            lemma_kind_name_roundtrip(vk);
        }
    }
    Ok(o)
}

/// From an exec `Err` of the extraction, no tag payload can equal `data`.
proof fn lemma_no_tag_payload(data: Seq<u8>, hl: Seq<(Seq<char>, Seq<char>)>)
    requires
        forall|ls: Seq<(Seq<char>, Seq<char>)>, msg: Seq<char>|
            wf_lines_str(ls) && data == #[trigger] crate::header::header_payload_str(ls, msg)
                ==> ls == hl,
        first_val(hl, "object"@) is None || first_val(hl, "type"@) is None || first_val(
            hl,
            "tag"@,
        ) is None || first_val(hl, "tagger"@) is None,
    ensures
        forall|v: RecordV| #![trigger v.payload()] !(v is Tag && data == v.payload()),
{
    assert forall|v: RecordV| #![trigger v.payload()] !(v is Tag && data == v.payload()) by {
        if v is Tag && data == v.payload() {
            lemma_tag_lines_wf(v->Tag_object, v->Tag_kind, v->Tag_tag, v->Tag_tagger);
            assert(hl == tag_lines(v->Tag_object, v->Tag_kind, v->Tag_tag, v->Tag_tagger));
            lemma_tag_extract(v->Tag_object, v->Tag_kind, v->Tag_tag, v->Tag_tagger);
        }
    }
}

/// Decodes a payload of the given kind back into a record.
///
/// The first postcondition is the codec's round-trip law: for every
/// encodable record of this kind — tree entries in any order, since the
/// store never re-sorts on read — decoding its payload yields that record
/// back, field for field. The second ties every `Ok` to the input: the
/// result is exactly what the kind's grammar parses out of the bytes.
pub fn deserialize_object(kind: &GitObjectKind, data: &[u8]) -> (r: Result<GitObject, GitError>)
    ensures
        forall|v: RecordV|
            #![trigger v.payload()]
            v.encodable() && v.kind() == *kind && data@ == v.payload() ==> (r matches Ok(o) && o@
                == v),
        r matches Ok(o) ==> o@.kind() == *kind && o@.encodable() && (match *kind {
            GitObjectKind::Blob => o@ == (RecordV::Blob { content: data@ }),
            GitObjectKind::Commit => commit_sound(data@, o@),
            GitObjectKind::Tag => tag_sound(data@, o@),
            GitObjectKind::Tree => crate::tree::parse_tree_from(data@, 0) == Some(
                o@->Tree_entries,
            ),
        }),
        r matches Err(e) ==> e is CorruptPayload,
{
    match kind {
        GitObjectKind::Blob => {
            let content = vstd::slice::slice_to_vec(data);
            let o = GitObject::Blob { content };
            proof {
                assert forall|v: RecordV|
                    #![trigger v.payload()]
                    v.encodable() && v.kind() == GitObjectKind::Blob && data@ == v.payload()
                    implies o@ == v by {}
            }
            Ok(o)
        },
        GitObjectKind::Commit => decode_commit(data),
        GitObjectKind::Tag => decode_tag(data),
        GitObjectKind::Tree => crate::tree::tree_parse(data),
    }
}

} // verus!
