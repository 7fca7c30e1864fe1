//! The binary tree-entry grammar and the canonical entry order.
//!
//! A tree payload concatenates entries of the form
//! `mode permission SP name NUL digest`, where the mode is two ASCII
//! characters, the permission three or four octal digits, and the digest the
//! raw twenty bytes of the child's hash. Before encoding, entries are sorted
//! by name, except that a subtree sorts as if its name ended in a path
//! separator.

use vstd::prelude::*;
use vstd::utf8::{
    encode_utf8, valid_utf8, decode_utf8, is_ascii_chars, is_ascii_chars_encode_utf8,
    encode_utf8_valid_utf8, encode_utf8_decode_utf8, decode_utf8_encode_utf8,
};
use crate::git_object::{FileType, TreeEntryV, TreeOject, GitObject, RecordV, entries_view};
use crate::hexstr::{hexstr_to_raw, is_hex40, lemma_hex_round_trip, is_hex_lower_char};
use crate::scan::{find_from, lemma_find_from, lemma_find_from_is, find_byte, subvec};
use crate::text::{
    bytes_to_string, push_str_bytes, lemma_encode_utf8_absent_char, lemma_encoded_low_ascii,
    lemma_encode_utf8_contains_char,
};
use crate::GitError;

verus! {

/// The two ASCII bytes of an entry's mode.
pub open spec fn mode_ascii(t: FileType) -> Seq<u8> {
    match t {
        FileType::Tree => seq![48u8, 52u8],
        FileType::RegularFile => seq![49u8, 48u8],
        FileType::SymbolicLink => seq![49u8, 50u8],
        FileType::Submodule => seq![49u8, 54u8],
    }
}

/// An octal digit character.
pub open spec fn is_octal_char(c: char) -> bool {
    '0' <= c && c <= '7'
}

/// A well-formed entry: a three-or-four-digit octal permission, a name free
/// of NUL, and a forty-character lowercase hex child digest.
pub open spec fn wf_entry(e: TreeEntryV) -> bool {
    &&& 3 <= e.permission.len() <= 4
    &&& (forall|i: int| 0 <= i < e.permission.len() ==> is_octal_char(#[trigger] e.permission[i]))
    &&& (forall|i: int| 0 <= i < e.path.len() ==> #[trigger] e.path[i] != '\0')
    &&& is_hex40(e.sha)
}

pub open spec fn wf_entries(es: Seq<TreeEntryV>) -> bool {
    forall|i: int| 0 <= i < es.len() ==> wf_entry(#[trigger] es[i])
}

/// The wire form of one entry.
pub open spec fn entry_bytes(e: TreeEntryV) -> Seq<u8> {
    mode_ascii(e.file_type) + encode_utf8(e.permission) + seq![32u8] + encode_utf8(e.path)
        + seq![0u8] + hexstr_to_raw(e.sha)
}

/// The wire form of a whole entry list.
pub open spec fn tree_payload(es: Seq<TreeEntryV>) -> Seq<u8>
    decreases es.len(),
{
    if es.len() == 0 {
        Seq::empty()
    } else {
        entry_bytes(es[0]) + tree_payload(es.drop_first())
    }
}

/// The byte key an entry is sorted by: its name, with a path separator
/// appended when the entry is itself a tree.
pub open spec fn entry_key(e: TreeEntryV) -> Seq<u8> {
    if e.file_type is Tree {
        encode_utf8(e.path) + seq![47u8]
    } else {
        encode_utf8(e.path)
    }
}

/// Lexicographic order on byte strings.
pub open spec fn bytes_le(a: Seq<u8>, b: Seq<u8>) -> bool
    decreases a.len(),
{
    if a.len() == 0 {
        true
    } else if b.len() == 0 {
        false
    } else if a[0] < b[0] {
        true
    } else if a[0] > b[0] {
        false
    } else {
        bytes_le(a.drop_first(), b.drop_first())
    }
}

pub open spec fn entry_le(a: TreeEntryV, b: TreeEntryV) -> bool {
    bytes_le(entry_key(a), entry_key(b))
}

/// Each entry's key is at most its successor's.
pub open spec fn entries_sorted(es: Seq<TreeEntryV>) -> bool {
    forall|i: int| 0 <= i < es.len() - 1 ==> entry_le(#[trigger] es[i], es[i + 1])
}

pub proof fn lemma_bytes_le_total(a: Seq<u8>, b: Seq<u8>)
    ensures
        bytes_le(a, b) || bytes_le(b, a),
    decreases a.len(),
{
    if a.len() == 0 || b.len() == 0 {
    } else if a[0] == b[0] {
        lemma_bytes_le_total(a.drop_first(), b.drop_first());
    }
}

pub proof fn lemma_bytes_le_trans(a: Seq<u8>, b: Seq<u8>, c: Seq<u8>)
    requires
        bytes_le(a, b),
        bytes_le(b, c),
    ensures
        bytes_le(a, c),
    decreases a.len(),
{
    if a.len() == 0 {
    } else {
        if b.len() == 0 {
        } else if c.len() == 0 {
        } else {
            if a[0] == b[0] && b[0] == c[0] {
                lemma_bytes_le_trans(a.drop_first(), b.drop_first(), c.drop_first());
            }
        }
    }
}

/// Stable insertion of an entry into a sorted run: it lands after every
/// entry whose key is at most its own.
pub open spec fn insert_sorted(e: TreeEntryV, s: Seq<TreeEntryV>) -> Seq<TreeEntryV>
    decreases s.len(),
{
    if s.len() == 0 {
        seq![e]
    } else if entry_le(s[0], e) {
        seq![s[0]] + insert_sorted(e, s.drop_first())
    } else {
        seq![e] + s
    }
}

/// Insertion sort over the entry list, processing left to right.
pub open spec fn sort_entries(s: Seq<TreeEntryV>) -> Seq<TreeEntryV>
    decreases s.len(),
{
    if s.len() == 0 {
        Seq::empty()
    } else {
        insert_sorted(s.last(), sort_entries(s.drop_last()))
    }
}

pub proof fn lemma_insert_sorted(e: TreeEntryV, s: Seq<TreeEntryV>)
    requires
        entries_sorted(s),
    ensures
        entries_sorted(insert_sorted(e, s)),
        insert_sorted(e, s).to_multiset() == s.to_multiset().insert(e),
        insert_sorted(e, s).len() == s.len() + 1,
    decreases s.len(),
{
    broadcast use vstd::seq_lib::group_to_multiset_ensures;

    let out = insert_sorted(e, s);
    if s.len() == 0 {
        assert(out =~= seq![e]);
        assert(seq![e].to_multiset() == Seq::<TreeEntryV>::empty().to_multiset().insert(e)) by {
            assert(seq![e] =~= Seq::<TreeEntryV>::empty().push(e));
        }
        assert(s.to_multiset() == Seq::<TreeEntryV>::empty().to_multiset());
    } else if entry_le(s[0], e) {
        assert(entries_sorted(s.drop_first())) by {
            assert(forall|i: int|
                0 <= i < s.drop_first().len() - 1 ==> #[trigger] s.drop_first()[i] == s[i + 1]
                    && s.drop_first()[i + 1] == s[i + 2]);
        }
        lemma_insert_sorted(e, s.drop_first());
        let inner = insert_sorted(e, s.drop_first());
        assert(out == seq![s[0]] + inner);
        // the head is at most the new head of the inserted rest
        assert(entries_sorted(out)) by {
            assert(inner.len() > 0);
            assert(out.len() == inner.len() + 1);
            assert(forall|i: int| 0 <= i < inner.len() ==> #[trigger] out[i + 1] == inner[i]);
            assert(out[0] == s[0]);
            if s.drop_first().len() == 0 {
                assert(inner == seq![e]);
                assert(entry_le(out[0], out[1]));
            } else if entry_le(s.drop_first()[0], e) {
                assert(inner[0] == s.drop_first()[0]);
                assert(entry_le(s[0], s[1]));
                assert(s.drop_first()[0] == s[1]);
                assert(entry_le(out[0], out[1]));
            } else {
                assert(inner[0] == e);
                assert(entry_le(out[0], out[1]));
            }
            assert(forall|i: int|
                1 <= i < out.len() - 1 ==> entry_le(#[trigger] out[i], out[i + 1]));
        }
        assert(out.to_multiset() == s.to_multiset().insert(e)) by {
            assert(out =~= insert_sorted(e, s.drop_first()).insert(0, s[0]));
            assert(s =~= s.drop_first().insert(0, s[0]));
            assert(inner.to_multiset() == s.drop_first().to_multiset().insert(e));
            assert(out.to_multiset() == inner.to_multiset().insert(s[0]));
            assert(s.to_multiset() == s.drop_first().to_multiset().insert(s[0]));
            assert(inner.to_multiset().insert(s[0]) == s.drop_first().to_multiset().insert(
                e,
            ).insert(s[0]));
            assert(s.drop_first().to_multiset().insert(e).insert(s[0])
                =~= s.drop_first().to_multiset().insert(s[0]).insert(e));
        }
    } else {
        assert(out == seq![e] + s);
        assert(entries_sorted(out)) by {
            lemma_bytes_le_total(entry_key(s[0]), entry_key(e));
            assert(entry_le(e, s[0]));
            assert(out[0] == e);
            assert(forall|i: int| 0 <= i < s.len() ==> #[trigger] out[i + 1] == s[i]);
            assert(forall|i: int|
                1 <= i < out.len() - 1 ==> entry_le(#[trigger] out[i], out[i + 1]));
        }
        assert(out.to_multiset() == s.to_multiset().insert(e)) by {
            assert(out =~= s.insert(0, e));
        }
    }
}

pub proof fn lemma_sort_entries(s: Seq<TreeEntryV>)
    ensures
        entries_sorted(sort_entries(s)),
        sort_entries(s).to_multiset() == s.to_multiset(),
        sort_entries(s).len() == s.len(),
    decreases s.len(),
{
    broadcast use vstd::seq_lib::group_to_multiset_ensures;

    if s.len() > 0 {
        lemma_sort_entries(s.drop_last());
        lemma_insert_sorted(s.last(), sort_entries(s.drop_last()));
        assert(s =~= s.drop_last().push(s.last()));
        assert(s.drop_last().push(s.last()).to_multiset() == s.drop_last().to_multiset().insert(
            s.last(),
        ));
    }
}

/// In a run that is sorted, every element's key is at most any later one.
pub proof fn lemma_sorted_pairwise(s: Seq<TreeEntryV>, i: int, j: int)
    requires
        entries_sorted(s),
        0 <= i <= j < s.len(),
    ensures
        entry_le(s[i], s[j]),
    decreases j - i,
{
    if i == j {
        lemma_bytes_le_total(entry_key(s[i]), entry_key(s[j]));
        if !entry_le(s[i], s[j]) {
            assert(entry_le(s[j], s[i]));
        }
        assert(bytes_le(entry_key(s[i]), entry_key(s[i]))) by {
            lemma_bytes_le_total(entry_key(s[i]), entry_key(s[i]));
        }
    } else {
        lemma_sorted_pairwise(s, i, j - 1);
        assert(entry_le(s[j - 1], s[j]));
        lemma_bytes_le_trans(entry_key(s[i]), entry_key(s[j - 1]), entry_key(s[j]));
    }
}

/// Inserting an entry no smaller than every element appends it.
pub proof fn lemma_insert_at_end(e: TreeEntryV, s: Seq<TreeEntryV>)
    requires
        forall|i: int| 0 <= i < s.len() ==> entry_le(#[trigger] s[i], e),
    ensures
        insert_sorted(e, s) == s.push(e),
    decreases s.len(),
{
    if s.len() == 0 {
        assert(insert_sorted(e, s) =~= s.push(e));
    } else {
        assert(entry_le(s[0], e));
        assert(forall|i: int|
            0 <= i < s.drop_first().len() ==> entry_le(#[trigger] s.drop_first()[i], e));
        lemma_insert_at_end(e, s.drop_first());
        assert(insert_sorted(e, s) == seq![s[0]] + s.drop_first().push(e));
        assert(insert_sorted(e, s) =~= s.push(e));
    }
}

/// An octal digit as an ASCII byte.
pub open spec fn is_octal_byte(b: u8) -> bool {
    48 <= b <= 55
}

pub open spec fn all_octal(s: Seq<u8>) -> bool {
    forall|i: int| 0 <= i < s.len() ==> is_octal_byte(#[trigger] s[i])
}

/// An octal permission string is ASCII, and its encoding is octal bytes.
pub proof fn lemma_octal_perm_bytes(perm: Seq<char>)
    requires
        forall|i: int| 0 <= i < perm.len() ==> is_octal_char(#[trigger] perm[i]),
    ensures
        is_ascii_chars(perm),
        encode_utf8(perm).len() == perm.len(),
        all_octal(encode_utf8(perm)),
{
    assert forall|i: int| 0 <= i < perm.len() implies '\0' <= #[trigger] perm[i] <= '\u{7f}' by {
        assert(is_octal_char(perm[i]));
    }
    is_ascii_chars_encode_utf8(perm);
    assert forall|i: int| 0 <= i < encode_utf8(perm).len() implies is_octal_byte(
        #[trigger] encode_utf8(perm)[i],
    ) by {
        assert(encode_utf8(perm)[i] == perm[i] as u8);
        assert(is_octal_char(perm[i]));
    }
}

/// Splits a mode-plus-permission field, disambiguating by its total length:
/// a six-character field is a two-character mode and four digits, a
/// five-character one is either a two-character mode and three digits or a
/// tree mode with its leading zero dropped and four digits.
pub open spec fn mode_perm_split(field: Seq<u8>) -> Option<(FileType, Seq<u8>)> {
    if field.len() == 6 {
        match FileType::from_mode_bytes(field[0], field[1]) {
            Some(ft) => Some((ft, field.skip(2))),
            None => None,
        }
    } else if field.len() == 5 {
        match FileType::from_mode_bytes(field[0], field[1]) {
            Some(ft) => Some((ft, field.skip(2))),
            None => {
                if field[0] == 52u8 {
                    Some((FileType::Tree, field.skip(1)))
                } else {
                    None
                }
            },
        }
    } else {
        None
    }
}

/// The tree parser at the specification level, reading from offset `i`.
pub open spec fn parse_tree_from(s: Seq<u8>, i: int) -> Option<Seq<TreeEntryV>>
    decreases s.len() - i when 0 <= i <= s.len() via parse_tree_decreases
{
    if i >= s.len() {
        Some(Seq::empty())
    } else {
        let sp = find_from(s, i, 32u8);
        if sp >= s.len() {
            None
        } else {
            match mode_perm_split(s.subrange(i, sp)) {
                None => None,
                Some((ft, perm)) => {
                    if !all_octal(perm) {
                        None
                    } else {
                        let nul = find_from(s, sp + 1, 0u8);
                        if nul >= s.len() {
                            None
                        } else if nul + 21 > s.len() {
                            None
                        } else {
                            let name_bytes = s.subrange(sp + 1, nul);
                            if !valid_utf8(name_bytes) {
                                None
                            } else {
                                let sha_raw = s.subrange(nul + 1, nul + 21);
                                let entry = TreeEntryV {
                                    file_type: ft,
                                    permission: decode_utf8(perm),
                                    path: decode_utf8(name_bytes),
                                    sha: crate::hexstr::bytes_hex_chars(sha_raw),
                                };
                                match parse_tree_from(s, nul + 21) {
                                    None => None,
                                    Some(rest) => Some(seq![entry] + rest),
                                }
                            }
                        }
                    }
                },
            }
        }
    }
}

#[via_fn]
proof fn parse_tree_decreases(s: Seq<u8>, i: int) {
    if 0 <= i <= s.len() && i < s.len() {
        lemma_find_from(s, i, 32u8);
        let sp = find_from(s, i, 32u8);
        if sp < s.len() {
            lemma_find_from(s, sp + 1, 0u8);
        }
    }
}

/// Appending one entry appends its wire form to the payload.
pub proof fn lemma_tree_payload_snoc(es: Seq<TreeEntryV>, e: TreeEntryV)
    ensures
        tree_payload(es.push(e)) == tree_payload(es) + entry_bytes(e),
    decreases es.len(),
{
    if es.len() == 0 {
        assert(es.push(e)[0] == e);
        assert(es.push(e).drop_first() =~= Seq::<TreeEntryV>::empty());
        assert(tree_payload(es.push(e)) == entry_bytes(e) + tree_payload(
            Seq::<TreeEntryV>::empty(),
        ));
        assert(tree_payload(es.push(e)) =~= tree_payload(es) + entry_bytes(e));
    } else {
        assert(es.push(e)[0] == es[0]);
        assert(es.push(e).drop_first() =~= es.drop_first().push(e));
        lemma_tree_payload_snoc(es.drop_first(), e);
        assert(tree_payload(es.push(e)) == entry_bytes(es[0]) + tree_payload(
            es.drop_first().push(e),
        ));
        assert(tree_payload(es) == entry_bytes(es[0]) + tree_payload(es.drop_first()));
        assert(tree_payload(es.push(e)) =~= tree_payload(es) + entry_bytes(e));
    }
}

/// Completeness of the tree parser: the payload of well-formed entries
/// parses back to exactly those entries.
pub proof fn lemma_parse_tree_complete(s: Seq<u8>, i: int, es: Seq<TreeEntryV>)
    requires
        0 <= i <= s.len(),
        wf_entries(es),
        s.skip(i) == tree_payload(es),
    ensures
        parse_tree_from(s, i) == Some(es),
    decreases es.len(),
{
    let t = s.skip(i);
    assert forall|j: int| 0 <= j < t.len() implies #[trigger] t[j] == s[i + j] by {}
    assert(t.len() == s.len() - i);
    if es.len() == 0 {
        assert(t.len() == 0);
        assert(i >= s.len());
        assert(es =~= Seq::<TreeEntryV>::empty());
    } else {
        let e0 = es[0];
        let rest = es.drop_first();
        assert(wf_entry(e0));
        assert(wf_entries(rest)) by {
            assert(forall|j: int|
                0 <= j < rest.len() ==> #[trigger] rest[j] == es[j + 1] && wf_entry(es[j + 1]));
        }
        let mb = mode_ascii(e0.file_type);
        let pb = encode_utf8(e0.permission);
        let nb = encode_utf8(e0.path);
        lemma_octal_perm_bytes(e0.permission);
        let pl = pb.len() as int;
        let nl_ = nb.len() as int;
        lemma_hex_round_trip(e0.sha);
        let raw = hexstr_to_raw(e0.sha);
        assert(raw.len() == 20);
        let eb = entry_bytes(e0);
        assert(eb == mb + pb + seq![32u8] + nb + seq![0u8] + raw);
        assert(eb.len() == 2 + pl + 1 + nl_ + 1 + 20);
        let tail = tree_payload(rest);
        assert(t =~= eb + tail);
        assert(t.len() == eb.len() + tail.len());
        // the byte layout of the first entry within s
        assert(s[i] == mb[0] && s[i + 1] == mb[1]) by {
            assert(t[0] == eb[0] && t[1] == eb[1]);
            assert(eb[0] == mb[0] && eb[1] == mb[1]);
        }
        assert forall|j: int| 0 <= j < pl implies s[i + 2 + j] == pb[j] by {
            assert(t[2 + j] == eb[2 + j]);
            assert(eb[2 + j] == pb[j]);
        }
        let sp = i + 2 + pl;
        assert(s[sp] == 32u8) by {
            assert(t[2 + pl] == eb[2 + pl]);
            assert(eb[2 + pl] == 32u8);
        }
        assert forall|j: int| 0 <= j < nl_ implies s[i + 3 + pl + j] == nb[j] by {
            assert(t[3 + pl + j] == eb[3 + pl + j]);
            assert(eb[3 + pl + j] == nb[j]);
        }
        let nul = i + 3 + pl + nl_;
        assert(s[nul] == 0u8) by {
            assert(t[3 + pl + nl_] == eb[3 + pl + nl_]);
            assert(eb[3 + pl + nl_] == 0u8);
        }
        assert forall|j: int| 0 <= j < 20 implies s[nul + 1 + j] == raw[j] by {
            assert(t[4 + pl + nl_ + j] == eb[4 + pl + nl_ + j]);
            assert(eb[4 + pl + nl_ + j] == raw[j]);
        }
        let after = nul + 21;
        assert(after == i + eb.len());
        assert(after <= s.len());
        // the space scan stops at the separator
        assert(mb[0] != 32u8 && mb[1] != 32u8) by {
            match e0.file_type {
                FileType::Tree => {},
                FileType::RegularFile => {},
                FileType::SymbolicLink => {},
                FileType::Submodule => {},
            }
        }
        assert forall|j: int| i <= j < sp implies s[j] != 32u8 by {
            if j >= i + 2 {
                assert(s[j] == pb[j - (i + 2)]);
                assert(is_octal_byte(pb[j - (i + 2)]));
            }
        }
        lemma_find_from_is(s, i, 32u8, sp);
        assert(s[i] != 32u8);
        assert(i < s.len());
        // the field splits into the entry's mode and permission
        let field = s.subrange(i, sp);
        assert(field =~= mb + pb);
        assert(field.len() == 2 + pl);
        assert(3 <= pl <= 4) by {
            assert(pb.len() == e0.permission.len());
        }
        assert(field[0] == mb[0] && field[1] == mb[1]);
        assert(FileType::from_mode_bytes(mb[0], mb[1]) == Some(e0.file_type)) by {
            match e0.file_type {
                FileType::Tree => {},
                FileType::RegularFile => {},
                FileType::SymbolicLink => {},
                FileType::Submodule => {},
            }
        }
        assert(field.skip(2) =~= pb);
        assert(mode_perm_split(field) == Some((e0.file_type, pb)));
        assert(all_octal(pb));
        // the name scan stops at the NUL separator
        lemma_encode_utf8_absent_char(e0.path, '\0');
        assert(('\0' as u32) as u8 == 0u8);
        assert forall|j: int| sp + 1 <= j < nul implies s[j] != 0u8 by {
            assert(s[j] == nb[j - (sp + 1)]);
        }
        lemma_find_from_is(s, sp + 1, 0u8, nul);
        // the name and digest are recovered exactly
        assert(s.subrange(sp + 1, nul) =~= nb);
        assert(valid_utf8(nb)) by {
            encode_utf8_valid_utf8(e0.path);
        }
        assert(s.subrange(nul + 1, nul + 21) =~= raw);
        encode_utf8_decode_utf8(e0.permission);
        encode_utf8_decode_utf8(e0.path);
        let entry = TreeEntryV {
            file_type: e0.file_type,
            permission: decode_utf8(pb),
            path: decode_utf8(nb),
            sha: crate::hexstr::bytes_hex_chars(raw),
        };
        assert(entry == e0);
        // the remainder is the payload of the remaining entries
        assert(s.skip(after).len() == tail.len());
        assert forall|j: int| 0 <= j < tail.len() implies s.skip(after)[j] == tail[j] by {
            assert(s.skip(after)[j] == s[after + j]);
            assert(t[eb.len() + j] == s[i + (eb.len() + j)]);
            assert(i + (eb.len() + j) == after + j);
            assert(t[eb.len() + j] == tail[j]);
        }
        assert(s.skip(after) =~= tail);
        lemma_parse_tree_complete(s, after, rest, );
        assert(parse_tree_from(s, after) == Some(rest));
        assert(parse_tree_from(s, i) == Some(seq![entry] + rest));
        assert(seq![entry] + rest =~= es);
    }
}

/// Sorting an already sorted run leaves it unchanged, so encoding a tree
/// whose entries are canonical re-emits exactly those entries.
pub proof fn lemma_sort_sorted(s: Seq<TreeEntryV>)
    requires
        entries_sorted(s),
    ensures
        sort_entries(s) == s,
    decreases s.len(),
{
    if s.len() > 0 {
        let front = s.drop_last();
        assert(entries_sorted(front)) by {
            assert(forall|i: int|
                0 <= i < front.len() - 1 ==> #[trigger] front[i] == s[i] && front[i + 1] == s[i
                    + 1]);
        }
        lemma_sort_sorted(front);
        assert forall|i: int| 0 <= i < front.len() implies entry_le(#[trigger] front[i], s.last()) by {
            lemma_sorted_pairwise(s, i, s.len() - 1);
        }
        lemma_insert_at_end(s.last(), front);
        assert(sort_entries(s) == front.push(s.last()));
        assert(front.push(s.last()) =~= s);
    }
}

/// Inserting at the first position whose entry is not at most `e` is what
/// [`insert_sorted`] does.
pub proof fn lemma_insert_sorted_at(e: TreeEntryV, s: Seq<TreeEntryV>, idx: int)
    requires
        0 <= idx <= s.len(),
        forall|j: int| 0 <= j < idx ==> entry_le(#[trigger] s[j], e),
        idx < s.len() ==> !entry_le(s[idx], e),
    ensures
        insert_sorted(e, s) == s.insert(idx, e),
    decreases s.len(),
{
    if s.len() == 0 {
        assert(insert_sorted(e, s) =~= s.insert(0, e));
    } else if idx == 0 {
        assert(!entry_le(s[0], e));
        assert(insert_sorted(e, s) == seq![e] + s);
        assert(seq![e] + s =~= s.insert(0, e));
    } else {
        assert(entry_le(s[0], e));
        assert(forall|j: int|
            0 <= j < idx - 1 ==> #[trigger] s.drop_first()[j] == s[j + 1] && entry_le(s[j + 1], e));
        assert(idx - 1 < s.drop_first().len() ==> s.drop_first()[idx - 1] == s[idx]);
        lemma_insert_sorted_at(e, s.drop_first(), idx - 1);
        assert(insert_sorted(e, s) == seq![s[0]] + s.drop_first().insert(idx - 1, e));
        assert(seq![s[0]] + s.drop_first().insert(idx - 1, e) =~= s.insert(idx, e));
    }
}

/// The parse so far, with the accumulated entries glued in front.
pub open spec fn tree_glue(s: Seq<u8>, i: int, acc: Seq<TreeEntryV>) -> Option<Seq<TreeEntryV>> {
    match parse_tree_from(s, i) {
        None => None,
        Some(rest) => Some(acc + rest),
    }
}

fn all_octal_exec(v: &[u8]) -> (r: bool)
    ensures
        r == all_octal(v@),
{
    let mut i: usize = 0;
    while i < v.len()
        invariant
            0 <= i <= v@.len(),
            forall|j: int| 0 <= j < i ==> is_octal_byte(#[trigger] v@[j]),
        decreases v@.len() - i,
    {
        if v[i] < 48u8 || v[i] > 55u8 {
            return false;
        }
        i = i + 1;
    }
    true
}

proof fn lemma_no_tree_payload(data: Seq<u8>)
    requires
        parse_tree_from(data, 0) is None,
    ensures
        forall|v: RecordV|
            #![trigger v.payload()]
            !(v is Tree && v.encodable() && data == v.payload()),
{
    assert forall|v: RecordV|
        #![trigger v.payload()]
        !(v is Tree && v.encodable() && data == v.payload()) by {
        if v is Tree && v.encodable() && data == v.payload() {
            assert(data.skip(0) =~= data);
            lemma_parse_tree_complete(data, 0, v->Tree_entries);
        }
    }
}

/// Decodes a tree payload, preserving the on-disk entry order.
///
/// The first postcondition is the decode half of the round-trip law for
/// trees, quantified over every well-formed entry list whether or not it is
/// in canonical order: the store never re-sorts on read. The last two tie
/// the result to the input exactly: an `Ok` is precisely the parse of the
/// bytes, and an `Err` happens exactly when the bytes parse as no entry
/// list at all.
pub fn tree_parse(data: &[u8]) -> (r: Result<GitObject, GitError>)
    ensures
        forall|v: RecordV|
            #![trigger v.payload()]
            v is Tree && v.encodable() && data@ == v.payload() ==> (r matches Ok(o) && o@ == v),
        r matches Ok(o) ==> o@ is Tree && o@.encodable() && parse_tree_from(data@, 0) == Some(
            o@->Tree_entries,
        ),
        r matches Err(e) ==> parse_tree_from(data@, 0) is None && e is CorruptPayload,
{
    let mut objects: Vec<TreeOject> = Vec::new();
    let mut pos: usize = 0;
    proof {
        assert(entries_view(objects@) =~= Seq::<TreeEntryV>::empty());
        if parse_tree_from(data@, 0) is Some {
            let rest = parse_tree_from(data@, 0)->Some_0;
            assert(entries_view(objects@) + rest =~= rest);
        }
    }
    while pos < data.len()
        invariant
            0 <= pos <= data@.len(),
            parse_tree_from(data@, 0) == tree_glue(data@, pos as int, entries_view(objects@)),
        decreases data@.len() - pos,
    {
        let sp = find_byte(data, pos, 32u8);
        if sp >= data.len() {
            proof {
                lemma_no_tree_payload(data@);
            }
            return Err(GitError::CorruptPayload { offset: pos });
        }
        let flen = sp - pos;
        let ghost field = data@.subrange(pos as int, sp as int);
        if flen != 5 && flen != 6 {
            proof {
                assert(mode_perm_split(field) is None);
                lemma_no_tree_payload(data@);
            }
            return Err(GitError::CorruptPayload { offset: pos });
        }
        let mode_slice = vstd::slice::slice_subrange(data, pos, pos + 2);
        proof {
            assert(mode_slice@[0] == field[0] && mode_slice@[1] == field[1]);
        }
        let ft_opt = FileType::try_from(mode_slice);
        let ft: FileType;
        let perm_lo: usize;
        match ft_opt {
            Some(t) => {
                ft = t;
                perm_lo = pos + 2;
                proof {
                    assert(field.skip(2) =~= data@.subrange(pos + 2, sp as int));
                    assert(mode_perm_split(field) == Some((ft, field.skip(2))));
                }
            },
            None => {
                if flen == 5 && data[pos] == 52u8 {
                    ft = FileType::Tree;
                    perm_lo = pos + 1;
                    proof {
                        assert(field.skip(1) =~= data@.subrange(pos + 1, sp as int));
                        assert(mode_perm_split(field) == Some((ft, field.skip(1))));
                    }
                } else {
                    proof {
                        assert(field[0] == data@[pos as int]);
                        assert(mode_perm_split(field) is None);
                        lemma_no_tree_payload(data@);
                    }
                    return Err(GitError::CorruptPayload { offset: pos });
                }
            },
        }
        let perm_bytes = subvec(data, perm_lo, sp);
        if !all_octal_exec(perm_bytes.as_slice()) {
            proof {
                lemma_no_tree_payload(data@);
            }
            return Err(GitError::CorruptPayload { offset: pos });
        }
        let nul = find_byte(data, sp + 1, 0u8);
        if nul >= data.len() {
            proof {
                lemma_no_tree_payload(data@);
            }
            return Err(GitError::CorruptPayload { offset: pos });
        }
        if data.len() - nul < 21 {
            proof {
                lemma_no_tree_payload(data@);
            }
            return Err(GitError::CorruptPayload { offset: pos });
        }
        let name_bytes = subvec(data, sp + 1, nul);
        let ghost name_view = name_bytes@;
        let sha_raw = vstd::slice::slice_subrange(data, nul + 1, nul + 21);
        let sha = crate::hexstr::bytes_to_hex(sha_raw);
        let permission = match bytes_to_string(perm_bytes) {
            Some(p) => p,
            None => {
                proof {
                    assert forall|j: int|
                        0 <= j < data@.subrange(perm_lo as int, sp as int).len() implies #[trigger] data@.subrange(
                        perm_lo as int,
                        sp as int,
                    )[j] < 128 by {
                        assert(is_octal_byte(data@.subrange(perm_lo as int, sp as int)[j]));
                    }
                    crate::text::lemma_low_bytes_valid_utf8(
                        data@.subrange(perm_lo as int, sp as int),
                    );
                    assert(false);
                }
                return Err(GitError::CorruptPayload { offset: pos });
            },
        };
        let path = match bytes_to_string(name_bytes) {
            Some(p) => p,
            None => {
                proof {
                    assert(!valid_utf8(data@.subrange(sp + 1, nul as int)));
                    lemma_no_tree_payload(data@);
                }
                return Err(GitError::CorruptPayload { offset: pos });
            },
        };
        let ghost acc0 = entries_view(objects@);
        let ghost se = TreeEntryV {
            file_type: ft,
            permission: decode_utf8(data@.subrange(perm_lo as int, sp as int)),
            path: decode_utf8(data@.subrange(sp + 1, nul as int)),
            sha: crate::hexstr::bytes_hex_chars(data@.subrange(nul + 1, nul + 21)),
        };
        proof {
            encode_utf8_decode_utf8(permission@);
            encode_utf8_decode_utf8(path@);
        }
        objects.push(TreeOject { file_type: ft, permission, path, sha });
        proof {
            let s = data@;
            assert(entries_view(objects@) =~= acc0.push(se)) by {
                assert forall|j: int| 0 <= j < objects@.len() implies #[trigger] entries_view(
                    objects@,
                )[j] == acc0.push(se)[j] by {
                    assert(entries_view(objects@)[j] == objects@[j]@);
                    if j < acc0.len() {
                        assert(acc0[j] == objects@[j]@);
                    }
                }
            }
            match parse_tree_from(s, nul + 21) {
                None => {
                    assert(parse_tree_from(s, pos as int) is None);
                },
                Some(rest) => {
                    assert(parse_tree_from(s, pos as int) == Some(seq![se] + rest));
                    assert(acc0 + (seq![se] + rest) =~= acc0.push(se) + rest);
                },
            }
        }
        pos = nul + 21;
    }
    proof {
        assert(pos == data@.len());
        assert(parse_tree_from(data@, pos as int) == Some(Seq::<TreeEntryV>::empty()));
        assert(entries_view(objects@) + Seq::<TreeEntryV>::empty() =~= entries_view(objects@));
    }
    let ghost fv = entries_view(objects@);
    proof {
        assert(parse_tree_from(data@, 0) == Some(fv));
        lemma_parse_tree_wf(data@, 0);
        assert(wf_entries(fv));
    }
    let o = GitObject::Tree(objects);
    proof {
        assert(o@->Tree_entries == fv);
        assert forall|v: RecordV|
            #![trigger v.payload()]
            v is Tree && v.encodable() && data@ == v.payload() implies (o@ == v) by {
            assert(data@.skip(0) =~= data@);
            lemma_parse_tree_complete(data@, 0, v->Tree_entries);
        }
    }
    Ok(o)
}


/// Whatever the tree parser accepts is well-formed: a decoded entry always
/// carries an octal permission, a NUL-free name and a lowercase hex digest,
/// so a decoded tree can always be encoded again.
pub proof fn lemma_parse_tree_wf(s: Seq<u8>, i: int)
    requires
        0 <= i <= s.len(),
    ensures
        parse_tree_from(s, i) matches Some(es) ==> wf_entries(es),
    decreases s.len() - i,
{
    if i >= s.len() {
    } else {
        lemma_find_from(s, i, 32u8);
        let sp = find_from(s, i, 32u8);
        if sp < s.len() {
            let field = s.subrange(i, sp);
            match mode_perm_split(field) {
                None => {},
                Some((ft, perm)) => {
                    if all_octal(perm) {
                        lemma_find_from(s, sp + 1, 0u8);
                        let nul = find_from(s, sp + 1, 0u8);
                        if nul < s.len() && nul + 21 <= s.len() {
                            let name_bytes = s.subrange(sp + 1, nul);
                            if valid_utf8(name_bytes) {
                                lemma_parse_tree_wf(s, nul + 21);
                                match parse_tree_from(s, nul + 21) {
                                    None => {},
                                    Some(rest) => {
                                        let sha_raw = s.subrange(nul + 1, nul + 21);
                                        let entry = TreeEntryV {
                                            file_type: ft,
                                            permission: decode_utf8(perm),
                                            path: decode_utf8(name_bytes),
                                            sha: crate::hexstr::bytes_hex_chars(sha_raw),
                                        };
                                        assert(wf_entry(entry)) by {
                                            lemma_decoded_entry_wf(s, sp, nul, field, perm, ft);
                                        }
                                        assert(parse_tree_from(s, i) == Some(seq![entry] + rest));
                                        assert(wf_entries(seq![entry] + rest)) by {
                                            assert forall|j: int|
                                                0 <= j < (seq![entry] + rest).len() implies wf_entry(
                                                #[trigger] (seq![entry] + rest)[j],
                                            ) by {
                                                if j > 0 {
                                                    assert((seq![entry] + rest)[j] == rest[j - 1]);
                                                }
                                            }
                                        }
                                    },
                                }
                            }
                        }
                    }
                },
            }
        }
    }
}

proof fn lemma_decoded_entry_wf(
    s: Seq<u8>,
    sp: int,
    nul: int,
    field: Seq<u8>,
    perm: Seq<u8>,
    ft: FileType,
)
    requires
        0 <= sp < s.len(),
        sp < nul < s.len(),
        nul + 21 <= s.len(),
        mode_perm_split(field) == Some((ft, perm)),
        all_octal(perm),
        nul == find_from(s, sp + 1, 0u8),
        valid_utf8(s.subrange(sp + 1, nul)),
    ensures
        wf_entry(
            TreeEntryV {
                file_type: ft,
                permission: decode_utf8(perm),
                path: decode_utf8(s.subrange(sp + 1, nul)),
                sha: crate::hexstr::bytes_hex_chars(s.subrange(nul + 1, nul + 21)),
            },
        ),
{
    let name_bytes = s.subrange(sp + 1, nul);
    let sha_raw = s.subrange(nul + 1, nul + 21);
    // the permission: three or four octal digit characters
    assert(perm.len() == 3 || perm.len() == 4) by {
        if field.len() == 6 {
            assert(perm == field.skip(2));
        } else {
            assert(field.len() == 5);
            if FileType::from_mode_bytes(field[0], field[1]) is Some {
                assert(perm == field.skip(2));
            } else {
                assert(perm == field.skip(1));
            }
        }
    }
    assert forall|j: int| 0 <= j < perm.len() implies #[trigger] perm[j] < 128 by {
        assert(is_octal_byte(perm[j]));
    }
    crate::text::lemma_low_bytes_valid_utf8(perm);
    let pc = decode_utf8(perm);
    decode_utf8_encode_utf8(perm);
    assert(encode_utf8(pc) == perm);
    lemma_encoded_low_ascii(pc);
    is_ascii_chars_encode_utf8(pc);
    assert(pc.len() == perm.len());
    assert forall|j: int| 0 <= j < pc.len() implies is_octal_char(#[trigger] pc[j]) by {
        assert(pc[j] as u8 == perm[j]);
        assert(is_octal_byte(perm[j]));
        assert((pc[j] as u32) < 128);
        assert(pc[j] as u32 == perm[j] as u32);
    }
    // the name: free of NUL, since the scan stopped at the first NUL
    lemma_find_from(s, sp + 1, 0u8);
    assert(forall|j: int| sp + 1 <= j < nul ==> s[j] != 0u8);
    let nc = decode_utf8(name_bytes);
    decode_utf8_encode_utf8(name_bytes);
    assert(encode_utf8(nc) == name_bytes);
    assert forall|k: int| 0 <= k < nc.len() implies #[trigger] nc[k] != '\0' by {
        if nc[k] == '\0' {
            lemma_encode_utf8_contains_char(nc, '\0');
            let j = choose|j: int|
                0 <= j < encode_utf8(nc).len() && #[trigger] encode_utf8(nc)[j] == (
                '\0' as u32) as u8;
            assert(name_bytes[j] == 0u8);
            assert(s[sp + 1 + j] == 0u8);
        }
    }
    // the digest: forty lowercase hex characters
    crate::hexstr::lemma_bytes_hex_chars(sha_raw);
}

/// Makes an owned copy of an entry.
fn copy_entry(e: &TreeOject) -> (r: TreeOject)
    ensures
        r == *e,
{
    TreeOject {
        file_type: e.file_type,
        permission: e.permission.clone(),
        path: e.path.clone(),
        sha: e.sha.clone(),
    }
}

/// The sort key of an entry, materialised.
fn entry_key_vec(e: &TreeOject) -> (r: Vec<u8>)
    ensures
        r@ == entry_key(e@),
{
    let mut out: Vec<u8> = Vec::new();
    push_str_bytes(&mut out, e.path.as_str());
    match e.file_type {
        FileType::Tree => {
            out.push(47u8);
            proof {
                assert(out@ =~= entry_key(e@));
            }
        },
        _ => {
            proof {
                assert(out@ =~= entry_key(e@));
            }
        },
    }
    out
}

fn bytes_le_exec(a: &[u8], b: &[u8]) -> (r: bool)
    ensures
        r == bytes_le(a@, b@),
{
    let mut i: usize = 0;
    proof {
        assert(a@.skip(0) =~= a@);
        assert(b@.skip(0) =~= b@);
    }
    while i < a.len() && i < b.len()
        invariant
            0 <= i <= a@.len(),
            0 <= i <= b@.len(),
            bytes_le(a@, b@) == bytes_le(a@.skip(i as int), b@.skip(i as int)),
        decreases a@.len() - i,
    {
        proof {
            assert(a@.skip(i as int)[0] == a@[i as int]);
            assert(b@.skip(i as int)[0] == b@[i as int]);
            assert(a@.skip(i as int).drop_first() =~= a@.skip(i + 1));
            assert(b@.skip(i as int).drop_first() =~= b@.skip(i + 1));
        }
        if a[i] < b[i] {
            return true;
        }
        if a[i] > b[i] {
            return false;
        }
        i = i + 1;
    }
    proof {
        if i >= a@.len() {
            assert(a@.skip(i as int) =~= Seq::<u8>::empty());
        } else {
            assert(b@.skip(i as int) =~= Seq::<u8>::empty());
            assert(a@.skip(i as int).len() > 0);
        }
    }
    i >= a.len()
}

/// The position a stable insertion puts `e` at: just past every entry whose
/// key is at most `e`'s key.
fn insert_pos(out: &Vec<TreeOject>, e: &TreeOject) -> (idx: usize)
    ensures
        0 <= idx <= out@.len(),
        forall|j: int| 0 <= j < idx ==> entry_le(#[trigger] entries_view(out@)[j], e@),
        idx < out@.len() ==> !entry_le(entries_view(out@)[idx as int], e@),
{
    let key_e = entry_key_vec(e);
    let mut idx: usize = 0;
    while idx < out.len()
        invariant
            0 <= idx <= out@.len(),
            key_e@ == entry_key(e@),
            forall|j: int| 0 <= j < idx ==> entry_le(#[trigger] entries_view(out@)[j], e@),
        decreases out@.len() - idx,
    {
        let key_o = entry_key_vec(&out[idx]);
        proof {
            assert(entries_view(out@)[idx as int] == out@[idx as int]@);
        }
        if !bytes_le_exec(key_o.as_slice(), key_e.as_slice()) {
            return idx;
        }
        idx = idx + 1;
    }
    idx
}

/// Insertion sort over owned entries, stable with respect to equal keys.
#[verifier::rlimit(30)]
fn sort_entries_exec(input: &Vec<TreeOject>) -> (r: Vec<TreeOject>)
    ensures
        entries_view(r@) == sort_entries(entries_view(input@)),
{
    let ghost iv = entries_view(input@);
    let mut out: Vec<TreeOject> = Vec::new();
    let mut i: usize = 0;
    proof {
        assert(iv.take(0) =~= Seq::<TreeEntryV>::empty());
        assert(entries_view(out@) =~= sort_entries(iv.take(0)));
    }
    while i < input.len()
        invariant
            0 <= i <= input@.len(),
            iv == entries_view(input@),
            iv.len() == input@.len(),
            entries_view(out@) == sort_entries(iv.take(i as int)),
        decreases input@.len() - i,
    {
        let e = copy_entry(&input[i]);
        let idx = insert_pos(&out, &e);
        let ghost out0 = out@;
        out.insert(idx, e);
        proof {
            assert(e@ == iv[i as int]) by {
                assert(iv[i as int] == input@[i as int]@);
            }
            crate::tree::lemma_sort_entries(iv.take(i as int));
            lemma_insert_sorted_at(e@, entries_view(out0), idx as int);
            assert(iv.take(i + 1).drop_last() =~= iv.take(i as int));
            assert(iv.take(i + 1).last() == iv[i as int]);
            assert(sort_entries(iv.take(i + 1)) == insert_sorted(
                iv[i as int],
                sort_entries(iv.take(i as int)),
            ));
            assert(entries_view(out@) =~= entries_view(out0).insert(idx as int, e@)) by {
                assert forall|j: int| 0 <= j < out@.len() implies #[trigger] entries_view(out@)[j]
                    == entries_view(out0).insert(idx as int, e@)[j] by {
                    assert(entries_view(out@)[j] == out@[j]@);
                    if j < idx {
                        assert(out@[j] == out0[j]);
                        assert(entries_view(out0)[j] == out0[j]@);
                    } else if j == idx {
                    } else {
                        assert(out@[j] == out0[j - 1]);
                        assert(entries_view(out0)[j - 1] == out0[j - 1]@);
                    }
                }
            }
        }
        i = i + 1;
    }
    proof {
        assert(iv.take(iv.len() as int) =~= iv);
    }
    out
}

/// Whether an entry is well-formed, checked at the byte level.
fn wf_entry_exec(e: &TreeOject) -> (r: bool)
    ensures
        r == wf_entry(e@),
{
    // permission: three or four octal digits
    let pb = e.permission.as_str().as_bytes();
    if pb.len() < 3 || pb.len() > 4 || !all_octal_exec(pb) {
        proof {
            if wf_entry(e@) {
                lemma_octal_perm_bytes(e@.permission);
            }
        }
        return false;
    }
    proof {
        assert forall|j: int| 0 <= j < encode_utf8(e@.permission).len() implies #[trigger] encode_utf8(
            e@.permission,
        )[j] < 128 by {
            assert(is_octal_byte(encode_utf8(e@.permission)[j]));
        }
        lemma_encoded_low_ascii(e@.permission);
        is_ascii_chars_encode_utf8(e@.permission);
        assert forall|i: int| 0 <= i < e@.permission.len() implies is_octal_char(
            #[trigger] e@.permission[i],
        ) by {
            let b = encode_utf8(e@.permission)[i];
            assert(e@.permission[i] as u8 == b);
            assert(is_octal_byte(b));
            assert((e@.permission[i] as u32) < 128);
            assert(e@.permission[i] as u32 == b as u32);
            assert('0' as u32 == 48 && '7' as u32 == 55);
        }
        assert(3 <= e@.permission.len() <= 4);
    }
    // name: free of NUL
    let nb = e.path.as_str().as_bytes();
    let mut i: usize = 0;
    while i < nb.len()
        invariant
            0 <= i <= nb@.len(),
            nb@ == encode_utf8(e@.path),
            forall|j: int| 0 <= j < i ==> #[trigger] nb@[j] != 0u8,
        decreases nb@.len() - i,
    {
        if nb[i] == 0u8 {
            proof {
                if wf_entry(e@) {
                    lemma_encode_utf8_absent_char(e@.path, '\0');
                }
            }
            return false;
        }
        i = i + 1;
    }
    proof {
        if exists|k: int| 0 <= k < e@.path.len() && #[trigger] e@.path[k] == '\0' {
            lemma_encode_utf8_contains_char(e@.path, '\0');
            assert(false);
        }
        assert forall|k: int| 0 <= k < e@.path.len() implies #[trigger] e@.path[k] != '\0' by {}
    }
    // child digest: forty lowercase hex characters
    let sb = e.sha.as_str().as_bytes();
    if sb.len() != 40 {
        proof {
            if wf_entry(e@) {
                assert forall|k: int| 0 <= k < e@.sha.len() implies '\0' <= #[trigger] e@.sha[k]
                    <= '\u{7f}' by {
                    assert(is_hex_lower_char(e@.sha[k]));
                }
                is_ascii_chars_encode_utf8(e@.sha);
            }
        }
        return false;
    }
    match crate::hexstr::hex_str_to_bytes(e.sha.as_str()) {
        Some(_) => {
            proof {
                assert forall|k: int| 0 <= k < e@.sha.len() implies '\0' <= #[trigger] e@.sha[k]
                    <= '\u{7f}' by {
                    assert(is_hex_lower_char(e@.sha[k]));
                }
                is_ascii_chars_encode_utf8(e@.sha);
                assert(e@.sha.len() == 40);
                assert(is_hex40(e@.sha));
            }
            true
        },
        None => {
            proof {
                if wf_entry(e@) {
                    assert(is_hex40(e@.sha));
                    assert(e@.sha.len() % 2 == 0);
                }
            }
            false
        },
    }
}

/// Encodes a tree record: validates every entry, sorts them by the
/// directory-suffix rule, and emits the canonical wire form. The multiset of
/// encoded entries is exactly the multiset supplied, in sorted order.
pub fn tree_serialize(obj: &GitObject) -> (r: Result<Vec<u8>, GitError>)
    ensures
        obj@ is Tree ==> (r is Ok <==> obj@.encodable()),
        obj@ is Tree ==> (r matches Ok(v) ==> v@ == obj@.canonical_payload()),
        !(obj@ is Tree) ==> (r matches Err(e) && e == GitError::InvalidRecord),
{
    match obj {
        GitObject::Tree(entries) => {
        let ghost iv = entries_view(entries@);
        proof {
            assert(obj@->Tree_entries =~= iv) by {
                assert forall|j: int| 0 <= j < entries@.len() implies #[trigger] obj@->Tree_entries[j]
                    == iv[j] by {
                    assert(obj@->Tree_entries[j] == entries@[j]@);
                    assert(iv[j] == entries@[j]@);
                }
            }
        }
        let mut i: usize = 0;
        while i < entries.len()
            invariant
                0 <= i <= entries@.len(),
                iv == entries_view(entries@),
                iv.len() == entries@.len(),
                obj@ is Tree,
                obj@->Tree_entries == iv,
                forall|j: int| 0 <= j < i ==> wf_entry(#[trigger] iv[j]),
            decreases entries@.len() - i,
        {
            proof {
                assert(iv[i as int] == entries@[i as int]@);
            }
            if !wf_entry_exec(&entries[i]) {
                proof {
                    assert(!wf_entry(iv[i as int]));
                    assert(!wf_entries(iv));
                    assert(obj@ is Tree);
                    assert(obj@.encodable() == wf_entries(iv));
                }
                return Err(GitError::InvalidRecord);
            }
            i = i + 1;
        }
        let sorted = sort_entries_exec(entries);
        let ghost sv = entries_view(sorted@);
        proof {
            broadcast use vstd::seq_lib::group_to_multiset_ensures;

            lemma_sort_entries(iv);
            assert forall|k: int| 0 <= k < sv.len() implies wf_entry(#[trigger] sv[k]) by {
                assert(sv.contains(sv[k]));
                assert(sv.to_multiset().count(sv[k]) > 0);
                assert(iv.to_multiset().count(sv[k]) > 0);
                assert(iv.contains(sv[k]));
                let j = choose|j: int| 0 <= j < iv.len() && iv[j] == sv[k];
                assert(wf_entry(iv[j]));
            }
        }
        let mut out: Vec<u8> = Vec::new();
        let mut k: usize = 0;
        proof {
            assert(sv.take(0) =~= Seq::<TreeEntryV>::empty());
            assert(out@ =~= tree_payload(sv.take(0)));
        }
        while k < sorted.len()
            invariant
                0 <= k <= sorted@.len(),
                sv == entries_view(sorted@),
                sv.len() == sorted@.len(),
                forall|j: int| 0 <= j < sv.len() ==> wf_entry(#[trigger] sv[j]),
                out@ == tree_payload(sv.take(k as int)),
            decreases sorted@.len() - k,
        {
            let ghost out0 = out@;
            proof {
                assert(sv[k as int] == sorted@[k as int]@);
            }
            let e = &sorted[k];
            match e.file_type {
                FileType::Tree => {
                    out.push(48u8);
                    out.push(52u8);
                },
                FileType::RegularFile => {
                    out.push(49u8);
                    out.push(48u8);
                },
                FileType::SymbolicLink => {
                    out.push(49u8);
                    out.push(50u8);
                },
                FileType::Submodule => {
                    out.push(49u8);
                    out.push(54u8);
                },
            }
            proof {
                assert(out@ =~= out0 + mode_ascii(e@.file_type));
            }
            let ghost out1 = out@;
            push_str_bytes(&mut out, e.permission.as_str());
            out.push(32u8);
            push_str_bytes(&mut out, e.path.as_str());
            out.push(0u8);
            let sha_raw = match crate::hexstr::hex_str_to_bytes(e.sha.as_str()) {
                Some(v) => v,
                None => {
                    proof {
                        assert(wf_entry(sv[k as int]));
                        assert(is_hex40(e@.sha));
                        assert(false);
                    }
                    return Err(GitError::InvalidRecord);
                },
            };
            out.extend_from_slice(sha_raw.as_slice());
            proof {
                lemma_tree_payload_snoc(sv.take(k as int), sv[k as int]);
                assert(sv.take(k + 1) =~= sv.take(k as int).push(sv[k as int]));
                assert(out@ =~= out0 + entry_bytes(sv[k as int]));
                assert(out@ =~= tree_payload(sv.take(k + 1)));
            }
            k = k + 1;
        }
        proof {
            assert(sv.take(sv.len() as int) =~= sv);
            assert(obj@.canonical_payload() == tree_payload(sort_entries(iv)));
        }
        Ok(out)
        },
        _ => Err(GitError::InvalidRecord),
    }
}

} // verus!
