//! The folded key-value header grammar shared by commit and tag payloads.
//!
//! A payload is a run of `key SP value NL` lines, a blank line, and a
//! trailing message. A value may contain newlines; each one is written as
//! newline-plus-space on encode (folding) and the marker space is removed
//! again on decode, so a continuation line is recognised by its leading
//! space. The message is everything after the blank line, untouched.

use vstd::prelude::*;
use vstd::utf8::{encode_utf8, valid_utf8, encode_utf8_valid_utf8, encode_utf8_decode_utf8};
use crate::scan::{
    find_from, find_sp_nl, lemma_find_from, lemma_find_sp_nl, lemma_find_sp_nl_is, find_byte,
    find_space_or_newline, subvec,
};
use crate::text::{bytes_to_string, push_str_bytes, lemma_encode_utf8_absent_char};
use crate::GitError;

verus! {

/// Folding: every newline of a value gains a following marker space.
pub open spec fn fold_bytes(v: Seq<u8>) -> Seq<u8>
    decreases v.len(),
{
    if v.len() == 0 {
        Seq::empty()
    } else if v[0] == 10u8 {
        seq![10u8, 32u8] + fold_bytes(v.drop_first())
    } else {
        seq![v[0]] + fold_bytes(v.drop_first())
    }
}

/// Unfolding: every newline-plus-space pair collapses back to a newline.
pub open spec fn unfold_bytes(s: Seq<u8>) -> Seq<u8>
    decreases s.len(),
{
    if s.len() == 0 {
        Seq::empty()
    } else if s[0] == 10u8 && s.len() >= 2 && s[1] == 32u8 {
        seq![10u8] + unfold_bytes(s.skip(2))
    } else {
        seq![s[0]] + unfold_bytes(s.skip(1))
    }
}

/// One encoded header line.
pub open spec fn header_line(k: Seq<u8>, v: Seq<u8>) -> Seq<u8> {
    k + seq![32u8] + fold_bytes(v) + seq![10u8]
}

/// The concatenation of the encoded header lines.
pub open spec fn header_lines(ls: Seq<(Seq<u8>, Seq<u8>)>) -> Seq<u8>
    decreases ls.len(),
{
    if ls.len() == 0 {
        Seq::empty()
    } else {
        header_line(ls[0].0, ls[0].1) + header_lines(ls.drop_first())
    }
}

/// A whole header payload: lines, blank line, message.
pub open spec fn header_payload(ls: Seq<(Seq<u8>, Seq<u8>)>, msg: Seq<u8>) -> Seq<u8> {
    header_lines(ls) + seq![10u8] + msg
}

/// A key is non-empty and contains neither a space nor a newline.
pub open spec fn wf_key(k: Seq<u8>) -> bool {
    k.len() > 0 && forall|i: int| 0 <= i < k.len() ==> #[trigger] k[i] != 32u8 && k[i] != 10u8
}

pub open spec fn wf_lines(ls: Seq<(Seq<u8>, Seq<u8>)>) -> bool {
    forall|i: int| 0 <= i < ls.len() ==> wf_key(#[trigger] ls[i].0)
}

/// Unfolding inverts folding exactly.
pub proof fn lemma_unfold_fold(v: Seq<u8>)
    ensures
        unfold_bytes(fold_bytes(v)) == v,
    decreases v.len(),
{
    if v.len() == 0 {
        assert(unfold_bytes(fold_bytes(v)) =~= v);
    } else {
        lemma_unfold_fold(v.drop_first());
        let f = fold_bytes(v);
        if v[0] == 10u8 {
            assert(f == seq![10u8, 32u8] + fold_bytes(v.drop_first()));
            assert(f[0] == 10u8 && f[1] == 32u8);
            assert(f.skip(2) =~= fold_bytes(v.drop_first()));
            assert(unfold_bytes(f) == seq![10u8] + unfold_bytes(f.skip(2)));
            assert(unfold_bytes(f) =~= v);
        } else {
            assert(f == seq![v[0]] + fold_bytes(v.drop_first()));
            assert(f[0] == v[0]);
            assert(f.len() >= 1);
            assert(f.skip(1) =~= fold_bytes(v.drop_first()));
            assert(unfold_bytes(f) == seq![f[0]] + unfold_bytes(f.skip(1)));
            assert(unfold_bytes(f) =~= v);
        }
    }
}

/// In a folded value every newline is followed by a space, so the folded
/// region never ends in a newline and contains no line terminator.
pub proof fn lemma_fold_newlines(v: Seq<u8>)
    ensures
        forall|j: int|
            0 <= j < fold_bytes(v).len() && #[trigger] fold_bytes(v)[j] == 10u8 ==> j + 1
                < fold_bytes(v).len() && fold_bytes(v)[j + 1] == 32u8,
    decreases v.len(),
{
    if v.len() > 0 {
        lemma_fold_newlines(v.drop_first());
        let f = fold_bytes(v);
        let fr = fold_bytes(v.drop_first());
        if v[0] == 10u8 {
            assert(f == seq![10u8, 32u8] + fr);
            assert forall|j: int| 0 <= j < f.len() && #[trigger] f[j] == 10u8 implies j + 1
                < f.len() && f[j + 1] == 32u8 by {
                if j >= 2 {
                    assert(f[j] == fr[j - 2]);
                    assert(fr[j - 2] == 10u8);
                    assert(fr[j - 1] == 32u8);
                }
            }
        } else {
            assert(f == seq![v[0]] + fr);
            assert forall|j: int| 0 <= j < f.len() && #[trigger] f[j] == 10u8 implies j + 1
                < f.len() && f[j + 1] == 32u8 by {
                assert(j >= 1);
                assert(f[j] == fr[j - 1]);
                assert(fr[j - 1] == 10u8);
                assert(fr[j] == 32u8);
            }
        }
    }
}

/// The index of the newline that terminates the value starting at `i`
/// (`i` points just past the key's space): newlines followed by a space are
/// continuations and are skipped.
pub open spec fn value_end(s: Seq<u8>, i: int) -> Option<int>
    decreases s.len() - i when 0 <= i <= s.len() via value_end_decreases
{
    let e = find_from(s, i, 10u8);
    if e >= s.len() {
        None
    } else if e + 1 >= s.len() {
        None
    } else if s[e + 1] != 32u8 {
        Some(e)
    } else {
        value_end(s, e + 2)
    }
}

#[via_fn]
proof fn value_end_decreases(s: Seq<u8>, i: int) {
    lemma_find_from(s, i, 10u8);
}

/// What a `Some` result of [`value_end`] guarantees.
pub proof fn lemma_value_end_some(s: Seq<u8>, i: int)
    requires
        0 <= i <= s.len(),
    ensures
        value_end(s, i) matches Some(e) ==> i <= e && e + 1 < s.len() && s[e] == 10u8 && s[e + 1]
            != 32u8,
    decreases s.len() - i,
{
    lemma_find_from(s, i, 10u8);
    let e = find_from(s, i, 10u8);
    if e >= s.len() {
    } else if e + 1 >= s.len() {
    } else if s[e + 1] != 32u8 {
    } else {
        lemma_value_end_some(s, e + 2);
    }
}

/// If position `p` holds the first newline-not-followed-by-space at or after
/// `i`, the scan finds exactly `p`.
pub proof fn lemma_value_end_is(s: Seq<u8>, i: int, p: int)
    requires
        0 <= i <= p,
        p + 1 < s.len(),
        s[p] == 10u8,
        s[p + 1] != 32u8,
        forall|j: int| i <= j < p && #[trigger] s[j] == 10u8 ==> s[j + 1] == 32u8,
    ensures
        value_end(s, i) == Some(p),
    decreases p - i,
{
    lemma_find_from(s, i, 10u8);
    let e = find_from(s, i, 10u8);
    assert(e <= p);
    if e == p {
    } else {
        assert(s[e] == 10u8);
        assert(s[e + 1] == 32u8);
        lemma_value_end_is(s, e + 2, p);
    }
}

/// The header parser at the specification level, reading from offset `i`.
pub open spec fn parse_header_from(s: Seq<u8>, i: int) -> Option<
    (Seq<(Seq<u8>, Seq<u8>)>, Seq<u8>),
>
    decreases s.len() - i when 0 <= i <= s.len() via parse_header_decreases
{
    if i >= s.len() {
        None
    } else if s[i] == 10u8 {
        Some((Seq::empty(), s.skip(i + 1)))
    } else {
        let sp = find_sp_nl(s, i);
        if sp >= s.len() {
            None
        } else if s[sp] == 10u8 {
            None
        } else {
            match value_end(s, sp + 1) {
                None => None,
                Some(e) => {
                    let key = s.subrange(i, sp);
                    let value = unfold_bytes(s.subrange(sp + 1, e));
                    match parse_header_from(s, e + 1) {
                        None => None,
                        Some((rest, msg)) => Some((seq![(key, value)] + rest, msg)),
                    }
                },
            }
        }
    }
}

#[via_fn]
proof fn parse_header_decreases(s: Seq<u8>, i: int) {
    if 0 <= i <= s.len() && i < s.len() && s[i] != 10u8 {
        lemma_find_sp_nl(s, i);
        let sp = find_sp_nl(s, i);
        if sp < s.len() && s[sp] != 10u8 {
            lemma_value_end_some(s, sp + 1);
        }
    }
}

/// Completeness of the parser: a well-formed encoded payload parses back to
/// exactly the lines and message it was built from.
pub proof fn lemma_parse_header_complete(
    s: Seq<u8>,
    i: int,
    ls: Seq<(Seq<u8>, Seq<u8>)>,
    msg: Seq<u8>,
)
    requires
        0 <= i <= s.len(),
        wf_lines(ls),
        s.skip(i) == header_payload(ls, msg),
    ensures
        parse_header_from(s, i) == Some((ls, msg)),
    decreases ls.len(),
{
    let t = s.skip(i);
    assert forall|j: int| 0 <= j < t.len() implies #[trigger] t[j] == s[i + j] by {}
    assert(t.len() == s.len() - i);
    if ls.len() == 0 {
        assert(header_lines(ls) == Seq::<u8>::empty());
        assert(t =~= seq![10u8] + msg);
        assert(t[0] == 10u8);
        assert(s[i] == 10u8);
        assert(s.skip(i + 1) =~= msg) by {
            assert forall|j: int| 0 <= j < msg.len() implies s.skip(i + 1)[j] == msg[j] by {
                assert(s.skip(i + 1)[j] == s[i + 1 + j]);
                assert(t[1 + j] == s[i + 1 + j]);
                assert(t[1 + j] == msg[j]);
            }
        }
        assert(ls =~= Seq::<(Seq<u8>, Seq<u8>)>::empty());
    } else {
        let k0 = ls[0].0;
        let v0 = ls[0].1;
        let rest = ls.drop_first();
        assert(wf_key(k0));
        assert(wf_lines(rest)) by {
            assert(forall|j: int|
                0 <= j < rest.len() ==> #[trigger] rest[j].0 == ls[j + 1].0 && wf_key(
                    ls[j + 1].0,
                ));
        }
        let f = fold_bytes(v0);
        let kl = k0.len() as int;
        let fl = f.len() as int;
        let line = header_line(k0, v0);
        let tail = header_payload(rest, msg);
        assert(header_lines(ls) == line + header_lines(rest));
        assert(t =~= line + tail);
        assert(line.len() == kl + 1 + fl + 1);
        assert(tail.len() >= 1) by {
            assert(tail == header_lines(rest) + seq![10u8] + msg);
        }
        assert(t.len() == line.len() + tail.len());
        // byte layout of the first line within s
        assert forall|j: int| 0 <= j < kl implies s[i + j] == k0[j] by {
            assert(t[j] == line[j]);
            assert(line[j] == k0[j]);
        }
        assert(line[kl] == 32u8);
        assert(s[i + kl] == 32u8) by {
            assert(t[kl] == s[i + kl]);
            assert(t[kl] == line[kl]);
        }
        assert forall|j: int| 0 <= j < fl implies s[i + kl + 1 + j] == f[j] by {
            assert(t[kl + 1 + j] == line[kl + 1 + j]);
            assert(line[kl + 1 + j] == f[j]);
        }
        assert(line[kl + 1 + fl] == 10u8);
        assert(s[i + kl + 1 + fl] == 10u8) by {
            assert(t[kl + 1 + fl] == s[i + kl + 1 + fl]);
            assert(t[kl + 1 + fl] == line[kl + 1 + fl]);
        }
        let after = i + kl + 1 + fl + 1;
        assert(s[after] == tail[0]) by {
            assert(t[kl + 1 + fl + 1] == tail[0]);
        }
        // the byte after the line is never a space
        assert(tail[0] != 32u8 && (rest.len() == 0 ==> tail[0] == 10u8)) by {
            if rest.len() == 0 {
                assert(header_lines(rest) == Seq::<u8>::empty());
                assert(tail =~= seq![10u8] + msg);
                assert(tail[0] == 10u8);
            } else {
                let k1 = rest[0].0;
                assert(header_lines(rest) == header_line(k1, rest[0].1) + header_lines(
                    rest.drop_first(),
                ));
                assert(header_line(k1, rest[0].1)[0] == k1[0]);
                assert(tail[0] == k1[0]);
                assert(wf_key(k1));
                assert(k1[0] != 32u8);
            }
        }
        // the parser takes the key-value branch
        assert(s[i] == k0[0]);
        assert(s[i] != 10u8 && i < s.len());
        assert forall|j: int| i <= j < i + kl implies s[j] != 32u8 && s[j] != 10u8 by {
            let q = j - i;
            assert(s[i + q] == k0[q]);
            assert(k0[q] != 32u8 && k0[q] != 10u8);
        }
        lemma_find_sp_nl_is(s, i, i + kl);
        let sp = i + kl;
        assert(find_sp_nl(s, i) == sp);
        assert(s[sp] == 32u8);
        // the value scan stops exactly at the line's newline
        let p = i + kl + 1 + fl;
        lemma_fold_newlines(v0);
        assert forall|j: int| sp + 1 <= j < p && #[trigger] s[j] == 10u8 implies s[j + 1]
            == 32u8 by {
            let q = j - (sp + 1);
            assert(s[j] == f[q]);
            assert(f[q] == 10u8);
            assert(q + 1 < fl && f[q + 1] == 32u8);
            assert(s[j + 1] == f[q + 1]);
        }
        lemma_value_end_is(s, sp + 1, p);
        assert(value_end(s, sp + 1) == Some(p));
        // key and value are recovered exactly
        assert(s.subrange(i, sp) =~= k0);
        assert(s.subrange(sp + 1, p) =~= f);
        lemma_unfold_fold(v0);
        // the remainder is the payload of the remaining lines
        assert(s.skip(after).len() == tail.len());
        assert forall|j: int| 0 <= j < tail.len() implies s.skip(after)[j] == tail[j] by {
            assert(s.skip(after)[j] == s[after + j]);
            assert(t[kl + 1 + fl + 1 + j] == s[i + (kl + 1 + fl + 1 + j)]);
            assert(i + (kl + 1 + fl + 1 + j) == after + j);
            assert(t[kl + 1 + fl + 1 + j] == tail[j]);
        }
        assert(s.skip(after) =~= tail);
        lemma_parse_header_complete(s, after, rest, msg);
        assert(parse_header_from(s, after) == Some((rest, msg)));
        assert(parse_header_from(s, i) == Some((seq![(k0, v0)] + rest, msg)));
        assert(seq![(k0, v0)] + rest =~= ls);
    }
}

/// The byte-pair view of accumulated raw lines.
pub open spec fn pairs_view(ls: Seq<(Vec<u8>, Vec<u8>)>) -> Seq<(Seq<u8>, Seq<u8>)> {
    ls.map_values(|p: (Vec<u8>, Vec<u8>)| (p.0@, p.1@))
}

/// The character-pair view of parsed string lines.
pub open spec fn str_pairs_view(ls: Seq<(String, String)>) -> Seq<(Seq<char>, Seq<char>)> {
    ls.map_values(|p: (String, String)| (p.0@, p.1@))
}

/// String-level lines taken down to their UTF-8 bytes.
pub open spec fn lines_utf8(ls: Seq<(Seq<char>, Seq<char>)>) -> Seq<(Seq<u8>, Seq<u8>)> {
    ls.map_values(|p: (Seq<char>, Seq<char>)| (encode_utf8(p.0), encode_utf8(p.1)))
}

/// A string key is non-empty and contains neither a space nor a newline.
pub open spec fn wf_key_str(k: Seq<char>) -> bool {
    k.len() > 0 && forall|i: int| 0 <= i < k.len() ==> #[trigger] k[i] != ' ' && k[i] != '\n'
}

pub open spec fn wf_lines_str(ls: Seq<(Seq<char>, Seq<char>)>) -> bool {
    forall|i: int| 0 <= i < ls.len() ==> wf_key_str(#[trigger] ls[i].0)
}

/// The payload encoded from string-level lines and message.
pub open spec fn header_payload_str(ls: Seq<(Seq<char>, Seq<char>)>, msg: Seq<char>) -> Seq<u8> {
    header_payload(lines_utf8(ls), encode_utf8(msg))
}

pub proof fn lemma_wf_lines_utf8(ls: Seq<(Seq<char>, Seq<char>)>)
    requires
        wf_lines_str(ls),
    ensures
        wf_lines(lines_utf8(ls)),
{
    assert forall|i: int| 0 <= i < lines_utf8(ls).len() implies wf_key(
        #[trigger] lines_utf8(ls)[i].0,
    ) by {
        let k = ls[i].0;
        assert(wf_key_str(k));
        crate::text::lemma_encode_utf8_nonempty(k);
        lemma_encode_utf8_absent_char(k, ' ');
        lemma_encode_utf8_absent_char(k, '\n');
        assert(lines_utf8(ls)[i].0 == encode_utf8(k));
        assert((' ' as u32) as u8 == 32u8);
        assert(('\n' as u32) as u8 == 10u8);
    }
}

/// The scan for the terminating newline of a value.
fn value_end_exec(data: &[u8], start: usize) -> (r: Option<usize>)
    requires
        start <= data@.len(),
    ensures
        r matches Some(e) ==> value_end(data@, start as int) == Some(e as int) && start <= e && e
            + 1 < data@.len(),
        r is None ==> value_end(data@, start as int) is None,
{
    let mut pos = start;
    loop
        invariant
            start <= pos <= data@.len(),
            value_end(data@, start as int) == value_end(data@, pos as int),
        decreases data@.len() - pos,
    {
        let e = find_byte(data, pos, 10u8);
        proof {
            lemma_find_from(data@, pos as int, 10u8);
        }
        if e >= data.len() {
            return None;
        }
        if e + 1 >= data.len() {
            return None;
        }
        if data[e + 1] != 32u8 {
            return Some(e);
        }
        pos = e + 2;
    }
}

/// Removes the continuation marker spaces from `data[lo..hi]`.
fn unfold_range(data: &[u8], lo: usize, hi: usize) -> (r: Vec<u8>)
    requires
        lo <= hi <= data@.len(),
    ensures
        r@ == unfold_bytes(data@.subrange(lo as int, hi as int)),
{
    let mut out: Vec<u8> = Vec::new();
    let mut i = lo;
    while i < hi
        invariant
            lo <= i <= hi <= data@.len(),
            out@ + unfold_bytes(data@.subrange(i as int, hi as int)) == unfold_bytes(
                data@.subrange(lo as int, hi as int),
            ),
        decreases hi - i,
    {
        let ghost sub = data@.subrange(i as int, hi as int);
        let b = data[i];
        proof {
            assert(sub[0] == b);
        }
        if b == 10u8 && i + 1 < hi && data[i + 1] == 32u8 {
            out.push(10u8);
            proof {
                assert(sub.len() >= 2 && sub[1] == 32u8);
                assert(unfold_bytes(sub) == seq![10u8] + unfold_bytes(sub.skip(2)));
                assert(sub.skip(2) =~= data@.subrange(i + 2, hi as int));
                assert(out@ + unfold_bytes(data@.subrange(i + 2, hi as int)) =~= unfold_bytes(
                    data@.subrange(lo as int, hi as int),
                ));
            }
            i = i + 2;
        } else {
            out.push(b);
            proof {
                assert(!(sub[0] == 10u8 && sub.len() >= 2 && sub[1] == 32u8));
                assert(unfold_bytes(sub) == seq![sub[0]] + unfold_bytes(sub.skip(1)));
                assert(sub.skip(1) =~= data@.subrange(i + 1, hi as int));
                assert(out@ + unfold_bytes(data@.subrange(i + 1, hi as int)) =~= unfold_bytes(
                    data@.subrange(lo as int, hi as int),
                ));
            }
            i = i + 1;
        }
    }
    proof {
        assert(data@.subrange(i as int, hi as int) =~= Seq::<u8>::empty());
        assert(out@ =~= out@ + unfold_bytes(data@.subrange(i as int, hi as int)));
    }
    out
}

/// The result so far, with the accumulated lines glued in front.
pub open spec fn parse_glue(s: Seq<u8>, i: int, acc: Seq<(Seq<u8>, Seq<u8>)>) -> Option<
    (Seq<(Seq<u8>, Seq<u8>)>, Seq<u8>),
> {
    match parse_header_from(s, i) {
        None => None,
        Some((ls, m)) => Some((acc + ls, m)),
    }
}

/// The byte-level header parser; on failure, the offset where it gave up.
/// On success it also hands back each line's start offset and the offset at
/// which the message begins.
pub(crate) fn parse_header_bytes(data: &[u8]) -> (r: Result<
    (Vec<(Vec<u8>, Vec<u8>)>, Vec<u8>, Vec<usize>, usize),
    usize,
>)
    ensures
        r matches Ok(p) ==> parse_header_from(data@, 0) == Some((pairs_view(p.0@), p.1@))
            && p.2@.len() == p.0@.len() && p.3 as int == data@.len() - p.1@.len(),
        r matches Err(off) ==> parse_header_from(data@, 0) is None && off <= data@.len(),
{
    let mut lines: Vec<(Vec<u8>, Vec<u8>)> = Vec::new();
    let mut offs: Vec<usize> = Vec::new();
    let mut pos: usize = 0;
    proof {
        assert(pairs_view(lines@) =~= Seq::<(Seq<u8>, Seq<u8>)>::empty());
        if parse_header_from(data@, 0) is Some {
            let (ls, m) = parse_header_from(data@, 0)->Some_0;
            assert(pairs_view(lines@) + ls =~= ls);
        }
    }
    loop
        invariant
            0 <= pos <= data@.len(),
            offs@.len() == lines@.len(),
            parse_header_from(data@, 0) == parse_glue(data@, pos as int, pairs_view(lines@)),
        decreases data@.len() - pos,
    {
        if pos >= data.len() {
            return Err(pos);
        }
        if data[pos] == 10u8 {
            let msg = subvec(data, pos + 1, data.len());
            proof {
                assert(parse_header_from(data@, pos as int) == Some(
                    (Seq::<(Seq<u8>, Seq<u8>)>::empty(), data@.skip(pos + 1)),
                ));
                assert(pairs_view(lines@) + Seq::<(Seq<u8>, Seq<u8>)>::empty() =~= pairs_view(
                    lines@,
                ));
                assert(data@.skip(pos + 1) =~= data@.subrange(pos + 1, data@.len() as int));
            }
            return Ok((lines, msg, offs, pos + 1));
        }
        let sp = find_space_or_newline(data, pos);
        if sp >= data.len() {
            return Err(pos);
        }
        if data[sp] == 10u8 {
            return Err(pos);
        }
        let ve = value_end_exec(data, sp + 1);
        let e = match ve {
            None => {
                return Err(pos);
            },
            Some(e) => e,
        };
        let key = subvec(data, pos, sp);
        let value = unfold_range(data, sp + 1, e);
        let ghost acc0 = pairs_view(lines@);
        lines.push((key, value));
        offs.push(pos);
        proof {
            let s = data@;
            let kv = (s.subrange(pos as int, sp as int), unfold_bytes(
                s.subrange(sp + 1, e as int),
            ));
            assert(pairs_view(lines@) =~= acc0.push(kv));
            match parse_header_from(s, e + 1) {
                None => {
                    assert(parse_header_from(s, pos as int) is None);
                },
                Some((rest, m)) => {
                    assert(parse_header_from(s, pos as int) == Some((seq![kv] + rest, m)));
                    assert(acc0 + (seq![kv] + rest) =~= acc0.push(kv) + rest);
                },
            }
        }
        pos = e + 1;
    }
}

/// A decoded header: the key-value lines in payload order, the message, and
/// the offset at which the message begins in the payload.
pub struct ParsedHeader {
    pub lines: Vec<(String, String)>,
    pub message: String,
    pub message_offset: usize,
}

proof fn lemma_hyp_forces(
    data: Seq<u8>,
    big0: Seq<(Seq<u8>, Seq<u8>)>,
    big1: Seq<u8>,
    ls: Seq<(Seq<char>, Seq<char>)>,
    msg: Seq<char>,
)
    requires
        wf_lines_str(ls),
        data == header_payload_str(ls, msg),
        parse_header_from(data, 0) == Some((big0, big1)),
    ensures
        big0 == lines_utf8(ls),
        big1 == encode_utf8(msg),
{
    lemma_wf_lines_utf8(ls);
    assert(data.skip(0) =~= data);
    lemma_parse_header_complete(data, 0, lines_utf8(ls), encode_utf8(msg));
}

proof fn lemma_none_no_encoding(data: Seq<u8>)
    requires
        parse_header_from(data, 0) is None,
    ensures
        forall|ls: Seq<(Seq<char>, Seq<char>)>, msg: Seq<char>|
            !(wf_lines_str(ls) && data == #[trigger] header_payload_str(ls, msg)),
{
    assert forall|ls: Seq<(Seq<char>, Seq<char>)>, msg: Seq<char>|
        !(wf_lines_str(ls) && data == #[trigger] header_payload_str(ls, msg)) by {
        if wf_lines_str(ls) && data == header_payload_str(ls, msg) {
            lemma_wf_lines_utf8(ls);
            assert(data.skip(0) =~= data);
            lemma_parse_header_complete(data, 0, lines_utf8(ls), encode_utf8(msg));
        }
    }
}

proof fn lemma_invalid_component_no_encoding(data: Seq<u8>, big0: Seq<(Seq<u8>, Seq<u8>)>, big1: Seq<u8>)
    requires
        parse_header_from(data, 0) == Some((big0, big1)),
        !valid_utf8(big1) || exists|j: int|
            0 <= j < big0.len() && (!valid_utf8(#[trigger] big0[j].0) || !valid_utf8(big0[j].1)),
    ensures
        forall|ls: Seq<(Seq<char>, Seq<char>)>, msg: Seq<char>|
            !(wf_lines_str(ls) && data == #[trigger] header_payload_str(ls, msg)),
{
    assert forall|ls: Seq<(Seq<char>, Seq<char>)>, msg: Seq<char>|
        !(wf_lines_str(ls) && data == #[trigger] header_payload_str(ls, msg)) by {
        if wf_lines_str(ls) && data == header_payload_str(ls, msg) {
            lemma_hyp_forces(data, big0, big1, ls, msg);
            broadcast use encode_utf8_valid_utf8;

            if !valid_utf8(big1) {
                assert(big1 == encode_utf8(msg));
            } else {
                let j = choose|j: int|
                    0 <= j < big0.len() && (!valid_utf8(#[trigger] big0[j].0) || !valid_utf8(
                        big0[j].1,
                    ));
                assert(big0[j] == lines_utf8(ls)[j]);
                assert(big0[j].0 == encode_utf8(ls[j].0));
                assert(big0[j].1 == encode_utf8(ls[j].1));
            }
        }
    }
}

/// Decodes a header payload into its key-value lines and message.
///
/// The second postcondition is the decode half of the codec's round-trip
/// guarantee: any payload that was encoded from well-formed lines and a
/// message parses back to exactly those lines and that message.
pub fn parse_commit(data: &[u8]) -> (r: Result<ParsedHeader, GitError>)
    ensures
        r matches Ok(h) ==> parse_header_from(data@, 0) == Some(
            (lines_utf8(str_pairs_view(h.lines@)), encode_utf8(h.message@)),
        ) && h.message_offset as int == data@.len() - encode_utf8(h.message@).len(),
        forall|ls: Seq<(Seq<char>, Seq<char>)>, msg: Seq<char>|
            wf_lines_str(ls) && data@ == #[trigger] header_payload_str(ls, msg) ==> (
            r matches Ok(h) && str_pairs_view(h.lines@) == ls && h.message@ == msg),
        r matches Err(e) ==> e is CorruptPayload,
{
    let parsed = match parse_header_bytes(data) {
        Err(off) => {
            proof {
                lemma_none_no_encoding(data@);
            }
            return Err(GitError::CorruptPayload { offset: off });
        },
        Ok(p) => p,
    };
    let (mut blines, bmsg, mut boffs, msg_off) = parsed;
    let ghost orig: Seq<(Seq<u8>, Seq<u8>)> = pairs_view(blines@);
    let ghost bmsg_view: Seq<u8> = bmsg@;
    let mut slines: Vec<(String, String)> = Vec::new();
    while blines.len() > 0
        invariant
            parse_header_from(data@, 0) == Some((orig, bmsg_view)),
            msg_off as int == data@.len() - bmsg_view.len(),
            boffs@.len() == blines@.len(),
            slines@.len() + blines@.len() == orig.len(),
            forall|j: int|
                0 <= j < slines@.len() ==> encode_utf8(#[trigger] str_pairs_view(slines@)[j].0)
                    == orig[j].0 && encode_utf8(str_pairs_view(slines@)[j].1) == orig[j].1,
            forall|j: int|
                0 <= j < blines@.len() ==> #[trigger] pairs_view(blines@)[j] == orig[slines@.len()
                    + j],
        decreases blines@.len(),
    {
        let ghost idx = slines@.len() as int;
        let ghost bl0 = blines@;
        proof {
            assert(pairs_view(bl0)[0] == orig[idx]);
            assert(pairs_view(bl0)[0] == (bl0[0].0@, bl0[0].1@));
        }
        let pair = blines.remove(0);
        let line_off = boffs.remove(0);
        proof {
            assert(pair == bl0[0]);
            assert(pair.0@ == orig[idx].0 && pair.1@ == orig[idx].1);
            assert forall|j: int| 0 <= j < blines@.len() implies #[trigger] pairs_view(blines@)[j]
                == orig[idx + 1 + j] by {
                assert(blines@[j] == bl0[j + 1]);
                assert(pairs_view(blines@)[j] == (blines@[j].0@, blines@[j].1@));
                assert(pairs_view(bl0)[j + 1] == (bl0[j + 1].0@, bl0[j + 1].1@));
                assert(pairs_view(bl0)[j + 1] == orig[idx + 1 + j]);
            }
        }
        let k = match bytes_to_string(pair.0) {
            Some(k) => k,
            None => {
                proof {
                    assert(!valid_utf8(orig[idx].0));
                    lemma_invalid_component_no_encoding(data@, orig, bmsg_view);
                }
                return Err(GitError::CorruptPayload { offset: line_off });
            },
        };
        let v = match bytes_to_string(pair.1) {
            Some(v) => v,
            None => {
                proof {
                    assert(!valid_utf8(orig[idx].1));
                    lemma_invalid_component_no_encoding(data@, orig, bmsg_view);
                }
                return Err(GitError::CorruptPayload { offset: line_off });
            },
        };
        let ghost sl0 = slines@;
        let ghost kview = k@;
        let ghost vview = v@;
        slines.push((k, v));
        proof {
            assert(slines@ == sl0.push((slines@[idx].0, slines@[idx].1)));
            assert forall|j: int| 0 <= j < slines@.len() implies encode_utf8(
                #[trigger] str_pairs_view(slines@)[j].0,
            ) == orig[j].0 && encode_utf8(str_pairs_view(slines@)[j].1) == orig[j].1 by {
                assert(str_pairs_view(slines@)[j] == (slines@[j].0@, slines@[j].1@));
                if j < idx {
                    assert(slines@[j] == sl0[j]);
                    assert(str_pairs_view(sl0)[j] == (sl0[j].0@, sl0[j].1@));
                    assert(encode_utf8(str_pairs_view(sl0)[j].0) == orig[j].0);
                    assert(encode_utf8(str_pairs_view(sl0)[j].1) == orig[j].1);
                } else {
                    assert(slines@[j].0@ == kview && slines@[j].1@ == vview);
                    assert(encode_utf8(kview) == orig[idx].0);
                    assert(encode_utf8(vview) == orig[idx].1);
                }
            }
        }
    }
    let message = match bytes_to_string(bmsg) {
        Some(m) => m,
        None => {
            proof {
                lemma_invalid_component_no_encoding(data@, orig, bmsg_view);
            }
            return Err(GitError::CorruptPayload { offset: msg_off });
        },
    };
    let h = ParsedHeader { lines: slines, message, message_offset: msg_off };
    proof {
        assert(lines_utf8(str_pairs_view(h.lines@)) =~= orig) by {
            assert forall|j: int| 0 <= j < orig.len() implies #[trigger] lines_utf8(
                str_pairs_view(h.lines@),
            )[j] == orig[j] by {
                assert(lines_utf8(str_pairs_view(h.lines@))[j] == (
                    encode_utf8(str_pairs_view(h.lines@)[j].0),
                    encode_utf8(str_pairs_view(h.lines@)[j].1),
                ));
                assert((orig[j].0, orig[j].1) == orig[j]);
            }
        }
        assert(encode_utf8(h.message@) == bmsg_view);
        assert forall|ls: Seq<(Seq<char>, Seq<char>)>, msg: Seq<char>|
            wf_lines_str(ls) && data@ == #[trigger] header_payload_str(ls, msg) implies (
        str_pairs_view(h.lines@) == ls && h.message@ == msg) by {
            lemma_hyp_forces(data@, orig, bmsg_view, ls, msg);
            assert(lines_utf8(str_pairs_view(h.lines@)) == lines_utf8(ls));
            assert forall|j: int| 0 <= j < ls.len() implies #[trigger] str_pairs_view(h.lines@)[j]
                == ls[j] by {
                assert(lines_utf8(str_pairs_view(h.lines@))[j] == lines_utf8(ls)[j]);
                assert(encode_utf8(str_pairs_view(h.lines@)[j].0) == encode_utf8(ls[j].0));
                assert(encode_utf8(str_pairs_view(h.lines@)[j].1) == encode_utf8(ls[j].1));
                encode_utf8_decode_utf8(str_pairs_view(h.lines@)[j].0);
                encode_utf8_decode_utf8(ls[j].0);
                encode_utf8_decode_utf8(str_pairs_view(h.lines@)[j].1);
                encode_utf8_decode_utf8(ls[j].1);
            }
            assert(str_pairs_view(h.lines@) =~= ls);
            assert(encode_utf8(h.message@) == encode_utf8(msg));
            encode_utf8_decode_utf8(h.message@);
            encode_utf8_decode_utf8(msg);
        }
    }
    Ok(h)
}

/// Folding a value grown by one byte grows its folded form at the end.
pub proof fn lemma_fold_snoc(v: Seq<u8>, x: u8)
    ensures
        fold_bytes(v.push(x)) == fold_bytes(v) + (if x == 10u8 {
            seq![10u8, 32u8]
        } else {
            seq![x]
        }),
    decreases v.len(),
{
    let tail = if x == 10u8 {
        seq![10u8, 32u8]
    } else {
        seq![x]
    };
    if v.len() == 0 {
        assert(v.push(x)[0] == x);
        assert(v.push(x).drop_first() =~= Seq::<u8>::empty());
        assert(fold_bytes(Seq::<u8>::empty()) == Seq::<u8>::empty());
        if x == 10u8 {
            assert(fold_bytes(v.push(x)) == seq![10u8, 32u8] + fold_bytes(v.push(x).drop_first()));
        } else {
            assert(fold_bytes(v.push(x)) == seq![x] + fold_bytes(v.push(x).drop_first()));
        }
        assert(fold_bytes(v.push(x)) =~= fold_bytes(v) + tail);
    } else {
        assert(v.push(x)[0] == v[0]);
        assert(v.push(x).drop_first() =~= v.drop_first().push(x));
        lemma_fold_snoc(v.drop_first(), x);
        if v[0] == 10u8 {
            assert(fold_bytes(v.push(x)) == seq![10u8, 32u8] + fold_bytes(v.drop_first().push(x)));
            assert(fold_bytes(v) == seq![10u8, 32u8] + fold_bytes(v.drop_first()));
        } else {
            assert(fold_bytes(v.push(x)) == seq![v[0]] + fold_bytes(v.drop_first().push(x)));
            assert(fold_bytes(v) == seq![v[0]] + fold_bytes(v.drop_first()));
        }
        assert(fold_bytes(v.push(x)) =~= fold_bytes(v) + tail);
    }
}

/// One more line at the end of the list appends its encoding to the payload.
pub proof fn lemma_header_lines_snoc(ls: Seq<(Seq<u8>, Seq<u8>)>, l: (Seq<u8>, Seq<u8>))
    ensures
        header_lines(ls.push(l)) == header_lines(ls) + header_line(l.0, l.1),
    decreases ls.len(),
{
    if ls.len() == 0 {
        assert(ls.push(l)[0] == l);
        assert(ls.push(l).drop_first() =~= Seq::<(Seq<u8>, Seq<u8>)>::empty());
        assert(header_lines(ls.push(l)) == header_line(l.0, l.1) + header_lines(
            Seq::<(Seq<u8>, Seq<u8>)>::empty(),
        ));
        assert(header_lines(ls.push(l)) =~= header_lines(ls) + header_line(l.0, l.1));
    } else {
        assert(ls.push(l)[0] == ls[0]);
        assert(ls.push(l).drop_first() =~= ls.drop_first().push(l));
        lemma_header_lines_snoc(ls.drop_first(), l);
        assert(header_lines(ls.push(l)) == header_line(ls[0].0, ls[0].1) + header_lines(
            ls.drop_first().push(l),
        ));
        assert(header_lines(ls) == header_line(ls[0].0, ls[0].1) + header_lines(ls.drop_first()));
        assert(header_lines(ls.push(l)) =~= header_lines(ls) + header_line(l.0, l.1));
    }
}

/// Appends the folded UTF-8 bytes of `s` to `out`.
fn push_folded(out: &mut Vec<u8>, s: &str)
    ensures
        final(out)@ == old(out)@ + fold_bytes(encode_utf8(s@)),
{
    let b = s.as_bytes();
    let mut i: usize = 0;
    proof {
        assert(b@.take(0) =~= Seq::<u8>::empty());
        assert(out@ =~= old(out)@ + fold_bytes(b@.take(0)));
    }
    while i < b.len()
        invariant
            0 <= i <= b@.len(),
            b@ == encode_utf8(s@),
            out@ == old(out)@ + fold_bytes(b@.take(i as int)),
        decreases b@.len() - i,
    {
        let x = b[i];
        if x == 10u8 {
            out.push(10u8);
            out.push(32u8);
        } else {
            out.push(x);
        }
        proof {
            lemma_fold_snoc(b@.take(i as int), x);
            assert(b@.take(i + 1) =~= b@.take(i as int).push(x));
            assert(out@ =~= old(out)@ + fold_bytes(b@.take(i + 1)));
        }
        i = i + 1;
    }
    proof {
        assert(b@.take(b@.len() as int) =~= b@);
    }
}

/// Encodes key-value lines and a message into a header payload: one
/// `key SP folded-value NL` line per pair in order, a blank line, then the
/// message verbatim.
pub fn serialize_indexmap(lines: &Vec<(String, String)>, message: &str) -> (r: Vec<u8>)
    requires
        wf_lines_str(str_pairs_view(lines@)),
    ensures
        r@ == header_payload_str(str_pairs_view(lines@), message@),
{
    let ghost big: Seq<(Seq<u8>, Seq<u8>)> = lines_utf8(str_pairs_view(lines@));
    let mut out: Vec<u8> = Vec::new();
    let mut i: usize = 0;
    proof {
        assert(big.take(0) =~= Seq::<(Seq<u8>, Seq<u8>)>::empty());
        assert(out@ =~= header_lines(big.take(0)));
    }
    while i < lines.len()
        invariant
            0 <= i <= lines@.len(),
            big == lines_utf8(str_pairs_view(lines@)),
            big.len() == lines@.len(),
            out@ == header_lines(big.take(i as int)),
        decreases lines@.len() - i,
    {
        let pair = &lines[i];
        push_str_bytes(&mut out, pair.0.as_str());
        out.push(32u8);
        push_folded(&mut out, pair.1.as_str());
        out.push(10u8);
        proof {
            lemma_header_lines_snoc(big.take(i as int), big[i as int]);
            assert(big.take(i + 1) =~= big.take(i as int).push(big[i as int]));
            assert(str_pairs_view(lines@)[i as int] == (lines@[i as int].0@, lines@[
                i as int].1@));
            assert(big[i as int].0 == encode_utf8(lines@[i as int].0@));
            assert(big[i as int].1 == encode_utf8(lines@[i as int].1@));
            assert(out@ =~= header_lines(big.take(i as int)) + header_line(
                big[i as int].0,
                big[i as int].1,
            ));
        }
        i = i + 1;
    }
    out.push(10u8);
    push_str_bytes(&mut out, message);
    proof {
        assert(big.take(big.len() as int) =~= big);
        assert(out@ =~= header_payload(big, encode_utf8(message@)));
    }
    out
}

} // verus!
