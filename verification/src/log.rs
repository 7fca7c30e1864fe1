//! History traversal over commit parent links. The caller fetches each
//! commit from the store and hands its parents back; the walk decides which
//! digest to yield next. No digest is ever yielded twice, and a queued
//! digest is never lost: it is either yielded or already visited by the
//! time the walk reports itself exhausted. A diamond ancestry — two paths
//! reconverging on a shared ancestor — therefore visits the shared ancestor
//! exactly once, and the walk cannot loop.

use vstd::prelude::*;
use crate::git_object::strings_view;
use crate::text::str_eq;

verus! {

/// Whether a digest occurs in a list.
fn contains_str(v: &Vec<String>, s: &str) -> (r: bool)
    ensures
        r == strings_view(v@).contains(s@),
{
    let mut i: usize = 0;
    while i < v.len()
        invariant
            0 <= i <= v@.len(),
            forall|j: int| 0 <= j < i ==> #[trigger] strings_view(v@)[j] != s@,
        decreases v@.len() - i,
    {
        proof {
            assert(strings_view(v@)[i as int] == v@[i as int]@);
        }
        if str_eq(v[i].as_str(), s) {
            return true;
        }
        i = i + 1;
    }
    proof {
        if strings_view(v@).contains(s@) {
            let j = choose|j: int|
                0 <= j < strings_view(v@).len() && #[trigger] strings_view(v@)[j] == s@;
        }
    }
    false
}

/// A walk over the commit graph. Digests waiting to be visited sit in
/// `pending`; everything ever yielded is remembered in `seen` and recorded
/// in order in `emitted`.
pub struct LogWalk {
    pub pending: Vec<String>,
    pub seen: Vec<String>,
    pub emitted: Vec<String>,
}

impl LogWalk {
    /// The digests yielded so far, in order.
    pub open spec fn emitted_seq(self) -> Seq<Seq<char>> {
        strings_view(self.emitted@)
    }

    /// The digests waiting to be visited.
    pub open spec fn pending_seq(self) -> Seq<Seq<char>> {
        strings_view(self.pending@)
    }

    /// The digests remembered as visited.
    pub open spec fn seen_seq(self) -> Seq<Seq<char>> {
        strings_view(self.seen@)
    }

    /// The walk's invariant: every yielded digest is remembered, and no
    /// digest is yielded twice.
    pub open spec fn wf(self) -> bool {
        &&& (forall|i: int|
            0 <= i < self.emitted_seq().len() ==> self.seen_seq().contains(
                #[trigger] self.emitted_seq()[i],
            ))
        &&& (forall|i: int, j: int|
            0 <= i < j < self.emitted_seq().len() ==> #[trigger] self.emitted_seq()[i]
                != #[trigger] self.emitted_seq()[j])
    }

    /// Starts a walk holding exactly one pending digest and nothing seen
    /// or yielded.
    pub fn new(start: String) -> (r: LogWalk)
        ensures
            r.wf(),
            r.emitted_seq() == Seq::<Seq<char>>::empty(),
            r.seen@.len() == 0,
            r.pending_seq() == seq![start@],
    {
        let mut pending: Vec<String> = Vec::new();
        pending.push(start);
        let r = LogWalk { pending, seen: Vec::new(), emitted: Vec::new() };
        proof {
            assert(r.emitted_seq() =~= Seq::<Seq<char>>::empty());
            assert(r.seen_seq() =~= Seq::<Seq<char>>::empty());
            assert(r.pending_seq() =~= seq![start@]);
        }
        r
    }

    /// Yields the next digest to fetch: the last queued digest that was not
    /// already visited. Digests popped over were all visited before; the
    /// yielded one was never yielded before; and the walk is exhausted —
    /// `None` — only when the queue is empty and everything it held had been
    /// visited, so a queued unvisited digest is always yielded eventually.
    pub fn next_pending(&mut self) -> (r: Option<String>)
        requires
            old(self).wf(),
        ensures
            final(self).wf(),
            r matches Some(d) ==> ({
                &&& final(self).emitted_seq() == old(self).emitted_seq().push(d@)
                &&& !old(self).emitted_seq().contains(d@)
                &&& !old(self).seen_seq().contains(d@)
                &&& final(self).seen_seq() == old(self).seen_seq().push(d@)
                &&& exists|k: int|
                    0 <= k < old(self).pending@.len() && #[trigger] old(self).pending_seq()[k]
                        == d@ && final(self).pending@ == old(self).pending@.take(k) && (forall|
                        j: int,
                    |
                        k < j < old(self).pending@.len() ==> old(self).seen_seq().contains(
                            #[trigger] old(self).pending_seq()[j],
                        ))
            }),
            r is None ==> ({
                &&& final(self).emitted_seq() == old(self).emitted_seq()
                &&& final(self).seen@ == old(self).seen@
                &&& final(self).pending@.len() == 0
                &&& forall|j: int|
                    0 <= j < old(self).pending@.len() ==> old(self).seen_seq().contains(
                        #[trigger] old(self).pending_seq()[j],
                    )
            }),
    {
        loop
            invariant
                self.wf(),
                self.emitted_seq() == old(self).emitted_seq(),
                self.seen@ == old(self).seen@,
                self.pending@.len() <= old(self).pending@.len(),
                self.pending@ == old(self).pending@.take(self.pending@.len() as int),
                forall|j: int|
                    self.pending@.len() <= j < old(self).pending@.len() ==> self.seen_seq(
                    ).contains(#[trigger] old(self).pending_seq()[j]),
            decreases self.pending@.len(),
        {
            let ghost cur = self.pending@;
            let d = match self.pending.pop() {
                Some(d) => d,
                None => {
                    return None;
                },
            };
            let ghost k = self.pending@.len() as int;
            proof {
                assert(d == cur[k]);
                assert(cur.drop_last() =~= cur.take(k));
                assert(self.pending@ =~= old(self).pending@.take(k)) by {
                    assert(forall|j: int|
                        0 <= j < k ==> #[trigger] cur.take(k)[j] == old(self).pending@.take(
                            k + 1,
                        )[j]);
                }
                assert(cur[k] == old(self).pending@[k]);
                assert(old(self).pending_seq()[k] == old(self).pending@[k]@);
            }
            if !contains_str(&self.seen, d.as_str()) {
                let ghost seen0 = self.seen_seq();
                let ghost emitted0 = self.emitted_seq();
                proof {
                    assert(old(self).pending_seq()[k] == d@);
                }
                self.seen.push(d.clone());
                self.emitted.push(d.clone());
                proof {
                    assert(self.seen_seq() =~= seen0.push(d@));
                    assert(self.emitted_seq() =~= emitted0.push(d@));
                    assert(!emitted0.contains(d@)) by {
                        if emitted0.contains(d@) {
                            let j = choose|j: int|
                                0 <= j < emitted0.len() && #[trigger] emitted0[j] == d@;
                            assert(seen0.contains(emitted0[j]));
                        }
                    }
                    assert(self.wf()) by {
                        assert forall|i: int|
                            0 <= i < self.emitted_seq().len() implies self.seen_seq().contains(
                            #[trigger] self.emitted_seq()[i],
                        ) by {
                            if i < emitted0.len() {
                                assert(emitted0[i] == self.emitted_seq()[i]);
                                assert(seen0.contains(emitted0[i]));
                                let j = choose|j: int|
                                    0 <= j < seen0.len() && #[trigger] seen0[j] == emitted0[i];
                                assert(self.seen_seq()[j] == emitted0[i]);
                            } else {
                                assert(self.emitted_seq()[i] == d@);
                                assert(self.seen_seq()[seen0.len() as int] == d@);
                            }
                        }
                    }
                }
                return Some(d);
            }
        }
    }

    /// Queues the parents of a fetched commit, in order, after what is
    /// already pending; nothing else changes.
    pub fn push_parents(&mut self, parents: &Vec<String>)
        requires
            old(self).wf(),
        ensures
            final(self).wf(),
            final(self).emitted_seq() == old(self).emitted_seq(),
            final(self).seen@ == old(self).seen@,
            final(self).pending_seq() == old(self).pending_seq() + strings_view(parents@),
    {
        let mut i: usize = 0;
        proof {
            assert(strings_view(parents@).take(0) =~= Seq::<Seq<char>>::empty());
            assert(self.pending_seq() =~= old(self).pending_seq() + strings_view(
                parents@,
            ).take(0));
        }
        while i < parents.len()
            invariant
                self.wf(),
                self.emitted_seq() == old(self).emitted_seq(),
                self.seen@ == old(self).seen@,
                0 <= i <= parents@.len(),
                self.pending_seq() == old(self).pending_seq() + strings_view(parents@).take(
                    i as int,
                ),
            decreases parents@.len() - i,
        {
            let ghost before = self.pending_seq();
            self.pending.push(parents[i].clone());
            proof {
                assert(self.pending_seq() =~= before.push(parents@[i as int]@));
                assert(strings_view(parents@)[i as int] == parents@[i as int]@);
                assert(strings_view(parents@).take(i + 1) =~= strings_view(parents@).take(
                    i as int,
                ).push(parents@[i as int]@));
                assert(self.pending_seq() =~= old(self).pending_seq() + strings_view(
                    parents@,
                ).take(i + 1));
            }
            i = i + 1;
        }
        proof {
            assert(strings_view(parents@).take(parents@.len() as int) =~= strings_view(parents@));
        }
    }
}

/// The label a commit gets in the rendered log: the first line of its
/// message, with backslashes and double quotes escaped. Works on the
/// message's UTF-8 bytes; escaping inserts ASCII only.
pub open spec fn escape_label(s: Seq<u8>) -> Seq<u8>
    decreases s.len(),
{
    if s.len() == 0 {
        Seq::empty()
    } else if s[0] == 10u8 {
        Seq::empty()
    } else if s[0] == 92u8 {
        seq![92u8, 92u8] + escape_label(s.drop_first())
    } else if s[0] == 34u8 {
        seq![92u8, 34u8] + escape_label(s.drop_first())
    } else {
        seq![s[0]] + escape_label(s.drop_first())
    }
}

/// Renders a commit message's graph label: first line, escaped.
pub fn log_label(message: &str) -> (r: Vec<u8>)
    ensures
        r@ == escape_label(vstd::utf8::encode_utf8(message@)),
{
    let b = message.as_bytes();
    let mut out: Vec<u8> = Vec::new();
    let mut i: usize = 0;
    proof {
        assert(b@.skip(0) =~= b@);
    }
    while i < b.len()
        invariant
            0 <= i <= b@.len(),
            b@ == vstd::utf8::encode_utf8(message@),
            out@ + escape_label(b@.skip(i as int)) == escape_label(b@),
        decreases b@.len() - i,
    {
        let ghost sub = b@.skip(i as int);
        let x = b[i];
        proof {
            assert(sub[0] == x);
            assert(sub.drop_first() =~= b@.skip(i + 1));
        }
        if x == 10u8 {
            proof {
                assert(escape_label(sub) =~= Seq::<u8>::empty());
                assert(out@ =~= escape_label(b@));
            }
            return out;
        } else if x == 92u8 {
            out.push(92u8);
            out.push(92u8);
        } else if x == 34u8 {
            out.push(92u8);
            out.push(34u8);
        } else {
            out.push(x);
        }
        proof {
            assert(out@ + escape_label(b@.skip(i + 1)) =~= escape_label(b@));
        }
        i = i + 1;
    }
    proof {
        assert(b@.skip(b@.len() as int) =~= Seq::<u8>::empty());
        assert(out@ =~= escape_label(b@));
    }
    out
}

/// The eight-character abbreviation of a digest, as the log prints it;
/// nothing if the digest is shorter than eight ASCII characters.
pub fn short_digest(sha: &str) -> (r: Option<String>)
    ensures
        r is Some <==> (sha@.len() >= 8 && vstd::utf8::is_ascii_chars(sha@)),
        r matches Some(s) ==> s@ == sha@.subrange(0, 8),
{
    if !sha.is_ascii() {
        return None;
    }
    let n = vstd::string::StrSliceExecFns::unicode_len(sha);
    if n < 8 {
        return None;
    }
    let prefix = vstd::string::StrSliceExecFns::substring_ascii(sha, 0, 8);
    Some(prefix.to_owned())
}

} // verus!
