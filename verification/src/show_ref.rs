//! Interpreting reference files. A reference file holds either a 40-hex
//! digest or an indirection `ref: <relative-path>`; its contents are
//! trimmed of surrounding ASCII whitespace first. Reading the files and
//! following the indirection on disk is the caller's work.

use vstd::prelude::*;

verus! {

pub open spec fn is_ascii_space(b: u8) -> bool {
    b == 32u8 || b == 9u8 || b == 10u8 || b == 13u8
}

/// Leading ASCII whitespace removed.
pub open spec fn trim_front(s: Seq<u8>) -> Seq<u8>
    decreases s.len(),
{
    if s.len() == 0 {
        s
    } else if is_ascii_space(s[0]) {
        trim_front(s.drop_first())
    } else {
        s
    }
}

/// Trailing ASCII whitespace removed.
pub open spec fn trim_back(s: Seq<u8>) -> Seq<u8>
    decreases s.len(),
{
    if s.len() == 0 {
        s
    } else if is_ascii_space(s.last()) {
        trim_back(s.drop_last())
    } else {
        s
    }
}

/// Surrounding ASCII whitespace removed.
pub open spec fn trim_bytes(s: Seq<u8>) -> Seq<u8> {
    trim_back(trim_front(s))
}

/// The bytes of the indirection marker `ref: `.
pub open spec fn ref_marker() -> Seq<u8> {
    seq![114u8, 101u8, 102u8, 58u8, 32u8]
}

/// What a reference file denotes after trimming: `(true, path)` for an
/// indirection `ref: path`, `(false, digest)` for a direct digest.
pub open spec fn spec_ref_target(s: Seq<u8>) -> (bool, Seq<u8>) {
    let t = trim_bytes(s);
    if t.len() >= 5 && t.subrange(0, 5) == ref_marker() {
        (true, t.skip(5))
    } else {
        (false, t)
    }
}

/// Splits a reference file's contents into indirection flag and target.
pub fn parse_ref_content(data: &[u8]) -> (r: (bool, Vec<u8>))
    ensures
        (r.0, r.1@) == spec_ref_target(data@),
{
    let mut lo: usize = 0;
    let mut hi: usize = data.len();
    proof {
        assert(data@.subrange(0, data@.len() as int) =~= data@);
    }
    while lo < hi && (data[lo] == 32u8 || data[lo] == 9u8 || data[lo] == 10u8 || data[lo] == 13u8)
        invariant
            0 <= lo <= hi <= data@.len(),
            hi == data@.len(),
            trim_front(data@) == trim_front(data@.subrange(lo as int, data@.len() as int)),
        decreases hi - lo,
    {
        let ghost sub = data@.subrange(lo as int, data@.len() as int);
        proof {
            assert(sub[0] == data@[lo as int]);
            assert(is_ascii_space(sub[0]));
            assert(sub.drop_first() =~= data@.subrange(lo + 1, data@.len() as int));
        }
        lo = lo + 1;
    }
    proof {
        let sub = data@.subrange(lo as int, data@.len() as int);
        if lo >= hi {
            assert(sub =~= Seq::<u8>::empty());
        } else {
            assert(sub[0] == data@[lo as int]);
            assert(!is_ascii_space(sub[0]));
        }
        assert(trim_front(data@) == sub);
    }
    let ghost front = data@.subrange(lo as int, data@.len() as int);
    proof {
        assert(data@.subrange(lo as int, hi as int) =~= front);
    }
    while hi > lo && (data[hi - 1] == 32u8 || data[hi - 1] == 9u8 || data[hi - 1] == 10u8 || data[
        hi - 1] == 13u8)
        invariant
            0 <= lo <= hi <= data@.len(),
            front == trim_front(data@),
            trim_back(front) == trim_back(data@.subrange(lo as int, hi as int)),
        decreases hi,
    {
        let ghost sub = data@.subrange(lo as int, hi as int);
        proof {
            assert(sub.last() == data@[hi - 1]);
            assert(is_ascii_space(sub.last()));
            assert(sub.drop_last() =~= data@.subrange(lo as int, hi - 1));
        }
        hi = hi - 1;
    }
    proof {
        let sub = data@.subrange(lo as int, hi as int);
        if hi <= lo {
            assert(sub =~= Seq::<u8>::empty());
        } else {
            assert(sub.last() == data@[hi - 1]);
            assert(!is_ascii_space(sub.last()));
        }
        assert(trim_bytes(data@) == sub);
    }
    let trimmed = crate::scan::subvec(data, lo, hi);
    if trimmed.len() >= 5 {
        let head = vstd::slice::slice_subrange(trimmed.as_slice(), 0, 5);
        let is_marker = head.len() == 5 && head[0] == 114u8 && head[1] == 101u8 && head[2] == 102u8
            && head[3] == 58u8 && head[4] == 32u8;
        if is_marker {
            proof {
                assert(trimmed@.subrange(0, 5) =~= ref_marker());
            }
            let target = crate::scan::subvec(trimmed.as_slice(), 5, trimmed.len());
            proof {
                assert(trimmed@.subrange(5, trimmed@.len() as int) =~= trimmed@.skip(5));
            }
            return (true, target);
        }
        proof {
            if trimmed@.subrange(0, 5) == ref_marker() {
                assert(trimmed@.subrange(0, 5)[0] == trimmed@[0]);
                assert(trimmed@.subrange(0, 5)[1] == trimmed@[1]);
                assert(trimmed@.subrange(0, 5)[2] == trimmed@[2]);
                assert(trimmed@.subrange(0, 5)[3] == trimmed@[3]);
                assert(trimmed@.subrange(0, 5)[4] == trimmed@[4]);
            }
        }
    }
    (false, trimmed)
}

} // verus!
