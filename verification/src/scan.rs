//! Byte-level scanning primitives shared by the record codec: first-occurrence
//! searches over a byte slice, byte-slice equality, and subrange extraction.

use vstd::prelude::*;

verus! {

/// Index of the first occurrence of `b` in `s` at or after `i`;
/// `s.len()` when there is none.
pub open spec fn find_from(s: Seq<u8>, i: int, b: u8) -> int
    decreases s.len() - i when 0 <= i <= s.len()
{
    if i >= s.len() {
        s.len() as int
    } else if s[i] == b {
        i
    } else {
        find_from(s, i + 1, b)
    }
}

/// Index of the first byte at or after `i` that is a space or a newline;
/// `s.len()` when there is none.
pub open spec fn find_sp_nl(s: Seq<u8>, i: int) -> int
    decreases s.len() - i when 0 <= i <= s.len()
{
    if i >= s.len() {
        s.len() as int
    } else if s[i] == 32u8 || s[i] == 10u8 {
        i
    } else {
        find_sp_nl(s, i + 1)
    }
}

pub proof fn lemma_find_from(s: Seq<u8>, i: int, b: u8)
    requires
        0 <= i <= s.len(),
    ensures
        i <= find_from(s, i, b) <= s.len(),
        find_from(s, i, b) < s.len() ==> s[find_from(s, i, b)] == b,
        forall|j: int| i <= j < find_from(s, i, b) ==> s[j] != b,
    decreases s.len() - i,
{
    if i >= s.len() {
    } else if s[i] == b {
    } else {
        lemma_find_from(s, i + 1, b);
    }
}

pub proof fn lemma_find_sp_nl(s: Seq<u8>, i: int)
    requires
        0 <= i <= s.len(),
    ensures
        i <= find_sp_nl(s, i) <= s.len(),
        find_sp_nl(s, i) < s.len() ==> (s[find_sp_nl(s, i)] == 32u8 || s[find_sp_nl(s, i)]
            == 10u8),
        forall|j: int| i <= j < find_sp_nl(s, i) ==> (s[j] != 32u8 && s[j] != 10u8),
    decreases s.len() - i,
{
    if i >= s.len() {
    } else if s[i] == 32u8 || s[i] == 10u8 {
    } else {
        lemma_find_sp_nl(s, i + 1);
    }
}

/// If the first occurrence is known by its witnesses, `find_from` returns it.
pub proof fn lemma_find_from_is(s: Seq<u8>, i: int, b: u8, p: int)
    requires
        0 <= i <= p < s.len(),
        s[p] == b,
        forall|j: int| i <= j < p ==> s[j] != b,
    ensures
        find_from(s, i, b) == p,
    decreases p - i,
{
    if i == p {
    } else {
        lemma_find_from_is(s, i + 1, b, p);
    }
}

pub proof fn lemma_find_sp_nl_is(s: Seq<u8>, i: int, p: int)
    requires
        0 <= i <= p < s.len(),
        s[p] == 32u8 || s[p] == 10u8,
        forall|j: int| i <= j < p ==> (s[j] != 32u8 && s[j] != 10u8),
    ensures
        find_sp_nl(s, i) == p,
    decreases p - i,
{
    if i == p {
    } else {
        lemma_find_sp_nl_is(s, i + 1, p);
    }
}

pub fn find_byte(data: &[u8], start: usize, b: u8) -> (r: usize)
    requires
        start <= data@.len(),
    ensures
        r == find_from(data@, start as int, b),
        start <= r <= data@.len(),
{
    proof {
        lemma_find_from(data@, start as int, b);
    }
    let mut i = start;
    while i < data.len()
        invariant
            start <= i <= data@.len(),
            find_from(data@, start as int, b) == find_from(data@, i as int, b),
        decreases data@.len() - i,
    {
        if data[i] == b {
            return i;
        }
        i = i + 1;
    }
    data.len()
}

pub fn find_space_or_newline(data: &[u8], start: usize) -> (r: usize)
    requires
        start <= data@.len(),
    ensures
        r == find_sp_nl(data@, start as int),
        start <= r <= data@.len(),
{
    proof {
        lemma_find_sp_nl(data@, start as int);
    }
    let mut i = start;
    while i < data.len()
        invariant
            start <= i <= data@.len(),
            find_sp_nl(data@, start as int) == find_sp_nl(data@, i as int),
        decreases data@.len() - i,
    {
        if data[i] == 32u8 || data[i] == 10u8 {
            return i;
        }
        i = i + 1;
    }
    data.len()
}

/// Byte-slice equality, usable where a derived `PartialEq` would be opaque.
pub fn bytes_eq(a: &[u8], b: &[u8]) -> (r: bool)
    ensures
        r == (a@ == b@),
{
    if a.len() != b.len() {
        return false;
    }
    let mut i: usize = 0;
    while i < a.len()
        invariant
            0 <= i <= a@.len(),
            a@.len() == b@.len(),
            forall|j: int| 0 <= j < i ==> a@[j] == b@[j],
        decreases a@.len() - i,
    {
        if a[i] != b[i] {
            return false;
        }
        i = i + 1;
    }
    proof {
        assert(a@ =~= b@);
    }
    true
}

/// Copies `data[i..j]` out into a fresh vector.
pub fn subvec(data: &[u8], i: usize, j: usize) -> (r: Vec<u8>)
    requires
        i <= j <= data@.len(),
    ensures
        r@ == data@.subrange(i as int, j as int),
{
    vstd::slice::slice_to_vec(vstd::slice::slice_subrange(data, i, j))
}

} // verus!
