//! Bytes of text: comparing, searching and appending.

use vstd::prelude::*;

verus! {

/// The bytes of a string.
pub open spec fn bytes_of(s: &str) -> Seq<u8> {
    vstd::utf8::encode_utf8(s@)
}

/// A letter without its case: capital letters of the alphabet become small ones.
pub open spec fn lower(c: u8) -> u8 {
    if 'A' as u8 <= c <= 'Z' as u8 {
        (c + 32) as u8
    } else {
        c
    }
}

/// The first position at or behind `i` that holds `c`; the length if there is none.
pub open spec fn find(b: Seq<u8>, c: u8, i: int) -> int
    decreases b.len() - i,
{
    if 0 <= i < b.len() {
        if b[i] == c {
            i
        } else {
            find(b, c, i + 1)
        }
    } else {
        b.len() as int
    }
}

pub proof fn lemma_find(b: Seq<u8>, c: u8, i: int)
    requires
        0 <= i <= b.len(),
    ensures
        i <= find(b, c, i) <= b.len(),
        find(b, c, i) < b.len() ==> b[find(b, c, i)] == c,
        forall|j: int| i <= j < find(b, c, i) ==> b[j] != c,
    decreases b.len() - i,
{
    if i < b.len() && b[i] != c {
        lemma_find(b, c, i + 1);
    }
}

/// Appends a string.
pub fn push_text(out: &mut Vec<u8>, s: &str)
    ensures
        final(out)@ == old(out)@ + bytes_of(s),
{
    out.extend_from_slice(s.as_bytes());
}

/// Appends bytes.
pub fn push_bytes(out: &mut Vec<u8>, s: &[u8])
    ensures
        final(out)@ == old(out)@ + s@,
{
    out.extend_from_slice(s);
}

/// Whether two stretches of bytes are the same.
pub fn same_bytes(a: &[u8], b: &[u8]) -> (same: bool)
    ensures
        same == (a@ == b@),
{
    if a.len() != b.len() {
        return false;
    }
    let mut i: usize = 0;
    while i < a.len()
        invariant
            i <= a@.len() == b@.len(),
            forall|j: int| 0 <= j < i ==> a@[j] == b@[j],
        decreases a@.len() - i,
    {
        if a[i] != b[i] {
            return false;
        }
        i = i + 1;
    }
    assert(a@ =~= b@);
    true
}

/// The first position at or behind `from` that holds `c`; the length if there is none.
pub fn position(b: &[u8], c: u8, from: usize) -> (i: usize)
    requires
        from <= b@.len(),
    ensures
        i == find(b@, c, from as int),
        from <= i <= b@.len(),
{
    let mut i: usize = from;
    while i < b.len() && b[i] != c
        invariant
            from <= i <= b@.len(),
            find(b@, c, i as int) == find(b@, c, from as int),
        decreases b@.len() - i,
    {
        i = i + 1;
    }
    i
}

} // verus!
