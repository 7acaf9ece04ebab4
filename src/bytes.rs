//! Byte-string helpers for the command protocol.

use vstd::prelude::*;
use vstd::string::StringSliceAdditionalSpecFns;

verus! {

/// The bytes of a string.
pub open spec fn lit(s: &str) -> Seq<u8> {
    s.spec_bytes()
}

/// `s` begins with `p`.
pub open spec fn starts_with(s: Seq<u8>, p: Seq<u8>) -> bool {
    p.len() <= s.len() && s.subrange(0, p.len() as int) == p
}

/// How many bytes of `src` fit into `dest`.
pub open spec fn copied_len(dest: Seq<u8>, src: Seq<u8>) -> int {
    if src.len() <= dest.len() {
        src.len() as int
    } else {
        dest.len() as int
    }
}

/// `dest` after `src` was copied to its beginning, cut to the length of `dest`.
pub open spec fn copy_into(dest: Seq<u8>, src: Seq<u8>) -> Seq<u8> {
    let n = copied_len(dest, src);
    src.subrange(0, n) + dest.subrange(n, dest.len() as int)
}

/// Whether `s` begins with `p`.
pub fn bytes_start_with(s: &[u8], p: &[u8]) -> (r: bool)
    ensures
        r == starts_with(s@, p@),
{
    if p.len() > s.len() {
        return false;
    }
    let mut i: usize = 0;
    while i < p.len()
        invariant
            p@.len() <= s@.len(),
            i <= p@.len(),
            forall|j: int| 0 <= j < i ==> s@[j] == p@[j],
        decreases p@.len() - i,
    {
        if s[i] != p[i] {
            assert(s@.subrange(0, p@.len() as int)[i as int] != p@[i as int]);
            return false;
        }
        i = i + 1;
    }
    assert(s@.subrange(0, p@.len() as int) =~= p@);
    true
}

/// Whether `s` and `p` hold the same bytes.
pub fn bytes_equal(s: &[u8], p: &[u8]) -> (r: bool)
    ensures
        r == (s@ == p@),
{
    if s.len() != p.len() {
        return false;
    }
    let r = bytes_start_with(s, p);
    proof {
        assert(s@ =~= s@.subrange(0, p@.len() as int));
    }
    r
}

/// Copies as much of `src` as fits to the beginning of `dest` and returns
/// the number of bytes copied.
pub fn copy_to_beginning(dest: &mut [u8], src: &[u8]) -> (r: usize)
    ensures
        r as int == copied_len(old(dest)@, src@),
        final(dest)@ == copy_into(old(dest)@, src@),
{
    let len = if src.len() <= dest.len() {
        src.len()
    } else {
        dest.len()
    };
    let mut i: usize = 0;
    while i < len
        invariant
            len <= src@.len(),
            len <= dest@.len() == old(dest)@.len(),
            i <= len,
            forall|j: int| 0 <= j < i ==> #[trigger] dest@[j] == src@[j],
            forall|j: int| i <= j < dest@.len() ==> #[trigger] dest@[j] == old(dest)@[j],
        decreases len - i,
    {
        dest[i] = src[i];
        i = i + 1;
    }
    assert(dest@ =~= copy_into(old(dest)@, src@));
    len
}

/// Appends the bytes of `s` to `v`.
pub fn append_bytes(v: &mut Vec<u8>, s: &[u8])
    ensures
        final(v)@ == old(v)@ + s@,
{
    let mut i: usize = 0;
    while i < s.len()
        invariant
            i <= s@.len(),
            v@ == old(v)@ + s@.subrange(0, i as int),
        decreases s@.len() - i,
    {
        v.push(s[i]);
        i = i + 1;
        assert(v@ =~= old(v)@ + s@.subrange(0, i as int));
    }
    assert(s@.subrange(0, s@.len() as int) =~= s@);
}

} // verus!
