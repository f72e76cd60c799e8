//! The 32-bit name hash of the bundle format.
use vstd::prelude::*;
use vstd::string::*;

verus! {

/// One step of the hash: fold the character `c` into the running value `h`.
pub open spec fn hash_step(h: u32, c: char) -> u32 {
    let t = (h << 4u32).wrapping_add(c as u32);
    let g = t & 0xf000_0000u32;
    let t = if g != 0 { t ^ (g >> 23u32) } else { t };
    t & !g
}

/// The hash of a character sequence, folded from the left.
pub open spec fn qhash(s: Seq<char>) -> u32
    decreases s.len(),
{
    if s.len() == 0 {
        0
    } else {
        hash_step(qhash(s.drop_last()), s.last())
    }
}

/// Hashes `s` with the algorithm that the bundle format uses for its names.
pub fn hash_str(s: &str) -> (r: u32)
    ensures
        r == qhash(s@),
{
    let n = s.unicode_len();
    let mut h: u32 = 0;
    let mut i: usize = 0;
    while i < n
        invariant
            n == s@.len(),
            i <= n,
            h == qhash(s@.take(i as int)),
        decreases n - i,
    {
        let c = s.get_char(i);
        assert(s@.take(i + 1).drop_last() == s@.take(i as int));
        h = next_hash(h, c);
        i = i + 1;
    }
    assert(s@.take(n as int) == s@);
    h
}

/// Hashes a sequence of characters held in a slice.
pub fn hash_chars(s: &[char]) -> (r: u32)
    ensures
        r == qhash(s@),
{
    let mut h: u32 = 0;
    let mut i: usize = 0;
    while i < s.len()
        invariant
            i <= s@.len(),
            h == qhash(s@.take(i as int)),
        decreases s@.len() - i,
    {
        assert(s@.take(i + 1).drop_last() == s@.take(i as int));
        h = next_hash(h, s[i]);
        i = i + 1;
    }
    assert(s@.take(s@.len() as int) == s@);
    h
}

fn next_hash(h: u32, c: char) -> (r: u32)
    ensures
        r == hash_step(h, c),
{
    let t = (h << 4u32).wrapping_add(c as u32);
    let g = t & 0xf000_0000u32;
    let mut u = t;
    if g != 0 {
        u = t ^ (g >> 23u32);
    }
    u & !g
}

} // verus!
