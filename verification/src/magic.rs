//! The key streams of version 1 and 2 archives.
use vstd::prelude::*;

verus! {

/// The key stream of version 1 and 2 archives: each key is the previous one times 7 plus 3,
/// modulo 2^32.
pub open spec fn next_magic(m: u32) -> u32 {
    (m * 7 + 3) as u32
}

/// The inverse step of the key stream: 3067833783 is the inverse of 7 modulo 2^32.
pub open spec fn prev_magic(m: u32) -> u32 {
    ((m + 0xffff_fffd) * 3067833783) as u32
}

/// Advances the magic value in place and returns the value it had before.
pub fn advance_magic(magic: &mut u32) -> (prev: u32)
    ensures
        prev == *old(magic),
        *final(magic) == next_magic(prev),
{
    let prev = *magic;
    let a = prev.wrapping_mul(7);
    assert(a == (prev * 7) as u32) by (bit_vector)
        requires a == ((prev * 7) % 0x1_0000_0000) as u32;
    let b = a.wrapping_add(3);
    assert(b == (a + 3) as u32) by {
        if a + 3 > 0xffff_ffff {
            assert(b == (a + 3 - 0x1_0000_0000) as u32);
            assert((a + 3 - 0x1_0000_0000) as u32 == (a + 3) as u32) by (bit_vector)
                requires a + 3 > 0xffff_ffff;
        }
    }
    assert(b == next_magic(prev)) by (bit_vector)
        requires a == (prev * 7) as u32, b == (a + 3) as u32;
    *magic = b;
    prev
}

/// Steps the magic value back in place and returns the value it had before.
pub fn regress_magic(magic: &mut u32) -> (prev: u32)
    ensures
        prev == *old(magic),
        *final(magic) == prev_magic(prev),
{
    let prev = *magic;
    let a = prev.wrapping_sub(3);
    assert(a == (prev + 0xffff_fffd) as u32) by (bit_vector)
        requires
            a == (if prev >= 3 { prev - 3 } else { prev + 0x1_0000_0000 - 3 }) as u32,
    ;
    let b = a.wrapping_mul(3067833783);
    assert(b == prev_magic(prev)) by (bit_vector)
        requires
            a == (prev + 0xffff_fffd) as u32,
            b == ((a * 3067833783) % 0x1_0000_0000) as u32,
    ;
    *magic = b;
    prev
}

/// Stepping the key stream back undoes stepping it forward.
pub proof fn lemma_prev_next(m: u32)
    ensures
        prev_magic(next_magic(m)) == m,
        next_magic(prev_magic(m)) == m,
{
    assert(prev_magic(next_magic(m)) == m) by (bit_vector);
    assert(next_magic(prev_magic(m)) == m) by (bit_vector);
}

} // verus!
