//! Reading, writing and resizing byte buffers the way files are read, written and resized.
use vstd::prelude::*;

verus! {

/// The bytes a read of up to `n` bytes at `pos` gets: none past the end.
pub open spec fn read_at_spec(a: Seq<u8>, pos: int, n: int) -> Seq<u8> {
    if pos >= a.len() {
        seq![]
    } else if pos + n >= a.len() {
        a.subrange(pos, a.len() as int)
    } else {
        a.subrange(pos, pos + n)
    }
}

/// The file after setting its length to `n`: cut, or padded with zero bytes.
pub open spec fn set_len_spec(a: Seq<u8>, n: int) -> Seq<u8> {
    if n <= a.len() {
        a.subrange(0, n)
    } else {
        a + Seq::new((n - a.len()) as nat, |i: int| 0u8)
    }
}

/// The file after writing `d` at `pos`: a gap before `pos` is filled with zero bytes, and the
/// file grows when the write goes past its end.
pub open spec fn write_at_spec(a: Seq<u8>, pos: int, d: Seq<u8>) -> Seq<u8> {
    let p = set_len_spec(a, if pos > a.len() { pos } else { a.len() as int });
    if pos + d.len() >= p.len() {
        p.subrange(0, pos) + d
    } else {
        p.subrange(0, pos) + d + p.subrange(pos + d.len(), p.len() as int)
    }
}

/// Reads up to `n` bytes at `pos`.
pub fn read_at(a: &[u8], pos: u64, n: u64) -> (r: Vec<u8>)
    ensures
        r@ == read_at_spec(a@, pos as int, n as int),
{
    let len = a.len() as u64;
    if pos >= len {
        return Vec::new();
    }
    let end = if n >= len - pos {
        len
    } else {
        pos + n
    };
    let mut out: Vec<u8> = Vec::with_capacity((end - pos) as usize);
    let mut i = pos as usize;
    while i < end as usize
        invariant
            pos <= i <= end <= a@.len(),
            out@ == a@.subrange(pos as int, i as int),
        decreases end - i,
    {
        out.push(a[i]);
        i += 1;
        assert(out@ =~= a@.subrange(pos as int, i as int));
    }
    out
}

/// Sets the length of `a` to `n`.
pub fn set_len(a: &mut Vec<u8>, n: usize)
    ensures
        final(a)@ == set_len_spec(old(a)@, n as int),
{
    if n <= a.len() {
        a.truncate(n);
    } else {
        let ghost start = a@;
        while a.len() < n
            invariant
                start.len() <= a@.len() <= n,
                a@ == start + Seq::new((a@.len() - start.len()) as nat, |i: int| 0u8),
            decreases n - a@.len(),
        {
            a.push(0);
            assert(a@ =~= start + Seq::new((a@.len() - start.len()) as nat, |i: int| 0u8));
        }
    }
}

/// Writes `d` at `pos`.
pub fn write_at(a: &mut Vec<u8>, pos: usize, d: &[u8])
    requires
        pos + d@.len() <= usize::MAX,
    ensures
        final(a)@ == write_at_spec(old(a)@, pos as int, d@),
{
    let ghost a0 = a@;
    if pos > a.len() {
        set_len(a, pos);
    } else {
        assert(set_len_spec(a0, a0.len() as int) =~= a0);
    }
    let ghost p = a@;
    let mut i: usize = 0;
    while i < d.len()
        invariant
            pos + d@.len() <= usize::MAX,
            p.len() >= pos,
            i <= d@.len(),
            a@.len() == if pos + i >= p.len() { pos + i } else { p.len() as int },
            forall|k: int| 0 <= k < pos ==> a@[k] == p[k],
            forall|k: int| 0 <= k < i ==> a@[pos + k] == d@[k],
            forall|k: int| pos + i <= k < a@.len() ==> a@[k] == p[k],
        decreases d@.len() - i,
    {
        if pos + i < a.len() {
            a.set(pos + i, d[i]);
        } else {
            a.push(d[i]);
        }
        i += 1;
    }
    assert(a@ =~= write_at_spec(a0, pos as int, d@));
}

} // verus!
