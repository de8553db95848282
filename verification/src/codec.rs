//! Little-endian words, the byte keys taken from magic values, and the XOR key streams of the
//! archive format.
use vstd::prelude::*;

use crate::magic::{advance_magic, next_magic};
use crate::{Error, IoErrorKind};

verus! {

/// Byte `i` (0 to 3, least significant first) of `m`.
pub open spec fn byte_of(m: u32, i: int) -> u8 {
    if i == 0 {
        (m % 256) as u8
    } else if i == 1 {
        ((m / 256) % 256) as u8
    } else if i == 2 {
        ((m / 65536) % 256) as u8
    } else {
        ((m / 16777216) % 256) as u8
    }
}

/// The little-endian encoding of `v`.
pub open spec fn le_bytes(v: u32) -> Seq<u8> {
    seq![byte_of(v, 0), byte_of(v, 1), byte_of(v, 2), byte_of(v, 3)]
}

/// The little-endian word stored at `p` in `s`.
pub open spec fn u32_at(s: Seq<u8>, p: int) -> u32 {
    (s[p] as int + s[p + 1] as int * 256 + s[p + 2] as int * 65536 + s[p + 3] as int
        * 16777216) as u32
}

/// The `k`-th value of the key stream that starts at `start`.
pub open spec fn magic_at(start: u32, k: nat) -> u32
    decreases k,
{
    if k == 0 {
        start
    } else {
        next_magic(magic_at(start, (k - 1) as nat))
    }
}

/// The key of byte `j` of a file body whose stream starts at `start`: each magic value of the
/// stream covers four bytes, least significant byte first.
pub open spec fn stream_key(start: u32, j: int) -> u8 {
    byte_of(magic_at(start, (j / 4) as nat), j % 4)
}

/// A file body XORed with the key stream that starts at `start`.
pub open spec fn xor_stream(data: Seq<u8>, start: u32) -> Seq<u8> {
    Seq::new(data.len(), |j: int| data[j] ^ stream_key(start, j))
}

pub proof fn lemma_xor8_involution(b: u8, k: u8)
    ensures
        (b ^ k) ^ k == b,
{
    assert((b ^ k) ^ k == b) by (bit_vector);
}

pub proof fn lemma_xor32_involution(v: u32, k: u32)
    ensures
        (v ^ k) ^ k == v,
{
    assert((v ^ k) ^ k == v) by (bit_vector);
}

/// Reading back a little-endian word gives the word that was written.
pub proof fn lemma_le_bytes_roundtrip(v: u32)
    ensures
        le_bytes(v).len() == 4,
        u32_at(le_bytes(v), 0) == v,
{
    let b = le_bytes(v);
    assert(b[0] as int + b[1] as int * 256 + b[2] as int * 65536 + b[3] as int * 16777216
        == v as int) by (nonlinear_arith)
        requires
            b[0] == (v % 256) as u8,
            b[1] == ((v / 256) % 256) as u8,
            b[2] == ((v / 65536) % 256) as u8,
            b[3] == ((v / 16777216) % 256) as u8,
    ;
}

/// Byte `i` of `m`.
pub fn magic_byte(m: u32, i: usize) -> (b: u8)
    requires
        i < 4,
    ensures
        b == byte_of(m, i as int),
{
    if i == 0 {
        (m % 256) as u8
    } else if i == 1 {
        ((m / 256) % 256) as u8
    } else if i == 2 {
        ((m / 65536) % 256) as u8
    } else {
        ((m / 16777216) % 256) as u8
    }
}

/// Appends the little-endian encoding of `v` to `out`.
pub fn push_u32_le(out: &mut Vec<u8>, v: u32)
    ensures
        final(out)@ == old(out)@ + le_bytes(v),
{
    out.push(magic_byte(v, 0));
    out.push(magic_byte(v, 1));
    out.push(magic_byte(v, 2));
    out.push(magic_byte(v, 3));
    assert(final(out)@ =~= old(out)@ + le_bytes(v));
}

/// Reads the little-endian word at `pos`; fails when fewer than four bytes are left.
pub fn read_u32(data: &[u8], pos: usize) -> (r: Result<u32, Error>)
    ensures
        pos + 4 <= data@.len() ==> r == Ok::<u32, Error>(u32_at(data@, pos as int)),
        pos + 4 > data@.len() ==> r == Err::<u32, Error>(Error::IoError(IoErrorKind::UnexpectedEof)),
{
    if pos > data.len() || data.len() - pos < 4 {
        return Err(Error::IoError(IoErrorKind::UnexpectedEof));
    }
    let v = data[pos] as u32 + data[pos + 1] as u32 * 256 + data[pos + 2] as u32 * 65536
        + data[pos + 3] as u32 * 16777216;
    Ok(v)
}

/// Reads the little-endian word at `pos` and XORs it with `key`.
pub fn read_u32_xor(data: &[u8], pos: usize, key: u32) -> (r: Result<u32, Error>)
    ensures
        pos + 4 <= data@.len() ==> r == Ok::<u32, Error>(u32_at(data@, pos as int) ^ key),
        pos + 4 > data@.len() ==> r == Err::<u32, Error>(Error::IoError(IoErrorKind::UnexpectedEof)),
{
    let result = read_u32(data, pos)?;
    Ok(result ^ key)
}

/// Decrypts (or, the operation being its own inverse, encrypts) a file body with the key stream
/// that starts at `start_magic`.
pub fn read_file_xor(data: &[u8], start_magic: u32) -> (out: Vec<u8>)
    ensures
        out@ == xor_stream(data@, start_magic),
{
    let mut out: Vec<u8> = Vec::with_capacity(data.len());
    let mut magic = start_magic;
    let mut j: usize = 0;
    let mut i: usize = 0;
    while i < data.len()
        invariant
            i <= data@.len(),
            out@.len() == i,
            forall|k: int| 0 <= k < i ==> out@[k] == data@[k] ^ stream_key(start_magic, k),
            i == 0 ==> j == 0 && magic == start_magic,
            i > 0 ==> j == (i - 1) % 4 + 1 && magic == magic_at(start_magic, ((i - 1) / 4) as nat),
        decreases data@.len() - i,
    {
        if j == 4 {
            j = 0;
            advance_magic(&mut magic);
        }
        assert(magic == magic_at(start_magic, (i / 4) as nat) && j == i % 4);
        let byte = data[i] ^ magic_byte(magic, j);
        out.push(byte);
        j += 1;
        i += 1;
    }
    assert(out@ =~= xor_stream(data@, start_magic));
    out
}

/// Applying the key stream twice gives the bytes back.
pub proof fn lemma_xor_stream_involution(data: Seq<u8>, start: u32)
    ensures
        xor_stream(xor_stream(data, start), start) == data,
{
    assert forall|j: int| 0 <= j < data.len() implies #[trigger] xor_stream(
        xor_stream(data, start),
        start,
    )[j] == data[j] by {
        lemma_xor8_involution(data[j], stream_key(start, j));
    }
    assert(xor_stream(xor_stream(data, start), start) =~= data);
}

/// The first four bytes of a body are XORed with the bytes of the start value itself, least
/// significant byte first.
pub proof fn lemma_xor_stream_first_word(data: Seq<u8>, start: u32)
    ensures
        xor_stream(data, start).len() == data.len(),
        data.len() > 0 ==> xor_stream(data, start)[0] == data[0] ^ ((start as int % 256) as u8),
        data.len() > 1 ==> xor_stream(data, start)[1] == data[1] ^ (((start as int / 256)
            % 256) as u8),
        data.len() > 2 ==> xor_stream(data, start)[2] == data[2] ^ (((start as int / 65536)
            % 256) as u8),
        data.len() > 3 ==> xor_stream(data, start)[3] == data[3] ^ (((start as int / 16777216)
            % 256) as u8),
{
}

/// Past the first four bytes, the key stream goes on from the next key, `start * 7 + 3`
/// modulo 2^32: decrypting a body is decrypting its first word with `start` and the rest with
/// the stream that starts at the next key.
pub proof fn lemma_xor_stream_advances(data: Seq<u8>, start: u32)
    requires
        data.len() >= 4,
    ensures
        xor_stream(data, start).subrange(4, data.len() as int) == xor_stream(
            data.subrange(4, data.len() as int),
            ((start * 7 + 3) % 0x1_0000_0000) as u32,
        ),
{
    let next = ((start * 7 + 3) % 0x1_0000_0000) as u32;
    assert(((start * 7 + 3) % 0x1_0000_0000) as u32 == (start * 7 + 3) as u32) by (bit_vector);
    let rest = data.subrange(4, data.len() as int);
    assert forall|j: int| 0 <= j < rest.len() implies #[trigger] xor_stream(rest, next)[j]
        == xor_stream(data, start)[j + 4] by {
        crate::writer::lemma_magic_at_next(start, (j / 4) as nat);
        assert((j + 4) / 4 == j / 4 + 1);
        assert((j + 4) % 4 == j % 4);
    }
    assert(xor_stream(data, start).subrange(4, data.len() as int) =~= xor_stream(rest, next));
}

} // verus!

verus! {

/// The first seven bytes of every archive: `RGSSAD` and a NUL byte.
pub open spec fn header_magic() -> Seq<u8> {
    seq![82u8, 71u8, 83u8, 83u8, 65u8, 68u8, 0u8]
}

/// Reads the archive header at the start of `data` and returns the archive version byte.
pub fn read_header(data: &[u8]) -> (r: Result<u8, Error>)
    ensures
        data@.len() < 8 ==> r == Err::<u8, Error>(Error::IoError(IoErrorKind::UnexpectedEof)),
        data@.len() >= 8 && data@.subrange(0, 7) != header_magic() ==> r == Err::<u8, Error>(
            Error::InvalidHeader,
        ),
        data@.len() >= 8 && data@.subrange(0, 7) == header_magic() ==> r == Ok::<u8, Error>(
            data@[7],
        ),
{
    if data.len() < 8 {
        return Err(Error::IoError(IoErrorKind::UnexpectedEof));
    }
    let ok = data[0] == 82 && data[1] == 71 && data[2] == 83 && data[3] == 83 && data[4] == 65
        && data[5] == 68 && data[6] == 0;
    if !ok {
        assert(data@.subrange(0, 7) != header_magic()) by {
            if data@.subrange(0, 7) == header_magic() {
                assert(data@.subrange(0, 7)[0] == data@[0]);
                assert(data@.subrange(0, 7)[1] == data@[1]);
                assert(data@.subrange(0, 7)[2] == data@[2]);
                assert(data@.subrange(0, 7)[3] == data@[3]);
                assert(data@.subrange(0, 7)[4] == data@[4]);
                assert(data@.subrange(0, 7)[5] == data@[5]);
                assert(data@.subrange(0, 7)[6] == data@[6]);
            }
        }
        return Err(Error::InvalidHeader);
    }
    assert(data@.subrange(0, 7) =~= header_magic());
    Ok(data[7])
}

/// Appends the archive header for `version` to `out`.
pub fn push_header(out: &mut Vec<u8>, version: u8)
    ensures
        final(out)@ == old(out)@ + header_magic().push(version),
{
    out.push(82);
    out.push(71);
    out.push(83);
    out.push(83);
    out.push(65);
    out.push(68);
    out.push(0);
    out.push(version);
    assert(final(out)@ =~= old(out)@ + header_magic().push(version));
}

/// Archives separate path components with backslashes; paths use forward slashes.
pub open spec fn unslash(c: u8) -> u8 {
    if c == 92 {
        47
    } else {
        c
    }
}

pub open spec fn backslash(c: u8) -> u8 {
    if c == 47 {
        92
    } else {
        c
    }
}

/// A path with every backslash turned into a forward slash.
pub open spec fn normalize_path(p: Seq<u8>) -> Seq<u8> {
    Seq::new(p.len(), |i: int| unslash(p[i]))
}

/// Version 1 and 2 archives key path byte `i` with the low byte of the `i`-th magic value after
/// the one that keyed the path length.
pub open spec fn decode_path_v12(raw: Seq<u8>, m: u32) -> Seq<u8> {
    Seq::new(raw.len(), |i: int| unslash(raw[i] ^ byte_of(magic_at(m, i as nat), 0)))
}

pub open spec fn encode_path_v12(path: Seq<u8>, m: u32) -> Seq<u8> {
    Seq::new(path.len(), |i: int| backslash(path[i]) ^ byte_of(magic_at(m, i as nat), 0))
}

/// Version 3 archives key path byte `i` with byte `i % 4` of the archive's base magic value.
pub open spec fn decode_path_v3(raw: Seq<u8>, base: u32) -> Seq<u8> {
    Seq::new(raw.len(), |i: int| unslash(raw[i] ^ byte_of(base, i % 4)))
}

pub open spec fn encode_path_v3(path: Seq<u8>, base: u32) -> Seq<u8> {
    Seq::new(path.len(), |i: int| backslash(path[i]) ^ byte_of(base, i % 4))
}

/// Decoding an encoded path gives the path back, with backslashes turned into slashes.
pub proof fn lemma_path_v12_roundtrip(path: Seq<u8>, m: u32)
    ensures
        decode_path_v12(encode_path_v12(path, m), m) == normalize_path(path),
{
    assert forall|i: int| 0 <= i < path.len() implies #[trigger] decode_path_v12(
        encode_path_v12(path, m),
        m,
    )[i] == normalize_path(path)[i] by {
        lemma_xor8_involution(backslash(path[i]), byte_of(magic_at(m, i as nat), 0));
    }
    assert(decode_path_v12(encode_path_v12(path, m), m) =~= normalize_path(path));
}

pub proof fn lemma_path_v3_roundtrip(path: Seq<u8>, base: u32)
    ensures
        decode_path_v3(encode_path_v3(path, base), base) == normalize_path(path),
{
    assert forall|i: int| 0 <= i < path.len() implies #[trigger] decode_path_v3(
        encode_path_v3(path, base),
        base,
    )[i] == normalize_path(path)[i] by {
        lemma_xor8_involution(backslash(path[i]), byte_of(base, i % 4));
    }
    assert(decode_path_v3(encode_path_v3(path, base), base) =~= normalize_path(path));
}

/// Decodes the `len` path bytes at `pos` of a version 1 or 2 archive, keyed from `m` on, and
/// returns them with the magic value that follows the last key used.
pub fn decode_path_bytes_v12(data: &[u8], pos: usize, len: usize, m: u32) -> (r: (Vec<u8>, u32))
    requires
        pos + len <= data@.len(),
    ensures
        r.0@ == decode_path_v12(data@.subrange(pos as int, pos + len), m),
        r.1 == magic_at(m, len as nat),
{
    let mut out: Vec<u8> = Vec::with_capacity(len);
    let mut magic = m;
    let mut i: usize = 0;
    while i < len
        invariant
            pos + len <= data@.len(),
            i <= len,
            out@.len() == i,
            magic == magic_at(m, i as nat),
            forall|k: int|
                0 <= k < i ==> out@[k] == unslash(data@[pos + k] ^ byte_of(magic_at(m, k as nat), 0)),
        decreases len - i,
    {
        let key = advance_magic(&mut magic);
        assert(pos + i < data.len());
        let c = data[pos + i] ^ magic_byte(key, 0);
        if c == 92 {
            out.push(47);
        } else {
            out.push(c);
        }
        i += 1;
    }
    assert(out@ =~= decode_path_v12(data@.subrange(pos as int, pos + len), m));
    (out, magic)
}

/// Decodes the `len` path bytes at `pos` of a version 3 archive.
pub fn decode_path_bytes_v3(data: &[u8], pos: usize, len: usize, base: u32) -> (r: Vec<u8>)
    requires
        pos + len <= data@.len(),
    ensures
        r@ == decode_path_v3(data@.subrange(pos as int, pos + len), base),
{
    let mut out: Vec<u8> = Vec::with_capacity(len);
    let mut i: usize = 0;
    while i < len
        invariant
            pos + len <= data@.len(),
            i <= len,
            out@.len() == i,
            forall|k: int| 0 <= k < i ==> out@[k] == unslash(data@[pos + k] ^ byte_of(base, k % 4)),
        decreases len - i,
    {
        assert(pos + i < data.len());
        let c = data[pos + i] ^ magic_byte(base, i % 4);
        if c == 92 {
            out.push(47);
        } else {
            out.push(c);
        }
        i += 1;
    }
    assert(out@ =~= decode_path_v3(data@.subrange(pos as int, pos + len), base));
    out
}

/// Appends the encoding of `path` in a version 1 or 2 archive, keyed from `m` on, and returns
/// the magic value that follows the last key used.
pub fn push_path_v12(out: &mut Vec<u8>, path: &[u8], m: u32) -> (next: u32)
    ensures
        final(out)@ == old(out)@ + encode_path_v12(path@, m),
        next == magic_at(m, path@.len() as nat),
{
    let mut magic = m;
    let mut i: usize = 0;
    let ghost start = out@;
    while i < path.len()
        invariant
            i <= path@.len(),
            out@.len() == start.len() + i,
            out@.subrange(0, start.len() as int) == start,
            magic == magic_at(m, i as nat),
            forall|k: int|
                0 <= k < i ==> out@[start.len() + k] == backslash(path@[k]) ^ byte_of(
                    magic_at(m, k as nat),
                    0,
                ),
        decreases path@.len() - i,
    {
        let key = advance_magic(&mut magic);
        let b = if path[i] == 47 {
            92u8
        } else {
            path[i]
        };
        out.push(b ^ magic_byte(key, 0));
        i += 1;
    }
    assert(out@ =~= start + encode_path_v12(path@, m));
    magic
}

/// Appends the encoding of `path` in a version 3 archive.
pub fn push_path_v3(out: &mut Vec<u8>, path: &[u8], base: u32)
    ensures
        final(out)@ == old(out)@ + encode_path_v3(path@, base),
{
    let mut i: usize = 0;
    let ghost start = out@;
    while i < path.len()
        invariant
            i <= path@.len(),
            out@.len() == start.len() + i,
            out@.subrange(0, start.len() as int) == start,
            forall|k: int|
                0 <= k < i ==> out@[start.len() + k] == backslash(path@[k]) ^ byte_of(base, k % 4),
        decreases path@.len() - i,
    {
        let b = if path[i] == 47 {
            92u8
        } else {
            path[i]
        };
        out.push(b ^ magic_byte(base, i % 4));
        i += 1;
    }
    assert(out@ =~= start + encode_path_v3(path@, base));
}

} // verus!
