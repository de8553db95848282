//! The index of an RGSSAD archive: reading the file headers of version 1, 2 and 3 archives.
use vstd::prelude::*;
use vstd::utf8::*;

use crate::codec::{
    decode_path_bytes_v12, decode_path_bytes_v3, decode_path_v12, decode_path_v3, header_magic, magic_at,
    read_header, read_u32, read_u32_xor, u32_at,
};
use crate::magic::{advance_magic, next_magic};
use crate::{Error, IoErrorKind};

verus! {

broadcast use group_utf8_lib;

/// Where a file lives inside an archive.
#[derive(Clone, Copy, Debug, PartialEq, Eq, Hash, Structural)]
pub struct Entry {
    /// Offset of the first byte of the file's header.
    pub header_offset: u64,
    /// Offset of the first byte of the file's (encrypted) contents.
    pub body_offset: u64,
    /// Length of the file's contents.
    pub size: u64,
    /// The magic value that starts the key stream of the file's contents.
    pub start_magic: u32,
}

/// The magic value that starts the key stream of version 1 and 2 archives.
pub const MAGIC: u32 = 0xDEADCAFE;

pub open spec fn prepend(
    acc: Seq<(Seq<u8>, Entry)>,
    r: Result<Seq<(Seq<u8>, Entry)>, Error>,
) -> Result<Seq<(Seq<u8>, Entry)>, Error> {
    match r {
        Ok(rest) => Ok(acc + rest),
        Err(e) => Err(e),
    }
}

/// The files listed by the headers of a version 1 or 2 archive from offset `pos` on, where the
/// next path length is keyed with `magic`; headers are read until fewer than four bytes are
/// left where the next one would start.
pub open spec fn parse_v12(data: Seq<u8>, pos: int, magic: u32) -> Result<
    Seq<(Seq<u8>, Entry)>,
    Error,
>
    decreases data.len() - pos,
{
    if pos < 0 || pos + 4 > data.len() {
        Ok(seq![])
    } else {
        let path_len = (u32_at(data, pos) ^ magic) as int;
        let m1 = next_magic(magic);
        if pos + 4 + path_len > data.len() {
            Err(Error::IoError(IoErrorKind::UnexpectedEof))
        } else {
            let path = decode_path_v12(data.subrange(pos + 4, pos + 4 + path_len), m1);
            if !valid_utf8(path) {
                Err(Error::Utf8Error)
            } else {
                let ml = magic_at(m1, path_len as nat);
                let p2 = pos + 4 + path_len;
                if p2 + 4 > data.len() {
                    Err(Error::IoError(IoErrorKind::UnexpectedEof))
                } else {
                    let size = u32_at(data, p2) ^ ml;
                    let start = next_magic(ml);
                    let entry = Entry {
                        header_offset: pos as u64,
                        body_offset: (p2 + 4) as u64,
                        size: size as u64,
                        start_magic: start,
                    };
                    let next = p2 + 4 + size;
                    if next + 4 > data.len() {
                        Ok(seq![(path, entry)])
                    } else {
                        prepend(seq![(path, entry)], parse_v12(data, next, start))
                    }
                }
            }
        }
    }
}

/// The files listed by the headers of a version 3 archive from offset `pos` on; headers are read
/// until fewer than four bytes are left or a zero offset ends the list.
pub open spec fn parse_v3(data: Seq<u8>, pos: int, base: u32) -> Result<
    Seq<(Seq<u8>, Entry)>,
    Error,
>
    decreases data.len() - pos,
{
    if pos < 0 || pos + 4 > data.len() {
        Ok(seq![])
    } else {
        let offset = u32_at(data, pos) ^ base;
        if offset == 0 {
            Ok(seq![])
        } else if pos + 16 > data.len() {
            Err(Error::IoError(IoErrorKind::UnexpectedEof))
        } else {
            let size = u32_at(data, pos + 4) ^ base;
            let magic = u32_at(data, pos + 8) ^ base;
            let path_len = (u32_at(data, pos + 12) ^ base) as int;
            if pos + 16 + path_len > data.len() {
                Err(Error::IoError(IoErrorKind::UnexpectedEof))
            } else {
                let path = decode_path_v3(data.subrange(pos + 16, pos + 16 + path_len), base);
                if !valid_utf8(path) {
                    Err(Error::Utf8Error)
                } else {
                    let entry = Entry {
                        header_offset: pos as u64,
                        body_offset: offset as u64,
                        size: size as u64,
                        start_magic: magic,
                    };
                    prepend(seq![(path, entry)], parse_v3(data, pos + 16 + path_len, base))
                }
            }
        }
    }
}

/// A listed file that can be written to a new archive: its path is valid UTF-8, holds no
/// backslash and fits a 32-bit length, and its size fits 32 bits.
pub open spec fn good_entry(x: (Seq<u8>, Entry)) -> bool {
    &&& valid_utf8(x.0)
    &&& x.0.len() <= u32::MAX
    &&& forall|k: int| 0 <= k < x.0.len() ==> #[trigger] x.0[k] != 92u8
    &&& x.1.size <= u32::MAX
}

/// Every file the headers of a version 1 or 2 archive list can be written again.
pub proof fn lemma_parse_v12_good(data: Seq<u8>, pos: int, magic: u32)
    ensures
        parse_v12(data, pos, magic) matches Ok(l) ==> forall|i: int| 0 <= i < l.len() ==> #[trigger] good_entry(l[i]),
    decreases data.len() - pos,
{
    if !(pos < 0 || pos + 4 > data.len()) {
        let path_len = (u32_at(data, pos) ^ magic) as int;
        let m1 = next_magic(magic);
        if pos + 4 + path_len <= data.len() {
            let path = decode_path_v12(data.subrange(pos + 4, pos + 4 + path_len), m1);
            let ml = magic_at(m1, path_len as nat);
            let p2 = pos + 4 + path_len;
            if valid_utf8(path) && p2 + 4 <= data.len() {
                let size = u32_at(data, p2) ^ ml;
                let next = p2 + 4 + size;
                assert forall|k: int| 0 <= k < path.len() implies #[trigger] path[k] != 92u8 by {}
                if next + 4 <= data.len() {
                    lemma_parse_v12_good(data, next, next_magic(ml));
                    if let Ok(l) = parse_v12(data, pos, magic) {
                        assert forall|i: int| 0 <= i < l.len() implies #[trigger] good_entry(l[i]) by {
                            if i > 0 {
                                let rest = parse_v12(data, next, next_magic(ml))->Ok_0;
                                assert(l[i] == rest[i - 1]);
                            }
                        }
                    }
                }
            }
        }
    }
}

/// Every file the headers of a version 3 archive list can be written again.
pub proof fn lemma_parse_v3_good(data: Seq<u8>, pos: int, base: u32)
    ensures
        parse_v3(data, pos, base) matches Ok(l) ==> forall|i: int| 0 <= i < l.len() ==> #[trigger] good_entry(l[i]),
    decreases data.len() - pos,
{
    if !(pos < 0 || pos + 4 > data.len()) && u32_at(data, pos) ^ base != 0 && pos + 16 <= data.len() {
        let path_len = (u32_at(data, pos + 12) ^ base) as int;
        if pos + 16 + path_len <= data.len() {
            let path = decode_path_v3(data.subrange(pos + 16, pos + 16 + path_len), base);
            assert forall|k: int| 0 <= k < path.len() implies #[trigger] path[k] != 92u8 by {}
            lemma_parse_v3_good(data, pos + 16 + path_len, base);
            if let Ok(l) = parse_v3(data, pos, base) {
                assert forall|i: int| 0 <= i < l.len() implies #[trigger] good_entry(l[i]) by {
                    if i > 0 {
                        let rest = parse_v3(data, pos + 16 + path_len, base)->Ok_0;
                        assert(l[i] == rest[i - 1]);
                    }
                }
            }
        }
    }
}

/// Every file the headers of an archive list can be written again.
pub proof fn lemma_parse_good(data: Seq<u8>)
    ensures
        parse_archive_spec(data) matches Ok(t) ==> forall|i: int| 0 <= i < t.2.len() ==> #[trigger] good_entry(t.2[i]),
{
    if data.len() >= 12 {
        lemma_parse_v3_good(data, 12, base_magic_of(u32_at(data, 8)));
    }
    lemma_parse_v12_good(data, 8, MAGIC);
}

/// The base magic value of a version 3 archive, derived from the word stored after the header.
pub open spec fn base_magic_of(raw: u32) -> u32 {
    (raw * 9 + 3) as u32
}

/// The word stored after the header of a version 3 archive with base magic `base`:
/// 954437177 is the inverse of 9 modulo 2^32.
pub open spec fn raw_of_base_magic(base: u32) -> u32 {
    ((base + 0xffff_fffd) * 954437177) as u32
}

/// Storing a base magic value and deriving it again gives it back.
pub proof fn lemma_base_magic_roundtrip(base: u32)
    ensures
        base_magic_of(raw_of_base_magic(base)) == base,
{
    assert(base_magic_of(raw_of_base_magic(base)) == base) by (bit_vector);
}

/// What an archive's headers say: its version, its base magic value and its files in the order
/// of their headers.
pub open spec fn parse_archive_spec(data: Seq<u8>) -> Result<(u8, u32, Seq<(Seq<u8>, Entry)>), Error> {
    if data.len() < 8 {
        Err(Error::IoError(IoErrorKind::UnexpectedEof))
    } else if data.subrange(0, 7) != header_magic() {
        Err(Error::InvalidHeader)
    } else {
        let version = data[7];
        if version == 1 || version == 2 {
            match parse_v12(data, 8, MAGIC) {
                Ok(files) => Ok((version, MAGIC, files)),
                Err(e) => Err(e),
            }
        } else if version == 3 {
            if data.len() < 12 {
                Err(Error::IoError(IoErrorKind::UnexpectedEof))
            } else {
                let base = base_magic_of(u32_at(data, 8));
                match parse_v3(data, 12, base) {
                    Ok(files) => Ok((version, base, files)),
                    Err(e) => Err(e),
                }
            }
        } else {
            Err(Error::InvalidArchiveVersion(version))
        }
    }
}

/// The paths of a list of files as bytes.
pub open spec fn files_view<T>(v: Seq<(String, T)>) -> Seq<(Seq<u8>, T)> {
    Seq::new(v.len(), |i: int| (encode_utf8(v[i].0@), v[i].1))
}

/// `String::from_utf8`: gives a string exactly when the bytes are valid UTF-8, and then the
/// string they encode.
#[verifier::external_body]
pub(crate) fn string_from_utf8(bytes: Vec<u8>) -> (r: Option<String>)
    ensures
        r is Some <==> valid_utf8(bytes@),
        r matches Some(s) ==> s@ == decode_utf8(bytes@),
{
    String::from_utf8(bytes).ok()
}

proof fn lemma_prepend_push(acc: Seq<(Seq<u8>, Entry)>, x: (Seq<u8>, Entry), r: Result<Seq<(Seq<u8>, Entry)>, Error>)
    ensures
        prepend(acc, prepend(seq![x], r)) == prepend(acc.push(x), r),
{
    match r {
        Ok(rest) => {
            assert(acc + (seq![x] + rest) =~= acc.push(x) + rest);
        },
        Err(e) => {},
    }
}

/// Reads the file headers of a version 1 or 2 archive, starting right after the archive header.
pub fn read_entries_v12(data: &[u8]) -> (r: Result<Vec<(String, Entry)>, Error>)
    requires
        data@.len() >= 8,
    ensures
        match r {
            Ok(v) => parse_v12(data@, 8, MAGIC) == Ok::<Seq<(Seq<u8>, Entry)>, Error>(files_view(v@)),
            Err(e) => parse_v12(data@, 8, MAGIC) == Err::<Seq<(Seq<u8>, Entry)>, Error>(e),
        },
{
    let mut files: Vec<(String, Entry)> = Vec::new();
    let mut magic = MAGIC;
    let mut pos: usize = 8;
    let len = data.len();
    loop
        invariant
            len == data@.len(),
            8 <= pos <= len,
            parse_v12(data@, 8, MAGIC) == prepend(files_view(files@), parse_v12(data@, pos as int, magic)),
        decreases len - pos,
    {
        let ghost old_files = files@;
        let ghost old_pos = pos;
        let ghost old_magic = magic;
        let path_len = match read_u32_xor(data, pos, advance_magic(&mut magic)) {
            Ok(v) => v,
            Err(_) => {
                assert(files_view(files@) + seq![] =~= files_view(files@));
                return Ok(files);
            },
        };
        if (path_len as usize) > len - (pos + 4) {
            return Err(Error::IoError(IoErrorKind::UnexpectedEof));
        }
        let (path, m) = decode_path_bytes_v12(data, pos + 4, path_len as usize, magic);
        magic = m;
        let path = match string_from_utf8(path) {
            Some(s) => s,
            None => return Err(Error::Utf8Error),
        };
        let p2 = pos + 4 + path_len as usize;
        let entry_len = read_u32_xor(data, p2, advance_magic(&mut magic))?;
        let body = p2 + 4;
        let entry = Entry {
            header_offset: pos as u64,
            body_offset: body as u64,
            size: entry_len as u64,
            start_magic: magic,
        };
        let ghost item = (encode_utf8(path@), entry);
        files.push((path, entry));
        proof {
            assert(files_view(files@) =~= files_view(old_files).push(item));
            lemma_prepend_push(files_view(old_files), item, parse_v12(data@, body + entry_len, magic));
        }
        if (entry_len as usize) > len - body || len - body - (entry_len as usize) < 4 {
            assert(files_view(files@) + seq![] =~= files_view(files@));
            assert(files_view(old_files) + seq![item] =~= files_view(files@));
            return Ok(files);
        }
        pos = body + entry_len as usize;
    }
}


/// Reads the file headers of a version 3 archive, starting right after the base magic word.
pub fn read_entries_v3(data: &[u8], base_magic: u32) -> (r: Result<Vec<(String, Entry)>, Error>)
    requires
        data@.len() >= 12,
    ensures
        match r {
            Ok(v) => parse_v3(data@, 12, base_magic) == Ok::<Seq<(Seq<u8>, Entry)>, Error>(files_view(v@)),
            Err(e) => parse_v3(data@, 12, base_magic) == Err::<Seq<(Seq<u8>, Entry)>, Error>(e),
        },
{
    let mut files: Vec<(String, Entry)> = Vec::new();
    let mut pos: usize = 12;
    let len = data.len();
    loop
        invariant
            len == data@.len(),
            12 <= pos <= len,
            parse_v3(data@, 12, base_magic) == prepend(files_view(files@), parse_v3(data@, pos as int, base_magic)),
        decreases len - pos,
    {
        let ghost old_files = files@;
        let body_offset = match read_u32_xor(data, pos, base_magic) {
            Ok(v) => v,
            Err(_) => {
                assert(files_view(files@) + seq![] =~= files_view(files@));
                return Ok(files);
            },
        };
        if body_offset == 0 {
            assert(files_view(files@) + seq![] =~= files_view(files@));
            return Ok(files);
        }
        let entry_len = read_u32_xor(data, pos + 4, base_magic)?;
        let magic = read_u32_xor(data, pos + 8, base_magic)?;
        let path_len = read_u32_xor(data, pos + 12, base_magic)?;
        if (path_len as usize) > len - (pos + 16) {
            return Err(Error::IoError(IoErrorKind::UnexpectedEof));
        }
        let path = decode_path_bytes_v3(data, pos + 16, path_len as usize, base_magic);
        let path = match string_from_utf8(path) {
            Some(s) => s,
            None => return Err(Error::Utf8Error),
        };
        let entry = Entry {
            header_offset: pos as u64,
            body_offset: body_offset as u64,
            size: entry_len as u64,
            start_magic: magic,
        };
        let ghost item = (encode_utf8(path@), entry);
        files.push((path, entry));
        proof {
            assert(files_view(files@) =~= files_view(old_files).push(item));
            lemma_prepend_push(
                files_view(old_files),
                item,
                parse_v3(data@, pos + 16 + path_len, base_magic),
            );
        }
        pos = pos + 16 + path_len as usize;
    }
}

/// The version, base magic value and files of an archive.
pub struct ArchiveHeaders {
    pub version: u8,
    pub base_magic: u32,
    pub files: Vec<(String, Entry)>,
}

/// Reads the header of an archive and the headers of all the files in it.
pub fn read_archive_headers(data: &[u8]) -> (r: Result<ArchiveHeaders, Error>)
    ensures
        match r {
            Ok(h) => parse_archive_spec(data@) == Ok::<(u8, u32, Seq<(Seq<u8>, Entry)>), Error>(
                (h.version, h.base_magic, files_view(h.files@)),
            ),
            Err(e) => parse_archive_spec(data@) == Err::<(u8, u32, Seq<(Seq<u8>, Entry)>), Error>(e),
        },
{
    let version = read_header(data)?;
    if version == 1 || version == 2 {
        let files = read_entries_v12(data)?;
        Ok(ArchiveHeaders { version, base_magic: MAGIC, files })
    } else if version == 3 {
        let raw = read_u32(data, 8)?;
        let base_magic = raw.wrapping_mul(9).wrapping_add(3);
        assert(base_magic == base_magic_of(raw)) by {
            let a = raw.wrapping_mul(9);
            assert(a == (raw * 9) as u32) by (bit_vector)
                requires a == ((raw * 9) % 0x1_0000_0000) as u32;
            if a + 3 > 0xffff_ffff {
                assert((a + 3 - 0x1_0000_0000) as u32 == (a + 3) as u32) by (bit_vector)
                    requires a + 3 > 0xffff_ffff;
            }
            assert((a + 3) as u32 == base_magic_of(raw)) by (bit_vector)
                requires a == (raw * 9) as u32;
        }
        let files = read_entries_v3(data, base_magic)?;
        Ok(ArchiveHeaders { version, base_magic, files })
    } else {
        Err(Error::InvalidArchiveVersion(version))
    }
}

} // verus!
