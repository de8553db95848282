//! Writing a new version 3 archive, and the proof that reading its headers back lists the same
//! files at the places where their contents were written.
use vstd::prelude::*;
use vstd::utf8::*;

use crate::archive::{
    files_view, lemma_base_magic_roundtrip, parse_archive_spec, parse_v3, raw_of_base_magic, Entry,
};
use crate::codec::{
    decode_path_v3, encode_path_v3, header_magic, le_bytes, lemma_path_v3_roundtrip,
    lemma_xor32_involution, lemma_xor_stream_involution, normalize_path, push_header,
    push_path_v3, push_u32_le, read_file_xor, u32_at, xor_stream,
};
use crate::writer::{
    contents_view, lemma_normalize_valid, lemma_u32_at_of, normalize_listing, well_sized,
};

verus! {

broadcast use group_utf8_lib;

/// The files to write, each with the magic value that starts the key stream of its contents.
pub open spec fn with_magics(files: Seq<(Seq<u8>, Seq<u8>)>, magics: Seq<u32>) -> Seq<
    (Seq<u8>, Seq<u8>, u32),
> {
    Seq::new(files.len(), |i: int| (files[i].0, files[i].1, magics[i]))
}

/// Every path is valid UTF-8 and short enough for a 32-bit length.
pub open spec fn well_sized3(files: Seq<(Seq<u8>, Seq<u8>, u32)>) -> bool {
    forall|i: int|
        0 <= i < files.len() ==> valid_utf8(#[trigger] files[i].0) && files[i].0.len()
            <= u32::MAX && files[i].1.len() <= u32::MAX
}

/// The header a version 3 archive stores for one file whose contents start at `body_pos`.
#[verifier::opaque]
pub open spec fn header_record_v3(
    path: Seq<u8>,
    size: int,
    magic: u32,
    body_pos: int,
    base: u32,
) -> Seq<u8> {
    le_bytes((body_pos as u32) ^ base) + le_bytes((size as u32) ^ base) + le_bytes(magic ^ base)
        + le_bytes((path.len() as u32) ^ base) + encode_path_v3(path, base)
}

/// The headers of a list of files whose contents are stored one after the other from `bpos` on.
pub open spec fn headers_v3(files: Seq<(Seq<u8>, Seq<u8>, u32)>, base: u32, bpos: int) -> Seq<u8>
    decreases files.len(),
{
    if files.len() == 0 {
        seq![]
    } else {
        header_record_v3(files[0].0, files[0].1.len() as int, files[0].2, bpos, base)
            + headers_v3(files.drop_first(), base, bpos + files[0].1.len())
    }
}

/// The encrypted contents of a list of files, one after the other.
pub open spec fn bodies_v3(files: Seq<(Seq<u8>, Seq<u8>, u32)>) -> Seq<u8>
    decreases files.len(),
{
    if files.len() == 0 {
        seq![]
    } else {
        xor_stream(files[0].1, files[0].2) + bodies_v3(files.drop_first())
    }
}

pub open spec fn headers_len_v3(files: Seq<(Seq<u8>, Seq<u8>, u32)>) -> int
    decreases files.len(),
{
    if files.len() == 0 {
        0
    } else {
        files[0].0.len() + 16 + headers_len_v3(files.drop_first())
    }
}

pub open spec fn bodies_len_v3(files: Seq<(Seq<u8>, Seq<u8>, u32)>) -> int
    decreases files.len(),
{
    if files.len() == 0 {
        0
    } else {
        files[0].1.len() + bodies_len_v3(files.drop_first())
    }
}

/// Where a version 3 archive lists each file, given where the headers and the contents start.
pub open spec fn listing_v3(files: Seq<(Seq<u8>, Seq<u8>, u32)>, hpos: int, bpos: int) -> Seq<
    (Seq<u8>, Entry),
>
    decreases files.len(),
{
    if files.len() == 0 {
        seq![]
    } else {
        seq![
            (
                files[0].0,
                Entry {
                    header_offset: hpos as u64,
                    body_offset: bpos as u64,
                    size: files[0].1.len() as u64,
                    start_magic: files[0].2,
                },
            ),
        ] + listing_v3(files.drop_first(), hpos + 16 + files[0].0.len(), bpos + files[0].1.len())
    }
}

/// The bytes of a version 3 archive with base magic `base` holding `files`.
pub open spec fn archive_v3(files: Seq<(Seq<u8>, Seq<u8>, u32)>, base: u32) -> Seq<u8> {
    header_magic().push(3u8) + le_bytes(raw_of_base_magic(base)) + headers_v3(
        files,
        base,
        12 + headers_len_v3(files) + 4,
    ) + le_bytes(base) + bodies_v3(files)
}

pub proof fn lemma_header_record_v3_len(path: Seq<u8>, size: int, magic: u32, bpos: int, base: u32)
    ensures
        header_record_v3(path, size, magic, bpos, base).len() == 16 + path.len(),
{
    reveal(header_record_v3);
}

pub proof fn lemma_well_sized3_rest(files: Seq<(Seq<u8>, Seq<u8>, u32)>)
    requires
        files.len() > 0,
        well_sized3(files),
    ensures
        well_sized3(files.drop_first()),
        valid_utf8(files[0].0),
        files[0].0.len() <= u32::MAX,
        files[0].1.len() <= u32::MAX,
{
    let rest = files.drop_first();
    assert forall|i: int| 0 <= i < rest.len() implies valid_utf8(#[trigger] rest[i].0)
        && rest[i].0.len() <= u32::MAX && rest[i].1.len() <= u32::MAX by {
        assert(rest[i] == files[i + 1]);
    }
}

pub proof fn lemma_lens_v3(files: Seq<(Seq<u8>, Seq<u8>, u32)>, base: u32, bpos: int)
    ensures
        headers_v3(files, base, bpos).len() == headers_len_v3(files),
        bodies_v3(files).len() == bodies_len_v3(files),
        headers_len_v3(files) >= 0,
        bodies_len_v3(files) >= 0,
    decreases files.len(),
{
    if files.len() > 0 {
        lemma_header_record_v3_len(files[0].0, files[0].1.len() as int, files[0].2, bpos, base);
        lemma_lens_v3(files.drop_first(), base, bpos + files[0].1.len());
    }
}

pub proof fn lemma_listing_v3_len(files: Seq<(Seq<u8>, Seq<u8>, u32)>, hpos: int, bpos: int)
    ensures
        listing_v3(files, hpos, bpos).len() == files.len(),
    decreases files.len(),
{
    if files.len() > 0 {
        lemma_listing_v3_len(files.drop_first(), hpos + 16 + files[0].0.len(), bpos + files[0].1.len());
    }
}

/// What reading the headers finds at the header of one file.
pub proof fn lemma_header_record_v3_at(
    data: Seq<u8>,
    pos: int,
    path: Seq<u8>,
    size: int,
    magic: u32,
    bpos: int,
    base: u32,
)
    requires
        0 <= pos,
        pos + 16 + path.len() <= data.len(),
        data.subrange(pos, pos + 16 + path.len()) == header_record_v3(path, size, magic, bpos, base),
        path.len() <= u32::MAX,
        0 <= size <= u32::MAX,
        0 <= bpos <= u32::MAX,
    ensures
        u32_at(data, pos) ^ base == bpos as u32,
        (u32_at(data, pos + 4) ^ base) as int == size,
        u32_at(data, pos + 8) ^ base == magic,
        (u32_at(data, pos + 12) ^ base) as int == path.len(),
        decode_path_v3(data.subrange(pos + 16, pos + 16 + path.len()), base) == normalize_path(path),
{
    reveal(header_record_v3);
    let l = path.len() as int;
    let a = le_bytes((bpos as u32) ^ base);
    let b = le_bytes((size as u32) ^ base);
    let c = le_bytes(magic ^ base);
    let d = le_bytes((l as u32) ^ base);
    let e = encode_path_v3(path, base);
    let rec = header_record_v3(path, size, magic, bpos, base);
    assert(rec == a + b + c + d + e);
    let sub = data.subrange(pos, pos + 16 + l);
    assert(data.subrange(pos, pos + 4) =~= sub.subrange(0, 4));
    assert(data.subrange(pos + 4, pos + 8) =~= sub.subrange(4, 8));
    assert(data.subrange(pos + 8, pos + 12) =~= sub.subrange(8, 12));
    assert(data.subrange(pos + 12, pos + 16) =~= sub.subrange(12, 16));
    assert(data.subrange(pos + 16, pos + 16 + l) =~= sub.subrange(16, 16 + l));
    assert(sub.subrange(0, 4) =~= a);
    assert(sub.subrange(4, 8) =~= b);
    assert(sub.subrange(8, 12) =~= c);
    assert(sub.subrange(12, 16) =~= d);
    assert(sub.subrange(16, 16 + l) =~= e);
    lemma_u32_at_of(data, pos, (bpos as u32) ^ base);
    lemma_u32_at_of(data, pos + 4, (size as u32) ^ base);
    lemma_u32_at_of(data, pos + 8, magic ^ base);
    lemma_u32_at_of(data, pos + 12, (l as u32) ^ base);
    lemma_xor32_involution(bpos as u32, base);
    lemma_xor32_involution(size as u32, base);
    lemma_xor32_involution(magic, base);
    lemma_xor32_involution(l as u32, base);
    lemma_path_v3_roundtrip(path, base);
}

/// Reading the headers of a version 3 archive whose bytes from `pos` on are the headers of
/// `files` followed by the terminator lists those files.
#[verifier::rlimit(30)]
pub proof fn lemma_parse_headers_v3(
    data: Seq<u8>,
    pos: int,
    files: Seq<(Seq<u8>, Seq<u8>, u32)>,
    base: u32,
    bpos: int,
)
    requires
        0 <= pos,
        1 <= bpos,
        bpos + bodies_len_v3(files) <= u32::MAX,
        data.len() <= u64::MAX,
        pos + headers_len_v3(files) + 4 <= data.len(),
        data.subrange(pos, pos + headers_len_v3(files)) == headers_v3(files, base, bpos),
        data.subrange(pos + headers_len_v3(files), pos + headers_len_v3(files) + 4) == le_bytes(
            base,
        ),
        well_sized3(files),
    ensures
        parse_v3(data, pos, base) == Ok::<Seq<(Seq<u8>, Entry)>, crate::Error>(
            normalize_listing(listing_v3(files, pos, bpos)),
        ),
    decreases files.len(),
{
    lemma_lens_v3(files, base, bpos);
    if files.len() == 0 {
        lemma_u32_at_of(data, pos, base);
        assert(base ^ base == 0u32) by (bit_vector);
        assert(normalize_listing(listing_v3(files, pos, bpos)) =~= seq![]);
    } else {
        lemma_well_sized3_rest(files);
        let path = files[0].0;
        let size = files[0].1.len() as int;
        let magic = files[0].2;
        let l = path.len() as int;
        let rest = files.drop_first();
        let rec = header_record_v3(path, size, magic, bpos, base);
        lemma_header_record_v3_len(path, size, magic, bpos, base);
        let hs = headers_v3(files, base, bpos);
        assert(hs == rec + headers_v3(rest, base, bpos + size));
        lemma_lens_v3(rest, base, bpos + size);
        assert(data.subrange(pos, pos + 16 + l) =~= hs.subrange(0, 16 + l));
        assert(hs.subrange(0, 16 + l) =~= rec);
        lemma_header_record_v3_at(data, pos, path, size, magic, bpos, base);
        let next = pos + 16 + l;
        assert(data.subrange(next, next + headers_len_v3(rest)) =~= headers_v3(
            rest,
            base,
            bpos + size,
        )) by {
            assert(data.subrange(next, next + headers_len_v3(rest)) =~= hs.subrange(
                16 + l,
                hs.len() as int,
            ));
        }
        assert(data.subrange(next + headers_len_v3(rest), next + headers_len_v3(rest) + 4)
            =~= data.subrange(pos + headers_len_v3(files), pos + headers_len_v3(files) + 4));
        lemma_normalize_valid(path);
        lemma_parse_headers_v3(data, next, rest, base, bpos + size);
        let entry = Entry {
            header_offset: pos as u64,
            body_offset: bpos as u64,
            size: size as u64,
            start_magic: magic,
        };
        assert((bpos as u32) != 0u32);
        let lst = listing_v3(files, pos, bpos);
        let tail = listing_v3(rest, next, bpos + size);
        assert(lst == seq![(path, entry)] + tail);
        assert(normalize_listing(lst) =~= seq![(normalize_path(path), entry)] + normalize_listing(
            tail,
        ));
    }
}

/// Each listed body of a version 3 archive decrypts to the file's contents.
pub proof fn lemma_bodies_v3(
    data: Seq<u8>,
    files: Seq<(Seq<u8>, Seq<u8>, u32)>,
    hpos: int,
    bpos: int,
)
    requires
        0 <= bpos,
        data.len() <= u64::MAX,
        bpos + bodies_len_v3(files) <= data.len(),
        data.subrange(bpos, bpos + bodies_len_v3(files)) == bodies_v3(files),
    ensures
        listing_v3(files, hpos, bpos).len() == files.len(),
        forall|i: int|
            0 <= i < files.len() ==> {
                let e = #[trigger] listing_v3(files, hpos, bpos)[i].1;
                &&& e.body_offset + e.size <= data.len()
                &&& listing_v3(files, hpos, bpos)[i].0 == files[i].0
                &&& xor_stream(
                    data.subrange(e.body_offset as int, e.body_offset + e.size),
                    e.start_magic,
                ) == files[i].1
            },
    decreases files.len(),
{
    lemma_lens_v3(files, 0, 0);
    lemma_listing_v3_len(files, hpos, bpos);
    if files.len() > 0 {
        let rest = files.drop_first();
        let s = files[0].1.len() as int;
        let bs = bodies_v3(files);
        lemma_lens_v3(rest, 0, 0);
        assert(bs == xor_stream(files[0].1, files[0].2) + bodies_v3(rest));
        assert(data.subrange(bpos, bpos + s) =~= bs.subrange(0, s));
        assert(bs.subrange(0, s) =~= xor_stream(files[0].1, files[0].2));
        assert(bodies_len_v3(files) == s + bodies_len_v3(rest));
        assert(data.subrange(bpos + s, bpos + s + bodies_len_v3(rest)) =~= bs.subrange(
            s,
            bs.len() as int,
        ));
        assert(bs.subrange(s, bs.len() as int) =~= bodies_v3(rest));
        lemma_xor_stream_involution(files[0].1, files[0].2);
        lemma_bodies_v3(data, rest, hpos + 16 + files[0].0.len(), bpos + s);
        let lst = listing_v3(files, hpos, bpos);
        let tail = listing_v3(rest, hpos + 16 + files[0].0.len(), bpos + s);
        assert(lst == seq![(files[0].0, lst[0].1)] + tail);
        assert forall|i: int| 0 <= i < files.len() implies {
            let e = #[trigger] listing_v3(files, hpos, bpos)[i].1;
            &&& e.body_offset + e.size <= data.len()
            &&& listing_v3(files, hpos, bpos)[i].0 == files[i].0
            &&& xor_stream(data.subrange(e.body_offset as int, e.body_offset + e.size), e.start_magic)
                == files[i].1
        } by {
            if i > 0 {
                assert(lst[i] == tail[i - 1]);
                assert(files[i] == rest[i - 1]);
            }
        }
    }
}

/// Reading back a version 3 archive lists its files, and each listed body decrypts to the file's
/// contents.
pub proof fn lemma_parse_archive_v3(files: Seq<(Seq<u8>, Seq<u8>, u32)>, base: u32)
    requires
        well_sized3(files),
        16 + headers_len_v3(files) + bodies_len_v3(files) <= u32::MAX,
    ensures
        parse_archive_spec(archive_v3(files, base)) == Ok::<
            (u8, u32, Seq<(Seq<u8>, Entry)>),
            crate::Error,
        >((3u8, base, normalize_listing(listing_v3(files, 12, 16 + headers_len_v3(files))))),
        forall|i: int|
            0 <= i < files.len() ==> {
                let e = #[trigger] listing_v3(files, 12, 16 + headers_len_v3(files))[i].1;
                &&& e.body_offset + e.size <= archive_v3(files, base).len()
                &&& listing_v3(files, 12, 16 + headers_len_v3(files))[i].0 == files[i].0
                &&& xor_stream(
                    archive_v3(files, base).subrange(e.body_offset as int, e.body_offset + e.size),
                    e.start_magic,
                ) == files[i].1
            },
{
    let data = archive_v3(files, base);
    let hl = headers_len_v3(files);
    let bpos = 16 + hl;
    lemma_lens_v3(files, base, bpos);
    let hs = headers_v3(files, base, bpos);
    let raw = le_bytes(raw_of_base_magic(base));
    assert(data == header_magic().push(3u8) + raw + hs + le_bytes(base) + bodies_v3(files));
    assert(data.len() == 16 + hl + bodies_len_v3(files));
    assert(data.subrange(0, 7) =~= header_magic());
    assert(data[7] == 3u8);
    assert(data.subrange(8, 12) =~= raw);
    lemma_u32_at_of(data, 8, raw_of_base_magic(base));
    lemma_base_magic_roundtrip(base);
    assert(data.subrange(12, 12 + hl) =~= hs);
    assert(data.subrange(12 + hl, 12 + hl + 4) =~= le_bytes(base));
    lemma_parse_headers_v3(data, 12, files, base, bpos);
    assert(data.subrange(bpos, bpos + bodies_len_v3(files)) =~= bodies_v3(files));
    lemma_bodies_v3(data, files, 12, bpos);
}

pub proof fn lemma_lens_snoc_v3(files: Seq<(Seq<u8>, Seq<u8>, u32)>, x: (Seq<u8>, Seq<u8>, u32))
    ensures
        headers_len_v3(files.push(x)) == headers_len_v3(files) + x.0.len() + 16,
        bodies_len_v3(files.push(x)) == bodies_len_v3(files) + x.1.len(),
        bodies_v3(files.push(x)) == bodies_v3(files) + xor_stream(x.1, x.2),
    decreases files.len(),
{
    let fx = files.push(x);
    if files.len() == 0 {
        assert(fx.len() == 1 && fx[0] == x);
        assert(fx.drop_first() =~= files);
        assert(bodies_v3(fx) =~= bodies_v3(files) + xor_stream(x.1, x.2));
    } else {
        assert(fx.drop_first() =~= files.drop_first().push(x));
        assert(fx[0] == files[0]);
        lemma_lens_snoc_v3(files.drop_first(), x);
        assert(bodies_v3(fx) =~= bodies_v3(files) + xor_stream(x.1, x.2));
    }
}

pub proof fn lemma_headers_snoc_v3(
    files: Seq<(Seq<u8>, Seq<u8>, u32)>,
    x: (Seq<u8>, Seq<u8>, u32),
    base: u32,
    bpos: int,
)
    ensures
        headers_v3(files.push(x), base, bpos) == headers_v3(files, base, bpos) + header_record_v3(
            x.0,
            x.1.len() as int,
            x.2,
            bpos + bodies_len_v3(files),
            base,
        ),
    decreases files.len(),
{
    let fx = files.push(x);
    if files.len() == 0 {
        assert(fx.len() == 1 && fx[0] == x);
        assert(fx.drop_first() =~= files);
        assert(bodies_len_v3(files) == 0);
        assert(headers_v3(fx, base, bpos) == header_record_v3(x.0, x.1.len() as int, x.2, bpos, base)
            + headers_v3(files, base, bpos + x.1.len()));
        assert(headers_v3(fx, base, bpos) =~= headers_v3(files, base, bpos) + header_record_v3(
            x.0,
            x.1.len() as int,
            x.2,
            bpos + bodies_len_v3(files),
            base,
        ));
    } else {
        assert(fx.drop_first() =~= files.drop_first().push(x));
        assert(fx[0] == files[0]);
        lemma_headers_snoc_v3(files.drop_first(), x, base, bpos + files[0].1.len());
        assert(headers_v3(fx, base, bpos) =~= headers_v3(files, base, bpos) + header_record_v3(
            x.0,
            x.1.len() as int,
            x.2,
            bpos + bodies_len_v3(files),
            base,
        ));
    }
}

pub proof fn lemma_listing_snoc_v3(
    files: Seq<(Seq<u8>, Seq<u8>, u32)>,
    x: (Seq<u8>, Seq<u8>, u32),
    hpos: int,
    bpos: int,
)
    ensures
        listing_v3(files.push(x), hpos, bpos) == listing_v3(files, hpos, bpos) + seq![
            (
                x.0,
                Entry {
                    header_offset: (hpos + headers_len_v3(files)) as u64,
                    body_offset: (bpos + bodies_len_v3(files)) as u64,
                    size: x.1.len() as u64,
                    start_magic: x.2,
                },
            ),
        ],
    decreases files.len(),
{
    let fx = files.push(x);
    let e = Entry {
        header_offset: (hpos + headers_len_v3(files)) as u64,
        body_offset: (bpos + bodies_len_v3(files)) as u64,
        size: x.1.len() as u64,
        start_magic: x.2,
    };
    if files.len() == 0 {
        assert(fx.len() == 1 && fx[0] == x);
        assert(fx.drop_first() =~= files);
        assert(listing_v3(fx, hpos, bpos) == seq![(x.0, e)] + listing_v3(
            files,
            hpos + 16 + x.0.len(),
            bpos + x.1.len(),
        ));
        assert(listing_v3(fx, hpos, bpos) =~= listing_v3(files, hpos, bpos) + seq![(x.0, e)]);
    } else {
        assert(fx.drop_first() =~= files.drop_first().push(x));
        assert(fx[0] == files[0]);
        lemma_listing_snoc_v3(
            files.drop_first(),
            x,
            hpos + 16 + files[0].0.len(),
            bpos + files[0].1.len(),
        );
        assert(listing_v3(fx, hpos, bpos) =~= listing_v3(files, hpos, bpos) + seq![(x.0, e)]);
    }
}

/// Writes a new version 3 archive with base magic `base_magic` holding `files`, in order, where
/// `magics[i]` starts the key stream of file `i`; returns its bytes with where each file was put.
pub fn build_archive_v3(files: &Vec<(String, Vec<u8>)>, base_magic: u32, magics: &Vec<u32>) -> (r: (
    Vec<u8>,
    Vec<(String, Entry)>,
))
    requires
        magics@.len() == files@.len(),
        well_sized(contents_view(files@)),
        16 + headers_len_v3(with_magics(contents_view(files@), magics@)) + bodies_len_v3(
            with_magics(contents_view(files@), magics@),
        ) <= u32::MAX,
    ensures
        r.0@ == archive_v3(with_magics(contents_view(files@), magics@), base_magic),
        files_view(r.1@) == listing_v3(
            with_magics(contents_view(files@), magics@),
            12,
            16 + headers_len_v3(with_magics(contents_view(files@), magics@)),
        ),
        r.1@.len() == files@.len(),
        forall|i: int| 0 <= i < files@.len() ==> #[trigger] r.1@[i].0 == files@[i].0,
        parse_archive_spec(r.0@) == Ok::<(u8, u32, Seq<(Seq<u8>, Entry)>), crate::Error>(
            (3u8, base_magic, normalize_listing(files_view(r.1@))),
        ),
        forall|i: int|
            0 <= i < files@.len() ==> {
                let e = #[trigger] r.1@[i].1;
                &&& e.body_offset + e.size <= r.0@.len()
                &&& xor_stream(r.0@.subrange(e.body_offset as int, e.body_offset + e.size), e.start_magic)
                    == files@[i].1@
            },
{
    let ghost cv = contents_view(files@);
    let ghost w = with_magics(cv, magics@);
    assert(well_sized3(w)) by {
        assert forall|i: int| 0 <= i < w.len() implies valid_utf8(#[trigger] w[i].0)
            && w[i].0.len() <= u32::MAX && w[i].1.len() <= u32::MAX by {
            assert(w[i].0 == cv[i].0);
            assert(valid_utf8(cv[i].0));
        }
    }
    proof {
        lemma_lens_v3(w, base_magic, 0);
    }
    // The length of all the headers, to know where the contents start.
    let mut hl: u64 = 0;
    let mut i: usize = 0;
    assert(w.take(0) =~= seq![]);
    while i < files.len()
        invariant
            w == with_magics(contents_view(files@), magics@),
            magics@.len() == files@.len(),
            i <= files@.len(),
            hl == headers_len_v3(w.take(i as int)),
            16 + headers_len_v3(w) + bodies_len_v3(w) <= u32::MAX,
        decreases files@.len() - i,
    {
        proof {
            lemma_lens_snoc_v3(w.take(i as int), w[i as int]);
            assert(w.take(i + 1) =~= w.take(i as int).push(w[i as int]));
            lemma_prefix_lens_v3(w, i + 1);
        }
        let bytes = files[i].0.as_str().as_bytes();
        assert(w[i as int].0 == bytes@);
        hl = hl + bytes.len() as u64 + 16;
        i += 1;
    }
    assert(w.take(files@.len() as int) =~= w);
    let body_start: u64 = 16 + hl;
    let mut out: Vec<u8> = Vec::new();
    push_header(&mut out, 3);
    let raw = base_magic.wrapping_sub(3).wrapping_mul(954437177);
    assert(raw == raw_of_base_magic(base_magic)) by {
        let a = base_magic.wrapping_sub(3);
        if base_magic < 3 {
            assert((base_magic - 3 + 0x1_0000_0000) as u32 == (base_magic + 0xffff_fffd) as u32) by (bit_vector)
                requires base_magic < 3u32;
        } else {
            assert((base_magic - 3) as u32 == (base_magic + 0xffff_fffd) as u32) by (bit_vector)
                requires base_magic >= 3u32;
        }
        assert(raw == (a * 954437177) as u32) by (bit_vector)
            requires raw == ((a * 954437177) % 0x1_0000_0000) as u32;
        assert((a * 954437177) as u32 == raw_of_base_magic(base_magic)) by (bit_vector)
            requires a == (base_magic + 0xffff_fffd) as u32;
    }
    push_u32_le(&mut out, raw);
    // The headers, with the offsets of the contents.
    let mut entries: Vec<(String, Entry)> = Vec::new();
    let mut bpos: u64 = body_start;
    let ghost prefix = header_magic().push(3u8) + le_bytes(raw_of_base_magic(base_magic));
    i = 0;
    assert(out@ =~= prefix + headers_v3(w.take(0), base_magic, body_start as int));
    assert(files_view(entries@) =~= listing_v3(w.take(0), 12, body_start as int));
    while i < files.len()
        invariant
            w == with_magics(contents_view(files@), magics@),
            well_sized3(w),
            magics@.len() == files@.len(),
            i <= files@.len(),
            body_start == 16 + headers_len_v3(w),
            16 + headers_len_v3(w) + bodies_len_v3(w) <= u32::MAX,
            prefix.len() == 12,
            out@ == prefix + headers_v3(w.take(i as int), base_magic, body_start as int),
            bpos == body_start + bodies_len_v3(w.take(i as int)),
            files_view(entries@) == listing_v3(w.take(i as int), 12, body_start as int),
            entries@.len() == i,
            forall|k: int| 0 <= k < i ==> #[trigger] entries@[k].0 == files@[k].0,
        decreases files@.len() - i,
    {
        let path = &files[i].0;
        let contents = &files[i].1;
        let bytes = path.as_str().as_bytes();
        let magic = magics[i];
        assert(w[i as int] == (bytes@, contents@, magic));
        assert(valid_utf8(w[i as int].0));
        proof {
            lemma_lens_snoc_v3(w.take(i as int), w[i as int]);
            lemma_headers_snoc_v3(w.take(i as int), w[i as int], base_magic, body_start as int);
            lemma_listing_snoc_v3(w.take(i as int), w[i as int], 12, body_start as int);
            assert(w.take(i + 1) =~= w.take(i as int).push(w[i as int]));
            lemma_prefix_lens_v3(w, i + 1);
            lemma_lens_v3(w.take(i as int), base_magic, body_start as int);
        }
        let header_offset = out.len() as u64;
        push_u32_le(&mut out, (bpos as u32) ^ base_magic);
        push_u32_le(&mut out, (contents.len() as u32) ^ base_magic);
        push_u32_le(&mut out, magic ^ base_magic);
        push_u32_le(&mut out, (bytes.len() as u32) ^ base_magic);
        push_path_v3(&mut out, bytes, base_magic);
        let entry = Entry {
            header_offset,
            body_offset: bpos,
            size: contents.len() as u64,
            start_magic: magic,
        };
        let ghost old_entries = entries@;
        entries.push((path.clone(), entry));
        proof {
            reveal(header_record_v3);
        }
        assert(out@ =~= prefix + headers_v3(w.take(i + 1), base_magic, body_start as int));
        assert(files_view(entries@) =~= files_view(old_entries).push((bytes@, entry)));
        bpos = bpos + contents.len() as u64;
        i += 1;
    }
    assert(w.take(files@.len() as int) =~= w);
    // The terminator: a zero offset.
    push_u32_le(&mut out, base_magic);
    // The contents.
    let ghost prefix2 = out@;
    i = 0;
    assert(out@ =~= prefix2 + bodies_v3(w.take(0)));
    while i < files.len()
        invariant
            w == with_magics(contents_view(files@), magics@),
            magics@.len() == files@.len(),
            i <= files@.len(),
            out@ == prefix2 + bodies_v3(w.take(i as int)),
        decreases files@.len() - i,
    {
        let contents = &files[i].1;
        let magic = magics[i];
        assert(w[i as int].1 == contents@ && w[i as int].2 == magic);
        proof {
            lemma_lens_snoc_v3(w.take(i as int), w[i as int]);
            assert(w.take(i + 1) =~= w.take(i as int).push(w[i as int]));
        }
        let mut body = read_file_xor(contents.as_slice(), magic);
        out.append(&mut body);
        i += 1;
    }
    assert(w.take(files@.len() as int) =~= w);
    assert(out@ =~= archive_v3(w, base_magic));
    proof {
        lemma_parse_archive_v3(w, base_magic);
        assert forall|k: int| 0 <= k < files@.len() implies {
            let e = #[trigger] entries@[k].1;
            &&& e.body_offset + e.size <= out@.len()
            &&& xor_stream(out@.subrange(e.body_offset as int, e.body_offset + e.size), e.start_magic)
                == files@[k].1@
        } by {
            assert(files_view(entries@)[k].1 == entries@[k].1);
            assert(w[k].1 == files@[k].1@);
        }
    }
    (out, entries)
}

/// The lengths of a prefix of the files are at most those of all of them.
pub proof fn lemma_prefix_lens_v3(files: Seq<(Seq<u8>, Seq<u8>, u32)>, n: int)
    requires
        0 <= n <= files.len(),
    ensures
        headers_len_v3(files.take(n)) <= headers_len_v3(files),
        bodies_len_v3(files.take(n)) <= bodies_len_v3(files),
        headers_len_v3(files.take(n)) >= 0,
        bodies_len_v3(files.take(n)) >= 0,
    decreases files.len(),
{
    lemma_lens_v3(files, 0, 0);
    lemma_lens_v3(files.take(n), 0, 0);
    if n > 0 {
        assert(files.take(n).drop_first() =~= files.drop_first().take(n - 1));
        assert(files.take(n)[0] == files[0]);
        lemma_prefix_lens_v3(files.drop_first(), n - 1);
    }
}

} // verus!
