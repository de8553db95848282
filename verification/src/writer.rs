//! Writing a new archive from a list of files, and the proof that reading its headers back lists
//! the same files at the places where their contents were written.
use vstd::prelude::*;
use vstd::utf8::*;

use crate::archive::{files_view, parse_archive_spec, parse_v12, prepend, Entry, MAGIC};
use crate::codec::{
    decode_path_v12, encode_path_v12, header_magic, le_bytes, lemma_le_bytes_roundtrip, lemma_path_v12_roundtrip,
    lemma_xor32_involution, lemma_xor_stream_involution, magic_at,
    normalize_path, push_header, push_path_v12, push_u32_le, read_file_xor,
    u32_at, xor_stream,
};
use crate::magic::{advance_magic, next_magic};

verus! {

broadcast use group_utf8_lib;

/// Byte paths and contents of a list of files.
pub open spec fn contents_view(files: Seq<(String, Vec<u8>)>) -> Seq<(Seq<u8>, Seq<u8>)> {
    Seq::new(files.len() as nat, |i: int| (encode_utf8(files[i].0@), files[i].1@))
}

/// Every path is valid UTF-8 and every path and body is short enough for a 32-bit length.
pub open spec fn well_sized(files: Seq<(Seq<u8>, Seq<u8>)>) -> bool {
    forall|i: int|
        0 <= i < files.len() ==> valid_utf8(#[trigger] files[i].0) && files[i].0.len()
            <= u32::MAX && files[i].1.len() <= u32::MAX
}

/// The listing of a parsed archive with every path normalized.
pub open spec fn normalize_listing(l: Seq<(Seq<u8>, Entry)>) -> Seq<(Seq<u8>, Entry)> {
    Seq::new(l.len(), |i: int| (normalize_path(l[i].0), l[i].1))
}

/// The bytes a version 1 or 2 archive stores for one file whose path length is keyed with `m`.
#[verifier::opaque]
pub open spec fn record_v12(path: Seq<u8>, contents: Seq<u8>, m: u32) -> Seq<u8> {
    le_bytes((path.len() as u32) ^ m) + encode_path_v12(path, next_magic(m)) + le_bytes(
        (contents.len() as u32) ^ magic_at(m, path.len() + 1),
    ) + xor_stream(contents, magic_at(m, path.len() + 2))
}

/// The bytes a version 1 or 2 archive stores, after its header, for a list of files.
pub open spec fn layout_v12(files: Seq<(Seq<u8>, Seq<u8>)>, m: u32) -> Seq<u8>
    decreases files.len(),
{
    if files.len() == 0 {
        seq![]
    } else {
        record_v12(files[0].0, files[0].1, m) + layout_v12(
            files.drop_first(),
            magic_at(m, files[0].0.len() + 2),
        )
    }
}

/// The magic value that keys the next header after a list of files.
pub open spec fn magic_after_v12(files: Seq<(Seq<u8>, Seq<u8>)>, m: u32) -> u32
    decreases files.len(),
{
    if files.len() == 0 {
        m
    } else {
        magic_after_v12(files.drop_first(), magic_at(m, files[0].0.len() + 2))
    }
}

/// Where a version 1 or 2 archive stores each of a list of files whose records start at `pos`.
pub open spec fn listing_v12(files: Seq<(Seq<u8>, Seq<u8>)>, pos: int, m: u32) -> Seq<
    (Seq<u8>, Entry),
>
    decreases files.len(),
{
    if files.len() == 0 {
        seq![]
    } else {
        let l = files[0].0.len();
        let s = files[0].1.len();
        seq![
            (
                files[0].0,
                Entry {
                    header_offset: pos as u64,
                    body_offset: (pos + 8 + l) as u64,
                    size: s as u64,
                    start_magic: magic_at(m, l + 2),
                },
            ),
        ] + listing_v12(files.drop_first(), pos + 8 + l + s, magic_at(m, l + 2))
    }
}

pub proof fn lemma_magic_at_add(m: u32, a: nat, b: nat)
    ensures
        magic_at(magic_at(m, a), b) == magic_at(m, a + b),
    decreases b,
{
    if b > 0 {
        lemma_magic_at_add(m, a, (b - 1) as nat);
    }
}

pub proof fn lemma_magic_at_next(m: u32, k: nat)
    ensures
        magic_at(next_magic(m), k) == magic_at(m, k + 1),
{
    lemma_magic_at_add(m, 1, k);
    assert(magic_at(m, 1) == next_magic(magic_at(m, 0)));
}

/// The word stored at `p` is the one whose encoding sits there.
pub proof fn lemma_u32_at_of(data: Seq<u8>, p: int, v: u32)
    requires
        0 <= p,
        p + 4 <= data.len(),
        data.subrange(p, p + 4) == le_bytes(v),
    ensures
        u32_at(data, p) == v,
{
    lemma_le_bytes_roundtrip(v);
    assert(data[p] == data.subrange(p, p + 4)[0]);
    assert(data[p + 1] == data.subrange(p, p + 4)[1]);
    assert(data[p + 2] == data.subrange(p, p + 4)[2]);
    assert(data[p + 3] == data.subrange(p, p + 4)[3]);
}

/// Turning backslashes into slashes keeps a path valid UTF-8, and backslashes only ever stand
/// alone, so the first character keeps its length.
pub proof fn lemma_normalize_valid(p: Seq<u8>)
    requires
        valid_utf8(p),
    ensures
        valid_utf8(normalize_path(p)),
    decreases p.len(),
{
    if p.len() > 0 {
        let q = normalize_path(p);
        let rest = pop_first_scalar(p);
        let n = length_of_first_scalar(p);
        assert(1 <= n <= 4);
        lemma_normalize_valid(rest);
        if p[0] == 92 {
            assert(q[0] == 47);
            assert(is_leading_byte_width_1(q[0]));
            let q0 = q[0];
            assert((q0 & 0x7F) == 47u8) by (bit_vector)
                requires q0 == 47u8;
            assert(valid_first_scalar(q));
            assert(pop_first_scalar(q) =~= normalize_path(rest));
        } else {
            assert(q[0] == p[0]);
            assert(n >= 2 ==> q[1] == p[1]);
            assert(n >= 3 ==> q[2] == p[2]);
            assert(n >= 4 ==> q[3] == p[3]);
            assert(decode_first_codepoint(q) == decode_first_codepoint(p));
            assert(valid_first_scalar(q));
            assert(pop_first_scalar(q) =~= normalize_path(rest));
        }
    }
}

/// What reading the headers finds at a record of one file: its path length, its path and its
/// body length, and the body there decrypts to the contents.
pub proof fn lemma_record_v12_at(data: Seq<u8>, pos: int, path: Seq<u8>, contents: Seq<u8>, m: u32)
    requires
        0 <= pos,
        pos + record_v12(path, contents, m).len() <= data.len(),
        data.subrange(pos, pos + record_v12(path, contents, m).len()) == record_v12(path, contents, m),
        path.len() <= u32::MAX,
        contents.len() <= u32::MAX,
    ensures
        record_v12(path, contents, m).len() == 8 + path.len() + contents.len(),
        (u32_at(data, pos) ^ m) as int == path.len(),
        decode_path_v12(data.subrange(pos + 4, pos + 4 + path.len()), next_magic(m))
            == normalize_path(path),
        (u32_at(data, pos + 4 + path.len()) ^ magic_at(next_magic(m), path.len())) as int
            == contents.len(),
        next_magic(magic_at(next_magic(m), path.len())) == magic_at(m, path.len() + 2),
        xor_stream(
            data.subrange(pos + 8 + path.len(), pos + 8 + path.len() + contents.len()),
            magic_at(m, path.len() + 2),
        ) == contents,
{
    let l = path.len() as int;
    let s = contents.len() as int;
    let m2 = magic_at(m, (l + 2) as nat);
    let a = le_bytes((l as u32) ^ m);
    let b = encode_path_v12(path, next_magic(m));
    let c = le_bytes((s as u32) ^ magic_at(m, (l + 1) as nat));
    let d = xor_stream(contents, m2);
    let rec = record_v12(path, contents, m);
    reveal(record_v12);
    assert(rec == a + b + c + d);
    let sub = data.subrange(pos, pos + rec.len());
    assert(data.subrange(pos, pos + 4) =~= sub.subrange(0, 4));
    assert(data.subrange(pos + 4, pos + 4 + l) =~= sub.subrange(4, 4 + l));
    assert(data.subrange(pos + 4 + l, pos + 8 + l) =~= sub.subrange(4 + l, 8 + l));
    assert(data.subrange(pos + 8 + l, pos + 8 + l + s) =~= sub.subrange(8 + l, 8 + l + s));
    assert(sub.subrange(0, 4) =~= a);
    assert(sub.subrange(4, 4 + l) =~= b);
    assert(sub.subrange(4 + l, 8 + l) =~= c);
    assert(sub.subrange(8 + l, 8 + l + s) =~= d);
    lemma_u32_at_of(data, pos, (l as u32) ^ m);
    lemma_xor32_involution(l as u32, m);
    lemma_magic_at_next(m, l as nat);
    lemma_magic_at_next(m, (l + 1) as nat);
    lemma_u32_at_of(data, pos + 4 + l, (s as u32) ^ magic_at(m, (l + 1) as nat));
    lemma_xor32_involution(s as u32, magic_at(m, (l + 1) as nat));
    lemma_path_v12_roundtrip(path, next_magic(m));
    lemma_xor_stream_involution(contents, m2);
}

pub proof fn lemma_well_sized_rest(files: Seq<(Seq<u8>, Seq<u8>)>)
    requires
        files.len() > 0,
        well_sized(files),
    ensures
        well_sized(files.drop_first()),
        valid_utf8(files[0].0),
        files[0].0.len() <= u32::MAX,
        files[0].1.len() <= u32::MAX,
{
    let rest = files.drop_first();
    assert forall|i: int| 0 <= i < rest.len() implies valid_utf8(#[trigger] rest[i].0)
        && rest[i].0.len() <= u32::MAX && rest[i].1.len() <= u32::MAX by {
        assert(rest[i] == files[i + 1]);
    }
}

/// One step of reading the headers of a version 1 or 2 archive at a well-formed record.
pub proof fn lemma_parse_v12_step(data: Seq<u8>, pos: int, m: u32, path: Seq<u8>, l: int, s: int)
    requires
        0 <= pos,
        pos + 8 + l + s <= data.len(),
        0 <= l <= u32::MAX,
        0 <= s <= u32::MAX,
        (u32_at(data, pos) ^ m) as int == l,
        decode_path_v12(data.subrange(pos + 4, pos + 4 + l), next_magic(m)) == path,
        valid_utf8(path),
        (u32_at(data, pos + 4 + l) ^ magic_at(next_magic(m), l as nat)) as int == s,
        next_magic(magic_at(next_magic(m), l as nat)) == magic_at(m, (l + 2) as nat),
    ensures
        ({
            let entry = Entry {
                header_offset: pos as u64,
                body_offset: (pos + 8 + l) as u64,
                size: s as u64,
                start_magic: magic_at(m, (l + 2) as nat),
            };
            parse_v12(data, pos, m) == if pos + 8 + l + s + 4 > data.len() {
                Ok::<Seq<(Seq<u8>, Entry)>, crate::Error>(seq![(path, entry)])
            } else {
                prepend(seq![(path, entry)], parse_v12(data, pos + 8 + l + s, magic_at(m, (l + 2) as nat)))
            }
        }),
{
}

/// Reading the headers of a version 1 or 2 archive whose bytes from `pos` on are the records of
/// `files` lists those files, and each listed body decrypts to the file's contents.
#[verifier::rlimit(30)]
pub proof fn lemma_parse_layout_v12(data: Seq<u8>, pos: int, files: Seq<(Seq<u8>, Seq<u8>)>, m: u32)
    requires
        0 <= pos,
        data.len() <= u64::MAX,
        pos + layout_v12(files, m).len() == data.len(),
        data.subrange(pos, data.len() as int) == layout_v12(files, m),
        well_sized(files),
    ensures
        parse_v12(data, pos, m) == Ok::<Seq<(Seq<u8>, Entry)>, crate::Error>(
            normalize_listing(listing_v12(files, pos, m)),
        ),
        listing_v12(files, pos, m).len() == files.len(),
        forall|i: int|
            0 <= i < files.len() ==> {
                let e = #[trigger] listing_v12(files, pos, m)[i].1;
                &&& e.body_offset + e.size <= data.len()
                &&& listing_v12(files, pos, m)[i].0 == files[i].0
                &&& xor_stream(
                    data.subrange(e.body_offset as int, e.body_offset + e.size),
                    e.start_magic,
                ) == files[i].1
            },
    decreases files.len(),
{
    if files.len() == 0 {
        assert(normalize_listing(listing_v12(files, pos, m)) =~= seq![]);
    } else {
        lemma_well_sized_rest(files);
        let path = files[0].0;
        let contents = files[0].1;
        let l = path.len() as int;
        let s = contents.len() as int;
        let rest = files.drop_first();
        let m2 = magic_at(m, (l + 2) as nat);
        let rec = record_v12(path, contents, m);
        let lay = layout_v12(files, m);
        assert(lay == rec + layout_v12(rest, m2));
        assert(data.subrange(pos, pos + rec.len()) =~= lay.subrange(0, rec.len() as int));
        assert(lay.subrange(0, rec.len() as int) =~= rec);
        lemma_record_v12_at(data, pos, path, contents, m);
        lemma_record_v12_len(path, contents, m);
        let next = pos + 8 + l + s;
        assert(data.subrange(next, data.len() as int) =~= layout_v12(rest, m2)) by {
            assert(data.subrange(next, data.len() as int) =~= lay.subrange(
                8 + l + s,
                lay.len() as int,
            ));
        }
        lemma_normalize_valid(path);
        lemma_parse_v12_step(data, pos, m, normalize_path(path), l, s);
        lemma_parse_layout_v12(data, next, rest, m2);
        let entry = Entry {
            header_offset: pos as u64,
            body_offset: (pos + 8 + l) as u64,
            size: s as u64,
            start_magic: m2,
        };
        let lst = listing_v12(files, pos, m);
        let tail = listing_v12(rest, next, m2);
        assert(lst == seq![(path, entry)] + tail);
        if rest.len() == 0 {
            assert(next == data.len());
            assert(normalize_listing(lst) =~= seq![(normalize_path(path), entry)]);
        } else {
            assert(layout_v12(rest, m2).len() >= 8) by {
                let r0 = rest[0];
                lemma_record_v12_len(r0.0, r0.1, m2);
                assert(layout_v12(rest, m2) == record_v12(r0.0, r0.1, m2) + layout_v12(
                    rest.drop_first(),
                    magic_at(m2, r0.0.len() + 2),
                ));
            }
            assert(normalize_listing(lst) =~= seq![(normalize_path(path), entry)]
                + normalize_listing(tail));
        }
        assert(lst[0] == (path, entry));
        assert forall|i: int| 0 <= i < files.len() implies {
            let e = #[trigger] listing_v12(files, pos, m)[i].1;
            &&& e.body_offset + e.size <= data.len()
            &&& listing_v12(files, pos, m)[i].0 == files[i].0
            &&& xor_stream(data.subrange(e.body_offset as int, e.body_offset + e.size), e.start_magic)
                == files[i].1
        } by {
            if i > 0 {
                assert(lst[i] == tail[i - 1]);
                assert(files[i] == rest[i - 1]);
            } else {
                assert(lst[i].1 == entry);
                assert(entry.body_offset == pos + 8 + l);
                assert(entry.size == s);
            }
        }
    }
}

/// Appending one file to a list appends its record.
pub proof fn lemma_layout_snoc_v12(files: Seq<(Seq<u8>, Seq<u8>)>, x: (Seq<u8>, Seq<u8>), m: u32)
    ensures
        layout_v12(files.push(x), m) == layout_v12(files, m) + record_v12(
            x.0,
            x.1,
            magic_after_v12(files, m),
        ),
        magic_after_v12(files.push(x), m) == magic_at(magic_after_v12(files, m), x.0.len() + 2),
    decreases files.len(),
{
    if files.len() == 0 {
        let fx = files.push(x);
        assert(fx.len() == 1 && fx[0] == x);
        assert(fx.drop_first() =~= files);
        assert(layout_v12(fx, m) == record_v12(x.0, x.1, m) + layout_v12(files, magic_at(m, x.0.len() + 2)));
        assert(layout_v12(fx, m) =~= layout_v12(files, m) + record_v12(x.0, x.1, m));
        assert(magic_after_v12(fx, m) == magic_after_v12(files, magic_at(m, x.0.len() + 2)));
    } else {
        let f0 = files[0];
        let m2 = magic_at(m, f0.0.len() + 2);
        let rest = files.drop_first();
        assert(files.push(x).drop_first() =~= rest.push(x));
        assert(files.push(x)[0] == f0);
        lemma_layout_snoc_v12(rest, x, m2);
        assert(layout_v12(files.push(x), m) =~= layout_v12(files, m) + record_v12(
            x.0,
            x.1,
            magic_after_v12(files, m),
        ));
    }
}

pub proof fn lemma_record_v12_len(path: Seq<u8>, contents: Seq<u8>, m: u32)
    ensures
        record_v12(path, contents, m).len() == 8 + path.len() + contents.len(),
{
    reveal(record_v12);
}

/// Appending one file to a list appends its listing entry, right after the records before it.
pub proof fn lemma_listing_snoc_v12(
    files: Seq<(Seq<u8>, Seq<u8>)>,
    x: (Seq<u8>, Seq<u8>),
    pos: int,
    m: u32,
)
    ensures
        listing_v12(files.push(x), pos, m) == listing_v12(files, pos, m) + seq![
            (
                x.0,
                Entry {
                    header_offset: (pos + layout_v12(files, m).len()) as u64,
                    body_offset: (pos + layout_v12(files, m).len() + 8 + x.0.len()) as u64,
                    size: x.1.len() as u64,
                    start_magic: magic_at(magic_after_v12(files, m), x.0.len() + 2),
                },
            ),
        ],
    decreases files.len(),
{
    if files.len() == 0 {
        let fx = files.push(x);
        assert(fx.len() == 1 && fx[0] == x);
        assert(fx.drop_first() =~= files);
        assert(layout_v12(files, m).len() == 0);
        assert(magic_after_v12(files, m) == m);
        let e = Entry {
            header_offset: pos as u64,
            body_offset: (pos + 8 + x.0.len()) as u64,
            size: x.1.len() as u64,
            start_magic: magic_at(m, x.0.len() + 2),
        };
        assert(listing_v12(fx, pos, m) == seq![(x.0, e)] + listing_v12(files, pos + 8 + x.0.len() + x.1.len(), magic_at(m, x.0.len() + 2)));
        assert(listing_v12(fx, pos, m) =~= listing_v12(files, pos, m) + seq![(x.0, e)]);
    } else {
        let f0 = files[0];
        let m2 = magic_at(m, f0.0.len() + 2);
        let rest = files.drop_first();
        assert(files.push(x).drop_first() =~= rest.push(x));
        assert(files.push(x)[0] == f0);
        let pos2 = pos + 8 + f0.0.len() + f0.1.len();
        lemma_listing_snoc_v12(rest, x, pos2, m2);
        lemma_record_v12_len(f0.0, f0.1, m);
        assert(layout_v12(files, m).len() == 8 + f0.0.len() + f0.1.len() + layout_v12(rest, m2).len());
        assert(listing_v12(files.push(x), pos, m) =~= listing_v12(files, pos, m) + seq![
            (
                x.0,
                Entry {
                    header_offset: (pos + layout_v12(files, m).len()) as u64,
                    body_offset: (pos + layout_v12(files, m).len() + 8 + x.0.len()) as u64,
                    size: x.1.len() as u64,
                    start_magic: magic_at(magic_after_v12(files, m), x.0.len() + 2),
                },
            ),
        ]);
    }
}

/// Writes a new version 1 or 2 archive holding `files`, in order, and returns its bytes with
/// where each file was put.
pub fn build_archive_v12(version: u8, files: &Vec<(String, Vec<u8>)>) -> (r: (
    Vec<u8>,
    Vec<(String, Entry)>,
))
    requires
        version == 1 || version == 2,
        well_sized(contents_view(files@)),
    ensures
        r.0@ == header_magic().push(version) + layout_v12(contents_view(files@), MAGIC),
        files_view(r.1@) == listing_v12(contents_view(files@), 8, MAGIC),
        r.1@.len() == files@.len(),
        forall|i: int| 0 <= i < files@.len() ==> #[trigger] r.1@[i].0 == files@[i].0,
        parse_archive_spec(r.0@) == Ok::<(u8, u32, Seq<(Seq<u8>, Entry)>), crate::Error>(
            (version, MAGIC, normalize_listing(files_view(r.1@))),
        ),
        forall|i: int|
            0 <= i < files@.len() ==> {
                let e = #[trigger] r.1@[i].1;
                &&& e.body_offset + e.size <= r.0@.len()
                &&& xor_stream(r.0@.subrange(e.body_offset as int, e.body_offset + e.size), e.start_magic)
                    == files@[i].1@
            },
{
    let ghost cv = contents_view(files@);
    let mut out: Vec<u8> = Vec::new();
    push_header(&mut out, version);
    let mut entries: Vec<(String, Entry)> = Vec::new();
    let mut magic = MAGIC;
    let mut i: usize = 0;
    assert(cv.take(0) =~= seq![]);
    assert(out@ =~= header_magic().push(version) + layout_v12(cv.take(0), MAGIC));
    assert(files_view(entries@) =~= listing_v12(cv.take(0), 8, MAGIC));
    while i < files.len()
        invariant
            cv == contents_view(files@),
            well_sized(cv),
            i <= files@.len(),
            out@ == header_magic().push(version) + layout_v12(cv.take(i as int), MAGIC),
            magic == magic_after_v12(cv.take(i as int), MAGIC),
            files_view(entries@) == listing_v12(cv.take(i as int), 8, MAGIC),
            entries@.len() == i,
            forall|k: int| 0 <= k < i ==> #[trigger] entries@[k].0 == files@[k].0,
        decreases files@.len() - i,
    {
        let path = &files[i].0;
        let contents = &files[i].1;
        let bytes = path.as_str().as_bytes();
        assert(cv[i as int] == (bytes@, contents@));
        assert(valid_utf8(cv[i as int].0));
        assert(bytes@.len() <= u32::MAX && contents@.len() <= u32::MAX);
        let ghost m0 = magic;
        proof {
            lemma_layout_snoc_v12(cv.take(i as int), cv[i as int], MAGIC);
            lemma_listing_snoc_v12(cv.take(i as int), cv[i as int], 8, MAGIC);
            lemma_record_v12_len(cv[i as int].0, cv[i as int].1, m0);
            assert(cv.take(i + 1) =~= cv.take(i as int).push(cv[i as int]));
        }
        let header_offset = out.len() as u64;
        let key = advance_magic(&mut magic);
        push_u32_le(&mut out, (bytes.len() as u32) ^ key);
        magic = push_path_v12(&mut out, bytes, magic);
        proof {
            lemma_magic_at_next(m0, bytes@.len() as nat);
        }
        let key = advance_magic(&mut magic);
        push_u32_le(&mut out, (contents.len() as u32) ^ key);
        let body_offset = out.len() as u64;
        proof {
            lemma_magic_at_next(m0, (bytes@.len() + 1) as nat);
        }
        let mut body = read_file_xor(contents.as_slice(), magic);
        out.append(&mut body);
        let entry = Entry {
            header_offset,
            body_offset,
            size: contents.len() as u64,
            start_magic: magic,
        };
        let ghost old_entries = entries@;
        entries.push((path.clone(), entry));
        proof {
            reveal(record_v12);
        }
        assert(out@ =~= header_magic().push(version) + layout_v12(cv.take(i + 1), MAGIC));
        assert(files_view(entries@) =~= files_view(old_entries).push((bytes@, entry)));
        i += 1;
    }
    assert(cv.take(files@.len() as int) =~= cv);
    let total = out.len();
    assert(total as int <= u64::MAX);
    proof {
        let data = out@;
        let lay = layout_v12(cv, MAGIC);
        assert(data.subrange(0, 7) =~= header_magic());
        assert(data[7] == version);
        assert(data.subrange(8, data.len() as int) =~= lay);
        lemma_parse_layout_v12(data, 8, cv, MAGIC);
        assert forall|k: int| 0 <= k < files@.len() implies {
            let e = #[trigger] entries@[k].1;
            &&& e.body_offset + e.size <= out@.len()
            &&& xor_stream(out@.subrange(e.body_offset as int, e.body_offset + e.size), e.start_magic)
                == files@[k].1@
        } by {
            assert(files_view(entries@)[k].1 == entries@[k].1);
            assert(cv[k].1 == files@[k].1@);
        }
    }
    (out, entries)
}

} // verus!
