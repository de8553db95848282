//! A filesystem held in an RGSSAD archive of version 1, 2 or 3: the archive's bytes with an index
//! of its files and directories, and the operations that read and change them.
use vstd::prelude::*;
use vstd::utf8::*;

use crate::archive::{files_view, good_entry, lemma_parse_good, parse_archive_spec, read_archive_headers, string_from_utf8, Entry, MAGIC};
use crate::bytes::{read_at, read_at_spec, set_len, set_len_spec, write_at, write_at_spec};
use crate::codec::{header_magic, read_file_xor, xor_stream};
use crate::trie::{
    ancestors, child_name, is_within, join, join_path, lemma_child_name_utf8, lemma_filter_all, list_map, str_names, index_of, is_child, lemma_index_of_unique, listed,
    unique_paths, value_at, FileSystemTrie, lemma_index_of_keys, lemma_index_of_from,
};
use crate::codec::normalize_path;
use crate::trie::{bytes_eq, find, lemma_list_map_insert, lemma_list_map_replace, lemma_list_map_push, lemma_list_map_remove, lemma_list_map_update, lemma_unique_position, is_ancestor};
use crate::writer::{build_archive_v12, contents_view, layout_v12, normalize_listing, well_sized};
use crate::writer3::{
    archive_v3, bodies_len_v3, build_archive_v3, headers_len_v3, lemma_lens_snoc_v3, lemma_lens_v3,
    lemma_prefix_lens_v3, with_magics,
};
use crate::{DirEntry, Error, IoErrorKind, Metadata, OpenFlags, CREATE, READ, TRUNCATE, WRITE};
use rand::Rng;

verus! {

broadcast use group_utf8_lib;

/// The contents of the file stored under `e`: the bytes there, as far as the data reaches,
/// decrypted with the key stream of the file.
pub open spec fn contents_at(data: Seq<u8>, e: Entry) -> Seq<u8> {
    xor_stream(read_at_spec(data, e.body_offset as int, e.size as int), e.start_magic)
}

/// The files an archive's headers list, in order; none when its headers do not parse.
pub open spec fn listing_of(data: Seq<u8>) -> Seq<(Seq<u8>, Entry)> {
    match parse_archive_spec(data) {
        Ok(t) => t.2,
        Err(_) => seq![],
    }
}

/// The path and contents of each listed file.
pub open spec fn plain_of(data: Seq<u8>, l: Seq<(Seq<u8>, Entry)>) -> Seq<(Seq<u8>, Seq<u8>)> {
    Seq::new(l.len(), |i: int| (l[i].0, contents_at(data, l[i].1)))
}

/// The magic value that starts the key stream of each listed file.
pub open spec fn magics_of(l: Seq<(Seq<u8>, Entry)>) -> Seq<u32> {
    Seq::new(l.len(), |i: int| l[i].1.start_magic)
}

/// The bytes of an archive of the given version holding `files` in this order; a version 3
/// archive keys the contents of file `i` from `magics[i]` on.
#[verifier::opaque]
pub open spec fn encode_archive(
    version: u8,
    base: u32,
    files: Seq<(Seq<u8>, Seq<u8>)>,
    magics: Seq<u32>,
) -> Seq<u8> {
    if version == 3 {
        archive_v3(with_magics(files, magics), base)
    } else {
        header_magic().push(version) + layout_v12(files, MAGIC)
    }
}

/// Whether `p` holds a backslash.
pub open spec fn has_backslash(p: Seq<u8>) -> bool {
    exists|k: int| 0 <= k < p.len() && p[k] == 92u8
}

/// The number of bytes the headers and contents of `files` take in a version 3 archive.
pub open spec fn v3_len(files: Seq<(Seq<u8>, Seq<u8>)>) -> int
    decreases files.len(),
{
    if files.len() == 0 {
        0
    } else {
        files[0].0.len() + 16 + files[0].1.len() + v3_len(files.drop_first())
    }
}

/// Whether an archive of the given version holding `files` keeps every offset within 32 bits.
pub open spec fn fits(version: u8, files: Seq<(Seq<u8>, Seq<u8>)>) -> bool {
    version == 3 ==> 16 + v3_len(files) <= u32::MAX
}

/// Leaving a file out of a version 3 archive does not make it longer.
pub proof fn lemma_v3_len_remove(files: Seq<(Seq<u8>, Seq<u8>)>, i: int)
    requires
        0 <= i < files.len(),
    ensures
        v3_len(files.remove(i)) <= v3_len(files),
    decreases files.len(),
{
    if i == 0 {
        assert(files.remove(0) =~= files.drop_first());
    } else {
        lemma_v3_len_remove(files.drop_first(), i - 1);
        assert(files.remove(i).drop_first() =~= files.drop_first().remove(i - 1));
        assert(files.remove(i)[0] == files[0]);
    }
}

/// How long a version 3 archive is.
pub proof fn lemma_archive_v3_len(files: Seq<(Seq<u8>, Seq<u8>, u32)>, base: u32)
    ensures
        archive_v3(files, base).len() == 16 + headers_len_v3(files) + bodies_len_v3(files),
{
    lemma_lens_v3(files, base, 16 + headers_len_v3(files));
}

/// The sizes of a version 3 archive do not depend on the magic values of its files.
pub proof fn lemma_v3_len(files: Seq<(Seq<u8>, Seq<u8>)>, magics: Seq<u32>)
    requires
        magics.len() == files.len(),
    ensures
        headers_len_v3(with_magics(files, magics)) + bodies_len_v3(with_magics(files, magics)) == v3_len(files),
    decreases files.len(),
{
    if files.len() > 0 {
        let w = with_magics(files, magics);
        assert(w.drop_first() =~= with_magics(files.drop_first(), magics.drop_first()));
        lemma_v3_len(files.drop_first(), magics.drop_first());
    }
}

/// The position at which `p` is listed.
pub open spec fn pos_of<T>(l: Seq<(Seq<u8>, T)>, p: Seq<u8>) -> int {
    choose|i: int| 0 <= i < l.len() && #[trigger] l[i].0 == p
}

/// The directories above any of the files.
pub open spec fn dirs_above(files: Seq<(Seq<u8>, Seq<u8>)>) -> Set<Seq<u8>> {
    Set::new(|d: Seq<u8>| exists|i: int| 0 <= i < files.len() && #[trigger] is_ancestor(d, files[i].0, false))
}

/// The directories above the listed files.
pub open spec fn dirs_of_listing(l: Seq<(Seq<u8>, Entry)>) -> Set<Seq<u8>> {
    Set::new(|d: Seq<u8>| exists|i: int| 0 <= i < l.len() && #[trigger] is_ancestor(d, l[i].0, false))
}

/// Every path is non-empty, valid UTF-8, free of backslashes and short enough for a 32-bit
/// length, and so is every contents.
pub open spec fn good_files(s: Seq<(Seq<u8>, Seq<u8>)>) -> bool {
    &&& well_sized(s)
    &&& forall|i: int| 0 <= i < s.len() ==> !has_backslash(#[trigger] s[i].0) && s[i].0.len() > 0
}

/// Removing a file keeps the rest good.
pub proof fn lemma_good_remove(s: Seq<(Seq<u8>, Seq<u8>)>, i: int)
    requires
        good_files(s),
        0 <= i < s.len(),
    ensures
        good_files(s.remove(i)),
{
    let u = s.remove(i);
    assert forall|k: int| 0 <= k < u.len() implies valid_utf8(#[trigger] u[k].0) && u[k].0.len() <= u32::MAX
        && u[k].1.len() <= u32::MAX by {
        let k2 = if k < i { k } else { k + 1 };
        assert(u[k] == s[k2]);
    }
    assert forall|k: int| 0 <= k < u.len() implies !has_backslash(#[trigger] u[k].0) && u[k].0.len() > 0 by {
        let k2 = if k < i { k } else { k + 1 };
        assert(u[k] == s[k2]);
    }
}

/// Adding a good file keeps the list good.
pub proof fn lemma_good_push(s: Seq<(Seq<u8>, Seq<u8>)>, x: (Seq<u8>, Seq<u8>))
    requires
        good_files(s),
        valid_utf8(x.0),
        x.0.len() <= u32::MAX,
        x.1.len() <= u32::MAX,
        !has_backslash(x.0),
        x.0.len() > 0,
    ensures
        good_files(s.push(x)),
{
    let u = s.push(x);
    assert forall|k: int| 0 <= k < u.len() implies valid_utf8(#[trigger] u[k].0) && u[k].0.len() <= u32::MAX
        && u[k].1.len() <= u32::MAX by {
        if k < s.len() {
            assert(u[k] == s[k]);
        }
    }
    assert forall|k: int| 0 <= k < u.len() implies !has_backslash(#[trigger] u[k].0) && u[k].0.len() > 0 by {
        if k < s.len() {
            assert(u[k] == s[k]);
        }
    }
}

/// Replacing a file by a good one keeps the list good.
pub proof fn lemma_good_update(s: Seq<(Seq<u8>, Seq<u8>)>, i: int, x: (Seq<u8>, Seq<u8>))
    requires
        good_files(s),
        0 <= i < s.len(),
        valid_utf8(x.0),
        x.0.len() <= u32::MAX,
        x.1.len() <= u32::MAX,
        !has_backslash(x.0),
        x.0.len() > 0,
    ensures
        good_files(s.update(i, x)),
{
    let u = s.update(i, x);
    assert forall|k: int| 0 <= k < u.len() implies valid_utf8(#[trigger] u[k].0) && u[k].0.len() <= u32::MAX
        && u[k].1.len() <= u32::MAX by {
        if k != i {
            assert(u[k] == s[k]);
        }
    }
    assert forall|k: int| 0 <= k < u.len() implies !has_backslash(#[trigger] u[k].0) && u[k].0.len() > 0 by {
        if k != i {
            assert(u[k] == s[k]);
        }
    }
}

/// The list of files after the contents of file `i` became `c`: when its size changes, it
/// moves to the end of the archive.
pub open spec fn written_plain(s: Seq<(Seq<u8>, Seq<u8>)>, i: int, old_size: int, c: Seq<u8>) -> Seq<(Seq<u8>, Seq<u8>)> {
    if old_size != c.len() {
        s.remove(i).push((s[i].0, c))
    } else {
        s.update(i, (s[i].0, c))
    }
}

/// The magic values that go with `written_plain`.
pub open spec fn written_magics(m: Seq<u32>, i: int, old_size: int, c: Seq<u8>) -> Seq<u32> {
    if old_size != c.len() {
        m.remove(i).push(m[i])
    } else {
        m
    }
}

/// The list of files after file `i` was renamed to `t`: when the length of its path changes, a
/// version 1 or 2 archive moves it to the end.
pub open spec fn renamed_plain(version: u8, s: Seq<(Seq<u8>, Seq<u8>)>, i: int, t: Seq<u8>) -> Seq<(Seq<u8>, Seq<u8>)> {
    if version != 3 && s[i].0.len() != t.len() {
        s.remove(i).push((t, s[i].1))
    } else {
        s.update(i, (t, s[i].1))
    }
}

/// The magic values that go with `renamed_plain`.
pub open spec fn renamed_magics(version: u8, s: Seq<(Seq<u8>, Seq<u8>)>, m: Seq<u32>, i: int, t: Seq<u8>) -> Seq<u32> {
    if version != 3 && s[i].0.len() != t.len() {
        m.remove(i).push(m[i])
    } else {
        m
    }
}

/// The directory a path lies in: the path up to its last `/`, or the root directory.
pub open spec fn parent_dir(p: Seq<u8>) -> Seq<u8>
    decreases p.len(),
{
    if p.len() == 0 {
        seq![]
    } else if p.last() == 47u8 {
        p.drop_last()
    } else {
        parent_dir(p.drop_last())
    }
}

/// The directory the path `p` lies in.
pub fn parent_of(p: &[u8]) -> (r: Vec<u8>)
    ensures
        r@ == parent_dir(p@),
{
    let mut n = p.len();
    assert(p@.subrange(0, n as int) =~= p@);
    while n > 0
        invariant
            n <= p@.len(),
            parent_dir(p@) == parent_dir(p@.subrange(0, n as int)),
        decreases n,
    {
        assert(p@.subrange(0, n as int).drop_last() =~= p@.subrange(0, n - 1));
        if p[n - 1] == 47u8 {
            return crate::trie::copy_range(p, 0, n - 1);
        }
        n -= 1;
    }
    assert(p@.subrange(0, 0) =~= seq![]);
    Vec::new()
}

/// Whether the bytes hold a backslash.
pub fn holds_backslash(p: &[u8]) -> (r: bool)
    ensures
        r == has_backslash(p@),
{
    let mut k: usize = 0;
    while k < p.len()
        invariant
            k <= p@.len(),
            forall|j: int| 0 <= j < k ==> p@[j] != 92u8,
        decreases p@.len() - k,
    {
        if p[k] == 92u8 {
            return true;
        }
        k += 1;
    }
    false
}

/// `rand::thread_rng().gen::<u32>()`: a random 32-bit value. Nothing is claimed of the value.
#[verifier::external_body]
fn random_u32() -> u32 {
    rand::thread_rng().gen::<u32>()
}

/// Where a seek goes from.
#[derive(Clone, Copy, Debug, PartialEq, Eq, Structural)]
pub enum SeekFrom {
    /// From the start of the file.
    Start(u64),
    /// From the end of the file.
    End(i64),
    /// From the current position.
    Current(i64),
}

/// The position a seek from `base` by `offset` reaches, when it is neither negative nor past
/// what a `u64` holds.
pub open spec fn seek_target(base: int, offset: int) -> Option<u64> {
    if 0 <= base + offset <= u64::MAX {
        Some((base + offset) as u64)
    } else {
        None
    }
}

/// A file opened within an archive: its contents are held in memory until it is flushed.
pub struct File {
    path: String,
    tmp: Vec<u8>,
    pos: u64,
    read_allowed: bool,
    write_allowed: bool,
    modified: bool,
}

impl File {
    /// The path of the file in the archive.
    pub closed spec fn path_spec(&self) -> Seq<u8> {
        encode_utf8(self.path@)
    }

    /// The contents of the file as read or written so far.
    pub closed spec fn contents(&self) -> Seq<u8> {
        self.tmp@
    }

    /// The position of the cursor.
    pub closed spec fn position(&self) -> u64 {
        self.pos
    }

    pub closed spec fn readable(&self) -> bool {
        self.read_allowed
    }

    pub closed spec fn writable(&self) -> bool {
        self.write_allowed
    }

    /// Whether the contents differ from what the archive holds.
    pub closed spec fn is_modified(&self) -> bool {
        self.modified
    }

    /// Reads up to `n` bytes from the cursor on, and moves the cursor past them.
    pub fn read(&mut self, n: usize) -> (r: Result<Vec<u8>, Error>)
        ensures
            !old(self).readable() ==> r == Err::<Vec<u8>, Error>(Error::IoError(IoErrorKind::PermissionDenied))
                && *final(self) == *old(self),
            old(self).readable() ==> r is Ok,
            r matches Ok(v) ==> v@ == read_at_spec(old(self).contents(), old(self).position() as int, n as int)
                && final(self).position() == old(self).position() + v@.len()
                && final(self).contents() == old(self).contents()
                && final(self).path_spec() == old(self).path_spec()
                && final(self).readable() == old(self).readable()
                && final(self).writable() == old(self).writable()
                && final(self).is_modified() == old(self).is_modified(),
    {
        if !self.read_allowed {
            return Err(Error::IoError(IoErrorKind::PermissionDenied));
        }
        let v = read_at(self.tmp.as_slice(), self.pos, n as u64);
        let tl = self.tmp.len();
        let nr = v.len();
        assert(nr == 0 || self.pos + nr <= tl);
        if nr > 0 {
            self.pos = self.pos + nr as u64;
        }
        Ok(v)
    }

    /// Writes `data` at the cursor, filling a gap before it with zero bytes, and moves the cursor
    /// past it.
    pub fn write(&mut self, data: &[u8]) -> (r: Result<usize, Error>)
        ensures
            !old(self).writable() ==> r == Err::<usize, Error>(Error::IoError(IoErrorKind::PermissionDenied))
                && *final(self) == *old(self),
            old(self).writable() && old(self).position() + data@.len() <= usize::MAX ==> r == Ok::<usize, Error>(data@.len() as usize),
            old(self).writable() && old(self).position() + data@.len() > usize::MAX ==> r == Err::<usize, Error>(Error::IoError(IoErrorKind::InvalidInput))
                && *final(self) == *old(self),
            r is Ok ==> final(self).contents() == write_at_spec(old(self).contents(), old(self).position() as int, data@)
                && final(self).position() == old(self).position() + data@.len()
                && final(self).is_modified()
                && final(self).path_spec() == old(self).path_spec()
                && final(self).readable() == old(self).readable()
                && final(self).writable() == old(self).writable(),
    {
        if !self.write_allowed {
            return Err(Error::IoError(IoErrorKind::PermissionDenied));
        }
        if self.pos > usize::MAX as u64 || data.len() > usize::MAX - self.pos as usize {
            return Err(Error::IoError(IoErrorKind::InvalidInput));
        }
        write_at(&mut self.tmp, self.pos as usize, data);
        self.pos = self.pos + data.len() as u64;
        self.modified = true;
        Ok(data.len())
    }

    /// Moves the cursor; it may go past the end of the file, but not before its start.
    pub fn seek(&mut self, to: SeekFrom) -> (r: Result<u64, Error>)
        ensures
            ({
                let target = match to {
                    SeekFrom::Start(n) => Some(n),
                    SeekFrom::End(d) => seek_target(old(self).contents().len() as int, d as int),
                    SeekFrom::Current(d) => seek_target(old(self).position() as int, d as int),
                };
                &&& target matches Some(t) ==> r == Ok::<u64, Error>(t) && final(self).position() == t
                &&& target is None ==> r == Err::<u64, Error>(Error::IoError(IoErrorKind::InvalidInput))
                    && final(self).position() == old(self).position()
            }),
            final(self).contents() == old(self).contents(),
            final(self).path_spec() == old(self).path_spec(),
            final(self).readable() == old(self).readable(),
            final(self).writable() == old(self).writable(),
            final(self).is_modified() == old(self).is_modified(),
    {
        let base: i128 = match to {
            SeekFrom::Start(_) => 0,
            SeekFrom::End(_) => self.tmp.len() as i128,
            SeekFrom::Current(_) => self.pos as i128,
        };
        let offset: i128 = match to {
            SeekFrom::Start(n) => n as i128,
            SeekFrom::End(d) => d as i128,
            SeekFrom::Current(d) => d as i128,
        };
        let t = base + offset;
        if t < 0 || t > u64::MAX as i128 {
            return Err(Error::IoError(IoErrorKind::InvalidInput));
        }
        self.pos = t as u64;
        Ok(self.pos)
    }

    /// The position of the cursor.
    pub fn stream_position(&self) -> (r: u64)
        ensures
            r == self.position(),
    {
        self.pos
    }

    /// The file's metadata: a file of the size of its contents.
    pub fn metadata(&self) -> (r: Metadata)
        ensures
            r == (Metadata { is_file: true, size: self.contents().len() as u64 }),
    {
        Metadata { is_file: true, size: self.tmp.len() as u64 }
    }

    /// Cuts the file or pads it with zero bytes to `new_size` bytes; the cursor stays.
    pub fn set_len(&mut self, new_size: u64) -> (r: Result<(), Error>)
        ensures
            !old(self).writable() ==> r == Err::<(), Error>(Error::IoError(IoErrorKind::PermissionDenied))
                && *final(self) == *old(self),
            old(self).writable() && new_size <= usize::MAX ==> r is Ok,
            old(self).writable() && new_size > usize::MAX ==> r == Err::<(), Error>(Error::IoError(IoErrorKind::InvalidInput))
                && *final(self) == *old(self),
            r is Ok ==> final(self).contents() == set_len_spec(old(self).contents(), new_size as int)
                && final(self).is_modified()
                && final(self).position() == old(self).position()
                && final(self).path_spec() == old(self).path_spec()
                && final(self).readable() == old(self).readable()
                && final(self).writable() == old(self).writable(),
    {
        if !self.write_allowed {
            return Err(Error::IoError(IoErrorKind::PermissionDenied));
        }
        if new_size > usize::MAX as u64 {
            return Err(Error::IoError(IoErrorKind::InvalidInput));
        }
        set_len(&mut self.tmp, new_size as usize);
        self.modified = true;
        Ok(())
    }

    /// Writes the contents back into the archive if they were changed.
    pub fn flush(&mut self, fs: &mut FileSystem) -> (r: Result<(), Error>)
        requires
            old(fs).wf(),
        ensures
            final(fs).wf(),
            !old(self).is_modified() ==> r is Ok && *final(fs) == *old(fs),
            old(self).is_modified() && !old(self).writable() ==> r == Err::<(), Error>(Error::IoError(IoErrorKind::PermissionDenied))
                && *final(fs) == *old(fs),
            old(self).is_modified() && old(self).writable() ==> (r is Ok <==> old(fs).replace_ok(old(self).path_spec(), old(self).contents())),
            old(self).is_modified() && r is Ok ==> final(fs).bytes() == old(fs).replaced_bytes(old(self).path_spec(), old(self).contents())
                && final(fs).file_map() == old(fs).file_map().insert(old(self).path_spec(), old(self).contents())
                && final(fs).dirs() == old(fs).dirs() && final(fs).sizes_match(),
            r is Err ==> *final(fs) == *old(fs),
            final(self).contents() == old(self).contents(),
            final(self).position() == old(self).position(),
            final(self).path_spec() == old(self).path_spec(),
            final(self).readable() == old(self).readable(),
            final(self).writable() == old(self).writable(),
            final(self).is_modified() == (old(self).is_modified() && r is Err),
    {
        if !self.modified {
            return Ok(());
        }
        if !self.write_allowed {
            return Err(Error::IoError(IoErrorKind::PermissionDenied));
        }
        fs.replace_contents(self.path.as_str(), &self.tmp)?;
        self.modified = false;
        Ok(())
    }
}

/// Reading a range that lies within the data reads that range.
pub proof fn lemma_read_at_within(data: Seq<u8>, pos: int, n: int)
    requires
        0 <= pos,
        0 <= n,
        pos + n <= data.len(),
    ensures
        read_at_spec(data, pos, n) == data.subrange(pos, pos + n),
{
    if pos >= data.len() {
        assert(data.subrange(pos, pos + n) =~= seq![]);
    }
}

/// A path without backslashes is its own normal form.
pub proof fn lemma_normalize_id(p: Seq<u8>)
    requires
        !has_backslash(p),
    ensures
        normalize_path(p) == p,
{
    assert forall|i: int| 0 <= i < p.len() implies #[trigger] normalize_path(p)[i] == p[i] by {
        assert(p[i] != 92u8);
    }
    assert(normalize_path(p) =~= p);
}

/// The sizes of the archive holding the files, accumulated one file at a time.
fn v3_total(files: &Vec<(String, Vec<u8>)>, magics: &Vec<u32>) -> (r: Option<u64>)
    requires
        magics@.len() == files@.len(),
        well_sized(contents_view(files@)),
    ensures
        r matches Some(t) ==> t == 16 + headers_len_v3(with_magics(contents_view(files@), magics@))
            + bodies_len_v3(with_magics(contents_view(files@), magics@)) && t <= u32::MAX,
        r is None ==> !fits(3, contents_view(files@)),
{
    let ghost w = with_magics(contents_view(files@), magics@);
    let mut total: u64 = 16;
    let mut i: usize = 0;
    assert(w.take(0) =~= seq![]);
    while i < files.len()
        invariant
            w == with_magics(contents_view(files@), magics@),
            magics@.len() == files@.len(),
            well_sized(contents_view(files@)),
            i <= files@.len(),
            total == 16 + headers_len_v3(w.take(i as int)) + bodies_len_v3(w.take(i as int)),
            total <= u32::MAX,
        decreases files@.len() - i,
    {
        let pl = files[i].0.as_str().as_bytes().len() as u64;
        let cl = files[i].1.len() as u64;
        proof {
            assert(contents_view(files@)[i as int].0.len() <= u32::MAX);
            assert(w.take(i + 1) =~= w.take(i as int).push(w[i as int]));
            lemma_lens_snoc_v3(w.take(i as int), w[i as int]);
        }
        total = total + pl + 16 + cl;
        if total > 0xffff_ffff {
            proof {
                lemma_prefix_lens_v3(w, i + 1);
                lemma_v3_len(contents_view(files@), magics@);
            }
            return None;
        }
        i += 1;
    }
    assert(w.take(files@.len() as int) =~= w);
    Some(total)
}

/// Whether every path is listed once and holds no backslash.
fn paths_ok(l: &Vec<(String, Entry)>) -> (r: bool)
    ensures
        r == (unique_paths(files_view(l@)) && forall|i: int| 0 <= i < l@.len() ==> !has_backslash(#[trigger] files_view(l@)[i].0)),
{
    let ghost v = files_view(l@);
    let mut i: usize = 0;
    while i < l.len()
        invariant
            v == files_view(l@),
            i <= v.len(),
            forall|a: int, b: int| 0 <= a < i && 0 <= b < i && a != b ==> #[trigger] v[a].0 != #[trigger] v[b].0,
            forall|k: int| 0 <= k < i ==> !has_backslash(#[trigger] v[k].0),
        decreases v.len() - i,
    {
        let path = l[i].0.as_str().as_bytes();
        assert(path@ == v[i as int].0);
        let mut k: usize = 0;
        while k < path.len()
            invariant
                v == files_view(l@),
                i < v.len(),
                path@ == v[i as int].0,
                k <= path@.len(),
                forall|j: int| 0 <= j < k ==> path@[j] != 92u8,
            decreases path@.len() - k,
        {
            if path[k] == 92u8 {
                assert(v[i as int].0[k as int] == 92u8);
                assert(has_backslash(v[i as int].0));
                return false;
            }
            k += 1;
        }
        let mut j: usize = 0;
        while j < i
            invariant
                v == files_view(l@),
                j <= i < v.len(),
                path@ == v[i as int].0,
                forall|m: int| 0 <= m < j ==> v[m].0 != v[i as int].0,
            decreases i - j,
        {
            let other = l[j].0.as_str().as_bytes();
            assert(other@ == v[j as int].0);
            if bytes_eq(other, path) {
                assert(v[j as int].0 == v[i as int].0);
                return false;
            }
            j += 1;
        }
        i += 1;
    }
    true
}

/// The listed files, each once, in the order they are first listed, with the entry that lists
/// them last.
fn index_entries(l: &Vec<(String, Entry)>) -> (r: Vec<(String, Entry)>)
    ensures
        files_view(r@) == index_of(files_view(l@)),
{
    let ghost v = files_view(l@);
    let mut out: Vec<(String, Entry)> = Vec::new();
    let mut i: usize = 0;
    assert(v.take(0) =~= seq![]);
    assert(files_view(out@) =~= seq![]);
    while i < l.len()
        invariant
            v == files_view(l@),
            i <= v.len(),
            files_view(out@) == index_of(v.take(i as int)),
        decreases v.len() - i,
    {
        let ghost before = files_view(out@);
        let name = l[i].0.clone();
        let entry = l[i].1;
        let ghost x = v[i as int];
        assert(encode_utf8(name@) == x.0);
        assert(x.1 == entry);
        proof {
            assert(v.take(i + 1).drop_last() =~= v.take(i as int));
            assert(v.take(i + 1).last() == x);
            lemma_index_of_keys(v.take(i as int));
        }
        match find(&out, name.as_str().as_bytes()) {
            Some(j) => {
                proof {
                    assert(before[j as int].0 == x.0);
                    assert(listed(before, x.0));
                    let k = choose|k: int| 0 <= k < before.len() && #[trigger] before[k].0 == x.0;
                    assert(k == j as int);
                }
                out.set(j, (name, entry));
                assert(files_view(out@) =~= before.update(j as int, x));
            },
            None => {
                out.push((name, entry));
                assert(files_view(out@) =~= before.push(x));
            },
        }
        i += 1;
    }
    assert(v.take(v.len() as int) =~= v);
    out
}

/// The path and contents of each listed file, with the magic values that start their key
/// streams.
fn decode_all(data: &[u8], l: &Vec<(String, Entry)>) -> (r: (Vec<(String, Vec<u8>)>, Vec<u32>))
    ensures
        contents_view(r.0@) == plain_of(data@, files_view(l@)),
        r.1@ == magics_of(files_view(l@)),
{
    let ghost v = files_view(l@);
    let ghost pl = plain_of(data@, v);
    let mut files: Vec<(String, Vec<u8>)> = Vec::new();
    let mut magics: Vec<u32> = Vec::new();
    let mut i: usize = 0;
    while i < l.len()
        invariant
            v == files_view(l@),
            pl == plain_of(data@, v),
            i <= v.len(),
            files@.len() == i,
            contents_view(files@) == pl.take(i as int),
            magics@ == magics_of(v).take(i as int),
        decreases v.len() - i,
    {
        let entry = l[i].1;
        let body = read_at(data, entry.body_offset, entry.size);
        let contents = read_file_xor(body.as_slice(), entry.start_magic);
        let ghost before = files@;
        let name = l[i].0.clone();
        assert(encode_utf8(name@) == v[i as int].0);
        assert(contents@ == pl[i as int].1);
        files.push((name, contents));
        magics.push(entry.start_magic);
        assert forall|k: int| 0 <= k < i + 1 implies #[trigger] contents_view(files@)[k] == pl.take(i + 1)[k] by {
            if k < i {
                assert(files@[k] == before[k]);
                assert(contents_view(before)[k] == pl.take(i as int)[k]);
            }
        }
        assert(contents_view(files@) =~= pl.take(i + 1));
        assert(magics@ =~= magics_of(v).take(i + 1));
        i += 1;
    }
    assert(pl.take(v.len() as int) =~= pl);
    assert(magics_of(v).take(v.len() as int) =~= magics_of(v));
    (files, magics)
}

/// Whether every path and every contents is short enough for a 32-bit length.
fn sized_ok(files: &Vec<(String, Vec<u8>)>) -> (r: bool)
    ensures
        r == well_sized(contents_view(files@)),
{
    let ghost cv = contents_view(files@);
    let mut i: usize = 0;
    while i < files.len()
        invariant
            cv == contents_view(files@),
            i <= cv.len(),
            forall|k: int| 0 <= k < i ==> valid_utf8(#[trigger] cv[k].0) && cv[k].0.len() <= u32::MAX && cv[k].1.len() <= u32::MAX,
        decreases cv.len() - i,
    {
        let pl = files[i].0.as_str().as_bytes().len();
        assert(cv[i as int].0.len() == pl);
        assert(cv[i as int].1 == files@[i as int].1@);
        assert(valid_utf8(cv[i as int].0));
        if pl > 0xffff_ffff || files[i].1.len() > 0xffff_ffff {
            return false;
        }
        assert forall|k: int| 0 <= k < i + 1 implies valid_utf8(#[trigger] cv[k].0) && cv[k].0.len() <= u32::MAX && cv[k].1.len() <= u32::MAX by {
            if k == i {
                assert(cv[i as int].1 == files@[i as int].1@);
            }
        }
        i += 1;
    }
    true
}

/// A filesystem stored in an archive.
pub struct FileSystem {
    trie: FileSystemTrie<Entry>,
    archive: Vec<u8>,
    version: u8,
    base_magic: u32,
}

impl FileSystem {
    /// The bytes of the archive.
    pub closed spec fn bytes(&self) -> Seq<u8> {
        self.archive@
    }

    /// The version of the archive.
    pub closed spec fn version_spec(&self) -> u8 {
        self.version
    }

    /// The base magic value of the archive.
    pub closed spec fn base_magic_spec(&self) -> u32 {
        self.base_magic
    }

    /// The files of the index, each with where it is stored.
    pub closed spec fn entries(&self) -> Seq<(Seq<u8>, Entry)> {
        self.trie.file_list()
    }

    /// The directories of the index, besides the root directory.
    pub closed spec fn dirs(&self) -> Set<Seq<u8>> {
        self.trie.dir_set()
    }

    /// The files the archive's headers list, in order.
    pub open spec fn listing(&self) -> Seq<(Seq<u8>, Entry)> {
        listing_of(self.bytes())
    }

    pub open spec fn has_file(&self, p: Seq<u8>) -> bool {
        listed(self.entries(), p)
    }

    pub open spec fn has_dir(&self, p: Seq<u8>) -> bool {
        p.len() == 0 || self.dirs().contains(p)
    }

    /// The names of the direct children, files and directories, of the directory `p`.
    pub open spec fn child_names(&self, p: Seq<u8>) -> Set<Seq<u8>> {
        Set::new(|n: Seq<u8>| exists|q: Seq<u8>|
            (self.dirs().contains(q) || listed(self.entries(), q)) && #[trigger] is_child(q, p)
                && child_name(q, p) == n)
    }

    /// The contents of every file.
    pub open spec fn file_map(&self) -> Map<Seq<u8>, Seq<u8>> {
        Map::new(
            |p: Seq<u8>| self.has_file(p),
            |p: Seq<u8>| contents_at(self.bytes(), value_at(self.entries(), p)),
        )
    }

    /// The files the archive holds, each once, in the order its headers first list them, with
    /// the entry of the header that lists them last.
    pub open spec fn held(&self) -> Seq<(Seq<u8>, Entry)> {
        index_of(self.listing())
    }

    /// The files the archive holds, in the order of `held`, with their contents.
    pub open spec fn plain(&self) -> Seq<(Seq<u8>, Seq<u8>)> {
        plain_of(self.bytes(), self.held())
    }

    /// The index is well formed and lists, for each path, where the archive's headers last
    /// list it.
    pub closed spec fn wf(&self) -> bool {
        &&& self.trie.wf()
        &&& (self.version == 1 || self.version == 2 || self.version == 3)
        &&& parse_archive_spec(self.archive@) matches Ok(t) && t.0 == self.version && t.1 == self.base_magic
        &&& list_map(self.trie.file_list()) == list_map(index_of(listing_of(self.archive@)))
    }

    /// The files the archive holds can be written to a new archive: their paths are valid
    /// UTF-8 and hold no backslash, and their paths and contents fit 32-bit lengths.
    pub open spec fn sound(&self) -> bool {
        &&& well_sized(self.plain())
        &&& forall|i: int| 0 <= i < self.held().len() ==> !has_backslash(#[trigger] self.held()[i].0)
    }

    /// Creates a new archiver filesystem from the bytes of an existing archive.
    #[verifier::rlimit(80)]
    #[verifier::spinoff_prover]
    pub fn new(data: Vec<u8>) -> (r: Result<FileSystem, Error>)
        ensures
            match r {
                Ok(fs) => {
                    &&& fs.wf()
                    &&& fs.bytes() == data@
                    &&& parse_archive_spec(data@) == Ok::<(u8, u32, Seq<(Seq<u8>, Entry)>), Error>(
                        (fs.version_spec(), fs.base_magic_spec(), fs.listing()),
                    )
                    &&& fs.entries() == index_of(fs.listing())
                    &&& fs.dirs() == dirs_above(fs.plain())
                },
                Err(e) => {
                    ||| parse_archive_spec(data@) == Err::<(u8, u32, Seq<(Seq<u8>, Entry)>), Error>(e)
                    ||| (e == Error::InvalidHeader && parse_archive_spec(data@) is Ok
                        && exists|i: int| 0 <= i < listing_of(data@).len()
                            && (#[trigger] listing_of(data@)[i]).0.len() == 0)
                },
            },
    {
        let h = read_archive_headers(data.as_slice())?;
        let ghost l = files_view(h.files@);
        let mut trie: FileSystemTrie<Entry> = FileSystemTrie::new();
        let mut i: usize = 0;
        assert(l.take(0) =~= seq![]);
        assert(dirs_of_listing(l.take(0)) =~= Set::<Seq<u8>>::empty());
        while i < h.files.len()
            invariant
                l == files_view(h.files@),
                parse_archive_spec(data@) == Ok::<(u8, u32, Seq<(Seq<u8>, Entry)>), Error>((h.version, h.base_magic, l)),
                i <= l.len(),
                trie.wf(),
                trie.file_list() == index_of(l.take(i as int)),
                trie.dir_set() == dirs_of_listing(l.take(i as int)),
                forall|k: int| 0 <= k < i ==> (#[trigger] l[k]).0.len() > 0,
            decreases l.len() - i,
        {
            let path = h.files[i].0.as_str();
            let entry = h.files[i].1;
            let pb = path.as_bytes();
            assert(encode_utf8(path@) == l[i as int].0);
            if pb.len() == 0 {
                assert(l[i as int].0.len() == 0);
                assert(listing_of(data@) == l);
                return Err(Error::InvalidHeader);
            }
            proof {
                assert(path@.len() > 0) by {
                    if path@.len() == 0 {
                        assert(path@ =~= Seq::<char>::empty());
                        assert(encode_utf8(path@).len() == 0);
                    }
                }
                assert(l.take(i + 1).drop_last() =~= l.take(i as int));
                assert(l.take(i + 1).last() == (encode_utf8(path@), entry));
            }
            let ghost d0 = trie.dir_set();
            trie.create_file(path, entry);
            proof {
                let a = l.take(i as int);
                let b = l.take(i + 1);
                assert forall|d: Seq<u8>| #[trigger] dirs_of_listing(b).contains(d)
                    == (dirs_of_listing(a).contains(d) || is_ancestor(d, l[i as int].0, false)) by {
                    if dirs_of_listing(b).contains(d) {
                        let k = choose|k: int| 0 <= k < b.len() && #[trigger] is_ancestor(d, b[k].0, false);
                        if k < i {
                            assert(a[k] == b[k]);
                        }
                    }
                    if dirs_of_listing(a).contains(d) {
                        let k = choose|k: int| 0 <= k < a.len() && #[trigger] is_ancestor(d, a[k].0, false);
                        assert(a[k] == b[k]);
                    }
                    if is_ancestor(d, l[i as int].0, false) {
                        assert(b[i as int] == l[i as int]);
                    }
                }
                assert(trie.dir_set() =~= dirs_of_listing(b));
            }
            i += 1;
        }
        assert(l.take(l.len() as int) =~= l);
        let fs = FileSystem { trie, archive: data, version: h.version, base_magic: h.base_magic };
        proof {
            assert(fs.listing() == l);
            lemma_index_of_keys(l);
            let pl = fs.plain();
            let hl = fs.held();
            assert forall|d: Seq<u8>| #[trigger] dirs_above(pl).contains(d) == dirs_of_listing(l).contains(d) by {
                if dirs_above(pl).contains(d) {
                    let k = choose|k: int| 0 <= k < pl.len() && #[trigger] is_ancestor(d, pl[k].0, false);
                    let q = pl[k].0;
                    assert(hl[k].0 == q);
                    assert(list_map(hl).contains_key(q));
                    assert(listed(l, q));
                    let j = choose|j: int| 0 <= j < l.len() && #[trigger] l[j].0 == q;
                    assert(is_ancestor(d, l[j].0, false));
                }
                if dirs_of_listing(l).contains(d) {
                    let j = choose|j: int| 0 <= j < l.len() && #[trigger] is_ancestor(d, l[j].0, false);
                    let q = l[j].0;
                    assert(listed(l, q));
                    assert(list_map(hl).contains_key(q));
                    let k = choose|k: int| 0 <= k < hl.len() && #[trigger] hl[k].0 == q;
                    assert(pl[k].0 == q);
                }
            }
            assert(fs.dirs() =~= dirs_above(pl));
        }
        Ok(fs)
    }

    /// The bytes of the archive.
    pub fn archive(&self) -> (r: &Vec<u8>)
        ensures
            r@ == self.bytes(),
    {
        &self.archive
    }

    /// The version of the archive.
    pub fn version(&self) -> (r: u8)
        ensures
            r == self.version_spec(),
    {
        self.version
    }

    /// The base magic value of the archive.
    pub fn base_magic(&self) -> (r: u32)
        ensures
            r == self.base_magic_spec(),
    {
        self.base_magic
    }

    /// Gets the metadata of a file (its size) or of a directory (its number of children).
    pub fn metadata(&self, path: &str) -> (r: Result<Metadata, Error>)
        requires
            self.wf(),
        ensures
            ({
                let p = encode_utf8(path@);
                r == if self.has_file(p) {
                    Ok::<Metadata, Error>(Metadata { is_file: true, size: value_at(self.entries(), p).size })
                } else if self.has_dir(p) {
                    Ok(Metadata { is_file: false, size: self.child_names(p).len() as u64 })
                } else {
                    Err(Error::NotExist)
                }
            }),
    {
        assert(self.child_names(encode_utf8(path@)) =~= self.trie.child_names(encode_utf8(path@)));
        match self.trie.get_file(path) {
            Some(entry) => Ok(Metadata { is_file: true, size: entry.size }),
            None => match self.trie.get_dir_size(path) {
                Some(size) => Ok(Metadata { is_file: false, size: size as u64 }),
                None => Err(Error::NotExist),
            },
        }
    }

    /// Whether a file or a directory exists at the given path.
    pub fn path_exists(&self, path: &str) -> (r: Result<bool, Error>)
        ensures
            r == Ok::<bool, Error>(self.has_file(encode_utf8(path@)) || self.has_dir(encode_utf8(path@))),
    {
        Ok(self.trie.contains(path))
    }

    /// Creates a directory, with the directories above it.
    pub fn create_dir(&mut self, path: &str) -> (r: Result<(), Error>)
        requires
            old(self).wf(),
        ensures
            final(self).wf(),
            final(self).bytes() == old(self).bytes(),
            final(self).entries() == old(self).entries(),
            old(self).has_file(encode_utf8(path@)) ==> r == Err::<(), Error>(Error::IoError(IoErrorKind::AlreadyExists))
                && final(self).dirs() == old(self).dirs(),
            !old(self).has_file(encode_utf8(path@)) ==> r is Ok
                && final(self).dirs() == old(self).dirs().union(ancestors(encode_utf8(path@), true)),
    {
        if self.trie.contains_file(path) {
            return Err(Error::IoError(IoErrorKind::AlreadyExists));
        }
        self.trie.create_dir(path);
        Ok(())
    }

    /// Reads the whole file at the given path.
    pub fn read(&self, path: &str) -> (r: Result<Vec<u8>, Error>)
        requires
            self.wf(),
        ensures
            match r {
                Ok(c) => self.has_file(encode_utf8(path@)) && c@ == self.file_map()[encode_utf8(path@)],
                Err(e) => !self.has_file(encode_utf8(path@)) && e == Error::NotExist,
            },
    {
        match self.trie.get_file(path) {
            Some(entry) => {
                let body = read_at(self.archive.as_slice(), entry.body_offset, entry.size);
                Ok(read_file_xor(body.as_slice(), entry.start_magic))
            },
            None => Err(Error::NotExist),
        }
    }

    /// Whether the contents of the file at `p` can be replaced by `c`: the file exists, its new
    /// contents fit a 32-bit length, and the new archive keeps its offsets within 32 bits.
    pub open spec fn replace_ok(&self, p: Seq<u8>, c: Seq<u8>) -> bool {
        &&& self.has_file(p)
        &&& c.len() <= u32::MAX
        &&& fits(
            self.version_spec(),
            written_plain(self.plain(), pos_of(self.held(), p), value_at(self.entries(), p).size as int, c),
        )
    }

    /// The bytes of the archive after the contents of the file at `p` became `c`.
    pub open spec fn replaced_bytes(&self, p: Seq<u8>, c: Seq<u8>) -> Seq<u8> {
        encode_archive(
            self.version_spec(),
            self.base_magic_spec(),
            written_plain(self.plain(), pos_of(self.held(), p), value_at(self.entries(), p).size as int, c),
            written_magics(magics_of(self.held()), pos_of(self.held(), p), value_at(self.entries(), p).size as int, c),
        )
    }

    /// What a filesystem holds can be saved and loaded again: its bytes parse, with no empty
    /// path (so `new` accepts them), and any filesystem over the same bytes has the same version,
    /// key and files.
    pub proof fn lemma_save_load(a: &FileSystem, b: &FileSystem)
        requires
            a.wf(),
            b.wf(),
            b.bytes() == a.bytes(),
        ensures
            parse_archive_spec(a.bytes()) is Ok,
            forall|i: int| 0 <= i < listing_of(a.bytes()).len() ==> (#[trigger] listing_of(a.bytes())[i]).0.len() > 0,
            b.version_spec() == a.version_spec(),
            b.base_magic_spec() == a.base_magic_spec(),
            b.file_map() == a.file_map(),
    {
        let l = listing_of(a.bytes());
        lemma_index_of_keys(l);
        a.trie.lemma_wf();
        assert forall|i: int| 0 <= i < l.len() implies (#[trigger] l[i]).0.len() > 0 by {
            let p = l[i].0;
            assert(listed(l, p));
            assert(list_map(index_of(l)).contains_key(p));
            assert(list_map(a.trie.file_list()).contains_key(p));
            let k = choose|k: int| 0 <= k < a.trie.file_list().len() && #[trigger] a.trie.file_list()[k].0 == p;
            assert(a.trie.file_list()[k].0.len() > 0);
        }
        assert(a.file_map() =~= b.file_map()) by {
            assert forall|p: Seq<u8>| #[trigger] a.has_file(p) == b.has_file(p) by {
                assert(list_map(a.entries()).contains_key(p) == listed(a.entries(), p));
                assert(list_map(b.entries()).contains_key(p) == listed(b.entries(), p));
            }
            assert forall|p: Seq<u8>| a.has_file(p) implies #[trigger] value_at(a.entries(), p) == value_at(b.entries(), p) by {
                assert(list_map(a.entries())[p] == value_at(a.entries(), p));
                assert(list_map(b.entries())[p] == value_at(b.entries(), p));
            }
        }
    }

    /// The size each file's entry gives is the length of its contents.
    pub open spec fn sizes_match(&self) -> bool {
        forall|p: Seq<u8>| #[trigger] self.has_file(p) ==> value_at(self.entries(), p).size == self.file_map()[p].len()
    }

    /// Loading the bytes of a filesystem again gives the same files, and the same sizes for them.
    pub proof fn lemma_save_load_sizes(a: &FileSystem, b: &FileSystem)
        requires
            a.wf(),
            b.wf(),
            b.bytes() == a.bytes(),
            a.sizes_match(),
        ensures
            b.file_map() == a.file_map(),
            b.sizes_match(),
            forall|p: Seq<u8>| #[trigger] b.has_file(p) ==> value_at(b.entries(), p).size == value_at(a.entries(), p).size,
    {
        FileSystem::lemma_save_load(a, b);
        assert forall|p: Seq<u8>| #[trigger] b.has_file(p) implies value_at(b.entries(), p).size == value_at(a.entries(), p).size
            && value_at(b.entries(), p).size == b.file_map()[p].len() by {
            assert(list_map(b.entries()).contains_key(p));
            assert(list_map(a.entries()).contains_key(p));
            assert(list_map(a.entries())[p] == list_map(b.entries())[p]);
            assert(a.has_file(p));
        }
    }

    /// Removing a file from an archive whose files fit keeps them fitting.
    pub proof fn lemma_removal_fits(&self, p: Seq<u8>)
        requires
            self.wf(),
            self.has_file(p),
        ensures
            0 <= pos_of(self.held(), p) < self.plain().len(),
            fits(self.version_spec(), self.plain()) ==> fits(self.version_spec(), self.plain().remove(pos_of(self.held(), p))),
    {
        self.lemma_sound();
        self.lemma_file_map_plain();
        assert(listed(self.held(), p));
        let i = pos_of(self.held(), p);
        lemma_v3_len_remove(self.plain(), i);
    }

    /// Loading again the bytes of a filesystem that holds `files` with matching sizes, such as
    /// one made by `from_files`, gives those files, each with the length of its contents as its
    /// size.
    pub proof fn lemma_reload_files(a: &FileSystem, b: &FileSystem, files: Seq<(Seq<u8>, Seq<u8>)>)
        requires
            a.wf(),
            b.wf(),
            b.bytes() == a.bytes(),
            a.file_map() == list_map(files),
            a.sizes_match(),
        ensures
            b.file_map() == list_map(files),
            forall|p: Seq<u8>| #[trigger] b.has_file(p) ==> value_at(b.entries(), p).size == list_map(files)[p].len(),
    {
        FileSystem::lemma_save_load_sizes(a, b);
    }

    /// Every archive that parses is sound: the files it holds can be written to a new archive.
    pub proof fn lemma_sound(&self)
        requires
            self.wf(),
        ensures
            self.sound(),
    {
        let l = self.listing();
        let h = self.held();
        let pl = self.plain();
        lemma_parse_good(self.bytes());
        lemma_index_of_from(l);
        assert forall|i: int| 0 <= i < h.len() implies good_entry(#[trigger] h[i]) by {
            let j = choose|j: int| 0 <= j < l.len() && h[i] == #[trigger] l[j];
            assert(good_entry(l[j]));
        }
        assert forall|i: int| 0 <= i < pl.len() implies valid_utf8(#[trigger] pl[i].0) && pl[i].0.len() <= u32::MAX
            && pl[i].1.len() <= u32::MAX by {
            assert(good_entry(h[i]));
            let e = h[i].1;
            assert(read_at_spec(self.bytes(), e.body_offset as int, e.size as int).len() <= e.size);
        }
        assert forall|i: int| 0 <= i < h.len() implies !has_backslash(#[trigger] h[i].0) by {
            assert(good_entry(h[i]));
        }
    }

    /// In a well-formed index of a sound archive, the files are those the archive holds.
    pub proof fn lemma_file_map_plain(&self)
        requires
            self.wf(),
            self.sound(),
        ensures
            unique_paths(self.plain()),
            unique_paths(self.held()),
            well_sized(self.plain()),
            self.plain().len() == self.held().len(),
            forall|i: int| 0 <= i < self.held().len() ==> !has_backslash(#[trigger] self.held()[i].0)
                && self.plain()[i].0 == self.held()[i].0,
            self.file_map() == list_map(self.plain()),
            good_files(self.plain()),
            forall|p: Seq<u8>| self.has_file(p) <==> listed(self.held(), p),
            forall|p: Seq<u8>| self.has_file(p) <==> listed(self.plain(), p),
            forall|i: int| 0 <= i < self.plain().len() ==> (#[trigger] self.plain()[i]).0.len() > 0,
    {
        let l = self.held();
        let pl = self.plain();
        self.trie.lemma_wf();
        lemma_index_of_keys(self.listing());
        assert(unique_paths(pl)) by {
            assert forall|a: int, b: int| 0 <= a < pl.len() && 0 <= b < pl.len() && a != b implies #[trigger] pl[a].0 != #[trigger] pl[b].0 by {
                assert(pl[a].0 == l[a].0 && pl[b].0 == l[b].0);
            }
        }
        assert forall|p: Seq<u8>| #[trigger] listed(self.entries(), p) == listed(l, p) by {
            assert(list_map(self.entries()).dom().contains(p) == list_map(l).dom().contains(p));
        }
        assert forall|p: Seq<u8>| #[trigger] listed(pl, p) == listed(l, p) by {
            if listed(pl, p) {
                let k = choose|k: int| 0 <= k < pl.len() && #[trigger] pl[k].0 == p;
                assert(l[k].0 == p);
            }
            if listed(l, p) {
                let k = choose|k: int| 0 <= k < l.len() && #[trigger] l[k].0 == p;
                assert(pl[k].0 == p);
            }
        }
        assert forall|p: Seq<u8>| self.has_file(p) implies #[trigger] self.file_map()[p] == list_map(pl)[p] by {
            let k = choose|k: int| 0 <= k < l.len() && #[trigger] l[k].0 == p;
            lemma_unique_position(l, k, p);
            lemma_unique_position(pl, k, p);
            assert(list_map(self.entries())[p] == list_map(l)[p]);
        }
        assert(self.file_map() =~= list_map(pl));
        assert(good_files(pl)) by {
            assert forall|i: int| 0 <= i < pl.len() implies !has_backslash(#[trigger] pl[i].0) && pl[i].0.len() > 0 by {
                assert(listed(l, l[i].0));
                assert(listed(self.entries(), l[i].0));
                let k = choose|k: int| 0 <= k < self.entries().len() && #[trigger] self.entries()[k].0 == l[i].0;
                assert(self.trie.file_list()[k].0.len() > 0);
            }
        }
        assert forall|i: int| 0 <= i < pl.len() implies (#[trigger] pl[i]).0.len() > 0 by {
            assert(listed(l, l[i].0));
            assert(listed(self.entries(), l[i].0));
            let k = choose|k: int| 0 <= k < self.entries().len() && #[trigger] self.entries()[k].0 == l[i].0;
            assert(self.trie.file_list()[k].0.len() > 0);
        }
    }

    /// The files the archive holds, in the order of `held`, with their contents and the magic
    /// values that start their key streams, when they can be written to a new archive.
    #[verifier::rlimit(60)]
    fn held_files(&self) -> (r: Result<(Vec<(String, Vec<u8>)>, Vec<u32>), Error>)
        requires
            self.wf(),
        ensures
            r is Ok <==> self.sound(),
            r matches Ok(t) ==> contents_view(t.0@) == self.plain() && t.1@ == magics_of(self.held()),
            r matches Err(e) ==> e == Error::IoError(IoErrorKind::InvalidData),
    {
        let h = match read_archive_headers(self.archive.as_slice()) {
            Ok(h) => h,
            Err(_) => {
                return Err(Error::IoError(IoErrorKind::InvalidData));
            },
        };
        let ghost l = files_view(h.files@);
        assert(l == self.listing());
        let idx = index_entries(&h.files);
        proof {
            lemma_index_of_keys(l);
        }
        assert(files_view(idx@) == self.held());
        if !paths_ok(&idx) {
            return Err(Error::IoError(IoErrorKind::InvalidData));
        }
        let (files, magics) = decode_all(self.archive.as_slice(), &idx);
        if !sized_ok(&files) {
            return Err(Error::IoError(IoErrorKind::InvalidData));
        }
        Ok((files, magics))
    }

    /// Whether an archive of this version holding `files` keeps every offset within 32 bits.
    fn fits_check(&self, files: &Vec<(String, Vec<u8>)>, magics: &Vec<u32>) -> (r: bool)
        requires
            magics@.len() == files@.len(),
            well_sized(contents_view(files@)),
        ensures
            r == fits(self.version, contents_view(files@)),
    {
        if self.version == 3 {
            proof {
                lemma_v3_len(contents_view(files@), magics@);
            }
            v3_total(files, magics).is_some()
        } else {
            true
        }
    }

    /// Replaces the archive with one holding `files` in this order (keyed from `magics` in a
    /// version 3 archive) and points the index at where each file now lies.
    #[verifier::rlimit(40)]
    fn rebuild(&mut self, files: &Vec<(String, Vec<u8>)>, magics: &Vec<u32>) -> (r: Result<(), Error>)
        requires
            old(self).trie.wf(),
            old(self).version == 1 || old(self).version == 2 || old(self).version == 3,
            old(self).version != 3 ==> old(self).base_magic == MAGIC,
            unique_paths(contents_view(files@)),
            well_sized(contents_view(files@)),
            forall|i: int| 0 <= i < files@.len() ==> !has_backslash(#[trigger] contents_view(files@)[i].0)
                && contents_view(files@)[i].0.len() > 0,
            magics@.len() == files@.len(),
            forall|p: Seq<u8>| listed(old(self).trie.file_list(), p) ==> listed(contents_view(files@), p),
        ensures
            final(self).version == old(self).version,
            final(self).base_magic == old(self).base_magic,
            r is Ok <==> fits(old(self).version, contents_view(files@)),
            r is Ok ==> {
                &&& final(self).wf()
                &&& final(self).bytes() == encode_archive(old(self).version, old(self).base_magic, contents_view(files@), magics@)
                &&& final(self).file_map() == list_map(contents_view(files@))
                &&& final(self).dirs() == old(self).trie.dir_set().union(dirs_above(contents_view(files@)))
                &&& final(self).plain() == contents_view(files@)
                &&& final(self).sound()
                &&& final(self).sizes_match()
            },
            r matches Err(e) ==> e == Error::IoError(IoErrorKind::InvalidData) && *final(self) == *old(self),
    {
        reveal(encode_archive);
        let ghost cv = contents_view(files@);
        proof {
            lemma_v3_len(cv, magics@);
        }
        let (bytes, entries) = if self.version == 3 {
            match v3_total(files, magics) {
                Some(_) => build_archive_v3(files, self.base_magic, magics),
                None => {
                    return Err(Error::IoError(IoErrorKind::InvalidData));
                },
            }
        } else {
            build_archive_v12(self.version, files)
        };
        let ghost ev = files_view(entries@);
        let ghost m0 = list_map(self.trie.file_list());
        let ghost d0 = self.trie.dir_set();
        assert forall|k: int| 0 <= k < ev.len() implies (#[trigger] ev[k]).0 == cv[k].0 by {
            assert(entries@[k].0 == files@[k].0);
        }
        assert(unique_paths(ev)) by {
            assert forall|a: int, b: int| 0 <= a < ev.len() && 0 <= b < ev.len() && a != b implies #[trigger] ev[a].0 != #[trigger] ev[b].0 by {
                assert(ev[a].0 == cv[a].0 && ev[b].0 == cv[b].0);
            }
        }
        let mut k: usize = 0;
        assert(m0.union_prefer_right(list_map(ev.take(0))) =~= m0);
        assert(d0.union(dirs_above(cv.take(0))) =~= d0);
        while k < entries.len()
            invariant
                self.trie.wf(),
                self.version == old(self).version,
                self.base_magic == old(self).base_magic,
                self.archive == old(self).archive,
                ev == files_view(entries@),
                cv == contents_view(files@),
                ev.len() == cv.len(),
                unique_paths(ev),
                forall|j: int| 0 <= j < ev.len() ==> (#[trigger] ev[j]).0 == cv[j].0,
                forall|i: int| 0 <= i < files@.len() ==> !has_backslash(#[trigger] contents_view(files@)[i].0)
                    && contents_view(files@)[i].0.len() > 0,
                k <= ev.len(),
                list_map(self.trie.file_list()) == m0.union_prefer_right(list_map(ev.take(k as int))),
                self.trie.dir_set() == d0.union(dirs_above(cv.take(k as int))),
            decreases ev.len() - k,
        {
            let path = entries[k].0.as_str();
            let entry = entries[k].1;
            let ghost before = self.trie.file_list();
            let ghost x = ev[k as int];
            assert(encode_utf8(path@) == x.0);
            proof {
                self.trie.lemma_wf();
                assert(cv[k as int].0.len() > 0);
                if path@.len() == 0 {
                    assert(path@ =~= Seq::<char>::empty());
                    assert(encode_utf8(path@).len() == 0);
                }
                lemma_list_map_insert(before, x);
                assert(ev.take(k + 1) =~= ev.take(k as int).push(x));
                assert(!listed(ev.take(k as int), x.0)) by {
                    if listed(ev.take(k as int), x.0) {
                        let j = choose|j: int| 0 <= j < k && #[trigger] ev.take(k as int)[j].0 == x.0;
                        assert(ev[j].0 == ev[k as int].0);
                    }
                }
                assert(unique_paths(ev.take(k as int))) by {
                    assert forall|a: int, b: int| 0 <= a < k && 0 <= b < k && a != b implies #[trigger] ev.take(k as int)[a].0 != #[trigger] ev.take(k as int)[b].0 by {
                        assert(ev.take(k as int)[a] == ev[a] && ev.take(k as int)[b] == ev[b]);
                    }
                }
                lemma_list_map_push(ev.take(k as int), x);
            }
            self.trie.create_file(path, entry);
            proof {
                assert(list_map(self.trie.file_list()) =~= m0.union_prefer_right(list_map(ev.take(k + 1))));
                assert(cv.take(k + 1) =~= cv.take(k as int).push(cv[k as int]));
                assert forall|d: Seq<u8>| #[trigger] dirs_above(cv.take(k + 1)).contains(d)
                    == (dirs_above(cv.take(k as int)).contains(d) || is_ancestor(d, x.0, false)) by {
                    if dirs_above(cv.take(k + 1)).contains(d) {
                        let j = choose|j: int| 0 <= j < k + 1 && #[trigger] is_ancestor(d, cv.take(k + 1)[j].0, false);
                        if j < k {
                            assert(cv.take(k as int)[j] == cv.take(k + 1)[j]);
                        }
                    }
                    if dirs_above(cv.take(k as int)).contains(d) {
                        let j = choose|j: int| 0 <= j < k && #[trigger] is_ancestor(d, cv.take(k as int)[j].0, false);
                        assert(cv.take(k as int)[j] == cv.take(k + 1)[j]);
                    }
                    if is_ancestor(d, x.0, false) {
                        assert(cv.take(k + 1)[k as int].0 == x.0);
                    }
                }
                assert(self.trie.dir_set() =~= d0.union(dirs_above(cv.take(k + 1))));
            }
            k += 1;
        }
        assert(ev.take(ev.len() as int) =~= ev);
        assert(cv.take(cv.len() as int) =~= cv);
        proof {
            assert forall|p: Seq<u8>| #[trigger] listed(ev, p) == listed(cv, p) by {
                if listed(ev, p) {
                    let j = choose|j: int| 0 <= j < ev.len() && #[trigger] ev[j].0 == p;
                    assert(cv[j].0 == p);
                }
                if listed(cv, p) {
                    let j = choose|j: int| 0 <= j < cv.len() && #[trigger] cv[j].0 == p;
                    assert(ev[j].0 == p);
                }
            }
            assert(m0.union_prefer_right(list_map(ev)) =~= list_map(ev)) by {
                assert forall|p: Seq<u8>| m0.dom().contains(p) implies list_map(ev).dom().contains(p) by {
                    assert(listed(cv, p));
                }
            }
            assert(normalize_listing(ev) =~= ev) by {
                assert forall|j: int| 0 <= j < ev.len() implies #[trigger] normalize_listing(ev)[j] == ev[j] by {
                    lemma_normalize_id(ev[j].0);
                }
            }
            lemma_index_of_unique(ev);
        }
        self.archive = bytes;
        proof {
            assert(listing_of(self.archive@) == ev);
            assert forall|p: Seq<u8>| #[trigger] self.has_file(p) == listed(cv, p) by {
                assert(list_map(self.trie.file_list()).dom().contains(p) == list_map(ev).dom().contains(p));
            }
            assert forall|p: Seq<u8>| self.has_file(p) implies #[trigger] self.file_map()[p] == list_map(cv)[p] by {
                assert(listed(ev, p));
                let j = choose|j: int| 0 <= j < ev.len() && #[trigger] ev[j].0 == p;
                lemma_unique_position(ev, j, p);
                assert(list_map(self.trie.file_list())[p] == list_map(ev)[p]);
                let e = entries@[j].1;
                assert(ev[j].1 == e);
                lemma_read_at_within(self.archive@, e.body_offset as int, e.size as int);
                assert(cv[j].0 == p);
                lemma_unique_position(cv, j, p);
                assert(cv[j].1 == files@[j].1@);
            }
            assert(self.file_map() =~= list_map(cv));
            assert forall|p: Seq<u8>| #[trigger] self.has_file(p) implies value_at(self.entries(), p).size == self.file_map()[p].len() by {
                assert(listed(ev, p));
                let j = choose|j: int| 0 <= j < ev.len() && #[trigger] ev[j].0 == p;
                lemma_unique_position(ev, j, p);
                assert(list_map(self.trie.file_list())[p] == list_map(ev)[p]);
                let e = entries@[j].1;
                assert(ev[j].1 == e);
                lemma_read_at_within(self.archive@, e.body_offset as int, e.size as int);
            }
            assert(self.held() == ev);
            assert forall|j: int| 0 <= j < cv.len() implies #[trigger] self.plain()[j] == cv[j] by {
                let e = entries@[j].1;
                assert(ev[j].1 == e);
                lemma_read_at_within(self.archive@, e.body_offset as int, e.size as int);
                assert(cv[j].1 == files@[j].1@);
            }
            assert(self.plain() =~= cv);
        }
        Ok(())
    }

    /// Removes the file at the given path.
    #[verifier::rlimit(60)]
    pub fn remove_file(&mut self, path: &str) -> (r: Result<(), Error>)
        requires
            old(self).wf(),
        ensures
            final(self).wf(),
            !old(self).has_file(encode_utf8(path@)) ==> r == Err::<(), Error>(Error::NotExist) && *final(self) == *old(self),
            old(self).has_file(encode_utf8(path@)) ==> (r is Ok <==> fits(
                old(self).version_spec(),
                old(self).plain().remove(pos_of(old(self).held(), encode_utf8(path@))),
            )),
            r is Ok ==> final(self).bytes() == encode_archive(
                old(self).version_spec(),
                old(self).base_magic_spec(),
                old(self).plain().remove(pos_of(old(self).held(), encode_utf8(path@))),
                magics_of(old(self).held()).remove(pos_of(old(self).held(), encode_utf8(path@))),
            ),
            r is Ok ==> final(self).file_map() == old(self).file_map().remove(encode_utf8(path@)),
            r is Ok ==> final(self).dirs() == old(self).dirs(),
            r is Ok ==> final(self).sizes_match(),
            r is Ok ==> final(self).version_spec() == old(self).version_spec()
                && final(self).plain() == old(self).plain().remove(pos_of(old(self).held(), encode_utf8(path@))),
            r is Err ==> *final(self) == *old(self),
    {
        let ghost p = encode_utf8(path@);
        if !self.trie.contains_file(path) {
            return Err(Error::NotExist);
        }
        proof {
            self.lemma_sound();
        }
        let (mut files, mut magics) = self.held_files()?;
        proof {
            self.lemma_file_map_plain();
        }
        let ghost pl = self.plain();
        let ghost l = self.held();
        let i = match find(&files, path.as_bytes()) {
            Some(i) => i,
            None => {
                proof {
                    assert(self.has_file(p));
                    assert(listed(l, p));
                    let k = choose|k: int| 0 <= k < l.len() && #[trigger] l[k].0 == p;
                    assert(pl[k].0 == p);
                    assert(files_view(files@)[k].0 == contents_view(files@)[k].0);
                    assert(files_view(files@)[k].0 == p);
                }
                return Err(Error::NotExist);
            },
        };
        proof {
            assert(files_view(files@)[i as int].0 == pl[i as int].0);
            lemma_unique_position(l, i as int, p);
            assert(pl[i as int].0 == l[i as int].0);
            lemma_list_map_remove(pl, i as int);
        }
        let ghost saved = *self;
        files.remove(i);
        magics.remove(i);
        proof {
            assert(contents_view(files@) =~= pl.remove(i as int));
            assert(well_sized(contents_view(files@))) by {
                assert forall|k: int| 0 <= k < files@.len() implies valid_utf8(#[trigger] contents_view(files@)[k].0)
                    && contents_view(files@)[k].0.len() <= u32::MAX && contents_view(files@)[k].1.len() <= u32::MAX by {
                    let k2 = if k < i { k } else { k + 1 };
                    assert(contents_view(files@)[k] == pl[k2]);
                }
            }
            assert forall|k: int| 0 <= k < files@.len() implies !has_backslash(#[trigger] contents_view(files@)[k].0)
                && contents_view(files@)[k].0.len() > 0 by {
                let k2 = if k < i { k } else { k + 1 };
                assert(contents_view(files@)[k] == pl[k2]);
                assert(pl[k2].0 == l[k2].0);
            }
        }
        if !self.fits_check(&files, &magics) {
            return Err(Error::IoError(IoErrorKind::InvalidData));
        }
        let ghost before_trie = self.trie.file_list();
        proof {
            self.trie.lemma_wf();
        }
        self.trie.remove_file(path);
        proof {
            lemma_unique_position(before_trie, pos_of(before_trie, p), p);
            let j = pos_of(before_trie, p);
            lemma_list_map_remove(before_trie, j);
            assert forall|q: Seq<u8>| listed(self.trie.file_list(), q) implies listed(contents_view(files@), q) by {
                assert(list_map(self.trie.file_list()).dom().contains(q));
                assert(listed(before_trie, q) && q != p);
                assert(saved.has_file(q));
                assert(listed(l, q));
                assert(list_map(pl.remove(i as int)).dom().contains(q));
            }
        }
        match self.rebuild(&files, &magics) {
            Ok(()) => {
                proof {
                    assert(self.dirs() =~= saved.dirs()) by {
                        assert forall|d: Seq<u8>| dirs_above(contents_view(files@)).contains(d) implies saved.dirs().contains(d) by {
                            let k = choose|k: int| 0 <= k < files@.len() && #[trigger] is_ancestor(d, contents_view(files@)[k].0, false);
                            let q = contents_view(files@)[k].0;
                            assert(listed(contents_view(files@), q));
                            assert(list_map(pl.remove(i as int)).dom().contains(q));
                            assert(listed(l, q));
                            assert(saved.has_file(q));
                            let m = choose|m: int| 0 <= m < saved.entries().len() && #[trigger] saved.entries()[m].0 == q;
                            assert(saved.trie.file_list()[m].0 == q);
                            assert(crate::trie::parents_in(q, saved.trie.dir_set()));
                            assert(d == q.subrange(0, d.len() as int));
                        }
                    }
                }
                Ok(())
            },
            Err(e) => {
                proof {
                    assert(false);
                }
                Err(e)
            },
        }
    }

    /// The directories above files of the archive are directories already.
    pub proof fn lemma_dirs_above_files(&self, s: Seq<(Seq<u8>, Seq<u8>)>)
        requires
            self.wf(),
            forall|q: Seq<u8>| listed(s, q) ==> self.has_file(q),
        ensures
            self.dirs().union(dirs_above(s)) == self.dirs(),
    {
        self.trie.lemma_wf();
        assert forall|d: Seq<u8>| dirs_above(s).contains(d) implies self.dirs().contains(d) by {
            let k = choose|k: int| 0 <= k < s.len() && #[trigger] is_ancestor(d, s[k].0, false);
            let q = s[k].0;
            assert(listed(s, q));
            assert(self.has_file(q));
            let m = choose|m: int| 0 <= m < self.entries().len() && #[trigger] self.entries()[m].0 == q;
            assert(self.trie.file_list()[m].0 == q);
            assert(crate::trie::parents_in(q, self.trie.dir_set()));
            assert(d == q.subrange(0, d.len() as int));
        }
        assert(self.dirs().union(dirs_above(s)) =~= self.dirs());
    }

    /// Replaces the contents of the file at the given path; a file whose size changes moves to
    /// the end of the archive.
    #[verifier::rlimit(60)]
    pub fn replace_contents(&mut self, path: &str, contents: &Vec<u8>) -> (r: Result<(), Error>)
        requires
            old(self).wf(),
        ensures
            final(self).wf(),
            !old(self).has_file(encode_utf8(path@)) ==> r == Err::<(), Error>(Error::IoError(IoErrorKind::InvalidData))
                && *final(self) == *old(self),
            r is Ok <==> old(self).replace_ok(encode_utf8(path@), contents@),
            r is Ok ==> final(self).bytes() == old(self).replaced_bytes(encode_utf8(path@), contents@),
            r is Ok ==> final(self).file_map() == old(self).file_map().insert(encode_utf8(path@), contents@),
            r is Ok ==> final(self).dirs() == old(self).dirs(),
            r is Ok ==> final(self).sizes_match(),
            r is Err ==> *final(self) == *old(self),
    {
        let ghost p = encode_utf8(path@);
        let old_size = match self.trie.get_file(path) {
            Some(e) => e.size,
            None => {
                return Err(Error::IoError(IoErrorKind::InvalidData));
            },
        };
        proof {
            self.lemma_sound();
        }
        let (mut files, mut magics) = self.held_files()?;
        proof {
            self.lemma_file_map_plain();
        }
        let ghost pl = self.plain();
        let ghost l = self.held();
        let ghost ms = magics_of(l);
        let i = match find(&files, path.as_bytes()) {
            Some(i) => i,
            None => {
                proof {
                    assert(self.has_file(p));
                    assert(listed(pl, p));
                    let k = choose|k: int| 0 <= k < pl.len() && #[trigger] pl[k].0 == p;
                    assert(files_view(files@)[k].0 == contents_view(files@)[k].0);
                }
                return Err(Error::IoError(IoErrorKind::InvalidData));
            },
        };
        if contents.len() > 0xffff_ffff {
            return Err(Error::IoError(IoErrorKind::InvalidData));
        }
        proof {
            assert(files_view(files@)[i as int].0 == pl[i as int].0);
            lemma_unique_position(pl, i as int, p);
            lemma_unique_position(l, i as int, p);
            assert(valid_utf8(pl[i as int].0));
        }
        let ghost saved = *self;
        let ghost x = (pl[i as int].0, contents@);
        let (name, _) = files.remove(i);
        let ghost removed = files@;
        if old_size != contents.len() as u64 {
            let m = magics.remove(i);
            files.push((name, contents.clone()));
            magics.push(m);
            proof {
                assert(contents_view(files@) =~= pl.remove(i as int).push(x));
                lemma_good_remove(pl, i as int);
                lemma_good_push(pl.remove(i as int), x);
                lemma_list_map_remove(pl, i as int);
                assert(!listed(pl.remove(i as int), p)) by {
                    assert(!list_map(pl.remove(i as int)).dom().contains(p));
                }
                lemma_list_map_push(pl.remove(i as int), x);
                assert(list_map(pl).remove(p).insert(p, contents@) =~= list_map(pl).insert(p, contents@));
            }
        } else {
            files.insert(i, (name, contents.clone()));
            proof {
                assert(contents_view(files@) =~= pl.update(i as int, x));
                lemma_good_update(pl, i as int, x);
                lemma_list_map_update(pl, i as int, x);
            }
        }
        proof {
            assert(magics@ == written_magics(ms, i as int, old_size as int, contents@));
            assert(contents_view(files@) == written_plain(pl, i as int, old_size as int, contents@));
        }
        if !self.fits_check(&files, &magics) {
            return Err(Error::IoError(IoErrorKind::InvalidData));
        }
        proof {
            self.trie.lemma_wf();
            assert forall|q: Seq<u8>| listed(self.trie.file_list(), q) implies listed(contents_view(files@), q) by {
                assert(self.has_file(q));
                assert(list_map(pl).insert(p, contents@).dom().contains(q));
                assert(list_map(contents_view(files@)).dom().contains(q));
            }
            assert forall|q: Seq<u8>| listed(contents_view(files@), q) implies self.has_file(q) by {
                assert(list_map(contents_view(files@)).dom().contains(q));
                assert(list_map(pl).insert(p, contents@).dom().contains(q));
            }
            self.lemma_dirs_above_files(contents_view(files@));
        }
        match self.rebuild(&files, &magics) {
            Ok(()) => Ok(()),
            Err(e) => {
                proof {
                    assert(false);
                }
                Err(e)
            },
        }
    }

    /// Whether a file can be created at `p`: its path is not that of the root directory, holds
    /// no backslash and fits a 32-bit length, and the new archive keeps its offsets within 32
    /// bits.
    pub open spec fn create_ok(&self, p: Seq<u8>) -> bool {
        &&& p.len() > 0
        &&& !has_backslash(p)
        &&& p.len() <= u32::MAX
        &&& fits(self.version_spec(), self.plain().push((p, Seq::<u8>::empty())))
    }

    /// The bytes of the archive after an empty file, keyed from `m`, was added at `p`.
    pub open spec fn created_bytes(&self, p: Seq<u8>, m: u32) -> Seq<u8> {
        encode_archive(
            self.version_spec(),
            self.base_magic_spec(),
            self.plain().push((p, Seq::<u8>::empty())),
            magics_of(self.held()).push(m),
        )
    }

    /// Adds an empty file at the end of the archive.
    #[verifier::rlimit(60)]
    fn create_entry(&mut self, path: &str) -> (r: Result<(), Error>)
        requires
            old(self).wf(),
            !old(self).has_file(encode_utf8(path@)),
            encode_utf8(path@).len() > 0,
        ensures
            final(self).wf(),
            r is Ok <==> old(self).create_ok(encode_utf8(path@)),
            r is Ok ==> (exists|m: u32| final(self).bytes() == old(self).created_bytes(encode_utf8(path@), m))
                && final(self).file_map() == old(self).file_map().insert(encode_utf8(path@), Seq::<u8>::empty())
                && final(self).dirs() == old(self).dirs().union(ancestors(encode_utf8(path@), false))
                && final(self).sizes_match(),
            r is Err ==> *final(self) == *old(self),
            r matches Err(e) ==> (has_backslash(encode_utf8(path@)) && e == Error::NotSupported)
                || (!has_backslash(encode_utf8(path@)) && e == Error::IoError(IoErrorKind::InvalidData)),
    {
        let ghost p = encode_utf8(path@);
        let pb = path.as_bytes();
        if holds_backslash(pb) {
            return Err(Error::NotSupported);
        }
        proof {
            self.lemma_sound();
        }
        let (mut files, mut magics) = self.held_files()?;
        proof {
            self.lemma_file_map_plain();
        }
        let ghost pl = self.plain();
        if pb.len() > 0xffff_ffff {
            return Err(Error::IoError(IoErrorKind::InvalidData));
        }
        let m: u32 = if self.version == 3 { random_u32() } else { 0 };
        let ghost x = (p, Seq::<u8>::empty());
        files.push((path.to_owned(), Vec::new()));
        magics.push(m);
        proof {
            assert(contents_view(files@) =~= pl.push(x));
            lemma_good_push(pl, x);
            assert(!listed(pl, p));
            lemma_list_map_push(pl, x);
        }
        if !self.fits_check(&files, &magics) {
            return Err(Error::IoError(IoErrorKind::InvalidData));
        }
        proof {
            self.trie.lemma_wf();
            assert forall|q: Seq<u8>| listed(self.trie.file_list(), q) implies listed(contents_view(files@), q) by {
                assert(self.has_file(q));
                assert(list_map(pl).insert(p, Seq::<u8>::empty()).dom().contains(q));
                assert(list_map(contents_view(files@)).dom().contains(q));
            }
            self.lemma_dirs_above_files(pl);
            assert forall|d: Seq<u8>| #[trigger] dirs_above(pl.push(x)).contains(d) == (dirs_above(pl).contains(d) || is_ancestor(d, p, false)) by {
                if dirs_above(pl.push(x)).contains(d) {
                    let k = choose|k: int| 0 <= k < pl.push(x).len() && #[trigger] is_ancestor(d, pl.push(x)[k].0, false);
                    if k < pl.len() {
                        assert(pl.push(x)[k] == pl[k]);
                    }
                }
                if dirs_above(pl).contains(d) {
                    let k = choose|k: int| 0 <= k < pl.len() && #[trigger] is_ancestor(d, pl[k].0, false);
                    assert(pl.push(x)[k] == pl[k]);
                }
                if is_ancestor(d, p, false) {
                    assert(pl.push(x)[pl.len() as int].0 == p);
                }
            }
            assert(self.dirs().union(dirs_above(pl.push(x))) =~= self.dirs().union(ancestors(p, false)));
        }
        let ghost before = *self;
        match self.rebuild(&files, &magics) {
            Ok(()) => {
                assert(self.bytes() == before.created_bytes(p, m));
                Ok(())
            },
            Err(e) => {
                proof {
                    assert(false);
                }
                Err(e)
            },
        }
    }

    /// Opens the file at the given path. With `CREATE`, a missing file is first added to the
    /// archive, empty; with `TRUNCATE`, the opened file starts empty; else it starts with the
    /// contents the archive holds.
    pub fn open_file(&mut self, path: &str, flags: OpenFlags) -> (r: Result<File, Error>)
        requires
            old(self).wf(),
        ensures
            final(self).wf(),
            ({
                let p = encode_utf8(path@);
                let created = flags.has(CREATE) && !old(self).has_file(p);
                &&& created ==> (r is Ok <==> old(self).create_ok(p))
                &&& created && r is Ok ==> (exists|m: u32| final(self).bytes() == old(self).created_bytes(p, m))
                    && final(self).file_map() == old(self).file_map().insert(p, Seq::<u8>::empty())
                    && final(self).dirs() == old(self).dirs().union(ancestors(p, false))
                    && final(self).sizes_match()
                &&& !(created && r is Ok) ==> *final(self) == *old(self)
                &&& created && p.len() == 0 ==> r == Err::<File, Error>(Error::IoError(IoErrorKind::AlreadyExists))
                &&& created && p.len() > 0 && r is Err ==> r == Err::<File, Error>(Error::NotSupported) || r == Err::<File, Error>(
                    Error::IoError(IoErrorKind::InvalidData))
                &&& !created ==> (r is Ok <==> old(self).has_file(p))
                &&& !created && r is Err ==> r == Err::<File, Error>(Error::NotExist)
                &&& r matches Ok(f) ==> {
                    &&& f.path_spec() == p
                    &&& f.position() == 0
                    &&& f.readable() == flags.has(READ)
                    &&& f.writable() == flags.has(WRITE)
                    &&& f.contents() == if !created && !flags.has(TRUNCATE) {
                        old(self).file_map()[p]
                    } else {
                        Seq::<u8>::empty()
                    }
                    &&& f.is_modified() == (!created && flags.has(WRITE) && flags.has(TRUNCATE))
                }
            }),
    {
        let ghost p = encode_utf8(path@);
        let mut created = false;
        let mut tmp: Vec<u8> = Vec::new();
        if flags.contains(CREATE) && !self.trie.contains_file(path) {
            if path.is_empty() {
                proof {
                    assert(path@ =~= Seq::<char>::empty());
                }
                return Err(Error::IoError(IoErrorKind::AlreadyExists));
            }
            created = true;
            proof {
                assert(path@.len() > 0);
                assert(encode_utf8(path@).len() > 0);
            }
            self.create_entry(path)?;
        } else if !flags.contains(TRUNCATE) {
            tmp = self.read(path)?;
        } else if !self.trie.contains_file(path) {
            return Err(Error::NotExist);
        }
        Ok(File {
            path: path.to_owned(),
            tmp,
            pos: 0,
            read_allowed: flags.contains(READ),
            write_allowed: flags.contains(WRITE),
            modified: !created && flags.contains(WRITE) && flags.contains(TRUNCATE),
        })
    }

    /// Writes `data` as the whole contents of the file at the given path, creating it if it does
    /// not exist.
    pub fn write(&mut self, path: &str, data: &[u8]) -> (r: Result<(), Error>)
        requires
            old(self).wf(),
        ensures
            final(self).wf(),
            r is Ok ==> final(self).file_map() == old(self).file_map().insert(encode_utf8(path@), data@),
            old(self).has_file(encode_utf8(path@)) ==> (r is Ok <==> old(self).replace_ok(encode_utf8(path@), data@)),
            old(self).has_file(encode_utf8(path@)) && r is Ok ==> final(self).bytes() == old(self).replaced_bytes(
                encode_utf8(path@),
                data@,
            ),
            !old(self).has_file(encode_utf8(path@)) && r is Ok ==> old(self).create_ok(encode_utf8(path@)),
            !old(self).has_file(encode_utf8(path@)) && !old(self).create_ok(encode_utf8(path@)) ==> r is Err
                && *final(self) == *old(self),
    {
        let mut f = self.open_file(path, OpenFlags::from_bits_truncate(WRITE | TRUNCATE | CREATE))?;
        proof {
            assert((2u8 | 4u8 | 8u8) & 15u8 == 14u8) by (bit_vector);
            assert(14u8 & 2u8 == 2u8 && 14u8 & 4u8 == 4u8 && 14u8 & 8u8 == 8u8) by (bit_vector);
        }
        f.write(data)?;
        proof {
            assert(write_at_spec(Seq::<u8>::empty(), 0, data@) =~= data@);
        }
        f.flush(self)
    }

    /// Whether the file at `f` can be renamed to `t`: `t` holds no backslash and fits a 32-bit
    /// length, and the new archive keeps its offsets within 32 bits.
    pub open spec fn rename_ok(&self, f: Seq<u8>, t: Seq<u8>) -> bool {
        &&& !has_backslash(t)
        &&& t.len() <= u32::MAX
        &&& fits(self.version_spec(), renamed_plain(self.version_spec(), self.plain(), pos_of(self.held(), f), t))
    }

    /// The bytes of the archive after the file at `f` was renamed to `t`.
    pub open spec fn renamed_bytes(&self, f: Seq<u8>, t: Seq<u8>) -> Seq<u8> {
        encode_archive(
            self.version_spec(),
            self.base_magic_spec(),
            renamed_plain(self.version_spec(), self.plain(), pos_of(self.held(), f), t),
            renamed_magics(self.version_spec(), self.plain(), magics_of(self.held()), pos_of(self.held(), f), t),
        )
    }

    /// Renames the file at `from` to `to`; in a version 1 or 2 archive a file whose path changes
    /// length moves to the end of the archive.
    #[verifier::rlimit(80)]
    pub fn rename(&mut self, from: &str, to: &str) -> (r: Result<(), Error>)
        requires
            old(self).wf(),
        ensures
            final(self).wf(),
            ({
                let f = encode_utf8(from@);
                let t = encode_utf8(to@);
                &&& old(self).has_dir(f) ==> r == Err::<(), Error>(Error::NotSupported)
                &&& !old(self).has_dir(f) && (old(self).has_file(t) || old(self).has_dir(t))
                    ==> r == Err::<(), Error>(Error::IoError(IoErrorKind::AlreadyExists))
                &&& !old(self).has_dir(f) && !old(self).has_file(t) && !old(self).has_dir(t)
                    && (!old(self).has_dir(parent_dir(f)) || !old(self).has_file(f)) ==> r == Err::<(), Error>(Error::NotExist)
                &&& !old(self).has_dir(f) && !old(self).has_file(t) && !old(self).has_dir(t)
                    && old(self).has_dir(parent_dir(f)) && old(self).has_file(f) ==> (r is Ok <==> old(self).rename_ok(f, t))
                &&& r is Ok ==> final(self).bytes() == old(self).renamed_bytes(f, t)
                    && final(self).file_map() == old(self).file_map().remove(f).insert(t, old(self).file_map()[f])
                    && final(self).dirs() == old(self).dirs().union(ancestors(t, false))
                    && final(self).sizes_match()
                &&& r is Err ==> *final(self) == *old(self)
            }),
    {
        let ghost f = encode_utf8(from@);
        let ghost t = encode_utf8(to@);
        if self.trie.contains_dir(from) {
            return Err(Error::NotSupported);
        }
        if self.trie.contains(to) {
            return Err(Error::IoError(IoErrorKind::AlreadyExists));
        }
        let parent = parent_of(from.as_bytes());
        if !self.trie.contains_dir_bytes(parent.as_slice()) {
            return Err(Error::NotExist);
        }
        if !self.trie.contains_file(from) {
            return Err(Error::NotExist);
        }
        let tb = to.as_bytes();
        if holds_backslash(tb) {
            return Err(Error::NotSupported);
        }
        proof {
            self.lemma_sound();
        }
        let (mut files, mut magics) = self.held_files()?;
        proof {
            self.lemma_file_map_plain();
        }
        let ghost pl = self.plain();
        let ghost l = self.held();
        let ghost ms = magics_of(l);
        if tb.len() > 0xffff_ffff {
            return Err(Error::IoError(IoErrorKind::InvalidData));
        }
        let i = match find(&files, from.as_bytes()) {
            Some(i) => i,
            None => {
                proof {
                    assert(self.has_file(f));
                    assert(listed(pl, f));
                    let k = choose|k: int| 0 <= k < pl.len() && #[trigger] pl[k].0 == f;
                    assert(files_view(files@)[k].0 == contents_view(files@)[k].0);
                }
                return Err(Error::IoError(IoErrorKind::InvalidData));
            },
        };
        proof {
            assert(files_view(files@)[i as int].0 == pl[i as int].0);
            lemma_unique_position(pl, i as int, f);
            lemma_unique_position(l, i as int, f);
            assert(t.len() > 0) by {
                if t.len() == 0 {
                    assert(self.has_dir(t));
                }
            }
            assert(!listed(pl, t)) by {
                assert(!self.has_file(t));
            }
        }
        let ghost saved = *self;
        let ghost c = pl[i as int].1;
        let ghost x = (t, c);
        let (name, contents) = files.remove(i);
        let from_len = name.as_str().as_bytes().len();
        assert(from_len == pl[i as int].0.len());
        if self.version != 3 && from_len != tb.len() {
            let m = magics.remove(i);
            files.push((to.to_owned(), contents));
            magics.push(m);
            proof {
                assert(contents_view(files@) =~= pl.remove(i as int).push(x));
                lemma_good_remove(pl, i as int);
                lemma_good_push(pl.remove(i as int), x);
                lemma_list_map_remove(pl, i as int);
                assert(!listed(pl.remove(i as int), t)) by {
                    assert(!list_map(pl.remove(i as int)).dom().contains(t));
                }
                lemma_list_map_push(pl.remove(i as int), x);
            }
        } else {
            files.insert(i, (to.to_owned(), contents));
            proof {
                assert(contents_view(files@) =~= pl.update(i as int, x));
                lemma_good_update(pl, i as int, x);
                lemma_list_map_replace(pl, i as int, x);
            }
        }
        proof {
            assert(magics@ == renamed_magics(self.version, pl, ms, i as int, t));
            assert(contents_view(files@) == renamed_plain(self.version, pl, i as int, t));
            assert(list_map(contents_view(files@)) == list_map(pl).remove(f).insert(t, c));
            assert(list_map(pl)[f] == c);
        }
        if !self.fits_check(&files, &magics) {
            return Err(Error::IoError(IoErrorKind::InvalidData));
        }
        let ghost before_trie = self.trie.file_list();
        proof {
            self.trie.lemma_wf();
            self.lemma_dirs_above_files(pl);
        }
        self.trie.remove_file(from);
        proof {
            let j = pos_of(before_trie, f);
            lemma_unique_position(before_trie, j, f);
            lemma_list_map_remove(before_trie, j);
            assert forall|q: Seq<u8>| listed(self.trie.file_list(), q) implies listed(contents_view(files@), q) by {
                assert(list_map(self.trie.file_list()).dom().contains(q));
                assert(listed(before_trie, q) && q != f);
                assert(saved.has_file(q));
                assert(list_map(pl).remove(f).insert(t, c).dom().contains(q));
                assert(list_map(contents_view(files@)).dom().contains(q));
            }
            let np = contents_view(files@);
            assert forall|d: Seq<u8>| saved.dirs().union(dirs_above(np)).contains(d) == saved.dirs().union(ancestors(t, false)).contains(d) by {
                if dirs_above(np).contains(d) {
                    let k = choose|k: int| 0 <= k < np.len() && #[trigger] is_ancestor(d, np[k].0, false);
                    let q = np[k].0;
                    assert(listed(np, q));
                    assert(list_map(np).dom().contains(q));
                    if q != t {
                        assert(listed(pl, q));
                        let k2 = choose|k2: int| 0 <= k2 < pl.len() && #[trigger] pl[k2].0 == q;
                        assert(dirs_above(pl).contains(d));
                    }
                }
                if is_ancestor(d, t, false) {
                    assert(listed(np, t)) by {
                        assert(list_map(np).dom().contains(t));
                    }
                    let k = choose|k: int| 0 <= k < np.len() && #[trigger] np[k].0 == t;
                    assert(dirs_above(np).contains(d));
                }
            }
            assert(saved.dirs().union(dirs_above(np)) =~= saved.dirs().union(ancestors(t, false)));
        }
        match self.rebuild(&files, &magics) {
            Ok(()) => Ok(()),
            Err(e) => {
                proof {
                    assert(false);
                }
                Err(e)
            },
        }
    }

    /// Creates a new archiver filesystem holding the given files, in order; a version 3 archive
    /// gets a random base magic value and a random magic value for each file.
    pub fn from_files(version: u8, files: &Vec<(String, Vec<u8>)>) -> (r: Result<FileSystem, Error>)
        ensures
            ({
                let cv = contents_view(files@);
                let ok_paths = forall|i: int| 0 <= i < cv.len() ==> !has_backslash(#[trigger] cv[i].0) && cv[i].0.len() > 0;
                &&& !(version == 1 || version == 2 || version == 3) ==> r == Err::<FileSystem, Error>(Error::NotSupported)
                &&& (version == 1 || version == 2 || version == 3) && (exists|i: int| 0 <= i < cv.len() && has_backslash(#[trigger] cv[i].0))
                    ==> r == Err::<FileSystem, Error>(Error::NotSupported)
                &&& (version == 1 || version == 2 || version == 3) && (forall|i: int| 0 <= i < cv.len() ==> !has_backslash(#[trigger] cv[i].0))
                    && (exists|i: int| 0 <= i < cv.len() && (#[trigger] cv[i]).0.len() == 0)
                    ==> r == Err::<FileSystem, Error>(Error::IoError(IoErrorKind::InvalidInput))
                &&& (version == 1 || version == 2 || version == 3) && ok_paths
                    && !unique_paths(cv) ==> r == Err::<FileSystem, Error>(Error::IoError(IoErrorKind::AlreadyExists))
                &&& (version == 1 || version == 2 || version == 3) && ok_paths
                    && unique_paths(cv) ==> (r is Ok <==> well_sized(cv) && fits(version, cv))
                &&& r matches Ok(fs) ==> {
                    &&& fs.wf()
                    &&& fs.version_spec() == version
                    &&& (exists|m: Seq<u32>| fs.bytes() == encode_archive(version, fs.base_magic_spec(), cv, m))
                    &&& version != 3 ==> fs.base_magic_spec() == MAGIC
                    &&& fs.file_map() == list_map(cv)
                    &&& fs.dirs() == dirs_above(cv)
                    &&& fs.plain() == cv
                    &&& fs.sizes_match()
                }
            }),
    {
        let ghost cv = contents_view(files@);
        if !(version == 1 || version == 2 || version == 3) {
            return Err(Error::NotSupported);
        }
        let mut i: usize = 0;
        while i < files.len()
            invariant
                cv == contents_view(files@),
                i <= files@.len(),
                version == 1 || version == 2 || version == 3,
                forall|k: int| 0 <= k < i ==> !has_backslash(#[trigger] cv[k].0),
            decreases files@.len() - i,
        {
            if holds_backslash(files[i].0.as_str().as_bytes()) {
                assert(has_backslash(cv[i as int].0));
                return Err(Error::NotSupported);
            }
            i += 1;
        }
        let mut i: usize = 0;
        while i < files.len()
            invariant
                cv == contents_view(files@),
                i <= files@.len(),
                version == 1 || version == 2 || version == 3,
                forall|k: int| 0 <= k < cv.len() ==> !has_backslash(#[trigger] cv[k].0),
                forall|k: int| 0 <= k < i ==> (#[trigger] cv[k]).0.len() > 0,
            decreases files@.len() - i,
        {
            if files[i].0.as_str().as_bytes().len() == 0 {
                assert(cv[i as int].0.len() == 0);
                return Err(Error::IoError(IoErrorKind::InvalidInput));
            }
            i += 1;
        }
        let mut i: usize = 0;
        while i < files.len()
            invariant
                cv == contents_view(files@),
                i <= files@.len(),
                version == 1 || version == 2 || version == 3,
                forall|k: int| 0 <= k < cv.len() ==> !has_backslash(#[trigger] cv[k].0),
                forall|k: int| 0 <= k < cv.len() ==> (#[trigger] cv[k]).0.len() > 0,
                forall|a: int, b: int| 0 <= a < i && 0 <= b < i && a != b ==> #[trigger] cv[a].0 != #[trigger] cv[b].0,
            decreases files@.len() - i,
        {
            let mut j: usize = 0;
            while j < i
                invariant
                    cv == contents_view(files@),
                    version == 1 || version == 2 || version == 3,
                    forall|k: int| 0 <= k < cv.len() ==> !has_backslash(#[trigger] cv[k].0),
                    forall|k: int| 0 <= k < cv.len() ==> (#[trigger] cv[k]).0.len() > 0,
                    j <= i < files@.len(),
                    forall|m: int| 0 <= m < j ==> cv[m].0 != cv[i as int].0,
                decreases i - j,
            {
                if bytes_eq(files[j].0.as_str().as_bytes(), files[i].0.as_str().as_bytes()) {
                    assert(cv[j as int].0 == cv[i as int].0);
                    return Err(Error::IoError(IoErrorKind::AlreadyExists));
                }
                j += 1;
            }
            i += 1;
        }
        if !sized_ok(files) {
            return Err(Error::IoError(IoErrorKind::InvalidData));
        }
        let base_magic: u32 = if version == 3 { random_u32() } else { MAGIC };
        let mut magics: Vec<u32> = Vec::new();
        let mut k: usize = 0;
        while k < files.len()
            invariant
                k <= files@.len(),
                magics@.len() == k,
            decreases files@.len() - k,
        {
            let m: u32 = if version == 3 { random_u32() } else { 0 };
            magics.push(m);
            k += 1;
        }
        let mut fs = FileSystem { trie: FileSystemTrie::new(), archive: Vec::new(), version, base_magic };
        if !fs.fits_check(files, &magics) {
            return Err(Error::IoError(IoErrorKind::InvalidData));
        }
        proof {
            assert(Set::<Seq<u8>>::empty().union(dirs_above(cv)) =~= dirs_above(cv));
        }
        match fs.rebuild(files, &magics) {
            Ok(()) => {
                assert(fs.bytes() == encode_archive(version, fs.base_magic_spec(), cv, magics@));
                Ok(fs)
            },
            Err(e) => {
                proof {
                    assert(false);
                }
                Err(e)
            },
        }
    }

    /// Removes the directory at the given path with everything inside it.
    #[verifier::rlimit(60)]
    pub fn remove_dir(&mut self, path: &str) -> (r: Result<(), Error>)
        requires
            old(self).wf(),
        ensures
            final(self).wf(),
            !old(self).has_dir(encode_utf8(path@)) ==> r == Err::<(), Error>(Error::NotExist) && *final(self) == *old(self),
            old(self).has_dir(encode_utf8(path@)) && fits(old(self).version_spec(), old(self).plain()) ==> r is Ok,
            r is Err ==> final(self).dirs() == old(self).dirs()
                && (forall|q: Seq<u8>| #[trigger] final(self).file_map().contains_key(q) ==> old(self).file_map().contains_key(q)
                    && final(self).file_map()[q] == old(self).file_map()[q])
                && (forall|q: Seq<u8>| #[trigger] old(self).file_map().contains_key(q) && !is_within(q, encode_utf8(path@))
                    ==> final(self).file_map().contains_key(q)),
            r is Ok ==> old(self).has_dir(encode_utf8(path@))
                && final(self).file_map() == old(self).file_map().remove_keys(
                    Set::new(|q: Seq<u8>| is_within(q, encode_utf8(path@))),
                )
                && final(self).dirs() == Set::new(
                    |d: Seq<u8>| old(self).dirs().contains(d) && !is_within(d, encode_utf8(path@)),
                ),
    {
        let ghost p = encode_utf8(path@);
        let ghost gone = Set::new(|q: Seq<u8>| is_within(q, p));
        if !self.trie.contains_dir(path) {
            return Err(Error::NotExist);
        }
        assert(old(self).has_dir(p));
        let mut names: Vec<String> = Vec::new();
        match self.trie.iter_prefix(path) {
            Some(inner) => {
                let mut k: usize = 0;
                while k < inner.len()
                    invariant
                        k <= inner@.len(),
                        names@.len() == k,
                        forall|j: int| 0 <= j < k ==> #[trigger] names@[j]@ == inner@[j].0@,
                    decreases inner@.len() - k,
                {
                    names.push(inner[k].0.clone());
                    k += 1;
                }
            },
            None => {},
        }
        let ghost m0 = self.file_map();
        let ghost d0 = self.dirs();
        let ghost fl = self.trie.file_list();
        let ghost pred = |x: (Seq<u8>, Entry)| crate::trie::is_inside(x.0, p);
        let ghost inside = fl.filter(pred);
        proof {
            self.trie.lemma_wf();
            crate::trie::lemma_filter_subseq(fl, pred);
            assert(d0.contains(p) || p.len() == 0);
        }
        let mut k: usize = 0;
        assert(m0.remove_keys(Set::new(|q: Seq<u8>| exists|j: int| 0 <= j < 0 && encode_utf8(#[trigger] names@[j]@) == q)) =~= m0);
        while k < names.len()
            invariant
                self.wf(),
                old(self).has_dir(p),
                p == encode_utf8(path@),
                self.dirs() == d0,
                d0.contains(p) || p.len() == 0,
                k <= names@.len(),
                names@.len() == inside.len(),
                forall|j: int| 0 <= j < names@.len() ==> encode_utf8(#[trigger] names@[j]@) == inside[j].0,
                self.file_map() == m0.remove_keys(Set::new(|q: Seq<u8>| exists|j: int| 0 <= j < k && encode_utf8(#[trigger] names@[j]@) == q)),
                forall|j: int| 0 <= j < names@.len() ==> is_within(encode_utf8(#[trigger] names@[j]@), p),
                self.version_spec() == old(self).version_spec(),
                fits(old(self).version_spec(), old(self).plain()) ==> fits(self.version_spec(), self.plain()),
                m0 == old(self).file_map(),
                d0 == old(self).dirs(),
            decreases names@.len() - k,
        {
            let ghost q = encode_utf8(names@[k as int]@);
            let ghost rk = Set::new(|x: Seq<u8>| exists|j: int| 0 <= j < k && encode_utf8(#[trigger] names@[j]@) == x);
            let ghost rk1 = Set::new(|x: Seq<u8>| exists|j: int| 0 <= j < k + 1 && encode_utf8(#[trigger] names@[j]@) == x);
            if self.trie.contains_file(names[k].as_str()) {
                proof {
                    self.lemma_removal_fits(q);
                }
                self.remove_file(names[k].as_str())?;
            }
            proof {
                assert forall|x: Seq<u8>| #[trigger] rk1.contains(x) == (rk.contains(x) || x == q) by {
                    if x == q {
                        assert(encode_utf8(names@[k as int]@) == x);
                    }
                    if rk1.contains(x) {
                        let j = choose|j: int| 0 <= j < k + 1 && encode_utf8(#[trigger] names@[j]@) == x;
                        if j < k {
                            assert(rk.contains(x));
                        }
                    }
                }
                assert(self.file_map() =~= m0.remove_keys(rk1));
            }
            k += 1;
        }
        let ghost rall = Set::new(|q: Seq<u8>| exists|j: int| 0 <= j < names@.len() && encode_utf8(#[trigger] names@[j]@) == q);
        assert(self.file_map() == m0.remove_keys(rall));
        let ghost m_mid = self.file_map();
        if self.trie.contains_file(path) {
            proof {
                self.lemma_removal_fits(p);
            }
            self.remove_file(path)?;
        }
        proof {
            assert forall|x: Seq<u8>| m0.dom().contains(x) implies (#[trigger] rall.contains(x) <==> crate::trie::is_inside(x, p)) by {
                if crate::trie::is_inside(x, p) {
                    let i = choose|i: int| 0 <= i < fl.len() && #[trigger] fl[i].0 == x;
                    assert(pred(fl[i]));
                    fl.lemma_filter_contains(pred, i);
                    let j = choose|j: int| 0 <= j < inside.len() && inside[j] == fl[i];
                    assert(encode_utf8(names@[j]@) == x);
                }
                if rall.contains(x) {
                    let j = choose|j: int| 0 <= j < names@.len() && encode_utf8(#[trigger] names@[j]@) == x;
                    assert(pred(inside[j]));
                }
            }
            assert(self.file_map() =~= m0.remove_keys(gone));
            self.trie.lemma_wf();
            let fl2 = self.trie.file_list();
            assert forall|i: int| 0 <= i < fl2.len() implies (|x: (Seq<u8>, Entry)| !is_within(x.0, p))(#[trigger] fl2[i]) by {
                assert(self.has_file(fl2[i].0));
                assert(self.file_map().dom().contains(fl2[i].0));
            }
            lemma_filter_all(fl2, |x: (Seq<u8>, Entry)| !is_within(x.0, p));
        }
        let _ = self.trie.remove_dir(path);
        Ok(())
    }

    /// Lists the children of the directory at the given path, each with its metadata.
    pub fn read_dir(&self, path: &str) -> (r: Result<Vec<DirEntry>, Error>)
        requires
            self.wf(),
        ensures
            r is Ok <==> self.has_dir(encode_utf8(path@)),
            r matches Err(e) ==> e == Error::NotExist,
            r matches Ok(v) ==> {
                &&& v@.len() == self.child_names(encode_utf8(path@)).len()
                &&& forall|n: Seq<u8>| #[trigger] self.child_names(encode_utf8(path@)).contains(n) ==> exists|k: int|
                    0 <= k < v@.len() && encode_utf8(v@[k].path@) == join(encode_utf8(path@), n)
                &&& forall|k: int| 0 <= k < v@.len() ==> {
                    let c = encode_utf8((#[trigger] v@[k]).path@);
                    &&& exists|n: Seq<u8>| self.child_names(encode_utf8(path@)).contains(n) && c == join(encode_utf8(path@), n)
                    &&& v@[k].metadata == if self.has_file(c) {
                        Metadata { is_file: true, size: value_at(self.entries(), c).size }
                    } else {
                        Metadata { is_file: false, size: self.child_names(c).len() as u64 }
                    }
                }
            },
    {
        let p = path.as_bytes();
        proof {
            assert(self.child_names(p@) =~= self.trie.child_names(p@));
        }
        let children = match self.trie.iter_dir(path) {
            Some(c) => c,
            None => {
                return Err(Error::NotExist);
            },
        };
        let mut out: Vec<DirEntry> = Vec::new();
        let mut k: usize = 0;
        while k < children.len()
            invariant
                self.wf(),
                p@ == encode_utf8(path@),
                self.child_names(p@) == self.trie.child_names(p@),
                str_names(children@) == self.child_names(p@),
                k <= children@.len(),
                out@.len() == k,
                forall|j: int| 0 <= j < k ==> encode_utf8((#[trigger] out@[j]).path@) == join(p@, encode_utf8(children@[j].0@)),
                forall|j: int| 0 <= j < k ==> {
                    let c = encode_utf8((#[trigger] out@[j]).path@);
                    out@[j].metadata == if self.has_file(c) {
                        Metadata { is_file: true, size: value_at(self.entries(), c).size }
                    } else {
                        Metadata { is_file: false, size: self.child_names(c).len() as u64 }
                    }
                },
            decreases children@.len() - k,
        {
            let name = children[k].0.as_str().as_bytes();
            let ghost n = name@;
            assert(str_names(children@).contains(n));
            let cb = join_path(p, name);
            proof {
                let q = choose|q: Seq<u8>| (self.dirs().contains(q) || listed(self.entries(), q)) && #[trigger] is_child(q, p@)
                    && child_name(q, p@) == n;
                assert(valid_utf8(q)) by {
                    if self.dirs().contains(q) {
                        self.trie.lemma_wf();
                    } else {
                        let i = choose|i: int| 0 <= i < self.entries().len() && #[trigger] self.entries()[i].0 == q;
                        self.trie.lemma_wf();
                        assert(valid_utf8(self.trie.file_list()[i].0));
                    }
                }
                lemma_child_name_utf8(q, p@);
                assert(cb@ == q);
            }
            let cs = match string_from_utf8(cb) {
                Some(s) => s,
                None => {
                    return Err(Error::NotExist);
                },
            };
            let md = match self.metadata(cs.as_str()) {
                Ok(m) => m,
                Err(_) => {
                    return Err(Error::NotExist);
                },
            };
            let ghost before = out@;
            out.push(DirEntry { path: cs, metadata: md });
            proof {
                assert forall|j: int| 0 <= j < k implies #[trigger] out@[j] == before[j] by {}
            }
            k += 1;
        }
        proof {
            assert forall|j: int| 0 <= j < out@.len() implies exists|n: Seq<u8>| self.child_names(encode_utf8(path@)).contains(n)
                && encode_utf8((#[trigger] out@[j]).path@) == join(encode_utf8(path@), n) by {
                let n = encode_utf8(children@[j].0@);
                assert(str_names(children@).contains(n));
            }
            let ns = Seq::new(children@.len(), |k: int| encode_utf8(children@[k].0@));
            assert(ns.no_duplicates()) by {
                assert forall|a: int, b: int| 0 <= a < ns.len() && 0 <= b < ns.len() && a != b implies ns[a] != ns[b] by {
                    assert(encode_utf8(children@[a].0@) != encode_utf8(children@[b].0@));
                }
            }
            assert forall|n: Seq<u8>| #[trigger] ns.to_set().contains(n) == str_names(children@).contains(n) by {
                if str_names(children@).contains(n) {
                    let k = choose|k: int| 0 <= k < children@.len() && encode_utf8(#[trigger] children@[k].0@) == n;
                    assert(ns[k] == n);
                }
                if ns.to_set().contains(n) {
                    let k = choose|k: int| 0 <= k < ns.len() && ns[k] == n;
                    assert(encode_utf8(children@[k].0@) == n);
                }
            }
            assert(ns.to_set() =~= str_names(children@));
            ns.unique_seq_to_set();
            assert forall|n: Seq<u8>| #[trigger] self.child_names(encode_utf8(path@)).contains(n) implies exists|k: int|
                0 <= k < out@.len() && encode_utf8(out@[k].path@) == join(encode_utf8(path@), n) by {
                assert(str_names(children@).contains(n));
                let k = choose|k: int| 0 <= k < children@.len() && encode_utf8(#[trigger] children@[k].0@) == n;
                assert(encode_utf8(out@[k].path@) == join(p@, encode_utf8(children@[k].0@)));
            }
        }
        Ok(out)
    }

    /// Opens a file for writing, creating it empty if it does not exist.
    pub fn create_file(&mut self, path: &str) -> (r: Result<File, Error>)
        requires
            old(self).wf(),
        ensures
            final(self).wf(),
            !old(self).has_file(encode_utf8(path@)) ==> (r is Ok <==> old(self).create_ok(encode_utf8(path@))),
            !old(self).has_file(encode_utf8(path@)) && r is Ok ==> final(self).file_map() == old(self).file_map().insert(
                encode_utf8(path@),
                Seq::<u8>::empty(),
            ),
            old(self).has_file(encode_utf8(path@)) ==> r is Ok && *final(self) == *old(self),
            r matches Ok(f) ==> f.path_spec() == encode_utf8(path@) && f.writable() && !f.readable() && f.position() == 0
                && !f.is_modified(),
    {
        let flags = OpenFlags::from_bits_truncate(CREATE | WRITE);
        proof {
            assert((8u8 | 2u8) & 15u8 == 10u8) by (bit_vector);
            assert(10u8 & 2u8 == 2u8 && 10u8 & 8u8 == 8u8 && 10u8 & 1u8 != 1u8 && 10u8 & 4u8 != 4u8) by (bit_vector);
        }
        self.open_file(path, flags)
    }

    /// Removes the file or the directory at the given path.
    pub fn remove(&mut self, path: &str) -> (r: Result<(), Error>)
        requires
            old(self).wf(),
        ensures
            final(self).wf(),
            !old(self).has_file(encode_utf8(path@)) && !old(self).has_dir(encode_utf8(path@)) ==> r == Err::<(), Error>(
                Error::NotExist,
            ) && *final(self) == *old(self),
            r is Ok && old(self).has_file(encode_utf8(path@)) ==> final(self).file_map() == old(self).file_map().remove(
                encode_utf8(path@),
            ),
            r is Ok && !old(self).has_file(encode_utf8(path@)) ==> final(self).file_map() == old(self).file_map().remove_keys(
                Set::new(|q: Seq<u8>| is_within(q, encode_utf8(path@))),
            ),
    {
        let metadata = self.metadata(path)?;
        if metadata.is_file {
            self.remove_file(path)
        } else {
            self.remove_dir(path)
        }
    }

    /// Reads the whole file at the given path as UTF-8 text.
    pub fn read_to_string(&self, path: &str) -> (r: Result<String, Error>)
        requires
            self.wf(),
        ensures
            !self.has_file(encode_utf8(path@)) ==> r == Err::<String, Error>(Error::NotExist),
            self.has_file(encode_utf8(path@)) && !valid_utf8(self.file_map()[encode_utf8(path@)]) ==> r == Err::<
                String,
                Error,
            >(Error::Utf8Error),
            self.has_file(encode_utf8(path@)) && valid_utf8(self.file_map()[encode_utf8(path@)]) ==> (r matches Ok(s)
                && encode_utf8(s@) == self.file_map()[encode_utf8(path@)]),
    {
        let buf = self.read(path)?;
        match string_from_utf8(buf) {
            Some(s) => Ok(s),
            None => Err(Error::Utf8Error),
        }
    }
}

} // verus!
