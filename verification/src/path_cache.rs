//! A case-insensitive layer over a filesystem, as RPG Maker games expect: a path names the file
//! whose path has the same lowercase form, and when no such file exists, a file with that path
//! and any extension.
//!
//! The cache keys each path by its lowercase form without extension, followed by `/` and a NUL
//! character, in a `FileSystemTrie`; under each key, a trie of the lowercase extensions gives
//! the key of a node in a cactus stack. Following the `next` keys from a node gives the
//! components of the actual path, last one first. Paths use `/` as their separator.
use vstd::prelude::*;
use vstd::utf8::*;

use qp_trie::wrapper::BString;
use qp_trie::Trie;

use crate::paths::{components_of, strip_prefix_of, lowercase, opt_chars, path_components, path_extension, path_file_name, path_file_stem, path_join, path_parent, path_strip_prefix, with_extension, lowercase_of, extension_of, with_extension_of};
use crate::{DirEntry, Error, Metadata, OpenFlags, CREATE};
use crate::paths::{file_name_of, file_stem_of};
use crate::trie::{ancestors, is_ancestor, is_inside, is_within, list_map, listed, value_at, lemma_list_map_push, lemma_list_map_update, set_value, FileSystemTrie};

verus! {

broadcast use group_utf8_lib;

#[verifier::external_type_specification]
#[verifier::external_body]
#[verifier::reject_recursive_types(T)]
pub struct ExSlab<T>(slab::Slab<T>);

#[verifier::external_type_specification]
#[verifier::external_body]
#[verifier::reject_recursive_types(K)]
#[verifier::reject_recursive_types(V)]
pub struct ExTrie<K, V>(qp_trie::Trie<K, V>);

#[verifier::external_type_specification]
#[verifier::external_body]
pub struct ExBString(qp_trie::wrapper::BString);

/// A node of the cactus stack: a path component, the key of the node of the component before
/// it, and the number of components up to and including this one.
#[derive(Clone, Debug)]
pub struct CactusNode {
    pub value: String,
    pub next: Option<usize>,
    pub len: usize,
}

/// A node as plain values.
pub open spec fn node_view(n: CactusNode) -> (Seq<char>, Option<usize>, usize) {
    (n.value@, n.next, n.len)
}

/// The nodes held by a cactus stack, by key.
pub uninterp spec fn cactus_nodes(s: slab::Slab<CactusNode>) -> Map<usize, (Seq<char>, Option<usize>, usize)>;

/// `slab::Slab::new`: a slab that holds nothing.
#[verifier::external_body]
fn cactus_new() -> (r: slab::Slab<CactusNode>)
    ensures
        cactus_nodes(r).dom() == Set::<usize>::empty(),
{
    slab::Slab::new()
}

/// `slab::Slab::get`: the node stored under `key`, if any.
#[verifier::external_body]
fn cactus_get(s: &slab::Slab<CactusNode>, key: usize) -> (r: Option<&CactusNode>)
    ensures
        r is Some <==> cactus_nodes(*s).contains_key(key),
        r matches Some(n) ==> node_view(*n) == cactus_nodes(*s)[key],
{
    s.get(key)
}

/// `slab::Slab::insert`: stores the node under a key that held nothing and returns that key.
/// The slab panics only when its storage would exceed `isize::MAX` bytes, which is left out here.
#[verifier::external_body]
fn cactus_insert(s: &mut slab::Slab<CactusNode>, node: CactusNode) -> (r: usize)
    ensures
        !cactus_nodes(*old(s)).contains_key(r),
        cactus_nodes(*final(s)) == cactus_nodes(*old(s)).insert(r, node_view(node)),
{
    s.insert(node)
}

/// `slab::Slab::try_remove`: removes the node stored under `key`, if any.
#[verifier::external_body]
fn cactus_remove(s: &mut slab::Slab<CactusNode>, key: usize)
    ensures
        cactus_nodes(*final(s)) == cactus_nodes(*old(s)).remove(key),
{
    s.try_remove(key);
}

/// The extensions held by an extension trie, each with the key of its node.
pub uninterp spec fn extension_entries(t: Trie<BString, usize>) -> Map<Seq<char>, usize>;

/// The nybble that a `qp_trie` branches on at position `n` of a key: the low and the high half
/// of each byte in turn, counted from 1, and 0 past the end of the key.
pub open spec fn nybble_at(n: int, s: Seq<u8>) -> int {
    if 0 <= n / 2 < s.len() {
        if n % 2 == 0 {
            1 + s[n / 2] % 16
        } else {
            1 + s[n / 2] / 16
        }
    } else {
        0
    }
}

/// Whether the key `a` comes before the key `b` in a `qp_trie`: at the first position where
/// their nybbles differ, that of `a` is smaller.
pub open spec fn trie_before(a: Seq<u8>, b: Seq<u8>) -> bool {
    exists|n: int|
        #![trigger nybble_at(n, a)]
        0 <= n && nybble_at(n, a) < nybble_at(n, b) && forall|m: int|
            0 <= m < n ==> #[trigger] nybble_at(m, a) == nybble_at(m, b)
}

/// Whether `k` is the first key of `m` in `qp_trie` order.
pub open spec fn is_first_key(m: Map<Seq<char>, usize>, k: Seq<char>) -> bool {
    &&& m.contains_key(k)
    &&& forall|k2: Seq<char>| #[trigger] m.contains_key(k2) && k2 != k ==> trie_before(encode_utf8(k), encode_utf8(k2))
}

/// `qp_trie::Trie::new`: a trie that holds nothing.
#[verifier::external_body]
fn extensions_new() -> (r: Trie<BString, usize>)
    ensures
        extension_entries(r).dom() == Set::<Seq<char>>::empty(),
{
    Trie::new()
}

/// `qp_trie::Trie::get_str`: the node key stored for the extension, if any.
#[verifier::external_body]
fn extension_get(t: &Trie<BString, usize>, ext: &str) -> (r: Option<usize>)
    ensures
        r == (if extension_entries(*t).contains_key(ext@) { Some(extension_entries(*t)[ext@]) } else { None }),
{
    t.get_str(ext).copied()
}

/// `qp_trie::Trie::insert_str`: stores the node key for the extension, replacing any other.
#[verifier::external_body]
fn extension_insert(t: &mut Trie<BString, usize>, ext: &str, value: usize)
    ensures
        extension_entries(*final(t)) == extension_entries(*old(t)).insert(ext@, value),
{
    t.insert_str(ext, value);
}

/// `qp_trie::Trie::remove_str`: removes the extension, if present.
#[verifier::external_body]
fn extension_remove(t: &mut Trie<BString, usize>, ext: &str)
    ensures
        extension_entries(*final(t)) == extension_entries(*old(t)).remove(ext@),
{
    t.remove_str(ext);
}

/// `qp_trie::Trie::is_empty`: whether the trie holds no extension.
#[verifier::external_body]
fn extensions_empty(t: &Trie<BString, usize>) -> (r: bool)
    ensures
        r <==> extension_entries(*t).dom() == Set::<Seq<char>>::empty(),
{
    t.is_empty()
}

/// `qp_trie::Trie::iter`, first item: the extension that comes first in the trie's order, with
/// its node key, if the trie holds any.
#[verifier::external_body]
fn extension_first(t: &Trie<BString, usize>) -> (r: Option<(String, usize)>)
    ensures
        r is None <==> extension_entries(*t).dom() == Set::<Seq<char>>::empty(),
        r matches Some(e) ==> is_first_key(extension_entries(*t), e.0@) && extension_entries(*t)[e.0@] == e.1,
{
    match t.iter().next() {
        Some((k, v)) => Some((String::from(k.as_str()), *v)),
        None => None,
    }
}

/// `qp_trie::Trie::values`: the node keys of all extensions.
#[verifier::external_body]
fn extension_values(t: &Trie<BString, usize>) -> (r: Vec<usize>)
    ensures
        forall|i: int| #![trigger r@[i]] 0 <= i < r@.len() ==> exists|k: Seq<char>|
            #![trigger extension_entries(*t)[k]] extension_entries(*t).contains_key(k) && extension_entries(*t)[k] == r@[i],
        forall|k: Seq<char>| #![trigger extension_entries(*t)[k]] extension_entries(*t).contains_key(k) ==> exists|i: int|
            #![trigger r@[i]] 0 <= i < r@.len() && r@[i] == extension_entries(*t)[k],
{
    t.values().copied().collect()
}

/// Two keys never both come first.
pub proof fn lemma_first_key_unique(m: Map<Seq<char>, usize>, a: Seq<char>, b: Seq<char>)
    requires
        is_first_key(m, a),
        is_first_key(m, b),
    ensures
        a == b,
{
    if a != b {
        let x = encode_utf8(a);
        let y = encode_utf8(b);
        assert(trie_before(x, y));
        assert(trie_before(y, x));
        let n1 = choose|n: int| #![trigger nybble_at(n, x)] 0 <= n && nybble_at(n, x) < nybble_at(n, y)
            && forall|m: int| 0 <= m < n ==> #[trigger] nybble_at(m, x) == nybble_at(m, y);
        let n2 = choose|n: int| #![trigger nybble_at(n, y)] 0 <= n && nybble_at(n, y) < nybble_at(n, x)
            && forall|m: int| 0 <= m < n ==> #[trigger] nybble_at(m, y) == nybble_at(m, x);
        if n1 < n2 {
            assert(nybble_at(n1, y) == nybble_at(n1, x));
        } else if n2 < n1 {
            assert(nybble_at(n2, x) == nybble_at(n2, y));
        }
    }
}

/// The value under the first key of `m` in `qp_trie` order.
pub open spec fn first_value(m: Map<Seq<char>, usize>) -> usize {
    m[choose|k: Seq<char>| is_first_key(m, k)]
}

/// The components met when following the nodes from `i`, at most `fuel` of them: the node's
/// own component first.
pub open spec fn walk(nodes: Map<usize, (Seq<char>, Option<usize>, usize)>, i: Option<usize>, fuel: nat) -> Seq<Seq<char>>
    decreases fuel,
{
    match i {
        Some(k) => if fuel == 0 || !nodes.contains_key(k) {
            seq![]
        } else {
            seq![nodes[k].0] + walk(nodes, nodes[k].1, (fuel - 1) as nat)
        },
        None => seq![],
    }
}

/// The components joined with `/`, the last one first.
pub open spec fn join_reversed(parts: Seq<Seq<char>>) -> Seq<char>
    decreases parts.len(),
{
    if parts.len() == 0 {
        seq![]
    } else if parts.len() == 1 {
        parts[0]
    } else {
        join_reversed(parts.drop_first()) + seq!['/'] + parts[0]
    }
}

/// The path that the node `i` stands for: its components, as many as its length says.
pub open spec fn path_of(nodes: Map<usize, (Seq<char>, Option<usize>, usize)>, i: usize) -> Seq<char> {
    if nodes.contains_key(i) {
        join_reversed(walk(nodes, Some(i), nodes[i].2 as nat))
    } else {
        seq![]
    }
}

/// The key under which the trie stores a path: the path followed by `/` and a NUL character, or
/// the NUL character alone for the empty path.
pub open spec fn suffixed(p: Seq<char>) -> Seq<char> {
    if p.len() == 0 {
        seq!['\0']
    } else {
        p + seq!['/', '\0']
    }
}

/// The key under which the trie stores a path.
pub fn with_trie_suffix(p: &str) -> (r: String)
    ensures
        r@ == suffixed(p@),
{
    if p.is_empty() {
        proof {
            reveal_strlit("\0");
        }
        String::from_str("\0")
    } else {
        proof {
            reveal_strlit("/\0");
        }
        String::from_str(p).concat("/\0")
    }
}

/// Joins the components with `/`, the last one first.
fn join_components_reversed(parts: &Vec<String>) -> (r: String)
    ensures
        r@ == join_reversed(parts@.map_values(|s: String| s@)),
{
    let ghost v = parts@.map_values(|s: String| s@);
    let mut out = String::new();
    let mut k = parts.len();
    while k > 0
        invariant
            k <= parts@.len(),
            v == parts@.map_values(|s: String| s@),
            out@ == join_reversed(v.subrange(k as int, v.len() as int)),
        decreases k,
    {
        k -= 1;
        let ghost before = v.subrange(k + 1, v.len() as int);
        let ghost now = v.subrange(k as int, v.len() as int);
        assert(now.drop_first() =~= before);
        if k + 1 < parts.len() {
            proof {
                reveal_strlit("/");
            }
            out.append("/");
        }
        out.append(parts[k].as_str());
        assert(now[0] == v[k as int]);
    }
    assert(v.subrange(0, v.len() as int) =~= v);
    out
}

/// The node keys held by the extension tries of the first `upto` items of `ts`.
pub open spec fn node_keys(ts: Seq<(Seq<u8>, Trie<BString, usize>)>, upto: int) -> Set<usize> {
    Set::new(|n: usize| exists|k: int| 0 <= k < upto && #[trigger] extension_entries(ts[k].1).contains_value(n))
}

/// The items of `ts` whose keys are inside the directory `dir`.
pub open spec fn inside_of(ts: Seq<(Seq<u8>, Trie<BString, usize>)>, dir: Seq<u8>) -> Seq<(Seq<u8>, Trie<BString, usize>)> {
    ts.filter(|x: (Seq<u8>, Trie<BString, usize>)| is_inside(x.0, dir))
}

/// Whether `b` is the cache `a` after the extension `e` of the path `k` was forgotten: the node
/// of the extension goes, the extension goes from the extension trie of `k`, and when that trie
/// is left empty, the directory `k` goes with everything in it.
pub open spec fn forgot_extension(a: Cache, b: Cache, k: Seq<char>, e: Seq<char>) -> bool {
    let kb = encode_utf8(suffixed(k));
    let m = extension_entries(value_at(a.files(), kb));
    &&& b.nodes() == a.nodes().remove(m[e])
    &&& exists|t: Trie<BString, usize>| #[trigger] extension_entries(t) == m.remove(e) && b.files() == (
        if m.remove(e).dom() == Set::<Seq<char>>::empty() && a.has_dir(encode_utf8(k)) {
            set_value(a.files(), kb, t).filter(|x: (Seq<u8>, Trie<BString, usize>)| !is_within(x.0, encode_utf8(k)))
        } else {
            set_value(a.files(), kb, t)
        })
}

/// The extension, or the empty string when there is none.
pub open spec fn or_empty(o: Option<Seq<char>>) -> Seq<char> {
    match o {
        Some(e) => e,
        None => seq![],
    }
}

/// The first key of `m` in `qp_trie` order.
pub open spec fn first_key(m: Map<Seq<char>, usize>) -> Seq<char> {
    choose|k: Seq<char>| is_first_key(m, k)
}

/// Whether `b` is the cache `a` after the file `p` was removed: the extension of `p` is
/// forgotten under its lowercase path without extension when the cache holds it there; else
/// the first extension under its whole lowercase path, if any.
pub open spec fn forgot_file(a: Cache, b: Cache, p: Seq<char>) -> bool {
    let lower = lowercase_of(p);
    let ext = or_empty(extension_of(lower));
    let stem = with_extension_of(lower, seq![]);
    match a.extensions_at(stem) {
        Some(m) if m.contains_key(ext) => forgot_extension(a, b, stem, ext),
        _ => match a.extensions_at(lower) {
            Some(m) => if m.dom() != Set::<Seq<char>>::empty() {
                forgot_extension(a, b, lower, first_key(m))
            } else {
                &&& b.nodes() == a.nodes()
                &&& b.files() == (if a.has_dir(encode_utf8(lower)) {
                    a.files().filter(|x: (Seq<u8>, Trie<BString, usize>)| !is_within(x.0, encode_utf8(lower)))
                } else {
                    a.files()
                })
            },
            None => b == a,
        },
    }
}

/// Whether `b` is the cache `a` after the directory `d` was forgotten with everything in it and
/// the nodes of the extension tries inside it; nothing changes when the trie has no such
/// directory.
pub open spec fn forgot_dir(a: Cache, b: Cache, d: Seq<char>) -> bool {
    let db = encode_utf8(d);
    if a.has_dir(db) {
        &&& b.files() == a.files().filter(|x: (Seq<u8>, Trie<BString, usize>)| !is_within(x.0, db))
        &&& b.nodes() == a.nodes().remove_keys(node_keys(inside_of(a.files(), db), inside_of(a.files(), db).len() as int))
    } else {
        b == a
    }
}

/// The parts joined with `/`.
pub open spec fn join_slash(parts: Seq<Seq<char>>) -> Seq<char>
    decreases parts.len(),
{
    if parts.len() == 0 {
        seq![]
    } else if parts.len() == 1 {
        parts[0]
    } else {
        join_slash(parts.drop_last()) + seq!['/'] + parts.last()
    }
}

/// The path at which a directory is made for `path`, given the actual path of its longest
/// known ancestor: `path` itself when none is known, else that actual path followed by the
/// components of `path` past it.
pub open spec fn create_target(actual_prefix: Seq<char>, path: Seq<char>) -> Seq<char> {
    let len = components_of(actual_prefix).len();
    let comps = components_of(path);
    if len == 0 {
        path
    } else if len >= comps.len() {
        actual_prefix
    } else {
        join_slash(seq![actual_prefix] + comps.subrange(len as int, comps.len() as int))
    }
}

/// The lowercase form of a path.
pub fn to_lowercase(p: &str) -> (r: String)
    ensures
        r@ == lowercase_of(p@),
{
    lowercase(p)
}

/// The path at which a directory is made for `path`, given the actual path of its longest
/// known ancestor.
pub fn create_target_path(actual_prefix: &str, path: &str) -> (r: String)
    ensures
        r@ == create_target(actual_prefix@, path@),
{
    let len = path_components(actual_prefix).len();
    if len == 0 {
        return String::from_str(path);
    }
    let comps = path_components(path);
    if len >= comps.len() {
        return String::from_str(actual_prefix);
    }
    let ghost parts = seq![actual_prefix@] + components_of(path@).subrange(len as int, comps@.len() as int);
    let mut out = String::from_str(actual_prefix);
    let mut i = len;
    assert(parts.subrange(0, 1) =~= seq![actual_prefix@]);
    while i < comps.len()
        invariant
            len <= i <= comps@.len(),
            comps@.len() == components_of(path@).len(),
            forall|k: int| 0 <= k < comps@.len() ==> #[trigger] comps@[k]@ == components_of(path@)[k],
            parts == seq![actual_prefix@] + components_of(path@).subrange(len as int, comps@.len() as int),
            out@ == join_slash(parts.subrange(0, i - len + 1)),
        decreases comps@.len() - i,
    {
        proof {
            reveal_strlit("/");
        }
        let ghost before = parts.subrange(0, i - len + 1);
        out.append("/");
        out.append(comps[i].as_str());
        proof {
            let now = parts.subrange(0, i - len + 2);
            assert(now.drop_last() =~= before);
            assert(now.last() == comps@[i as int]@);
        }
        i += 1;
    }
    assert(parts.subrange(0, parts.len() as int) =~= parts);
    out
}

/// `v` with the node `i` stored for the extension `e` under the key `k`.
pub open spec fn with_slot(v: Map<Seq<u8>, Map<Seq<char>, usize>>, k: Seq<u8>, e: Seq<char>, i: usize) -> Map<Seq<u8>, Map<Seq<char>, usize>> {
    v.insert(k, (if v.contains_key(k) { v[k] } else { Map::<Seq<char>, usize>::empty() }).insert(e, i))
}

/// Where a listed entry is stored below the directory whose key path is `lower`: under the key of
/// `lower` joined with the entry's lowercase stem, for the entry's lowercase extension; with the
/// entry's name and lowercase stem. None when the entry has no file name.
pub open spec fn entry_slot(lower: Seq<char>, e: DirEntry) -> Option<(Seq<u8>, Seq<char>, Seq<char>, Seq<char>)> {
    match file_name_of(e.path@) {
        None => None,
        Some(name) => {
            let stem = lowercase_of(
                match file_stem_of(name) {
                    Some(s) => s,
                    None => name,
                },
            );
            let ext = lowercase_of(or_empty(extension_of(name)));
            let path = if lower.len() == 0 { stem } else { lower + seq!['/'] + stem };
            Some((encode_utf8(suffixed(path)), ext, name, stem))
        },
    }
}

/// The extensions after the entries were stored one after the other, entry `j` as the node
/// `ids[j]`.
pub open spec fn stored_view(
    v: Map<Seq<u8>, Map<Seq<char>, usize>>,
    lower: Seq<char>,
    entries: Seq<DirEntry>,
    ids: Seq<usize>,
) -> Map<Seq<u8>, Map<Seq<char>, usize>>
    decreases entries.len(),
{
    if entries.len() == 0 {
        v
    } else {
        let prev = stored_view(v, lower, entries.drop_last(), ids.subrange(0, entries.len() - 1));
        match entry_slot(lower, entries.last()) {
            Some(s) => with_slot(prev, s.0, s.1, ids[entries.len() - 1]),
            None => prev,
        }
    }
}

/// The nodes after the entries were stored, entry `j` as the node `ids[j]`, each after `parent`
/// and of length `len`.
pub open spec fn stored_nodes(
    n: Map<usize, (Seq<char>, Option<usize>, usize)>,
    lower: Seq<char>,
    entries: Seq<DirEntry>,
    ids: Seq<usize>,
    parent: Option<usize>,
    len: usize,
) -> Map<usize, (Seq<char>, Option<usize>, usize)>
    decreases entries.len(),
{
    if entries.len() == 0 {
        n
    } else {
        let prev = stored_nodes(n, lower, entries.drop_last(), ids.subrange(0, entries.len() - 1), parent, len);
        match entry_slot(lower, entries.last()) {
            Some(s) => prev.insert(ids[entries.len() - 1], (s.2, parent, len)),
            None => prev,
        }
    }
}

/// The directories after the entries were stored: those above each entry's key.
pub open spec fn stored_dirs(d: Set<Seq<u8>>, lower: Seq<char>, entries: Seq<DirEntry>) -> Set<Seq<u8>>
    decreases entries.len(),
{
    if entries.len() == 0 {
        d
    } else {
        let prev = stored_dirs(d, lower, entries.drop_last());
        match entry_slot(lower, entries.last()) {
            Some(s) => prev.union(ancestors(s.0, false)),
            None => prev,
        }
    }
}

/// Each stored entry got a node key that was free when it was stored.
pub open spec fn fresh_ids(
    n: Map<usize, (Seq<char>, Option<usize>, usize)>,
    lower: Seq<char>,
    entries: Seq<DirEntry>,
    ids: Seq<usize>,
    parent: Option<usize>,
    len: usize,
) -> bool {
    forall|j: int| 0 <= j < entries.len() && #[trigger] entry_slot(lower, entries[j]) is Some ==> !stored_nodes(
        n,
        lower,
        entries.take(j),
        ids.take(j),
        parent,
        len,
    ).contains_key(ids[j])
}

/// The name and the node of the last stored entry whose lowercase stem is `name`.
pub open spec fn listing_match(lower: Seq<char>, entries: Seq<DirEntry>, ids: Seq<usize>, name: Seq<char>) -> Option<(Seq<char>, usize)>
    decreases entries.len(),
{
    if entries.len() == 0 {
        None
    } else {
        let prev = listing_match(lower, entries.drop_last(), ids.subrange(0, entries.len() - 1), name);
        match entry_slot(lower, entries.last()) {
            Some(s) => if s.3 == name {
                Some((s.2, ids[entries.len() - 1]))
            } else {
                prev
            },
            None => prev,
        }
    }
}

/// The key path below `lower` of the entry whose lowercase stem is `stem`.
pub open spec fn key_path(lower: Seq<char>, stem: Seq<char>) -> Seq<char> {
    if lower.len() == 0 { stem } else { lower + seq!['/'] + stem }
}

/// Entries with different lowercase stems are stored under different keys.
proof fn lemma_keys_differ(lower: Seq<char>, a: Seq<char>, b: Seq<char>)
    requires
        a != b,
    ensures
        encode_utf8(suffixed(key_path(lower, a))) != encode_utf8(suffixed(key_path(lower, b))),
{
    let pa = key_path(lower, a);
    let pb = key_path(lower, b);
    if encode_utf8(suffixed(pa)) == encode_utf8(suffixed(pb)) {
        let sa = suffixed(pa);
        let sb = suffixed(pb);
        assert(decode_utf8(encode_utf8(sa)) == sa);
        assert(decode_utf8(encode_utf8(sb)) == sb);
        assert(sa == sb);
        if pa.len() == 0 && pb.len() > 0 {
            assert(sa.len() == 1 && sb.len() == pb.len() + 2);
        } else if pb.len() == 0 && pa.len() > 0 {
            assert(sb.len() == 1 && sa.len() == pa.len() + 2);
        } else if pa.len() > 0 && pb.len() > 0 {
            assert(pa =~= sa.subrange(0, pa.len() as int));
            assert(pb =~= sb.subrange(0, pb.len() as int));
            assert(pa.len() == pb.len());
        }
        assert(pa == pb);
        if lower.len() == 0 {
            assert(pa == a && pb == b);
        } else {
            assert(a =~= pa.subrange(lower.len() as int + 1, pa.len() as int));
            assert(b =~= pb.subrange(lower.len() as int + 1, pb.len() as int));
        }
        assert(false);
    }
}

/// Whether the entry `e`, stored as the node `id`, is the one named `fname` whose lowercase stem
/// is `name`, and is held as the node `i` under its key and extension, standing for its name after
/// `parent`.
pub open spec fn stored_at(
    view: Map<Seq<u8>, Map<Seq<char>, usize>>,
    nodes: Map<usize, (Seq<char>, Option<usize>, usize)>,
    lower: Seq<char>,
    e: DirEntry,
    id: usize,
    fname: Seq<char>,
    i: usize,
    name: Seq<char>,
    parent: Option<usize>,
    len: usize,
) -> bool {
    match entry_slot(lower, e) {
        Some(s) => {
            &&& s.2 == fname
            &&& s.3 == name
            &&& id == i
            &&& view.contains_key(s.0)
            &&& view[s.0].contains_key(s.1)
            &&& view[s.0][s.1] == i
            &&& nodes.contains_key(i)
            &&& nodes[i] == (fname, parent, len)
        },
        None => false,
    }
}

/// What a listing matched is what the cache holds afterwards: the node given back is stored
/// under the key of the matched entry's lowercase stem, for the entry's lowercase extension, and
/// stands for the entry's name after `parent`.
pub proof fn lemma_listing_match_stored(
    v: Map<Seq<u8>, Map<Seq<char>, usize>>,
    n: Map<usize, (Seq<char>, Option<usize>, usize)>,
    lower: Seq<char>,
    entries: Seq<DirEntry>,
    ids: Seq<usize>,
    parent: Option<usize>,
    len: usize,
    name: Seq<char>,
)
    requires
        ids.len() == entries.len(),
        fresh_ids(n, lower, entries, ids, parent, len),
        listing_match(lower, entries, ids, name) is Some,
    ensures
        ({
            let (fname, i) = listing_match(lower, entries, ids, name)->0;
            exists|j: int| #![trigger entries[j]] 0 <= j < entries.len() && stored_at(
                stored_view(v, lower, entries, ids),
                stored_nodes(n, lower, entries, ids, parent, len),
                lower,
                entries[j],
                ids[j],
                fname,
                i,
                name,
                parent,
                len,
            )
        }),
    decreases entries.len(),
{
    let last = entries.len() - 1;
    let init = entries.drop_last();
    let ids0 = ids.subrange(0, last);
    assert(entries[last] == entries.last());
    match entry_slot(lower, entries.last()) {
        Some(s) => {
            if s.3 == name {
                assert(entry_slot(lower, entries[last]) == Some(s));
                return;
            }
        },
        None => {},
    }
    assert(fresh_ids(n, lower, init, ids0, parent, len)) by {
        assert forall|j: int| 0 <= j < init.len() && #[trigger] entry_slot(lower, init[j]) is Some implies !stored_nodes(
            n, lower, init.take(j), ids0.take(j), parent, len).contains_key(ids0[j]) by {
            assert(init[j] == entries[j]);
            assert(init.take(j) =~= entries.take(j));
            assert(ids0.take(j) =~= ids.take(j));
            assert(entry_slot(lower, entries[j]) is Some);
        }
    }
    lemma_listing_match_stored(v, n, lower, init, ids0, parent, len, name);
    let (fname, i) = listing_match(lower, entries, ids, name)->0;
    let j = choose|j: int| #![trigger init[j]] 0 <= j < init.len() && stored_at(
        stored_view(v, lower, init, ids0),
        stored_nodes(n, lower, init, ids0, parent, len),
        lower,
        init[j],
        ids0[j],
        fname,
        i,
        name,
        parent,
        len,
    );
    assert(init[j] == entries[j]);
    let sj = entry_slot(lower, entries[j])->0;
    match entry_slot(lower, entries.last()) {
        Some(s) => {
            let stem_j = sj.3;
            assert(sj.0 == encode_utf8(suffixed(key_path(lower, stem_j))));
            assert(s.0 == encode_utf8(suffixed(key_path(lower, s.3))));
            lemma_keys_differ(lower, stem_j, s.3);
            assert(entry_slot(lower, entries[last]) is Some);
            assert(entries.take(last) =~= init);
            assert(ids.take(last) =~= ids0);
            assert(ids[last] != i);
        },
        None => {},
    }
}

/// The components of `stem` below the directory `d`, which `regen` looks for in turn.
pub open spec fn regen_names(stem: Seq<char>, d: Seq<char>) -> Seq<Seq<char>> {
    match strip_prefix_of(stem, d) {
        Some(rest) => components_of(rest),
        None => seq![],
    }
}

/// `a` followed by `/` and `b`, or `b` alone when `a` is empty.
pub open spec fn child_path(a: Seq<char>, b: Seq<char>) -> Seq<char> {
    if a.len() == 0 {
        b
    } else {
        a + seq!['/'] + b
    }
}

/// The path reached from `base` by going down into each of `names`, in order.
pub open spec fn descend_all(base: Seq<char>, names: Seq<Seq<char>>) -> Seq<char>
    decreases names.len(),
{
    if names.len() == 0 {
        base
    } else {
        child_path(descend_all(base, names.drop_last()), names.last())
    }
}

/// The names of the matches.
pub open spec fn match_names(found: Seq<(Seq<char>, usize)>) -> Seq<Seq<char>> {
    Seq::new(found.len(), |i: int| found[i].0)
}

/// The length `len0` grown by `k`, stopping at `usize::MAX`.
pub open spec fn step_len(len0: int, k: int) -> usize {
    if len0 + k > usize::MAX {
        usize::MAX
    } else {
        (len0 + k) as usize
    }
}

/// The node of the directory of step `j`: `node0` at first, then the node of the last match.
pub open spec fn node_at(node0: Option<usize>, found: Seq<(Seq<char>, usize)>, j: int) -> Option<usize> {
    if j == 0 {
        node0
    } else {
        Some(found[j - 1].1)
    }
}

/// The match of step `j`, if it found one.
pub open spec fn match_at(found: Seq<(Seq<char>, usize)>, j: int) -> Option<(Seq<char>, usize)> {
    if j < found.len() {
        Some(found[j])
    } else {
        None
    }
}

/// `b` is the cache `a` after the entries of one directory listing were stored under `lower`,
/// as nodes after `parent` of length `len`, with `m` the match for `name` (see `store_listing`).
pub open spec fn stored_step(
    a: Cache,
    b: Cache,
    lower: Seq<char>,
    parent: Option<usize>,
    len: usize,
    entries: Seq<DirEntry>,
    name: Seq<char>,
    m: Option<(Seq<char>, usize)>,
) -> bool {
    exists|ids: Seq<usize>| #![trigger stored_view(a.ext_view(), lower, entries, ids)]
        ids.len() == entries.len()
        && fresh_ids(a.nodes(), lower, entries, ids, parent, len)
        && b.ext_view() == stored_view(a.ext_view(), lower, entries, ids)
        && b.nodes() == stored_nodes(a.nodes(), lower, entries, ids, parent, len)
        && b.dirs() == stored_dirs(a.dirs(), lower, entries)
        && listing_match(lower, entries, ids, name) == m
}

/// `b` is the cache `a` after a node for `candidate` was stored under the trie key `key` for the
/// extension `ext`, standing where the node `sibling` stands (see `store_sibling`).
pub open spec fn sibling_stored(a: Cache, b: Cache, key: Seq<char>, ext: Seq<char>, sibling: usize, candidate: Seq<char>) -> bool {
    if a.nodes().contains_key(sibling) {
        exists|i: usize| #![trigger a.nodes().insert(i, (or_empty(file_name_of(candidate)), a.nodes()[sibling].1, a.nodes()[sibling].2))]
            !a.nodes().contains_key(i) && b.nodes() == a.nodes().insert(
            i,
            (or_empty(file_name_of(candidate)), a.nodes()[sibling].1, a.nodes()[sibling].2),
        ) && b.ext_view() == with_slot(a.ext_view(), encode_utf8(key), ext, i)
            && b.dirs() == a.dirs().union(ancestors(encode_utf8(key), false))
    } else {
        b == a
    }
}

/// `b` is the cache `a` after listings were read and stored while going down from the directory
/// whose lowercase path is `lower0` (actual path `actual0`, node `node0`, depth `len0`) towards
/// `names`. At step `j` the filesystem, in state `fss[j]`, was asked for the entries of the
/// actual path of the directory of that step (`actual0` followed by the names of the earlier
/// matches) and gave `listings[j]`, leaving it in state `fss[j + 1]`; the listing was stored
/// under the lowercase path of that directory, and `found[j]` is the entry of it that matched
/// `names[j]`. Every step but the last one found its match; `caches` are the caches between the
/// steps.
pub open spec fn walked<F: crate::FileSystem>(
    a: Cache,
    b: Cache,
    lower0: Seq<char>,
    actual0: Seq<char>,
    node0: Option<usize>,
    len0: int,
    names: Seq<Seq<char>>,
    caches: Seq<Cache>,
    fss: Seq<F>,
    listings: Seq<Vec<DirEntry>>,
    found: Seq<(Seq<char>, usize)>,
) -> bool {
    let n = listings.len();
    &&& n <= names.len()
    &&& caches.len() == n + 1
    &&& fss.len() == n + 1
    &&& caches[0] == a
    &&& caches[n as int] == b
    &&& found.len() <= n && n <= found.len() + 1
    &&& forall|j: int| 0 <= j < n ==> #[trigger] stored_step(
        caches[j],
        caches[j + 1],
        descend_all(lower0, names.take(j)),
        node_at(node0, found, j),
        step_len(len0, j + 1),
        listings[j]@,
        names[j],
        match_at(found, j),
    ) && fss[j].lists_dir(&fss[j + 1], descend_all(actual0, match_names(found.take(j))), Ok::<Vec<DirEntry>, Error>(listings[j]))
}

/// One more listing read and stored extends a walk.
pub proof fn lemma_walked_push<F: crate::FileSystem>(
    a: Cache,
    b: Cache,
    c: Cache,
    lower0: Seq<char>,
    actual0: Seq<char>,
    node0: Option<usize>,
    len0: int,
    names: Seq<Seq<char>>,
    caches: Seq<Cache>,
    fss: Seq<F>,
    listings: Seq<Vec<DirEntry>>,
    found: Seq<(Seq<char>, usize)>,
    fs_after: F,
    entries: Vec<DirEntry>,
    m: Option<(Seq<char>, usize)>,
)
    requires
        walked(a, b, lower0, actual0, node0, len0, names, caches, fss, listings, found),
        found.len() == listings.len(),
        listings.len() < names.len(),
        stored_step(b, c, descend_all(lower0, names.take(listings.len() as int)), node_at(node0, found, listings.len() as int),
            step_len(len0, listings.len() + 1 as int), entries@, names[listings.len() as int], m),
        fss.last().lists_dir(&fs_after, descend_all(actual0, match_names(found)), Ok::<Vec<DirEntry>, Error>(entries)),
    ensures
        walked(a, c, lower0, actual0, node0, len0, names, caches.push(c), fss.push(fs_after), listings.push(entries), match m {
            Some(x) => found.push(x),
            None => found,
        }),
{
    let n = listings.len() as int;
    let f2 = match m {
        Some(x) => found.push(x),
        None => found,
    };
    let c2 = caches.push(c);
    let s2 = fss.push(fs_after);
    let l2 = listings.push(entries);
    assert forall|j: int| 0 <= j < n + 1 implies #[trigger] stored_step(
        c2[j],
        c2[j + 1],
        descend_all(lower0, names.take(j)),
        node_at(node0, f2, j),
        step_len(len0, j + 1),
        l2[j]@,
        names[j],
        match_at(f2, j),
    ) && s2[j].lists_dir(&s2[j + 1], descend_all(actual0, match_names(f2.take(j))), Ok::<Vec<DirEntry>, Error>(l2[j])) by {
        assert(f2.take(j) =~= found.take(j));
        if j < n {
            assert(c2[j] == caches[j] && c2[j + 1] == caches[j + 1] && l2[j] == listings[j]);
            assert(s2[j] == fss[j] && s2[j + 1] == fss[j + 1]);
            assert(node_at(node0, f2, j) == node_at(node0, found, j));
            assert(match_at(f2, j) == match_at(found, j));
            assert(stored_step(caches[j], caches[j + 1], descend_all(lower0, names.take(j)), node_at(node0, found, j),
                step_len(len0, j + 1), listings[j]@, names[j], match_at(found, j)));
        } else {
            assert(c2[j] == b && c2[j + 1] == c && l2[j] == entries);
            assert(s2[j] == fss.last() && s2[j + 1] == fs_after);
            assert(found.take(j) =~= found);
            assert(node_at(node0, f2, j) == node_at(node0, found, j));
            assert(match_at(f2, j) == m);
        }
    }
}

/// The case-insensitive path cache.
pub struct Cache {
    trie: FileSystemTrie<Trie<BString, usize>>,
    cactus: slab::Slab<CactusNode>,
}

impl Cache {
    /// The keys of the trie, as bytes, with their extension tries.
    pub closed spec fn files(&self) -> Seq<(Seq<u8>, Trie<BString, usize>)> {
        self.trie.file_list()
    }

    /// The directories of the trie.
    pub closed spec fn dirs(&self) -> Set<Seq<u8>> {
        self.trie.dir_set()
    }

    /// The nodes of the cactus stack.
    pub closed spec fn nodes(&self) -> Map<usize, (Seq<char>, Option<usize>, usize)> {
        cactus_nodes(self.cactus)
    }

    /// The extensions stored under each key, with their nodes.
    pub open spec fn ext_view(&self) -> Map<Seq<u8>, Map<Seq<char>, usize>> {
        Map::new(|k: Seq<u8>| list_map(self.files()).contains_key(k), |k: Seq<u8>| extension_entries(list_map(self.files())[k]))
    }

    /// Whether the trie has the directory `d`.
    pub closed spec fn has_dir(&self, d: Seq<u8>) -> bool {
        self.trie.has_dir_spec(d)
    }

    /// The trie is well formed.
    pub closed spec fn wf(&self) -> bool {
        self.trie.wf()
    }

    /// The extensions stored under the key of the path `p`, if any.
    pub open spec fn extensions_at(&self, p: Seq<char>) -> Option<Map<Seq<char>, usize>> {
        let b = encode_utf8(suffixed(p));
        if listed(self.files(), b) {
            Some(extension_entries(value_at(self.files(), b)))
        } else {
            None
        }
    }

    /// The actual path of the node `i`.
    pub open spec fn path_at(&self, i: usize) -> Seq<char> {
        path_of(self.nodes(), i)
    }

    /// What the cache gives for `path`: the empty path for the empty path; else the node stored
    /// under the lowercase path without extension and the lowercase extension; else the node of
    /// the first extension stored under the whole lowercase path.
    pub open spec fn desensitize_spec(&self, path: Seq<char>) -> Option<Seq<char>> {
        if path.len() == 0 {
            Some(seq![])
        } else {
            let lower = lowercase_of(path);
            let ext = match extension_of(lower) {
                Some(e) => e,
                None => seq![],
            };
            let stem = with_extension_of(lower, seq![]);
            match self.extensions_at(stem) {
                Some(m) if m.contains_key(ext) => Some(self.path_at(m[ext])),
                _ => match self.extensions_at(lower) {
                    Some(m) if m.dom() != Set::<Seq<char>>::empty() => Some(self.path_at(first_value(m))),
                    _ => None,
                },
            }
        }
    }

    /// Every key of this cache is a key of `other`, with at least the same extensions.
    pub open spec fn grows_to(&self, other: Cache) -> bool {
        let a = list_map(self.files());
        let b = list_map(other.files());
        forall|k: Seq<u8>| #[trigger] a.contains_key(k) ==> b.contains_key(k)
            && extension_entries(a[k]).dom().subset_of(extension_entries(b[k]).dom())
    }

    /// Paths with the same lowercase form get the same actual path from the cache.
    pub proof fn lemma_case_insensitive(&self, p: Seq<char>, q: Seq<char>)
        requires
            p.len() > 0,
            q.len() > 0,
            lowercase_of(p) == lowercase_of(q),
        ensures
            self.desensitize_spec(p) == self.desensitize_spec(q),
    {
    }

    /// An empty cache.
    pub fn new() -> (r: Cache)
        ensures
            r.wf(),
            r.files() == Seq::<(Seq<u8>, Trie<BString, usize>)>::empty(),
            r.nodes() == Map::<usize, (Seq<char>, Option<usize>, usize)>::empty(),
    {
        Cache { trie: FileSystemTrie::new(), cactus: cactus_new() }
    }

    /// Stores the node key `index` for the extension `ext` under the trie key `key`, making the
    /// key's extension trie first if there is none.
    fn add_extension(&mut self, key: &str, ext: &str, index: usize)
        requires
            old(self).wf(),
            key@.len() > 0,
        ensures
            final(self).wf(),
            final(self).nodes() == old(self).nodes(),
            old(self).grows_to(*final(self)),
            list_map(final(self).files()).contains_key(encode_utf8(key@)),
            extension_entries(list_map(final(self).files())[encode_utf8(key@)]) == (if list_map(old(self).files()).contains_key(encode_utf8(key@)) {
                extension_entries(list_map(old(self).files())[encode_utf8(key@)])
            } else {
                Map::<Seq<char>, usize>::empty()
            }).insert(ext@, index),
            forall|b: Seq<u8>| b != encode_utf8(key@) ==> list_map(final(self).files()).contains_key(b) == list_map(old(self).files()).contains_key(b)
                && #[trigger] list_map(final(self).files())[b] == list_map(old(self).files())[b],
            final(self).ext_view() == with_slot(old(self).ext_view(), encode_utf8(key@), ext@, index),
            final(self).dirs() == old(self).dirs().union(ancestors(encode_utf8(key@), false)),
    {
        let ghost k = encode_utf8(key@);
        let ghost d0 = self.dirs();
        let ghost v0 = self.ext_view();
        let ghost l0 = self.files();
        proof {
            self.trie.lemma_wf();
        }
        if !self.trie.contains_file(key) {
            let fresh = extensions_new();
            self.trie.create_file(key, fresh);
            proof {
                lemma_list_map_push(l0, (k, fresh));
                assert(extension_entries(fresh) =~= Map::<Seq<char>, usize>::empty());
                assert(self.files()[self.files().len() - 1].0 == k);
            }
        }
        let ghost l1 = self.files();
        proof {
            self.trie.lemma_wf();
        }
        let t = self.trie.get_file_mut(key);
        extension_insert(t, ext, index);
        proof {
            let l2 = self.files();
            let i = choose|i: int| 0 <= i < l1.len() && #[trigger] l1[i].0 == k;
            crate::trie::lemma_unique_position(l1, i, k);
            assert(l2 =~= l1.update(i, (k, l2[i].1)));
            lemma_list_map_update(l1, i, (k, l2[i].1));
            assert(list_map(l1).contains_key(k));
            assert(list_map(l1)[k] == l1[i].1);
            assert(self.ext_view() =~= with_slot(v0, k, ext@, index));
            if listed(l0, k) {
                let j = choose|j: int| 0 <= j < l0.len() && #[trigger] l0[j].0 == k;
                assert(crate::trie::parents_in(l0[j].0, d0));
                assert(d0.union(ancestors(k, false)) =~= d0) by {
                    assert forall|d: Seq<u8>| #[trigger] ancestors(k, false).contains(d) implies d0.contains(d) by {
                        assert(d == k.subrange(0, d.len() as int));
                        assert(k[d.len() as int] == 47u8);
                    }
                }
            }
        }
    }

    /// Stores the entries of one directory listing, in order: each entry with a file name as a
    /// new node after `parent` of length `len`, under the key of `lower` joined with its
    /// lowercase stem, for its lowercase extension. Gives the name and the node of the last
    /// entry whose lowercase stem is `name`.
    #[verifier::spinoff_prover]
    #[verifier::rlimit(40)]
    pub fn store_listing(&mut self, lower: &str, parent: Option<usize>, len: usize, entries: &Vec<DirEntry>, name: &str) -> (r: Option<(String, usize)>)
        requires
            old(self).wf(),
        ensures
            final(self).wf(),
            old(self).grows_to(*final(self)),
            old(self).nodes().submap_of(final(self).nodes()),
            exists|ids: Seq<usize>| #![trigger stored_view(old(self).ext_view(), lower@, entries@, ids)]
                ids.len() == entries@.len()
                && fresh_ids(old(self).nodes(), lower@, entries@, ids, parent, len)
                && final(self).ext_view() == stored_view(old(self).ext_view(), lower@, entries@, ids)
                && final(self).nodes() == stored_nodes(old(self).nodes(), lower@, entries@, ids, parent, len)
                && final(self).dirs() == stored_dirs(old(self).dirs(), lower@, entries@)
                && (match r {
                    Some(m) => listing_match(lower@, entries@, ids, name@) == Some((m.0@, m.1)),
                    None => listing_match(lower@, entries@, ids, name@) is None,
                }),
            stored_step(*old(self), *final(self), lower@, parent, len, entries@, name@, match r {
                Some(m) => Some((m.0@, m.1)),
                None => None,
            }),
    {
        let ghost start = *self;
        let ghost v0 = self.ext_view();
        let ghost n0 = self.nodes();
        let ghost d0 = self.dirs();
        let ghost mut ids: Seq<usize> = seq![];
        let empty = String::new();
        let mut found: Option<(String, usize)> = None;
        proof {
            Cache::lemma_grows_refl(start);
            assert(entries@.take(0) =~= seq![]);
        }
        let mut i: usize = 0;
        while i < entries.len()
            invariant
                self.wf(),
                i <= entries@.len(),
                ids.len() == i,
                empty@ == Seq::<char>::empty(),
                start.grows_to(*self),
                n0 == start.nodes(),
                n0.submap_of(self.nodes()),
                self.ext_view() == stored_view(v0, lower@, entries@.take(i as int), ids),
                self.nodes() == stored_nodes(n0, lower@, entries@.take(i as int), ids, parent, len),
                self.dirs() == stored_dirs(d0, lower@, entries@.take(i as int)),
                fresh_ids(n0, lower@, entries@.take(i as int), ids, parent, len),
                match found {
                    Some(m) => listing_match(lower@, entries@.take(i as int), ids, name@) == Some((m.0@, m.1)),
                    None => listing_match(lower@, entries@.take(i as int), ids, name@) is None,
                },
            decreases entries@.len() - i,
        {
            let ghost before = *self;
            let ghost t0 = entries@.take(i as int);
            let ghost t1 = entries@.take(i + 1);
            assert(t1.drop_last() =~= t0);
            assert(t1.last() == entries@[i as int]);
            match entries[i].file_name() {
                None => {
                    proof {
                        let ids1 = ids.push(0usize);
                        assert(ids1.subrange(0, i as int) =~= ids);
                        assert forall|j: int| 0 <= j < t1.len() && #[trigger] entry_slot(lower@, t1[j]) is Some implies !stored_nodes(
                            n0, lower@, t1.take(j), ids1.take(j), parent, len).contains_key(ids1[j]) by {
                            assert(j < i);
                            assert(t1.take(j) =~= t0.take(j));
                            assert(ids1.take(j) =~= ids.take(j));
                            assert(t1[j] == t0[j]);
                        }
                        ids = ids1;
                    }
                },
                Some(file_name) => {
                    let stem_name = match path_file_stem(file_name.as_str()) {
                        Some(n) => n,
                        None => file_name.clone(),
                    };
                    let entry_name = lowercase(stem_name.as_str());
                    let entry_extension = match path_extension(file_name.as_str()) {
                        Some(e) => lowercase(e.as_str()),
                        None => lowercase(empty.as_str()),
                    };
                    assert(file_name_of(entries@[i as int].path@) == Some(file_name@));
                    assert(stem_name@ == match file_stem_of(file_name@) {
                        Some(s) => s,
                        None => file_name@,
                    });
                    assert(entry_extension@ == lowercase_of(or_empty(extension_of(file_name@))));
                    let ghost nodes_before = self.nodes();
                    let index = cactus_insert(&mut self.cactus, CactusNode { value: file_name.clone(), next: parent, len });
                    assert(n0.submap_of(self.nodes())) by {
                        assert forall|k: usize| n0.contains_key(k) implies #[trigger] self.nodes().contains_key(k) && self.nodes()[k] == n0[k] by {
                            assert(nodes_before.contains_key(k));
                        }
                    }
                    let key_path = if lower.is_empty() {
                        entry_name.clone()
                    } else {
                        proof {
                            reveal_strlit("/");
                        }
                        String::from_str(lower).concat("/").concat(entry_name.as_str())
                    };
                    let entry_key = with_trie_suffix(key_path.as_str());
                    let ghost mid = *self;
                    proof {
                        assert(entry_key@.len() > 0);
                        assert(before.grows_to(mid));
                        assert(key_path@ == (if lower@.len() == 0 { entry_name@ } else { lower@ + seq!['/'] + entry_name@ }));
                    }
                    self.add_extension(entry_key.as_str(), entry_extension.as_str(), index);
                    proof {
                        Cache::lemma_grows_trans(start, mid, *self);
                        let ids1 = ids.push(index);
                        assert(ids1.subrange(0, i as int) =~= ids);
                        assert(entry_slot(lower@, entries@[i as int]) == Some(
                            (encode_utf8(entry_key@), entry_extension@, file_name@, entry_name@),
                        ));
                        assert forall|j: int| 0 <= j < t1.len() && #[trigger] entry_slot(lower@, t1[j]) is Some implies !stored_nodes(
                            n0, lower@, t1.take(j), ids1.take(j), parent, len).contains_key(ids1[j]) by {
                            if j < i {
                                assert(t1.take(j) =~= t0.take(j));
                                assert(ids1.take(j) =~= ids.take(j));
                                assert(t1[j] == t0[j]);
                            } else {
                                assert(t1.take(j) =~= t0);
                                assert(ids1.take(j) =~= ids);
                            }
                        }
                        ids = ids1;
                    }
                    if entry_name == String::from_str(name) {
                        found = Some((file_name, index));
                    }
                },
            }
            i += 1;
        }
        assert(entries@.take(entries@.len() as int) =~= entries@);
        found
    }

    /// Growing is reflexive.
    pub proof fn lemma_grows_refl(a: Cache)
        ensures
            a.grows_to(a),
    {
        assert forall|k: Seq<u8>| #[trigger] list_map(a.files()).contains_key(k) implies list_map(a.files()).contains_key(k)
            && extension_entries(list_map(a.files())[k]).dom().subset_of(extension_entries(list_map(a.files())[k]).dom()) by {}
    }

    /// Stores, under the trie key `key` and for the extension `ext`, a new node for the file named
    /// by the last component of `candidate` (the empty name when it has none), standing where the
    /// node `sibling` stands: after the same node, with the same length. Nothing is stored when
    /// there is no node `sibling`; says whether it stored.
    pub fn store_sibling(&mut self, key: &str, ext: &str, sibling: usize, candidate: &str) -> (r: bool)
        requires
            old(self).wf(),
            key@.len() > 0,
        ensures
            final(self).wf(),
            old(self).grows_to(*final(self)),
            old(self).nodes().submap_of(final(self).nodes()),
            r == old(self).nodes().contains_key(sibling),
            !r ==> *final(self) == *old(self),
            r ==> exists|i: usize| #![trigger old(self).nodes().insert(i, (or_empty(file_name_of(candidate@)), old(self).nodes()[sibling].1, old(self).nodes()[sibling].2))]
                !old(self).nodes().contains_key(i) && final(self).nodes() == old(self).nodes().insert(
                i,
                (or_empty(file_name_of(candidate@)), old(self).nodes()[sibling].1, old(self).nodes()[sibling].2),
            ) && final(self).ext_view() == with_slot(old(self).ext_view(), encode_utf8(key@), ext@, i)
                && final(self).dirs() == old(self).dirs().union(ancestors(encode_utf8(key@), false)),
            sibling_stored(*old(self), *final(self), key@, ext@, sibling, candidate@),
    {
        let (next, len) = match cactus_get(&self.cactus, sibling) {
            Some(node) => (node.next, node.len),
            None => {
                proof {
                    Cache::lemma_grows_refl(*self);
                }
                return false;
            },
        };
        let value = match path_file_name(candidate) {
            Some(n) => n,
            None => String::new(),
        };
        let ghost vv = value@;
        assert(vv == or_empty(file_name_of(candidate@)));
        let ghost n0 = self.nodes();
        let index = cactus_insert(&mut self.cactus, CactusNode { value, next, len });
        proof {
            Cache::lemma_grows_refl(*self);
            assert forall|k: usize| #[trigger] n0.contains_key(k) implies self.nodes().contains_key(k) && self.nodes()[k] == n0[k] by {}
        }
        self.add_extension(key, ext, index);
        assert(self.nodes() == n0.insert(index, (vv, n0[sibling].1, n0[sibling].2)));
        true
    }

    /// A path that a cache resolves stays resolved in every cache it grows to, such as the cache
    /// after `regen`, `store_listing` or `store_sibling`.
    pub proof fn lemma_grows_keeps_resolved(a: Cache, b: Cache, path: Seq<char>)
        requires
            a.grows_to(b),
            a.desensitize_spec(path) is Some,
        ensures
            b.desensitize_spec(path) is Some,
    {
        if path.len() > 0 {
            let lower = lowercase_of(path);
            let ext = or_empty(extension_of(lower));
            let stem = with_extension_of(lower, seq![]);
            let ka = encode_utf8(suffixed(stem));
            let kb = encode_utf8(suffixed(lower));
            if a.extensions_at(stem) matches Some(m) && m.contains_key(ext) {
                assert(list_map(a.files()).contains_key(ka));
                assert(list_map(b.files()).contains_key(ka));
                assert(extension_entries(list_map(b.files())[ka]).contains_key(ext));
            } else {
                assert(list_map(a.files()).contains_key(kb));
                assert(list_map(b.files()).contains_key(kb));
                let ma = extension_entries(list_map(a.files())[kb]);
                let mb = extension_entries(list_map(b.files())[kb]);
                assert(ma.dom() != Set::<Seq<char>>::empty());
                assert(exists|k: Seq<char>| ma.dom().contains(k)) by {
                    if !(exists|k: Seq<char>| ma.dom().contains(k)) {
                        assert(ma.dom() =~= Set::<Seq<char>>::empty());
                    }
                }
                let k = choose|k: Seq<char>| ma.dom().contains(k);
                assert(ma.dom().subset_of(mb.dom()));
                assert(mb.dom().contains(k));
                assert(mb.dom() != Set::<Seq<char>>::empty());
                if b.extensions_at(stem) matches Some(m2) && m2.contains_key(ext) {
                } else {
                    assert(b.extensions_at(lower) == Some(mb));
                }
            }
        }
    }

    /// Growing is transitive.
    pub proof fn lemma_grows_trans(a: Cache, b: Cache, c: Cache)
        requires
            a.grows_to(b),
            b.grows_to(c),
        ensures
            a.grows_to(c),
    {
        assert forall|k: Seq<u8>| #[trigger] list_map(a.files()).contains_key(k) implies list_map(c.files()).contains_key(k)
            && extension_entries(list_map(a.files())[k]).dom().subset_of(extension_entries(list_map(c.files())[k]).dom()) by {
            assert(list_map(b.files()).contains_key(k));
        }
    }

    /// Looks up the actual letter case of the case-insensitive `path` on `fs` and stores it.
    /// Nothing is done when the cache already gives a path for it. When a path with the same
    /// stem but another extension is known, and the file with the known letter case and the new
    /// extension exists, that one is stored. Else each directory from the longest known one
    /// down is read, and every entry of it is stored, until an entry matches the next component
    /// or no entry does. Entries without a file name are passed over.
    pub fn regen<F: crate::FileSystem>(&mut self, fs: &mut F, path: &str) -> (r: Result<(), Error>)
        requires
            old(self).wf(),
        ensures
            final(self).wf(),
            old(self).grows_to(*final(self)),
            old(self).nodes().submap_of(final(self).nodes()),
            old(self).desensitize_spec(path@) is Some ==> r == Ok::<(), Error>(()) && *final(self) == *old(self)
                && *final(fs) == *old(fs),
            old(self).desensitize_spec(path@) is None ==> Cache::regen_outcome(*old(self), *final(self), *old(fs), *final(fs), path@, r),
    {
        let ghost start = *self;
        let ghost fs_start = *fs;
        proof {
            self.trie.lemma_wf();
            assert forall|k: Seq<u8>| #[trigger] list_map(start.files()).contains_key(k) implies list_map(start.files()).contains_key(k)
                && extension_entries(list_map(start.files())[k]).dom().subset_of(extension_entries(list_map(start.files())[k]).dom()) by {}
        }
        if self.desensitize(path).is_some() {
            return Ok(());
        }
        let raw_extension = match path_extension(path) {
            Some(e) => e,
            None => String::new(),
        };
        let lower = lowercase(path);
        let empty = String::new();
        let stem = with_extension(lower.as_str(), empty.as_str());
        let key = with_trie_suffix(stem.as_str());

        // A known path with the same stem and another extension.
        proof {
            assert(empty@ =~= Seq::<char>::empty());
        }
        if self.trie.contains_file(key.as_str()) {
            let first = match self.trie.get_file(key.as_str()) {
                Some(t) => extension_first(t),
                None => None,
            };
            if let Some(first) = first {
                proof {
                    let m = self.extensions_at(stem@)->Some_0;
                    lemma_first_key_unique(m, choose|k: Seq<char>| is_first_key(m, k), first.0@);
                }
                let known = self.get_path_from_cactus_index(first.1);
                let candidate = with_extension(known.as_str(), raw_extension.as_str());
                assert(start.sibling_candidate(path@) == Some((first.1, candidate@)));
                let found = match fs.path_exists(candidate.as_str()) {
                    Ok(b) => b,
                    Err(e) => {
                        assert(fs_start.answers_exists(fs, candidate@, Err::<bool, Error>(e)));
                        let ghost fe = *fs;
                        assert(fs_start.answers_exists(&fe, candidate@, Err::<bool, Error>(e)));
                        assert(*self == start);
                        assert(start.sibling_candidate(path@) matches Some((i, c)) && c == candidate@);
                        assert(start.sibling_candidate(path@) matches Some((i, c)) && *self == start && exists|e2: Error|
                            Err::<(), Error>(e) == Err::<(), Error>(e2) && #[trigger] fs_start.answers_exists(&fe, c, Err::<bool, Error>(e2)));
                        assert(Cache::regen_outcome(start, *self, fs_start, *fs, path@, Err::<(), Error>(e)));
                        return Err(e);
                    },
                };
                if found {
                    self.store_sibling(key.as_str(), raw_extension.as_str(), first.1, candidate.as_str());
                    return Ok(());
                }
            }
        }
        let ghost f0 = *fs;
        assert(match start.sibling_candidate(path@) {
            Some((i, c)) => fs_start.answers_exists(&f0, c, Ok::<bool, Error>(false)),
            None => f0 == fs_start,
        });

        let extension = lowercase(raw_extension.as_str());
        let prefix = self.trie.get_dir_prefix(stem.as_str());
        let mut cactus_index: Option<usize> = self.prefix_node(prefix.as_str(), extension.as_str());
        let mut len: usize = path_components(prefix.as_str()).len();
        let mut lower_string = String::from_str(prefix.as_str());
        let mut actual_string = match cactus_index {
            Some(i) => self.get_path_from_cactus_index(i),
            None => String::new(),
        };
        let ghost d = prefix@;
        let ghost node0 = cactus_index;
        let ghost len0 = components_of(d).len() as int;
        let ghost actual0 = actual_string@;
        let ghost nv = regen_names(stem@, d);
        let ghost mut caches: Seq<Cache> = seq![*self];
        let ghost mut listings: Seq<Vec<DirEntry>> = seq![];
        let ghost mut found: Seq<(Seq<char>, usize)> = seq![];
        let ghost mut fss: Seq<F> = seq![*fs];
        proof {
            assert(start.is_dir_prefix(d, stem@));
            assert(nv.take(0) =~= seq![]);
            assert(match_names(found) =~= seq![]);
            assert(actual0 == start.start_actual(d, path@));
            assert(walked(start, *self, d, actual0, node0, len0, nv, caches, fss, listings, found));
        }
        let rest = match path_strip_prefix(stem.as_str(), prefix.as_str()) {
            Some(rest) => rest,
            None => {
                proof {
                    assert(nv =~= seq![]);
                    assert(walked(start, *self, d, start.start_actual(d, path@), start.prefix_node_spec(d, lowercase_of(or_empty(extension_of(path@)))),
                        components_of(d).len() as int, regen_names(with_extension_of(lowercase_of(path@), seq![]), d), caches, fss, listings, found));
                }
                return Ok(());
            },
        };
        let names = path_components(rest.as_str());
        assert(nv == components_of(rest@));
        let mut ci: usize = 0;
        while ci < names.len()
            invariant
                self.wf(),
                start == *old(self),
                start.desensitize_spec(path@) is None,
                fs_start == *old(fs),
                start.grows_to(*self),
                start.nodes().submap_of(self.nodes()),
                stem@ == with_extension_of(lowercase_of(path@), seq![]),
                start.is_dir_prefix(d, stem@),
                node0 == start.prefix_node_spec(d, lowercase_of(or_empty(extension_of(path@)))),
                len0 == components_of(d).len() as int,
                nv == regen_names(stem@, d),
                names@.len() == nv.len(),
                forall|k: int| 0 <= k < nv.len() ==> #[trigger] names@[k]@ == nv[k],
                ci <= names@.len(),
                listings.len() == ci,
                found.len() == ci,
                walked(start, *self, d, actual0, node0, len0, nv, caches, fss, listings, found),
                actual0 == start.start_actual(d, path@),
                fss[0] == f0,
                fss.last() == *fs,
                f0 == fs_start || start.sibling_candidate(path@) is Some,
                match start.sibling_candidate(path@) {
                    Some((i, c)) => fs_start.answers_exists(&f0, c, Ok::<bool, Error>(false)),
                    None => f0 == fs_start,
                },
                start.desensitize_spec(path@) is None,
                lower_string@ == descend_all(d, nv.take(ci as int)),
                actual_string@ == descend_all(actual0, match_names(found)),
                cactus_index == node_at(node0, found, ci as int),
                len == step_len(len0, ci as int),
            decreases names@.len() - ci,
        {
            let name = &names[ci];
            let ghost fs_before = *fs;
            let entries = match fs.read_dir(actual_string.as_str()) {
                Ok(entries) => entries,
                Err(e) => {
                    assert(fs_before.lists_dir(fs, descend_all(actual0, match_names(found)), Err::<Vec<DirEntry>, Error>(e)));
                    assert(walked(start, *self, d, start.start_actual(d, path@), start.prefix_node_spec(d, lowercase_of(or_empty(extension_of(path@)))),
                        components_of(d).len() as int, regen_names(with_extension_of(lowercase_of(path@), seq![]), d), caches, fss, listings, found));
                    assert(Cache::regen_outcome(start, *self, fs_start, *fs, path@, Err::<(), Error>(e)));
                    return Err(e);
                },
            };
            let ghost got = entries;
            len = len.saturating_add(1);
            let ghost before = *self;
            let matched = self.store_listing(lower_string.as_str(), cactus_index, len, &entries, name.as_str());
            let ghost m = match &matched {
                Some(x) => Some((x.0@, x.1)),
                None => None,
            };
            let ghost found_before = found;
            proof {
                Cache::lemma_grows_trans(start, before, *self);
                vstd::map_lib::lemma_submap_of_trans(start.nodes(), before.nodes(), self.nodes());
                lemma_walked_push(start, before, *self, d, actual0, node0, len0, nv, caches, fss, listings, found, *fs, got, m);
                caches = caches.push(*self);
                fss = fss.push(*fs);
                listings = listings.push(got);
                if let Some(x) = m {
                    found = found.push(x);
                }
            }
            let (actual_name, new_cactus_index) = match matched {
                Some(x) => x,
                None => {
                    assert(walked(start, *self, d, start.start_actual(d, path@), start.prefix_node_spec(d, lowercase_of(or_empty(extension_of(path@)))),
                        components_of(d).len() as int, regen_names(with_extension_of(lowercase_of(path@), seq![]), d), caches, fss, listings, found));
                    assert(Cache::regen_outcome(start, *self, fs_start, *fs, path@, Ok::<(), Error>(())));
                    return Ok(());
                },
            };
            let ghost lower_before = lower_string@;
            let ghost actual_before = actual_string@;
            if !lower_string.as_str().is_empty() {
                proof {
                    reveal_strlit("/");
                }
                lower_string.append("/");
            }
            lower_string.append(name.as_str());
            if !actual_string.as_str().is_empty() {
                proof {
                    reveal_strlit("/");
                }
                actual_string.append("/");
            }
            actual_string.append(actual_name.as_str());
            cactus_index = Some(new_cactus_index);
            proof {
                assert(nv.take(ci + 1).drop_last() =~= nv.take(ci as int));
                assert(lower_string@ =~= child_path(lower_before, nv[ci as int]));
                assert(found == found_before.push((actual_name@, new_cactus_index)));
                assert(match_names(found).drop_last() =~= match_names(found_before));
                assert(match_names(found).last() == actual_name@);
                assert(actual_string@ =~= child_path(actual_before, actual_name@));
            }
            ci += 1;
        }
        Ok(())
    }

    /// Forgets the directory `dir` of the trie with everything in it, and the nodes of all the
    /// extension tries inside it. Nothing changes when the trie has no such directory.
    fn forget_dir(&mut self, dir: &str)
        requires
            old(self).wf(),
        ensures
            final(self).wf(),
            forgot_dir(*old(self), *final(self), dir@),
    {
        let ghost n0 = self.nodes();
        let ghost inner = inside_of(self.files(), encode_utf8(dir@));
        let entries = match self.trie.iter_prefix(dir) {
            Some(entries) => entries,
            None => {
                return;
            },
        };
        assert(inner == self.trie.file_list().filter(|x: (Seq<u8>, Trie<BString, usize>)| is_inside(x.0, encode_utf8(dir@))));
        assert forall|k: int| 0 <= k < entries@.len() implies *(#[trigger] entries@[k]).1 == inner[k].1 by {
            assert(encode_utf8(entries@[k].0@) == inner[k].0);
        }
        assert(n0.remove_keys(node_keys(inner, 0)) =~= n0);
        let mut i: usize = 0;
        while i < entries.len()
            invariant
                self.wf(),
                i <= entries@.len(),
                entries@.len() == inner.len(),
                forall|k: int| 0 <= k < entries@.len() ==> *(#[trigger] entries@[k]).1 == inner[k].1,
                self.nodes() == n0.remove_keys(node_keys(inner, i as int)),
                self.trie == old(self).trie,
            decreases entries@.len() - i,
        {
            let vals = extension_values(entries[i].1);
            let ghost m = extension_entries(inner[i as int].1);
            assert(*entries@[i as int].1 == inner[i as int].1);
            let ghost done = node_keys(inner, i as int);
            let mut j: usize = 0;
            while j < vals.len()
                invariant
                    j <= vals@.len(),
                    self.wf(),
                    self.trie == old(self).trie,
                    self.nodes() == n0.remove_keys(done.union(Set::new(|n: usize| exists|q: int| 0 <= q < j && vals@[q] == n))),
                decreases vals@.len() - j,
            {
                let ghost before = Set::new(|n: usize| exists|q: int| 0 <= q < j && vals@[q] == n);
                cactus_remove(&mut self.cactus, vals[j]);
                proof {
                    let after = Set::new(|n: usize| exists|q: int| 0 <= q < j + 1 && vals@[q] == n);
                    assert(after =~= before.insert(vals@[j as int]));
                    assert(n0.remove_keys(done.union(before)).remove(vals@[j as int]) =~= n0.remove_keys(done.union(after)));
                }
                j += 1;
            }
            proof {
                let seen = Set::new(|n: usize| exists|q: int| 0 <= q < j && vals@[q] == n);
                assert(seen =~= m.values()) by {
                    assert forall|n: usize| seen.contains(n) implies m.values().contains(n) by {
                        let q = choose|q: int| 0 <= q < j && vals@[q] == n;
                        assert(vals@[q] == vals@[q]);
                    }
                    assert forall|n: usize| m.values().contains(n) implies seen.contains(n) by {
                        let key = choose|key: Seq<char>| #[trigger] m.dom().contains(key) && m[key] == n;
                        assert(m[key] == m[key]);
                    }
                }
                assert(node_keys(inner, i + 1) =~= done.union(seen)) by {
                    assert forall|n: usize| node_keys(inner, i + 1).contains(n) implies done.union(seen).contains(n) by {
                        let k = choose|k: int| 0 <= k < i + 1 && #[trigger] extension_entries(inner[k].1).contains_value(n);
                        if k < i {
                            assert(done.contains(n));
                        } else {
                            assert(m.values().contains(n));
                        }
                    }
                    assert forall|n: usize| done.union(seen).contains(n) implies node_keys(inner, i + 1).contains(n) by {
                        if done.contains(n) {
                            let k = choose|k: int| 0 <= k < i && #[trigger] extension_entries(inner[k].1).contains_value(n);
                            assert(extension_entries(inner[k].1).contains_value(n));
                        } else {
                            assert(m.values().contains(n));
                            assert(extension_entries(inner[i as int].1).contains_value(n));
                        }
                    }
                }
            }
            i += 1;
        }
        proof {
            self.trie.lemma_wf();
        }
        self.trie.remove_dir(dir);
    }

    /// Forgets the extension `ext` of the path `key_path`, if the cache holds it, and says
    /// whether it did.
    fn forget_extension(&mut self, key_path: &str, ext: &str) -> (r: bool)
        requires
            old(self).wf(),
        ensures
            final(self).wf(),
            r == (old(self).extensions_at(key_path@) matches Some(m) && m.contains_key(ext@)),
            r ==> forgot_extension(*old(self), *final(self), key_path@, ext@),
            !r ==> *final(self) == *old(self),
    {
        let key = with_trie_suffix(key_path);
        let index = match self.trie.get_file(key.as_str()) {
            Some(t) => match extension_get(t, ext) {
                Some(i) => i,
                None => {
                    return false;
                },
            },
            None => {
                return false;
            },
        };
        let ghost a = *self;
        let ghost kb = encode_utf8(key@);
        cactus_remove(&mut self.cactus, index);
        let t = self.trie.get_file_mut(key.as_str());
        extension_remove(t, ext);
        let empty = extensions_empty(t);
        let ghost tv = *t;
        proof {
            assert(extension_entries(tv) == extension_entries(value_at(a.files(), kb)).remove(ext@));
        }
        if empty {
            proof {
                self.trie.lemma_wf();
            }
            self.trie.remove_dir(key_path);
        }
        true
    }

    /// Forgets the file `p` after it was removed.
    fn forget_file(&mut self, p: &str)
        requires
            old(self).wf(),
        ensures
            final(self).wf(),
            forgot_file(*old(self), *final(self), p@),
    {
        let lower = lowercase(p);
        let ext = match path_extension(lower.as_str()) {
            Some(e) => e,
            None => String::new(),
        };
        let empty = String::new();
        let stem = with_extension(lower.as_str(), empty.as_str());
        if self.forget_extension(stem.as_str(), ext.as_str()) {
            return;
        }
        let key = with_trie_suffix(lower.as_str());
        let first = match self.trie.get_file(key.as_str()) {
            Some(t) => extension_first(t),
            None => {
                return;
            },
        };
        match first {
            Some(e) => {
                proof {
                    let m = extension_entries(value_at(self.files(), encode_utf8(suffixed(lower@))));
                    lemma_first_key_unique(m, first_key(m), e.0@);
                }
                self.forget_extension(lower.as_str(), e.0.as_str());
            },
            None => {
                proof {
                    self.trie.lemma_wf();
                }
                self.trie.remove_dir(lower.as_str());
            },
        }
    }

    /// The node of the known directory `prefix`: the one of the extension `ext`, else the first
    /// one; none for the empty path or when the cache holds none.
    pub open spec fn prefix_node_spec(&self, prefix: Seq<char>, ext: Seq<char>) -> Option<usize> {
        if prefix.len() == 0 {
            None
        } else {
            match self.extensions_at(prefix) {
                Some(m) => if m.contains_key(ext) {
                    Some(m[ext])
                } else if m.dom() != Set::<Seq<char>>::empty() {
                    Some(first_value(m))
                } else {
                    None
                },
                None => None,
            }
        }
    }

    /// Whether `d` is the longest directory of the trie that is `p` or an ancestor of it, or
    /// the empty path when there is none.
    pub open spec fn is_dir_prefix(&self, d: Seq<char>, p: Seq<char>) -> bool {
        &&& (encode_utf8(d).len() == 0 || (self.dirs().contains(encode_utf8(d)) && is_ancestor(encode_utf8(d), encode_utf8(p), true)))
        &&& forall|e: Seq<u8>| is_ancestor(e, encode_utf8(p), true) && #[trigger] self.dirs().contains(e)
            ==> e.len() <= encode_utf8(d).len()
    }

    /// Where a directory is made for `path` when `d` is its longest known directory prefix:
    /// the actual path of the node of `d` (for the extension of `path`), followed by the rest of
    /// `path`.
    pub open spec fn dir_target_from(&self, d: Seq<char>, path: Seq<char>) -> Seq<char> {
        let actual = match self.prefix_node_spec(d, or_empty(extension_of(lowercase_of(path)))) {
            Some(i) => self.path_at(i),
            None => seq![],
        };
        create_target(actual, path)
    }

    /// What `regen` asks the filesystem about first: the node of the first extension the cache
    /// holds under the lowercase path of `path` without extension, and the actual path of that
    /// node with the extension of `path` in place of its own.
    pub open spec fn sibling_candidate(&self, path: Seq<char>) -> Option<(usize, Seq<char>)> {
        match self.extensions_at(with_extension_of(lowercase_of(path), seq![])) {
            Some(m) => if m.dom() != Set::<Seq<char>>::empty() {
                Some((first_value(m), with_extension_of(self.path_at(first_value(m)), or_empty(extension_of(path)))))
            } else {
                None
            },
            None => None,
        }
    }

    /// What `regen` may make of the cache `a` and the filesystem `fa` for `path` when `a` gives
    /// no path for it, ending in `b` and `fb` with `r`. First, when the cache knows another
    /// extension of the path, the filesystem is asked whether the `sibling_candidate` exists: an
    /// error is the result, and a yes stores a node for it. Else, from the longest known directory
    /// `d` of the lowercase path without extension, the directories are read going down towards
    /// the remaining components of that path (see `walked`), each listing stored. The walk ends
    /// when a listing has no match or every component was found, and the result is `Ok`; or when a
    /// read fails, and that error is the result.
    pub open spec fn regen_outcome<F: crate::FileSystem>(a: Cache, b: Cache, fa: F, fb: F, path: Seq<char>, r: Result<(), Error>) -> bool {
        let stem = with_extension_of(lowercase_of(path), seq![]);
        let ext = or_empty(extension_of(path));
        ||| (a.sibling_candidate(path) matches Some((i, c)) && b == a && exists|e: Error| r == Err::<(), Error>(e)
            && #[trigger] fa.answers_exists(&fb, c, Err::<bool, Error>(e)))
        ||| (a.sibling_candidate(path) matches Some((i, c)) && r == Ok::<(), Error>(())
            && fa.answers_exists(&fb, c, Ok::<bool, Error>(true)) && sibling_stored(a, b, suffixed(stem), ext, i, c))
        ||| exists|d: Seq<char>, caches: Seq<Cache>, fss: Seq<F>, listings: Seq<Vec<DirEntry>>, found: Seq<(Seq<char>, usize)>|
            #[trigger] walked(a, b, d, a.start_actual(d, path), a.prefix_node_spec(d, lowercase_of(ext)), components_of(d).len() as int,
                regen_names(stem, d), caches, fss, listings, found)
            && (match a.sibling_candidate(path) {
                Some((i, c)) => fa.answers_exists(&fss[0], c, Ok::<bool, Error>(false)),
                None => fss[0] == fa,
            })
            && a.is_dir_prefix(d, stem)
            && match r {
                Ok(_) => fss.last() == fb && (found.len() < listings.len() || listings.len() == regen_names(stem, d).len()),
                Err(e) => found.len() == listings.len() && listings.len() < regen_names(stem, d).len()
                    && fss.last().lists_dir(&fb, descend_all(a.start_actual(d, path), match_names(found)), Err::<Vec<DirEntry>, Error>(e)),
            }
    }

    /// The actual path of the node of the known directory `d` for the extension of `path`, where
    /// `regen` starts reading; the empty path when the cache has none.
    pub open spec fn start_actual(&self, d: Seq<char>, path: Seq<char>) -> Seq<char> {
        match self.prefix_node_spec(d, lowercase_of(or_empty(extension_of(path)))) {
            Some(i) => self.path_at(i),
            None => seq![],
        }
    }

    /// The node of the known directory `prefix` for the extension `ext` (see `prefix_node_spec`).
    fn prefix_node(&self, prefix: &str, ext: &str) -> (r: Option<usize>)
        requires
            self.wf(),
        ensures
            r == self.prefix_node_spec(prefix@, ext@),
    {
        if prefix.is_empty() {
            return None;
        }
        let key = with_trie_suffix(prefix);
        match self.trie.get_file(key.as_str()) {
            Some(t) => match extension_get(t, ext) {
                Some(i) => Some(i),
                None => match extension_first(t) {
                    Some(e) => {
                        proof {
                            let m = extension_entries(*t);
                            lemma_first_key_unique(m, choose|k: Seq<char>| is_first_key(m, k), e.0@);
                        }
                        Some(e.1)
                    },
                    None => None,
                },
            },
            None => None,
        }
    }

    /// The path at which a directory is made for the case-insensitive `path`: the actual path
    /// of its longest known ancestor directory, followed by the rest of `path`.
    fn dir_target(&self, path: &str) -> (r: String)
        requires
            self.wf(),
        ensures
            exists|d: Seq<char>| #[trigger] self.is_dir_prefix(d, with_extension_of(lowercase_of(path@), seq![]))
                && r@ == self.dir_target_from(d, path@),
    {
        let lower = lowercase(path);
        let ext = match path_extension(lower.as_str()) {
            Some(e) => e,
            None => String::new(),
        };
        let empty = String::new();
        let stem = with_extension(lower.as_str(), empty.as_str());
        let prefix = self.trie.get_dir_prefix(stem.as_str());
        let actual_prefix = match self.prefix_node(prefix.as_str(), ext.as_str()) {
            Some(i) => self.get_path_from_cactus_index(i),
            None => String::new(),
        };
        let r = create_target_path(actual_prefix.as_str(), path);
        proof {
            assert(empty@ =~= Seq::<char>::empty());
            assert(self.is_dir_prefix(prefix@, with_extension_of(lowercase_of(path@), seq![])));
        }
        r
    }

    /// The actual path that the cache holds for the case-insensitive `path`, if any.
    pub fn desensitize(&self, path: &str) -> (r: Option<String>)
        requires
            self.wf(),
        ensures
            opt_chars(r) == self.desensitize_spec(path@),
    {
        if path.is_empty() {
            return Some(String::new());
        }
        let lower = lowercase(path);
        let ext = match path_extension(lower.as_str()) {
            Some(e) => e,
            None => String::new(),
        };
        let empty = String::new();
        let stem = with_extension(lower.as_str(), empty.as_str());
        let key = with_trie_suffix(stem.as_str());
        match self.trie.get_file(key.as_str()) {
            Some(t) => match extension_get(t, ext.as_str()) {
                Some(i) => {
                    return Some(self.get_path_from_cactus_index(i));
                },
                None => {},
            },
            None => {},
        }
        let key = with_trie_suffix(lower.as_str());
        match self.trie.get_file(key.as_str()) {
            Some(t) => match extension_first(t) {
                Some(e) => {
                    proof {
                        let m = extension_entries(*t);
                        let k = choose|k: Seq<char>| is_first_key(m, k);
                        lemma_first_key_unique(m, k, e.0@);
                    }
                    Some(self.get_path_from_cactus_index(e.1))
                },
                None => None,
            },
            None => None,
        }
    }

    /// The actual path of the node `index`, or the empty path when there is no such node.
    pub fn get_path_from_cactus_index(&self, index: usize) -> (r: String)
        ensures
            r@ == self.path_at(index),
    {
        let ghost nodes = self.nodes();
        let fuel0 = match cactus_get(&self.cactus, index) {
            Some(node) => node.len,
            None => {
                return String::new();
            },
        };
        let mut parts: Vec<String> = Vec::new();
        let mut cur: Option<usize> = Some(index);
        let mut fuel = fuel0;
        while fuel > 0
            invariant
                nodes == self.nodes(),
                nodes.contains_key(index),
                fuel0 == nodes[index].2,
                fuel <= fuel0,
                parts@.map_values(|s: String| s@) + walk(nodes, cur, fuel as nat) == walk(nodes, Some(index), fuel0 as nat),
            ensures
                walk(nodes, cur, fuel as nat) == Seq::<Seq<char>>::empty(),
            decreases fuel,
        {
            let k = match cur {
                Some(k) => k,
                None => {
                    break;
                },
            };
            let node = match cactus_get(&self.cactus, k) {
                Some(node) => node,
                None => {
                    break;
                },
            };
            let ghost before = parts@.map_values(|s: String| s@);
            parts.push(node.value.clone());
            assert(parts@.map_values(|s: String| s@) =~= before.push(node.value@));
            assert(walk(nodes, cur, fuel as nat) == seq![node.value@] + walk(nodes, node.next, (fuel - 1) as nat));
            assert(before + walk(nodes, cur, fuel as nat) =~= before.push(node.value@) + walk(nodes, node.next, (fuel - 1) as nat));
            cur = node.next;
            fuel -= 1;
        }
        proof {
            let w = walk(nodes, cur, fuel as nat);
            assert(parts@.map_values(|s: String| s@) + w =~= parts@.map_values(|s: String| s@));
        }
        join_components_reversed(&parts)
    }
}

/// A case-insensitive layer over the filesystem `F`.
pub struct FileSystem<F> {
    fs: F,
    cache: Cache,
}

impl<F> FileSystem<F> {
    /// The cache is well formed.
    pub closed spec fn wf(self) -> bool {
        self.cache.wf()
    }

    /// The cache of this layer.
    pub closed spec fn cache_of(self) -> Cache {
        self.cache
    }

    /// The filesystem under this layer.
    pub closed spec fn inner(self) -> F {
        self.fs
    }

    /// A layer over `fs`, with an empty cache.
    pub fn new(fs: F) -> (r: Result<Self, Error>)
        ensures
            r matches Ok(s) && s.wf() && s.inner() == fs && s.cache_of().files().len() == 0
                && s.cache_of().nodes().dom() == Set::<usize>::empty(),
    {
        Ok(FileSystem { fs, cache: Cache::new() })
    }

    /// The filesystem under this layer.
    pub fn fs(&self) -> (r: &F)
        ensures
            *r == self.inner(),
    {
        &self.fs
    }

    /// Empties the cache.
    pub fn rebuild(&mut self)
        ensures
            final(self).wf(),
            final(self).inner() == old(self).inner(),
            final(self).cache_of().files().len() == 0,
            final(self).cache_of().nodes().dom() == Set::<usize>::empty(),
    {
        self.cache = Cache::new();
    }
}

impl<F: crate::FileSystem> FileSystem<F> {
    /// Runs `regen` on the cache with the filesystem under this layer.
    fn regen(&mut self, path: &str) -> (r: Result<(), Error>)
        requires
            old(self).wf(),
        ensures
            final(self).wf(),
            old(self).cache_of().grows_to(final(self).cache_of()),
            old(self).cache_of().desensitize_spec(path@) is Some ==> r == Ok::<(), Error>(()) && *final(self) == *old(self),
            old(self).cache_of().desensitize_spec(path@) is None ==> Cache::regen_outcome(old(self).cache_of(), final(self).cache_of(), old(self).inner(), final(self).inner(), path@, r),
    {
        self.cache.regen(&mut self.fs, path)
    }

    /// Finds the letter case and the extension of the case-insensitive `path`: the path of a
    /// file whose lowercase path is that of `path`, or else of a file whose lowercase path is
    /// that of `path` followed by an extension. `Err(NotExist)` when neither is found.
    pub fn desensitize(&mut self, path: &str) -> (r: Result<String, Error>)
        requires
            old(self).wf(),
        ensures
            final(self).wf(),
            old(self).cache_of().desensitize_spec(path@) matches Some(p) ==> r matches Ok(q) && q@ == p
                && *final(self) == *old(self),
            r matches Ok(q) ==> final(self).cache_of().desensitize_spec(path@) == Some(q@),
            final(self).cache_of().desensitize_spec(path@) is None ==> r is Err,
            old(self).cache_of().grows_to(final(self).cache_of()),
    {
        match self.regen(path) {
            Ok(()) => {},
            Err(e) => {
                return Err(e);
            },
        }
        match self.cache.desensitize(path) {
            Some(p) => Ok(p),
            None => Err(Error::NotExist),
        }
    }

    /// The actual path of `path`, looked up after `regen`.
    fn resolve(&mut self, path: &str) -> (r: Result<String, Error>)
        requires
            old(self).wf(),
        ensures
            final(self).wf(),
            old(self).cache_of().grows_to(final(self).cache_of()),
            old(self).cache_of().desensitize_spec(path@) matches Some(p) ==> r matches Ok(q) && q@ == p
                && *final(self) == *old(self),
            r matches Ok(p) ==> final(self).cache_of().desensitize_spec(path@) == Some(p@),
            final(self).cache_of().desensitize_spec(path@) is None ==> r is Err,
    {
        self.desensitize(path)
    }

    /// Whether something is at the case-insensitive `path`.
    pub fn path_exists(&mut self, path: &str) -> (r: Result<bool, Error>)
        requires
            old(self).wf(),
        ensures
            final(self).wf(),
            old(self).cache_of().grows_to(final(self).cache_of()),
            old(self).cache_of().desensitize_spec(path@) is Some ==> r == Ok::<bool, Error>(true) && *final(self) == *old(self),
            r matches Ok(b) ==> b == final(self).cache_of().desensitize_spec(path@) is Some,
    {
        match self.regen(path) {
            Ok(()) => {},
            Err(e) => {
                return Err(e);
            },
        }
        Ok(self.cache.desensitize(path).is_some())
    }

    /// What is known of the file or directory at the case-insensitive `path`.
    pub fn metadata(&mut self, path: &str) -> (r: Result<Metadata, Error>)
        requires
            old(self).wf(),
        ensures
            final(self).wf(),
            old(self).cache_of().grows_to(final(self).cache_of()),
            old(self).cache_of().desensitize_spec(path@) is Some ==> final(self).cache_of() == old(self).cache_of(),
            r is Ok ==> final(self).cache_of().desensitize_spec(path@) is Some,
            final(self).cache_of().desensitize_spec(path@) is None ==> r is Err,
            old(self).cache_of().desensitize_spec(path@) matches Some(p) ==> old(self).inner().answers_metadata(&final(self).inner(), p, r),
            r is Ok ==> exists|mid: F, p: Seq<char>| final(self).cache_of().desensitize_spec(path@) == Some(p)
                && #[trigger] mid.answers_metadata(&final(self).inner(), p, r),
    {
        let p = match self.resolve(path) {
            Ok(p) => p,
            Err(e) => {
                return Err(e);
            },
        };
        let ghost mid = self.fs;
        let r = self.fs.metadata(p.as_str());
        assert(mid.answers_metadata(&self.inner(), p@, r));
        r
    }

    /// The entries of the directory at the case-insensitive `path`.
    pub fn read_dir(&mut self, path: &str) -> (r: Result<Vec<DirEntry>, Error>)
        requires
            old(self).wf(),
        ensures
            final(self).wf(),
            old(self).cache_of().grows_to(final(self).cache_of()),
            old(self).cache_of().desensitize_spec(path@) is Some ==> final(self).cache_of() == old(self).cache_of(),
            r is Ok ==> final(self).cache_of().desensitize_spec(path@) is Some,
            final(self).cache_of().desensitize_spec(path@) is None ==> r is Err,
            old(self).cache_of().desensitize_spec(path@) matches Some(p) ==> old(self).inner().lists_dir(&final(self).inner(), p, r),
            r is Ok ==> exists|mid: F, p: Seq<char>| final(self).cache_of().desensitize_spec(path@) == Some(p)
                && #[trigger] mid.lists_dir(&final(self).inner(), p, r),
    {
        let p = match self.resolve(path) {
            Ok(p) => p,
            Err(e) => {
                return Err(e);
            },
        };
        let ghost mid = self.fs;
        let r = self.fs.read_dir(p.as_str());
        assert(mid.lists_dir(&self.inner(), p@, r));
        r
    }

    /// Opens the file at the case-insensitive `path`. With `CREATE`, when no file is found, the
    /// file is made in the directory found for the parent of `path`, under the last component
    /// of `path`, and stored in the cache; `Err(NotExist)` when no directory is found for the
    /// parent.
    pub fn open_file(&mut self, path: &str, flags: OpenFlags) -> (r: Result<F::File, Error>)
        requires
            old(self).wf(),
        ensures
            final(self).wf(),
            old(self).cache_of().grows_to(final(self).cache_of()),
            old(self).cache_of().desensitize_spec(path@) is Some ==> final(self).cache_of() == old(self).cache_of(),
            !flags.has(CREATE) && r is Ok ==> final(self).cache_of().desensitize_spec(path@) is Some,
            !flags.has(CREATE) && final(self).cache_of().desensitize_spec(path@) is None ==> r is Err,
            old(self).cache_of().desensitize_spec(path@) matches Some(p) ==> old(self).inner().opens(&final(self).inner(), p, flags, r),
            !flags.has(CREATE) && r is Ok ==> exists|mid: F, p: Seq<char>| final(self).cache_of().desensitize_spec(path@) == Some(p)
                && #[trigger] mid.opens(&final(self).inner(), p, flags, r),
    {
        match self.regen(path) {
            Ok(()) => {},
            Err(e) => {
                return Err(e);
            },
        }
        let found = self.cache.desensitize(path);
        match found {
            Some(p) => {
                let ghost fs_mid = self.fs;
                let r = self.fs.open_file(p.as_str(), flags);
                assert(fs_mid.opens(&self.inner(), p@, flags, r));
                proof {
                    if old(self).cache_of().desensitize_spec(path@) is Some {
                        assert(old(self).inner() == fs_mid);
                    }
                }
                r
            },
            None => {
                if !flags.contains(CREATE) {
                    return Err(Error::NotExist);
                }
                let parent = match path_parent(path) {
                    Some(parent) => parent,
                    None => {
                        return Err(Error::NotExist);
                    },
                };
                let parent_path = match self.cache.desensitize(parent.as_str()) {
                    Some(q) => q,
                    None => {
                        return Err(Error::NotExist);
                    },
                };
                let name = match path_file_name(path) {
                    Some(name) => name,
                    None => {
                        return Err(Error::NotExist);
                    },
                };
                let new_path = path_join(parent_path.as_str(), name.as_str());
                let file = match self.fs.open_file(new_path.as_str(), flags) {
                    Ok(file) => file,
                    Err(e) => {
                        return Err(e);
                    },
                };
                let ghost mid = self.cache;
                let regenerated = self.regen(new_path.as_str());
                proof {
                    Cache::lemma_grows_trans(old(self).cache, mid, self.cache);
                }
                match regenerated {
                    Ok(()) => Ok(file),
                    Err(e) => Err(e),
                }
            },
        }
    }

    /// Moves the file or directory at the case-insensitive `from` to `to`, and forgets what the
    /// cache held under the actual path of `from`.
    pub fn rename(&mut self, from: &str, to: &str) -> (r: Result<(), Error>)
        requires
            old(self).wf(),
        ensures
            final(self).wf(),
            r is Ok ==> exists|c: Cache, mid: F, p: Seq<char>| #![trigger old(self).cache_of().grows_to(c), mid.renames(&final(self).inner(), p, to@, r)]
                old(self).cache_of().grows_to(c) && c.desensitize_spec(from@) == Some(p) && forgot_dir(c, final(self).cache_of(), p)
                && mid.renames(&final(self).inner(), p, to@, r),
            old(self).cache_of().desensitize_spec(from@) matches Some(p) ==> old(self).inner().renames(&final(self).inner(), p, to@, r),
    {
        let p = match self.resolve(from) {
            Ok(p) => p,
            Err(e) => {
                return Err(e);
            },
        };
        let ghost mid = self.cache;
        let ghost fs_mid = self.fs;
        let answer = self.fs.rename(p.as_str(), to);
        assert(fs_mid.renames(&self.inner(), p@, to@, answer));
        proof {
            if old(self).cache_of().desensitize_spec(from@) is Some {
                assert(old(self).inner() == fs_mid);
            }
        }
        if answer.is_err() {
            return answer;
        }
        let ghost fs_after = self.fs;
        self.cache.forget_dir(p.as_str());
        assert(old(self).cache_of().grows_to(mid));
        assert(self.fs == fs_after);
        assert(fs_mid.renames(&self.inner(), p@, to@, answer));
        assert(mid.desensitize_spec(from@) == Some(p@) && forgot_dir(mid, self.cache_of(), p@));
        answer
    }

    /// Removes the directory at the case-insensitive `path`, and forgets what the cache held
    /// under its lowercase path without extension.
    pub fn remove_dir(&mut self, path: &str) -> (r: Result<(), Error>)
        requires
            old(self).wf(),
        ensures
            final(self).wf(),
            r is Ok ==> exists|c: Cache, mid: F, p: Seq<char>| #![trigger old(self).cache_of().grows_to(c), mid.removes_dir(&final(self).inner(), p, r)]
                old(self).cache_of().grows_to(c) && c.desensitize_spec(path@) == Some(p)
                && forgot_dir(c, final(self).cache_of(), with_extension_of(lowercase_of(p), seq![]))
                && mid.removes_dir(&final(self).inner(), p, r),
            old(self).cache_of().desensitize_spec(path@) matches Some(p) ==> old(self).inner().removes_dir(&final(self).inner(), p, r),
    {
        let p = match self.resolve(path) {
            Ok(p) => p,
            Err(e) => {
                return Err(e);
            },
        };
        let ghost mid = self.cache;
        let ghost fs_mid = self.fs;
        let answer = self.fs.remove_dir(p.as_str());
        assert(fs_mid.removes_dir(&self.inner(), p@, answer));
        proof {
            if old(self).cache_of().desensitize_spec(path@) is Some {
                assert(old(self).inner() == fs_mid);
            }
        }
        if answer.is_err() {
            return answer;
        }
        let ghost fs_after = self.fs;
        let lower = lowercase(p.as_str());
        let empty = String::new();
        let stem = with_extension(lower.as_str(), empty.as_str());
        self.cache.forget_dir(stem.as_str());
        assert(old(self).cache_of().grows_to(mid));
        assert(self.fs == fs_after);
        assert(fs_mid.removes_dir(&self.inner(), p@, answer));
        assert(mid.desensitize_spec(path@) == Some(p@) && forgot_dir(mid, self.cache_of(), with_extension_of(lowercase_of(p@), seq![])));
        answer
    }

    /// Removes the file at the case-insensitive `path`, and forgets it in the cache.
    pub fn remove_file(&mut self, path: &str) -> (r: Result<(), Error>)
        requires
            old(self).wf(),
        ensures
            final(self).wf(),
            r is Ok ==> exists|c: Cache, mid: F, p: Seq<char>| #![trigger old(self).cache_of().grows_to(c), mid.removes_file(&final(self).inner(), p, r)]
                old(self).cache_of().grows_to(c) && c.desensitize_spec(path@) == Some(p) && forgot_file(c, final(self).cache_of(), p)
                && mid.removes_file(&final(self).inner(), p, r),
            old(self).cache_of().desensitize_spec(path@) matches Some(p) ==> old(self).inner().removes_file(&final(self).inner(), p, r),
    {
        let p = match self.resolve(path) {
            Ok(p) => p,
            Err(e) => {
                return Err(e);
            },
        };
        let ghost mid = self.cache;
        let ghost fs_mid = self.fs;
        let answer = self.fs.remove_file(p.as_str());
        assert(fs_mid.removes_file(&self.inner(), p@, answer));
        proof {
            if old(self).cache_of().desensitize_spec(path@) is Some {
                assert(old(self).inner() == fs_mid);
            }
        }
        if answer.is_err() {
            return answer;
        }
        let ghost fs_after = self.fs;
        self.cache.forget_file(p.as_str());
        assert(old(self).cache_of().grows_to(mid));
        assert(self.fs == fs_after);
        assert(fs_mid.removes_file(&self.inner(), p@, answer));
        assert(mid.desensitize_spec(path@) == Some(p@) && forgot_file(mid, self.cache_of(), p@));
        answer
    }

    /// Makes the directory at the case-insensitive `path`: under the actual path of its
    /// longest known ancestor directory.
    pub fn create_dir(&mut self, path: &str) -> (r: Result<(), Error>)
        requires
            old(self).wf(),
        ensures
            final(self).wf(),
            old(self).cache_of().grows_to(final(self).cache_of()),
            old(self).cache_of().desensitize_spec(path@) is Some ==> final(self).cache_of() == old(self).cache_of(),
            r is Ok ==> exists|mid: F, d: Seq<char>| final(self).cache_of().is_dir_prefix(d, with_extension_of(lowercase_of(path@), seq![]))
                && #[trigger] mid.creates_dir(&final(self).inner(), final(self).cache_of().dir_target_from(d, path@), r),
    {
        match self.regen(path) {
            Ok(()) => {},
            Err(e) => {
                return Err(e);
            },
        }
        let target = self.cache.dir_target(path);
        let ghost fs_mid = self.fs;
        let r = self.fs.create_dir(target.as_str());
        proof {
            let d = choose|d: Seq<char>| #[trigger] self.cache.is_dir_prefix(d, with_extension_of(lowercase_of(path@), seq![]))
                && target@ == self.cache.dir_target_from(d, path@);
            assert(self.cache_of() == self.cache);
            assert(fs_mid.creates_dir(&self.inner(), self.cache_of().dir_target_from(d, path@), r));
        }
        r
    }
}

} // verus!
