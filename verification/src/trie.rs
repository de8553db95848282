//! A directory tree where the files hold values of a type of your choice: the files, each listed
//! once with its value, and the directories, each with all of its parent directories.
use vstd::prelude::*;
use vstd::utf8::*;

use crate::archive::{files_view, string_from_utf8};

verus! {

broadcast use group_utf8_lib;

/// Whether two byte strings are equal.
pub fn bytes_eq(a: &[u8], b: &[u8]) -> (r: bool)
    ensures
        r == (a@ == b@),
{
    if a.len() != b.len() {
        return false;
    }
    let mut i: usize = 0;
    while i < a.len()
        invariant
            a@.len() == b@.len(),
            i <= a@.len(),
            forall|k: int| 0 <= k < i ==> a@[k] == b@[k],
        decreases a@.len() - i,
    {
        if a[i] != b[i] {
            return false;
        }
        i += 1;
    }
    assert(a@ =~= b@);
    true
}

/// No path is listed twice.
pub open spec fn unique_paths<T>(l: Seq<(Seq<u8>, T)>) -> bool {
    forall|i: int, j: int|
        0 <= i < l.len() && 0 <= j < l.len() && i != j ==> #[trigger] l[i].0 != #[trigger] l[j].0
}

/// Whether `p` is listed.
pub open spec fn listed<T>(l: Seq<(Seq<u8>, T)>, p: Seq<u8>) -> bool {
    exists|i: int| 0 <= i < l.len() && #[trigger] l[i].0 == p
}

/// The value listed at `p`.
pub open spec fn value_at<T>(l: Seq<(Seq<u8>, T)>, p: Seq<u8>) -> T {
    l[choose|i: int| 0 <= i < l.len() && #[trigger] l[i].0 == p].1
}

/// Finds the position of `path` in a list of files.
pub fn find<T>(list: &Vec<(String, T)>, path: &[u8]) -> (r: Option<usize>)
    ensures
        match r {
            Some(i) => i < list@.len() && files_view(list@)[i as int].0 == path@ && (forall|j: int|
                0 <= j < i ==> files_view(list@)[j].0 != path@),
            None => !listed(files_view(list@), path@),
        },
{
    let mut i: usize = 0;
    while i < list.len()
        invariant
            i <= list@.len(),
            forall|j: int| 0 <= j < i ==> files_view(list@)[j].0 != path@,
        decreases list@.len() - i,
    {
        let key = list[i].0.as_str().as_bytes();
        assert(key@ == files_view(list@)[i as int].0);
        if bytes_eq(key, path) {
            return Some(i);
        }
        i += 1;
    }
    None
}

/// In a list where every path appears once, a position holding a path is the only one.
pub proof fn lemma_unique_position<T>(l: Seq<(Seq<u8>, T)>, i: int, p: Seq<u8>)
    requires
        unique_paths(l),
        0 <= i < l.len(),
        l[i].0 == p,
    ensures
        forall|j: int| 0 <= j < l.len() && l[j].0 == p ==> j == i,
        listed(l, p),
        value_at(l, p) == l[i].1,
{
    let c = choose|j: int| 0 <= j < l.len() && #[trigger] l[j].0 == p;
    assert(c == i);
}

/// The list after a file was added at `x.0`: it replaces the value of the file already listed
/// there, if any, and is appended otherwise.
pub open spec fn insert_spec<T>(l: Seq<(Seq<u8>, T)>, x: (Seq<u8>, T)) -> Seq<(Seq<u8>, T)> {
    if listed(l, x.0) {
        l.update(choose|i: int| 0 <= i < l.len() && #[trigger] l[i].0 == x.0, x)
    } else {
        l.push(x)
    }
}

/// The list after the file at `p` was removed.
pub open spec fn remove_spec<T>(l: Seq<(Seq<u8>, T)>, p: Seq<u8>) -> Seq<(Seq<u8>, T)> {
    if listed(l, p) {
        l.remove(choose|i: int| 0 <= i < l.len() && #[trigger] l[i].0 == p)
    } else {
        l
    }
}

/// The list with the value of the file at `p` replaced by `v`.
pub open spec fn set_value<T>(l: Seq<(Seq<u8>, T)>, p: Seq<u8>, v: T) -> Seq<(Seq<u8>, T)> {
    Seq::new(l.len(), |i: int| if l[i].0 == p { (p, v) } else { l[i] })
}

/// The list built by adding files one after the other.
pub open spec fn index_of<T>(l: Seq<(Seq<u8>, T)>) -> Seq<(Seq<u8>, T)>
    decreases l.len(),
{
    if l.len() == 0 {
        seq![]
    } else {
        insert_spec(index_of(l.drop_last()), l.last())
    }
}

/// Every item of the index of a list is an item of the list.
pub proof fn lemma_index_of_from<T>(l: Seq<(Seq<u8>, T)>)
    ensures
        forall|i: int| #![trigger index_of(l)[i]] 0 <= i < index_of(l).len() ==> exists|j: int| 0 <= j < l.len() && index_of(l)[i] == #[trigger] l[j],
    decreases l.len(),
{
    if l.len() > 0 {
        let init = l.drop_last();
        lemma_index_of_from(init);
        let prev = index_of(init);
        let x = l.last();
        assert forall|i: int| #![trigger index_of(l)[i]] 0 <= i < index_of(l).len() implies exists|j: int| 0 <= j < l.len() && index_of(l)[i] == #[trigger] l[j] by {
            if listed(prev, x.0) {
                let c = choose|c: int| 0 <= c < prev.len() && #[trigger] prev[c].0 == x.0;
                assert(index_of(l) == prev.update(c, x));
                if i == c {
                    assert(index_of(l)[i] == l[l.len() - 1]);
                } else {
                    let j = choose|j: int| 0 <= j < init.len() && prev[i] == #[trigger] init[j];
                    assert(index_of(l)[i] == l[j]);
                }
            } else {
                assert(index_of(l) == prev.push(x));
                if i == prev.len() {
                    assert(index_of(l)[i] == l[l.len() - 1]);
                } else {
                    let j = choose|j: int| 0 <= j < init.len() && prev[i] == #[trigger] init[j];
                    assert(index_of(l)[i] == l[j]);
                }
            }
        }
    }
}

/// The index of a list has no repeated path, and holds exactly the listed paths.
pub proof fn lemma_index_of_keys<T>(l: Seq<(Seq<u8>, T)>)
    ensures
        unique_paths(index_of(l)),
        forall|p: Seq<u8>| #[trigger] list_map(index_of(l)).contains_key(p) <==> listed(l, p),
    decreases l.len(),
{
    if l.len() > 0 {
        let init = l.drop_last();
        lemma_index_of_keys(init);
        lemma_list_map_insert(index_of(init), l.last());
        assert forall|p: Seq<u8>| #[trigger] list_map(index_of(l)).contains_key(p) <==> listed(l, p) by {
            if listed(init, p) {
                let i = choose|i: int| 0 <= i < init.len() && #[trigger] init[i].0 == p;
                assert(l[i] == init[i]);
            }
            if listed(l, p) && p != l.last().0 {
                let i = choose|i: int| 0 <= i < l.len() && #[trigger] l[i].0 == p;
                assert(init[i] == l[i]);
            }
            if p == l.last().0 {
                assert(l[l.len() - 1].0 == p);
            }
        }
    } else {
        assert(list_map(index_of(l)) =~= Map::<Seq<u8>, T>::empty());
    }
}

/// A list without repeated paths is its own index.
pub proof fn lemma_index_of_unique<T>(l: Seq<(Seq<u8>, T)>)
    requires
        unique_paths(l),
    ensures
        index_of(l) == l,
    decreases l.len(),
{
    if l.len() > 0 {
        let init = l.drop_last();
        assert(unique_paths(init)) by {
            assert forall|i: int, j: int|
                0 <= i < init.len() && 0 <= j < init.len() && i != j implies #[trigger] init[i].0
                != #[trigger] init[j].0 by {
                assert(init[i] == l[i] && init[j] == l[j]);
            }
        }
        lemma_index_of_unique(init);
        assert(!listed(init, l.last().0)) by {
            if listed(init, l.last().0) {
                let i = choose|i: int| 0 <= i < init.len() && #[trigger] init[i].0 == l.last().0;
                assert(init[i] == l[i]);
                assert(l[i].0 == l[l.len() - 1].0);
            }
        }
        assert(init.push(l.last()) =~= l);
    }
}

/// The map from each listed path to its value.
pub open spec fn list_map<T>(l: Seq<(Seq<u8>, T)>) -> Map<Seq<u8>, T> {
    Map::new(|p: Seq<u8>| listed(l, p), |p: Seq<u8>| value_at(l, p))
}

/// Replacing the value at a position of a list without repeated paths replaces it in the map.
pub proof fn lemma_list_map_update<T>(l: Seq<(Seq<u8>, T)>, i: int, x: (Seq<u8>, T))
    requires
        unique_paths(l),
        0 <= i < l.len(),
        l[i].0 == x.0,
    ensures
        unique_paths(l.update(i, x)),
        list_map(l.update(i, x)) == list_map(l).insert(x.0, x.1),
{
    let u = l.update(i, x);
    assert forall|a: int, b: int| 0 <= a < u.len() && 0 <= b < u.len() && a != b implies #[trigger] u[a].0 != #[trigger] u[b].0 by {
        assert(u[a].0 == l[a].0 && u[b].0 == l[b].0);
    }
    assert forall|p: Seq<u8>| #[trigger] listed(u, p) == listed(l, p) by {
        if listed(u, p) {
            let k = choose|k: int| 0 <= k < u.len() && #[trigger] u[k].0 == p;
            assert(l[k].0 == p);
        }
        if listed(l, p) {
            let k = choose|k: int| 0 <= k < l.len() && #[trigger] l[k].0 == p;
            assert(u[k].0 == p);
        }
    }
    assert forall|p: Seq<u8>| listed(u, p) implies #[trigger] value_at(u, p) == list_map(l).insert(x.0, x.1)[p] by {
        let k = choose|k: int| 0 <= k < u.len() && #[trigger] u[k].0 == p;
        lemma_unique_position(u, k, p);
        lemma_unique_position(l, k, p);
        if k == i {
            assert(p == x.0);
        } else {
            assert(l[k].0 != l[i].0);
        }
    }
    lemma_unique_position(l, i, x.0);
    assert(list_map(u) =~= list_map(l).insert(x.0, x.1));
}

/// Appending a path that is not listed adds it to the map.
pub proof fn lemma_list_map_push<T>(l: Seq<(Seq<u8>, T)>, x: (Seq<u8>, T))
    requires
        unique_paths(l),
        !listed(l, x.0),
    ensures
        unique_paths(l.push(x)),
        list_map(l.push(x)) == list_map(l).insert(x.0, x.1),
{
    let u = l.push(x);
    assert forall|a: int, b: int| 0 <= a < u.len() && 0 <= b < u.len() && a != b implies #[trigger] u[a].0 != #[trigger] u[b].0 by {
        if a < l.len() && b < l.len() {
            assert(u[a] == l[a] && u[b] == l[b]);
        } else if a < l.len() {
            assert(u[a] == l[a]);
        } else if b < l.len() {
            assert(u[b] == l[b]);
        }
    }
    assert forall|p: Seq<u8>| #[trigger] listed(u, p) == (listed(l, p) || p == x.0) by {
        if listed(u, p) {
            let k = choose|k: int| 0 <= k < u.len() && #[trigger] u[k].0 == p;
            if k < l.len() {
                assert(l[k].0 == p);
            }
        }
        if listed(l, p) {
            let k = choose|k: int| 0 <= k < l.len() && #[trigger] l[k].0 == p;
            assert(u[k].0 == p);
        }
        if p == x.0 {
            assert(u[l.len() as int].0 == p);
        }
    }
    assert forall|p: Seq<u8>| listed(u, p) implies #[trigger] value_at(u, p) == list_map(l).insert(x.0, x.1)[p] by {
        let k = choose|k: int| 0 <= k < u.len() && #[trigger] u[k].0 == p;
        lemma_unique_position(u, k, p);
        if k < l.len() {
            assert(u[k] == l[k]);
            lemma_unique_position(l, k, p);
        }
    }
    assert(list_map(u) =~= list_map(l).insert(x.0, x.1));
}

/// Removing a position of a list without repeated paths removes its path from the map.
pub proof fn lemma_list_map_remove<T>(l: Seq<(Seq<u8>, T)>, i: int)
    requires
        unique_paths(l),
        0 <= i < l.len(),
    ensures
        unique_paths(l.remove(i)),
        list_map(l.remove(i)) == list_map(l).remove(l[i].0),
{
    let u = l.remove(i);
    assert forall|a: int, b: int| 0 <= a < u.len() && 0 <= b < u.len() && a != b implies #[trigger] u[a].0 != #[trigger] u[b].0 by {
        let a2 = if a < i { a } else { a + 1 };
        let b2 = if b < i { b } else { b + 1 };
        assert(u[a] == l[a2] && u[b] == l[b2]);
    }
    assert forall|p: Seq<u8>| #[trigger] listed(u, p) == (listed(l, p) && p != l[i].0) by {
        if listed(u, p) {
            let k = choose|k: int| 0 <= k < u.len() && #[trigger] u[k].0 == p;
            let k2 = if k < i { k } else { k + 1 };
            assert(l[k2].0 == p);
        }
        if listed(l, p) && p != l[i].0 {
            let k = choose|k: int| 0 <= k < l.len() && #[trigger] l[k].0 == p;
            let k2 = if k < i { k } else { k - 1 };
            assert(u[k2].0 == p);
        }
    }
    assert forall|p: Seq<u8>| listed(u, p) implies #[trigger] value_at(u, p) == list_map(l).remove(l[i].0)[p] by {
        let k = choose|k: int| 0 <= k < u.len() && #[trigger] u[k].0 == p;
        let k2 = if k < i { k } else { k + 1 };
        lemma_unique_position(u, k, p);
        assert(u[k] == l[k2]);
        lemma_unique_position(l, k2, p);
    }
    assert(list_map(u) =~= list_map(l).remove(l[i].0));
}

/// Putting a new path in place of a listed one moves its value to the new path in the map.
pub proof fn lemma_list_map_replace<T>(l: Seq<(Seq<u8>, T)>, i: int, x: (Seq<u8>, T))
    requires
        unique_paths(l),
        0 <= i < l.len(),
        !listed(l, x.0),
    ensures
        unique_paths(l.update(i, x)),
        list_map(l.update(i, x)) == list_map(l).remove(l[i].0).insert(x.0, x.1),
{
    let u = l.update(i, x);
    assert forall|a: int, b: int| 0 <= a < u.len() && 0 <= b < u.len() && a != b implies #[trigger] u[a].0 != #[trigger] u[b].0 by {
        if a != i && b != i {
            assert(u[a] == l[a] && u[b] == l[b]);
        } else if a == i {
            assert(u[b] == l[b]);
        } else {
            assert(u[a] == l[a]);
        }
    }
    assert forall|p: Seq<u8>| #[trigger] listed(u, p) == ((listed(l, p) && p != l[i].0) || p == x.0) by {
        if listed(u, p) {
            let k = choose|k: int| 0 <= k < u.len() && #[trigger] u[k].0 == p;
            if k != i {
                assert(l[k].0 == p);
                assert(l[k].0 != l[i].0);
            }
        }
        if listed(l, p) && p != l[i].0 {
            let k = choose|k: int| 0 <= k < l.len() && #[trigger] l[k].0 == p;
            assert(k != i);
            assert(u[k].0 == p);
        }
        if p == x.0 {
            assert(u[i].0 == p);
        }
    }
    assert forall|p: Seq<u8>| listed(u, p) implies #[trigger] value_at(u, p) == list_map(l).remove(l[i].0).insert(x.0, x.1)[p] by {
        let k = choose|k: int| 0 <= k < u.len() && #[trigger] u[k].0 == p;
        lemma_unique_position(u, k, p);
        if k != i {
            assert(u[k] == l[k]);
            lemma_unique_position(l, k, p);
            assert(p != x.0);
        }
    }
    assert(list_map(u) =~= list_map(l).remove(l[i].0).insert(x.0, x.1));
}

/// Adding a file to a list without repeated paths sets its value in the map.
pub proof fn lemma_list_map_insert<T>(l: Seq<(Seq<u8>, T)>, x: (Seq<u8>, T))
    requires
        unique_paths(l),
    ensures
        unique_paths(insert_spec(l, x)),
        list_map(insert_spec(l, x)) == list_map(l).insert(x.0, x.1),
{
    if listed(l, x.0) {
        let i = choose|i: int| 0 <= i < l.len() && #[trigger] l[i].0 == x.0;
        lemma_list_map_update(l, i, x);
    } else {
        lemma_list_map_push(l, x);
    }
}

/// Whether `p` lies strictly inside the directory `d` (the root directory is the empty path).
pub open spec fn is_inside(p: Seq<u8>, d: Seq<u8>) -> bool {
    if d.len() == 0 {
        p.len() > 0
    } else {
        p.len() > d.len() && p.subrange(0, d.len() as int) == d && p[d.len() as int] == 47u8
    }
}

/// Where the name of a child of `d` starts in its path.
pub open spec fn name_start(d: Seq<u8>) -> int {
    if d.len() == 0 {
        0
    } else {
        d.len() as int + 1
    }
}

/// Whether `p` is a direct child of the directory `d`.
pub open spec fn is_child(p: Seq<u8>, d: Seq<u8>) -> bool {
    &&& is_inside(p, d)
    &&& p.len() > name_start(d)
    &&& forall|k: int| name_start(d) <= k < p.len() ==> p[k] != 47u8
}

/// The name of a direct child `p` of `d`.
pub open spec fn child_name(p: Seq<u8>, d: Seq<u8>) -> Seq<u8> {
    p.subrange(name_start(d), p.len() as int)
}

/// Every directory above `p` is in `dirs`.
pub open spec fn parents_in(p: Seq<u8>, dirs: Set<Seq<u8>>) -> bool {
    forall|i: int| 0 < i < p.len() && p[i] == 47u8 ==> #[trigger] dirs.contains(p.subrange(0, i))
}

/// Whether `d` is a directory above `p` (or `p` itself, when `include_self` holds): a non-empty
/// prefix of `p` that ends where a `/` of `p` stands or where `p` ends.
pub open spec fn is_ancestor(d: Seq<u8>, p: Seq<u8>, include_self: bool) -> bool {
    &&& 0 < d.len() <= p.len()
    &&& d == p.subrange(0, d.len() as int)
    &&& if d.len() == p.len() {
        include_self
    } else {
        p[d.len() as int] == 47u8
    }
}

/// The directories above `p`, and `p` itself when `include_self` holds.
pub open spec fn ancestors(p: Seq<u8>, include_self: bool) -> Set<Seq<u8>> {
    Set::new(|d: Seq<u8>| is_ancestor(d, p, include_self))
}

/// Whether `q` is `p` or lies inside the directory `p`.
pub open spec fn is_within(q: Seq<u8>, p: Seq<u8>) -> bool {
    q == p || is_inside(q, p)
}

/// The path of the child named `n` of the directory `d`.
pub open spec fn join(d: Seq<u8>, n: Seq<u8>) -> Seq<u8> {
    if d.len() == 0 {
        n
    } else {
        d.push(47u8) + n
    }
}

/// Whether `b` holds no `/`.
pub open spec fn no_slash(b: Seq<u8>) -> bool {
    forall|k: int| 0 <= k < b.len() ==> b[k] != 47u8
}

/// Splitting valid UTF-8 around a `/` leaves valid UTF-8 on both sides.
pub proof fn lemma_utf8_slash_split(b: Seq<u8>, i: int)
    requires
        valid_utf8(b),
        0 <= i < b.len(),
        b[i] == 47u8,
    ensures
        valid_utf8(b.subrange(0, i)),
        valid_utf8(b.subrange(i + 1, b.len() as int)),
{
    assert(!is_continuation_byte(b[i]));
    is_char_boundary_iff_not_is_continuation_byte(b, i);
    valid_utf8_split(b, i);
    let s = b.subrange(i, b.len() as int);
    assert(s[0] == 47u8);
    assert(valid_utf8(s));
    assert(pop_first_scalar(s) =~= b.subrange(i + 1, b.len() as int));
}

/// The name of a child is valid UTF-8 when the path of the child is.
pub proof fn lemma_child_name_utf8(q: Seq<u8>, p: Seq<u8>)
    requires
        valid_utf8(q),
        is_child(q, p),
    ensures
        valid_utf8(child_name(q, p)),
        no_slash(child_name(q, p)),
        child_name(q, p).len() > 0,
        q == join(p, child_name(q, p)),
{
    if p.len() > 0 {
        lemma_utf8_slash_split(q, p.len() as int);
        assert(child_name(q, p) =~= q.subrange(p.len() as int + 1, q.len() as int));
        assert(q =~= p.push(47u8) + child_name(q, p));
    } else {
        assert(child_name(q, p) =~= q);
    }
}

/// Copies `a[from..to]`.
pub fn copy_range(a: &[u8], from: usize, to: usize) -> (r: Vec<u8>)
    requires
        from <= to <= a@.len(),
    ensures
        r@ == a@.subrange(from as int, to as int),
{
    let mut out: Vec<u8> = Vec::new();
    let mut i = from;
    while i < to
        invariant
            from <= i <= to <= a@.len(),
            out@ == a@.subrange(from as int, i as int),
        decreases to - i,
    {
        out.push(a[i]);
        i += 1;
    }
    out
}

/// Whether `q` lies strictly inside the directory `p`.
pub fn inside(q: &[u8], p: &[u8]) -> (r: bool)
    ensures
        r == is_inside(q@, p@),
{
    if p.len() == 0 {
        return q.len() > 0;
    }
    if q.len() <= p.len() {
        return false;
    }
    let mut i: usize = 0;
    while i < p.len()
        invariant
            p@.len() < q@.len(),
            i <= p@.len(),
            forall|k: int| 0 <= k < i ==> q@[k] == p@[k],
        decreases p@.len() - i,
    {
        if q[i] != p[i] {
            assert(q@.subrange(0, p@.len() as int)[i as int] != p@[i as int]);
            return false;
        }
        i += 1;
    }
    assert(q@.subrange(0, p@.len() as int) =~= p@);
    q[p.len()] == 47u8
}

/// Whether `q` is `p` or lies inside the directory `p`.
pub fn within(q: &[u8], p: &[u8]) -> (r: bool)
    ensures
        r == is_within(q@, p@),
{
    bytes_eq(q, p) || inside(q, p)
}

/// The name of `q` in the directory `p`, if `q` is a direct child of `p`.
pub fn direct_child_name(q: &[u8], p: &[u8]) -> (r: Option<Vec<u8>>)
    ensures
        r is Some <==> is_child(q@, p@),
        r matches Some(n) ==> n@ == child_name(q@, p@),
{
    if !inside(q, p) {
        return None;
    }
    let ql = q.len();
    assert(ql > p@.len());
    let start = if p.len() == 0 { 0 } else { p.len() + 1 };
    if q.len() <= start {
        return None;
    }
    let mut k = start;
    while k < q.len()
        invariant
            start == name_start(p@),
            start <= k <= q@.len(),
            forall|j: int| start <= j < k ==> q@[j] != 47u8,
        decreases q@.len() - k,
    {
        if q[k] == 47u8 {
            return None;
        }
        k += 1;
    }
    Some(copy_range(q, start, q.len()))
}

/// The path of the child named `n` of the directory `d`.
pub fn join_path(d: &[u8], n: &[u8]) -> (r: Vec<u8>)
    ensures
        r@ == join(d@, n@),
{
    let mut out = copy_range(d, 0, d.len());
    if d.len() > 0 {
        out.push(47u8);
    }
    let mut i: usize = 0;
    while i < n.len()
        invariant
            i <= n@.len(),
            out@ == (if d@.len() == 0 { d@ } else { d@.push(47u8) }) + n@.subrange(0, i as int),
        decreases n@.len() - i,
    {
        out.push(n[i]);
        i += 1;
    }
    assert(d@.subrange(0, d@.len() as int) =~= d@);
    assert(n@.subrange(0, n@.len() as int) =~= n@);
    proof {
        if d@.len() == 0 {
            assert(d@ + n@ =~= n@);
        }
    }
    out
}

/// Whether the list `names` holds `n`.
pub fn holds_name(names: &Vec<Vec<u8>>, n: &[u8]) -> (r: bool)
    ensures
        r == (exists|i: int| 0 <= i < names@.len() && #[trigger] names@[i]@ == n@),
{
    let mut i: usize = 0;
    while i < names.len()
        invariant
            i <= names@.len(),
            forall|j: int| 0 <= j < i ==> #[trigger] names@[j]@ != n@,
        decreases names@.len() - i,
    {
        if bytes_eq(names[i].as_slice(), n) {
            return true;
        }
        i += 1;
    }
    false
}

/// What a filter keeps comes from the list, in order and without repeating a position.
pub proof fn lemma_filter_subseq<T>(l: Seq<(Seq<u8>, T)>, pred: spec_fn((Seq<u8>, T)) -> bool)
    requires
        unique_paths(l),
    ensures
        unique_paths(l.filter(pred)),
        forall|k: int| 0 <= k < l.filter(pred).len() ==> exists|j: int| 0 <= j < l.len() && #[trigger] l[j] == #[trigger] l.filter(pred)[k],
        forall|k: int| 0 <= k < l.filter(pred).len() ==> pred(#[trigger] l.filter(pred)[k]),
    decreases l.len(),
{
    reveal(Seq::filter);
    if l.len() > 0 {
        let init = l.drop_last();
        assert(unique_paths(init)) by {
            assert forall|a: int, b: int| 0 <= a < init.len() && 0 <= b < init.len() && a != b implies #[trigger] init[a].0 != #[trigger] init[b].0 by {
                assert(init[a] == l[a] && init[b] == l[b]);
            }
        }
        lemma_filter_subseq(init, pred);
        let fi = init.filter(pred);
        let f = l.filter(pred);
        if pred(l.last()) {
            assert(f == fi.push(l.last()));
            assert forall|k: int| 0 <= k < f.len() implies exists|j: int| 0 <= j < l.len() && #[trigger] l[j] == #[trigger] f[k] by {
                if k < fi.len() {
                    let j = choose|j: int| 0 <= j < init.len() && #[trigger] init[j] == fi[k];
                    assert(l[j] == f[k]);
                } else {
                    assert(l[l.len() - 1] == f[k]);
                }
            }
            assert forall|a: int, b: int| 0 <= a < f.len() && 0 <= b < f.len() && a != b implies #[trigger] f[a].0 != #[trigger] f[b].0 by {
                if a < fi.len() && b < fi.len() {
                    assert(f[a] == fi[a] && f[b] == fi[b]);
                } else if a < fi.len() {
                    let j = choose|j: int| 0 <= j < init.len() && #[trigger] init[j] == fi[a];
                    assert(l[j] == f[a]);
                    assert(f[b] == l[l.len() - 1]);
                } else if b < fi.len() {
                    let j = choose|j: int| 0 <= j < init.len() && #[trigger] init[j] == fi[b];
                    assert(l[j] == f[b]);
                    assert(f[a] == l[l.len() - 1]);
                }
            }
            assert forall|k: int| 0 <= k < f.len() implies pred(#[trigger] f[k]) by {
                if k < fi.len() {
                    assert(f[k] == fi[k]);
                }
            }
        } else {
            assert forall|k: int| 0 <= k < f.len() implies exists|j: int| 0 <= j < l.len() && #[trigger] l[j] == #[trigger] f[k] by {
                let j = choose|j: int| 0 <= j < init.len() && #[trigger] init[j] == fi[k];
                assert(l[j] == f[k]);
            }
        }
    }
}

/// A filter that keeps everything keeps the list as it is.
pub proof fn lemma_filter_all<T>(l: Seq<(Seq<u8>, T)>, pred: spec_fn((Seq<u8>, T)) -> bool)
    requires
        forall|i: int| 0 <= i < l.len() ==> pred(#[trigger] l[i]),
    ensures
        l.filter(pred) == l,
    decreases l.len(),
{
    reveal(Seq::filter);
    if l.len() > 0 {
        let init = l.drop_last();
        assert forall|i: int| 0 <= i < init.len() implies pred(#[trigger] init[i]) by {
            assert(init[i] == l[i]);
        }
        lemma_filter_all(init, pred);
        assert(pred(l[l.len() - 1]));
        assert(init.push(l.last()) =~= l);
    }
}

/// A path that extends something within `p` at a `/` is within `p` too.
pub proof fn lemma_within_extend(f: Seq<u8>, m: int, p: Seq<u8>)
    requires
        0 < m < f.len(),
        f[m] == 47u8,
        is_within(f.subrange(0, m), p),
    ensures
        is_within(f, p),
{
    let r = f.subrange(0, m);
    if p.len() > 0 {
        if r == p {
            assert(f.subrange(0, p.len() as int) =~= p);
        } else {
            assert(f.subrange(0, p.len() as int) =~= r.subrange(0, p.len() as int));
            assert(f[p.len() as int] == r[p.len() as int]);
        }
    }
}

/// The paths, as bytes, of a list of named values.
pub open spec fn str_names<V>(v: Seq<(String, V)>) -> Set<Seq<u8>> {
    Set::new(|n: Seq<u8>| exists|k: int| 0 <= k < v.len() && encode_utf8(#[trigger] v[k].0@) == n)
}

/// The names held by a list of names.
pub open spec fn name_set(names: Seq<Vec<u8>>) -> Set<Seq<u8>> {
    Set::new(|x: Seq<u8>| exists|k: int| 0 <= k < names.len() && #[trigger] names[k]@ == x)
}

/// No name is held twice.
pub open spec fn distinct_names(names: Seq<Vec<u8>>) -> bool {
    forall|a: int, b: int| 0 <= a < names.len() && 0 <= b < names.len() && a != b ==> #[trigger] names[a]@ != #[trigger] names[b]@
}

/// Adds `n` to a list of distinct names unless it is already there.
pub fn add_name(names: &mut Vec<Vec<u8>>, n: Vec<u8>)
    requires
        distinct_names(old(names)@),
    ensures
        distinct_names(final(names)@),
        name_set(final(names)@) == name_set(old(names)@).insert(n@),
        forall|k: int| 0 <= k < final(names)@.len() ==> (#[trigger] final(names)@[k])@ == n@
            || exists|j: int| 0 <= j < old(names)@.len() && old(names)@[j]@ == final(names)@[k]@,
{
    if holds_name(names, n.as_slice()) {
        assert(name_set(names@).insert(n@) =~= name_set(names@));
        return;
    }
    let ghost before = names@;
    names.push(n);
    assert forall|x: Seq<u8>| #[trigger] name_set(names@).contains(x) == name_set(before).insert(n@).contains(x) by {
        if name_set(before).contains(x) {
            let k = choose|k: int| 0 <= k < before.len() && #[trigger] before[k]@ == x;
            assert(names@[k] == before[k]);
        }
        if x == n@ {
            assert(names@[before.len() as int]@ == x);
        }
        if name_set(names@).contains(x) {
            let k = choose|k: int| 0 <= k < names@.len() && #[trigger] names@[k]@ == x;
            if k < before.len() {
                assert(names@[k] == before[k]);
            }
        }
    }
    assert(name_set(names@) =~= name_set(before).insert(n@));
    assert forall|k: int| 0 <= k < names@.len() implies (#[trigger] names@[k])@ == n@
        || exists|j: int| 0 <= j < before.len() && before[j]@ == names@[k]@ by {
        if k < before.len() {
            assert(names@[k] == before[k]);
        }
    }
    assert forall|a: int, b: int| 0 <= a < names@.len() && 0 <= b < names@.len() && a != b implies #[trigger] names@[a]@ != #[trigger] names@[b]@ by {
        if a < before.len() && b < before.len() {
            assert(names@[a] == before[a] && names@[b] == before[b]);
        } else if a < before.len() {
            assert(names@[a] == before[a]);
        } else if b < before.len() {
            assert(names@[b] == before[b]);
        }
    }
}

/// A container for a directory tree-like cache where the "files" are a data type of your choice.
pub struct FileSystemTrie<T> {
    files: Vec<(String, T)>,
    dirs: Vec<Vec<u8>>,
}

impl<T> FileSystemTrie<T> {
    /// The files, with their paths as bytes, in the order they were first added.
    pub closed spec fn file_list(&self) -> Seq<(Seq<u8>, T)> {
        files_view(self.files@)
    }

    /// The directories, besides the root directory.
    pub closed spec fn dir_set(&self) -> Set<Seq<u8>> {
        Set::new(|d: Seq<u8>| exists|i: int| 0 <= i < self.dirs@.len() && #[trigger] self.dirs@[i]@ == d)
    }

    /// Files are listed once under non-empty paths, directories are non-empty valid UTF-8, and
    /// every directory above a file or a directory is a directory.
    pub closed spec fn wf(&self) -> bool {
        &&& unique_paths(self.file_list())
        &&& forall|i: int| 0 <= i < self.file_list().len() ==> (#[trigger] self.file_list()[i]).0.len() > 0
        &&& forall|i: int| 0 <= i < self.file_list().len() ==> parents_in(#[trigger] self.file_list()[i].0, self.dir_set())
        &&& forall|d: Seq<u8>| #[trigger] self.dir_set().contains(d) ==> d.len() > 0 && valid_utf8(d) && parents_in(d, self.dir_set())
    }

    /// Whether a directory exists at `p`: the root directory always does.
    pub open spec fn has_dir_spec(&self, p: Seq<u8>) -> bool {
        p.len() == 0 || self.dir_set().contains(p)
    }

    /// The names of the direct children, files and directories, of the directory `p`.
    pub open spec fn child_names(&self, p: Seq<u8>) -> Set<Seq<u8>> {
        Set::new(|n: Seq<u8>| exists|q: Seq<u8>|
            (self.dir_set().contains(q) || listed(self.file_list(), q)) && #[trigger] is_child(q, p)
                && child_name(q, p) == n)
    }

    pub fn new() -> (r: Self)
        ensures
            r.wf(),
            r.file_list() == Seq::<(Seq<u8>, T)>::empty(),
            r.dir_set() == Set::<Seq<u8>>::empty(),
    {
        let r = FileSystemTrie { files: Vec::new(), dirs: Vec::new() };
        assert(r.file_list() =~= Seq::<(Seq<u8>, T)>::empty());
        assert(r.dir_set() =~= Set::<Seq<u8>>::empty());
        r
    }

    /// Whether `d` is one of the directories.
    fn has_dir(&self, d: &[u8]) -> (r: bool)
        ensures
            r == self.dir_set().contains(d@),
    {
        let mut i: usize = 0;
        while i < self.dirs.len()
            invariant
                i <= self.dirs@.len(),
                forall|j: int| 0 <= j < i ==> #[trigger] self.dirs@[j]@ != d@,
            decreases self.dirs@.len() - i,
        {
            if bytes_eq(self.dirs[i].as_slice(), d) {
                assert(self.dirs@[i as int]@ == d@);
                return true;
            }
            i += 1;
        }
        false
    }

    /// Adds `d` to the list of directories.
    fn push_dir(&mut self, d: Vec<u8>)
        ensures
            final(self).file_list() == old(self).file_list(),
            final(self).dir_set() == old(self).dir_set().insert(d@),
    {
        let ghost before = self.dirs@;
        self.dirs.push(d);
        assert forall|x: Seq<u8>| #[trigger] self.dir_set().contains(x) == old(self).dir_set().insert(d@).contains(x) by {
            if old(self).dir_set().contains(x) {
                let j = choose|j: int| 0 <= j < before.len() && #[trigger] before[j]@ == x;
                assert(self.dirs@[j] == before[j]);
            }
            if x == d@ {
                assert(self.dirs@[before.len() as int]@ == x);
            }
            if self.dir_set().contains(x) {
                let j = choose|j: int| 0 <= j < self.dirs@.len() && #[trigger] self.dirs@[j]@ == x;
                if j < before.len() {
                    assert(self.dirs@[j] == before[j]);
                    assert(old(self).dir_set().contains(x));
                }
            }
        }
        assert(self.dir_set() =~= old(self).dir_set().insert(d@));
    }

    /// Adds the prefix `path[..i]` as a directory when it is not one yet.
    fn add_prefix_dir(&mut self, path: &[u8], i: usize)
        requires
            old(self).wf(),
            valid_utf8(path@),
            0 < i <= path@.len(),
            i < path@.len() ==> path@[i as int] == 47u8,
            forall|j: int| 0 < j < i && path@[j] == 47u8 ==> #[trigger] old(self).dir_set().contains(path@.subrange(0, j)),
        ensures
            final(self).wf(),
            final(self).file_list() == old(self).file_list(),
            final(self).dir_set() == old(self).dir_set().insert(path@.subrange(0, i as int)),
    {
        let d = copy_range(path, 0, i);
        if self.has_dir(d.as_slice()) {
            assert(self.dir_set().insert(d@) =~= self.dir_set());
            return;
        }
        proof {
            if i < path@.len() {
                lemma_utf8_slash_split(path@, i as int);
            } else {
                assert(path@.subrange(0, i as int) =~= path@);
            }
        }
        let ghost dv = d@;
        self.push_dir(d);
        proof {
            assert forall|j: int| 0 < j < dv.len() && dv[j] == 47u8 implies #[trigger] self.dir_set().contains(dv.subrange(0, j)) by {
                assert(dv.subrange(0, j) =~= path@.subrange(0, j));
                assert(path@[j] == dv[j]);
            }
            assert(parents_in(dv, self.dir_set()));
            assert forall|x: Seq<u8>| #[trigger] self.dir_set().contains(x) implies x.len() > 0 && valid_utf8(x) && parents_in(x, self.dir_set()) by {
                if x != dv {
                    assert(old(self).dir_set().contains(x));
                    assert forall|j: int| 0 < j < x.len() && x[j] == 47u8 implies #[trigger] self.dir_set().contains(x.subrange(0, j)) by {
                        assert(old(self).dir_set().contains(x.subrange(0, j)));
                    }
                }
            }
            assert forall|k: int| 0 <= k < self.file_list().len() implies parents_in(#[trigger] self.file_list()[k].0, self.dir_set()) by {
                let p = self.file_list()[k].0;
                assert(parents_in(p, old(self).dir_set()));
                assert forall|j: int| 0 < j < p.len() && p[j] == 47u8 implies #[trigger] self.dir_set().contains(p.subrange(0, j)) by {
                    assert(old(self).dir_set().contains(p.subrange(0, j)));
                }
            }
        }
    }

    /// Adds every directory above `path`, and `path` itself when `include_self` holds.
    fn add_dirs(&mut self, path: &[u8], include_self: bool)
        requires
            old(self).wf(),
            valid_utf8(path@),
        ensures
            final(self).wf(),
            final(self).file_list() == old(self).file_list(),
            final(self).dir_set() == old(self).dir_set().union(ancestors(path@, include_self)),
    {
        let ghost old_dirs = self.dir_set();
        let mut i: usize = 1;
        while i < path.len()
            invariant
                self.wf(),
                valid_utf8(path@),
                1 <= i <= path@.len() || path@.len() == 0,
                self.file_list() == old(self).file_list(),
                old_dirs == old(self).dir_set(),
                self.dir_set() == old_dirs.union(
                    Set::new(|d: Seq<u8>| is_ancestor(d, path@, false) && d.len() < i),
                ),
            decreases path@.len() - i,
        {
            if path[i] == 47u8 {
                proof {
                    assert forall|j: int| 0 < j < i && path@[j] == 47u8 implies #[trigger] self.dir_set().contains(path@.subrange(0, j)) by {
                        assert(is_ancestor(path@.subrange(0, j), path@, false));
                    }
                }
                self.add_prefix_dir(path, i);
                assert(is_ancestor(path@.subrange(0, i as int), path@, false));
            }
            assert(self.dir_set() =~= old_dirs.union(
                Set::new(|d: Seq<u8>| is_ancestor(d, path@, false) && d.len() < i + 1),
            ));
            i += 1;
        }
        assert(Set::new(|d: Seq<u8>| is_ancestor(d, path@, false) && d.len() < i)
            =~= ancestors(path@, false));
        if include_self && path.len() > 0 {
            proof {
                assert forall|j: int| 0 < j < path@.len() && path@[j] == 47u8 implies #[trigger] self.dir_set().contains(path@.subrange(0, j)) by {
                    assert(is_ancestor(path@.subrange(0, j), path@, false));
                }
            }
            let n = path.len();
            self.add_prefix_dir(path, n);
            assert(path@.subrange(0, n as int) =~= path@);
            assert(self.dir_set() =~= old_dirs.union(ancestors(path@, include_self)));
        } else {
            assert(ancestors(path@, include_self) =~= ancestors(path@, false));
        }
    }

    /// Adds a directory to the trie. If parent directories do not exist, they will be created.
    pub fn create_dir(&mut self, path: &str)
        requires
            old(self).wf(),
        ensures
            final(self).wf(),
            final(self).file_list() == old(self).file_list(),
            final(self).dir_set() == old(self).dir_set().union(ancestors(encode_utf8(path@), true)),
    {
        self.add_dirs(path.as_bytes(), true);
    }

    /// Adds a file to the trie with the given value. If parent directories do not exist, they will
    /// be created. If there already was a file at the given path, the value it held will be
    /// returned.
    pub fn create_file(&mut self, path: &str, value: T) -> (r: Option<T>)
        requires
            old(self).wf(),
            path@.len() > 0,
        ensures
            final(self).wf(),
            final(self).file_list() == insert_spec(old(self).file_list(), (encode_utf8(path@), value)),
            final(self).dir_set() == old(self).dir_set().union(ancestors(encode_utf8(path@), false)),
            r == (if listed(old(self).file_list(), encode_utf8(path@)) {
                Some(value_at(old(self).file_list(), encode_utf8(path@)))
            } else {
                None
            }),
    {
        let bytes = path.as_bytes();
        proof {
            assert(encode_utf8(path@).len() > 0) by {
                reveal_with_fuel(encode_utf8, 1);
            }
        }
        self.add_dirs(bytes, false);
        let ghost l = self.file_list();
        match find(&self.files, bytes) {
            Some(i) => {
                proof {
                    lemma_unique_position(l, i as int, bytes@);
                }
                let (k, old) = self.files.remove(i);
                self.files.insert(i, (k, value));
                proof {
                    assert(self.file_list() =~= l.update(i as int, (bytes@, value)));
                    assert forall|a: int, b: int|
                        0 <= a < self.file_list().len() && 0 <= b < self.file_list().len() && a != b
                        implies #[trigger] self.file_list()[a].0 != #[trigger] self.file_list()[b].0 by {
                        assert(l[a].0 == self.file_list()[a].0);
                        assert(l[b].0 == self.file_list()[b].0);
                    }
                    assert forall|k2: int| 0 <= k2 < self.file_list().len() implies parents_in(#[trigger] self.file_list()[k2].0, self.dir_set()) by {
                        assert(l[k2].0 == self.file_list()[k2].0);
                    }
                }
                Some(old)
            },
            None => {
                self.files.push((path.to_owned(), value));
                proof {
                    assert(self.file_list() =~= l.push((bytes@, value)));
                    assert forall|a: int, b: int|
                        0 <= a < self.file_list().len() && 0 <= b < self.file_list().len() && a != b
                        implies #[trigger] self.file_list()[a].0 != #[trigger] self.file_list()[b].0 by {
                        if a < l.len() && b < l.len() {
                            assert(l[a].0 == self.file_list()[a].0);
                            assert(l[b].0 == self.file_list()[b].0);
                        } else if a < l.len() {
                            assert(l[a].0 == self.file_list()[a].0);
                        } else if b < l.len() {
                            assert(l[b].0 == self.file_list()[b].0);
                        }
                    }
                    assert forall|k2: int| 0 <= k2 < self.file_list().len() implies parents_in(#[trigger] self.file_list()[k2].0, self.dir_set()) by {
                        if k2 < l.len() {
                            assert(l[k2].0 == self.file_list()[k2].0);
                        } else {
                            assert forall|j: int| 0 < j < bytes@.len() && bytes@[j] == 47u8 implies #[trigger] self.dir_set().contains(bytes@.subrange(0, j)) by {
                                assert(is_ancestor(bytes@.subrange(0, j), bytes@, false));
                                assert(ancestors(bytes@, false).contains(bytes@.subrange(0, j)));
                            }
                        }
                    }
                }
                None
            },
        }
    }

    /// Returns whether or not a directory exists at the given path.
    pub fn contains_dir(&self, path: &str) -> (r: bool)
        ensures
            r == self.has_dir_spec(encode_utf8(path@)),
    {
        let bytes = path.as_bytes();
        bytes.len() == 0 || self.has_dir(bytes)
    }

    /// Returns whether or not a file exists at the given path.
    pub fn contains_file(&self, path: &str) -> (r: bool)
        ensures
            r == listed(self.file_list(), encode_utf8(path@)),
    {
        find(&self.files, path.as_bytes()).is_some()
    }

    /// Returns whether or not a file or directory exists at the given path.
    pub fn contains(&self, path: &str) -> (r: bool)
        ensures
            r == (listed(self.file_list(), encode_utf8(path@)) || self.has_dir_spec(encode_utf8(path@))),
    {
        self.contains_file(path) || self.contains_dir(path)
    }

    /// Gets an immutable reference to the value in the file at the given path, if it exists.
    pub fn get_file(&self, path: &str) -> (r: Option<&T>)
        requires
            self.wf(),
        ensures
            r == (if listed(self.file_list(), encode_utf8(path@)) {
                Some(&value_at(self.file_list(), encode_utf8(path@)))
            } else {
                None
            }),
    {
        match find(&self.files, path.as_bytes()) {
            Some(i) => {
                proof {
                    lemma_unique_position(self.file_list(), i as int, encode_utf8(path@));
                }
                Some(&self.files[i].1)
            },
            None => None,
        }
    }

    /// Gets a mutable reference to the value in the file at the given path, which must exist.
    pub fn get_file_mut(&mut self, path: &str) -> (r: &mut T)
        requires
            old(self).wf(),
            listed(old(self).file_list(), encode_utf8(path@)),
        ensures
            *r == value_at(old(self).file_list(), encode_utf8(path@)),
            final(self).file_list() == set_value(old(self).file_list(), encode_utf8(path@), *final(r)),
            final(self).dir_set() == old(self).dir_set(),
            final(self).wf(),
    {
        let i = match find(&self.files, path.as_bytes()) {
            Some(i) => i,
            None => {
                proof {
                    assert(false);
                }
                0
            },
        };
        proof {
            lemma_unique_position(self.file_list(), i as int, encode_utf8(path@));
        }
        &mut self.files[i].1
    }

    /// Gets an immutable reference to the value in the file at the given path or creates the file
    /// with the given value if it doesn't.
    pub fn get_or_create_file(&mut self, path: &str, value: T) -> (r: &T)
        requires
            old(self).wf(),
            path@.len() > 0,
        ensures
            final(self).wf(),
            listed(old(self).file_list(), encode_utf8(path@)) ==> final(self).file_list() == old(self).file_list()
                && final(self).dir_set() == old(self).dir_set(),
            !listed(old(self).file_list(), encode_utf8(path@)) ==> final(self).file_list() == old(self).file_list().push((encode_utf8(path@), value))
                && final(self).dir_set() == old(self).dir_set().union(ancestors(encode_utf8(path@), false)),
            *r == value_at(final(self).file_list(), encode_utf8(path@)),
            listed(final(self).file_list(), encode_utf8(path@)),
    {
        if !self.contains_file(path) {
            self.create_file(path, value);
            let ghost l = self.file_list();
            proof {
                lemma_unique_position(l, l.len() - 1, encode_utf8(path@));
            }
        }
        proof {
            let p = encode_utf8(path@);
            let i = choose|i: int| 0 <= i < self.file_list().len() && #[trigger] self.file_list()[i].0 == p;
            lemma_unique_position(self.file_list(), i, p);
        }
        match self.get_file(path) {
            Some(v) => v,
            None => {
                proof {
                    assert(false);
                }
                &self.files[0].1
            },
        }
    }

    /// Removes the file at the given path if it exists, and returns the value it held.
    pub fn remove_file(&mut self, path: &str) -> (r: Option<T>)
        requires
            old(self).wf(),
        ensures
            final(self).wf(),
            final(self).file_list() == remove_spec(old(self).file_list(), encode_utf8(path@)),
            final(self).dir_set() == old(self).dir_set(),
            r == (if listed(old(self).file_list(), encode_utf8(path@)) {
                Some(value_at(old(self).file_list(), encode_utf8(path@)))
            } else {
                None
            }),
    {
        let ghost l = self.file_list();
        match find(&self.files, path.as_bytes()) {
            Some(i) => {
                proof {
                    lemma_unique_position(l, i as int, encode_utf8(path@));
                }
                let (_, old) = self.files.remove(i);
                proof {
                    assert(self.file_list() =~= l.remove(i as int));
                    assert forall|a: int, b: int|
                        0 <= a < self.file_list().len() && 0 <= b < self.file_list().len() && a != b
                        implies #[trigger] self.file_list()[a].0 != #[trigger] self.file_list()[b].0 by {
                        let a2 = if a < i { a } else { a + 1 };
                        let b2 = if b < i { b } else { b + 1 };
                        assert(l[a2].0 == self.file_list()[a].0);
                        assert(l[b2].0 == self.file_list()[b].0);
                    }
                    assert forall|k2: int| 0 <= k2 < self.file_list().len() implies parents_in(#[trigger] self.file_list()[k2].0, self.dir_set())
                        && self.file_list()[k2].0.len() > 0 by {
                        let k3 = if k2 < i { k2 } else { k2 + 1 };
                        assert(l[k3].0 == self.file_list()[k2].0);
                    }
                }
                Some(old)
            },
            None => None,
        }
    }

    /// The names of the direct children of `p` among the first `i` directories.
    spec fn dir_children_upto(&self, p: Seq<u8>, i: int) -> Set<Seq<u8>> {
        Set::new(|x: Seq<u8>| exists|j: int| 0 <= j < i && #[trigger] is_child(self.dirs@[j]@, p)
            && child_name(self.dirs@[j]@, p) == x)
    }

    /// The names of the direct children of `p` among the first `i` files.
    spec fn file_children_upto(&self, p: Seq<u8>, i: int) -> Set<Seq<u8>> {
        Set::new(|x: Seq<u8>| exists|j: int| 0 <= j < i && #[trigger] is_child(self.file_list()[j].0, p)
            && child_name(self.file_list()[j].0, p) == x)
    }

    /// The names of the direct children of the directory `p`, each once.
    fn children(&self, p: &[u8]) -> (r: Vec<Vec<u8>>)
        requires
            self.wf(),
        ensures
            distinct_names(r@),
            name_set(r@) == self.child_names(p@),
            forall|k: int| 0 <= k < r@.len() ==> valid_utf8(#[trigger] r@[k]@) && no_slash(r@[k]@)
                && r@[k]@.len() > 0,
    {
        let mut names: Vec<Vec<u8>> = Vec::new();
        let mut i: usize = 0;
        assert(name_set(names@) =~= self.dir_children_upto(p@, 0));
        while i < self.dirs.len()
            invariant
                self.wf(),
                i <= self.dirs@.len(),
                distinct_names(names@),
                name_set(names@) == self.dir_children_upto(p@, i as int),
                forall|k: int| 0 <= k < names@.len() ==> valid_utf8(#[trigger] names@[k]@) && no_slash(names@[k]@)
                    && names@[k]@.len() > 0,
            decreases self.dirs@.len() - i,
        {
            let q = self.dirs[i].as_slice();
            assert(self.dir_set().contains(q@));
            let ghost before = self.dir_children_upto(p@, i as int);
            match direct_child_name(q, p) {
                Some(n) => {
                    proof {
                        lemma_child_name_utf8(q@, p@);
                    }
                    add_name(&mut names, n);
                    assert(self.dir_children_upto(p@, i + 1) =~= before.insert(child_name(q@, p@)));
                },
                None => {
                    assert(self.dir_children_upto(p@, i + 1) =~= before);
                },
            }
            i += 1;
        }
        let ghost from_dirs = self.dir_children_upto(p@, self.dirs@.len() as int);
        let mut i: usize = 0;
        assert(name_set(names@) =~= from_dirs.union(self.file_children_upto(p@, 0)));
        while i < self.files.len()
            invariant
                self.wf(),
                i <= self.files@.len(),
                from_dirs == self.dir_children_upto(p@, self.dirs@.len() as int),
                distinct_names(names@),
                name_set(names@) == from_dirs.union(self.file_children_upto(p@, i as int)),
                forall|k: int| 0 <= k < names@.len() ==> valid_utf8(#[trigger] names@[k]@) && no_slash(names@[k]@)
                    && names@[k]@.len() > 0,
            decreases self.files@.len() - i,
        {
            let q = self.files[i].0.as_str().as_bytes();
            assert(q@ == self.file_list()[i as int].0);
            let ghost before = self.file_children_upto(p@, i as int);
            match direct_child_name(q, p) {
                Some(n) => {
                    proof {
                        lemma_child_name_utf8(q@, p@);
                    }
                    add_name(&mut names, n);
                    assert(self.file_children_upto(p@, i + 1) =~= before.insert(child_name(q@, p@)));
                    assert(name_set(names@) =~= from_dirs.union(self.file_children_upto(p@, i + 1)));
                },
                None => {
                    assert(self.file_children_upto(p@, i + 1) =~= before);
                },
            }
            i += 1;
        }
        assert forall|n: Seq<u8>| #[trigger] self.child_names(p@).contains(n) == name_set(names@).contains(n) by {
            if self.child_names(p@).contains(n) {
                let q = choose|q: Seq<u8>| (self.dir_set().contains(q) || listed(self.file_list(), q)) && #[trigger] is_child(q, p@)
                    && child_name(q, p@) == n;
                if self.dir_set().contains(q) {
                    let j = choose|j: int| 0 <= j < self.dirs@.len() && #[trigger] self.dirs@[j]@ == q;
                    assert(is_child(self.dirs@[j]@, p@));
                    assert(from_dirs.contains(n));
                } else {
                    let j = choose|j: int| 0 <= j < self.file_list().len() && #[trigger] self.file_list()[j].0 == q;
                    assert(is_child(self.file_list()[j].0, p@));
                    assert(self.file_children_upto(p@, self.files@.len() as int).contains(n));
                }
            }
            if from_dirs.contains(n) {
                let j = choose|j: int| 0 <= j < self.dirs@.len() && #[trigger] is_child(self.dirs@[j]@, p@)
                    && child_name(self.dirs@[j]@, p@) == n;
                assert(self.dir_set().contains(self.dirs@[j]@));
            }
            if self.file_children_upto(p@, self.files@.len() as int).contains(n) {
                let j = choose|j: int| 0 <= j < self.files@.len() && #[trigger] is_child(self.file_list()[j].0, p@)
                    && child_name(self.file_list()[j].0, p@) == n;
                assert(listed(self.file_list(), self.file_list()[j].0));
            }
        }
        assert(name_set(names@) =~= self.child_names(p@));
        names
    }

    /// Gets the number of direct children in the directory at the given path, if it exists.
    pub fn get_dir_size(&self, path: &str) -> (r: Option<usize>)
        requires
            self.wf(),
        ensures
            r == (if self.has_dir_spec(encode_utf8(path@)) {
                Some(self.child_names(encode_utf8(path@)).len() as usize)
            } else {
                None
            }),
            r matches Some(n) ==> n as int == self.child_names(encode_utf8(path@)).len(),
    {
        if !self.contains_dir(path) {
            return None;
        }
        let names = self.children(path.as_bytes());
        proof {
            let s = Seq::new(names@.len(), |k: int| names@[k]@);
            assert(s.no_duplicates()) by {
                assert forall|a: int, b: int| 0 <= a < s.len() && 0 <= b < s.len() && a != b implies s[a] != s[b] by {
                    assert(names@[a]@ != names@[b]@);
                }
            }
            s.unique_seq_to_set();
            assert forall|n: Seq<u8>| s.to_set().contains(n) == name_set(names@).contains(n) by {
                if s.contains(n) {
                    let k = choose|k: int| 0 <= k < s.len() && s[k] == n;
                    assert(names@[k]@ == n);
                }
                if name_set(names@).contains(n) {
                    let k = choose|k: int| 0 <= k < names@.len() && #[trigger] names@[k]@ == n;
                    assert(s[k] == n);
                }
            }
            assert(s.to_set() =~= self.child_names(encode_utf8(path@)));
        }
        Some(names.len())
    }

    /// Given the path to a directory, returns its children if it exists: the name of each child
    /// with the value of the file of that name, if there is one.
    #[verifier::spinoff_prover]
    pub fn iter_dir(&self, path: &str) -> (r: Option<Vec<(String, Option<&T>)>>)
        requires
            self.wf(),
        ensures
            r is Some <==> self.has_dir_spec(encode_utf8(path@)),
            r matches Some(v) ==> forall|a: int, b: int| 0 <= a < v@.len() && 0 <= b < v@.len() && a != b
                    ==> encode_utf8(#[trigger] v@[a].0@) != encode_utf8(#[trigger] v@[b].0@),
            r matches Some(v) ==> str_names(v@) == self.child_names(encode_utf8(path@)),
            r matches Some(v) ==> {
                &&& forall|k: int| 0 <= k < v@.len() ==> {
                    let c = join(encode_utf8(path@), encode_utf8(#[trigger] v@[k].0@));
                    v@[k].1 == (if listed(self.file_list(), c) {
                        Some(&value_at(self.file_list(), c))
                    } else {
                        None
                    })
                }
            },
    {
        if !self.contains_dir(path) {
            return None;
        }
        let p = path.as_bytes();
        let names = self.children(p);
        let mut out: Vec<(String, Option<&T>)> = Vec::new();
        let mut i: usize = 0;
        while i < names.len()
            invariant
                self.wf(),
                p@ == encode_utf8(path@),
                i <= names@.len(),
                out@.len() == i,
                distinct_names(names@),
                name_set(names@) == self.child_names(p@),
                forall|k: int| 0 <= k < names@.len() ==> valid_utf8(#[trigger] names@[k]@),
                forall|k: int| 0 <= k < i ==> encode_utf8(#[trigger] out@[k].0@) == names@[k]@,
                forall|k: int| 0 <= k < i ==> {
                    let c = join(p@, encode_utf8(#[trigger] out@[k].0@));
                    out@[k].1 == (if listed(self.file_list(), c) {
                        Some(&value_at(self.file_list(), c))
                    } else {
                        None
                    })
                },
            decreases names@.len() - i,
        {
            let n = &names[i];
            let child = join_path(p, n.as_slice());
            let value = match find(&self.files, child.as_slice()) {
                Some(j) => {
                    proof {
                        lemma_unique_position(self.file_list(), j as int, child@);
                    }
                    Some(&self.files[j].1)
                },
                None => None,
            };
            let ghost before = out@;
            let ghost c = join(p@, n@);
            assert(n@.subrange(0, n@.len() as int) =~= n@);
            assert(value == (if listed(self.file_list(), c) {
                Some(&value_at(self.file_list(), c))
            } else {
                None
            }));
            match string_from_utf8(copy_range(n.as_slice(), 0, n.len())) {
                Some(s) => {
                    let ghost sv = s@;
                    proof {
                        assert(encode_utf8(s@) == names@[i as int]@);
                    }
                    out.push((s, value));
                    proof {
                        assert forall|k: int| 0 <= k < i + 1 implies encode_utf8(#[trigger] out@[k].0@) == names@[k]@ by {
                            if k < i {
                                assert(out@[k] == before[k]);
                                assert(encode_utf8(before[k].0@) == names@[k]@);
                            } else {
                                assert(out@[k].0@ == sv);
                                assert(encode_utf8(sv) == names@[k]@);
                            }
                        }
                        assert forall|k: int| 0 <= k < i + 1 implies {
                            let c = join(p@, encode_utf8(#[trigger] out@[k].0@));
                            out@[k].1 == (if listed(self.file_list(), c) {
                                Some(&value_at(self.file_list(), c))
                            } else {
                                None
                            })
                        } by {
                            if k < i {
                                assert(out@[k] == before[k]);
                                let c0 = join(p@, encode_utf8(before[k].0@));
                                assert(before[k].1 == (if listed(self.file_list(), c0) {
                                    Some(&value_at(self.file_list(), c0))
                                } else {
                                    None
                                }));
                            } else {
                                assert(out@[k].0@ == sv);
                                assert(encode_utf8(sv) == n@);
                                assert(out@[k].1 == value);
                            }
                        }
                    }
                },
                None => {
                    proof {
                        assert(valid_utf8(names@[i as int]@));
                    }
                    return None;
                },
            }
            i += 1;
        }
        proof {
            assert forall|a: int, b: int| 0 <= a < out@.len() && 0 <= b < out@.len() && a != b
                implies encode_utf8(#[trigger] out@[a].0@) != encode_utf8(#[trigger] out@[b].0@) by {
                assert(encode_utf8(out@[a].0@) == names@[a]@);
                assert(encode_utf8(out@[b].0@) == names@[b]@);
            }
            assert forall|k: int| 0 <= k < out@.len() implies {
                let c = join(encode_utf8(path@), encode_utf8(#[trigger] out@[k].0@));
                out@[k].1 == (if listed(self.file_list(), c) {
                    Some(&value_at(self.file_list(), c))
                } else {
                    None
                })
            } by {
                let c0 = join(p@, encode_utf8(out@[k].0@));
                assert(out@[k].1 == (if listed(self.file_list(), c0) {
                    Some(&value_at(self.file_list(), c0))
                } else {
                    None
                }));
            }
            assert forall|n: Seq<u8>| self.child_names(p@).contains(n)
                implies exists|k: int| 0 <= k < out@.len() && encode_utf8(#[trigger] out@[k].0@) == n by {
                assert(name_set(names@).contains(n));
                let k = choose|k: int| 0 <= k < names@.len() && #[trigger] names@[k]@ == n;
                assert(encode_utf8(out@[k].0@) == names@[k]@);
                assert(encode_utf8(out@[k].0@) == n);
            }
            assert forall|n: Seq<u8>| (exists|k: int| 0 <= k < out@.len() && encode_utf8(#[trigger] out@[k].0@) == n)
                implies self.child_names(p@).contains(n) by {
                let k = choose|k: int| 0 <= k < out@.len() && encode_utf8(#[trigger] out@[k].0@) == n;
                assert(encode_utf8(out@[k].0@) == names@[k]@);
                assert(names@[k]@ == n);
                assert(name_set(names@).contains(n));
            }
            assert(str_names(out@) =~= self.child_names(p@));
        }
        Some(out)
    }

    /// Given the path to a directory, returns its descendant files, in the order of the files, with
    /// their values, if it exists.
    pub fn iter_prefix(&self, path: &str) -> (r: Option<Vec<(String, &T)>>)
        requires
            self.wf(),
        ensures
            r is Some <==> self.has_dir_spec(encode_utf8(path@)),
            r matches Some(v) ==> {
                let inner = self.file_list().filter(|x: (Seq<u8>, T)| is_inside(x.0, encode_utf8(path@)));
                &&& v@.len() == inner.len()
                &&& forall|k: int| 0 <= k < v@.len() ==> encode_utf8(#[trigger] v@[k].0@) == inner[k].0 && *v@[k].1 == inner[k].1
            },
    {
        if !self.contains_dir(path) {
            return None;
        }
        let p = path.as_bytes();
        let ghost pred = |x: (Seq<u8>, T)| is_inside(x.0, p@);
        let ghost l = self.file_list();
        let mut out: Vec<(String, &T)> = Vec::new();
        let mut i: usize = 0;
        proof {
            reveal(Seq::filter);
            assert(l.take(0).filter(pred) =~= seq![]);
        }
        while i < self.files.len()
            invariant
                l == self.file_list(),
                pred == (|x: (Seq<u8>, T)| is_inside(x.0, p@)),
                i <= l.len(),
                out@.len() == l.take(i as int).filter(pred).len(),
                forall|k: int| 0 <= k < out@.len() ==> encode_utf8(#[trigger] out@[k].0@) == l.take(i as int).filter(pred)[k].0
                    && *out@[k].1 == l.take(i as int).filter(pred)[k].1,
            decreases l.len() - i,
        {
            let q = self.files[i].0.as_str().as_bytes();
            assert(q@ == l[i as int].0);
            proof {
                reveal(Seq::filter);
                assert(l.take(i + 1).drop_last() =~= l.take(i as int));
                assert(l.take(i + 1).last() == l[i as int]);
            }
            let ghost before = out@;
            let ghost fb = l.take(i as int).filter(pred);
            if inside(q, p) {
                assert(pred(l[i as int]));
                assert(l.take(i + 1).filter(pred) == fb.push(l[i as int]));
                let name = self.files[i].0.clone();
                assert(encode_utf8(name@) == l[i as int].0);
                out.push((name, &self.files[i].1));
                assert(fb.push(l[i as int])[before.len() as int] == l[i as int]);
                assert(*out@[before.len() as int].1 == l[i as int].1);
                assert forall|k: int| 0 <= k < before.len() implies #[trigger] out@[k] == before[k] by {}
                assert forall|k: int| 0 <= k < out@.len() implies encode_utf8(#[trigger] out@[k].0@) == l.take(i + 1).filter(pred)[k].0
                    && *out@[k].1 == l.take(i + 1).filter(pred)[k].1 by {
                    if k < before.len() {
                        assert(out@[k] == before[k]);
                        assert(fb.push(l[i as int])[k] == fb[k]);
                        assert(encode_utf8(before[k].0@) == fb[k].0);
                    }
                }
            } else {
                assert(!pred(l[i as int]));
                assert(l.take(i + 1).filter(pred) == fb);
                assert forall|k: int| 0 <= k < out@.len() implies encode_utf8(#[trigger] out@[k].0@) == l.take(i + 1).filter(pred)[k].0
                    && *out@[k].1 == l.take(i + 1).filter(pred)[k].1 by {
                    assert(encode_utf8(before[k].0@) == fb[k].0);
                }
            }
            i += 1;
        }
        proof {
            assert(l.take(l.len() as int) =~= l);
        }
        Some(out)
    }

    /// Removes the directory at the given path and all of its contents if it exists, and returns
    /// whether or not it existed.
    pub fn remove_dir(&mut self, path: &str) -> (r: bool)
        requires
            old(self).wf(),
        ensures
            final(self).wf(),
            r == old(self).has_dir_spec(encode_utf8(path@)),
            r ==> final(self).file_list() == old(self).file_list().filter(
                |x: (Seq<u8>, T)| !is_within(x.0, encode_utf8(path@)),
            ),
            r ==> final(self).dir_set() == Set::new(
                |d: Seq<u8>| old(self).dir_set().contains(d) && !is_within(d, encode_utf8(path@)),
            ),
            !r ==> final(self).file_list() == old(self).file_list() && final(self).dir_set() == old(self).dir_set(),
    {
        if !self.contains_dir(path) {
            return false;
        }
        let p = path.as_bytes();
        let ghost pred = |x: (Seq<u8>, T)| !is_within(x.0, p@);
        let ghost l = self.file_list();
        let ghost old_dirs = self.dir_set();
        let ghost new_dirs = Set::new(|d: Seq<u8>| old_dirs.contains(d) && !is_within(d, p@));
        let nfiles = self.files.len();
        assert(l.len() == nfiles);
        let mut rest: Vec<(String, T)> = Vec::new();
        std::mem::swap(&mut rest, &mut self.files);
        let mut dirs: Vec<Vec<u8>> = Vec::new();
        std::mem::swap(&mut dirs, &mut self.dirs);
        let ghost all_dirs = dirs@;
        // Keep the directories outside `path`.
        let mut i: usize = 0;
        while i < dirs.len()
            invariant
                all_dirs == dirs@,
                i <= dirs@.len(),
                self.file_list().len() == 0,
                old_dirs == Set::new(|d: Seq<u8>| exists|j: int| 0 <= j < all_dirs.len() && #[trigger] all_dirs[j]@ == d),
                self.dir_set() == Set::new(|d: Seq<u8>| (exists|j: int| 0 <= j < i && #[trigger] all_dirs[j]@ == d) && !is_within(d, p@)),
            decreases dirs@.len() - i,
        {
            let ghost before = self.dir_set();
            if !within(dirs[i].as_slice(), p) {
                let d = dirs[i].clone();
                self.push_dir(d);
            }
            assert(self.dir_set() =~= Set::new(|d: Seq<u8>| (exists|j: int| 0 <= j < i + 1 && #[trigger] all_dirs[j]@ == d) && !is_within(d, p@)));
            i += 1;
        }
        assert(self.dir_set() =~= new_dirs);
        // Keep the files outside `path`.
        let mut i: usize = 0;
        proof {
            reveal(Seq::filter);
            assert(l.take(0).filter(pred) =~= seq![]);
            assert(files_view(self.files@) =~= seq![]);
        }
        while rest.len() > 0
            invariant
                self.dir_set() == new_dirs,
                pred == (|x: (Seq<u8>, T)| !is_within(x.0, p@)),
                i + rest@.len() == l.len(),
                l.len() <= usize::MAX,
                files_view(rest@) == l.subrange(i as int, l.len() as int),
                self.file_list() == l.take(i as int).filter(pred),
            decreases rest@.len(),
        {
            let ghost old_rest = rest@;
            let x = rest.remove(0);
            let ghost xv = (encode_utf8(x.0@), x.1);
            proof {
                assert(rest@ == old_rest.remove(0));
                assert(files_view(old_rest)[0] == l[i as int]);
                assert(xv == files_view(old_rest)[0]);
                assert forall|k: int| 0 <= k < rest@.len() implies #[trigger] files_view(rest@)[k] == l.subrange(i + 1, l.len() as int)[k] by {
                    assert(rest@[k] == old_rest[k + 1]);
                    assert(files_view(old_rest)[k + 1] == l[i + 1 + k]);
                }
                assert(files_view(rest@) =~= l.subrange(i + 1, l.len() as int));
                reveal(Seq::filter);
                assert(l.take(i + 1).drop_last() =~= l.take(i as int));
                assert(l.take(i + 1).last() == l[i as int]);
            }
            let keep = !within(x.0.as_str().as_bytes(), p);
            let ghost before = self.file_list();
            if keep {
                self.files.push(x);
                assert(self.file_list() =~= before.push(xv));
                assert(pred(xv));
                assert(l.take(i + 1).filter(pred) == before.push(xv));
            } else {
                assert(!pred(xv));
                assert(l.take(i + 1).filter(pred) == before);
            }
            i += 1;
        }
        proof {
            assert(l.take(l.len() as int) =~= l);
            lemma_filter_subseq(l, pred);
            let fl = self.file_list();
            assert forall|k: int| 0 <= k < fl.len() implies parents_in(#[trigger] fl[k].0, self.dir_set())
                && fl[k].0.len() > 0 by {
                let j = choose|j: int| 0 <= j < l.len() && #[trigger] l[j] == fl[k];
                assert(l[j].0.len() > 0);
                assert(parents_in(l[j].0, old_dirs));
                assert(pred(fl[k]));
                assert(!is_within(fl[k].0, p@));
                assert forall|m: int| 0 < m < fl[k].0.len() && fl[k].0[m] == 47u8 implies #[trigger] self.dir_set().contains(fl[k].0.subrange(0, m)) by {
                    assert(old_dirs.contains(fl[k].0.subrange(0, m)));
                    if is_within(fl[k].0.subrange(0, m), p@) {
                        lemma_within_extend(fl[k].0, m, p@);
                    }
                }
            }
            assert forall|d: Seq<u8>| #[trigger] self.dir_set().contains(d) implies d.len() > 0 && valid_utf8(d) && parents_in(d, self.dir_set()) by {
                assert(old_dirs.contains(d));
                assert forall|m: int| 0 < m < d.len() && d[m] == 47u8 implies #[trigger] self.dir_set().contains(d.subrange(0, m)) by {
                    assert(old_dirs.contains(d.subrange(0, m)));
                    if is_within(d.subrange(0, m), p@) {
                        lemma_within_extend(d, m, p@);
                    }
                }
            }
        }
        true
    }

    /// Gets the longest prefix of the given path that is the path of a directory in the trie.
    pub fn get_dir_prefix(&self, path: &str) -> (r: String)
        requires
            self.wf(),
        ensures
            encode_utf8(r@).len() == 0 || (self.dir_set().contains(encode_utf8(r@)) && is_ancestor(encode_utf8(r@), encode_utf8(path@), true)),
            forall|d: Seq<u8>| is_ancestor(d, encode_utf8(path@), true) && #[trigger] self.dir_set().contains(d)
                ==> d.len() <= encode_utf8(r@).len(),
    {
        let p = path.as_bytes();
        let mut i = p.len();
        while i > 0
            invariant
                i <= p@.len(),
                p@ == encode_utf8(path@),
                self.wf(),
                forall|d: Seq<u8>| is_ancestor(d, p@, true) && #[trigger] self.dir_set().contains(d) ==> d.len() <= i,
            decreases i,
        {
            if i == p.len() || p[i] == 47u8 {
                let d = copy_range(p, 0, i);
                if self.has_dir(d.as_slice()) {
                    proof {
                        if i < p@.len() {
                            lemma_utf8_slash_split(p@, i as int);
                        } else {
                            assert(p@.subrange(0, i as int) =~= p@);
                        }
                    }
                    match string_from_utf8(d) {
                        Some(s) => {
                            return s;
                        },
                        None => {},
                    }
                }
            }
            proof {
                assert forall|d: Seq<u8>| is_ancestor(d, p@, true) && #[trigger] self.dir_set().contains(d) implies d.len() <= i - 1 by {
                    if d.len() == i {
                        assert(d =~= p@.subrange(0, i as int));
                    }
                }
            }
            i -= 1;
        }
        String::new()
    }

    /// What a well-formed trie guarantees.
    pub proof fn lemma_wf(&self)
        requires
            self.wf(),
        ensures
            unique_paths(self.file_list()),
            forall|k: int| 0 <= k < self.file_list().len() ==> (#[trigger] self.file_list()[k]).0.len() > 0
                && parents_in(self.file_list()[k].0, self.dir_set()) && valid_utf8(self.file_list()[k].0),
            forall|d: Seq<u8>| #[trigger] self.dir_set().contains(d) ==> d.len() > 0 && valid_utf8(d)
                && parents_in(d, self.dir_set()),
    {
        assert forall|k: int| 0 <= k < self.file_list().len() implies valid_utf8(#[trigger] self.file_list()[k].0) by {
            assert(self.file_list()[k].0 == encode_utf8(self.files@[k].0@));
        }
    }

    /// Whether a directory exists at the path given as bytes.
    pub fn contains_dir_bytes(&self, path: &[u8]) -> (r: bool)
        ensures
            r == self.has_dir_spec(path@),
    {
        path.len() == 0 || self.has_dir(path)
    }
}

} // verus!
