//! A list of filesystems seen as one: the first one that holds a path answers for it, and
//! directory listings are merged.
use vstd::prelude::*;

use crate::project::str_eq;
use crate::paths::{parent_of, path_parent};
use crate::{DirEntry, Error, Metadata, OpenFlags, CREATE};

verus! {

/// The filesystem that is changed by creating or removing things: the first one.
pub fn first_filesystem(count: usize) -> (r: Result<usize, Error>)
    ensures
        r == if count == 0 { Err::<usize, Error>(Error::NoFilesystems) } else { Ok(0) },
{
    if count == 0 {
        Err(Error::NoFilesystems)
    } else {
        Ok(0)
    }
}

/// The filesystem that answers for a path, from the answers of the filesystems asked so far,
/// in order, to whether they hold it: the first that does.
pub fn first_holding(answers: &Vec<bool>) -> (r: Option<usize>)
    ensures
        match r {
            Some(i) => i < answers@.len() && answers@[i as int] && forall|j: int| 0 <= j < i ==> !answers@[j],
            None => forall|j: int| 0 <= j < answers@.len() ==> !answers@[j],
        },
{
    let mut i: usize = 0;
    while i < answers.len()
        invariant
            i <= answers@.len(),
            forall|j: int| 0 <= j < i ==> !answers@[j],
        decreases answers@.len() - i,
    {
        if answers[i] {
            return Some(i);
        }
        i += 1;
    }
    None
}

/// Whether a filesystem can open a file: it holds the file, or the file is to be created and
/// it holds the directory the file goes in.
pub fn layer_fits(holds_path: bool, create: bool, holds_parent: bool) -> (r: bool)
    ensures
        r == (holds_path || (create && holds_parent)),
{
    holds_path || (create && holds_parent)
}

/// What makes two entries the same.
pub open spec fn entry_key(e: DirEntry) -> (Seq<char>, Metadata) {
    (e.path@, e.metadata)
}

/// The entries with every repeat of an earlier one left out.
pub open spec fn unique_spec(s: Seq<(Seq<char>, Metadata)>) -> Seq<(Seq<char>, Metadata)>
    decreases s.len(),
{
    if s.len() == 0 {
        seq![]
    } else {
        let before = unique_spec(s.drop_last());
        if before.contains(s.last()) {
            before
        } else {
            before.push(s.last())
        }
    }
}

/// No two of the entries are the same.
pub open spec fn distinct_entries(v: Seq<DirEntry>) -> bool {
    forall|i: int, j: int| 0 <= i < j < v.len() ==> #[trigger] entry_key(v[i]) != #[trigger] entry_key(v[j])
}

/// Leaving out repeats leaves no two equal items.
pub proof fn lemma_unique_spec_distinct(s: Seq<(Seq<char>, Metadata)>)
    ensures
        forall|i: int, j: int| 0 <= i < j < unique_spec(s).len() ==> unique_spec(s)[i] != unique_spec(s)[j],
    decreases s.len(),
{
    if s.len() > 0 {
        lemma_unique_spec_distinct(s.drop_last());
        let before = unique_spec(s.drop_last());
        if !before.contains(s.last()) {
            assert forall|i: int, j: int| 0 <= i < j < unique_spec(s).len() implies unique_spec(s)[i] != unique_spec(s)[j] by {
                if j == before.len() {
                    assert(unique_spec(s)[i] == before[i]);
                    assert(!before.contains(s.last()));
                }
            }
        }
    }
}

/// The entries with every repeat of an earlier one left out, in order.
pub fn unique_entries(entries: &Vec<DirEntry>) -> (r: Vec<DirEntry>)
    ensures
        r@.len() == unique_spec(Seq::new(entries@.len(), |i: int| entry_key(entries@[i]))).len(),
        forall|i: int| 0 <= i < r@.len() ==> #[trigger] entry_key(r@[i]) == unique_spec(
            Seq::new(entries@.len(), |i: int| entry_key(entries@[i])),
        )[i],
        distinct_entries(r@),
{
    let ghost keys = Seq::new(entries@.len(), |i: int| entry_key(entries@[i]));
    let mut out: Vec<DirEntry> = Vec::new();
    let mut i: usize = 0;
    assert(keys.take(0) =~= seq![]);
    while i < entries.len()
        invariant
            keys == Seq::new(entries@.len(), |i: int| entry_key(entries@[i])),
            i <= entries@.len(),
            out@.len() == unique_spec(keys.take(i as int)).len(),
            forall|k: int| 0 <= k < out@.len() ==> #[trigger] entry_key(out@[k]) == unique_spec(keys.take(i as int))[k],
        decreases entries@.len() - i,
    {
        let ghost before = unique_spec(keys.take(i as int));
        assert(keys.take(i + 1).drop_last() =~= keys.take(i as int));
        assert(keys.take(i + 1).last() == entry_key(entries@[i as int]));
        let e = &entries[i];
        let mut seen = false;
        let mut j: usize = 0;
        while j < out.len()
            invariant
                j <= out@.len(),
                out@.len() == before.len(),
                forall|k: int| 0 <= k < out@.len() ==> #[trigger] entry_key(out@[k]) == before[k],
                seen == exists|k: int| 0 <= k < j && before[k] == entry_key(*e),
            decreases out@.len() - j,
        {
            if str_eq(out[j].path.as_str(), e.path.as_str()) && out[j].metadata == e.metadata {
                assert(entry_key(out@[j as int]) == entry_key(*e));
                seen = true;
            } else {
                assert(entry_key(out@[j as int]) != entry_key(*e));
            }
            j += 1;
        }
        assert(seen == before.contains(entry_key(*e))) by {
            if before.contains(entry_key(*e)) {
                let k = choose|k: int| 0 <= k < before.len() && before[k] == entry_key(*e);
                assert(before[k] == entry_key(*e));
            }
        }
        if !seen {
            let ghost old_out = out@;
            out.push(DirEntry { path: e.path.clone(), metadata: e.metadata });
            assert forall|k: int| 0 <= k < out@.len() implies #[trigger] entry_key(out@[k]) == before.push(entry_key(*e))[k] by {
                if k < old_out.len() {
                    assert(out@[k] == old_out[k]);
                }
            }
        }
        i += 1;
    }
    assert(keys.take(entries@.len() as int) =~= keys);
    proof {
        lemma_unique_spec_distinct(keys);
        assert forall|i: int, j: int| 0 <= i < j < out@.len() implies #[trigger] entry_key(out@[i]) != #[trigger] entry_key(out@[j]) by {
            assert(entry_key(out@[i]) == unique_spec(keys)[i]);
            assert(entry_key(out@[j]) == unique_spec(keys)[j]);
        }
    }
    out
}

/// Filesystems seen as one, in order.
pub struct FileSystem<F> {
    filesystems: Vec<F>,
}

impl<F> FileSystem<F> {
    /// The filesystems, in order.
    pub closed spec fn filesystems_spec(&self) -> Seq<F> {
        self.filesystems@
    }

    /// No filesystem.
    pub fn new() -> (r: Self)
        ensures
            r.filesystems_spec().len() == 0,
    {
        FileSystem { filesystems: Vec::new() }
    }

    /// Adds a filesystem after the others.
    pub fn push(&mut self, fs: F)
        ensures
            final(self).filesystems_spec() == old(self).filesystems_spec().push(fs),
    {
        self.filesystems.push(fs);
    }
}

/// The first `k` layers answered that they do not hold `path`.
pub open spec fn declined<F: crate::FileSystem>(a: Seq<F>, b: Seq<F>, path: Seq<char>, k: int) -> bool {
    forall|j: int| 0 <= j < k ==> #[trigger] a[j].answers_exists(&b[j], path, Ok::<bool, Error>(false))
}

/// The layers from `k` on were not asked anything.
pub open spec fn untouched_from<F>(a: Seq<F>, b: Seq<F>, k: int) -> bool {
    &&& a.len() == b.len()
    &&& forall|j: int| k <= j < a.len() ==> #[trigger] b[j] == a[j]
}

/// The directory a created file goes in: the parent of `path`, or `path` itself when it has
/// none.
pub open spec fn parent_or_self(path: Seq<char>) -> Seq<char> {
    match parent_of(path) {
        Some(p) => p,
        None => path,
    }
}

/// A layer asked whether it can open `path`: whether it holds it, and, when it does not and the
/// file is to be created, whether it holds `parent`. `r` is the answer, or the error of either
/// question.
pub open spec fn fit_answer<F: crate::FileSystem>(a: F, b: F, path: Seq<char>, parent: Seq<char>, create: bool, r: Result<bool, Error>) -> bool {
    ||| a.answers_exists(&b, path, r) && (r != Ok::<bool, Error>(false) || !create)
    ||| create && exists|mid: F| #[trigger] a.answers_exists(&mid, path, Ok::<bool, Error>(false)) && mid.answers_exists(&b, parent, r)
}

/// The first `k` layers cannot open `path`.
pub open spec fn fit_declined<F: crate::FileSystem>(a: Seq<F>, b: Seq<F>, path: Seq<char>, parent: Seq<char>, create: bool, k: int) -> bool {
    forall|j: int| 0 <= j < k ==> #[trigger] fit_answer(a[j], b[j], path, parent, create, Ok::<bool, Error>(false))
}

/// A layer in state `a`, asked whether it holds `path` and, when it does, for the entries
/// there, ends in state `b` with `r`: an error of either question, its entries, or none when it
/// does not hold the path.
pub open spec fn listed_if_held<F: crate::FileSystem>(a: F, b: F, path: Seq<char>, r: Result<Vec<DirEntry>, Error>) -> bool {
    ||| (exists|e: Error| r == Err::<Vec<DirEntry>, Error>(e) && #[trigger] a.answers_exists(&b, path, Err::<bool, Error>(e)))
    ||| a.answers_exists(&b, path, Ok::<bool, Error>(false)) && (r matches Ok(v) && v@.len() == 0)
    ||| exists|mid: F| #[trigger] a.answers_exists(&mid, path, Ok::<bool, Error>(true)) && mid.lists_dir(&b, path, r)
}

/// The first layers, one for each of `parts`, gave those listings.
pub open spec fn listed_prefix<F: crate::FileSystem>(a: Seq<F>, b: Seq<F>, path: Seq<char>, parts: Seq<Vec<DirEntry>>) -> bool {
    forall|j: int| 0 <= j < parts.len() ==> #[trigger] listed_if_held(a[j], b[j], path, Ok::<Vec<DirEntry>, Error>(parts[j]))
}

/// The listings one after the other.
pub open spec fn concat_entries(parts: Seq<Vec<DirEntry>>) -> Seq<DirEntry>
    decreases parts.len(),
{
    if parts.len() == 0 {
        seq![]
    } else {
        concat_entries(parts.drop_last()) + parts.last()@
    }
}

/// `r` is `all` with every repeat of an earlier entry left out.
pub open spec fn uniques_of(all: Seq<DirEntry>, r: Seq<DirEntry>) -> bool {
    let keys = Seq::new(all.len(), |i: int| entry_key(all[i]));
    &&& r.len() == unique_spec(keys).len()
    &&& forall|i: int| 0 <= i < r.len() ==> #[trigger] entry_key(r[i]) == unique_spec(keys)[i]
    &&& distinct_entries(r)
}

/// Asks `fs` whether it holds `path` and, when it does, for its entries there; none when it does
/// not hold the path.
pub fn list_if_held<F: crate::FileSystem>(fs: &mut F, path: &str) -> (r: Result<Vec<DirEntry>, Error>)
    ensures
        listed_if_held(*old(fs), *final(fs), path@, r),
{
    let ghost a = *fs;
    let held = match fs.path_exists(path) {
        Ok(b) => b,
        Err(e) => {
            assert(a.answers_exists(fs, path@, Err::<bool, Error>(e)));
            return Err(e);
        },
    };
    if held {
        let ghost mid = *fs;
        let r = fs.read_dir(path);
        assert(a.answers_exists(&mid, path@, Ok::<bool, Error>(true)));
        r
    } else {
        Ok(Vec::new())
    }
}

/// Asks a layer whether it can open `path`, `parent` being the directory a created file goes in.
pub fn fit_of<F: crate::FileSystem>(fs: &mut F, path: &str, parent: &str, create: bool) -> (r: Result<bool, Error>)
    ensures
        fit_answer(*old(fs), *final(fs), path@, parent@, create, r),
{
    let ghost a = *fs;
    let holds_path = match fs.path_exists(path) {
        Ok(b) => b,
        Err(e) => {
            return Err(e);
        },
    };
    if holds_path || !create {
        return Ok(layer_fits(holds_path, create, false));
    }
    let ghost mid = *fs;
    let r = match fs.path_exists(parent) {
        Ok(b) => Ok(layer_fits(holds_path, create, b)),
        Err(e) => Err(e),
    };
    assert(a.answers_exists(&mid, path@, Ok::<bool, Error>(false)));
    r
}

impl<F: crate::FileSystem> FileSystem<F> {
    /// Asks the layers in order whether they hold `path`, until one does not answer no: gives
    /// its position (the number of layers when all said no) and its answer.
    fn first_answer(&mut self, path: &str) -> (r: (usize, Result<bool, Error>))
        ensures
            ({
                let a = old(self).filesystems_spec();
                let b = final(self).filesystems_spec();
                &&& r.0 <= a.len()
                &&& declined(a, b, path@, r.0 as int)
                &&& r.0 == a.len() ==> r.1 == Ok::<bool, Error>(false) && untouched_from(a, b, a.len() as int)
                &&& r.0 < a.len() ==> a[r.0 as int].answers_exists(&b[r.0 as int], path@, r.1) && r.1 != Ok::<bool, Error>(false)
                    && untouched_from(a, b, r.0 + 1)
            }),
    {
        let ghost a = self.filesystems@;
        let mut answers: Vec<bool> = Vec::new();
        let mut i: usize = 0;
        while i < self.filesystems.len()
            invariant
                answers@.len() == i,
                forall|j: int| 0 <= j < i ==> !answers@[j],
                a == old(self).filesystems_spec(),
                i <= a.len(),
                declined(a, self.filesystems@, path@, i as int),
                untouched_from(a, self.filesystems@, i as int),
            decreases self.filesystems@.len() - i,
        {
            let ghost before = self.filesystems@;
            let answer = self.filesystems[i].path_exists(path);
            proof {
                assert(self.filesystems@.len() == before.len());
                assert(forall|j: int| 0 <= j < before.len() && j != i ==> self.filesystems@[j] == before[j]);
                assert(before[i as int].answers_exists(&self.filesystems@[i as int], path@, answer));
                assert(a[i as int] == before[i as int]);
                assert(a[i as int].answers_exists(&self.filesystems@[i as int], path@, answer));
                assert(untouched_from(a, self.filesystems@, i + 1)) by {
                    assert forall|j: int| i + 1 <= j < a.len() implies #[trigger] self.filesystems@[j] == a[j] by {
                        assert(before[j] == a[j]);
                    }
                }
                assert forall|j: int| 0 <= j < i implies #[trigger] a[j].answers_exists(&self.filesystems@[j], path@, Ok::<bool, Error>(false)) by {
                    assert(self.filesystems@[j] == before[j]);
                }
            }
            let ghost g = answer;
            match answer {
                Err(e) => {
                    return (i, Err(e));
                },
                Ok(holds) => {
                    answers.push(holds);
                    match first_holding(&answers) {
                        Some(k) => {
                            assert(k == i);
                            return (k, Ok(true));
                        },
                        None => {
                            assert(!answers@[i as int]);
                            assert(g == Ok::<bool, Error>(false));
                            assert(a[i as int].answers_exists(&self.filesystems@[i as int], path@, Ok::<bool, Error>(false)));
                            assert forall|j: int| 0 <= j < i + 1 implies #[trigger] a[j].answers_exists(&self.filesystems@[j], path@, Ok::<bool, Error>(false)) by {}
                        },
                    }
                },
            }
            i += 1;
        }
        (i, Ok(false))
    }

    /// Asks the layers in order whether they can open `path`, until one does not answer no:
    /// gives its position (the number of layers when all said no) and its answer.
    fn first_fit(&mut self, path: &str, parent: &str, create: bool) -> (r: (usize, Result<bool, Error>))
        ensures
            ({
                let a = old(self).filesystems_spec();
                let b = final(self).filesystems_spec();
                &&& r.0 <= a.len()
                &&& fit_declined(a, b, path@, parent@, create, r.0 as int)
                &&& r.0 == a.len() ==> r.1 == Ok::<bool, Error>(false) && untouched_from(a, b, a.len() as int)
                &&& r.0 < a.len() ==> fit_answer(a[r.0 as int], b[r.0 as int], path@, parent@, create, r.1)
                    && r.1 != Ok::<bool, Error>(false) && untouched_from(a, b, r.0 + 1)
            }),
    {
        let ghost a = self.filesystems@;
        let mut answers: Vec<bool> = Vec::new();
        let mut i: usize = 0;
        while i < self.filesystems.len()
            invariant
                answers@.len() == i,
                forall|j: int| 0 <= j < i ==> !answers@[j],
                a == old(self).filesystems_spec(),
                i <= a.len(),
                fit_declined(a, self.filesystems@, path@, parent@, create, i as int),
                untouched_from(a, self.filesystems@, i as int),
            decreases self.filesystems@.len() - i,
        {
            let ghost before = self.filesystems@;
            let answer = fit_of(&mut self.filesystems[i], path, parent, create);
            proof {
                assert(self.filesystems@.len() == before.len());
                assert(forall|j: int| 0 <= j < before.len() && j != i ==> self.filesystems@[j] == before[j]);
                assert(fit_answer(before[i as int], self.filesystems@[i as int], path@, parent@, create, answer));
                assert(a[i as int] == before[i as int]);
                assert(fit_answer(a[i as int], self.filesystems@[i as int], path@, parent@, create, answer));
                assert(untouched_from(a, self.filesystems@, i + 1)) by {
                    assert forall|j: int| i + 1 <= j < a.len() implies #[trigger] self.filesystems@[j] == a[j] by {
                        assert(before[j] == a[j]);
                    }
                }
                assert forall|j: int| 0 <= j < i implies #[trigger] fit_answer(a[j], self.filesystems@[j], path@, parent@, create, Ok::<bool, Error>(false)) by {
                    assert(self.filesystems@[j] == before[j]);
                }
            }
            let ghost g = answer;
            match answer {
                Err(e) => {
                    return (i, Err(e));
                },
                Ok(fits) => {
                    answers.push(fits);
                    match first_holding(&answers) {
                        Some(k) => {
                            assert(k == i);
                            return (k, Ok(true));
                        },
                        None => {
                            assert(!answers@[i as int]);
                            assert(g == Ok::<bool, Error>(false));
                            assert(fit_answer(a[i as int], self.filesystems@[i as int], path@, parent@, create, Ok::<bool, Error>(false)));
                            assert forall|j: int| 0 <= j < i + 1 implies #[trigger] fit_answer(a[j], self.filesystems@[j], path@, parent@, create, Ok::<bool, Error>(false)) by {}
                        },
                    }
                },
            }
            i += 1;
        }
        (i, Ok(false))
    }
}

impl<F: crate::FileSystem> crate::FileSystem for FileSystem<F> {
    type File = F::File;

    /// The layers are asked in order whether they can open the file; the first that can opens
    /// it. An error of a question is the answer; `Err(NotExist)` when no layer can.
    open spec fn opens(&self, after: &Self, path: Seq<char>, flags: OpenFlags, r: Result<F::File, Error>) -> bool {
        let a = self.filesystems_spec();
        let b = after.filesystems_spec();
        let parent = parent_or_self(path);
        let create = flags.has(CREATE);
        ||| fit_declined(a, b, path, parent, create, a.len() as int) && untouched_from(a, b, a.len() as int)
            && r == Err::<F::File, Error>(Error::NotExist)
        ||| exists|k: int, e: Error| 0 <= k < a.len() && fit_declined(a, b, path, parent, create, k) && untouched_from(a, b, k + 1)
            && r == Err::<F::File, Error>(e) && #[trigger] fit_answer(a[k], b[k], path, parent, create, Err::<bool, Error>(e))
        ||| exists|k: int, mid: F| 0 <= k < a.len() && fit_declined(a, b, path, parent, create, k) && untouched_from(a, b, k + 1)
            && #[trigger] fit_answer(a[k], mid, path, parent, create, Ok::<bool, Error>(true)) && mid.opens(&b[k], path, flags, r)
    }

    /// The layers are asked in order whether they hold the path; the first that does answers.
    /// An error of a question is the answer; `Err(NotExist)` when no layer holds it.
    open spec fn answers_metadata(&self, after: &Self, path: Seq<char>, r: Result<Metadata, Error>) -> bool {
        let a = self.filesystems_spec();
        let b = after.filesystems_spec();
        ||| declined(a, b, path, a.len() as int) && untouched_from(a, b, a.len() as int) && r == Err::<Metadata, Error>(Error::NotExist)
        ||| exists|k: int, e: Error| 0 <= k < a.len() && declined(a, b, path, k) && untouched_from(a, b, k + 1)
            && r == Err::<Metadata, Error>(e) && #[trigger] a[k].answers_exists(&b[k], path, Err::<bool, Error>(e))
        ||| exists|k: int, mid: F| 0 <= k < a.len() && declined(a, b, path, k) && untouched_from(a, b, k + 1)
            && #[trigger] a[k].answers_exists(&mid, path, Ok::<bool, Error>(true)) && mid.answers_metadata(&b[k], path, r)
    }

    /// The layers are asked in order whether they hold `from`; the first that does renames.
    /// An error of a question is the answer; `Err(NotExist)` when no layer holds it.
    open spec fn renames(&self, after: &Self, from: Seq<char>, to: Seq<char>, r: Result<(), Error>) -> bool {
        let a = self.filesystems_spec();
        let b = after.filesystems_spec();
        ||| declined(a, b, from, a.len() as int) && untouched_from(a, b, a.len() as int) && r == Err::<(), Error>(Error::NotExist)
        ||| exists|k: int, e: Error| 0 <= k < a.len() && declined(a, b, from, k) && untouched_from(a, b, k + 1)
            && r == Err::<(), Error>(e) && #[trigger] a[k].answers_exists(&b[k], from, Err::<bool, Error>(e))
        ||| exists|k: int, mid: F| 0 <= k < a.len() && declined(a, b, from, k) && untouched_from(a, b, k + 1)
            && #[trigger] a[k].answers_exists(&mid, from, Ok::<bool, Error>(true)) && mid.renames(&b[k], from, to, r)
    }

    /// The layers are asked in order; the first answer that is not no is the answer, else no.
    open spec fn answers_exists(&self, after: &Self, path: Seq<char>, r: Result<bool, Error>) -> bool {
        let a = self.filesystems_spec();
        let b = after.filesystems_spec();
        ||| declined(a, b, path, a.len() as int) && untouched_from(a, b, a.len() as int) && r == Ok::<bool, Error>(false)
        ||| exists|k: int| 0 <= k < a.len() && declined(a, b, path, k) && untouched_from(a, b, k + 1)
            && #[trigger] a[k].answers_exists(&b[k], path, r) && r != Ok::<bool, Error>(false)
    }

    /// The first layer makes the directory; `Err(NoFilesystems)` when there is none.
    open spec fn creates_dir(&self, after: &Self, path: Seq<char>, r: Result<(), Error>) -> bool {
        let a = self.filesystems_spec();
        let b = after.filesystems_spec();
        ||| a.len() == 0 && b == a && r == Err::<(), Error>(Error::NoFilesystems)
        ||| a.len() > 0 && a[0].creates_dir(&b[0], path, r) && untouched_from(a, b, 1)
    }

    /// The first layer removes the directory; `Err(NoFilesystems)` when there is none.
    open spec fn removes_dir(&self, after: &Self, path: Seq<char>, r: Result<(), Error>) -> bool {
        let a = self.filesystems_spec();
        let b = after.filesystems_spec();
        ||| a.len() == 0 && b == a && r == Err::<(), Error>(Error::NoFilesystems)
        ||| a.len() > 0 && a[0].removes_dir(&b[0], path, r) && untouched_from(a, b, 1)
    }

    /// The first layer removes the file; `Err(NoFilesystems)` when there is none.
    open spec fn removes_file(&self, after: &Self, path: Seq<char>, r: Result<(), Error>) -> bool {
        let a = self.filesystems_spec();
        let b = after.filesystems_spec();
        ||| a.len() == 0 && b == a && r == Err::<(), Error>(Error::NoFilesystems)
        ||| a.len() > 0 && a[0].removes_file(&b[0], path, r) && untouched_from(a, b, 1)
    }

    /// Every layer that holds the path lists it, in order; the entries come one listing after
    /// the other, each once. An error ends the listing with that error.
    open spec fn lists_dir(&self, after: &Self, path: Seq<char>, r: Result<Vec<DirEntry>, Error>) -> bool {
        let a = self.filesystems_spec();
        let b = after.filesystems_spec();
        exists|parts: Seq<Vec<DirEntry>>| #[trigger] listed_prefix(a, b, path, parts) && parts.len() <= a.len() && a.len() == b.len()
            && ((parts.len() == a.len() && (r matches Ok(v) && uniques_of(concat_entries(parts), v@)))
                || (parts.len() < a.len() && untouched_from(a, b, parts.len() + 1 as int) && exists|e: Error| r == Err::<Vec<DirEntry>, Error>(e)
                    && #[trigger] listed_if_held(a[parts.len() as int], b[parts.len() as int], path, Err::<Vec<DirEntry>, Error>(e))))
    }

    /// Opens the file in the first filesystem that holds it or, when it is to be created, holds
    /// the directory it goes in (the path itself when it has no parent). A failed question ends
    /// the search with its error; `Err(NotExist)` when no filesystem fits.
    fn open_file(&mut self, path: &str, flags: OpenFlags) -> (r: Result<F::File, Error>)
        ensures
            final(self).filesystems_spec().len() == old(self).filesystems_spec().len(),
            old(self).filesystems_spec().len() == 0 ==> r == Err::<F::File, Error>(Error::NotExist),
    {
        let ghost a = self.filesystems@;
        let parent = match path_parent(path) {
            Some(p) => p,
            None => String::from_str(path),
        };
        assert(parent@ == parent_or_self(path@));
        let create = flags.contains(CREATE);
        let (k, answer) = self.first_fit(path, parent.as_str(), create);
        if k == self.filesystems.len() {
            return Err(Error::NotExist);
        }
        let ghost g = answer;
        match answer {
            Err(e) => Err(e),
            Ok(held) => {
                assert(held);
                assert(g == Ok::<bool, Error>(true));
                let ghost mid = self.filesystems@;
                let r = self.filesystems[k].open_file(path, flags);
                proof {
                    let b = self.filesystems@;
                    assert(fit_answer(a[k as int], mid[k as int], path@, parent@, create, Ok::<bool, Error>(true)));
                    assert(fit_declined(a, b, path@, parent@, create, k as int)) by {
                        assert forall|j: int| 0 <= j < k implies #[trigger] fit_answer(a[j], b[j], path@, parent@, create, Ok::<bool, Error>(false)) by {
                            assert(b[j] == mid[j]);
                        }
                    }
                    assert forall|j: int| k + 1 <= j < a.len() implies #[trigger] b[j] == a[j] by {
                        assert(b[j] == mid[j]);
                    }
                }
                r
            },
        }
    }

    /// What the first filesystem that holds the path knows of it; `Err(NotExist)` when none does.
    fn metadata(&mut self, path: &str) -> (r: Result<Metadata, Error>)
        ensures
            final(self).filesystems_spec().len() == old(self).filesystems_spec().len(),
            old(self).filesystems_spec().len() == 0 ==> r == Err::<Metadata, Error>(Error::NotExist),
    {
        let ghost a = self.filesystems@;
        let (k, answer) = self.first_answer(path);
        if k == self.filesystems.len() {
            return Err(Error::NotExist);
        }
        let ghost g = answer;
        match answer {
            Err(e) => Err(e),
            Ok(held) => {
                assert(held);
                assert(g == Ok::<bool, Error>(true));
                let ghost mid = self.filesystems@;
                let r = self.filesystems[k].metadata(path);
                proof {
                    let b = self.filesystems@;
                    assert(a[k as int].answers_exists(&mid[k as int], path@, Ok::<bool, Error>(true)));
                    assert(declined(a, b, path@, k as int)) by {
                        assert forall|j: int| 0 <= j < k implies #[trigger] a[j].answers_exists(&b[j], path@, Ok::<bool, Error>(false)) by {
                            assert(b[j] == mid[j]);
                        }
                    }
                    assert forall|j: int| k + 1 <= j < a.len() implies #[trigger] b[j] == a[j] by {
                        assert(b[j] == mid[j]);
                    }
                }
                r
            },
        }
    }

    /// Renames in the first filesystem that holds `from`; `Err(NotExist)` when none does.
    fn rename(&mut self, from: &str, to: &str) -> (r: Result<(), Error>)
        ensures
            final(self).filesystems_spec().len() == old(self).filesystems_spec().len(),
            old(self).filesystems_spec().len() == 0 ==> r == Err::<(), Error>(Error::NotExist),
    {
        let ghost a = self.filesystems@;
        let (k, answer) = self.first_answer(from);
        if k == self.filesystems.len() {
            return Err(Error::NotExist);
        }
        let ghost g = answer;
        match answer {
            Err(e) => Err(e),
            Ok(held) => {
                assert(held);
                assert(g == Ok::<bool, Error>(true));
                let ghost mid = self.filesystems@;
                let r = self.filesystems[k].rename(from, to);
                proof {
                    let b = self.filesystems@;
                    assert(a[k as int].answers_exists(&mid[k as int], from@, Ok::<bool, Error>(true)));
                    assert(declined(a, b, from@, k as int)) by {
                        assert forall|j: int| 0 <= j < k implies #[trigger] a[j].answers_exists(&b[j], from@, Ok::<bool, Error>(false)) by {
                            assert(b[j] == mid[j]);
                        }
                    }
                    assert forall|j: int| k + 1 <= j < a.len() implies #[trigger] b[j] == a[j] by {
                        assert(b[j] == mid[j]);
                    }
                }
                r
            },
        }
    }

    /// Whether some filesystem holds the path, asked in order.
    fn path_exists(&mut self, path: &str) -> (r: Result<bool, Error>)
        ensures
            final(self).filesystems_spec().len() == old(self).filesystems_spec().len(),
            old(self).filesystems_spec().len() == 0 ==> r == Ok::<bool, Error>(false),
    {
        let (_, answer) = self.first_answer(path);
        answer
    }

    /// Makes the directory in the first filesystem; `Err(NoFilesystems)` when there is none.
    fn create_dir(&mut self, path: &str) -> (r: Result<(), Error>)
        ensures
            final(self).filesystems_spec().len() == old(self).filesystems_spec().len(),
            old(self).filesystems_spec().len() == 0 ==> r == Err::<(), Error>(Error::NoFilesystems),
    {
        let i = first_filesystem(self.filesystems.len())?;
        self.filesystems[i].create_dir(path)
    }

    /// Removes the directory from the first filesystem; `Err(NoFilesystems)` when there is none.
    fn remove_dir(&mut self, path: &str) -> (r: Result<(), Error>)
        ensures
            final(self).filesystems_spec().len() == old(self).filesystems_spec().len(),
            old(self).filesystems_spec().len() == 0 ==> r == Err::<(), Error>(Error::NoFilesystems),
    {
        let i = first_filesystem(self.filesystems.len())?;
        self.filesystems[i].remove_dir(path)
    }

    /// Removes the file from the first filesystem; `Err(NoFilesystems)` when there is none.
    fn remove_file(&mut self, path: &str) -> (r: Result<(), Error>)
        ensures
            final(self).filesystems_spec().len() == old(self).filesystems_spec().len(),
            old(self).filesystems_spec().len() == 0 ==> r == Err::<(), Error>(Error::NoFilesystems),
    {
        let i = first_filesystem(self.filesystems.len())?;
        self.filesystems[i].remove_file(path)
    }

    /// Removes the file or directory from the first filesystem; `Err(NoFilesystems)` when there
    /// is none.
    fn remove(&mut self, path: &str) -> (r: Result<(), Error>)
        ensures
            final(self).filesystems_spec().len() == old(self).filesystems_spec().len(),
            old(self).filesystems_spec().len() == 0 ==> r == Err::<(), Error>(Error::NoFilesystems),
    {
        let i = first_filesystem(self.filesystems.len())?;
        self.filesystems[i].remove(path)
    }

    /// The entries of the directory in every filesystem that holds it, in order, each entry
    /// once.
    fn read_dir(&mut self, path: &str) -> (r: Result<Vec<DirEntry>, Error>)
        ensures
            final(self).filesystems_spec().len() == old(self).filesystems_spec().len(),
            old(self).filesystems_spec().len() == 0 ==> (r matches Ok(v) && v@.len() == 0),
            r matches Ok(v) ==> distinct_entries(v@),
    {
        let ghost a = self.filesystems@;
        let ghost mut parts: Seq<Vec<DirEntry>> = seq![];
        let mut all: Vec<DirEntry> = Vec::new();
        let mut i: usize = 0;
        while i < self.filesystems.len()
            invariant
                a == old(self).filesystems_spec(),
                i <= a.len(),
                parts.len() == i,
                all@ == concat_entries(parts),
                untouched_from(a, self.filesystems@, i as int),
                listed_prefix(a, self.filesystems@, path@, parts),
            decreases self.filesystems@.len() - i,
        {
            let ghost before = self.filesystems@;
            let listing = list_if_held(&mut self.filesystems[i], path);
            proof {
                assert(a[i as int] == before[i as int]);
                assert forall|j: int| 0 <= j < i implies #[trigger] listed_if_held(a[j], self.filesystems@[j], path@, Ok::<Vec<DirEntry>, Error>(parts[j])) by {
                    assert(self.filesystems@[j] == before[j]);
                }
                assert forall|j: int| i + 1 <= j < a.len() implies #[trigger] self.filesystems@[j] == a[j] by {
                    assert(self.filesystems@[j] == before[j]);
                }
            }
            let mut entries = match listing {
                Ok(v) => v,
                Err(e) => {
                    proof {
                        assert(listed_if_held(a[i as int], self.filesystems@[i as int], path@, Err::<Vec<DirEntry>, Error>(e)));
                        assert(listed_prefix(a, self.filesystems@, path@, parts));
                        assert(untouched_from(a, self.filesystems@, parts.len() + 1 as int));
                        assert(parts.len() < a.len() && a.len() == self.filesystems@.len());
                        assert(listed_if_held(a[parts.len() as int], self.filesystems@[parts.len() as int], path@, Err::<Vec<DirEntry>, Error>(e)));
                        assert(listed_prefix(old(self).filesystems_spec(), self.filesystems_spec(), path@, parts));
                        assert(old(self).lists_dir(self, path@, Err::<Vec<DirEntry>, Error>(e)));
                    }
                    return Err(e);
                },
            };
            let ghost got = entries;
            all.append(&mut entries);
            proof {
                let p2 = parts.push(got);
                assert(p2.drop_last() =~= parts);
                assert(all@ =~= concat_entries(p2));
                assert forall|j: int| 0 <= j < i + 1 implies #[trigger] listed_if_held(a[j], self.filesystems@[j], path@, Ok::<Vec<DirEntry>, Error>(p2[j])) by {
                    if j < i {
                        assert(p2[j] == parts[j]);
                    }
                }
                parts = p2;
                assert(listed_prefix(a, self.filesystems@, path@, parts));
            }
            i += 1;
        }
        proof {
            if all@.len() == 0 {
                assert(Seq::new(all@.len(), |i: int| entry_key(all@[i])) =~= Seq::<(Seq<char>, Metadata)>::empty());
            }
        }
        let r = unique_entries(&all);
        assert(uniques_of(concat_entries(parts), r@));
        assert(listed_prefix(a, self.filesystems@, path@, parts));
        assert(parts.len() == a.len() && a.len() == self.filesystems@.len());
        assert(listed_prefix(old(self).filesystems_spec(), self.filesystems_spec(), path@, parts));
        assert(old(self).lists_dir(self, path@, Ok::<Vec<DirEntry>, Error>(r)));
        Ok(r)
    }
}

} // verus!
