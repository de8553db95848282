//! Two filesystems seen as one: the primary one first, the secondary one where the primary one has
//! nothing.
use vstd::prelude::*;

use crate::list::{distinct_entries, entry_key, list_if_held, listed_if_held, unique_entries, unique_spec};
use crate::{DirEntry, Error, Metadata, OpenFlags, CREATE};

verus! {

/// A primary filesystem laid over a secondary one.
#[derive(Clone, Debug)]
pub struct Overlay<P, S> {
    primary: P,
    secondary: S,
}

/// Which of the two filesystems of an overlay handles a request.
#[derive(Clone, Copy, Debug, PartialEq, Eq, Structural)]
pub enum Side {
    Primary,
    Secondary,
}

impl<P, S> Overlay<P, S> {
    pub closed spec fn primary_spec(&self) -> P {
        self.primary
    }

    pub closed spec fn secondary_spec(&self) -> S {
        self.secondary
    }

    pub fn new(primary: P, secondary: S) -> (r: Self)
        ensures
            r.primary_spec() == primary,
            r.secondary_spec() == secondary,
    {
        Self { primary, secondary }
    }

    pub fn primary(&self) -> (r: &P)
        ensures
            *r == self.primary_spec(),
    {
        &self.primary
    }

    pub fn secondary(&self) -> (r: &S)
        ensures
            *r == self.secondary_spec(),
    {
        &self.secondary
    }

    /// The same two filesystems with their roles exchanged.
    pub fn swap(self) -> (r: Overlay<S, P>)
        ensures
            r.primary_spec() == self.secondary_spec(),
            r.secondary_spec() == self.primary_spec(),
    {
        Overlay { secondary: self.primary, primary: self.secondary }
    }
}

/// Swapping twice gives the overlay back.
pub proof fn lemma_swap_twice<P, S>(o: Overlay<P, S>, a: Overlay<S, P>, b: Overlay<P, S>)
    requires
        a.primary_spec() == o.secondary_spec(),
        a.secondary_spec() == o.primary_spec(),
        b.primary_spec() == a.secondary_spec(),
        b.secondary_spec() == a.primary_spec(),
    ensures
        b == o,
{
}

/// Which filesystem opens a file: the primary one when the file is there or is to be created,
/// else the secondary one when the file is there, else the primary one (which reports the
/// failure).
pub fn open_side(primary_exists: bool, create: bool, secondary_exists: bool) -> (r: Side)
    ensures
        r == if primary_exists || create {
            Side::Primary
        } else if secondary_exists {
            Side::Secondary
        } else {
            Side::Primary
        },
{
    if primary_exists || create {
        Side::Primary
    } else if secondary_exists {
        Side::Secondary
    } else {
        Side::Primary
    }
}

/// Which filesystem answers a question about a path: the primary one when the path is there,
/// else the secondary one.
pub fn lookup_side(primary_exists: bool) -> (r: Side)
    ensures
        r == if primary_exists { Side::Primary } else { Side::Secondary },
{
    if primary_exists {
        Side::Primary
    } else {
        Side::Secondary
    }
}

/// A file opened through an overlay, from one of its two filesystems.
pub enum File<P: crate::FileSystem, S: crate::FileSystem> {
    Primary(P::File),
    Secondary(S::File),
}

/// The entries of both listings, the primary one first, each entry once.
pub fn merge_entries(primary: &Vec<DirEntry>, secondary: &Vec<DirEntry>) -> (r: Vec<DirEntry>)
    ensures
        ({
            let keys = Seq::new((primary@ + secondary@).len(), |i: int| entry_key((primary@ + secondary@)[i]));
            &&& r@.len() == unique_spec(keys).len()
            &&& forall|i: int| 0 <= i < r@.len() ==> #[trigger] entry_key(r@[i]) == unique_spec(keys)[i]
        }),
        distinct_entries(r@),
{
    let ghost both = primary@ + secondary@;
    let mut all: Vec<DirEntry> = Vec::new();
    let mut i: usize = 0;
    while i < primary.len()
        invariant
            both == primary@ + secondary@,
            i <= primary@.len(),
            all@.len() == i,
            forall|k: int| 0 <= k < i ==> #[trigger] entry_key(all@[k]) == entry_key(both[k]),
        decreases primary@.len() - i,
    {
        all.push(primary[i].clone_entry());
        i += 1;
    }
    let mut j: usize = 0;
    while j < secondary.len()
        invariant
            both == primary@ + secondary@,
            j <= secondary@.len(),
            all@.len() == primary@.len() + j,
            forall|k: int| 0 <= k < all@.len() ==> #[trigger] entry_key(all@[k]) == entry_key(both[k]),
        decreases secondary@.len() - j,
    {
        all.push(secondary[j].clone_entry());
        j += 1;
    }
    assert(Seq::new(all@.len(), |i: int| entry_key(all@[i])) =~= Seq::new(both.len(), |i: int| entry_key(both[i])));
    unique_entries(&all)
}

/// The answer of the primary filesystem's `open_file`, as the overlay gives it.
pub open spec fn in_primary<P: crate::FileSystem, S: crate::FileSystem>(r: Result<P::File, Error>) -> Result<File<P, S>, Error> {
    match r {
        Ok(f) => Ok(File::Primary(f)),
        Err(e) => Err(e),
    }
}

/// The answer of the secondary filesystem's `open_file`, as the overlay gives it.
pub open spec fn in_secondary<P: crate::FileSystem, S: crate::FileSystem>(r: Result<S::File, Error>) -> Result<File<P, S>, Error> {
    match r {
        Ok(f) => Ok(File::Secondary(f)),
        Err(e) => Err(e),
    }
}

/// `r` is what `merge_entries` gives for the listings `p` and `s`.
pub open spec fn merged(p: Seq<DirEntry>, s: Seq<DirEntry>, r: Seq<DirEntry>) -> bool {
    let keys = Seq::new((p + s).len(), |i: int| entry_key((p + s)[i]));
    &&& r.len() == unique_spec(keys).len()
    &&& forall|i: int| 0 <= i < r.len() ==> #[trigger] entry_key(r[i]) == unique_spec(keys)[i]
    &&& distinct_entries(r)
}

impl<P: crate::FileSystem, S: crate::FileSystem> crate::FileSystem for Overlay<P, S> {
    type File = File<P, S>;

    /// The primary filesystem is asked whether it holds the path; it opens the file when it does
    /// or the file is to be created. Else the secondary one is asked, and opens the file when it
    /// holds it; else the primary one opens it (and reports the failure).
    open spec fn opens(&self, after: &Self, path: Seq<char>, flags: OpenFlags, r: Result<File<P, S>, Error>) -> bool {
        let create = flags.has(CREATE);
        ||| after.secondary_spec() == self.secondary_spec() && exists|e: Error| r == Err::<File<P, S>, Error>(e)
            && #[trigger] self.primary_spec().answers_exists(&after.primary_spec(), path, Err::<bool, Error>(e))
        ||| after.secondary_spec() == self.secondary_spec() && exists|mid: P, held: bool, r1: Result<P::File, Error>|
            #[trigger] self.primary_spec().answers_exists(&mid, path, Ok::<bool, Error>(held)) && (held || create)
            && #[trigger] mid.opens(&after.primary_spec(), path, flags, r1) && r == in_primary::<P, S>(r1)
        ||| !create && self.primary_spec().answers_exists(&after.primary_spec(), path, Ok::<bool, Error>(false)) && exists|e: Error|
            r == Err::<File<P, S>, Error>(e) && #[trigger] self.secondary_spec().answers_exists(&after.secondary_spec(), path, Err::<bool, Error>(e))
        ||| !create && self.primary_spec().answers_exists(&after.primary_spec(), path, Ok::<bool, Error>(false)) && exists|mid: S, r2: Result<S::File, Error>|
            #[trigger] self.secondary_spec().answers_exists(&mid, path, Ok::<bool, Error>(true))
            && #[trigger] mid.opens(&after.secondary_spec(), path, flags, r2) && r == in_secondary::<P, S>(r2)
        ||| !create && self.secondary_spec().answers_exists(&after.secondary_spec(), path, Ok::<bool, Error>(false)) && exists|mid: P, r1: Result<P::File, Error>|
            #[trigger] self.primary_spec().answers_exists(&mid, path, Ok::<bool, Error>(false))
            && #[trigger] mid.opens(&after.primary_spec(), path, flags, r1) && r == in_primary::<P, S>(r1)
    }

    /// The primary filesystem is asked whether it holds the path; the one that answers is the
    /// primary one when it does, else the secondary one.
    open spec fn answers_metadata(&self, after: &Self, path: Seq<char>, r: Result<Metadata, Error>) -> bool {
        ||| after.secondary_spec() == self.secondary_spec() && exists|e: Error| r == Err::<Metadata, Error>(e)
            && #[trigger] self.primary_spec().answers_exists(&after.primary_spec(), path, Err::<bool, Error>(e))
        ||| after.secondary_spec() == self.secondary_spec() && exists|mid: P| #[trigger] self.primary_spec().answers_exists(&mid, path, Ok::<bool, Error>(true))
            && mid.answers_metadata(&after.primary_spec(), path, r)
        ||| self.primary_spec().answers_exists(&after.primary_spec(), path, Ok::<bool, Error>(false))
            && self.secondary_spec().answers_metadata(&after.secondary_spec(), path, r)
    }

    /// The primary filesystem renames.
    open spec fn renames(&self, after: &Self, from: Seq<char>, to: Seq<char>, r: Result<(), Error>) -> bool {
        self.primary_spec().renames(&after.primary_spec(), from, to, r) && after.secondary_spec() == self.secondary_spec()
    }

    /// The primary filesystem is asked first; its answer stands unless it is `false`, and then
    /// the secondary one answers.
    open spec fn answers_exists(&self, after: &Self, path: Seq<char>, r: Result<bool, Error>) -> bool {
        ||| self.primary_spec().answers_exists(&after.primary_spec(), path, r) && r != Ok::<bool, Error>(false) && after.secondary_spec() == self.secondary_spec()
        ||| self.primary_spec().answers_exists(&after.primary_spec(), path, Ok::<bool, Error>(false)) && self.secondary_spec().answers_exists(&after.secondary_spec(), path, r)
    }

    /// The primary filesystem makes the directory.
    open spec fn creates_dir(&self, after: &Self, path: Seq<char>, r: Result<(), Error>) -> bool {
        self.primary_spec().creates_dir(&after.primary_spec(), path, r) && after.secondary_spec() == self.secondary_spec()
    }

    /// The primary filesystem removes the directory.
    open spec fn removes_dir(&self, after: &Self, path: Seq<char>, r: Result<(), Error>) -> bool {
        self.primary_spec().removes_dir(&after.primary_spec(), path, r) && after.secondary_spec() == self.secondary_spec()
    }

    /// The primary filesystem removes the file.
    open spec fn removes_file(&self, after: &Self, path: Seq<char>, r: Result<(), Error>) -> bool {
        self.primary_spec().removes_file(&after.primary_spec(), path, r) && after.secondary_spec() == self.secondary_spec()
    }

    /// Each filesystem that holds the path lists it, the primary one first; the entries are
    /// merged, each once. An error of the primary one leaves the secondary one unasked.
    open spec fn lists_dir(&self, after: &Self, path: Seq<char>, r: Result<Vec<DirEntry>, Error>) -> bool {
        ||| after.secondary_spec() == self.secondary_spec() && exists|e: Error| r == Err::<Vec<DirEntry>, Error>(e)
            && #[trigger] listed_if_held(self.primary_spec(), after.primary_spec(), path, Err::<Vec<DirEntry>, Error>(e))
        ||| exists|pv: Vec<DirEntry>, sr: Result<Vec<DirEntry>, Error>|
            #[trigger] listed_if_held(self.primary_spec(), after.primary_spec(), path, Ok::<Vec<DirEntry>, Error>(pv))
            && #[trigger] listed_if_held(self.secondary_spec(), after.secondary_spec(), path, sr) && match sr {
                Err(e) => r == Err::<Vec<DirEntry>, Error>(e),
                Ok(sv) => r matches Ok(v) && merged(pv@, sv@, v@),
            }
    }

    /// Opens the file in the primary filesystem when it is there or is to be created, else in the
    /// secondary one when it is there, else in the primary one, which reports the failure.
    fn open_file(&mut self, path: &str, flags: OpenFlags) -> (r: Result<File<P, S>, Error>) {
        let ghost a = *self;
        let primary_exists = match self.primary.path_exists(path) {
            Ok(b) => b,
            Err(e) => {
                assert(a.primary_spec().answers_exists(&self.primary_spec(), path@, Err::<bool, Error>(e)));
                assert(a.opens(self, path@, flags, Err::<File<P, S>, Error>(e)));
                return Err(e);
            },
        };
        let ghost mid_p = self.primary;
        let create = flags.contains(CREATE);
        let secondary_exists = if primary_exists || create {
            false
        } else {
            match self.secondary.path_exists(path) {
                Ok(b) => b,
                Err(e) => {
                    assert(a.secondary_spec().answers_exists(&self.secondary_spec(), path@, Err::<bool, Error>(e)));
                    assert(a.opens(self, path@, flags, Err::<File<P, S>, Error>(e)));
                    return Err(e);
                },
            }
        };
        let ghost mid_s = self.secondary;
        let side = open_side(primary_exists, create, secondary_exists);
        match side {
            Side::Primary => {
                let r1 = self.primary.open_file(path, flags);
                let ghost g1 = r1;
                proof {
                    assert(a.primary_spec().answers_exists(&mid_p, path@, Ok::<bool, Error>(primary_exists)));
                    assert(mid_p.opens(&self.primary_spec(), path@, flags, g1));
                }
                let r = match r1 {
                    Ok(f) => Ok(File::Primary(f)),
                    Err(e) => Err(e),
                };
                assert(r == in_primary::<P, S>(g1));
                assert(a.opens(self, path@, flags, r));
                r
            },
            Side::Secondary => {
                let r2 = self.secondary.open_file(path, flags);
                let ghost g2 = r2;
                proof {
                    assert(a.secondary_spec().answers_exists(&mid_s, path@, Ok::<bool, Error>(true)));
                    assert(mid_s.opens(&self.secondary_spec(), path@, flags, g2));
                }
                let r = match r2 {
                    Ok(f) => Ok(File::Secondary(f)),
                    Err(e) => Err(e),
                };
                assert(r == in_secondary::<P, S>(g2));
                assert(a.opens(self, path@, flags, r));
                r
            },
        }
    }

    /// What the primary filesystem knows of the path when it has it, else the secondary one.
    fn metadata(&mut self, path: &str) -> (r: Result<Metadata, Error>) {
        let ghost a = *self;
        let held = match self.primary.path_exists(path) {
            Ok(b) => b,
            Err(e) => {
                assert(a.primary_spec().answers_exists(&self.primary_spec(), path@, Err::<bool, Error>(e)));
                return Err(e);
            },
        };
        let ghost mid_p = self.primary;
        match lookup_side(held) {
            Side::Primary => {
                let r = self.primary.metadata(path);
                assert(a.primary_spec().answers_exists(&mid_p, path@, Ok::<bool, Error>(true)));
                r
            },
            Side::Secondary => self.secondary.metadata(path),
        }
    }

    /// Renames in the primary filesystem.
    fn rename(&mut self, from: &str, to: &str) -> (r: Result<(), Error>)
        ensures
            final(self).secondary_spec() == old(self).secondary_spec(),
    {
        self.primary.rename(from, to)
    }

    /// Whether either filesystem has the path, the primary one asked first.
    fn path_exists(&mut self, path: &str) -> (r: Result<bool, Error>) {
        match self.primary.path_exists(path) {
            Ok(true) => Ok(true),
            Ok(false) => self.secondary.path_exists(path),
            Err(e) => Err(e),
        }
    }

    /// Makes the directory in the primary filesystem.
    fn create_dir(&mut self, path: &str) -> (r: Result<(), Error>)
        ensures
            final(self).secondary_spec() == old(self).secondary_spec(),
    {
        self.primary.create_dir(path)
    }

    /// Removes the directory from the primary filesystem.
    fn remove_dir(&mut self, path: &str) -> (r: Result<(), Error>)
        ensures
            final(self).secondary_spec() == old(self).secondary_spec(),
    {
        self.primary.remove_dir(path)
    }

    /// Removes the file from the primary filesystem.
    fn remove_file(&mut self, path: &str) -> (r: Result<(), Error>)
        ensures
            final(self).secondary_spec() == old(self).secondary_spec(),
    {
        self.primary.remove_file(path)
    }

    /// The entries of the directory in the filesystems that have it, the primary one first, each
    /// entry once.
    fn read_dir(&mut self, path: &str) -> (r: Result<Vec<DirEntry>, Error>)
        ensures
            r matches Ok(v) ==> distinct_entries(v@),
    {
        let ghost a = *self;
        let primary_entries = match list_if_held(&mut self.primary, path) {
            Ok(v) => v,
            Err(e) => {
                assert(listed_if_held(a.primary_spec(), self.primary_spec(), path@, Err::<Vec<DirEntry>, Error>(e)));
                assert(a.lists_dir(self, path@, Err::<Vec<DirEntry>, Error>(e)));
                return Err(e);
            },
        };
        let ghost pv = primary_entries;
        let ghost mid_s = self.secondary;
        let sr = list_if_held(&mut self.secondary, path);
        let ghost gs = sr;
        proof {
            assert(listed_if_held(a.primary_spec(), self.primary_spec(), path@, Ok::<Vec<DirEntry>, Error>(pv)));
            assert(listed_if_held(a.secondary_spec(), self.secondary_spec(), path@, gs));
        }
        let r = match sr {
            Ok(secondary_entries) => Ok(merge_entries(&primary_entries, &secondary_entries)),
            Err(e) => Err(e),
        };
        assert(a.lists_dir(self, path@, r));
        r
    }
}

} // verus!
