//! The decisions made while loading a project: which RPG Maker made it, which archive it ships,
//! which run-time packages it needs, and the list of recent projects.
use vstd::prelude::*;
use vstd::utf8::*;

use crate::trie::bytes_eq;
use crate::paths::{extension_of, lowercase_of, path_extension, with_extension_of};
use crate::{DirEntry, Error, Metadata, OpenFlags};

verus! {

broadcast use group_utf8_lib;

/// The RPG Maker versions a project can be made with.
#[derive(Clone, Copy, Debug, PartialEq, Eq, Structural)]
pub enum RMVer {
    XP,
    VX,
    Ace,
}

/// What loading a project found missing.
#[derive(Clone, Debug)]
pub struct LoadResult {
    pub missing_rtps: Vec<String>,
}

/// The version an archive name tells, if any: by the extension of its path, `rgssad`, `rgss2a`
/// or `rgss3a`.
pub open spec fn archive_version_of(p: Seq<char>) -> Option<RMVer> {
    match extension_of(p) {
        Some(e) => if e == "rgssad"@ {
            Some(RMVer::XP)
        } else if e == "rgss2a"@ {
            Some(RMVer::VX)
        } else if e == "rgss3a"@ {
            Some(RMVer::Ace)
        } else {
            None
        },
        None => None,
    }
}

/// The version an archive name tells, if any.
pub fn archive_version(p: &str) -> (r: Option<RMVer>)
    ensures
        r == archive_version_of(p@),
{
    match path_extension(p) {
        Some(e) => if str_eq(e.as_str(), "rgssad") {
            Some(RMVer::XP)
        } else if str_eq(e.as_str(), "rgss2a") {
            Some(RMVer::VX)
        } else if str_eq(e.as_str(), "rgss3a") {
            Some(RMVer::Ace)
        } else {
            None
        },
        None => None,
    }
}

/// The version told by the first entry whose name is that of an archive.
pub open spec fn first_archive_version(entries: Seq<DirEntry>) -> Option<RMVer>
    decreases entries.len(),
{
    if entries.len() == 0 {
        None
    } else {
        match archive_version_of(entries[0].path@) {
            Some(v) => Some(v),
            None => first_archive_version(entries.drop_first()),
        }
    }
}

/// Which RPG Maker made the project: told by which of `Data/Actors.rxdata`, `.rvdata` and
/// `.rvdata2` exists, asked in this order, else by the first archive in the project's root
/// directory; `None` when a question could not be answered or nothing tells.
pub open spec fn rm_ver_spec(
    has_rxdata: Option<bool>,
    has_rvdata: Option<bool>,
    has_rvdata2: Option<bool>,
    root: Option<Seq<DirEntry>>,
) -> Option<RMVer> {
    match has_rxdata {
        None => None,
        Some(true) => Some(RMVer::XP),
        Some(false) => match has_rvdata {
            None => None,
            Some(true) => Some(RMVer::VX),
            Some(false) => match has_rvdata2 {
                None => None,
                Some(true) => Some(RMVer::Ace),
                Some(false) => match root {
                    None => None,
                    Some(entries) => first_archive_version(entries),
                },
            },
        },
    }
}

/// Detects which RPG Maker made the project from whether its actor data files exist (`None`
/// where the question failed) and from the entries of its root directory (`None` when they
/// could not be read).
pub fn detect_rm_ver(
    has_rxdata: Option<bool>,
    has_rvdata: Option<bool>,
    has_rvdata2: Option<bool>,
    root: &Option<Vec<DirEntry>>,
) -> (r: Option<RMVer>)
    ensures
        r == rm_ver_spec(has_rxdata, has_rvdata, has_rvdata2, match root {
            Some(v) => Some(v@),
            None => None,
        }),
{
    match has_rxdata {
        None => return None,
        Some(true) => return Some(RMVer::XP),
        Some(false) => {},
    }
    match has_rvdata {
        None => return None,
        Some(true) => return Some(RMVer::VX),
        Some(false) => {},
    }
    match has_rvdata2 {
        None => return None,
        Some(true) => return Some(RMVer::Ace),
        Some(false) => {},
    }
    match root {
        None => None,
        Some(v) => first_archive(v),
    }
}

/// The version told by the first entry whose name is that of an archive.
pub fn first_archive(entries: &Vec<DirEntry>) -> (r: Option<RMVer>)
    ensures
        r == first_archive_version(entries@),
{
    let mut i: usize = 0;
    assert(entries@.skip(0) =~= entries@);
    while i < entries.len()
        invariant
            i <= entries@.len(),
            first_archive_version(entries@) == first_archive_version(entries@.skip(i as int)),
        decreases entries@.len() - i,
    {
        assert(entries@.skip(i as int).drop_first() =~= entries@.skip(i + 1));
        assert(entries@.skip(i as int)[0] == entries@[i as int]);
        match archive_version(entries[i].path.as_str()) {
            Some(v) => return Some(v),
            None => {},
        }
        i += 1;
    }
    assert(entries@.skip(i as int) =~= seq![]);
    None
}

/// The position of the first entry that is a file named like an archive.
pub fn archive_entry_index(entries: &Vec<DirEntry>) -> (r: Option<usize>)
    ensures
        match r {
            Some(i) => i < entries@.len() && entries@[i as int].metadata.is_file
                && archive_version_of(entries@[i as int].path@) is Some
                && forall|j: int| 0 <= j < i ==> !(#[trigger] entries@[j].metadata.is_file
                    && archive_version_of(entries@[j].path@) is Some),
            None => forall|j: int| 0 <= j < entries@.len() ==> !(#[trigger] entries@[j].metadata.is_file
                && archive_version_of(entries@[j].path@) is Some),
        },
{
    let mut i: usize = 0;
    while i < entries.len()
        invariant
            i <= entries@.len(),
            forall|j: int| 0 <= j < i ==> !(#[trigger] entries@[j].metadata.is_file
                && archive_version_of(entries@[j].path@) is Some),
        decreases entries@.len() - i,
    {
        if entries[i].metadata.is_file && archive_version(entries[i].path.as_str()).is_some() {
            return Some(i);
        }
        i += 1;
    }
    None
}

/// The run-time packages to look for, in order: each named value once, empty ones left out.
pub open spec fn rtp_candidates_spec(values: Seq<Option<String>>) -> Seq<Seq<char>>
    decreases values.len(),
{
    if values.len() == 0 {
        seq![]
    } else {
        let before = rtp_candidates_spec(values.drop_last());
        match values.last() {
            None => before,
            Some(s) => if s@.len() == 0 || before.contains(s@) {
                before
            } else {
                before.push(s@)
            },
        }
    }
}

/// Whether two strings are equal.
pub fn str_eq(a: &str, b: &str) -> (r: bool)
    ensures
        r == (a@ == b@),
{
    let r = bytes_eq(a.as_bytes(), b.as_bytes());
    proof {
        if r {
            assert(decode_utf8(encode_utf8(a@)) == a@);
            assert(decode_utf8(encode_utf8(b@)) == b@);
        }
    }
    r
}

/// The run-time packages a project names (the values of its `RTP1`, `RTP2` and `RTP3` settings,
/// in order, `None` where one is missing), each once, without empty ones.
pub fn rtp_candidates(values: &Vec<Option<String>>) -> (r: Vec<String>)
    ensures
        r@.len() == rtp_candidates_spec(values@).len(),
        forall|i: int| 0 <= i < r@.len() ==> #[trigger] r@[i]@ == rtp_candidates_spec(values@)[i],
{
    let mut out: Vec<String> = Vec::new();
    let mut i: usize = 0;
    assert(values@.take(0) =~= seq![]);
    while i < values.len()
        invariant
            i <= values@.len(),
            out@.len() == rtp_candidates_spec(values@.take(i as int)).len(),
            forall|k: int| 0 <= k < out@.len() ==> #[trigger] out@[k]@ == rtp_candidates_spec(values@.take(i as int))[k],
        decreases values@.len() - i,
    {
        let ghost before = rtp_candidates_spec(values@.take(i as int));
        assert(values@.take(i + 1).drop_last() =~= values@.take(i as int));
        assert(values@.take(i + 1).last() == values@[i as int]);
        match &values[i] {
            None => {},
            Some(s) => {
                let mut seen = false;
                let mut j: usize = 0;
                while j < out.len()
                    invariant
                        j <= out@.len(),
                        out@.len() == before.len(),
                        forall|k: int| 0 <= k < out@.len() ==> #[trigger] out@[k]@ == before[k],
                        seen == exists|k: int| 0 <= k < j && before[k] == s@,
                    decreases out@.len() - j,
                {
                    if str_eq(out[j].as_str(), s.as_str()) {
                        seen = true;
                    }
                    j += 1;
                }
                assert(seen == before.contains(s@)) by {
                    if before.contains(s@) {
                        let k = choose|k: int| 0 <= k < before.len() && before[k] == s@;
                        assert(before[k] == s@);
                    }
                }
                let empty = s.as_str().as_bytes().len() == 0;
                assert(empty == (s@.len() == 0)) by {
                    if s@.len() > 0 {
                        reveal_with_fuel(encode_utf8, 1);
                    } else {
                        assert(s@ =~= Seq::<char>::empty());
                    }
                }
                if !seen && !empty {
                    let ghost old_out = out@;
                    out.push(s.clone());
                    assert forall|k: int| 0 <= k < out@.len() implies #[trigger] out@[k]@ == before.push(s@)[k] by {
                        if k < old_out.len() {
                            assert(out@[k] == old_out[k]);
                        }
                    }
                }
            },
        }
        i += 1;
    }
    assert(values@.take(values@.len() as int) =~= values@);
    out
}

/// The paths of the run-time packages that were found, in order, and the names of those that
/// were not.
pub open spec fn rtp_outcome_spec(rtps: Seq<Seq<char>>, found: Seq<Option<String>>) -> (Seq<Seq<char>>, Seq<Seq<char>>)
    decreases rtps.len(),
{
    if rtps.len() == 0 || found.len() == 0 {
        (seq![], seq![])
    } else {
        let r = rtp_outcome_spec(rtps.drop_last(), found.take(rtps.len() - 1));
        match found[rtps.len() - 1] {
            Some(p) => (r.0.push(p@), r.1),
            None => (r.0, r.1.push(rtps.last())),
        }
    }
}

/// Splits the run-time packages into those found, by the path where each was found
/// (`found[i]`), and those missing, by name.
pub fn rtp_outcome(rtps: &Vec<String>, found: &Vec<Option<String>>) -> (r: (Vec<String>, Vec<String>))
    requires
        found@.len() == rtps@.len(),
    ensures
        ({
            let want = rtp_outcome_spec(Seq::new(rtps@.len(), |i: int| rtps@[i]@), found@);
            &&& r.0@.len() == want.0.len()
            &&& forall|i: int| 0 <= i < r.0@.len() ==> #[trigger] r.0@[i]@ == want.0[i]
            &&& r.1@.len() == want.1.len()
            &&& forall|i: int| 0 <= i < r.1@.len() ==> #[trigger] r.1@[i]@ == want.1[i]
        }),
{
    let ghost names = Seq::new(rtps@.len(), |i: int| rtps@[i]@);
    let mut paths: Vec<String> = Vec::new();
    let mut missing: Vec<String> = Vec::new();
    let mut i: usize = 0;
    while i < rtps.len()
        invariant
            found@.len() == rtps@.len(),
            names == Seq::new(rtps@.len(), |i: int| rtps@[i]@),
            i <= rtps@.len(),
            ({
                let want = rtp_outcome_spec(names.take(i as int), found@.take(i as int));
                &&& paths@.len() == want.0.len()
                &&& forall|k: int| 0 <= k < paths@.len() ==> #[trigger] paths@[k]@ == want.0[k]
                &&& missing@.len() == want.1.len()
                &&& forall|k: int| 0 <= k < missing@.len() ==> #[trigger] missing@[k]@ == want.1[k]
            }),
        decreases rtps@.len() - i,
    {
        let ghost prev = rtp_outcome_spec(names.take(i as int), found@.take(i as int));
        proof {
            assert(names.take(i + 1).drop_last() =~= names.take(i as int));
            assert(found@.take(i + 1).take(i as int) =~= found@.take(i as int));
            assert(names.take(i + 1).last() == rtps@[i as int]@);
            assert(found@.take(i + 1)[i as int] == found@[i as int]);
        }
        match &found[i] {
            Some(p) => {
                let ghost old_paths = paths@;
                paths.push(p.clone());
                assert forall|k: int| 0 <= k < paths@.len() implies #[trigger] paths@[k]@ == prev.0.push(p@)[k] by {
                    if k < old_paths.len() {
                        assert(paths@[k] == old_paths[k]);
                    }
                }
            },
            None => {
                let ghost old_missing = missing@;
                missing.push(rtps[i].clone());
                assert forall|k: int| 0 <= k < missing@.len() implies #[trigger] missing@[k]@ == prev.1.push(rtps@[i as int]@)[k] by {
                    if k < old_missing.len() {
                        assert(missing@[k] == old_missing[k]);
                    }
                }
            },
        }
        i += 1;
    }
    assert(names.take(rtps@.len() as int) =~= names);
    assert(found@.take(rtps@.len() as int) =~= found@);
    (paths, missing)
}

/// The recent projects after opening the project at `path`: it goes first, and leaves the place
/// it had.
pub open spec fn recent_spec(recent: Seq<Seq<char>>, path: Seq<char>) -> Seq<Seq<char>> {
    seq![path] + recent.filter(|p: Seq<char>| p != path)
}

/// The list of recent projects after opening the project at `path`.
pub fn update_recent_projects(recent: &Vec<String>, path: &str) -> (r: Vec<String>)
    ensures
        r@.len() == recent_spec(Seq::new(recent@.len(), |i: int| recent@[i]@), path@).len(),
        forall|i: int| 0 <= i < r@.len() ==> #[trigger] r@[i]@ == recent_spec(Seq::new(recent@.len(), |i: int| recent@[i]@), path@)[i],
{
    let ghost all = Seq::new(recent@.len(), |i: int| recent@[i]@);
    let ghost pred = |p: Seq<char>| p != path@;
    let mut out: Vec<String> = Vec::new();
    out.push(path.to_owned());
    let mut i: usize = 0;
    proof {
        reveal(Seq::filter);
        assert(all.take(0).filter(pred) =~= seq![]);
    }
    while i < recent.len()
        invariant
            all == Seq::new(recent@.len(), |i: int| recent@[i]@),
            pred == (|p: Seq<char>| p != path@),
            i <= recent@.len(),
            out@.len() == 1 + all.take(i as int).filter(pred).len(),
            out@[0]@ == path@,
            forall|k: int| 0 <= k < all.take(i as int).filter(pred).len() ==> #[trigger] out@[k + 1]@ == all.take(i as int).filter(pred)[k],
        decreases recent@.len() - i,
    {
        let ghost fb = all.take(i as int).filter(pred);
        proof {
            reveal(Seq::filter);
            assert(all.take(i + 1).drop_last() =~= all.take(i as int));
            assert(all.take(i + 1).last() == recent@[i as int]@);
        }
        if !str_eq(recent[i].as_str(), path) {
            let ghost old_out = out@;
            out.push(recent[i].clone());
            assert(all.take(i + 1).filter(pred) == fb.push(recent@[i as int]@));
            assert forall|k: int| 0 <= k < fb.push(recent@[i as int]@).len() implies #[trigger] out@[k + 1]@ == fb.push(recent@[i as int]@)[k] by {
                if k < fb.len() {
                    assert(out@[k + 1] == old_out[k + 1]);
                }
            }
        } else {
            assert(all.take(i + 1).filter(pred) == fb);
        }
        i += 1;
    }
    assert(all.take(recent@.len() as int) =~= all);
    proof {
        let want = recent_spec(all, path@);
        assert forall|k: int| 0 <= k < out@.len() implies #[trigger] out@[k]@ == want[k] by {
            if k > 0 {
                assert(out@[(k - 1) + 1]@ == all.filter(pred)[k - 1]);
            }
        }
    }
    out
}

/// The filesystem of the project being edited: nothing yet, the project's folder alone while
/// the project is being loaded, or the whole project: the case-insensitive layer over the
/// project's filesystems, with the folder and its path.
pub enum FileSystem<H, L> {
    Unloaded,
    HostLoaded { host: H, project_path: String },
    Loaded { filesystem: crate::path_cache::FileSystem<L>, host_filesystem: H, project_path: String },
}

/// `a` and `b` are the same project being loaded from its folder, whose filesystem went from
/// `h0` to `h1` with `rel(h0, h1)`.
pub open spec fn host_step<H, L>(a: FileSystem<H, L>, b: FileSystem<H, L>, rel: spec_fn(H, H) -> bool) -> bool {
    match (a, b) {
        (FileSystem::HostLoaded { host: h0, project_path: p0 }, FileSystem::HostLoaded { host: h1, project_path: p1 }) => p1 == p0
            && rel(h0, h1),
        _ => false,
    }
}

/// `a` and `b` are the same loaded project, whose case-insensitive layer went from `f0` to `f1`
/// with `rel(f0, f1)`; the host filesystem and the project path stay.
pub open spec fn layer_step<H, L>(
    a: FileSystem<H, L>,
    b: FileSystem<H, L>,
    rel: spec_fn(crate::path_cache::FileSystem<L>, crate::path_cache::FileSystem<L>) -> bool,
) -> bool {
    match (a, b) {
        (
            FileSystem::Loaded { filesystem: f0, host_filesystem: h0, project_path: p0 },
            FileSystem::Loaded { filesystem: f1, host_filesystem: h1, project_path: p1 },
        ) => h1 == h0 && p1 == p0 && rel(f0, f1),
        _ => false,
    }
}

/// A file opened through the project filesystem.
pub enum File<H: crate::FileSystem, L: crate::FileSystem> {
    Host(H::File),
    Loaded(L::File),
}

impl<H, L> FileSystem<H, L> {
    /// A loaded project's case-insensitive layer is well formed.
    pub open spec fn wf(&self) -> bool {
        match self {
            FileSystem::Loaded { filesystem, .. } => filesystem.wf(),
            _ => true,
        }
    }

    /// Nothing loaded.
    pub fn new() -> (r: Self)
        ensures
            r is Unloaded,
    {
        FileSystem::Unloaded
    }

    /// The path of the project's folder, once loading has begun.
    pub fn project_path(&self) -> (r: Option<String>)
        ensures
            match self {
                FileSystem::Unloaded => r is None,
                FileSystem::HostLoaded { project_path, .. } => r matches Some(p) && p@ == project_path@,
                FileSystem::Loaded { project_path, .. } => r matches Some(p) && p@ == project_path@,
            },
    {
        match self {
            FileSystem::Unloaded => None,
            FileSystem::HostLoaded { project_path, .. } => Some(project_path.clone()),
            FileSystem::Loaded { project_path, .. } => Some(project_path.clone()),
        }
    }

    /// Whether loading has begun.
    pub fn project_loaded(&self) -> (r: bool)
        ensures
            r == !(self is Unloaded),
    {
        match self {
            FileSystem::Unloaded => false,
            _ => true,
        }
    }

    /// Forgets the project.
    pub fn unload_project(&mut self)
        ensures
            *final(self) is Unloaded,
    {
        *self = FileSystem::Unloaded;
    }

    /// The project's folder, once loading has begun.
    pub fn host(&self) -> (r: Option<&H>)
        ensures
            match self {
                FileSystem::Unloaded => r is None,
                FileSystem::HostLoaded { host, .. } => r == Some(host),
                FileSystem::Loaded { host_filesystem, .. } => r == Some(host_filesystem),
            },
    {
        match self {
            FileSystem::Unloaded => None,
            FileSystem::HostLoaded { host, .. } => Some(host),
            FileSystem::Loaded { host_filesystem, .. } => Some(host_filesystem),
        }
    }

    /// Begins loading: the project's folder alone.
    pub fn load_host(&mut self, host: H, project_path: String)
        ensures
            *final(self) matches FileSystem::HostLoaded { host: h, project_path: p } && h == host && p@ == project_path@,
    {
        *self = FileSystem::HostLoaded { host, project_path };
    }

    /// Ends loading: the case-insensitive layer over the project's filesystems, with the folder.
    pub fn finish_loading(&mut self, filesystem: crate::path_cache::FileSystem<L>, host: H, project_path: String)
        requires
            filesystem.wf(),
        ensures
            final(self).wf(),
            *final(self) matches FileSystem::Loaded { filesystem: f, host_filesystem: h, project_path: p } && f == filesystem
                && h == host && p@ == project_path@,
    {
        *self = FileSystem::Loaded { filesystem, host_filesystem: host, project_path };
    }

    /// Empties the cache of the case-insensitive layer of a loaded project.
    pub fn rebuild_path_cache(&mut self)
        requires
            old(self).wf(),
        ensures
            final(self).wf(),
            !(*old(self) is Loaded) ==> *final(self) == *old(self),
            *old(self) matches FileSystem::Loaded { filesystem: f0, host_filesystem: h0, project_path: p0 } ==> (
            *final(self) matches FileSystem::Loaded { filesystem: f1, host_filesystem: h1, project_path: p1 } && h1 == h0 && p1 == p0
                && f1.inner() == f0.inner() && f1.cache_of().files().len() == 0),
    {
        match self {
            FileSystem::Loaded { filesystem, .. } => filesystem.rebuild(),
            _ => {},
        }
    }
}

impl<H: crate::FileSystem, L: crate::FileSystem> FileSystem<H, L> {
    /// Which RPG Maker made the loaded project: the actor data files are asked for in order,
    /// and the root directory is read only when none of them answers (see `detect_rm_ver`);
    /// `None` before loading, when every question fails.
    pub fn detect_rm_ver(&mut self) -> (r: Option<RMVer>)
        requires
            old(self).wf(),
        ensures
            final(self).wf(),
            *old(self) is Unloaded ==> r is None && *final(self) == *old(self),
    {
        let has_rxdata = match self.path_exists("Data/Actors.rxdata") {
            Ok(b) => Some(b),
            Err(_) => None,
        };
        if has_rxdata != Some(false) {
            return detect_rm_ver(has_rxdata, None, None, &None);
        }
        let has_rvdata = match self.path_exists("Data/Actors.rvdata") {
            Ok(b) => Some(b),
            Err(_) => None,
        };
        if has_rvdata != Some(false) {
            return detect_rm_ver(has_rxdata, has_rvdata, None, &None);
        }
        let has_rvdata2 = match self.path_exists("Data/Actors.rvdata2") {
            Ok(b) => Some(b),
            Err(_) => None,
        };
        if has_rvdata2 != Some(false) {
            return detect_rm_ver(has_rxdata, has_rvdata, has_rvdata2, &None);
        }
        let root = match self.read_dir("") {
            Ok(v) => Some(v),
            Err(_) => None,
        };
        detect_rm_ver(has_rxdata, has_rvdata, has_rvdata2, &root)
    }

    /// Opens a file: in the folder while loading, through the case-insensitive layer once
    /// loaded; `Err(NotLoaded)` before.
    pub fn open_file(&mut self, path: &str, flags: OpenFlags) -> (r: Result<File<H, L>, Error>)
        requires
            old(self).wf(),
        ensures
            final(self).wf(),
            *old(self) is Unloaded ==> r == Err::<File<H, L>, Error>(Error::NotLoaded) && *final(self) == *old(self),
            *old(self) is HostLoaded ==> host_step(*old(self), *final(self), |h0: H, h1: H| exists|r1: Result<H::File, Error>|
                #[trigger] h0.opens(&h1, path@, flags, r1) && r == (match r1 {
                    Ok(f) => Ok(File::<H, L>::Host(f)),
                    Err(e) => Err(e),
                })),
            *old(self) is Loaded ==> layer_step(*old(self), *final(self), |f0: crate::path_cache::FileSystem<L>, f1: crate::path_cache::FileSystem<L>|
                f0.cache_of().desensitize_spec(path@) matches Some(q) ==> exists|r1: Result<L::File, Error>|
                    #[trigger] f0.inner().opens(&f1.inner(), q, flags, r1) && r == (match r1 {
                        Ok(f) => Ok(File::<H, L>::Loaded(f)),
                        Err(e) => Err(e),
                    })),
    {
        match self {
            FileSystem::Unloaded => Err(Error::NotLoaded),
            FileSystem::HostLoaded { host, .. } => match host.open_file(path, flags) {
                Ok(f) => Ok(File::Host(f)),
                Err(e) => Err(e),
            },
            FileSystem::Loaded { filesystem, .. } => match filesystem.open_file(path, flags) {
                Ok(f) => Ok(File::Loaded(f)),
                Err(e) => Err(e),
            },
        }
    }

    /// What is known of a path; `Err(NotLoaded)` before loading.
    pub fn metadata(&mut self, path: &str) -> (r: Result<Metadata, Error>)
        requires
            old(self).wf(),
        ensures
            final(self).wf(),
            *old(self) is Unloaded ==> r == Err::<Metadata, Error>(Error::NotLoaded) && *final(self) == *old(self),
            *old(self) is HostLoaded ==> host_step(*old(self), *final(self), |h0: H, h1: H| h0.answers_metadata(&h1, path@, r)),
            *old(self) is Loaded ==> layer_step(*old(self), *final(self), |f0: crate::path_cache::FileSystem<L>, f1: crate::path_cache::FileSystem<L>|
                f0.cache_of().desensitize_spec(path@) matches Some(q) ==> f0.inner().answers_metadata(&f1.inner(), q, r)),
    {
        match self {
            FileSystem::Unloaded => Err(Error::NotLoaded),
            FileSystem::HostLoaded { host, .. } => host.metadata(path),
            FileSystem::Loaded { filesystem, .. } => filesystem.metadata(path),
        }
    }

    /// Moves a file or a directory; `Err(NotLoaded)` before loading.
    pub fn rename(&mut self, from: &str, to: &str) -> (r: Result<(), Error>)
        requires
            old(self).wf(),
        ensures
            final(self).wf(),
            *old(self) is Unloaded ==> r == Err::<(), Error>(Error::NotLoaded) && *final(self) == *old(self),
            *old(self) is HostLoaded ==> host_step(*old(self), *final(self), |h0: H, h1: H| h0.renames(&h1, from@, to@, r)),
            *old(self) is Loaded ==> layer_step(*old(self), *final(self), |f0: crate::path_cache::FileSystem<L>, f1: crate::path_cache::FileSystem<L>|
                f0.cache_of().desensitize_spec(from@) matches Some(q) ==> f0.inner().renames(&f1.inner(), q, to@, r)),
    {
        match self {
            FileSystem::Unloaded => Err(Error::NotLoaded),
            FileSystem::HostLoaded { host, .. } => host.rename(from, to),
            FileSystem::Loaded { filesystem, .. } => filesystem.rename(from, to),
        }
    }

    /// Whether something is at a path; `Err(NotLoaded)` before loading.
    pub fn path_exists(&mut self, path: &str) -> (r: Result<bool, Error>)
        requires
            old(self).wf(),
        ensures
            final(self).wf(),
            *old(self) is Unloaded ==> r == Err::<bool, Error>(Error::NotLoaded) && *final(self) == *old(self),
            *old(self) is HostLoaded ==> host_step(*old(self), *final(self), |h0: H, h1: H| h0.answers_exists(&h1, path@, r)),
            *old(self) is Loaded ==> layer_step(*old(self), *final(self), |f0: crate::path_cache::FileSystem<L>, f1: crate::path_cache::FileSystem<L>|
                (f0.cache_of().desensitize_spec(path@) is Some ==> r == Ok::<bool, Error>(true) && f1 == f0) && (r matches Ok(b) ==> b == f1.cache_of().desensitize_spec(path@) is Some)),
    {
        match self {
            FileSystem::Unloaded => Err(Error::NotLoaded),
            FileSystem::HostLoaded { host, .. } => host.path_exists(path),
            FileSystem::Loaded { filesystem, .. } => filesystem.path_exists(path),
        }
    }

    /// Makes a directory; `Err(NotLoaded)` before loading.
    pub fn create_dir(&mut self, path: &str) -> (r: Result<(), Error>)
        requires
            old(self).wf(),
        ensures
            final(self).wf(),
            *old(self) is Unloaded ==> r == Err::<(), Error>(Error::NotLoaded) && *final(self) == *old(self),
            *old(self) is HostLoaded ==> host_step(*old(self), *final(self), |h0: H, h1: H| h0.creates_dir(&h1, path@, r)),
            *old(self) is Loaded ==> layer_step(*old(self), *final(self), |f0: crate::path_cache::FileSystem<L>, f1: crate::path_cache::FileSystem<L>|
                r is Ok ==> exists|mid: L, d: Seq<char>| f1.cache_of().is_dir_prefix(d, with_extension_of(lowercase_of(path@), seq![])) && #[trigger] mid.creates_dir(&f1.inner(), f1.cache_of().dir_target_from(d, path@), r)),
    {
        match self {
            FileSystem::Unloaded => Err(Error::NotLoaded),
            FileSystem::HostLoaded { host, .. } => host.create_dir(path),
            FileSystem::Loaded { filesystem, .. } => filesystem.create_dir(path),
        }
    }

    /// Removes a directory; `Err(NotLoaded)` before loading.
    pub fn remove_dir(&mut self, path: &str) -> (r: Result<(), Error>)
        requires
            old(self).wf(),
        ensures
            final(self).wf(),
            *old(self) is Unloaded ==> r == Err::<(), Error>(Error::NotLoaded) && *final(self) == *old(self),
            *old(self) is HostLoaded ==> host_step(*old(self), *final(self), |h0: H, h1: H| h0.removes_dir(&h1, path@, r)),
            *old(self) is Loaded ==> layer_step(*old(self), *final(self), |f0: crate::path_cache::FileSystem<L>, f1: crate::path_cache::FileSystem<L>|
                f0.cache_of().desensitize_spec(path@) matches Some(q) ==> f0.inner().removes_dir(&f1.inner(), q, r)),
    {
        match self {
            FileSystem::Unloaded => Err(Error::NotLoaded),
            FileSystem::HostLoaded { host, .. } => host.remove_dir(path),
            FileSystem::Loaded { filesystem, .. } => filesystem.remove_dir(path),
        }
    }

    /// Removes a file; `Err(NotLoaded)` before loading.
    pub fn remove_file(&mut self, path: &str) -> (r: Result<(), Error>)
        requires
            old(self).wf(),
        ensures
            final(self).wf(),
            *old(self) is Unloaded ==> r == Err::<(), Error>(Error::NotLoaded) && *final(self) == *old(self),
            *old(self) is HostLoaded ==> host_step(*old(self), *final(self), |h0: H, h1: H| h0.removes_file(&h1, path@, r)),
            *old(self) is Loaded ==> layer_step(*old(self), *final(self), |f0: crate::path_cache::FileSystem<L>, f1: crate::path_cache::FileSystem<L>|
                f0.cache_of().desensitize_spec(path@) matches Some(q) ==> f0.inner().removes_file(&f1.inner(), q, r)),
    {
        match self {
            FileSystem::Unloaded => Err(Error::NotLoaded),
            FileSystem::HostLoaded { host, .. } => host.remove_file(path),
            FileSystem::Loaded { filesystem, .. } => filesystem.remove_file(path),
        }
    }

    /// The entries of a directory; `Err(NotLoaded)` before loading.
    pub fn read_dir(&mut self, path: &str) -> (r: Result<Vec<DirEntry>, Error>)
        requires
            old(self).wf(),
        ensures
            final(self).wf(),
            *old(self) is Unloaded ==> r == Err::<Vec<DirEntry>, Error>(Error::NotLoaded) && *final(self) == *old(self),
            *old(self) is HostLoaded ==> host_step(*old(self), *final(self), |h0: H, h1: H| h0.lists_dir(&h1, path@, r)),
            *old(self) is Loaded ==> layer_step(*old(self), *final(self), |f0: crate::path_cache::FileSystem<L>, f1: crate::path_cache::FileSystem<L>|
                f0.cache_of().desensitize_spec(path@) matches Some(q) ==> f0.inner().lists_dir(&f1.inner(), q, r)),
    {
        match self {
            FileSystem::Unloaded => Err(Error::NotLoaded),
            FileSystem::HostLoaded { host, .. } => host.read_dir(path),
            FileSystem::Loaded { filesystem, .. } => filesystem.read_dir(path),
        }
    }
}

} // verus!
