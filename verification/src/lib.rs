//! Verified core of an RPG Maker project filesystem: the encrypted RGSSAD archive format, its key
//! streams, and the decision logic of the layered filesystems and of the map renderer.
use vstd::prelude::*;

pub mod archive;
pub mod archiver;
pub mod writer;
pub mod writer3;
pub mod bytes;
pub mod cells;
pub mod codec;
pub mod collision;
pub mod trie;
pub mod list;
pub mod magic;
pub mod overlay;
pub mod path_cache;
pub mod paths;
pub mod project;
pub mod tiles;

verus! {

/// The kind of an input/output failure, as far as this library tells them apart.
#[derive(Clone, Copy, Debug, PartialEq, Eq, Structural)]
pub enum IoErrorKind {
    /// The data ended before a read could be completed.
    UnexpectedEof,
    /// The data is not in the expected shape.
    InvalidData,
    /// The operation is not allowed with the flags the file was opened with.
    PermissionDenied,
    /// Something already exists at the target path.
    AlreadyExists,
    /// A parameter was out of range, such as a seek to before the start of a file.
    InvalidInput,
}

/// The errors of the filesystem layer.
#[derive(Clone, Copy, Debug, PartialEq, Eq, Structural)]
pub enum Error {
    NotExist,
    IoError(IoErrorKind),
    Utf8Error,
    PathUtf8Error,
    NotLoaded,
    NotSupported,
    InvalidHeader,
    InvalidArchiveVersion(u8),
    NoFilesystems,
    UnableToDetectRMVer,
    CancelledLoading,
    Wasm32FilesystemNotSupported,
    InvalidProjectFolder,
}

/// What is known of a file or a directory.
#[derive(Clone, Copy, Debug, PartialEq, Eq, Hash, Structural)]
pub struct Metadata {
    pub is_file: bool,
    pub size: u64,
}

/// A file or directory found by reading a directory.
#[derive(Clone, Debug, PartialEq, Eq, Hash)]
pub struct DirEntry {
    pub path: String,
    pub metadata: Metadata,
}

impl DirEntry {
    pub fn new(path: String, metadata: Metadata) -> (r: Self)
        ensures
            r.path@ == path@,
            r.metadata == metadata,
    {
        DirEntry { path, metadata }
    }

    pub fn path(&self) -> (r: &str)
        ensures
            r@ == self.path@,
    {
        self.path.as_str()
    }

    pub fn metadata(&self) -> (r: Metadata)
        ensures
            r == self.metadata,
    {
        self.metadata
    }

    /// The name of the entry: the last component of its path, if that is a name.
    pub fn file_name(&self) -> (r: Option<String>)
        ensures
            crate::paths::opt_chars(r) == crate::paths::file_name_of(self.path@),
    {
        crate::paths::path_file_name(self.path.as_str())
    }

    /// A copy of the entry.
    pub fn clone_entry(&self) -> (r: DirEntry)
        ensures
            r.path@ == self.path@,
            r.metadata == self.metadata,
    {
        DirEntry { path: self.path.clone(), metadata: self.metadata }
    }

    pub fn into_path(self) -> (r: String)
        ensures
            r@ == self.path@,
    {
        self.path
    }
}

/// A filesystem that the layers of this library are stacked on, with `/`-separated paths.
///
/// Each method comes with a relation that names its answers: `a.answers_exists(b, p, r)` says
/// that a filesystem in state `a`, asked whether `p` exists, may answer `r` and be left in state
/// `b`. The layers of this library define these relations from the relations of the
/// filesystems they stand on, so their contracts say which filesystem was asked what, in which
/// order. A filesystem that does not define them claims nothing: each relation then holds of
/// every answer.
pub trait FileSystem: Sized {
    /// What an opened file is.
    type File;

    /// `after` and `r` are a state and an answer of `open_file(path, flags)` from this state.
    open spec fn opens(&self, after: &Self, path: Seq<char>, flags: OpenFlags, r: Result<Self::File, Error>) -> bool {
        true
    }

    /// `after` and `r` are a state and an answer of `metadata(path)` from this state.
    open spec fn answers_metadata(&self, after: &Self, path: Seq<char>, r: Result<Metadata, Error>) -> bool {
        true
    }

    /// `after` and `r` are a state and an answer of `rename(from, to)` from this state.
    open spec fn renames(&self, after: &Self, from: Seq<char>, to: Seq<char>, r: Result<(), Error>) -> bool {
        true
    }

    /// `after` and `r` are a state and an answer of `path_exists(path)` from this state.
    open spec fn answers_exists(&self, after: &Self, path: Seq<char>, r: Result<bool, Error>) -> bool {
        true
    }

    /// `after` and `r` are a state and an answer of `create_dir(path)` from this state.
    open spec fn creates_dir(&self, after: &Self, path: Seq<char>, r: Result<(), Error>) -> bool {
        true
    }

    /// `after` and `r` are a state and an answer of `remove_dir(path)` from this state.
    open spec fn removes_dir(&self, after: &Self, path: Seq<char>, r: Result<(), Error>) -> bool {
        true
    }

    /// `after` and `r` are a state and an answer of `remove_file(path)` from this state.
    open spec fn removes_file(&self, after: &Self, path: Seq<char>, r: Result<(), Error>) -> bool {
        true
    }

    /// `after` and `r` are a state and an answer of `read_dir(path)` from this state.
    open spec fn lists_dir(&self, after: &Self, path: Seq<char>, r: Result<Vec<DirEntry>, Error>) -> bool {
        true
    }

    /// Opens the file at `path` with the given flags.
    fn open_file(&mut self, path: &str, flags: OpenFlags) -> (r: Result<Self::File, Error>)
        ensures
            old(self).opens(final(self), path@, flags, r),
    ;

    /// What is known of the file or directory at `path`.
    fn metadata(&mut self, path: &str) -> (r: Result<Metadata, Error>)
        ensures
            old(self).answers_metadata(final(self), path@, r),
    ;

    /// Moves the file or directory at `from` to `to`.
    fn rename(&mut self, from: &str, to: &str) -> (r: Result<(), Error>)
        ensures
            old(self).renames(final(self), from@, to@, r),
    ;

    /// Whether something is at `path`.
    fn path_exists(&mut self, path: &str) -> (r: Result<bool, Error>)
        ensures
            old(self).answers_exists(final(self), path@, r),
    ;

    /// Creates the directory at `path`, with its parents.
    fn create_dir(&mut self, path: &str) -> (r: Result<(), Error>)
        ensures
            old(self).creates_dir(final(self), path@, r),
    ;

    /// Removes the directory at `path` with everything in it.
    fn remove_dir(&mut self, path: &str) -> (r: Result<(), Error>)
        ensures
            old(self).removes_dir(final(self), path@, r),
    ;

    /// Removes the file at `path`.
    fn remove_file(&mut self, path: &str) -> (r: Result<(), Error>)
        ensures
            old(self).removes_file(final(self), path@, r),
    ;

    /// The entries of the directory at `path`.
    fn read_dir(&mut self, path: &str) -> (r: Result<Vec<DirEntry>, Error>)
        ensures
            old(self).lists_dir(final(self), path@, r),
    ;

    /// Opens the file at `path` for writing, making it when it does not exist.
    fn create_file(&mut self, path: &str) -> (r: Result<Self::File, Error>)
        default_ensures
            exists|f: OpenFlags| f.spec_bits() == (CREATE | WRITE) && #[trigger] old(self).opens(final(self), path@, f, r),
    {
        let flags = OpenFlags::from_bits_truncate(CREATE | WRITE);
        proof {
            assert((8u8 | 2u8) & 15u8 == (8u8 | 2u8)) by (bit_vector);
        }
        self.open_file(path, flags)
    }

    /// Removes the file or the directory at `path`, as its metadata says it is.
    fn remove(&mut self, path: &str) -> (r: Result<(), Error>)
        default_ensures
            exists|mid: Self, m: Result<Metadata, Error>| #[trigger] old(self).answers_metadata(&mid, path@, m) && match m {
                Err(e) => r == Err::<(), Error>(e) && *final(self) == mid,
                Ok(md) => if md.is_file {
                    mid.removes_file(final(self), path@, r)
                } else {
                    mid.removes_dir(final(self), path@, r)
                },
            },
    {
        let ghost start = *self;
        let metadata = match self.metadata(path) {
            Ok(m) => m,
            Err(e) => {
                assert(start.answers_metadata(&*self, path@, Err::<Metadata, Error>(e)));
                return Err(e);
            },
        };
        let ghost mid = *self;
        assert(start.answers_metadata(&mid, path@, Ok::<Metadata, Error>(metadata)));
        if metadata.is_file {
            self.remove_file(path)
        } else {
            self.remove_dir(path)
        }
    }
}

/// The flag that allows reading an opened file.
pub const READ: u8 = 1;
/// The flag that allows writing an opened file.
pub const WRITE: u8 = 2;
/// The flag that empties an opened file.
pub const TRUNCATE: u8 = 4;
/// The flag that creates the file when it does not exist.
pub const CREATE: u8 = 8;

/// How a file is opened: a set of the flags `READ`, `WRITE`, `TRUNCATE` and `CREATE`.
#[derive(Clone, Copy, Debug, PartialEq, Eq, Hash, Structural)]
pub struct OpenFlags {
    bits: u8,
}

impl OpenFlags {
    /// The flags held by `bits`, ignoring bits that name no flag.
    pub closed spec fn spec_bits(self) -> u8 {
        self.bits
    }

    /// Whether every flag of `other` is set.
    pub open spec fn has(self, other: u8) -> bool {
        self.spec_bits() & other == other
    }

    /// The set of flags whose bits are set in `bits`, ignoring the bits that name no flag.
    pub fn from_bits_truncate(bits: u8) -> (r: OpenFlags)
        ensures
            r.spec_bits() == bits & 15,
    {
        OpenFlags { bits: bits & 15 }
    }

    /// No flag.
    pub fn empty() -> (r: OpenFlags)
        ensures
            r.spec_bits() == 0,
    {
        OpenFlags { bits: 0 }
    }

    /// Every flag.
    pub fn all() -> (r: OpenFlags)
        ensures
            r.spec_bits() == 15,
    {
        OpenFlags { bits: 15 }
    }

    /// The bits of the set flags.
    pub fn bits(&self) -> (r: u8)
        ensures
            r == self.spec_bits(),
    {
        self.bits
    }

    /// Whether every flag of `other` is set.
    pub fn contains(&self, other: u8) -> (r: bool)
        ensures
            r == self.has(other),
    {
        self.bits & other == other
    }

    /// The flags set in either.
    pub fn union(&self, other: OpenFlags) -> (r: OpenFlags)
        ensures
            r.spec_bits() == self.spec_bits() | other.spec_bits(),
    {
        OpenFlags { bits: self.bits | other.bits }
    }
}

} // verus!
