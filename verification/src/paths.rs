//! The path operations that the case-insensitive layer relies on: lowercasing, and the
//! splitting of a path into its components, its file name, its stem and its extension, as
//! `camino` does them. `camino` follows `std::path`, whose separators depend on the platform:
//! the names below stand for what it does on Unix targets, where `/` is the only separator.
use vstd::prelude::*;

verus! {

/// A string option seen as an option of characters.
pub open spec fn opt_chars(o: Option<String>) -> Option<Seq<char>> {
    match o {
        Some(s) => Some(s@),
        None => None,
    }
}

/// Whether a string holds no `/`.
pub open spec fn no_separator(s: Seq<char>) -> bool {
    forall|i: int| 0 <= i < s.len() ==> s[i] != '/'
}

/// What `str::to_lowercase` makes of a string.
pub uninterp spec fn lowercase_of(s: Seq<char>) -> Seq<char>;

/// `str::to_lowercase`; its result is named, not described: the Unicode lowercase mapping of
/// each character.
#[verifier::external_body]
pub(crate) fn lowercase(s: &str) -> (r: String)
    ensures
        r@ == lowercase_of(s@),
{
    s.to_lowercase()
}

/// What `camino::Utf8Path::extension` gives for a path.
pub uninterp spec fn extension_of(p: Seq<char>) -> Option<Seq<char>>;

/// `camino::Utf8Path::extension`: the part of the file name after its last dot, if the file
/// name has a dot that is not its first character. Its result is named, not described, but for
/// one fact: being part of the last component, it holds no `/`.
#[verifier::external_body]
pub(crate) fn path_extension(p: &str) -> (r: Option<String>)
    ensures
        opt_chars(r) == extension_of(p@),
        r matches Some(e) ==> no_separator(e@),
{
    camino::Utf8Path::new(p).extension().map(String::from)
}

/// What `camino::Utf8PathBuf::set_extension` makes of a path.
pub uninterp spec fn with_extension_of(p: Seq<char>, ext: Seq<char>) -> Seq<char>;

/// `camino::Utf8PathBuf::set_extension`: the path with the extension of its file name replaced
/// by `ext`, or removed when `ext` is empty. Its result is named, not described. It panics when
/// `ext` holds a separator, which `requires` leaves out.
#[verifier::external_body]
pub(crate) fn with_extension(p: &str, ext: &str) -> (r: String)
    requires
        no_separator(ext@),
    ensures
        r@ == with_extension_of(p@, ext@),
{
    let mut b = camino::Utf8PathBuf::from(p);
    b.set_extension(ext);
    b.into_string()
}

/// What `camino::Utf8Path::file_name` gives for a path.
pub uninterp spec fn file_name_of(p: Seq<char>) -> Option<Seq<char>>;

/// `camino::Utf8Path::file_name`: the last component of the path, if it is a name. Its result
/// is named, not described.
#[verifier::external_body]
pub(crate) fn path_file_name(p: &str) -> (r: Option<String>)
    ensures
        opt_chars(r) == file_name_of(p@),
{
    camino::Utf8Path::new(p).file_name().map(String::from)
}

/// What `camino::Utf8Path::file_stem` gives for a path.
pub uninterp spec fn file_stem_of(p: Seq<char>) -> Option<Seq<char>>;

/// `camino::Utf8Path::file_stem`: the file name without its extension. Its result is named, not
/// described.
#[verifier::external_body]
pub(crate) fn path_file_stem(p: &str) -> (r: Option<String>)
    ensures
        opt_chars(r) == file_stem_of(p@),
{
    camino::Utf8Path::new(p).file_stem().map(String::from)
}

/// What `camino::Utf8Path::parent` gives for a path.
pub uninterp spec fn parent_of(p: Seq<char>) -> Option<Seq<char>>;

/// `camino::Utf8Path::parent`: the path without its last component, if it has one. Its result
/// is named, not described.
#[verifier::external_body]
pub(crate) fn path_parent(p: &str) -> (r: Option<String>)
    ensures
        opt_chars(r) == parent_of(p@),
{
    camino::Utf8Path::new(p).parent().map(camino::Utf8Path::as_str).map(String::from)
}

/// What `camino::Utf8Path::iter` yields for a path.
pub uninterp spec fn components_of(p: Seq<char>) -> Seq<Seq<char>>;

/// `camino::Utf8Path::iter`: the components of the path, as strings. Its result is named, not
/// described.
#[verifier::external_body]
pub(crate) fn path_components(p: &str) -> (r: Vec<String>)
    ensures
        r@.len() == components_of(p@).len(),
        forall|i: int| 0 <= i < r@.len() ==> #[trigger] r@[i]@ == components_of(p@)[i],
{
    camino::Utf8Path::new(p).iter().map(String::from).collect()
}

/// What `camino::Utf8Path::strip_prefix` gives for a path and a base.
pub uninterp spec fn strip_prefix_of(p: Seq<char>, base: Seq<char>) -> Option<Seq<char>>;

/// `camino::Utf8Path::strip_prefix`: the rest of the path after the components of `base`, if
/// the path starts with them. Its result is named, not described.
#[verifier::external_body]
pub(crate) fn path_strip_prefix(p: &str, base: &str) -> (r: Option<String>)
    ensures
        opt_chars(r) == strip_prefix_of(p@, base@),
{
    camino::Utf8Path::new(p).strip_prefix(base).ok().map(camino::Utf8Path::as_str).map(String::from)
}

/// What `camino::Utf8Path::join` makes of two paths.
pub uninterp spec fn joined_of(p: Seq<char>, q: Seq<char>) -> Seq<char>;

/// `camino::Utf8Path::join`: `q` appended to `p`, or `q` alone when it is absolute. Its result is
/// named, not described.
#[verifier::external_body]
pub(crate) fn path_join(p: &str, q: &str) -> (r: String)
    ensures
        r@ == joined_of(p@, q@),
{
    camino::Utf8Path::new(p).join(q).into_string()
}

} // verus!
