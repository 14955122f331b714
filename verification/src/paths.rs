//! File-system path operations of the standard library, as pure functions on
//! path text. Their results are named, not restated: they follow the host's
//! path rules.

use vstd::prelude::*;

verus! {

/// `Path::join` of `dir` and `p`, as text.
pub uninterp spec fn joined_path(dir: Seq<char>, p: Seq<char>) -> Seq<char>;

/// `Path::file_name` of `p`, as text.
pub uninterp spec fn file_name_of(p: Seq<char>) -> Option<Seq<char>>;

/// `Path::extension` of `p`, as text (`None` also when it is not UTF-8).
pub uninterp spec fn extension_of(p: Seq<char>) -> Option<Seq<char>>;

/// `Path::strip_prefix` of `p` by `base`, as text.
pub uninterp spec fn stripped_prefix(p: Seq<char>, base: Seq<char>) -> Option<Seq<char>>;

/// Calls `Path::join`; the result is named by `joined_path`.
#[verifier::external_body]
pub(crate) fn path_join(dir: &str, p: &str) -> (r: String)
    ensures
        r@ == joined_path(dir@, p@),
{
    std::path::Path::new(dir).join(p).to_string_lossy().into_owned()
}

/// Calls `Path::file_name`; the result is named by `file_name_of`.
#[verifier::external_body]
pub(crate) fn path_file_name(p: &str) -> (r: Option<String>)
    ensures
        match r {
            Some(n) => file_name_of(p@) == Some(n@),
            None => file_name_of(p@) is None,
        },
{
    std::path::Path::new(p).file_name().map(|n| n.to_string_lossy().into_owned())
}

/// Calls `Path::extension` (kept only when it is valid UTF-8); the result is
/// named by `extension_of`.
#[verifier::external_body]
pub(crate) fn path_extension(p: &str) -> (r: Option<String>)
    ensures
        match r {
            Some(e) => extension_of(p@) == Some(e@),
            None => extension_of(p@) is None,
        },
{
    std::path::Path::new(p).extension().and_then(|e| e.to_str()).map(|e| e.to_string())
}

/// Calls `Path::strip_prefix`; the result is named by `stripped_prefix`.
#[verifier::external_body]
pub(crate) fn path_strip_prefix(p: &str, base: &str) -> (r: Option<String>)
    ensures
        match r {
            Some(s) => stripped_prefix(p@, base@) == Some(s@),
            None => stripped_prefix(p@, base@) is None,
        },
{
    std::path::Path::new(p).strip_prefix(base).ok().map(|s| s.to_string_lossy().into_owned())
}


/// `Path::file_stem` of `p`, as text.
pub uninterp spec fn file_stem_of(p: Seq<char>) -> Option<Seq<char>>;

/// `Path::with_extension` of `p` and `ext`, as text.
pub uninterp spec fn with_extension_of(p: Seq<char>, ext: Seq<char>) -> Seq<char>;

/// Calls `Path::file_stem`; the result is named by `file_stem_of`.
#[verifier::external_body]
pub(crate) fn path_file_stem(p: &str) -> (r: Option<String>)
    ensures
        match r {
            Some(n) => file_stem_of(p@) == Some(n@),
            None => file_stem_of(p@) is None,
        },
{
    std::path::Path::new(p).file_stem().map(|n| n.to_string_lossy().into_owned())
}

/// Calls `Path::with_extension`; the result is named by `with_extension_of`.
/// The extension may hold no path separator (the call panics on one).
#[verifier::external_body]
pub(crate) fn path_with_extension(p: &str, ext: &str) -> (r: String)
    requires
        forall|i: int| 0 <= i < ext@.len() ==> ext@[i] != '/' && ext@[i] != '\\',
    ensures
        r@ == with_extension_of(p@, ext@),
{
    std::path::Path::new(p).with_extension(ext).to_string_lossy().into_owned()
}

} // verus!
