use vstd::prelude::*;

verus! {

/// The path `p` with its extension set to `e` (taken away where `e` is empty).
pub uninterp spec fn with_ext_of(p: Seq<char>, e: Seq<char>) -> Seq<char>;

/// The extension of the path `p`, if it has one.
pub uninterp spec fn ext_of(p: Seq<char>) -> Option<Seq<char>>;

/// The directory that holds `p`: `p` without its last component.
pub uninterp spec fn dir_of(p: Seq<char>) -> Seq<char>;

/// The path `b` taken relative to the directory `a`.
pub uninterp spec fn joined(a: Seq<char>, b: Seq<char>) -> Seq<char>;

/// Relies on `std::path::absolute`: the path made absolute against the working directory,
/// or `None` where that fails. What it returns depends on the process, so nothing is
/// stated of it.
#[verifier::external_body]
pub(crate) fn get_abs_name(p: &str) -> (r: Option<String>) {
    match std::path::absolute(p) {
        Ok(a) => Some(a.to_string_lossy().into_owned()),
        Err(_) => None,
    }
}

/// Relies on `Path::with_extension`: the result depends on its arguments alone. It panics
/// on an extension that holds a path separator, which is ruled out here.
#[verifier::external_body]
pub(crate) fn with_extension(p: &str, e: &str) -> (r: String)
    requires
        forall|i: int| 0 <= i < e@.len() ==> e@[i] != '/' && e@[i] != '\\',
    ensures
        r@ == with_ext_of(p@, e@),
{
    std::path::Path::new(p).with_extension(e).to_string_lossy().into_owned()
}

/// Relies on `Path::extension`: the result depends on the path alone.
#[verifier::external_body]
pub(crate) fn extension(p: &str) -> (r: Option<String>)
    ensures
        r matches Some(x) ==> ext_of(p@) == Some(x@),
        r is None ==> ext_of(p@) is None,
{
    std::path::Path::new(p).extension().map(|x| x.to_string_lossy().into_owned())
}

/// Relies on `PathBuf::pop`: the path without its last component.
#[verifier::external_body]
pub(crate) fn parent_dir(p: &str) -> (r: String)
    ensures
        r@ == dir_of(p@),
{
    let mut b = std::path::PathBuf::from(p);
    b.pop();
    b.to_string_lossy().into_owned()
}

/// Relies on `Path::join`: the result depends on its arguments alone.
#[verifier::external_body]
pub(crate) fn join_path(a: &str, b: &str) -> (r: String)
    ensures
        r@ == joined(a@, b@),
{
    std::path::Path::new(a).join(b).to_string_lossy().into_owned()
}

} // verus!
