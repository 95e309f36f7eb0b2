use vstd::prelude::*;
use vstd::string::StrSliceExecFns;
use vstd::string::StringExecFns;

verus! {

/// What `pathdiff::diff_paths` computes for two path strings: the relative
/// path from the second to the first, or nothing when none exists. The
/// result depends on the two strings alone.
pub uninterp spec fn relative_path_of(path: Seq<char>, base: Seq<char>) -> Option<Seq<char>>;

/// Relies on pathdiff::diff_paths: a purely lexical computation of the
/// relative path from `base` to `path`, defined by the two arguments alone.
#[verifier::external_body]
fn diff_paths(path: &str, base: &str) -> (r: Option<String>)
    ensures
        r is Some <==> relative_path_of(path@, base@) is Some,
        r matches Some(p) ==> relative_path_of(path@, base@) matches Some(q) && p@ == q,
{
    match pathdiff::diff_paths(path, base) {
        Some(p) => Some(p.to_string_lossy().into_owned()),
        None => None,
    }
}

/// The sed substitution expression that redirects the manifest entry for
/// dependency `name` to `rel`, the artifact's path relative to the package
/// folder.
pub open spec fn sed_substitution_spec(name: Seq<char>, rel: Seq<char>) -> Seq<char> {
    "s%\""@ + name + "\": \"[^\"]*\"%\""@ + name + "\": \""@ + rel + "\"%"@
}

/// Build the sed substitution expression for dependency `name` and the
/// relative artifact path `rel`.
pub fn sed_substitution(name: &str, rel: &str) -> (r: String)
    ensures
        r@ == sed_substitution_spec(name@, rel@),
{
    let mut r = String::from_str("s%\"");
    r.append(name);
    r.append("\": \"[^\"]*\"%\"");
    r.append(name);
    r.append("\": \"");
    r.append(rel);
    r.append("\"%");
    proof {
        assert(r@ =~= sed_substitution_spec(name@, rel@));
    }
    r
}

/// The manifest patch for dependency `name` of the package in `folder`: the
/// sed expression that pins the dependency to its artifact at
/// `package_path`, written relative to `folder`. Nothing when no relative
/// path from `folder` to `package_path` exists.
pub fn patch_expression(name: &str, package_path: &str, folder: &str) -> (r: Option<String>)
    ensures
        r is Some <==> relative_path_of(package_path@, folder@) is Some,
        r matches Some(s) ==> relative_path_of(package_path@, folder@) matches Some(rel) && s@
            == sed_substitution_spec(name@, rel),
{
    match diff_paths(package_path, folder) {
        Some(rel) => Some(sed_substitution(name, rel.as_str())),
        None => None,
    }
}

} // verus!
