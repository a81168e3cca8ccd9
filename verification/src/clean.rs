//! Trusted boundary to the outside crates that the normalizer leans on:
//! lexical path cleaning and the home-directory lookup.
use vstd::prelude::*;

verus! {

/// The lexically cleaned form of a path string: `.` and `..` segments resolved
/// and separators collapsed, purely on the characters, never touching the
/// filesystem. The result is a function of the characters alone; it is left
/// uninterpreted and pinned down only by the clauses of `clean_path` below.
pub uninterp spec fn clean_of(s: Seq<char>) -> Seq<char>;

/// Relies on path_clean::clean for lexical path cleaning. The stated facts
/// mirror its algorithm: cleaning is idempotent (a cleaned path has no
/// segment left to resolve), a nonempty result is always produced (`.` for
/// degenerate inputs), an absolute path stays absolute, and every character
/// of the result is a character of the input or one of the two that cleaning
/// itself writes, the separator and the dot.
#[verifier::external_body]
pub(crate) fn clean_path(s: &str) -> (r: String)
    ensures
        r@ == clean_of(s@),
        clean_of(r@) == r@,
        r@.len() > 0,
        s@.len() > 0 && s@[0] == '/' ==> r@[0] == '/',
        forall|c: char| r@.contains(c) ==> s@.contains(c) || c == '/' || c == '.',
{
    path_clean::clean(s).to_string_lossy().into_owned()
}

/// Relies on shellexpand::tilde: applied to `~` alone it returns the invoking
/// user's home directory when one is known, and `~` unchanged otherwise.
/// The result depends on the environment, so nothing is promised of it.
#[verifier::external_body]
pub(crate) fn home_of_env() -> (r: String) {
    shellexpand::tilde("~").into_owned()
}

} // verus!
