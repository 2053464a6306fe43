use vstd::prelude::*;

verus! {

/// Whether the glob pattern compiles and matches the text, under the default
/// match options of the glob crate.
pub uninterp spec fn glob_matches(pattern: Seq<char>, text: Seq<char>) -> bool;

/// Relies on glob::Pattern::new and glob::Pattern::matches, with the default
/// match options: the outcome depends on the pattern and the text alone, and a
/// pattern that fails to compile matches nothing.
#[verifier::external_body]
pub(crate) fn glob_match(pattern: &str, text: &str) -> (r: bool)
    ensures
        r == glob_matches(pattern@, text@),
{
    match glob::Pattern::new(pattern) {
        Ok(compiled) => compiled.matches(text),
        Err(_) => false,
    }
}

} // verus!
