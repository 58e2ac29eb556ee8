//! Resolution of file ownership from a CODEOWNERS-style manifest.
//!
//! The manifest is parsed into an ordered list of rules, each a path
//! pattern with its declared owners. A candidate path is matched against
//! the rules with gitignore-style semantics, and the last matching rule
//! wins. Paths matched by no rule are unowned, never an error.

use vstd::prelude::*;

pub mod code_owners;
pub mod drivers;
pub mod matcher;
pub mod resolver;

verus! {

/// Relies on str::chars: it yields the characters of the string in order,
/// and the view of a string is that character sequence.
#[verifier::external_body]
pub(crate) fn chars_of(s: &str) -> (r: Vec<char>)
    ensures
        r@ == s@,
{
    s.chars().collect()
}

/// Relies on String's FromIterator over char: collecting characters in
/// order builds the string whose view is that character sequence.
#[verifier::external_body]
pub(crate) fn string_of(v: &Vec<char>) -> (r: String)
    ensures
        r@ == v@,
{
    v.iter().collect()
}

} // verus!
