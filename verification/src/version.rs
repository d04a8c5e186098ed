//! Version-string comparison, delegated to the `version_compare` crate.
//!
//! The comparison a kernel version string receives is opaque to the library:
//! it is named by the spec functions below, and the trusted wrappers tie the
//! crate's answers to those names. Everything the discovery pipeline proves
//! about ordering is stated over these names.

use vstd::prelude::*;

verus! {

/// Outcome of comparing two version strings that both parse.
#[derive(Clone, Copy, PartialEq, Eq, Structural, Debug)]
pub enum VerCmp {
    Lt,
    Eq,
    Gt,
}

/// Whether `version_compare::Version::from` accepts `s`; a function of the
/// characters alone.
pub uninterp spec fn version_parseable(s: Seq<char>) -> bool;

/// The sign (-1, 0, or 1) of the semantic comparison of two parseable version
/// strings, as `version_compare::compare` computes it; a function of the
/// characters alone.
pub uninterp spec fn version_cmp(a: Seq<char>, b: Seq<char>) -> int;

/// Relies on version_compare::Version::from: whether a string parses as a
/// version depends only on its characters.
#[verifier::external_body]
pub(crate) fn version_is_parseable(s: &str) -> (r: bool)
    ensures
        r == version_parseable(s@),
{
    version_compare::Version::from(s).is_some()
}

/// Relies on version_compare::compare. Its documentation and body show that
/// it returns Err exactly when one of the two strings fails Version::from,
/// and otherwise one of Cmp::Lt, Cmp::Eq, Cmp::Gt, computed from the two
/// strings alone. The sign is reversed when the arguments are swapped:
/// compare_iter orders number parts by integer comparison and text parts by
/// lowercased string comparison, and flips the result of the swapped
/// recursive call it makes when the right side is longer.
#[verifier::external_body]
pub(crate) fn compare_versions(a: &str, b: &str) -> (r: Option<VerCmp>)
    ensures
        (r is Some) == (version_parseable(a@) && version_parseable(b@)),
        (r == Some(VerCmp::Lt)) == (r is Some && version_cmp(a@, b@) < 0 < version_cmp(b@, a@)),
        (r == Some(VerCmp::Eq)) == (r is Some && version_cmp(a@, b@) == 0 && version_cmp(b@, a@) == 0),
        (r == Some(VerCmp::Gt)) == (r is Some && version_cmp(a@, b@) > 0 > version_cmp(b@, a@)),
{
    match version_compare::compare(a, b) {
        Ok(version_compare::Cmp::Lt) => Some(VerCmp::Lt),
        Ok(version_compare::Cmp::Eq) => Some(VerCmp::Eq),
        Ok(version_compare::Cmp::Gt) => Some(VerCmp::Gt),
        Ok(_) => None,
        Err(()) => None,
    }
}

/// Descending order on present version strings: `a` may stand at or before
/// `b` when both parse and `a` compares greater or equal, or when `b` does
/// not parse. Strings that do not parse tie with each other and come after
/// all that do.
pub open spec fn ver_le(a: Seq<char>, b: Seq<char>) -> bool {
    if version_parseable(a) && version_parseable(b) {
        version_cmp(a, b) >= 0
    } else {
        version_parseable(a) || !version_parseable(b)
    }
}

/// Decides `ver_le` on two version strings, and shows that the order is
/// total at this pair: when `a` may not precede `b`, `b` may precede `a`.
pub(crate) fn ver_le_exec(a: &str, b: &str) -> (r: bool)
    ensures
        r == ver_le(a@, b@),
        !r ==> ver_le(b@, a@),
{
    match compare_versions(a, b) {
        Some(VerCmp::Lt) => false,
        Some(_) => true,
        None => version_is_parseable(a) || !version_is_parseable(b),
    }
}

} // verus!
