//! Skill-name normalization: a skill name and a query match when their
//! trimmed, lowercased forms are equal.

use vstd::prelude::*;

verus! {

/// What `str::trim` returns: the text with leading and trailing whitespace
/// removed. The result depends on the characters alone.
pub uninterp spec fn trimmed_of(s: Seq<char>) -> Seq<char>;

/// What `str::to_lowercase` returns: the lowercase form of the text. The
/// result depends on the characters alone.
pub uninterp spec fn lower_of(s: Seq<char>) -> Seq<char>;

/// The index key of a skill name: its trimmed, lowercased form.
pub open spec fn norm_of(s: Seq<char>) -> Seq<char> {
    lower_of(trimmed_of(s))
}

/// Relies on `str::trim`: returns the text without leading and trailing
/// whitespace.
#[verifier::external_body]
fn trim_str(s: &str) -> (r: &str)
    ensures
        r@ == trimmed_of(s@),
{
    s.trim()
}

/// Relies on `str::to_lowercase`: returns the lowercase form of the text.
#[verifier::external_body]
fn lower_str(s: &str) -> (r: String)
    ensures
        r@ == lower_of(s@),
{
    s.to_lowercase()
}

/// Normalizes a skill name to the key it is indexed and looked up under.
pub fn normalize_skill(s: &str) -> (r: String)
    ensures
        r@ == norm_of(s@),
{
    let t = trim_str(s);
    lower_str(t)
}

} // verus!
