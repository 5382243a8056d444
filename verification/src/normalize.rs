//! Deck-name normalization: queries match stored deck names after
//! transliteration to ASCII and case folding, so users need not type
//! exact case or diacritics.

use vstd::prelude::*;

verus! {

/// What `deunicode::deunicode` returns for a given character sequence.
pub uninterp spec fn deunicode_of(s: Seq<char>) -> Seq<char>;

/// What `str::to_lowercase` returns for a given character sequence.
pub uninterp spec fn lower_of(s: Seq<char>) -> Seq<char>;

/// The canonical comparison form of a deck name: transliterated, then
/// case-folded.
pub open spec fn norm(s: Seq<char>) -> Seq<char> {
    lower_of(deunicode_of(s))
}

/// Two names are considered the same deck name when their canonical
/// forms agree.
pub open spec fn names_match(a: Seq<char>, b: Seq<char>) -> bool {
    norm(a) == norm(b)
}

/// Relies on deunicode::deunicode: transliterates to ASCII; the result
/// depends on the input characters alone.
#[verifier::external_body]
fn deunicode_str(s: &str) -> (r: String)
    ensures
        r@ == deunicode_of(s@),
{
    deunicode::deunicode(s)
}

/// Relies on str::to_lowercase: the result depends on the input
/// characters alone.
#[verifier::external_body]
fn lowercase_str(s: &str) -> (r: String)
    ensures
        r@ == lower_of(s@),
{
    s.to_lowercase()
}

/// The canonical comparison form, computed.
pub fn normalize(s: &str) -> (r: String)
    ensures
        r@ == norm(s@),
{
    let t = deunicode_str(s);
    lowercase_str(t.as_str())
}

/// Whether two deck names match under normalization.
pub fn name_eq(a: &str, b: &str) -> (r: bool)
    ensures
        r == names_match(a@, b@),
{
    let na = normalize(a);
    let nb = normalize(b);
    na == nb
}

} // verus!
