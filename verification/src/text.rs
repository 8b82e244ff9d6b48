//! Strings as sequences of characters.

use vstd::prelude::*;

verus! {

/// The lowercase form of `text` under Unicode's case mapping.
pub uninterp spec fn lowercase_of(text: Seq<char>) -> Seq<char>;

/// The text of an optional string.
pub open spec fn text_of(s: Option<String>) -> Option<Seq<char>> {
    match s {
        Some(t) => Some(t@),
        None => None,
    }
}

/// The characters of `s`, in order.
pub(crate) fn chars_of(s: &str) -> (chars: Vec<char>)
    ensures
        chars@ == s@,
{
    let mut chars: Vec<char> = Vec::new();
    for c in it: s.chars()
        invariant
            chars@ == it.seq().take(it.index() as int),
    {
        chars.push(c);
    }
    chars
}

/// The lowercase form of `s`.
///
/// Trusted: this calls `str::to_lowercase` of the standard library, which
/// returns the lowercase form of `s` by Unicode's rules and looks at nothing
/// but `s`. The contract gives the result the name `lowercase_of(s@)` and
/// claims nothing else of it.
#[verifier::external_body]
pub(crate) fn lowercase(s: &str) -> (lower: String)
    ensures
        lower@ == lowercase_of(s@),
{
    s.to_lowercase()
}

} // verus!
