//! Character classification: separators, capitals, and word boundaries.

use vstd::prelude::*;

verus! {

/// The fixed set of characters that act as word separators.
pub open spec fn is_word_separator(c: char) -> bool {
    c == ' ' || c == '-' || c == '_' || c == ':' || c == '.' || c == '/' || c == '\\'
}

/// The first character of a character's full uppercase mapping, which is a
/// function of the character alone.
pub uninterp spec fn upper_first(c: char) -> char;

/// The first character of a character's full lowercase mapping, which is a
/// function of the character alone.
pub uninterp spec fn lower_first(c: char) -> char;

/// Relies on `char::to_uppercase`: yields at least one character, and the
/// result depends on the character alone.
#[verifier::external_body]
pub(crate) fn to_upper_first(c: char) -> (r: char)
    ensures
        r == upper_first(c),
{
    c.to_uppercase().next().unwrap()
}

/// Relies on `char::to_lowercase`: yields at least one character, and the
/// result depends on the character alone.
#[verifier::external_body]
pub(crate) fn to_lower_first(c: char) -> (r: char)
    ensures
        r == lower_first(c),
{
    c.to_lowercase().next().unwrap()
}

/// A present character that is not a separator is a word character.
pub open spec fn word_spec(c: Option<char>) -> bool {
    match c {
        None => false,
        Some(ch) => !is_word_separator(ch),
    }
}

/// A word character that is its own uppercase form.
pub open spec fn capital_spec(c: Option<char>) -> bool {
    match c {
        None => false,
        Some(ch) => word_spec(c) && ch == upper_first(ch),
    }
}

/// A word starts at `c` when there is nothing before it, on a
/// non-capital-to-capital transition, or on a non-word-to-word transition.
pub open spec fn boundary_spec(last_char: Option<char>, c: Option<char>) -> bool {
    ||| last_char is None
    ||| (!capital_spec(last_char) && capital_spec(c))
    ||| (!word_spec(last_char) && word_spec(c))
}

/// Check if a character is a word character; an absent character is not.
pub fn word(c: Option<char>) -> (r: bool)
    ensures
        r == word_spec(c),
{
    match c {
        None => false,
        Some(ch) => !(ch == ' ' || ch == '-' || ch == '_' || ch == ':' || ch == '.' || ch == '/'
            || ch == '\\'),
    }
}

/// Check if a present character is its own single-character uppercase form.
pub fn is_uppercase(c: &Option<char>) -> (r: bool)
    ensures
        r == match *c {
            None => false,
            Some(ch) => ch == upper_first(ch),
        },
{
    match c {
        None => false,
        Some(ch) => *ch == to_upper_first(*ch),
    }
}

/// Check if a character is an uppercase word character.
pub fn capital(c: Option<char>) -> (r: bool)
    ensures
        r == capital_spec(c),
{
    word(c) && is_uppercase(&c)
}

/// Check if `last_char` ends a word and `c` starts the next; camel-case aware.
pub fn boundary(last_char: Option<char>, c: Option<char>) -> (r: bool)
    ensures
        r == boundary_spec(last_char, c),
{
    if last_char.is_none() {
        return true;
    }
    if !capital(last_char) && capital(c) {
        return true;
    }
    if !word(last_char) && word(c) {
        return true;
    }
    false
}

} // verus!
