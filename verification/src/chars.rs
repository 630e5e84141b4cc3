//! Character classification: the word-character predicate and the coarse
//! word/punctuation/whitespace classes that word-boundary motion works over.

use vstd::prelude::*;

verus! {

/// What `char::is_alphanumeric` returns for a character: a fixed function of
/// the character given by the Unicode `Alphabetic` and `Number` properties.
pub uninterp spec fn unicode_alphanumeric(c: char) -> bool;

/// What `char::is_whitespace` returns for a character: a fixed function of
/// the character given by the Unicode `White_Space` property.
pub uninterp spec fn unicode_whitespace(c: char) -> bool;

/// Relies on `char::is_alphanumeric` from std: the result depends on the
/// character alone, per the Unicode character tables compiled into std.
#[verifier::external_body]
pub(crate) fn char_alphanumeric(c: char) -> (r: bool)
    ensures
        r == unicode_alphanumeric(c),
{
    c.is_alphanumeric()
}

/// Relies on `char::is_whitespace` from std: the result depends on the
/// character alone, per the Unicode character tables compiled into std.
#[verifier::external_body]
pub(crate) fn char_whitespace(c: char) -> (r: bool)
    ensures
        r == unicode_whitespace(c),
{
    c.is_whitespace()
}

/// A character counts as part of an identifier-like word when it is
/// alphanumeric or an underscore.
pub open spec fn word_char(c: char) -> bool {
    unicode_alphanumeric(c) || c == '_'
}

/// A whitespace character, including line breaks.
pub open spec fn ws_char(c: char) -> bool {
    unicode_whitespace(c)
}

/// Executable form of the word-character predicate.
pub fn is_word_char(c: char) -> (r: bool)
    ensures
        r == word_char(c),
{
    char_alphanumeric(c) || c == '_'
}

/// Executable form of the whitespace predicate.
pub fn is_ws_char(c: char) -> (r: bool)
    ensures
        r == ws_char(c),
{
    char_whitespace(c)
}

/// The coarse class a character falls in for word-boundary purposes: a word
/// is a maximal run of characters of one non-whitespace class.
#[derive(Clone, Copy, PartialEq, Eq, Structural, Debug)]
pub enum CharClass {
    Whitespace,
    Word,
    Punctuation,
}

/// The class of a character: whitespace wins, then word characters; every
/// other character is punctuation.
pub open spec fn class_of(c: char) -> CharClass {
    if ws_char(c) {
        CharClass::Whitespace
    } else if word_char(c) {
        CharClass::Word
    } else {
        CharClass::Punctuation
    }
}

/// Executable form of `class_of`.
pub fn classify(c: char) -> (r: CharClass)
    ensures
        r == class_of(c),
{
    if is_ws_char(c) {
        CharClass::Whitespace
    } else if is_word_char(c) {
        CharClass::Word
    } else {
        CharClass::Punctuation
    }
}

} // verus!
