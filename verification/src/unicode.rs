//! Trusted boundary to the `unicode_segmentation` crate and to the Unicode
//! character classes of `std`.
//!
//! Sentence segmentation, word-boundary segmentation and grapheme-cluster
//! counting follow UAX #29 and are pure functions of the text alone; their
//! results are named by uninterpreted spec functions, and everything the
//! library concludes about them flows through the contracts stated here.

use unicode_segmentation::UnicodeSegmentation;
use vstd::prelude::*;

verus! {

/// Whether a character has the Unicode `Alphabetic` property.
pub uninterp spec fn char_alpha(c: char) -> bool;

/// Relies on `char::is_alphabetic`: a pure classification of the character.
#[verifier::external_body]
pub fn is_alpha(c: char) -> (r: bool)
    ensures
        r == char_alpha(c),
{
    c.is_alphabetic()
}

/// Whether a character is alphanumeric: Unicode `Alphabetic` or a numeric
/// general category.
pub uninterp spec fn char_alnum(c: char) -> bool;

/// Relies on `char::is_alphanumeric`: a pure classification of the character.
#[verifier::external_body]
pub fn is_alnum(c: char) -> (r: bool)
    ensures
        r == char_alnum(c),
{
    c.is_alphanumeric()
}

/// Whether a character has the Unicode `White_Space` property.
pub uninterp spec fn char_white(c: char) -> bool;

/// Relies on `char::is_whitespace`: a pure classification of the character.
#[verifier::external_body]
pub fn is_white(c: char) -> (r: bool)
    ensures
        r == char_white(c),
{
    c.is_whitespace()
}

/// The Unicode sentences of a text: the substrings, in order, that UAX #29
/// sentence segmentation yields and that contain an alphanumeric character.
pub uninterp spec fn sentences_of(text: Seq<char>) -> Seq<Seq<char>>;

/// Relies on `UnicodeSegmentation::unicode_sentences`: the sentence list
/// depends on the text alone.
#[verifier::external_body]
pub fn sentence_slices<'a>(text: &'a str) -> (r: Vec<&'a str>)
    ensures
        r.deep_view() == sentences_of(text@),
{
    text.unicode_sentences().collect()
}

/// The UAX #29 word-boundary segments of a text, in order.
pub uninterp spec fn word_segs_of(text: Seq<char>) -> Seq<Seq<char>>;

/// Relies on `UnicodeSegmentation::split_word_bounds`: the segmentation
/// depends on the text alone, and the concatenation of the segments is the
/// original text, as the crate documents.
#[verifier::external_body]
pub fn word_segments<'a>(text: &'a str) -> (r: Vec<&'a str>)
    ensures
        r.deep_view() == word_segs_of(text@),
        r.deep_view().flatten() == text@,
{
    text.split_word_bounds().collect()
}

/// The number of Unicode extended grapheme clusters in a text.
pub uninterp spec fn grapheme_count_of(text: Seq<char>) -> nat;

/// Relies on `UnicodeSegmentation::graphemes` with extended clusters: the
/// count depends on the text alone, and every cluster holds at least one
/// character, so there are no more clusters than characters.
#[verifier::external_body]
pub fn grapheme_count(text: &str) -> (r: usize)
    ensures
        r as nat == grapheme_count_of(text@),
        r as nat <= text@.len(),
{
    text.graphemes(true).count()
}

} // verus!
