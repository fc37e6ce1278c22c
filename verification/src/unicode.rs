//! What the library asks of Unicode: how wide a string is shown, where its grapheme
//! clusters end, and which characters are whitespace.

use vstd::prelude::*;

verus! {

/// The number of terminal columns that a string takes, as `unicode_width` computes it.
pub uninterp spec fn display_width(symbol: Seq<char>) -> nat;

/// The grapheme clusters of a string, in order, as `unicode_segmentation` finds them.
pub uninterp spec fn grapheme_clusters(text: Seq<char>) -> Seq<Seq<char>>;

/// Whether a character has the Unicode property `White_Space`.
pub uninterp spec fn is_whitespace_char(c: char) -> bool;

/// What a list of strings holds.
pub open spec fn contents(strings: Seq<String>) -> Seq<Seq<char>> {
    Seq::new(strings.len(), |i: int| strings[i]@)
}

/// The strings of `parts`, one after the other.
pub open spec fn concat(parts: Seq<Seq<char>>) -> Seq<char>
    decreases parts.len(),
{
    if parts.len() == 0 {
        Seq::empty()
    } else {
        concat(parts.drop_last()) + parts.last()
    }
}

/// `UnicodeWidthStr::width` of `unicode_width`: the displayed width of a string in columns.
/// The width is a function of the string alone, and the empty string has width 0.
#[verifier::external_body]
pub(crate) fn symbol_width(symbol: &str) -> (width: usize)
    ensures
        width == display_width(symbol@),
        symbol@.len() == 0 ==> width == 0,
{
    unicode_width::UnicodeWidthStr::width(symbol)
}

/// `UnicodeSegmentation::graphemes` of `unicode_segmentation`, for extended grapheme
/// clusters. The clusters are a function of the string alone; none of them is empty, and
/// one after the other they make up the string.
#[verifier::external_body]
pub(crate) fn graphemes(text: &str) -> (clusters: Vec<String>)
    ensures
        contents(clusters@) == grapheme_clusters(text@),
        forall|i: int| 0 <= i < clusters@.len() ==> (#[trigger] clusters@[i])@.len() > 0,
        concat(contents(clusters@)) == text@,
{
    unicode_segmentation::UnicodeSegmentation::graphemes(text, true).map(String::from).collect()
}

/// `char::is_whitespace` of std: whether the character has the property `White_Space`.
#[verifier::external_body]
pub(crate) fn is_whitespace(c: char) -> (whitespace: bool)
    ensures
        whitespace == is_whitespace_char(c),
{
    c.is_whitespace()
}

} // verus!
