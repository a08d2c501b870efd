//! Display widths, as the `console` crate measures them.
//!
//! How many columns a text takes on a terminal, and where to cut it so that
//! it takes no more than some number of them, is for `console` to say: it
//! knows about escape sequences and about wide and zero-width characters.
//! To the verifier its answers are uninterpreted functions of the text.

use vstd::prelude::*;

verus! {

/// The width that `console::measure_text_width` gives for `text`.
pub uninterp spec fn text_width(text: Seq<char>) -> nat;

/// The text that `console::truncate_str` returns for `text`, cut to
/// `width` columns and ending in `tail` where it was cut.
pub uninterp spec fn truncated_text(text: Seq<char>, width: nat, tail: Seq<char>) -> Seq<char>;

/// Calls `console::measure_text_width`. Not proved: that the width depends
/// on the text alone.
#[verifier::external_body]
pub(crate) fn measure_text_width(text: &str) -> (width: usize)
    ensures
        width == text_width(text@),
{
    console::measure_text_width(text)
}

/// Calls `console::truncate_str`. Not proved: that the result depends on
/// the text, the width and the tail alone.
#[verifier::external_body]
pub(crate) fn truncate_str(text: &str, width: usize, tail: &str) -> (cut: String)
    ensures
        cut@ == truncated_text(text@, width as nat, tail@),
{
    console::truncate_str(text, width, tail).into_owned()
}

} // verus!
