//! The styling types of ratatui, as far as this library touches them.
//!
//! A style is carried through the library untouched: spans keep the style
//! they came with, and the only operation applied to one is ratatui's own
//! patching. The verifier therefore sees styles, colours and modifiers as
//! opaque values, and the results of ratatui's functions on them as
//! uninterpreted functions of their arguments.

use ratatui::style::{Color, Modifier, Style};
use vstd::prelude::*;

verus! {

/// `ratatui::style::Style`, opaque to the verifier.
#[verifier::external_type_specification]
#[verifier::external_body]
pub struct ExStyle(Style);

/// `ratatui::style::Color`, opaque to the verifier.
#[verifier::external_type_specification]
#[verifier::external_body]
pub struct ExColor(Color);

/// `ratatui::style::Modifier`, opaque to the verifier.
#[verifier::external_type_specification]
#[verifier::external_body]
pub struct ExModifier(Modifier);

/// `Style::clone`, which `derive` wrote for a `Copy` type: the clone is the
/// style itself.
pub assume_specification[ <Style as Clone>::clone ](style: &Style) -> (copy: Style)
    ensures
        copy == *style,
;

/// The style that `Style::patch` returns for `base` patched with `overlay`.
pub uninterp spec fn patched(base: Style, overlay: Style) -> Style;

/// The style that `Style::fg` returns.
pub uninterp spec fn with_fg(style: Style, color: Color) -> Style;

/// The style that `Style::bg` returns.
pub uninterp spec fn with_bg(style: Style, color: Color) -> Style;

/// The style that `Style::add_modifier` returns.
pub uninterp spec fn with_modifier(style: Style, modifier: Modifier) -> Style;

/// A style is plain when patching with it, from either side, changes
/// nothing. At most one style is plain: of two plain styles, each equals
/// the first patched with the second.
pub open spec fn is_plain(style: Style) -> bool {
    forall|other: Style|
        #![trigger patched(other, style)]
        #![trigger patched(style, other)]
        patched(other, style) == other && patched(style, other) == other
}

/// Calls `Style::default`. Not proved: that the default style sets no colour
/// and no modifier, so that `Style::patch` leaves any style unchanged when
/// the default is its overlay, and returns the overlay when the default is
/// its base.
#[verifier::external_body]
pub(crate) fn default_style() -> (style: Style)
    ensures
        is_plain(style),
{
    Style::default()
}

/// Calls `Style::patch`. Not proved: that the result depends on the two
/// styles alone.
#[verifier::external_body]
pub(crate) fn patch_style(base: Style, overlay: Style) -> (style: Style)
    ensures
        style == patched(base, overlay),
{
    base.patch(overlay)
}

/// Calls `Style::fg`. Not proved: that the result depends on the style and
/// the colour alone.
#[verifier::external_body]
pub(crate) fn style_fg(style: Style, color: Color) -> (styled: Style)
    ensures
        styled == with_fg(style, color),
{
    style.fg(color)
}

/// Calls `Style::bg`. Not proved: that the result depends on the style and
/// the colour alone.
#[verifier::external_body]
pub(crate) fn style_bg(style: Style, color: Color) -> (styled: Style)
    ensures
        styled == with_bg(style, color),
{
    style.bg(color)
}

/// Calls `Style::add_modifier`. Not proved: that the result depends on the
/// style and the modifier alone.
#[verifier::external_body]
pub(crate) fn style_add_modifier(style: Style, modifier: Modifier) -> (styled: Style)
    ensures
        styled == with_modifier(style, modifier),
{
    style.add_modifier(modifier)
}

/// Two plain styles are equal.
pub proof fn lemma_plain_unique(a: Style, b: Style)
    requires
        is_plain(a),
        is_plain(b),
    ensures
        a == b,
{
    assert(patched(a, b) == a);
}

} // verus!
