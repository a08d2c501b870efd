//! The frame of a dialog: the area around its content.

use crate::layout::Rect;
use vstd::prelude::*;

verus! {

/// The space around the content of a dialog, in cells: `horizontal` on the
/// left and on the right, `vertical` above and below.
#[derive(Debug, Clone, Copy, PartialEq, Eq)]
pub struct Margin {
    pub horizontal: u16,
    pub vertical: u16,
}

/// `value` less `by`, and not less than nothing.
pub open spec fn shrunk(value: u16, by: u16) -> int {
    if by <= value {
        value - by
    } else {
        0
    }
}

/// `value` and twice `by`, and not more than a `u16` holds.
pub open spec fn grown(value: u16, by: u16) -> int {
    if value + 2 * by <= u16::MAX {
        value + 2 * by
    } else {
        u16::MAX as int
    }
}

/// The area that a dialog covers: the area of its content, with the margin
/// on every side. It stops at the left and upper edge of the screen, and
/// at the largest size there is.
pub fn outer_rect(r: Rect, margin: Margin) -> (outer: Rect)
    ensures
        outer.x == shrunk(r.x, margin.horizontal),
        outer.y == shrunk(r.y, margin.vertical),
        outer.width == grown(r.width, margin.horizontal),
        outer.height == grown(r.height, margin.vertical),
{
    let doubled_margin_horizontal = margin.horizontal.saturating_add(margin.horizontal);
    let doubled_margin_vertical = margin.vertical.saturating_add(margin.vertical);
    Rect {
        x: r.x.saturating_sub(margin.horizontal),
        y: r.y.saturating_sub(margin.vertical),
        width: r.width.saturating_add(doubled_margin_horizontal),
        height: r.height.saturating_add(doubled_margin_vertical),
    }
}

} // verus!
