//! Rectangles on the screen, and how to centre one in another.

use ratatui_core::layout::{Constraint, Layout};
use vstd::prelude::*;

verus! {

/// A rectangle of cells: its top left corner and its size.
#[derive(Debug, Clone, Copy, PartialEq, Eq)]
pub struct Rect {
    pub x: u16,
    pub y: u16,
    pub width: u16,
    pub height: u16,
}

impl Rect {
    /// Whether no cell of the rectangle lies outside of `outer`: it starts
    /// no further left and no higher, and ends no further right and no
    /// lower.
    pub open spec fn lies_within(self, outer: Rect) -> bool {
        &&& outer.x <= self.x
        &&& self.x + self.width <= outer.x + outer.width
        &&& outer.y <= self.y
        &&& self.y + self.height <= outer.y + outer.height
    }
}

/// The padding on either side of `inner` cells that are centred in `outer`
/// cells: half of what is left over, rounded down, and nothing where the
/// inner cells do not fit.
pub open spec fn centering_pad(outer: u16, inner: u16) -> int {
    if inner <= outer {
        (outer - inner) / 2
    } else {
        0
    }
}

/// The padding on either side of `inner` cells centred in `outer` cells.
pub fn pad_to_center(outer: u16, inner: u16) -> (pad: u16)
    ensures
        pad == centering_pad(outer, inner),
{
    outer.saturating_sub(inner) / 2
}

/// Calls `Layout::vertical` with three lengths, and `Layout::split` on the
/// area. Not proved:
/// - that the solver finds a layout, and returns one rectangle for each
///   length, each with the area's own column and width;
/// - that each lies within the area, which is what the solver is required
///   to keep to, whatever the lengths asked for: every row starts and ends
///   between the top and the bottom of the area;
/// - that the middle row starts as far below the top as the first length
///   says, and is as high as the second, where the three lengths fit the
///   area: a layout puts its rows one after the other from the start, free
///   space last, and a length sets the size of its row.
#[verifier::external_body]
fn split_rows(area: Rect, top: u16, middle: u16, bottom: u16) -> (rows: Vec<Rect>)
    ensures
        rows@.len() == 3,
        forall|i: int|
            0 <= i < 3 ==> (#[trigger] rows@[i]).x == area.x && rows@[i].width == area.width,
        forall|i: int| 0 <= i < 3 ==> (#[trigger] rows@[i]).lies_within(area),
        top + middle + bottom <= area.height && area.y + area.height <= u16::MAX ==> rows@[1].y
            == area.y + top && rows@[1].height == middle,
{
    let area =
        ratatui_core::layout::Rect { x: area.x, y: area.y, width: area.width, height: area.height };
    Layout::vertical(Constraint::from_lengths([top, middle, bottom]))
        .split(area)
        .iter()
        .map(|r| Rect { x: r.x, y: r.y, width: r.width, height: r.height })
        .collect()
}

/// Calls `Layout::horizontal` with three lengths, and `Layout::split` on
/// the area. Not proved:
/// - that the solver finds a layout, and returns one rectangle for each
///   length, each with the area's own row and height;
/// - that each lies within the area, which is what the solver is required
///   to keep to, whatever the lengths asked for: every column starts and
///   ends between the left and the right edge of the area;
/// - that the middle column starts as far right of the left edge as the
///   first length says, and is as wide as the second, where the three
///   lengths fit the area: a layout puts its columns one after the other
///   from the start, free space last, and a length sets the size of its
///   column.
#[verifier::external_body]
fn split_columns(area: Rect, left: u16, middle: u16, right: u16) -> (columns: Vec<Rect>)
    ensures
        columns@.len() == 3,
        forall|i: int|
            0 <= i < 3 ==> (#[trigger] columns@[i]).y == area.y && columns@[i].height
                == area.height,
        forall|i: int| 0 <= i < 3 ==> (#[trigger] columns@[i]).lies_within(area),
        left + middle + right <= area.width && area.x + area.width <= u16::MAX ==> columns@[1].x
            == area.x + left && columns@[1].width == middle,
{
    let area =
        ratatui_core::layout::Rect { x: area.x, y: area.y, width: area.width, height: area.height };
    Layout::horizontal(Constraint::from_lengths([left, middle, right]))
        .split(area)
        .iter()
        .map(|r| Rect { x: r.x, y: r.y, width: r.width, height: r.height })
        .collect()
}

/// An area of the given size in the middle of `base_area`. The base area is
/// split into three rows, the middle one as high as asked for and padded
/// alike above and below, and that row into three columns in the same way.
///
/// Where the width asked for fits the base area, the area has that width,
/// and as many columns of the base area to its left as to its right, or one
/// fewer; and so for the height, and the rows above and below. Where it
/// does not fit, or the base area reaches beyond the last column or row
/// that a `u16` can count, ratatui's layout solver says what becomes of it.
/// The area lies within the base area in any case.
pub fn calc_centered_area(base_area: Rect, area_width: u16, area_height: u16) -> (area: Rect)
    ensures
        area.lies_within(base_area),
        area_width <= base_area.width && base_area.x + base_area.width <= u16::MAX ==> area.x
            == base_area.x + centering_pad(base_area.width, area_width) && area.width
            == area_width,
        area_height <= base_area.height && base_area.y + base_area.height <= u16::MAX ==> area.y
            == base_area.y + centering_pad(base_area.height, area_height) && area.height
            == area_height,
{
    let vertical_pad = pad_to_center(base_area.height, area_height);
    let rows = split_rows(base_area, vertical_pad, area_height, vertical_pad);
    let horizontal_pad = pad_to_center(base_area.width, area_width);
    let columns = split_columns(rows[1], horizontal_pad, area_width, horizontal_pad);
    columns[1]
}

} // verus!
