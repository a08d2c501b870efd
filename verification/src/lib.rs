//! Helpers for terminal user interfaces built on ratatui.
//!
//! - [`highlight`] marks matched text in a line of styled spans, and lets
//!   the line end in an ellipsis; [`highlight_laws`] holds what is true of
//!   every line so marked.
//! - [`spans`] truncates a line of spans to a number of display columns.
//! - [`ranges`] merges the offsets of matched text into ranges.
//! - [`text`] has the spans themselves, and the byte offsets at which they
//!   can be cut.
//! - [`layout`] and [`dialog`] hold a little geometry: an area centred in
//!   another, and the area that a dialog covers.
//! - [`style`] and [`width`] say what is taken on trust from ratatui and
//!   from `console`.

pub mod dialog;
pub mod highlight;
pub mod highlight_laws;
pub mod layout;
pub mod ranges;
pub mod spans;
pub mod style;
pub mod text;
pub mod width;
