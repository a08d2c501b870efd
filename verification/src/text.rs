//! Spans of styled text, and the byte offsets at which they can be cut.
//!
//! Offsets into a span count bytes of its content's UTF-8 encoding, as
//! `str::len` does. A content can only be cut where a character starts.

use crate::style::{default_style, is_plain};
use ratatui::style::Style;
use vstd::prelude::*;
use vstd::string::*;
use vstd::utf8::*;

verus! {

broadcast use {encode_utf8_valid_utf8, encode_utf8_decode_utf8};

/// A piece of text that carries one style.
#[derive(Debug, Clone, PartialEq, Eq)]
pub struct Span {
    pub content: String,
    pub style: Style,
}

/// What a [`Span`] holds: its characters and its style.
pub ghost struct SpanView {
    pub content: Seq<char>,
    pub style: Style,
}

impl View for Span {
    type V = SpanView;

    open spec fn view(&self) -> SpanView {
        SpanView { content: self.content@, style: self.style }
    }
}

impl DeepView for Span {
    type V = SpanView;

    open spec fn deep_view(&self) -> SpanView {
        self@
    }
}

impl Span {
    /// A span with the given content and a plain style.
    pub fn raw(content: &str) -> (span: Span)
        ensures
            span@.content == content@,
            is_plain(span@.style),
    {
        Span { content: content.to_owned(), style: default_style() }
    }

    /// A span with the given content and style.
    pub fn styled(content: &str, style: Style) -> (span: Span)
        ensures
            span@ == (SpanView { content: content@, style }),
    {
        Span { content: content.to_owned(), style }
    }
}

/// The number of bytes in the UTF-8 encoding of `content`.
pub open spec fn byte_len(content: Seq<char>) -> nat {
    encode_utf8(content).len()
}

/// Whether byte offset `at` of `content` is the start of a character or the
/// end of the content.
pub open spec fn on_char_boundary(content: Seq<char>, at: int) -> bool {
    is_char_boundary(encode_utf8(content), at)
}

/// The characters encoded by bytes `lo..hi` of `content`. Meaningful when
/// both offsets are on character boundaries.
pub open spec fn slice_text(content: Seq<char>, lo: int, hi: int) -> Seq<char> {
    decode_utf8(encode_utf8(content).subrange(lo, hi))
}

/// The byte offset at which span `n` starts in the concatenation of
/// `spans`: the sum of the byte lengths of the spans before it.
pub open spec fn offset_of(spans: Seq<SpanView>, n: int) -> int
    decreases n,
{
    if n <= 0 {
        0
    } else {
        offset_of(spans, n - 1) + byte_len(spans[n - 1].content)
    }
}

/// The byte length of all of `spans` together.
pub open spec fn total_len(spans: Seq<SpanView>) -> int {
    offset_of(spans, spans.len() as int)
}

/// The contents of the first `n` of `spans`, one after the other.
pub open spec fn concat_upto(spans: Seq<SpanView>, n: int) -> Seq<char>
    decreases n,
{
    if n <= 0 {
        Seq::empty()
    } else {
        concat_upto(spans, n - 1) + spans[n - 1].content
    }
}

/// The contents of all of `spans`, one after the other.
pub open spec fn concat(spans: Seq<SpanView>) -> Seq<char> {
    concat_upto(spans, spans.len() as int)
}

/// Offsets grow with the index, and none is negative.
pub proof fn lemma_offset_monotonic(spans: Seq<SpanView>, i: int, j: int)
    requires
        i <= j,
    ensures
        0 <= offset_of(spans, i) <= offset_of(spans, j),
    decreases j,
{
    if j > 0 {
        if i == j {
            lemma_offset_monotonic(spans, i - 1, j - 1);
        } else {
            lemma_offset_monotonic(spans, i, j - 1);
        }
    }
}

/// Between two character boundaries of valid UTF-8 lies valid UTF-8, and a
/// boundary of the whole that lies between them is a boundary of that part.
pub proof fn lemma_boundary_in_part(bytes: Seq<u8>, lo: int, mid: int, hi: int)
    requires
        valid_utf8(bytes),
        0 <= lo <= mid <= hi <= bytes.len(),
        is_char_boundary(bytes, lo),
        is_char_boundary(bytes, mid),
        is_char_boundary(bytes, hi),
    ensures
        valid_utf8(bytes.subrange(lo, hi)),
        is_char_boundary(bytes.subrange(lo, hi), mid - lo),
{
    let head = bytes.subrange(0, hi);
    let part = bytes.subrange(lo, hi);
    valid_utf8_split(bytes, hi);
    if lo == hi {
        is_char_boundary_start_end_of_seq(head);
    } else if lo > 0 {
        is_char_boundary_iff_not_is_continuation_byte(bytes, lo);
        is_char_boundary_iff_not_is_continuation_byte(head, lo);
    }
    valid_utf8_split(head, lo);
    assert(head.subrange(lo, head.len() as int) == part);
    if mid == hi {
        is_char_boundary_start_end_of_seq(part);
    } else if mid > lo {
        is_char_boundary_iff_not_is_continuation_byte(bytes, mid);
        is_char_boundary_iff_not_is_continuation_byte(part, mid - lo);
    }
}

/// The number of bytes in `content`.
pub fn byte_length(content: &str) -> (len: usize)
    ensures
        len == byte_len(content@),
{
    content.as_bytes().len()
}

/// The byte length of all the spans together, if a `usize` holds it.
pub fn total_length(spans: &Vec<Span>) -> (total: Option<usize>)
    ensures
        match total {
            Some(len) => len == total_len(spans.deep_view()),
            None => total_len(spans.deep_view()) > usize::MAX,
        },
{
    let ghost views = spans.deep_view();
    let mut total: usize = 0;
    let mut i: usize = 0;
    while i < spans.len()
        invariant
            i <= spans.len(),
            views == spans.deep_view(),
            total == offset_of(views, i as int),
        decreases spans.len() - i,
    {
        let len = byte_length(spans[i].content.as_str());
        match total.checked_add(len) {
            Some(sum) => {
                total = sum;
            },
            None => {
                proof {
                    lemma_offset_monotonic(views, i + 1, views.len() as int);
                }
                return None;
            },
        }
        i += 1;
    }
    Some(total)
}

/// The bytes `lo..hi` of `content` as a string of their own.
pub fn slice(content: &str, lo: usize, hi: usize) -> (piece: String)
    requires
        lo <= hi <= byte_len(content@),
        on_char_boundary(content@, lo as int),
        on_char_boundary(content@, hi as int),
    ensures
        piece@ == slice_text(content@, lo as int, hi as int),
{
    let ghost bytes = content.spec_bytes();
    proof {
        lemma_boundary_in_part(bytes, 0, lo as int, hi as int);
    }
    let (head, _) = content.split_at(hi);
    let (_, tail) = head.split_at(lo);
    proof {
        assert(tail.spec_bytes() =~= bytes.subrange(lo as int, hi as int));
    }
    tail.to_owned()
}

} // verus!
