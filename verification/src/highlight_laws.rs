//! What holds of every highlighted line.

use crate::highlight::{lemma_run_end, run_end, HighlightView};
use crate::ranges::Range;
use crate::style::patched;
use crate::text::{
    byte_len, concat, concat_upto, lemma_boundary_in_part, lemma_offset_monotonic, slice_text,
    SpanView,
};
use ratatui::style::Style;
use vstd::prelude::*;
use vstd::utf8::*;

verus! {

broadcast use {encode_utf8_valid_utf8, encode_utf8_decode_utf8};

/// The contents of two lists of spans, one after the other, are the
/// contents of the lists joined.
pub proof fn lemma_concat_add(a: Seq<SpanView>, b: Seq<SpanView>)
    ensures
        concat(a + b) == concat(a) + concat(b),
    decreases b.len(),
{
    if b.len() > 0 {
        let joined = a + b;
        lemma_concat_add(a, b.drop_last());
        lemma_concat_upto_prefix(joined, a + b.drop_last(), joined.len() - 1);
        lemma_concat_upto_prefix(b, b.drop_last(), b.len() - 1);
    }
}

/// The contents of the first `n` spans of a list are those of the first `n`
/// spans of any prefix that has them.
proof fn lemma_concat_upto_prefix(spans: Seq<SpanView>, prefix: Seq<SpanView>, n: int)
    requires
        n <= prefix.len() <= spans.len(),
        forall|k: int| 0 <= k < prefix.len() ==> prefix[k] == spans[k],
    ensures
        concat_upto(prefix, n) == concat_upto(spans, n),
    decreases n,
{
    if n > 0 {
        lemma_concat_upto_prefix(spans, prefix, n - 1);
    }
}

/// Text cut at a character boundary, put together again.
pub proof fn lemma_slice_text_join(content: Seq<char>, lo: int, mid: int, hi: int)
    requires
        0 <= lo <= mid <= hi <= byte_len(content),
        is_char_boundary(encode_utf8(content), lo),
        is_char_boundary(encode_utf8(content), mid),
        is_char_boundary(encode_utf8(content), hi),
    ensures
        slice_text(content, lo, hi) == slice_text(content, lo, mid) + slice_text(content, mid, hi),
{
    let bytes = encode_utf8(content);
    let part = bytes.subrange(lo, hi);
    lemma_boundary_in_part(bytes, lo, mid, hi);
    decode_utf8_split(part, mid - lo);
    assert(part.subrange(0, mid - lo) == bytes.subrange(lo, mid));
    assert(part.subrange(mid - lo, part.len() as int) == bytes.subrange(mid, hi));
}

/// Only the empty text has no bytes.
pub proof fn lemma_byte_len_zero(content: Seq<char>)
    ensures
        byte_len(content) == 0 <==> content.len() == 0,
{
}

impl HighlightView {
    /// The pieces of a span from a clean cut on hold the span's text from
    /// there to where the span's output ends.
    pub proof fn lemma_pieces_content(self, i: int, pos: int)
        requires
            0 <= i < self.spans.len(),
            self.splits_cleanly(),
            self.start(i) <= pos <= self.bound(i),
            pos == self.start(i) || self.cut_is_clean(i, pos),
            self.bound(i) == self.start(i + 1) || self.cut_is_clean(i, self.bound(i)),
        ensures
            concat(self.pieces(i, pos)) == slice_text(
                self.spans[i].content,
                pos - self.start(i),
                self.bound(i) - self.start(i),
            ),
        decreases self.bound(i) - pos,
    {
        let content = self.spans[i].content;
        let bytes = encode_utf8(content);
        let start = self.start(i);
        let bound = self.bound(i);
        is_char_boundary_start_end_of_seq(bytes);
        if pos < bound {
            let next = run_end(self.marks(), pos, bound);
            lemma_run_end(self.marks(), pos, bound);
            let first = self.piece(i, pos, next);
            if next < self.start(i + 1) {
                assert(self.cut_is_clean(i, next));
            }
            self.lemma_pieces_content(i, next);
            lemma_concat_add(seq![first], self.pieces(i, next));
            assert(concat(seq![first]) == first.content) by {
                assert(concat_upto(seq![first], 0) == Seq::<char>::empty());
            }
            lemma_slice_text_join(content, pos - start, next - start, bound - start);
        }
    }

    /// The pieces of the first `n` spans hold the text of those spans, when
    /// the line ends where its text ends.
    pub proof fn lemma_pieces_upto_content(self, n: int)
        requires
            0 <= n <= self.spans.len(),
            self.splits_cleanly(),
            self.limit() == self.total(),
        ensures
            concat(self.pieces_upto(n)) == concat_upto(self.spans, n),
        decreases n,
    {
        if n > 0 {
            let content = self.spans[n - 1].content;
            self.lemma_pieces_upto_content(n - 1);
            lemma_offset_monotonic(self.spans, n, self.spans.len() as int);
            self.lemma_pieces_content(n - 1, self.start(n - 1));
            lemma_concat_add(self.pieces_upto(n - 1), self.pieces(n - 1, self.start(n - 1)));
            assert(encode_utf8(content).subrange(0, byte_len(content) as int) == encode_utf8(
                content,
            ));
        }
    }

    /// The text of span `i` that is put out: all of it, or what comes
    /// before the limit if the limit lies inside the span; nothing, if the
    /// span starts at the limit or beyond it.
    pub open spec fn kept_text(self, i: int) -> Seq<char> {
        if self.start(i) < self.bound(i) {
            slice_text(self.spans[i].content, 0, self.bound(i) - self.start(i))
        } else {
            Seq::empty()
        }
    }

    /// The text of the first `n` spans that is put out.
    pub open spec fn kept_upto(self, n: int) -> Seq<char>
        decreases n,
    {
        if n <= 0 {
            Seq::empty()
        } else {
            self.kept_upto(n - 1) + self.kept_text(n - 1)
        }
    }

    /// The pieces of a span hold its text from its start to its end, or to
    /// the limit if that comes first. Text beyond the limit is in no piece.
    pub proof fn lemma_pieces_hold_kept_text(self, i: int)
        requires
            0 <= i < self.spans.len(),
            self.splits_cleanly(),
        ensures
            concat(self.pieces(i, self.start(i))) == self.kept_text(i),
    {
        if self.start(i) < self.bound(i) {
            if self.bound(i) < self.start(i + 1) {
                assert(self.is_cut(self.bound(i)));
                assert(self.cut_is_clean(i, self.bound(i)));
            }
            self.lemma_pieces_content(i, self.start(i));
        }
    }

    /// The pieces of the first `n` spans hold the text of those spans up to
    /// the limit.
    pub proof fn lemma_pieces_upto_hold_kept_text(self, n: int)
        requires
            0 <= n <= self.spans.len(),
            self.splits_cleanly(),
        ensures
            concat(self.pieces_upto(n)) == self.kept_upto(n),
        decreases n,
    {
        if n > 0 {
            self.lemma_pieces_upto_hold_kept_text(n - 1);
            self.lemma_pieces_hold_kept_text(n - 1);
            lemma_concat_add(self.pieces_upto(n - 1), self.pieces(n - 1, self.start(n - 1)));
        }
    }

    /// With an ellipsis, a line that has spans holds their text up to the
    /// limit, and then the ellipsis: the text beyond the limit is left out.
    pub proof fn lemma_content_before_ellipsis(self)
        requires
            self.ellipsis is Some,
            self.spans.len() > 0,
            self.splits_cleanly(),
        ensures
            concat(self.highlighted()) == self.kept_upto(self.spans.len() as int)
                + self.ellipsis->0,
    {
        let pieces = self.pieces_upto(self.spans.len() as int);
        let last = self.ellipsis_span(self.ellipsis->0);
        self.lemma_pieces_upto_hold_kept_text(self.spans.len() as int);
        lemma_concat_add(pieces, seq![last]);
        assert(concat(seq![last]) == last.content) by {
            assert(concat_upto(seq![last], 0) == Seq::<char>::empty());
        }
    }

    /// Highlighting keeps the text: without an ellipsis, the contents of
    /// the highlighted spans, one after the other, are the contents of the
    /// spans given.
    pub proof fn lemma_content_preserved(self)
        requires
            self.ellipsis is None,
            self.splits_cleanly(),
        ensures
            concat(self.highlighted()) == concat(self.spans),
    {
        if self.spans.len() > 0 {
            self.lemma_pieces_upto_content(self.spans.len() as int);
        }
    }
}

impl HighlightView {
    /// No piece of a span is empty.
    pub proof fn lemma_pieces_not_empty(self, i: int, pos: int, k: int)
        requires
            0 <= i < self.spans.len(),
            self.splits_cleanly(),
            self.start(i) <= pos <= self.bound(i),
            pos == self.start(i) || self.cut_is_clean(i, pos),
            0 <= k < self.pieces(i, pos).len(),
        ensures
            self.pieces(i, pos)[k].content.len() > 0,
        decreases self.bound(i) - pos,
    {
        let content = self.spans[i].content;
        let bytes = encode_utf8(content);
        let start = self.start(i);
        let bound = self.bound(i);
        is_char_boundary_start_end_of_seq(bytes);
        let next = run_end(self.marks(), pos, bound);
        lemma_run_end(self.marks(), pos, bound);
        if next < self.start(i + 1) {
            assert(self.cut_is_clean(i, next));
        }
        if k == 0 {
            lemma_boundary_in_part(bytes, pos - start, pos - start, next - start);
        } else {
            self.lemma_pieces_not_empty(i, next, k - 1);
        }
    }

    /// No piece of the line is empty: what would be, is left out.
    pub proof fn lemma_pieces_upto_not_empty(self, n: int, k: int)
        requires
            0 <= n <= self.spans.len(),
            self.splits_cleanly(),
            0 <= self.limit(),
            0 <= k < self.pieces_upto(n).len(),
        ensures
            self.pieces_upto(n)[k].content.len() > 0,
        decreases n,
    {
        let before = self.pieces_upto(n - 1);
        if k < before.len() {
            self.lemma_pieces_upto_not_empty(n - 1, k);
        } else {
            lemma_offset_monotonic(self.spans, 0, n - 1);
            self.lemma_pieces_not_empty(n - 1, self.start(n - 1), k - before.len());
        }
    }
}

/// Where nothing is matched, a run reaches its bound.
proof fn lemma_run_end_unmatched(pos: int, bound: int)
    requires
        pos < bound,
    ensures
        run_end(Seq::<Range>::empty(), pos, bound) == bound,
    decreases bound - pos,
{
    if pos + 1 < bound {
        lemma_run_end_unmatched(pos + 1, bound);
    }
}

/// The first `n` spans, each patched with `overlay`, without those that
/// are empty.
pub open spec fn restyled_upto(spans: Seq<SpanView>, overlay: Style, n: int) -> Seq<SpanView>
    decreases n,
{
    if n <= 0 {
        Seq::empty()
    } else {
        restyled_upto(spans, overlay, n - 1) + if spans[n - 1].content.len() > 0 {
            seq![
                SpanView {
                    content: spans[n - 1].content,
                    style: patched(spans[n - 1].style, overlay),
                },
            ]
        } else {
            Seq::empty()
        }
    }
}

impl HighlightView {
    /// Without matches and without an ellipsis, the pieces of the first `n`
    /// spans are those spans, patched with the style for unmatched text.
    pub proof fn lemma_unmatched_pieces(self, n: int)
        requires
            0 <= n <= self.spans.len(),
            self.matches.len() == 0,
            self.ellipsis is None,
        ensures
            self.pieces_upto(n) == restyled_upto(self.spans, self.not_matched_style, n),
        decreases n,
    {
        if n > 0 {
            let i = n - 1;
            let content = self.spans[i].content;
            let start = self.start(i);
            self.lemma_unmatched_pieces(n - 1);
            lemma_offset_monotonic(self.spans, n, self.spans.len() as int);
            lemma_byte_len_zero(content);
            assert(self.marks() == Seq::<Range>::empty());
            if content.len() > 0 {
                let bound = self.bound(i);
                lemma_run_end_unmatched(start, bound);
                assert(self.pieces(i, bound) == Seq::<SpanView>::empty());
                assert(encode_utf8(content).subrange(0, byte_len(content) as int) == encode_utf8(
                    content,
                ));
            }
        }
    }

    /// Without matches and without an ellipsis, the highlighted line holds
    /// the spans given, each patched with the style for unmatched text, and
    /// leaves out those that are empty.
    pub proof fn lemma_unmatched_line(self)
        requires
            self.matches.len() == 0,
            self.ellipsis is None,
        ensures
            self.highlighted() == restyled_upto(
                self.spans,
                self.not_matched_style,
                self.spans.len() as int,
            ),
    {
        if self.spans.len() > 0 {
            self.lemma_unmatched_pieces(self.spans.len() as int);
        }
    }
}

} // verus!
