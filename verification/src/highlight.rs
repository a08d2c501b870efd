//! Highlighting of matched text inside a line of styled spans.
//!
//! The spans of a line are cut wherever the text passes into or out of a
//! matched range, and at nothing else but the ends of the spans themselves.
//! Each piece keeps the style of the span it came from, patched with the
//! style for matched or for unmatched text. With an ellipsis, the line ends
//! early to leave room for it.

use crate::highlight_laws::restyled_upto;
use crate::ranges::{
    covers, find_next_break, is_boundary, is_merge_of, is_merged, lemma_boundary_changes_state,
    lemma_covers_push, lemma_state_change_is_boundary, to_ranges, Range,
};
use crate::style::{
    default_style, is_plain, patch_style, patched, style_add_modifier, style_bg, style_fg,
    with_bg, with_fg, with_modifier,
};
use crate::text::{
    byte_len, byte_length, concat, lemma_offset_monotonic, offset_of, on_char_boundary, slice,
    slice_text, total_len, total_length, Span, SpanView,
};
use ratatui::style::{Color, Modifier, Style};
use vstd::pervasive::unreached;
use vstd::prelude::*;
use vstd::string::*;
use vstd::utf8::*;

verus! {

broadcast use {encode_utf8_valid_utf8, is_char_boundary_start_end_of_seq};

/// A line of spans to highlight, with all that decides how: the matched
/// ranges, the two styles, and the ellipsis if there is one.
pub ghost struct HighlightView {
    pub spans: Seq<SpanView>,
    pub matches: Seq<Range>,
    pub not_matched_style: Style,
    pub matched_style: Style,
    pub ellipsis: Option<Seq<char>>,
}

impl HighlightView {
    /// The byte length of the whole text.
    pub open spec fn total(self) -> int {
        total_len(self.spans)
    }

    /// The offset at which the text ends in the output: the end of the
    /// text, less the length of the ellipsis if there is one, and not less
    /// than nothing.
    pub open spec fn limit(self) -> int {
        match self.ellipsis {
            Some(ellipsis) => if byte_len(ellipsis) <= self.total() {
                self.total() - byte_len(ellipsis)
            } else {
                0
            },
            None => self.total(),
        }
    }

    /// The ranges that mark matched text: those given, clipped where there
    /// is an ellipsis.
    pub open spec fn marks(self) -> Seq<Range> {
        match self.ellipsis {
            Some(_) => clip_ranges(self.matches, self.limit(), self.total()),
            None => self.matches,
        }
    }

    /// The style that is patched onto text at `pos`.
    pub open spec fn overlay(self, pos: int) -> Style {
        if covers(self.marks(), pos) {
            self.matched_style
        } else {
            self.not_matched_style
        }
    }

    /// The offset at which span `i` starts.
    pub open spec fn start(self, i: int) -> int {
        offset_of(self.spans, i)
    }

    /// The offset up to which span `i` is put out: its end, or the limit if
    /// that comes first.
    pub open spec fn bound(self, i: int) -> int {
        if self.start(i + 1) <= self.limit() {
            self.start(i + 1)
        } else {
            self.limit()
        }
    }

    /// The piece of span `i` between the offsets `lo` and `hi` of the line.
    pub open spec fn piece(self, i: int, lo: int, hi: int) -> SpanView {
        SpanView {
            content: slice_text(self.spans[i].content, lo - self.start(i), hi - self.start(i)),
            style: patched(self.spans[i].style, self.overlay(lo)),
        }
    }

    /// The pieces of span `i` from offset `pos` on: one for each run of
    /// offsets in one match state.
    pub open spec fn pieces(self, i: int, pos: int) -> Seq<SpanView>
        decreases self.bound(i) - pos,
    {
        if pos >= self.bound(i) {
            Seq::empty()
        } else {
            let next = run_end(self.marks(), pos, self.bound(i));
            proof {
                lemma_run_end(self.marks(), pos, self.bound(i));
            }
            seq![self.piece(i, pos, next)] + self.pieces(i, next)
        }
    }

    /// The pieces of the first `n` spans.
    pub open spec fn pieces_upto(self, n: int) -> Seq<SpanView>
        decreases n,
    {
        if n <= 0 {
            Seq::empty()
        } else {
            self.pieces_upto(n - 1) + self.pieces(n - 1, self.start(n - 1))
        }
    }

    /// The span that holds the ellipsis. It has the matched style where a
    /// mark covers the limit, the unmatched style otherwise, and nothing is
    /// patched: an ellipsis has no style of its own.
    pub open spec fn ellipsis_span(self, ellipsis: Seq<char>) -> SpanView {
        SpanView { content: ellipsis, style: self.overlay(self.limit()) }
    }

    /// The highlighted line. A line without spans stays empty, ellipsis or
    /// not.
    pub open spec fn highlighted(self) -> Seq<SpanView> {
        if self.spans.len() == 0 {
            Seq::empty()
        } else {
            self.pieces_upto(self.spans.len() as int) + match self.ellipsis {
                Some(ellipsis) => seq![self.ellipsis_span(ellipsis)],
                None => Seq::empty(),
            }
        }
    }

    /// Whether the output is cut at `pos`: there the match state changes,
    /// or the text ends.
    pub open spec fn is_cut(self, pos: int) -> bool {
        pos == self.limit() || covers(self.marks(), pos) != covers(self.marks(), pos - 1)
    }

    /// Whether offset `pos` of the line is a character boundary of span
    /// `i`.
    pub open spec fn cut_is_clean(self, i: int, pos: int) -> bool {
        on_char_boundary(self.spans[i].content, pos - self.start(i))
    }

    /// Whether every cut inside a span falls between two characters.
    pub open spec fn splits_cleanly(self) -> bool {
        forall|i: int, pos: int|
            0 <= i < self.spans.len() && self.start(i) < pos < self.start(i + 1) && pos
                <= self.limit() && self.is_cut(pos) ==> #[trigger] self.cut_is_clean(i, pos)
    }

    /// Whether the line can be highlighted: its length fits a `usize`, and
    /// no cut falls inside a character.
    pub open spec fn can_split(self) -> bool {
        self.total() <= usize::MAX && self.splits_cleanly()
    }
}

/// The ranges as they are used when the line ends at `limit` to make room
/// for an ellipsis. The first range that ends beyond `limit` is clipped: it
/// keeps its start if that lies before `limit`, starts at `limit` otherwise,
/// and reaches to `total`, the end of the text. The ranges before it stay as
/// they are, and those after it are dropped.
pub open spec fn clip_ranges(ranges: Seq<Range>, limit: int, total: int) -> Seq<Range>
    decreases ranges.len(),
{
    if ranges.len() == 0 {
        ranges
    } else if ranges[0].end > limit {
        seq![clip_range(ranges[0], limit, total)]
    } else {
        seq![ranges[0]] + clip_ranges(ranges.drop_first(), limit, total)
    }
}

/// A range that ends beyond `limit`, clipped.
pub open spec fn clip_range(range: Range, limit: int, total: int) -> Range {
    Range {
        start: if range.start < limit {
            range.start
        } else {
            limit as usize
        },
        end: total as usize,
    }
}

/// The end of the run of offsets that starts at `pos` and shares its match
/// state: the first offset after `pos` at which the state differs, or
/// `bound` if the state stays the same up to there.
pub open spec fn run_end(ranges: Seq<Range>, pos: int, bound: int) -> int
    decreases bound - pos,
{
    if pos + 1 >= bound {
        bound
    } else if covers(ranges, pos + 1) != covers(ranges, pos) {
        pos + 1
    } else {
        run_end(ranges, pos + 1, bound)
    }
}

/// Below `limit`, the match state changes wherever a range starts or ends.
pub open spec fn breaks_change_state(ranges: Seq<Range>, limit: int) -> bool {
    forall|pos: int|
        0 < pos < limit && #[trigger] is_boundary(ranges, pos) ==> covers(ranges, pos) != covers(
            ranges,
            pos - 1,
        )
}

/// A run is not empty, holds one match state, and ends at its bound or
/// where the state changes.
pub proof fn lemma_run_end(ranges: Seq<Range>, pos: int, bound: int)
    requires
        pos < bound,
    ensures
        pos < run_end(ranges, pos, bound) <= bound,
        forall|at: int|
            pos <= at < run_end(ranges, pos, bound) ==> #[trigger] covers(ranges, at) == covers(
                ranges,
                pos,
            ),
        run_end(ranges, pos, bound) == bound || covers(ranges, run_end(ranges, pos, bound))
            != covers(ranges, run_end(ranges, pos, bound) - 1),
    decreases bound - pos,
{
    if pos + 1 < bound && covers(ranges, pos + 1) == covers(ranges, pos) {
        lemma_run_end(ranges, pos + 1, bound);
    }
}

/// Where breaks change the state, a run ends at the next break, or at its
/// bound if that comes first.
pub proof fn lemma_run_ends_at_break(
    ranges: Seq<Range>,
    pos: int,
    bound: int,
    limit: int,
    next: Option<usize>,
)
    requires
        0 <= pos < bound <= limit,
        breaks_change_state(ranges, limit),
        match next {
            Some(found) => {
                &&& pos < found
                &&& is_boundary(ranges, found as int)
                &&& forall|other: int| pos < other && is_boundary(ranges, other) ==> found <= other
            },
            None => forall|other: int| pos < other ==> !is_boundary(ranges, other),
        },
    ensures
        run_end(ranges, pos, bound) == match next {
            Some(found) => if found < bound {
                found as int
            } else {
                bound
            },
            None => bound,
        },
    decreases bound - pos,
{
    if pos + 1 < bound {
        if covers(ranges, pos + 1) != covers(ranges, pos) {
            lemma_state_change_is_boundary(ranges, pos + 1);
        } else {
            lemma_run_ends_at_break(ranges, pos + 1, bound, limit, next);
        }
    }
}

/// What a list covers that starts with `first` and goes on with `rest`.
proof fn lemma_covers_cons(first: Range, rest: Seq<Range>, pos: int)
    ensures
        covers(seq![first] + rest, pos) <==> first.contains(pos) || covers(rest, pos),
        is_boundary(seq![first] + rest, pos) <==> first.start == pos || first.end == pos
            || is_boundary(rest, pos),
{
    let all = seq![first] + rest;
    if covers(rest, pos) {
        let i = choose|i: int| 0 <= i < rest.len() && (#[trigger] rest[i]).contains(pos);
        assert(all[i + 1].contains(pos));
    }
    if is_boundary(rest, pos) {
        let i = choose|i: int|
            0 <= i < rest.len() && ((#[trigger] rest[i]).start == pos || rest[i].end == pos);
        assert(all[i + 1].start == pos || all[i + 1].end == pos);
    }
    if first.start == pos || first.end == pos {
        assert(all[0].start == pos || all[0].end == pos);
    }
}

/// Clipping changes nothing below the limit: neither what is covered there
/// nor, but for breaks it takes away, where ranges start and end.
pub proof fn lemma_clip_below_limit(ranges: Seq<Range>, limit: int, total: int, pos: int)
    requires
        is_merged(ranges),
        0 <= limit <= total <= usize::MAX,
        pos < limit,
    ensures
        covers(clip_ranges(ranges, limit, total), pos) <==> covers(ranges, pos),
        is_boundary(clip_ranges(ranges, limit, total), pos) ==> is_boundary(ranges, pos),
    decreases ranges.len(),
{
    if ranges.len() > 0 {
        let first = ranges[0];
        let rest = ranges.drop_first();
        assert(ranges =~= seq![first] + rest);
        lemma_covers_cons(first, rest, pos);
        if first.end > limit {
            let clipped = clip_range(first, limit, total);
            lemma_covers_cons(clipped, Seq::empty(), pos);
            if covers(rest, pos) {
                let i = choose|i: int| 0 <= i < rest.len() && (#[trigger] rest[i]).contains(pos);
                assert(ranges[0].end < ranges[i + 1].start);
            }
        } else {
            assert forall|i: int, j: int| 0 <= i < j < rest.len() implies (#[trigger] rest[i]).end
                < (#[trigger] rest[j]).start by {}
            assert forall|i: int| 0 <= i < rest.len() implies (#[trigger] rest[i]).start
                < rest[i].end by {}
            lemma_clip_below_limit(rest, limit, total, pos);
            lemma_covers_cons(first, clip_ranges(rest, limit, total), pos);
        }
    }
}

/// Clipped ranges still change the match state at every break below the
/// limit.
pub proof fn lemma_clip_breaks_change_state(ranges: Seq<Range>, limit: int, total: int)
    requires
        is_merged(ranges),
        0 <= limit <= total <= usize::MAX,
    ensures
        breaks_change_state(clip_ranges(ranges, limit, total), limit),
{
    let clipped = clip_ranges(ranges, limit, total);
    assert forall|pos: int| 0 < pos < limit && #[trigger] is_boundary(clipped, pos) implies covers(
        clipped,
        pos,
    ) != covers(clipped, pos - 1) by {
        lemma_clip_below_limit(ranges, limit, total, pos);
        lemma_clip_below_limit(ranges, limit, total, pos - 1);
        lemma_boundary_changes_state(ranges, pos);
    }
}

/// Merged ranges change the match state at every break.
pub proof fn lemma_merged_breaks_change_state(ranges: Seq<Range>, limit: int)
    requires
        is_merged(ranges),
    ensures
        breaks_change_state(ranges, limit),
{
    assert forall|pos: int| 0 < pos < limit && #[trigger] is_boundary(ranges, pos) implies covers(
        ranges,
        pos,
    ) != covers(ranges, pos - 1) by {
        lemma_boundary_changes_state(ranges, pos);
    }
}

/// Whether one of the ranges contains `pos`.
pub fn is_covered(ranges: &[Range], pos: usize) -> (found: bool)
    ensures
        found == covers(ranges@, pos as int),
{
    let mut i: usize = 0;
    while i < ranges.len()
        invariant
            i <= ranges.len(),
            !covers(ranges@.take(i as int), pos as int),
        decreases ranges.len() - i,
    {
        let range = ranges[i];
        if range.start <= pos && pos < range.end {
            return true;
        }
        proof {
            lemma_covers_push(ranges@.take(i as int), range, pos as int);
        }
        i += 1;
    }
    proof {
        assert(ranges@.take(i as int) == ranges@);
    }
    false
}

/// Clips the ranges for a line that ends at `limit`.
pub fn clip(ranges: &[Range], limit: usize, total: usize) -> (clipped: Vec<Range>)
    ensures
        clipped@ == clip_ranges(ranges@, limit as int, total as int),
{
    let mut clipped: Vec<Range> = Vec::new();
    let mut i: usize = 0;
    proof {
        assert(ranges@.skip(0) == ranges@);
    }
    while i < ranges.len()
        invariant
            i <= ranges.len(),
            clip_ranges(ranges@, limit as int, total as int) == clipped@ + clip_ranges(
                ranges@.skip(i as int),
                limit as int,
                total as int,
            ),
        decreases ranges.len() - i,
    {
        let range = ranges[i];
        let ghost rest = ranges@.skip(i as int);
        assert(rest.drop_first() == ranges@.skip(i + 1));
        if limit < range.end {
            if range.start < limit {
                clipped.push(Range::new(range.start, total));
            } else {
                clipped.push(Range::new(limit, total));
            }
            return clipped;
        }
        clipped.push(range);
        i += 1;
    }
    clipped
}

/// Cuts one span into its pieces and appends them to `out`. Gives up, and
/// says so, at the first cut that falls inside a character.
fn split_span(
    span: &Span,
    start: usize,
    bound: usize,
    marks: &[Range],
    matched: Style,
    not_matched: Style,
    out: &mut Vec<Span>,
    Ghost(line): Ghost<HighlightView>,
    Ghost(i): Ghost<int>,
) -> (clean: bool)
    requires
        0 <= i < line.spans.len(),
        span@ == line.spans[i],
        start == line.start(i),
        bound == line.bound(i),
        line.start(i + 1) <= usize::MAX,
        marks@ == line.marks(),
        breaks_change_state(marks@, line.limit()),
        matched == line.matched_style,
        not_matched == line.not_matched_style,
    ensures
        clean ==> final(out).deep_view() == old(out).deep_view() + line.pieces(i, start as int),
        clean ==> forall|pos: int|
            line.start(i) < pos < line.start(i + 1) && pos <= line.limit() && line.is_cut(pos)
                ==> #[trigger] line.cut_is_clean(i, pos),
        !clean ==> !line.splits_cleanly(),
{
    let content = span.content.as_str();
    let ghost before = out.deep_view();
    let mut cursor = start;
    while cursor < bound
        invariant
            0 <= i < line.spans.len(),
            span@ == line.spans[i],
            content@ == span@.content,
            start == line.start(i),
            bound == line.bound(i),
            line.start(i + 1) == start + byte_len(content@),
            marks@ == line.marks(),
            breaks_change_state(marks@, line.limit()),
            matched == line.matched_style,
            not_matched == line.not_matched_style,
            start <= cursor,
            start < bound ==> cursor <= bound,
            on_char_boundary(content@, cursor - start),
            out.deep_view() + line.pieces(i, cursor as int) == before + line.pieces(
                i,
                start as int,
            ),
            forall|pos: int|
                start < pos <= cursor && pos < line.start(i + 1) && line.is_cut(pos)
                    ==> #[trigger] line.cut_is_clean(i, pos),
        decreases bound - cursor,
    {
        let found = find_next_break(cursor, marks);
        let next = match found {
            Some(at) => if at < bound {
                at
            } else {
                bound
            },
            None => bound,
        };
        proof {
            lemma_run_ends_at_break(marks@, cursor as int, bound as int, line.limit(), found);
            lemma_run_end(marks@, cursor as int, bound as int);
        }
        if !content.is_char_boundary(next - start) {
            proof {
                assert(!line.cut_is_clean(i, next as int));
            }
            return false;
        }
        let piece = slice(content, cursor - start, next - start);
        let overlay = if is_covered(marks, cursor) {
            matched
        } else {
            not_matched
        };
        let cut = Span { content: piece, style: patch_style(span.style, overlay) };
        out.push(cut);
        proof {
            assert forall|pos: int|
                start < pos <= next && pos < line.start(i + 1) && line.is_cut(pos)
                    implies #[trigger] line.cut_is_clean(i, pos) by {}
        }
        cursor = next;
    }
    true
}

/// Cuts every span into its pieces, or finds a cut that falls inside a
/// character.
fn split_spans(
    spans: &Vec<Span>,
    marks: &[Range],
    limit: usize,
    matched: Style,
    not_matched: Style,
    Ghost(line): Ghost<HighlightView>,
) -> (out: Option<Vec<Span>>)
    requires
        spans.deep_view() == line.spans,
        marks@ == line.marks(),
        limit == line.limit(),
        line.total() <= usize::MAX,
        breaks_change_state(marks@, line.limit()),
        matched == line.matched_style,
        not_matched == line.not_matched_style,
    ensures
        match out {
            Some(pieces) => {
                &&& line.splits_cleanly()
                &&& pieces.deep_view() == line.pieces_upto(line.spans.len() as int)
            },
            None => !line.splits_cleanly(),
        },
{
    let mut out: Vec<Span> = Vec::new();
    let mut current_pos: usize = 0;
    let mut i: usize = 0;
    while i < spans.len()
        invariant
            i <= spans.len(),
            spans.deep_view() == line.spans,
            marks@ == line.marks(),
            limit == line.limit(),
            line.total() <= usize::MAX,
            breaks_change_state(marks@, line.limit()),
            matched == line.matched_style,
            not_matched == line.not_matched_style,
            current_pos == line.start(i as int),
            out.deep_view() == line.pieces_upto(i as int),
            forall|k: int, pos: int|
                0 <= k < i && line.start(k) < pos < line.start(k + 1) && pos <= line.limit()
                    && line.is_cut(pos) ==> #[trigger] line.cut_is_clean(k, pos),
        decreases spans.len() - i,
    {
        let span = &spans[i];
        proof {
            lemma_offset_monotonic(line.spans, i + 1, line.spans.len() as int);
        }
        let span_end = current_pos + byte_length(span.content.as_str());
        let bound = if span_end <= limit {
            span_end
        } else {
            limit
        };
        if !split_span(
            span,
            current_pos,
            bound,
            marks,
            matched,
            not_matched,
            &mut out,
            Ghost(line),
            Ghost(i as int),
        ) {
            return None;
        }
        current_pos = span_end;
        i += 1;
    }
    Some(out)
}

/// A line of spans in which matched text is to be highlighted.
pub struct HigilightMatchedText {
    spans: Vec<Span>,
    matches: Vec<Range>,
    not_matched_style: Style,
    matched_style: Style,
    ellipsis: Option<String>,
}

/// Starts with the spans of a line: nothing is matched, both styles are
/// plain, and there is no ellipsis.
pub fn highlight_matched_text(spans: Vec<Span>) -> (text: HigilightMatchedText)
    ensures
        text@.spans == spans.deep_view(),
        text@.matches == Seq::<Range>::empty(),
        is_plain(text@.not_matched_style),
        is_plain(text@.matched_style),
        text@.ellipsis is None,
{
    HigilightMatchedText {
        spans,
        matches: Vec::new(),
        not_matched_style: default_style(),
        matched_style: default_style(),
        ellipsis: None,
    }
}

impl View for HigilightMatchedText {
    type V = HighlightView;

    closed spec fn view(&self) -> HighlightView {
        HighlightView {
            spans: self.spans.deep_view(),
            matches: self.matches@,
            not_matched_style: self.not_matched_style,
            matched_style: self.matched_style,
            ellipsis: match self.ellipsis {
                Some(ellipsis) => Some(ellipsis@),
                None => None,
            },
        }
    }
}

impl HigilightMatchedText {
    /// The matched ranges are always merged.
    #[verifier::type_invariant]
    spec fn matches_are_merged(&self) -> bool {
        is_merged(self.matches@)
    }

    /// Marks the text at the given offsets as matched, in place of what was
    /// marked before. The offsets may come in any order, and more than once.
    pub fn matched_indices(self, indices: Vec<usize>) -> (text: Self)
        ensures
            is_merge_of(text@.matches, indices@),
            text@ == (HighlightView { matches: text@.matches, ..self@ }),
    {
        HigilightMatchedText { matches: to_ranges(indices), ..self }
    }

    /// Marks the text from `start` up to `end` as matched, in place of what
    /// was marked before. Where `start` is not below `end`, nothing is
    /// marked.
    pub fn matched_range(self, start: usize, end: usize) -> (text: Self)
        ensures
            text@ == (HighlightView {
                matches: if start < end {
                    seq![Range { start, end }]
                } else {
                    Seq::empty()
                },
                ..self@
            }),
    {
        let mut matches: Vec<Range> = Vec::new();
        if start < end {
            matches.push(Range::new(start, end));
        }
        HigilightMatchedText { matches, ..self }
    }

    /// Sets the style that is patched onto text that is not matched.
    pub fn not_matched_style(self, style: Style) -> (text: Self)
        ensures
            text@ == (HighlightView { not_matched_style: style, ..self@ }),
    {
        proof {
            use_type_invariant(&self);
        }
        HigilightMatchedText { not_matched_style: style, ..self }
    }

    /// Sets the foreground colour of text that is not matched.
    pub fn not_matched_fg(self, color: Color) -> (text: Self)
        ensures
            text@ == (HighlightView {
                not_matched_style: with_fg(self@.not_matched_style, color),
                ..self@
            }),
    {
        proof {
            use_type_invariant(&self);
        }
        HigilightMatchedText { not_matched_style: style_fg(self.not_matched_style, color), ..self }
    }

    /// Sets the background colour of text that is not matched.
    pub fn not_matched_bg(self, color: Color) -> (text: Self)
        ensures
            text@ == (HighlightView {
                not_matched_style: with_bg(self@.not_matched_style, color),
                ..self@
            }),
    {
        proof {
            use_type_invariant(&self);
        }
        HigilightMatchedText { not_matched_style: style_bg(self.not_matched_style, color), ..self }
    }

    /// Adds a modifier to the style of text that is not matched.
    pub fn not_matched_modifier(self, modifier: Modifier) -> (text: Self)
        ensures
            text@ == (HighlightView {
                not_matched_style: with_modifier(self@.not_matched_style, modifier),
                ..self@
            }),
    {
        proof {
            use_type_invariant(&self);
        }
        HigilightMatchedText {
            not_matched_style: style_add_modifier(self.not_matched_style, modifier),
            ..self
        }
    }

    /// Sets the style that is patched onto matched text.
    pub fn matched_style(self, style: Style) -> (text: Self)
        ensures
            text@ == (HighlightView { matched_style: style, ..self@ }),
    {
        proof {
            use_type_invariant(&self);
        }
        HigilightMatchedText { matched_style: style, ..self }
    }

    /// Sets the foreground colour of matched text.
    pub fn matched_fg(self, color: Color) -> (text: Self)
        ensures
            text@ == (HighlightView {
                matched_style: with_fg(self@.matched_style, color),
                ..self@
            }),
    {
        proof {
            use_type_invariant(&self);
        }
        HigilightMatchedText { matched_style: style_fg(self.matched_style, color), ..self }
    }

    /// Sets the background colour of matched text.
    pub fn matched_bg(self, color: Color) -> (text: Self)
        ensures
            text@ == (HighlightView {
                matched_style: with_bg(self@.matched_style, color),
                ..self@
            }),
    {
        proof {
            use_type_invariant(&self);
        }
        HigilightMatchedText { matched_style: style_bg(self.matched_style, color), ..self }
    }

    /// Adds a modifier to the style of matched text.
    pub fn matched_modifier(self, modifier: Modifier) -> (text: Self)
        ensures
            text@ == (HighlightView {
                matched_style: with_modifier(self@.matched_style, modifier),
                ..self@
            }),
    {
        proof {
            use_type_invariant(&self);
        }
        HigilightMatchedText {
            matched_style: style_add_modifier(self.matched_style, modifier),
            ..self
        }
    }

    /// Lets the line end in `ellipsis`: the text is put out only up to
    /// where the ellipsis would start if it took the place of the text's
    /// last bytes.
    pub fn ellipsis(self, ellipsis: &str) -> (text: Self)
        ensures
            text@ == (HighlightView { ellipsis: Some(ellipsis@), ..self@ }),
    {
        proof {
            use_type_invariant(&self);
        }
        HigilightMatchedText { ellipsis: Some(ellipsis.to_owned()), ..self }
    }

    /// The highlighted line, or nothing if it cannot be had: if the text is
    /// longer than a `usize` can say, or a cut would fall inside a
    /// character.
    pub fn try_into_spans(self) -> (out: Option<Vec<Span>>)
        ensures
            match out {
                Some(spans) => self@.can_split() && spans.deep_view() == self@.highlighted(),
                None => !self@.can_split(),
            },
    {
        proof {
            use_type_invariant(&self);
        }
        let ghost line = self@;
        if self.spans.len() == 0 {
            let out: Vec<Span> = Vec::new();
            return Some(out);
        }
        let total = match total_length(&self.spans) {
            Some(total) => total,
            None => {
                return None;
            },
        };
        match &self.ellipsis {
            Some(ellipsis) => {
                let limit = total.saturating_sub(byte_length(ellipsis.as_str()));
                let marks = clip(self.matches.as_slice(), limit, total);
                proof {
                    lemma_clip_breaks_change_state(self.matches@, limit as int, total as int);
                }
                match split_spans(
                    &self.spans,
                    marks.as_slice(),
                    limit,
                    self.matched_style,
                    self.not_matched_style,
                    Ghost(line),
                ) {
                    Some(pieces) => {
                        let mut out = pieces;
                        let style = if is_covered(marks.as_slice(), limit) {
                            self.matched_style
                        } else {
                            self.not_matched_style
                        };
                        let last = Span { content: ellipsis.clone(), style };
                        out.push(last);
                        Some(out)
                    },
                    None => None,
                }
            },
            None => {
                proof {
                    lemma_merged_breaks_change_state(self.matches@, total as int);
                }
                let out = split_spans(
                    &self.spans,
                    self.matches.as_slice(),
                    total,
                    self.matched_style,
                    self.not_matched_style,
                    Ghost(line),
                );
                out
            },
        }
    }

    /// The highlighted line. Without an ellipsis it holds the text given,
    /// cut into other pieces; without matches too, it holds the spans given,
    /// but for the empty ones, each patched with the style for unmatched
    /// text. With an ellipsis it holds the text up to the limit, and then
    /// the ellipsis.
    pub fn into_spans(self) -> (out: Vec<Span>)
        requires
            self@.can_split(),
        ensures
            out.deep_view() == self@.highlighted(),
            self@.ellipsis is None ==> concat(out.deep_view()) == concat(self@.spans),
            self@.ellipsis is Some && self@.spans.len() > 0 ==> concat(out.deep_view())
                == self@.kept_upto(self@.spans.len() as int) + self@.ellipsis->0,
            self@.ellipsis is None && self@.matches.len() == 0 ==> out.deep_view()
                == restyled_upto(
                self@.spans,
                self@.not_matched_style,
                self@.spans.len() as int,
            ),
    {
        proof {
            if self@.ellipsis is Some && self@.spans.len() > 0 {
                self@.lemma_content_before_ellipsis();
            }
            if self@.ellipsis is None {
                self@.lemma_content_preserved();
                if self@.matches.len() == 0 {
                    self@.lemma_unmatched_line();
                }
            }
        }
        match self.try_into_spans() {
            Some(out) => out,
            None => unreached(),
        }
    }
}

} // verus!
