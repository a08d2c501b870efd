//! Truncation of a line of spans to a number of display columns.

use crate::style::{
    default_style, is_plain, style_add_modifier, style_bg, style_fg, with_bg, with_fg,
    with_modifier,
};
use crate::text::{Span, SpanView};
use crate::width::{measure_text_width, text_width, truncate_str, truncated_text};
use ratatui::style::{Color, Modifier, Style};
use vstd::prelude::*;
use vstd::string::*;

verus! {

/// How a line is made to fit.
#[derive(Debug, Clone, Copy, PartialEq, Eq)]
pub enum Fit {
    /// The line fits as it is.
    All,
    /// There is room for nothing but the ellipsis, or a part of it.
    EllipsisOnly,
    /// The first `kept` spans stay. The span after them is cut to `rest`
    /// columns, and the ellipsis follows.
    Cut { kept: usize, rest: usize },
}

/// The sum of the first `n` widths.
pub open spec fn sum_upto(widths: Seq<usize>, n: int) -> int
    decreases n,
{
    if n <= 0 {
        0
    } else {
        sum_upto(widths, n - 1) + widths[n - 1]
    }
}

/// The index of the first span, at `from` or after it, that is wider than
/// what is left of `budget` once the spans from `from` up to it have taken
/// their columns; the number of spans, if all of them fit.
pub open spec fn first_over(widths: Seq<usize>, from: int, budget: int) -> int
    decreases widths.len() - from,
{
    if from >= widths.len() {
        widths.len() as int
    } else if widths[from] > budget {
        from
    } else {
        first_over(widths, from + 1, budget - widths[from])
    }
}

/// How a line of spans with these widths is made to fit `max_width`
/// columns, with an ellipsis of `ellipsis_width` columns.
pub open spec fn fit_for(widths: Seq<usize>, max_width: int, ellipsis_width: int) -> Fit {
    if sum_upto(widths, widths.len() as int) <= max_width {
        Fit::All
    } else if ellipsis_width >= max_width {
        Fit::EllipsisOnly
    } else {
        let budget = max_width - ellipsis_width;
        let kept = first_over(widths, 0, budget);
        Fit::Cut { kept: kept as usize, rest: (budget - sum_upto(widths, kept)) as usize }
    }
}

/// Sums of widths grow with the number of widths summed.
pub proof fn lemma_sum_monotonic(widths: Seq<usize>, i: int, j: int)
    requires
        i <= j,
    ensures
        0 <= sum_upto(widths, i) <= sum_upto(widths, j),
    decreases j,
{
    if j > 0 {
        if i == j {
            lemma_sum_monotonic(widths, i - 1, j - 1);
        } else {
            lemma_sum_monotonic(widths, i, j - 1);
        }
    }
}

/// Decides how a line of spans with these widths is made to fit.
pub fn plan_fit(widths: &[usize], max_width: usize, ellipsis_width: usize) -> (fit: Fit)
    ensures
        fit == fit_for(widths@, max_width as int, ellipsis_width as int),
        fit matches Fit::Cut { kept, rest } ==> kept < widths@.len() && rest < widths@[kept as int],
{
    let mut left = max_width;
    let mut i: usize = 0;
    while i < widths.len() && widths[i] <= left
        invariant
            i <= widths.len(),
            left == max_width - sum_upto(widths@, i as int),
        decreases widths.len() - i,
    {
        left -= widths[i];
        i += 1;
    }
    proof {
        lemma_sum_monotonic(widths@, i as int, widths@.len() as int);
        if i < widths.len() {
            lemma_sum_monotonic(widths@, i + 1, widths@.len() as int);
        }
    }
    if i == widths.len() {
        return Fit::All;
    }
    if ellipsis_width >= max_width {
        return Fit::EllipsisOnly;
    }
    let budget = max_width - ellipsis_width;
    let mut rest = budget;
    let mut kept: usize = 0;
    proof {
        lemma_first_over_exists(widths@, budget as int);
    }
    while widths[kept] <= rest
        invariant
            kept < widths.len(),
            rest == budget - sum_upto(widths@, kept as int),
            first_over(widths@, 0, budget as int) == first_over(widths@, kept as int, rest as int),
            first_over(widths@, 0, budget as int) < widths@.len(),
        decreases widths.len() - kept,
    {
        rest -= widths[kept];
        kept += 1;
        proof {
            lemma_first_over_bounds(widths@, kept as int, rest as int);
        }
    }
    Fit::Cut { kept, rest }
}

/// Where the widths sum to more than the budget, some span is the first
/// that does not fit.
proof fn lemma_first_over_exists(widths: Seq<usize>, budget: int)
    requires
        0 <= budget < sum_upto(widths, widths.len() as int),
    ensures
        first_over(widths, 0, budget) < widths.len(),
{
    lemma_first_over_from(widths, 0, budget);
}

/// The first span that does not fit is looked for from `from` on.
proof fn lemma_first_over_bounds(widths: Seq<usize>, from: int, left: int)
    requires
        0 <= from <= widths.len(),
    ensures
        from <= first_over(widths, from, left) <= widths.len(),
    decreases widths.len() - from,
{
    if from < widths.len() && widths[from] <= left {
        lemma_first_over_bounds(widths, from + 1, left - widths[from]);
    }
}

/// Where the widths from `from` on sum to more than what is left, one of
/// them is the first that does not fit.
proof fn lemma_first_over_from(widths: Seq<usize>, from: int, left: int)
    requires
        0 <= from <= widths.len(),
        0 <= left,
        sum_upto(widths, widths.len() as int) - sum_upto(widths, from) > left,
    ensures
        from <= first_over(widths, from, left) < widths.len(),
    decreases widths.len() - from,
{
    if from < widths.len() && widths[from] <= left {
        lemma_first_over_from(widths, from + 1, left - widths[from]);
    }
}

/// A line of spans to truncate, with all that decides how: the number of
/// columns to fit, and the ellipsis with its style.
pub ghost struct TruncateView {
    pub spans: Seq<SpanView>,
    pub max_width: nat,
    pub ellipsis: Seq<char>,
    pub ellipsis_style: Style,
}

impl TruncateView {
    /// The display width of each span.
    pub open spec fn widths(self) -> Seq<usize> {
        Seq::new(self.spans.len(), |i: int| text_width(self.spans[i].content) as usize)
    }

    /// The display width of the whole line.
    pub open spec fn total_width(self) -> int {
        sum_upto(self.widths(), self.spans.len() as int)
    }

    /// How the line is made to fit.
    pub open spec fn fit(self) -> Fit {
        fit_for(self.widths(), self.max_width as int, text_width(self.ellipsis) as int)
    }

    /// The span that holds the ellipsis.
    pub open spec fn ellipsis_span(self) -> SpanView {
        SpanView { content: self.ellipsis, style: self.ellipsis_style }
    }

    /// The truncated line.
    pub open spec fn truncated(self) -> Seq<SpanView> {
        match self.fit() {
            Fit::All => self.spans,
            Fit::EllipsisOnly => seq![
                SpanView {
                    content: truncated_text(self.ellipsis, self.max_width, Seq::empty()),
                    style: self.ellipsis_style,
                },
            ],
            Fit::Cut { kept, rest } => self.spans.take(kept as int) + self.cut_span(
                kept as int,
                rest as nat,
            ) + self.ellipsis_if_any(),
        }
    }

    /// Span `at`, cut to `rest` columns; nothing, if nothing is left of it.
    pub open spec fn cut_span(self, at: int, rest: nat) -> Seq<SpanView> {
        let cut = truncated_text(self.spans[at].content, rest, Seq::empty());
        if cut.len() > 0 {
            seq![SpanView { content: cut, style: self.spans[at].style }]
        } else {
            Seq::empty()
        }
    }

    /// The span that holds the ellipsis; nothing, if the ellipsis is empty.
    pub open spec fn ellipsis_if_any(self) -> Seq<SpanView> {
        if self.ellipsis.len() > 0 {
            seq![self.ellipsis_span()]
        } else {
            Seq::empty()
        }
    }
}

/// A line of spans that is to be truncated to a number of display columns.
pub struct TruncateSpans<'a> {
    spans: Vec<Span>,
    max_width: usize,
    ellipsis: &'a str,
    ellipsis_style: Style,
}

/// Starts with the spans of a line and the number of columns it may take.
/// The ellipsis is empty, and its style plain.
pub fn truncate_spans<'a>(spans: Vec<Span>, max_width: usize) -> (line: TruncateSpans<'a>)
    ensures
        line@.spans == spans.deep_view(),
        line@.max_width == max_width,
        line@.ellipsis == Seq::<char>::empty(),
        is_plain(line@.ellipsis_style),
{
    proof {
        reveal_strlit("");
    }
    TruncateSpans { spans, max_width, ellipsis: "", ellipsis_style: default_style() }
}

impl<'a> View for TruncateSpans<'a> {
    type V = TruncateView;

    closed spec fn view(&self) -> TruncateView {
        TruncateView {
            spans: self.spans.deep_view(),
            max_width: self.max_width as nat,
            ellipsis: self.ellipsis@,
            ellipsis_style: self.ellipsis_style,
        }
    }
}

/// The display width of each span.
fn measure_spans(spans: &Vec<Span>) -> (widths: Vec<usize>)
    ensures
        widths@.len() == spans@.len(),
        forall|i: int|
            0 <= i < spans@.len() ==> #[trigger] widths@[i] == text_width(spans@[i]@.content),
{
    let mut widths: Vec<usize> = Vec::new();
    let mut i: usize = 0;
    while i < spans.len()
        invariant
            i <= spans.len(),
            widths@.len() == i,
            forall|k: int| 0 <= k < i ==> #[trigger] widths@[k] == text_width(spans@[k]@.content),
        decreases spans.len() - i,
    {
        widths.push(measure_text_width(spans[i].content.as_str()));
        i += 1;
    }
    widths
}

impl<'a> TruncateSpans<'a> {
    /// Sets the text that stands for what was cut off.
    pub fn ellipsis(self, ellipsis: &'a str) -> (line: Self)
        ensures
            line@ == (TruncateView { ellipsis: ellipsis@, ..self@ }),
    {
        TruncateSpans { ellipsis, ..self }
    }

    /// Sets the style of the ellipsis.
    pub fn ellipsis_style(self, style: Style) -> (line: Self)
        ensures
            line@ == (TruncateView { ellipsis_style: style, ..self@ }),
    {
        TruncateSpans { ellipsis_style: style, ..self }
    }

    /// Sets the foreground colour of the ellipsis.
    pub fn ellipsis_fg(self, color: Color) -> (line: Self)
        ensures
            line@ == (TruncateView {
                ellipsis_style: with_fg(self@.ellipsis_style, color),
                ..self@
            }),
    {
        TruncateSpans { ellipsis_style: style_fg(self.ellipsis_style, color), ..self }
    }

    /// Sets the background colour of the ellipsis.
    pub fn ellipsis_bg(self, color: Color) -> (line: Self)
        ensures
            line@ == (TruncateView {
                ellipsis_style: with_bg(self@.ellipsis_style, color),
                ..self@
            }),
    {
        TruncateSpans { ellipsis_style: style_bg(self.ellipsis_style, color), ..self }
    }

    /// Adds a modifier to the style of the ellipsis.
    pub fn ellipsis_modifier(self, modifier: Modifier) -> (line: Self)
        ensures
            line@ == (TruncateView {
                ellipsis_style: with_modifier(self@.ellipsis_style, modifier),
                ..self@
            }),
    {
        TruncateSpans { ellipsis_style: style_add_modifier(self.ellipsis_style, modifier), ..self }
    }

    /// The truncated line. A line that fits is returned as it is.
    pub fn into_spans(self) -> (out: Vec<Span>)
        ensures
            out.deep_view() == self@.truncated(),
            self@.total_width() <= self@.max_width ==> out.deep_view() == self@.spans,
    {
        let ghost line = self@;
        let widths = measure_spans(&self.spans);
        let ellipsis_width = measure_text_width(self.ellipsis);
        proof {
            reveal_strlit("");
            assert(""@ == Seq::<char>::empty());
            assert(widths@ == line.widths());
        }
        match plan_fit(widths.as_slice(), self.max_width, ellipsis_width) {
            Fit::All => self.spans,
            Fit::EllipsisOnly => {
                let mut out: Vec<Span> = Vec::new();
                let only = Span {
                    content: truncate_str(self.ellipsis, self.max_width, ""),
                    style: self.ellipsis_style,
                };
                out.push(only);
                out
            },
            Fit::Cut { kept, rest } => {
                let mut out = self.spans;
                let cut = truncate_str(out[kept].content.as_str(), rest, "");
                let style = out[kept].style;
                out.truncate(kept);
                if !cut.as_str().is_empty() {
                    let last = Span { content: cut, style };
                    out.push(last);
                }
                if !self.ellipsis.is_empty() {
                    let last =
                        Span { content: self.ellipsis.to_owned(), style: self.ellipsis_style };
                    out.push(last);
                }
                out
            },
        }
    }
}

} // verus!
