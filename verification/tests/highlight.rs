use laurier::highlight::highlight_matched_text;
use laurier::text::Span;
use ratatui::style::{Color, Modifier, Style};

#[test]
fn test_highlight_matched_text_matched_indices() {
    let s = "abcdefghijklmn";
    let actual = highlight_matched_text(vec![Span::raw(s)])
        .matched_indices(vec![2, 3, 4, 7, 9, 10]) // "cde", "h", "jk"
        .into_spans();
    let expected = vec![
        Span::raw("ab"),
        Span::raw("cde"),
        Span::raw("fg"),
        Span::raw("h"),
        Span::raw("i"),
        Span::raw("jk"),
        Span::raw("lmn"),
    ];
    assert_eq!(actual, expected);
}

#[test]
fn test_highlight_matched_text_matched_range() {
    let s = "abcdef";
    let actual = highlight_matched_text(vec![Span::raw(s)])
        .matched_range(2, 4) // "cd"
        .into_spans();
    let expected = vec![Span::raw("ab"), Span::raw("cd"), Span::raw("ef")];
    assert_eq!(actual, expected);
}

#[test]
fn test_highlight_matched_text_styles() {
    let s = "abcdef";
    let not_matched_style = Style::default()
        .fg(Color::Gray)
        .add_modifier(Modifier::ITALIC);
    let matched_style = Style::default()
        .fg(Color::Yellow)
        .bg(Color::Blue)
        .add_modifier(Modifier::BOLD);
    let actual = highlight_matched_text(vec![Span::raw(s)])
        .matched_indices(vec![0, 1, 5]) // "ab", "f"
        .not_matched_style(not_matched_style)
        .matched_style(matched_style)
        .into_spans();
    let expected = vec![
        Span::styled("ab", matched_style),
        Span::styled("cde", not_matched_style),
        Span::styled("f", matched_style),
    ];
    assert_eq!(actual, expected);
}

#[test]
fn test_highlight_matched_text_ellipsis_1() {
    let s = "abcdef...";
    let not_matched_style = Style::default();
    let matched_style = Style::default().fg(Color::Red);
    let actual = highlight_matched_text(vec![Span::raw(s)])
        .matched_indices(vec![3, 4, 5]) // "def"
        .not_matched_style(not_matched_style)
        .matched_style(matched_style)
        .ellipsis("...")
        .into_spans();
    let expected = vec![
        Span::styled("abc", not_matched_style),
        Span::styled("def", matched_style),
        Span::styled("...", not_matched_style),
    ];
    assert_eq!(actual, expected);
}

#[test]
fn test_highlight_matched_text_ellipsis_2() {
    let s = "abcdef...";
    let not_matched_style = Style::default();
    let matched_style = Style::default().fg(Color::Red);
    let actual = highlight_matched_text(vec![Span::raw(s)])
        .matched_indices(vec![3, 4, 5, 6]) // "def."
        .not_matched_style(not_matched_style)
        .matched_style(matched_style)
        .ellipsis("...")
        .into_spans();
    let expected = vec![
        Span::styled("abc", not_matched_style),
        Span::styled("def", matched_style),
        Span::styled("...", matched_style),
    ];
    assert_eq!(actual, expected);
}

#[test]
fn test_highlight_matched_text_ellipsis_3() {
    let s = "abcdef...";
    let not_matched_style = Style::default();
    let matched_style = Style::default().fg(Color::Red);
    let actual = highlight_matched_text(vec![Span::raw(s)])
        .matched_indices(vec![0, 1, 7, 10, 11]) // "ab", ".", "??"
        .not_matched_style(not_matched_style)
        .matched_style(matched_style)
        .ellipsis("...")
        .into_spans();
    let expected = vec![
        Span::styled("ab", matched_style),
        Span::styled("cdef", not_matched_style),
        Span::styled("...", matched_style),
    ];
    assert_eq!(actual, expected);
}

#[test]
fn test_highlight_matched_text_ellipsis_4() {
    let s = "abcdef...";
    let not_matched_style = Style::default();
    let matched_style = Style::default().fg(Color::Red);
    let actual = highlight_matched_text(vec![Span::raw(s)])
        .matched_indices(vec![3, 4, 5, 9, 10, 11]) // "def", "???"
        .not_matched_style(not_matched_style)
        .matched_style(matched_style)
        .ellipsis("...")
        .into_spans();
    let expected = vec![
        Span::styled("abc", not_matched_style),
        Span::styled("def", matched_style),
        Span::styled("...", matched_style),
    ];
    assert_eq!(actual, expected);
}

#[test]
fn test_highlight_with_spans_no_style() {
    let s = vec![Span::raw("abc"), Span::raw("def"), Span::raw("ghi")];
    let actual = highlight_matched_text(s)
        .matched_indices(vec![1, 2, 5, 6]) // "bc", "fg"
        .into_spans();
    let expected = vec![
        Span::raw("a"),
        Span::raw("bc"),
        Span::raw("de"),
        Span::raw("f"),
        Span::raw("g"),
        Span::raw("hi"),
    ];
    assert_eq!(actual, expected);
}

#[test]
fn test_highlight_with_spans_with_style() {
    let s = vec![
        Span::styled(
            "abc",
            Style::default()
                .fg(Color::Blue)
                .bg(Color::Black)
                .add_modifier(Modifier::BOLD),
        ),
        Span::styled(
            "def",
            Style::default()
                .fg(Color::Green)
                .bg(Color::Cyan)
                .add_modifier(Modifier::ITALIC),
        ),
        Span::styled(
            "ghi",
            Style::default()
                .fg(Color::Yellow)
                .bg(Color::Magenta)
                .add_modifier(Modifier::BOLD),
        ),
    ];
    let not_matched_style = Style::default().fg(Color::DarkGray);
    let matched_style = Style::default().bg(Color::Yellow);

    let actual = highlight_matched_text(s.clone())
        .matched_indices(vec![1, 2, 5, 6]) // "bc", "fg"
        .not_matched_style(not_matched_style)
        .matched_style(matched_style)
        .into_spans();

    let expected = vec![
        Span::styled("a", s[0].style.patch(not_matched_style)),
        Span::styled("bc", s[0].style.patch(matched_style)),
        Span::styled("de", s[1].style.patch(not_matched_style)),
        Span::styled("f", s[1].style.patch(matched_style)),
        Span::styled("g", s[2].style.patch(matched_style)),
        Span::styled("hi", s[2].style.patch(not_matched_style)),
    ];
    assert_eq!(actual, expected);
}

#[test]
fn matched_and_unmatched_pieces_alternate() {
    let matched = Style::default().fg(Color::Yellow);
    let not_matched = Style::default().fg(Color::Gray);
    let actual = highlight_matched_text(vec![Span::raw("abcdefghijklmn")])
        .matched_indices(vec![2, 3, 4, 7, 9, 10])
        .matched_style(matched)
        .not_matched_style(not_matched)
        .into_spans();
    let expected = vec![
        Span::styled("ab", not_matched),
        Span::styled("cde", matched),
        Span::styled("fg", not_matched),
        Span::styled("h", matched),
        Span::styled("i", not_matched),
        Span::styled("jk", matched),
        Span::styled("lmn", not_matched),
    ];
    assert_eq!(actual, expected);
}

fn red() -> Style {
    Style::default().fg(Color::Red)
}

fn contents(spans: &[Span]) -> String {
    spans.iter().map(|span| span.content.as_str()).collect()
}

#[test]
fn raw_span_has_the_default_style() {
    assert_eq!(Span::raw("abc").style, Style::default());
    assert_eq!(Span::raw("abc").content, "abc");
}

#[test]
fn matched_style_is_patched_onto_the_style_of_the_span() {
    let base = Style::default().fg(Color::Blue).bg(Color::Black);
    let actual = highlight_matched_text(vec![Span::styled("abc", base)])
        .matched_range(0, 3)
        .matched_style(Style::default().fg(Color::Red))
        .into_spans();
    let patched = Style::default().fg(Color::Red).bg(Color::Black);
    assert_ne!(patched, base);
    assert_eq!(actual, vec![Span::styled("abc", patched)]);
}

#[test]
fn unmatched_line_keeps_the_spans_and_patches_each() {
    let base = Style::default().bg(Color::Black);
    let dim = Style::default().add_modifier(Modifier::DIM);
    let actual = highlight_matched_text(vec![
        Span::styled("abc", base),
        Span::raw(""),
        Span::raw("def"),
    ])
    .not_matched_style(dim)
    .into_spans();
    let expected = vec![Span::styled("abc", base.patch(dim)), Span::styled("def", dim)];
    assert_eq!(actual, expected);
}

#[test]
fn highlighting_without_ellipsis_keeps_the_text() {
    let spans = vec![Span::raw("héllo "), Span::raw("wörld"), Span::raw("!")];
    let actual = highlight_matched_text(spans.clone())
        .matched_indices(vec![0, 3, 4, 7, 8, 9, 13])
        .matched_style(red())
        .into_spans();
    assert_eq!(contents(&actual), contents(&spans));
    assert_eq!(contents(&actual), "héllo wörld!");
    let expected = vec![
        Span::styled("h", red()),
        Span::raw("é"),
        Span::styled("ll", red()),
        Span::raw("o "),
        Span::styled("wö", red()),
        Span::raw("rld"),
        Span::styled("!", red()),
    ];
    assert_eq!(actual, expected);
}

#[test]
fn text_beyond_the_limit_is_left_out() {
    let spans = vec![Span::raw("abc"), Span::raw("def"), Span::raw("ghi"), Span::raw("jk")];
    let actual = highlight_matched_text(spans)
        .matched_indices(vec![1, 2, 3, 8, 9])
        .matched_style(red())
        .ellipsis("....")
        .into_spans();
    assert_eq!(contents(&actual), "abcdefg....");
    let expected = vec![
        Span::raw("a"),
        Span::styled("bc", red()),
        Span::styled("d", red()),
        Span::raw("ef"),
        Span::raw("g"),
        Span::styled("....", red()),
    ];
    assert_eq!(actual, expected);
}

#[test]
fn limit_at_the_end_of_a_span_keeps_the_span_whole() {
    let spans = vec![Span::raw("héé"), Span::raw("xyz")];
    let actual = highlight_matched_text(spans).ellipsis("...").into_spans();
    assert_eq!(actual, vec![Span::raw("héé"), Span::raw("...")]);
    assert_eq!(contents(&actual), "héé...");
}

#[test]
fn empty_line_stays_empty() {
    let actual = highlight_matched_text(vec![]).matched_indices(vec![0, 1]).into_spans();
    assert_eq!(actual, vec![]);
}

#[test]
fn empty_line_gets_no_ellipsis() {
    let actual = highlight_matched_text(vec![]).ellipsis("...").into_spans();
    assert_eq!(actual, vec![]);
}

#[test]
fn empty_content_gets_only_the_ellipsis() {
    let actual = highlight_matched_text(vec![Span::raw("")]).ellipsis("...").into_spans();
    assert_eq!(actual, vec![Span::raw("...")]);
}

#[test]
fn ellipsis_longer_than_the_text_leaves_only_the_ellipsis() {
    let actual = highlight_matched_text(vec![Span::raw("ab")])
        .matched_style(red())
        .ellipsis("...")
        .into_spans();
    assert_eq!(actual, vec![Span::raw("...")]);
}

#[test]
fn ellipsis_longer_than_matched_text_is_matched() {
    let actual = highlight_matched_text(vec![Span::raw("ab")])
        .matched_indices(vec![1])
        .matched_style(red())
        .ellipsis("...")
        .into_spans();
    assert_eq!(actual, vec![Span::styled("...", red())]);
}

#[test]
fn ellipsis_is_appended_where_no_range_passes_the_limit() {
    let actual = highlight_matched_text(vec![Span::raw("abcdef")])
        .matched_indices(vec![0])
        .matched_style(red())
        .ellipsis("..")
        .into_spans();
    let expected = vec![Span::styled("a", red()), Span::raw("bcd"), Span::raw("..")];
    assert_eq!(actual, expected);
}

#[test]
fn range_that_starts_at_the_limit_marks_the_ellipsis() {
    let actual = highlight_matched_text(vec![Span::raw("abcdef...")])
        .matched_range(6, 8)
        .matched_style(red())
        .ellipsis("...")
        .into_spans();
    let expected = vec![Span::raw("abcdef"), Span::styled("...", red())];
    assert_eq!(actual, expected);
}

#[test]
fn range_that_ends_at_the_limit_leaves_the_ellipsis_unmatched() {
    let actual = highlight_matched_text(vec![Span::raw("abcdef...")])
        .matched_range(4, 6)
        .matched_style(red())
        .ellipsis("...")
        .into_spans();
    let expected = vec![Span::raw("abcd"), Span::styled("ef", red()), Span::raw("...")];
    assert_eq!(actual, expected);
}

#[test]
fn ranges_after_the_first_past_the_limit_are_dropped() {
    let actual = highlight_matched_text(vec![Span::raw("abc"), Span::raw("def"), Span::raw("...")])
        .matched_indices(vec![1, 5, 6, 8])
        .matched_style(red())
        .ellipsis("...")
        .into_spans();
    let expected = vec![
        Span::raw("a"),
        Span::styled("b", red()),
        Span::raw("c"),
        Span::raw("de"),
        Span::styled("f", red()),
        Span::styled("...", red()),
    ];
    assert_eq!(actual, expected);
}

#[test]
fn empty_ellipsis_is_appended_too() {
    let actual = highlight_matched_text(vec![Span::raw("abc")])
        .matched_range(1, 9)
        .matched_style(red())
        .ellipsis("")
        .into_spans();
    let expected = vec![Span::raw("a"), Span::styled("bc", red()), Span::raw("")];
    assert_eq!(actual, expected);
}

#[test]
fn indices_beyond_the_text_show_nothing() {
    let actual = highlight_matched_text(vec![Span::raw("abc")])
        .matched_indices(vec![7, 8, usize::MAX])
        .matched_style(red())
        .into_spans();
    assert_eq!(actual, vec![Span::raw("abc")]);
}

#[test]
fn range_that_passes_the_end_is_matched_to_the_end() {
    let actual = highlight_matched_text(vec![Span::raw("abc")])
        .matched_range(2, usize::MAX)
        .matched_style(red())
        .into_spans();
    assert_eq!(actual, vec![Span::raw("ab"), Span::styled("c", red())]);
}

#[test]
fn range_that_is_empty_or_turned_round_marks_nothing() {
    let actual = highlight_matched_text(vec![Span::raw("abcdef")])
        .matched_range(4, 2)
        .matched_style(red())
        .into_spans();
    assert_eq!(actual, vec![Span::raw("abcdef")]);
    let actual = highlight_matched_text(vec![Span::raw("abcdef")])
        .matched_range(3, 3)
        .matched_style(red())
        .into_spans();
    assert_eq!(actual, vec![Span::raw("abcdef")]);
}

#[test]
fn later_matches_replace_earlier_ones() {
    let actual = highlight_matched_text(vec![Span::raw("abcdef")])
        .matched_indices(vec![0, 1])
        .matched_range(4, 6)
        .matched_style(red())
        .into_spans();
    assert_eq!(actual, vec![Span::raw("abcd"), Span::styled("ef", red())]);
}

#[test]
fn spans_are_not_joined_where_their_styles_agree() {
    let actual = highlight_matched_text(vec![Span::raw("ab"), Span::raw("cd")])
        .matched_indices(vec![1, 2])
        .matched_style(red())
        .into_spans();
    let expected = vec![
        Span::raw("a"),
        Span::styled("b", red()),
        Span::styled("c", red()),
        Span::raw("d"),
    ];
    assert_eq!(actual, expected);
}

#[test]
fn cut_inside_a_character_is_refused() {
    let line = highlight_matched_text(vec![Span::raw("aé")]).matched_indices(vec![2]);
    assert_eq!(line.try_into_spans(), None);
}

#[test]
fn limit_inside_a_character_is_refused() {
    let line = highlight_matched_text(vec![Span::raw("éé")]).ellipsis(".");
    assert_eq!(line.try_into_spans(), None);
}

#[test]
fn cut_between_characters_is_made() {
    let line = highlight_matched_text(vec![Span::raw("aé")])
        .matched_indices(vec![1, 2])
        .matched_style(red());
    let expected = vec![Span::raw("a"), Span::styled("é", red())];
    assert_eq!(line.try_into_spans(), Some(expected));
}

#[test]
fn cut_inside_a_character_beyond_the_limit_is_not_made() {
    let line = highlight_matched_text(vec![Span::raw("abé")])
        .matched_indices(vec![3])
        .matched_style(red())
        .ellipsis("é");
    let expected = vec![Span::raw("ab"), Span::styled("é", red())];
    assert_eq!(line.try_into_spans(), Some(expected));
}

#[test]
fn colours_and_modifiers_are_set_one_by_one() {
    let actual = highlight_matched_text(vec![Span::raw("abcd")])
        .matched_range(0, 2)
        .matched_fg(Color::Yellow)
        .matched_bg(Color::Blue)
        .matched_modifier(Modifier::BOLD)
        .not_matched_fg(Color::Gray)
        .not_matched_bg(Color::Black)
        .not_matched_modifier(Modifier::ITALIC)
        .into_spans();
    let matched = Style::default().fg(Color::Yellow).bg(Color::Blue).add_modifier(Modifier::BOLD);
    let not_matched =
        Style::default().fg(Color::Gray).bg(Color::Black).add_modifier(Modifier::ITALIC);
    assert_ne!(matched, Style::default());
    assert_ne!(not_matched, Style::default());
    assert_eq!(actual, vec![Span::styled("ab", matched), Span::styled("cd", not_matched)]);
}
