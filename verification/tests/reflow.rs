use tui::style::{Color, Style};
use tui_tree_widget::reflow::{measure, LineComposer, LineTruncator, WordWrapper};
use tui_tree_widget::text::{Alignment, StyledGrapheme};
use tui_tree_widget::truncate::{trim_offset, truncate_step, truncate_symbols, Truncation};

fn graphemes(symbols: &[&str]) -> Vec<StyledGrapheme> {
    symbols
        .iter()
        .map(|symbol| StyledGrapheme::new(symbol.to_string(), Style::default()))
        .collect()
}

fn split(text: &str) -> Vec<StyledGrapheme> {
    text.chars().map(|c| StyledGrapheme::new(c.to_string(), Style::default())).collect()
}

fn joined(line: &[StyledGrapheme]) -> String {
    line.iter().map(|grapheme| grapheme.symbol.as_str()).collect()
}

fn wrap_all(lines: Vec<(Vec<StyledGrapheme>, Alignment)>, max: u16, trim: bool) -> Vec<(String, u16, Alignment)> {
    let mut wrapper = WordWrapper::new(lines, max, trim);
    let mut all = Vec::new();
    while let Some((line, width, alignment)) = wrapper.next_line() {
        all.push((joined(&line), width, alignment));
    }
    assert!(wrapper.next_line().is_none());
    all
}

fn truncate_all(
    lines: Vec<(Vec<StyledGrapheme>, Alignment)>,
    max: u16,
    offset: u16,
) -> Vec<(Vec<String>, u16, Alignment)> {
    let mut truncator = LineTruncator::new(lines, max);
    truncator.set_horizontal_offset(offset);
    let mut all = Vec::new();
    while let Some((line, width, alignment)) = truncator.next_line() {
        all.push((line.iter().map(|g| g.symbol.clone()).collect(), width, alignment));
    }
    assert!(truncator.next_line().is_none());
    all
}

fn strings(symbols: &[&str]) -> Vec<String> {
    symbols.iter().map(|symbol| symbol.to_string()).collect()
}

#[test]
fn measure_gives_widths_and_whitespace() {
    let cells = measure(&graphemes(&[" ", "\u{a0}", "\u{5bbd}", "a", "", "\u{2003}", "e\u{301}"]));
    let widths = cells.iter().map(|cell| cell.width).collect::<Vec<_>>();
    let whitespace = cells.iter().map(|cell| cell.whitespace).collect::<Vec<_>>();
    assert_eq!(widths, vec![1, 1, 2, 1, 0, 1, 1]);
    assert_eq!(whitespace, vec![true, false, false, false, true, true, false]);
}

#[test]
fn word_wrapper_wraps_each_line_of_the_text() {
    let lines = vec![
        (split("aa bb cc"), Alignment::Left),
        (split(""), Alignment::Center),
        (split("abcdefghij"), Alignment::Right),
    ];
    assert_eq!(
        wrap_all(lines, 5, true),
        vec![
            ("aa bb".to_string(), 5, Alignment::Left),
            ("cc".to_string(), 2, Alignment::Left),
            ("".to_string(), 0, Alignment::Center),
            ("abcde".to_string(), 5, Alignment::Right),
            ("fghij".to_string(), 5, Alignment::Right),
        ]
    );
}

#[test]
fn word_wrapper_keeps_a_short_line_as_it_is() {
    let lines = vec![(split("a short line"), Alignment::Left)];
    assert_eq!(wrap_all(lines, 12, true), vec![("a short line".to_string(), 12, Alignment::Left)]);
    let lines = vec![(split("  indented"), Alignment::Left)];
    assert_eq!(wrap_all(lines, 20, false), vec![("  indented".to_string(), 10, Alignment::Left)]);
    let lines = vec![(split("  indented"), Alignment::Left)];
    assert_eq!(wrap_all(lines, 20, true), vec![("indented".to_string(), 8, Alignment::Left)]);
}

#[test]
fn word_wrapper_of_width_zero_gives_nothing() {
    let lines = vec![(split("aa bb"), Alignment::Left)];
    assert!(wrap_all(lines, 0, true).is_empty());
}

#[test]
fn word_wrapper_of_no_lines_gives_nothing() {
    assert!(wrap_all(Vec::new(), 10, true).is_empty());
}

#[test]
fn word_wrapper_does_not_break_at_a_no_break_space() {
    let lines = vec![(split("a\u{a0}b"), Alignment::Left)];
    assert_eq!(
        wrap_all(lines, 2, true),
        vec![("a\u{a0}".to_string(), 2, Alignment::Left), ("b".to_string(), 1, Alignment::Left)]
    );
    let lines = vec![(split("a b"), Alignment::Left)];
    assert_eq!(
        wrap_all(lines, 2, true),
        vec![("a".to_string(), 1, Alignment::Left), ("b".to_string(), 1, Alignment::Left)]
    );
}

#[test]
fn word_wrapper_counts_columns_not_characters() {
    let lines = vec![(split("\u{5bbd}\u{5bbd}\u{5bbd}"), Alignment::Left)];
    assert_eq!(
        wrap_all(lines, 4, true),
        vec![
            ("\u{5bbd}\u{5bbd}".to_string(), 4, Alignment::Left),
            ("\u{5bbd}".to_string(), 2, Alignment::Left),
        ]
    );
}

#[test]
fn word_wrapper_drops_a_fragment_that_is_wider_than_a_line() {
    let lines = vec![(split("a\u{5bbd}b"), Alignment::Left)];
    assert_eq!(
        wrap_all(lines, 1, true),
        vec![("a".to_string(), 1, Alignment::Left), ("b".to_string(), 1, Alignment::Left)]
    );
}

#[test]
fn word_wrapper_can_outgrow_the_width_with_wide_fragments() {
    let lines = vec![(split("a bcd\u{5bbd} "), Alignment::Left)];
    assert_eq!(
        wrap_all(lines, 4, true),
        vec![("a".to_string(), 1, Alignment::Left), ("bcd\u{5bbd}".to_string(), 5, Alignment::Left)]
    );
}

#[test]
fn word_wrapper_keeps_the_style_of_each_fragment() {
    let red = Style::default().fg(Color::Red);
    let line = vec![
        StyledGrapheme::new("a".to_string(), red),
        StyledGrapheme::new("b".to_string(), Style::default()),
    ];
    let mut wrapper = WordWrapper::new(vec![(line, Alignment::Left)], 10, true);
    let (line, _, _) = wrapper.next_line().unwrap();
    assert_eq!(line[0].style, red);
    assert_eq!(line[1].style, Style::default());
}

#[test]
fn line_truncator_cuts_each_line() {
    let lines = vec![
        (split("abcdef"), Alignment::Left),
        (split(""), Alignment::Right),
        (split("xy"), Alignment::Center),
    ];
    assert_eq!(
        truncate_all(lines, 4, 0),
        vec![
            (strings(&["a", "b", "c", "d"]), 4, Alignment::Left),
            (strings(&[]), 0, Alignment::Right),
            (strings(&["x", "y"]), 2, Alignment::Center),
        ]
    );
}

#[test]
fn line_truncator_of_width_zero_gives_nothing() {
    assert!(truncate_all(vec![(split("abc"), Alignment::Left)], 0, 0).is_empty());
}

#[test]
fn line_truncator_scrolls_lines_that_are_aligned_to_the_left() {
    let lines = vec![(split("abcdefgh"), Alignment::Left), (split("abcdefgh"), Alignment::Right)];
    assert_eq!(
        truncate_all(lines, 4, 2),
        vec![
            (strings(&["", "", "c", "d", "e", "f"]), 4, Alignment::Left),
            (strings(&["a", "b", "c", "d"]), 4, Alignment::Right),
        ]
    );
}

#[test]
fn line_truncator_cuts_a_fragment_that_is_partly_scrolled_out() {
    let lines = vec![(graphemes(&["ab\u{5bbd}", "c"]), Alignment::Left)];
    assert_eq!(
        truncate_all(lines, 10, 1),
        vec![(strings(&["b\u{5bbd}", "c"]), 4, Alignment::Left)]
    );
    let lines = vec![(graphemes(&["\u{5bbd}", "c"]), Alignment::Left)];
    assert_eq!(
        truncate_all(lines, 10, 1),
        vec![(strings(&["\u{5bbd}", "c"]), 3, Alignment::Left)]
    );
}

#[test]
fn line_truncator_passes_over_what_is_wider_than_a_line_and_stops_at_what_does_not_fit() {
    let lines = vec![(split("a\u{5bbd}b"), Alignment::Left)];
    assert_eq!(truncate_all(lines, 1, 0), vec![(strings(&["a"]), 1, Alignment::Left)]);
    let lines = vec![(split("ab\u{5bbd}c"), Alignment::Left)];
    assert_eq!(truncate_all(lines, 3, 0), vec![(strings(&["a", "b"]), 2, Alignment::Left)]);
}

#[test]
fn truncate_symbols_gives_the_line_and_its_width() {
    let (line, width) = truncate_symbols(&split("abcdef"), 0, true, 3);
    assert_eq!(joined(&line), "abc");
    assert_eq!(width, 3);
    let (line, width) = truncate_symbols(&split("abcdef"), 4, true, 3);
    assert_eq!(line.len(), 6);
    assert_eq!(joined(&line), "ef");
    assert_eq!(width, 2);
    let (line, width) = truncate_symbols(&split("abcdef"), 4, false, 3);
    assert_eq!(joined(&line), "abc");
    assert_eq!(width, 3);
}

#[test]
fn truncate_step_decides_for_each_fragment() {
    assert_eq!(truncate_step(5, 0, 0, true, 4), Truncation::Skip);
    assert_eq!(truncate_step(2, 3, 0, true, 4), Truncation::Stop);
    assert_eq!(truncate_step(2, 2, 0, true, 4), Truncation::Keep);
    assert_eq!(truncate_step(2, 0, 3, false, 4), Truncation::Keep);
    assert_eq!(truncate_step(2, 0, 3, true, 4), Truncation::Blank);
    assert_eq!(truncate_step(2, 0, 2, true, 4), Truncation::Blank);
    assert_eq!(truncate_step(2, 0, 1, true, 4), Truncation::Cut);
    assert_eq!(truncate_step(1, 70000, 0, true, 4), Truncation::Stop);
}

#[test]
fn trim_offset_starts_at_a_grapheme_boundary() {
    assert_eq!(trim_offset("hello", 2), "llo");
    assert_eq!(trim_offset("hello", 0), "hello");
    assert_eq!(trim_offset("abc", 10), "");
    assert_eq!(trim_offset("\u{5bbd}abc", 1), "\u{5bbd}abc");
    assert_eq!(trim_offset("\u{5bbd}abc", 2), "abc");
    assert_eq!(trim_offset("e\u{301}x", 1), "x");
    assert_eq!(trim_offset("", 3), "");
}

#[test]
fn line_truncator_never_outgrows_the_width_where_it_does_not_scroll() {
    let text = "ab\u{5bbd}cd \u{5bbd}\u{5bbd}e f";
    for max in 0..14u16 {
        for (_, width, _) in truncate_all(vec![(split(text), Alignment::Left)], max, 0) {
            assert!(width <= max);
        }
    }
}

#[test]
fn word_wrapper_gives_every_fragment_of_a_line_that_fits() {
    let text = "  two  words ";
    let all = wrap_all(vec![(split(text), Alignment::Left)], 13, false);
    assert_eq!(all, vec![(text.to_string(), 13, Alignment::Left)]);
    let all = wrap_all(vec![(split(text), Alignment::Left)], 13, true);
    assert_eq!(all, vec![("two  words ".to_string(), 11, Alignment::Left)]);
}
