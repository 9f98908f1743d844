use minipdf::layout::{
    char_display_width, flatten_spans, layout_spans_lines, layout_spans_lines_with_source, math_display_width,
    unicode_display_width, wrap_code_lines, wrap_text, BlockSource, LayoutToken,
};
use minipdf::preview::{
    blockquote_wrap_cols, drawn_line_source, list_item_budget, record_spacer_tail, wrap_table_row_cells,
    PreviewLayoutState,
};
use minipdf::spans::{InlineSpan, TextStyle};

#[test]
fn table_cell_wrapping_preserves_all_lines() {
    let row = vec![vec![InlineSpan { text: "abcdef".to_string(), style: TextStyle::default() }]];
    let wrapped = wrap_table_row_cells(&row, 3);
    assert_eq!(wrapped, vec![vec!["abc".to_string(), "def".to_string()]]);
}

#[test]
fn wrap_text_counts_cjk_width() {
    let s = "あいう";
    let lines = wrap_text(s, 4);
    assert_eq!(lines.len(), 2);
    assert_eq!(lines[0].chars().count(), 2);
    assert_eq!(lines[1].chars().count(), 1);
}

#[test]
fn wrap_code_lines_preserves_internal_blank_lines() {
    let wrapped = wrap_code_lines("alpha\n\nbeta\n", 80);
    assert_eq!(wrapped, vec!["alpha".to_string(), "".to_string(), "beta".to_string()]);
}

#[test]
fn display_width_counts_wide_characters_twice() {
    assert_eq!(unicode_display_width("ab"), 2);
    assert_eq!(unicode_display_width("あい"), 4);
    assert_eq!(unicode_display_width(""), 0);
}

fn plain(text: &str) -> InlineSpan {
    InlineSpan { text: text.to_string(), style: TextStyle::default() }
}

fn math(text: &str) -> InlineSpan {
    InlineSpan { text: text.to_string(), style: TextStyle { math: true, ..TextStyle::default() } }
}

fn line_text(line: &[InlineSpan]) -> String {
    line.iter().map(|s| s.text.as_str()).collect()
}

#[test]
fn char_widths_follow_east_asian_ranges() {
    assert_eq!(char_display_width('a'), 1);
    assert_eq!(char_display_width('\u{3000}'), 2);
    assert_eq!(char_display_width('漢'), 2);
    assert_eq!(char_display_width('ｱ'), 1);
    assert_eq!(char_display_width('Ａ'), 2);
    assert_eq!(math_display_width("x"), 4);
    assert_eq!(math_display_width("a+b=c"), 5);
}

#[test]
fn wrap_text_breaks_only_between_characters_and_keeps_paragraphs() {
    assert_eq!(wrap_text("", 4), vec!["".to_string()]);
    assert_eq!(wrap_text("abcdefg\nhi", 3), vec!["abc", "def", "g", "hi"]);
    assert_eq!(wrap_text("abc", 0), vec!["a", "b", "c"]);
}

#[test]
fn wrap_code_lines_breaks_long_lines_and_drops_trailing_newlines() {
    assert_eq!(wrap_code_lines("abcdefg\n\n\n", 3), vec!["abc", "def", "g"]);
    assert_eq!(wrap_code_lines("", 3), vec![""]);
    assert_eq!(wrap_code_lines("ab\r\ncd", 8), vec!["ab\r", "cd"]);
    for piece in wrap_code_lines("0123456789\nabcdefghij", 4) {
        assert!(piece.chars().count() <= 4);
    }
}

#[test]
fn flatten_spans_makes_breaks_chars_and_whole_math() {
    let toks = flatten_spans(&vec![plain("a\nb"), math("x^2")]);
    assert_eq!(toks.len(), 4);
    assert!(matches!(toks[0], LayoutToken::Char('a', _)));
    assert!(matches!(toks[1], LayoutToken::Break));
    assert!(matches!(toks[2], LayoutToken::Char('b', _)));
    assert!(matches!(&toks[3], LayoutToken::Math(e, st) if e == "x^2" && st.math));
}

#[test]
fn layout_breaks_at_width_and_at_line_feeds() {
    let lines = layout_spans_lines(&vec![plain("abcdef\ngh")], 4);
    let texts: Vec<String> = lines.iter().map(|l| line_text(l)).collect();
    assert_eq!(texts, vec!["abcd", "ef", "gh"]);
}

#[test]
fn layout_keeps_text_of_runs_without_breaks() {
    let spans = vec![plain("Hello "), InlineSpan { text: "bold\nworld".to_string(), style: TextStyle { bold: true, ..TextStyle::default() } }, math("a\nb")];
    let lines = layout_spans_lines(&spans, 5);
    let all: String = lines.iter().map(|l| line_text(l)).collect();
    assert_eq!(all, "Hello boldworlda\nb");
}

#[test]
fn layout_of_nothing_is_one_empty_line_on_the_first_source_line() {
    let lines = layout_spans_lines_with_source(&vec![], 10, BlockSource { start_line: 7, end_line: 9 });
    assert_eq!(lines.len(), 1);
    assert!(lines[0].spans.is_empty());
    assert_eq!(lines[0].source_line, 7);
    let breaks = layout_spans_lines_with_source(&vec![plain("\n\n")], 10, BlockSource { start_line: 3, end_line: 4 });
    assert_eq!(breaks.len(), 1);
    assert_eq!(breaks[0].source_line, 3);
}

#[test]
fn layout_source_lines_advance_at_breaks_but_not_past_the_end() {
    let lines =
        layout_spans_lines_with_source(&vec![plain("a\nb\nc\nd")], 10, BlockSource { start_line: 2, end_line: 4 });
    let src: Vec<u32> = lines.iter().map(|l| l.source_line).collect();
    assert_eq!(src, vec![2, 3, 4, 4]);
}

#[test]
fn layout_gives_a_wide_math_token_its_own_line() {
    let lines = layout_spans_lines(&vec![plain("ab"), math("x+y+z"), plain("c")], 4);
    let texts: Vec<String> = lines.iter().map(|l| line_text(l)).collect();
    assert_eq!(texts, vec!["ab", "x+y+z", "c"]);
    assert!(lines[1][0].style.math);
}

#[test]
fn layout_merges_neighbouring_runs_of_one_style() {
    let lines = layout_spans_lines(&vec![plain("ab"), plain("cd")], 10);
    assert_eq!(lines.len(), 1);
    assert_eq!(lines[0].len(), 1);
    assert_eq!(lines[0][0].text, "abcd");
}

#[test]
fn blockquote_text_wraps_at_ninety_six_columns() {
    assert_eq!(blockquote_wrap_cols(), 96);
}

#[test]
fn drawn_lines_stand_for_source_lines_in_order_then_the_last() {
    let source = BlockSource { start_line: 10, end_line: 12 };
    let got: Vec<u32> = (0..5).map(|i| drawn_line_source(source, i)).collect();
    assert_eq!(got, vec![10, 11, 12, 12, 12]);
    assert_eq!(drawn_line_source(BlockSource { start_line: 5, end_line: 3 }, 2), 5);
}

#[test]
fn spacer_tail_maps_the_lines_it_did_not_draw() {
    let mut st = PreviewLayoutState::new(8);
    st.page_index = 2;
    record_spacer_tail(&mut st, 2, BlockSource { start_line: 3, end_line: 6 });
    assert_eq!(st.line_pages, vec![1, 1, 1, 1, 2, 2, 1, 1]);
    let mut st2 = PreviewLayoutState::new(4);
    st2.page_index = 3;
    record_spacer_tail(&mut st2, 5, BlockSource { start_line: 1, end_line: 2 });
    assert_eq!(st2.line_pages, vec![1, 1, 1, 1]);
}

#[test]
fn list_budget_leaves_room_for_indent_and_marker() {
    assert_eq!(list_item_budget(0, "•"), 83);
    assert_eq!(list_item_budget(2, "10."), 77);
    assert_eq!(list_item_budget(40, "•"), 20);
    assert_eq!(list_item_budget(255, "•"), 20);
}

#[test]
fn merging_runs_keeps_text_and_a_second_merge_changes_nothing() {
    let bold = TextStyle { bold: true, ..TextStyle::default() };
    let mut spans = vec![plain("a"), plain("b"), InlineSpan { text: "c".to_string(), style: bold }, plain("d"), plain("e")];
    minipdf::spans::merge_adjacent_spans(&mut spans);
    let texts: Vec<&str> = spans.iter().map(|s| s.text.as_str()).collect();
    assert_eq!(texts, vec!["ab", "c", "de"]);
    let again_before: Vec<String> = spans.iter().map(|s| s.text.clone()).collect();
    minipdf::spans::merge_adjacent_spans(&mut spans);
    let again: Vec<String> = spans.iter().map(|s| s.text.clone()).collect();
    assert_eq!(again, again_before);
}

#[test]
fn blank_source_lines_are_trimmed_at_both_ends() {
    let md: Vec<Vec<char>> = ["", "text", "", "more", "  ", ""].iter().map(|l| l.chars().collect()).collect();
    assert_eq!(minipdf::blocks::trim_leading_blank_source_lines(&md, 1, 6), 2);
    assert_eq!(minipdf::blocks::trim_trailing_blank_source_lines(&md, 2, 6), 4);
    assert_eq!(minipdf::blocks::trim_leading_blank_source_lines(&md, 5, 5), 5);
    assert_eq!(minipdf::blocks::trim_trailing_blank_source_lines(&md, 5, 9), 9);
}
