use highlight_span::line_index::LineIndex;
use highlight_span::{is_delimiter, Highlighter, ToTokenName};
use owo_colors::colors::White;
use owo_colors::OwoColorize;

struct TokenDesc(String);

impl ToTokenName for TokenDesc {
    fn to_token_name(&self) -> String {
        self.0.clone()
    }
}

fn styled(text: &str) -> String {
    format!("{}", text.fg::<White>().bg_rgb::<0x17, 0x45, 0x25>())
}

#[test]
fn no_tab_substitution_when_no_tabs_present() {
    let src = "12 345 6";
    let mut hl = Highlighter::new_lf(src.as_bytes(), false, 4);
    hl.next_token("Int".to_string(), 4..7);
    let expected = format!("{}{}{}", "12 3", styled("45 "), "6");
    assert_eq!(hl.table.len(), 1);
    assert_eq!(hl.table[0].token, "Int");
    assert_eq!(hl.table[0].range, 4..7);
    assert_eq!(hl.table[0].span, expected);
}

#[test]
fn render_is_idempotent_and_keeps_submission_order() {
    let src = "abc\ndef";
    let mut hl = Highlighter::new_lf(src.as_bytes(), false, 4);
    hl.next_token("A".to_string(), 0..1);
    hl.next_token("B".to_string(), 4..5);
    assert_eq!(hl.table.len(), 2);
    assert_eq!(hl.table[0].token, "A");
    assert_eq!(hl.table[0].range, 0..1);
    assert_eq!(hl.table[1].token, "B");
    assert_eq!(hl.table[1].range, 4..5);
    let first = hl.into_table();
    let second = hl.into_table();
    assert_eq!(first, second);
}

#[test]
fn tabs_and_newlines_become_visible_in_rendered_rows() {
    let src = "a\tb\ncd";
    let mut hl = Highlighter::new_lf(src.as_bytes(), false, 2);
    hl.next_token(TokenDesc("T".to_string()), 0..5);
    let expected = format!("{}{}{}", "", styled("a  b⏎\nc"), "d");
    assert_eq!(hl.table[0].span, expected);
}

#[test]
fn table_matches_reference_rendering() {
    let src = "abc";
    let mut hl = Highlighter::new_lf(src.as_bytes(), true, 4);
    hl.next_token("W".to_string(), 0..2);
    let rendered = hl.into_table();

    let span_text = format!("{}{}{}", "", styled("ab"), "c");
    let records = vec![
        vec!["token".to_string(), "range".to_string(), "span".to_string()],
        vec!["W".to_string(), "0..2".to_string(), span_text],
    ];
    let mut table = tabled::builder::Builder::from(records).build();
    table.with(tabled::settings::Style::sharp());
    assert_eq!(rendered, table.to_string());
}

#[test]
fn byte_mode_and_character_mode_agree_on_ascii() {
    let src = "aa\nbb\ncc";
    let by_bytes = LineIndex::init_lf(src.as_bytes(), true);
    let by_chars = LineIndex::init_lf(src.as_bytes(), false);
    let spans = [(0, 0), (0, 4), (3, 5), (7, 8), (2, 2), (0, 8)];
    for (s, e) in spans {
        assert_eq!(by_bytes.resolve_span(s..e), by_chars.resolve_span(s..e));
    }
}

#[test]
fn crlf_separator_splits_lines() {
    let src = "ab\r\ncd";
    let index = LineIndex::init_crlf(src.as_bytes(), false);
    assert_eq!(index.0.len(), 2);
    assert_eq!(index.0[0].bytes, 0..2);
    assert_eq!(index.0[1].bytes, 4..6);
    assert_eq!(index.0[0].indics, 0..2);
    assert_eq!(index.0[1].indics, 4..6);
}

#[test]
fn character_mode_highlights_multibyte_spans() {
    let src = "바람에\n아비리아\n말리기";
    let mut hl = Highlighter::new_lf(src.as_bytes(), false, 4);
    hl.next_token("K".to_string(), 4..6);
    let expected = format!("{}{}{}", "", styled("아비"), "리아");
    assert_eq!(hl.table[0].span, expected);
}

#[test]
fn delimiter_line_needs_ten_equals_and_nothing_else() {
    assert!(is_delimiter("==========".as_bytes()));
    assert!(is_delimiter("============".as_bytes()));
    assert!(!is_delimiter("=========".as_bytes()));
    assert!(!is_delimiter("====x=====".as_bytes()));
    assert!(!is_delimiter("".as_bytes()));
}

#[test]
fn multi_digit_ranges_render_in_the_numeric_column() {
    let src = "0123456789abcdef";
    let mut hl = Highlighter::new_lf(src.as_bytes(), true, 4);
    hl.next_token("A".to_string(), 0..3);
    hl.next_token("B".to_string(), 10..15);
    let rendered = hl.into_table();

    let row_a = format!("{}{}{}", "", styled("012"), "3456789abcdef");
    let row_b = format!("{}{}{}", "0123456789", styled("abcde"), "f");
    let records = vec![
        vec!["token".to_string(), "range".to_string(), "span".to_string()],
        vec!["A".to_string(), "0..3".to_string(), row_a],
        vec!["B".to_string(), "10..15".to_string(), row_b],
    ];
    let mut table = tabled::builder::Builder::from(records).build();
    table.with(tabled::settings::Style::sharp());
    assert_eq!(rendered, table.to_string());
}

#[test]
fn tab_width_controls_the_substitution() {
    let src = "x\ty!";
    let mut hl = Highlighter::new_lf(src.as_bytes(), false, 3);
    hl.next_token("T".to_string(), 0..3);
    assert_eq!(hl.table[0].span, format!("{}{}{}", "", styled("x   y"), "!"));

    let mut hl0 = Highlighter::new_lf(src.as_bytes(), false, 0);
    hl0.next_token("T".to_string(), 0..3);
    assert_eq!(hl0.table[0].span, format!("{}{}{}", "", styled("xy"), "!"));
}

#[test]
fn char_mode_spans_may_end_at_the_buffer_extent() {
    let src = "abc";
    let mut hl = Highlighter::new_lf(src.as_bytes(), false, 4);
    hl.next_token("C".to_string(), 2..3);
    assert_eq!(hl.table[0].span, format!("{}{}{}", "ab", styled("c"), ""));

    let mut empty_at_end = Highlighter::new_lf(src.as_bytes(), false, 4);
    empty_at_end.next_token("E".to_string(), 3..3);
    assert_eq!(empty_at_end.table[0].span, format!("{}{}{}", "abc", styled(""), ""));

    let uni = "바람에";
    let mut hu = Highlighter::new_lf(uni.as_bytes(), false, 4);
    hu.next_token("U".to_string(), 2..3);
    assert_eq!(hu.table[0].span, format!("{}{}{}", "바람", styled("에"), ""));

    let multi = "abc\ndef";
    let mut hm = Highlighter::new_lf(multi.as_bytes(), false, 4);
    hm.next_token("F".to_string(), 6..7);
    assert_eq!(hm.table[0].span, format!("{}{}{}", "de", styled("f"), ""));
}
