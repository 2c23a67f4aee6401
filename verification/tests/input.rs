use highlight_span::input::parse_span_line;

#[test]
fn well_formed_span_lines_parse() {
    assert_eq!(
        parse_span_line("0 3 Int".as_bytes()),
        Some((0, 3, "Int".to_string()))
    );
    assert_eq!(
        parse_span_line("10 25 name with spaces".as_bytes()),
        Some((10, 25, "name with spaces".to_string()))
    );
    assert_eq!(parse_span_line("1 2 ".as_bytes()), Some((1, 2, "".to_string())));
}

#[test]
fn malformed_span_lines_are_rejected() {
    assert_eq!(parse_span_line("".as_bytes()), None);
    assert_eq!(parse_span_line("12".as_bytes()), None);
    assert_eq!(parse_span_line("1 2".as_bytes()), None);
    assert_eq!(parse_span_line("x 2 T".as_bytes()), None);
    assert_eq!(parse_span_line("1 y T".as_bytes()), None);
    assert_eq!(parse_span_line(" 2 3 T".as_bytes()), None);
    assert_eq!(parse_span_line("1  2 T".as_bytes()), None);
    assert_eq!(
        parse_span_line("99999999999999999999999999 1 T".as_bytes()),
        None
    );
}
