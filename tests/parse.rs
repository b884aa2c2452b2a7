use csv_line::{parse_line, parse_line_sep, ParseError};

fn fields(line: &str) -> Vec<String> {
    parse_line(line).unwrap()
}

fn strings(v: &[&str]) -> Vec<String> {
    v.iter().map(|s| s.to_string()).collect()
}

#[test]
fn test_empty1() {
    assert_eq!(fields("a,,c"), strings(&["a", "", "c"]));
}

#[test]
fn test_empty2() {
    assert_eq!(fields("a,,"), strings(&["a", "", ""]));
}

#[test]
fn test_empty3() {
    assert_eq!(fields(",,"), strings(&["", "", ""]));
}

#[test]
fn test_basic() {
    assert_eq!(fields("a,b,c"), strings(&["a", "b", "c"]));
}

#[test]
fn test_with_quote1() {
    assert_eq!(fields("a,\"b\",c"), strings(&["a", "b", "c"]));
}

#[test]
fn test_with_quote2() {
    assert_eq!(fields("a,\"b\",\"c\",d"), strings(&["a", "b", "c", "d"]));
}

#[test]
fn test_with_quote_first_col() {
    assert_eq!(fields("\"a\",b,c,d"), strings(&["a", "b", "c", "d"]));
}

#[test]
fn test_with_quote_ends_col() {
    assert_eq!(fields("a,b,c,\"d\""), strings(&["a", "b", "c", "d"]));
}

#[test]
fn test_with_quote_contains_comma() {
    assert_eq!(
        fields("a,\"b\",\"c , x , y\",d"),
        strings(&["a", "b", "c , x , y", "d"])
    );
}

#[test]
fn test_with_quote_contains_comma2() {
    assert_eq!(
        fields("a,\"b\",\"c , x , y,,\",d"),
        strings(&["a", "b", "c , x , y,,", "d"])
    );
}

#[test]
fn test_long_text_with_number() {
    assert_eq!(
        fields("\"a\",\"b\",\"long text with number\", 123"),
        strings(&["a", "b", "long text with number", "123"])
    );
}

#[test]
fn test_long_text_with_trailing_spaces() {
    assert_eq!(
        fields("  \"a\",\"b\",   \"long text with number\"   , 123  "),
        strings(&["a", "b", "long text with number", "123"])
    );
}

#[test]
fn test_long_text_with_trailing_spaces_all() {
    assert_eq!(
        fields("  \"a\"  ,    \"b\" ,   \"long text with number\"   , 123  "),
        strings(&["a", "b", "long text with number", "123"])
    );
}

#[test]
fn test_long_columns() {
    assert_eq!(
        fields(r#"1,22,33,44,abc def,GHI JKL,MNOP,"",2,5555,3333,"ABC DEFG",HIJ KLMNO,"1-2-3",0,X,A B C D E,0,000-000 00:00"#),
        strings(&[
            "1", "22", "33", "44", "abc def", "GHI JKL", "MNOP", "", "2", "5555", "3333",
            "ABC DEFG", "HIJ KLMNO", "1-2-3", "0", "X", "A B C D E", "0", "000-000 00:00"
        ])
    );
}

#[test]
fn test_width_20() {
    assert_eq!(
        fields(r#"11,22,"YW","5, 6, 7,","","X, Y","","2","ZZZZ","","999901","zzzzz","Ab.","","","","","",,"#),
        strings(&[
            "11", "22", "YW", "5, 6, 7,", "", "X, Y", "", "2", "ZZZZ", "", "999901", "zzzzz",
            "Ab.", "", "", "", "", "", "", ""
        ])
    );
}

#[test]
fn separator_inside_quotes_is_data() {
    assert_eq!(fields("\"a,b\",c"), strings(&["a,b", "c"]));
}

#[test]
fn whitespace_trimmed_outside_quotes() {
    assert_eq!(fields("  a  ,  b  "), strings(&["a", "b"]));
}

#[test]
fn mixed_quoting() {
    assert_eq!(
        fields("a,\"b\",\"c , x , y\",d"),
        strings(&["a", "b", "c , x , y", "d"])
    );
}

#[test]
fn unterminated_quote_is_an_error() {
    assert_eq!(parse_line("a,\"b,c"), Err(ParseError::UnterminatedQuote));
}

#[test]
fn lone_opening_quote_is_an_error() {
    assert_eq!(parse_line("\""), Err(ParseError::UnterminatedQuote));
    assert_eq!(parse_line("a,b,\"c\",\"d"), Err(ParseError::UnterminatedQuote));
}

#[test]
fn custom_separator() {
    assert_eq!(parse_line_sep("a;b;c", ';').unwrap(), strings(&["a", "b", "c"]));
}

#[test]
fn custom_separator_ignores_commas() {
    assert_eq!(parse_line_sep("a,b;c", ';').unwrap(), strings(&["a,b", "c"]));
    assert_eq!(parse_line_sep("\"x;y\";z", ';').unwrap(), strings(&["x;y", "z"]));
}

#[test]
fn quoted_content_kept_verbatim() {
    assert_eq!(fields("\"  a , b  \""), strings(&["  a , b  "]));
    assert_eq!(fields("\"\""), strings(&[""]));
}

#[test]
fn empty_line_has_no_fields() {
    assert_eq!(fields(""), Vec::<String>::new());
}

#[test]
fn blank_line_has_one_empty_field() {
    assert_eq!(fields("   "), strings(&[""]));
}

#[test]
fn field_count_follows_outside_separators() {
    // two separators outside quotes, one inside
    assert_eq!(fields("a,\"b,c\",d").len(), 3);
    // a separator after a closed quote still counts
    assert_eq!(fields("\"a\","), strings(&["a", ""]));
    assert_eq!(fields(",").len(), 2);
}

#[test]
fn text_after_closing_quote_is_dropped() {
    assert_eq!(fields("\"a\"x,b"), strings(&["a", "b"]));
    assert_eq!(fields("\"a\" \"q\" ,b"), strings(&["a", "b"]));
}

#[test]
fn text_before_opening_quote_is_kept_without_leading_space() {
    assert_eq!(fields("  ab\" c\",d"), strings(&["ab c", "d"]));
}

#[test]
fn unicode_whitespace_is_trimmed() {
    assert_eq!(fields("\u{a0}a\u{3000},\tb\n"), strings(&["a", "b"]));
}

#[test]
fn non_ascii_fields() {
    assert_eq!(fields("é, ü ,\"ß,ø\""), strings(&["é", "ü", "ß,ø"]));
}

#[test]
fn rejoined_fields_split_the_same() {
    for line in ["a, b ,\"c,d\",", "  \"x\"  ,,y", "\"\"", "   ", "1,22,\" 3 \""] {
        let first = fields(line);
        let rejoined = first
            .iter()
            .map(|f| format!("\"{}\"", f))
            .collect::<Vec<String>>()
            .join(",");
        assert_eq!(fields(&rejoined), first);
    }
}
