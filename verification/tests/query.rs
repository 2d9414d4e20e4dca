use largest_file_finder::ast::Expr;
use largest_file_finder::matcher::Matcher;
use largest_file_finder::parser::{ParseErrorKind, ParserExpr};
use largest_file_finder::size_literal::{parse_size_bytes, SizeLiteralError};

fn parse(query: &str) -> Expr {
    ParserExpr::new(query).parse().unwrap()
}

#[test]
fn regex_literal_preserves_backslashes() {
    let expr = ParserExpr::new(r"name:/\.(mp4|mkv)$/").parse().unwrap();
    // Should match a literal dot.
    assert!(expr.eval("/tmp/movie.mp4", 0));
    // Should not match if the extension is preceded by another character.
    assert!(!expr.eval("/tmp/movieXmp4", 0));
}

#[test]
fn regex_literal_can_escape_delimiter_slash() {
    let expr = ParserExpr::new(r"path:/foo\/bar/").parse().unwrap();
    assert!(expr.eval("/tmp/foo/bar/baz", 0));
    assert!(!expr.eval("/tmp/fooXbar/baz", 0));
}

#[test]
fn include_filters_are_any_match() {
    let allows = vec![String::from("foo"), String::from("bar")];
    let matcher = Matcher::from_parts(&allows, &vec![], None).unwrap();
    assert!(matcher.matches_path_str("/tmp/foo.txt", 0));
    assert!(matcher.matches_path_str("/tmp/bar.txt", 0));
    assert!(!matcher.matches_path_str("/tmp/baz.txt", 0));
}

#[test]
fn exclude_wins_over_allow_and_query() {
    let allows = vec![String::from("keep")];
    let excludes = vec![String::from("drop")];
    let query = parse("size>=0");
    let matcher = Matcher::from_parts(&allows, &excludes, Some(query)).unwrap();
    assert!(matcher.matches_path_str("/tmp/keep/a.txt", 5));
    assert!(!matcher.matches_path_str("/tmp/keep/drop/a.txt", 5));
    assert!(!matcher.matches_path_str("/tmp/other/a.txt", 5));
}

#[test]
fn matcher_filters_are_case_insensitive() {
    let allows = vec![String::from("foo")];
    let matcher = Matcher::from_parts(&allows, &vec![], None).unwrap();
    assert!(matcher.matches_path_str("/tmp/FOO.txt", 0));
}

#[test]
fn matcher_reports_bad_pattern() {
    let allows = vec![String::from("ok"), String::from("(")];
    let err = Matcher::from_parts(&allows, &vec![], None).unwrap_err();
    assert_eq!(err.pattern, "(");
}

#[test]
fn boolean_composition_respects_not() {
    let expr = parse(r"size>1073741824 AND NOT name:/\.part$/");
    let two_gib: u64 = 2 * 1024 * 1024 * 1024;
    assert!(!expr.eval("/data/archive.part", two_gib));
    assert!(expr.eval("/data/archive.iso", two_gib));
}

#[test]
fn or_and_parentheses_and_symbolic_operators() {
    let expr = parse(r"(ext:iso || ext:img) && !path:/tmp/");
    assert!(expr.eval("/data/disk.iso", 0));
    assert!(expr.eval("/data/disk.IMG", 0));
    assert!(!expr.eval("/tmp/disk.iso", 0));
    assert!(!expr.eval("/data/disk.txt", 0));
}

#[test]
fn keywords_match_whole_identifiers_only() {
    // `ANDROID` must not be mistaken for the keyword `AND`.
    assert!(ParserExpr::new("ext:iso ANDROID").parse().is_err());
    // Keywords are case-insensitive.
    let expr = parse("ext:iso and size>10");
    assert!(expr.eval("/a/b.iso", 11));
    assert!(!expr.eval("/a/b.iso", 10));
}

#[test]
fn name_regex_applies_to_basename_only() {
    let expr = parse("name:/^movie/");
    assert!(expr.eval("/tmp/movie.mp4", 0));
    assert!(!expr.eval("/movie/other.mp4", 0));
}

#[test]
fn ext_predicate_is_case_insensitive_and_needs_extension() {
    let expr = parse("ext:MP4");
    assert!(expr.eval("/a/b.mp4", 0));
    assert!(expr.eval("/a/b.Mp4", 0));
    assert!(!expr.eval("/a/bmp4", 0));
    assert!(!expr.eval("/a/.mp4", 0));
}

#[test]
fn size_comparison_operators() {
    assert!(parse("size<10").eval("/a", 9));
    assert!(!parse("size<10").eval("/a", 10));
    assert!(parse("size<=10").eval("/a", 10));
    assert!(!parse("size<=10").eval("/a", 11));
    assert!(parse("size>10").eval("/a", 11));
    assert!(!parse("size>10").eval("/a", 10));
    assert!(parse("size>=10").eval("/a", 10));
    assert!(!parse("size>=10").eval("/a", 9));
    assert!(parse("size=10").eval("/a", 10));
    assert!(!parse("size=10").eval("/a", 9));
}

#[test]
fn size_literal_round_trip() {
    assert_eq!(parse_size_bytes("1GB"), Ok(1073741824));
    assert_eq!(parse_size_bytes("500"), Ok(500));
    assert_eq!(parse_size_bytes("2KiB"), Ok(2048));
    assert_eq!(parse_size_bytes("5xb"), Err(SizeLiteralError::UnknownUnit));
}

#[test]
fn size_literal_units_and_errors() {
    assert_eq!(parse_size_bytes("3"), Ok(3));
    assert_eq!(parse_size_bytes("3b"), Ok(3));
    assert_eq!(parse_size_bytes("1k"), Ok(1024));
    assert_eq!(parse_size_bytes("1mb"), Ok(1048576));
    assert_eq!(parse_size_bytes("1MiB"), Ok(1048576));
    assert_eq!(parse_size_bytes("1g"), Ok(1073741824));
    assert_eq!(parse_size_bytes("2tb"), Ok(2199023255552));
    assert_eq!(parse_size_bytes("  7 kb "), Ok(7168));
    assert_eq!(parse_size_bytes(""), Err(SizeLiteralError::Empty));
    assert_eq!(parse_size_bytes("   "), Err(SizeLiteralError::Empty));
    assert_eq!(parse_size_bytes("abc"), Err(SizeLiteralError::NoLeadingDigits));
    assert_eq!(parse_size_bytes("99999999999999999999"), Err(SizeLiteralError::Overflow));
    assert_eq!(parse_size_bytes("100000000000tb"), Err(SizeLiteralError::Overflow));
}

#[test]
fn parser_rejects_trailing_garbage() {
    let err = ParserExpr::new("size>1GB)").parse().unwrap_err();
    assert_eq!(err.pos, 8);
    assert!(matches!(err.kind, ParseErrorKind::TrailingInput));
}

#[test]
fn parse_error_kinds_and_positions() {
    let err = ParserExpr::new("frobnicate").parse().unwrap_err();
    assert!(matches!(err.kind, ParseErrorKind::ExpectedPredicate));
    assert_eq!(err.pos, 0);

    let err = ParserExpr::new("name x").parse().unwrap_err();
    assert!(matches!(err.kind, ParseErrorKind::ExpectedChar(':')));

    let err = ParserExpr::new("size 5").parse().unwrap_err();
    assert!(matches!(err.kind, ParseErrorKind::ExpectedCmpOp));

    let err = ParserExpr::new("name:x").parse().unwrap_err();
    assert!(matches!(err.kind, ParseErrorKind::ExpectedRegex));

    let err = ParserExpr::new("path:/abc").parse().unwrap_err();
    assert!(matches!(err.kind, ParseErrorKind::UnterminatedRegex));

    let err = ParserExpr::new(r"path:/abc\").parse().unwrap_err();
    assert!(matches!(err.kind, ParseErrorKind::UnterminatedRegex));

    let err = ParserExpr::new("name:/(((/").parse().unwrap_err();
    match err.kind {
        ParseErrorKind::RegexCompile(p) => assert_eq!(p, "((("),
        other => panic!("unexpected kind: {:?}", other),
    }

    let err = ParserExpr::new("ext:").parse().unwrap_err();
    assert!(matches!(err.kind, ParseErrorKind::EmptyExtValue));

    let err = ParserExpr::new("size>5xb").parse().unwrap_err();
    assert!(matches!(err.kind, ParseErrorKind::Size(SizeLiteralError::UnknownUnit)));

    let err = ParserExpr::new("(ext:iso").parse().unwrap_err();
    assert!(matches!(err.kind, ParseErrorKind::ExpectedChar(')')));
}

#[test]
fn error_positions_are_byte_offsets() {
    // The regex holds a two-byte character, so the trailing parenthesis sits
    // at byte 9 though it is the ninth character (offset 8).
    let err = ParserExpr::new("name:/\u{e9}/)").parse().unwrap_err();
    assert!(matches!(err.kind, ParseErrorKind::TrailingInput));
    assert_eq!(err.pos, 9);
}

#[test]
fn cursor_helpers_behave() {
    let mut p = ParserExpr::new("  size >= 1kb");
    p.skip_ws();
    assert_eq!(p.peek_char(), Some('s'));
    assert!(p.consume_kw("SIZE"));
    assert!(!p.consume_op("<"));
    let op = p.parse_cmp_op();
    assert!(op.is_ok());
    let val = p.parse_bare_value();
    assert_eq!(val, "1kb");
}
