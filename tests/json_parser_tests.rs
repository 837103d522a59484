use json_parser::json::{AccessError, Json};
use json_parser::lexen::{LexError, Lexer};
use json_parser::parsen::{ParseError, Parser, MAX_DEPTH};
use json_parser::{Kind, Token};

#[derive(Debug)]
enum Failure {
    Lex(LexError),
    Parse(ParseError),
}

fn parse_text(s: &str) -> Result<Json, Failure> {
    let mut parser = Parser::from_string(s.to_string()).map_err(Failure::Lex)?;
    parser.parse().map_err(Failure::Parse)
}

fn lex_text(s: &str) -> Result<Vec<Token>, LexError> {
    Lexer::new(s.to_string()).lex()
}

fn text_of(j: &Json) -> String {
    j.asText().expect("primitive node")
}

#[test]
fn round_trip_null() {
    let j = parse_text("null").unwrap();
    assert!(matches!(j, Json::Null));
    assert!(j.isNullOrEmptyNode());
    assert_eq!(text_of(&j), "");
}

#[test]
fn round_trip_booleans() {
    let t = parse_text("true").unwrap();
    assert!(matches!(t, Json::Boolean(true)));
    assert_eq!(text_of(&t), "true");
    let f = parse_text("false").unwrap();
    assert!(matches!(f, Json::Boolean(false)));
    assert_eq!(text_of(&f), "false");
}

#[test]
fn round_trip_numbers() {
    for lit in ["0", "-1.5", "3.14e10"] {
        let j = parse_text(lit).unwrap();
        assert!(j.isNumber());
        match &j {
            Json::Number(t) => assert_eq!(t, lit),
            other => panic!("not a number: {:?}", other),
        }
        assert_eq!(text_of(&j), lit);
    }
}

#[test]
fn round_trip_string() {
    let j = parse_text("\"abc\"").unwrap();
    assert!(j.isString());
    assert!(matches!(&j, Json::Strings(s) if s == "abc"));
}

#[test]
fn nested_document_mirrors_structure() {
    let j = parse_text("{\"a\": [1, {\"b\": null}, []], \"c\": {}}").unwrap();
    assert!(j.isObject());
    let a = j.path("a");
    assert!(a.isArray());
    assert_eq!(text_of(a.atIndex(0)), "1");
    assert!(a.atIndex(1).isObject());
    assert!(a.atIndex(1).path("b").isNullOrEmptyNode());
    assert!(matches!(a.atIndex(2), Json::Array(v) if v.is_empty()));
    assert!(matches!(j.path("c"), Json::Object(m) if m.is_empty()));
}

#[test]
fn navigation_misses_give_null() {
    let j = parse_text("{\"k\": [true]}").unwrap();
    assert!(j.path("absent").isNullOrEmptyNode());
    assert!(j.path("k").atIndex(1).isNullOrEmptyNode());
    assert!(j.atIndex(0).isNullOrEmptyNode());
    assert!(j.path("k").path("k").isNullOrEmptyNode());
    assert!(j.path("k").atIndex(0).atIndex(0).path("x").isNullOrEmptyNode());
}

#[test]
fn predicates_repeat_identically() {
    let j = parse_text("[1]").unwrap();
    for _ in 0..3 {
        assert!(j.isArray());
        assert!(!j.isObject());
        assert!(!j.isString());
        assert!(!j.isNumber());
        assert!(!j.isBoolean());
        assert!(!j.isNullOrEmptyNode());
    }
    assert!(j.atIndex(0).isNumber());
    assert!(!j.atIndex(0).isBoolean());
}

#[test]
fn missing_value_after_colon() {
    assert!(matches!(
        parse_text("{\"a\":}"),
        Err(Failure::Parse(ParseError::UnexpectedToken { kind: Kind::EndObject, line: 1 }))
    ));
}

#[test]
fn trailing_separator_in_array() {
    assert!(matches!(
        parse_text("[1,2,]"),
        Err(Failure::Parse(ParseError::UnexpectedToken { kind: Kind::EndArray, .. }))
    ));
}

#[test]
fn trailing_separator_in_object() {
    assert!(matches!(
        parse_text("{\"a\":1,}"),
        Err(Failure::Parse(ParseError::UnexpectedToken { kind: Kind::EndObject, line: 1 }))
    ));
}

#[test]
fn unterminated_string() {
    assert!(matches!(parse_text("\"abc"), Err(Failure::Lex(LexError::UnterminatedString { line: 1 }))));
    assert!(matches!(lex_text("\"abc\\"), Err(LexError::UnterminatedString { .. })));
}

#[test]
fn non_string_key() {
    assert!(matches!(
        parse_text("{1:2}"),
        Err(Failure::Parse(ParseError::ExpectedString { kind: Kind::Number(_), line: 1 }))
    ));
}

#[test]
fn malformed_number() {
    assert!(matches!(parse_text("01.2.3e"), Err(Failure::Lex(LexError::InvalidNumber { line: 1 }))));
    assert!(matches!(lex_text("1e+"), Err(LexError::InvalidNumber { .. })));
    assert!(matches!(lex_text("1."), Err(LexError::InvalidNumber { .. })));
    assert!(matches!(lex_text("-"), Err(LexError::InvalidNumber { .. })));
    assert!(matches!(lex_text("12a"), Err(LexError::InvalidNumber { .. })));
}

#[test]
fn numbers_follow_the_grammar() {
    for lit in ["0", "-0", "01", "12.5", "1e5", "1E-5", "-2.25e+3"] {
        let toks = lex_text(lit).unwrap();
        assert_eq!(toks.len(), 2);
        assert!(matches!(toks[0].get_kind(), Kind::Number(t) if t == lit));
        assert!(matches!(toks[1].get_kind(), Kind::EOF));
    }
}

#[test]
fn whitespace_splits_numbers() {
    let toks = lex_text("1 2").unwrap();
    assert_eq!(toks.len(), 3);
    assert!(matches!(parse_text("[1 2]"), Err(Failure::Parse(ParseError::UnexpectedToken { .. }))));
}

#[test]
fn end_to_end_address_record() {
    let j = parse_text("[{\"Address\":\"1 Main St\",\"Zip\":\"10001\"}]").unwrap();
    assert!(matches!(&j, Json::Array(v) if v.len() == 1));
    assert!(j.atIndex(0).isObject());
    assert_eq!(text_of(j.atIndex(0).path("Zip")), "10001");
    assert_eq!(text_of(j.atIndex(0).path("Address")), "1 Main St");
    assert!(j.atIndex(1).isNullOrEmptyNode());
    assert!(j.path("Address").isNullOrEmptyNode());
}

#[test]
fn illegal_character_reports_its_line() {
    match parse_text("[\n  1,\n  @]") {
        Err(Failure::Lex(LexError::UnknownCharacter { ch, line })) => {
            assert_eq!(ch, '@');
            assert_eq!(line, 3);
        }
        other => panic!("unexpected outcome: {:?}", other),
    }
}

#[test]
fn token_lines_count_from_one() {
    let toks = lex_text("[\n1,\n\n2]").unwrap();
    let lines: Vec<u32> = toks.iter().map(|t| t.get_line()).collect();
    assert_eq!(lines, vec![1, 2, 2, 4, 4, 4]);
    assert!(matches!(toks[5].get_kind(), Kind::EOF));
}

#[test]
fn string_escapes_are_decoded() {
    let j = parse_text("\"a\\nb\\t\\\"q\\\" \\\\ \\/ \\b\\f\\r \\u03BB\"").unwrap();
    assert_eq!(text_of(&j), "a\nb\t\"q\" \\ / \u{8}\u{c}\r \u{3bb}");
}

#[test]
fn bad_unicode_escapes() {
    assert!(matches!(lex_text("\"\\u12G4\""), Err(LexError::InvalidEscape { line: 1 })));
    assert!(matches!(lex_text("\"\\u12"), Err(LexError::InvalidEscape { .. })));
    assert!(matches!(lex_text("\"\\uD800\""), Err(LexError::InvalidEscape { .. })));
}

#[test]
fn unknown_literal() {
    match lex_text("[tru]") {
        Err(LexError::UnknownLiteral { text, line }) => {
            assert_eq!(text, "tru");
            assert_eq!(line, 1);
        }
        other => panic!("unexpected outcome: {:?}", other),
    }
    assert!(matches!(lex_text("nulls"), Err(LexError::UnknownLiteral { .. })));
}

#[test]
fn duplicate_keys_last_write_wins() {
    let j = parse_text("{\"a\":1,\"b\":2,\"a\":3}").unwrap();
    assert_eq!(text_of(j.path("a")), "3");
    assert_eq!(text_of(j.path("b")), "2");
    match &j {
        Json::Object(m) => {
            assert_eq!(m.len(), 2);
            assert_eq!(m[0].0, "a");
        }
        other => panic!("not an object: {:?}", other),
    }
}

#[test]
fn missing_member_separator() {
    assert!(matches!(
        parse_text("{\"a\":1 \"b\":2}"),
        Err(Failure::Parse(ParseError::UnexpectedToken { kind: Kind::String(_), .. }))
    ));
}

#[test]
fn missing_closing_bracket() {
    assert!(matches!(parse_text("[1,2"), Err(Failure::Parse(ParseError::UnexpectedEndOfInput { line: 1 }))));
    assert!(matches!(
        parse_text("{\"a\":1\n\n"),
        Err(Failure::Parse(ParseError::UnexpectedEndOfInput { line: 3 }))
    ));
    assert!(matches!(parse_text(""), Err(Failure::Parse(ParseError::UnexpectedEndOfInput { line: 1 }))));
    let mut none = Parser::new(Vec::new());
    assert_eq!(none.parse().err(), Some(ParseError::UnexpectedEndOfInput { line: 1 }));
    assert!(matches!(parse_text("{\"a\" 1}"), Err(Failure::Parse(ParseError::UnexpectedToken { .. }))));
}

#[test]
fn structural_token_in_value_position() {
    assert!(matches!(parse_text(":"), Err(Failure::Parse(ParseError::UnexpectedToken { kind: Kind::NameSeparator, .. }))));
}

#[test]
fn nesting_is_bounded() {
    let deep_ok = format!("{}{}", "[".repeat(MAX_DEPTH), "]".repeat(MAX_DEPTH));
    assert!(parse_text(&deep_ok).is_ok());
    let too_deep = format!("{}{}", "[".repeat(MAX_DEPTH + 1), "]".repeat(MAX_DEPTH + 1));
    assert!(matches!(parse_text(&too_deep), Err(Failure::Parse(ParseError::TooDeep { line: 1 }))));
}

#[test]
fn composite_text_is_an_error() {
    let j = parse_text("[{}]").unwrap();
    assert_eq!(j.asText(), Err(AccessError::NotPrimitive));
    assert_eq!(j.atIndex(0).asText(), Err(AccessError::NotPrimitive));
    assert_eq!(j.atIndex(5).asText(), Ok(String::new()));
}

#[test]
fn parser_reads_values_in_turn() {
    let mut p = Parser::from_string("1 [2]".to_string()).ok().unwrap();
    assert_eq!(text_of(&p.parse().unwrap()), "1");
    assert!(p.parse().unwrap().isArray());
    assert!(matches!(p.parse(), Err(ParseError::UnexpectedEndOfInput { .. })));
}

#[test]
fn leaf_kinds_convert_to_nodes() {
    assert!(Kind::Boolean(true).to_json().isBoolean());
    assert!(Kind::Null.to_json().isNullOrEmptyNode());
    assert!(Kind::String("s".to_string()).to_json().isString());
    assert!(Kind::Number("7".to_string()).to_json().isNumber());
    let t = Token::new(Kind::Null, 9);
    assert_eq!(t.get_line(), 9);
}

#[test]
fn written_document_parses_back() {
    let text = "[{\"q\":\"say \\\"hi\\\"\\n\",\"n\":[1,-2.5e3,true,false,null]},{}]";
    let toks = lex_text(text).unwrap();
    assert!(toks.iter().all(|t| t.get_line() == 1));
    assert_eq!(toks.iter().filter(|t| matches!(t.get_kind(), Kind::EOF)).count(), 1);
    let j = parse_text(text).unwrap();
    let first = j.atIndex(0);
    assert_eq!(text_of(first.path("q")), "say \"hi\"\n");
    let n = first.path("n");
    assert_eq!(text_of(n.atIndex(0)), "1");
    assert_eq!(text_of(n.atIndex(1)), "-2.5e3");
    assert!(n.atIndex(2).isBoolean());
    assert!(n.atIndex(4).isNullOrEmptyNode());
    assert!(matches!(j.atIndex(1), Json::Object(m) if m.is_empty()));
    assert!(matches!(&j, Json::Array(v) if v.len() == 2));
}

#[test]
fn non_string_key_after_separator() {
    assert!(matches!(
        parse_text("{\"a\":1,2:3}"),
        Err(Failure::Parse(ParseError::ExpectedString { kind: Kind::Number(_), .. }))
    ));
}

#[test]
fn multiline_string_token_keeps_its_first_line() {
    let toks = lex_text("[\"a\nb\", 1]").unwrap();
    assert!(matches!(toks[1].get_kind(), Kind::String(t) if t == "a\nb"));
    assert_eq!(toks[1].get_line(), 1);
    assert_eq!(toks[2].get_line(), 2);
    assert_eq!(toks[3].get_line(), 2);
}

#[test]
fn escaped_raw_newline_counts_a_line() {
    match lex_text("\"a\\\nb\"\n@") {
        Err(LexError::UnknownCharacter { ch, line }) => {
            assert_eq!(ch, '@');
            assert_eq!(line, 3);
        }
        other => panic!("unexpected outcome: {:?}", other),
    }
}

#[test]
fn spaced_document_with_escapes_parses_back() {
    let text = " {\r\n\t\"k\\u0041\\/\" :\n [ 1 ,\"x\\ty\"\t, { } ] ,\"k\" : false }\n\n";
    let j = parse_text(text).unwrap();
    let arr = j.path("kA/");
    assert!(matches!(arr, Json::Array(v) if v.len() == 3));
    assert_eq!(text_of(arr.atIndex(0)), "1");
    assert_eq!(text_of(arr.atIndex(1)), "x\ty");
    assert!(arr.atIndex(2).isObject());
    assert_eq!(text_of(j.path("k")), "false");
    let toks = lex_text(text).unwrap();
    assert_eq!(toks.last().unwrap().get_line(), 5);
}
