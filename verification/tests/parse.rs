use sn::{parse, ParseError, Parser, Value};

fn number_as_f64(v: &Value) -> f64 {
    match v {
        Value::Number(b) => std::str::from_utf8(b.0).unwrap().parse::<f64>().unwrap(),
        other => panic!("expected a number, got {:?}", other),
    }
}

#[test]
fn object_with_array_and_null() {
    let v = parse(b"{\"a\":[1,2,3],\"b\":null}").unwrap();
    match &v {
        Value::Object(entries) => {
            assert_eq!(entries.len(), 2);
            assert_eq!(entries[0].0 .0, b"a");
            match &entries[0].1 {
                Value::Array(items) => {
                    assert_eq!(items.len(), 3);
                    assert_eq!(number_as_f64(&items[0]), 1.0);
                    assert_eq!(number_as_f64(&items[1]), 2.0);
                    assert_eq!(number_as_f64(&items[2]), 3.0);
                },
                other => panic!("expected an array, got {:?}", other),
            }
            assert_eq!(entries[1].0 .0, b"b");
            assert!(matches!(entries[1].1, Value::Null));
        },
        other => panic!("expected an object, got {:?}", other),
    }
}

#[test]
fn undelimited_array_element_is_rejected() {
    let e = parse(b"[1 2]").unwrap_err();
    assert!(matches!(e, ParseError::UnexpectedSymbol(b'2')));
}

#[test]
fn empty_object_parses_and_trailing_comma_fails() {
    let v = parse(b"{}").unwrap();
    match v {
        Value::Object(entries) => assert!(entries.is_empty()),
        other => panic!("expected an object, got {:?}", other),
    }
    let e = parse(b"{\"a\":1,}").unwrap_err();
    assert!(matches!(e, ParseError::UnexpectedSymbol(b'}')));
}

#[test]
fn escapes_are_kept_verbatim() {
    let v = parse(b"\"ab\\\"cd\"").unwrap();
    match v {
        Value::String(b) => assert_eq!(b.0, b"ab\\\"cd"),
        other => panic!("expected a string, got {:?}", other),
    }
}

#[test]
fn numbers_parse_and_malformed_numbers_are_typed_errors() {
    let v = parse(b"-1.5e10").unwrap();
    assert_eq!(number_as_f64(&v), -1.5e10);
    let e = parse(b"1e").unwrap_err();
    assert!(matches!(e, ParseError::MalformedNumber));
}

#[test]
fn duplicate_object_key_is_rejected() {
    let e = parse(b"{\"a\":1,\"a\":2}").unwrap_err();
    assert!(matches!(e, ParseError::DuplicateKey(ref k) if k.as_slice() == b"a"));
}

#[test]
fn duplicate_detection_uses_raw_bytes_and_reaches_nested_objects() {
    let e = parse(b"{\"\":1,\"\":2}").unwrap_err();
    assert!(matches!(e, ParseError::DuplicateKey(ref k) if k.is_empty()));
    let e = parse(b"[{\"a\":1,\"a\":2}]").unwrap_err();
    assert!(matches!(e, ParseError::DuplicateKey(ref k) if k.as_slice() == b"a"));
    // Keys are compared literally: an escape spelling of the same character
    // is a different key.
    let v = parse(b"{\"a\":1,\"\\u0061\":2}").unwrap();
    match v {
        Value::Object(entries) => {
            assert_eq!(entries.len(), 2);
            assert_eq!(entries[0].0 .0, b"a");
            assert_eq!(entries[1].0 .0, b"\\u0061");
        },
        other => panic!("expected an object, got {:?}", other),
    }
}

#[test]
fn more_number_forms() {
    assert_eq!(number_as_f64(&parse(b"0").unwrap()), 0.0);
    assert_eq!(number_as_f64(&parse(b"42").unwrap()), 42.0);
    assert_eq!(number_as_f64(&parse(b"-7").unwrap()), -7.0);
    assert_eq!(number_as_f64(&parse(b"3.25").unwrap()), 3.25);
    assert_eq!(number_as_f64(&parse(b"1e+5").unwrap()), 1e5);
    assert_eq!(number_as_f64(&parse(b"2e-3").unwrap()), 2e-3);
    assert_eq!(number_as_f64(&parse(b"1.").unwrap()), 1.0);
    assert_eq!(number_as_f64(&parse(b"1.e3").unwrap()), 1e3);
    assert_eq!(number_as_f64(&parse(b"-.5").unwrap()), -0.5);
    assert!(matches!(parse(b"1..2"), Err(ParseError::MalformedNumber)));
    assert!(matches!(parse(b"--1"), Err(ParseError::MalformedNumber)));
    assert!(matches!(parse(b"-"), Err(ParseError::MalformedNumber)));
    assert!(matches!(parse(b"1e5e3"), Err(ParseError::MalformedNumber)));
    assert!(matches!(parse(b"1-2"), Err(ParseError::MalformedNumber)));
}

#[test]
fn literals() {
    assert!(matches!(parse(b"true").unwrap(), Value::Boolean(true)));
    assert!(matches!(parse(b"false").unwrap(), Value::Boolean(false)));
    assert!(matches!(parse(b"null").unwrap(), Value::Null));
    assert!(matches!(parse(b"tru"), Err(ParseError::UnexpectedSymbol(b't'))));
    assert!(matches!(parse(b"falsy"), Err(ParseError::UnexpectedSymbol(b'f'))));
    assert!(matches!(parse(b"nul"), Err(ParseError::UnexpectedSymbol(b'n'))));
}

#[test]
fn end_of_input_errors() {
    assert!(matches!(parse(b""), Err(ParseError::UnexpectedEndOfInput)));
    assert!(matches!(parse(b"  \t\r\n"), Err(ParseError::UnexpectedEndOfInput)));
    assert!(matches!(parse(b"\"abc"), Err(ParseError::UnexpectedEndOfInput)));
    assert!(matches!(parse(b"\"a\\"), Err(ParseError::UnexpectedEndOfInput)));
    assert!(matches!(parse(b"[1,"), Err(ParseError::UnexpectedEndOfInput)));
    assert!(matches!(parse(b"[1"), Err(ParseError::UnexpectedEndOfInput)));
    assert!(matches!(parse(b"{\"a\":1"), Err(ParseError::UnexpectedEndOfInput)));
    assert!(matches!(parse(b"{"), Err(ParseError::UnexpectedEndOfInput)));
}

#[test]
fn unexpected_symbols() {
    assert!(matches!(parse(b"x"), Err(ParseError::UnexpectedSymbol(b'x'))));
    assert!(matches!(parse(b"[1,]"), Err(ParseError::UnexpectedSymbol(b']'))));
    assert!(matches!(parse(b"{,}"), Err(ParseError::UnexpectedSymbol(b','))));
    assert!(matches!(parse(b"{\"a\" 1}"), Err(ParseError::UnexpectedSymbol(b'1'))));
    assert!(matches!(parse(b"{\"a\":1 \"b\":2}"), Err(ParseError::UnexpectedSymbol(b'\"'))));
    assert!(matches!(parse(b"{1:2}"), Err(ParseError::UnexpectedSymbol(b'1'))));
}

#[test]
fn leading_delimiter_takes_the_first_element() {
    // The first array element may be preceded by a delimiter; a second one
    // without a delimiter is still rejected.
    let v = parse(b"[,1]").unwrap();
    match v {
        Value::Array(items) => {
            assert_eq!(items.len(), 1);
            assert_eq!(number_as_f64(&items[0]), 1.0);
        },
        other => panic!("expected an array, got {:?}", other),
    }
    assert!(matches!(parse(b"[,]"), Err(ParseError::UnexpectedSymbol(b']'))));
}

#[test]
fn whitespace_is_skipped_everywhere() {
    let v = parse(b" \t{\n\"a\" :  [ 1 ,\r2 ] , \"b\" : \"c\" }\n").unwrap();
    match &v {
        Value::Object(entries) => {
            assert_eq!(entries.len(), 2);
            assert_eq!(entries[0].0 .0, b"a");
            match &entries[0].1 {
                Value::Array(items) => assert_eq!(items.len(), 2),
                other => panic!("expected an array, got {:?}", other),
            }
            match &entries[1].1 {
                Value::String(b) => assert_eq!(b.0, b"c"),
                other => panic!("expected a string, got {:?}", other),
            }
        },
        other => panic!("expected an object, got {:?}", other),
    }
}

#[test]
fn trailing_bytes_after_the_first_value_are_ignored() {
    assert_eq!(number_as_f64(&parse(b"1 x").unwrap()), 1.0);
    assert!(matches!(parse(b"true false").unwrap(), Value::Boolean(true)));
}

#[test]
fn depth_limit_is_enforced_and_configurable() {
    let mut shallow = Parser::with_depth_limit(b"[[1]]", 1);
    assert!(matches!(shallow.parse(), Err(ParseError::DepthLimitExceeded)));
    let mut deep_enough = Parser::with_depth_limit(b"[[1]]", 2);
    assert!(deep_enough.parse().is_ok());
    let nested = b"[[[[[[[[[[1]]]]]]]]]]";
    assert!(parse(nested).is_ok());
}

#[test]
fn parser_can_be_reused() {
    let mut p = Parser::new(b"[1,2]");
    let first = p.parse().unwrap();
    let second = p.parse().unwrap();
    assert_eq!(first, second);
}

#[test]
fn parse_string_method_returns_borrowed_content() {
    let mut p = Parser::new(b"\"hi\"");
    let b = p.parse_string().unwrap();
    assert_eq!(b.0, b"hi");
}

#[test]
fn skip_whitespace_no_eof_reports_exhausted_input() {
    let mut p = Parser::new(b"   ");
    assert!(matches!(p.skip_whitespace_no_eof(), Err(ParseError::UnexpectedEndOfInput)));
    let mut q = Parser::new(b"  x");
    assert!(q.skip_whitespace_no_eof().is_ok());
}

#[test]
fn empty_array_and_nested_structures() {
    match parse(b"[]").unwrap() {
        Value::Array(items) => assert!(items.is_empty()),
        other => panic!("expected an array, got {:?}", other),
    }
    let v = parse(b"[[],{},[{\"k\":[]}]]").unwrap();
    match v {
        Value::Array(items) => assert_eq!(items.len(), 3),
        other => panic!("expected an array, got {:?}", other),
    }
}
