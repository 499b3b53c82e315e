use sn::{parse, parse_owned, Value};

/// A small serializer, external to the library, that writes a parsed tree
/// back out as JSON text. Strings and numbers are emitted as their raw
/// bytes, so whatever `parse` produced can be re-read.
fn encode(v: &Value, out: &mut Vec<u8>) {
    match v {
        Value::String(b) => {
            out.push(b'"');
            out.extend_from_slice(b.0);
            out.push(b'"');
        },
        Value::Number(b) => out.extend_from_slice(b.0),
        Value::Boolean(true) => out.extend_from_slice(b"true"),
        Value::Boolean(false) => out.extend_from_slice(b"false"),
        Value::Null => out.extend_from_slice(b"null"),
        Value::Nothing => panic!("the sentinel never appears in a parsed tree"),
        Value::Array(items) => {
            out.push(b'[');
            for (i, item) in items.iter().enumerate() {
                if i > 0 {
                    out.push(b',');
                }
                encode(item, out);
            }
            out.push(b']');
        },
        Value::Object(entries) => {
            out.push(b'{');
            for (i, (key, value)) in entries.iter().enumerate() {
                if i > 0 {
                    out.push(b',');
                }
                out.push(b'"');
                out.extend_from_slice(key.0);
                out.push(b'"');
                out.push(b':');
                encode(value, out);
            }
            out.push(b'}');
        },
    }
}

fn assert_roundtrip(input: &[u8]) {
    let v1 = parse(input).unwrap();
    let mut text = Vec::new();
    encode(&v1, &mut text);
    let v2 = parse(&text).unwrap();
    assert_eq!(v1, v2, "round trip changed the tree for {:?}", String::from_utf8_lossy(input));
}

#[test]
fn reparsing_identical_bytes_yields_equal_trees() {
    let input = b"{\"a\":[1,2,3],\"b\":null}";
    let v1 = parse(input).unwrap();
    let v2 = parse(input).unwrap();
    assert_eq!(v1, v2);
}

#[test]
fn encode_then_reparse_preserves_scalars() {
    assert_roundtrip(b"1");
    assert_roundtrip(b"-1.5e10");
    assert_roundtrip(b"2e-3");
    assert_roundtrip(b"true");
    assert_roundtrip(b"false");
    assert_roundtrip(b"null");
    assert_roundtrip(b"\"hello\"");
    assert_roundtrip(b"\"\"");
}

#[test]
fn encode_then_reparse_preserves_structures() {
    assert_roundtrip(b"[]");
    assert_roundtrip(b"{}");
    assert_roundtrip(b"[1,2,3]");
    assert_roundtrip(b"{\"a\":[1,2,3],\"b\":null}");
    assert_roundtrip(b"[[],{},[{\"k\":[false,\"x\"]}]]");
    assert_roundtrip(b" { \"outer\" : { \"inner\" : [ 1 , \"two\" , null ] } } ");
}

#[test]
fn encode_then_reparse_preserves_escapes() {
    assert_roundtrip(b"\"ab\\\"cd\"");
    assert_roundtrip(b"\"a\\\\\"");
    assert_roundtrip(b"{\"ke\\\"y\":\"va\\\\lue\"}");
}

#[test]
fn trees_differing_in_structure_compare_unequal() {
    let a = parse(b"[1,2]").unwrap();
    let b = parse(b"[1,2,3]").unwrap();
    assert_ne!(a, b);
    let c = parse(b"null").unwrap();
    let d = parse(b"0").unwrap();
    assert_ne!(c, d);
    let e = parse(b"{\"a\":1}").unwrap();
    let f = parse(b"{\"b\":1}").unwrap();
    assert_ne!(e, f);
}

#[test]
fn owned_parse_outlives_the_input_binding() {
    let doc = {
        let text = b"{\"a\":[1,2],\"b\":\"c\"}".to_vec();
        parse_owned(text).unwrap()
    };
    let v = doc.root();
    match &v {
        Value::Object(entries) => {
            assert_eq!(entries.len(), 2);
            assert_eq!(entries[0].0 .0, b"a");
            assert_eq!(entries[1].0 .0, b"b");
        },
        other => panic!("expected an object, got {:?}", other),
    }
    // The borrowed view agrees with a fresh borrowing parse of equal bytes.
    let again = parse(b"{\"a\":[1,2],\"b\":\"c\"}").unwrap();
    assert_eq!(v, again);
}

#[test]
fn owned_parse_reports_errors() {
    assert!(parse_owned(b"[1 2]".to_vec()).is_err());
    assert!(parse_owned(Vec::new()).is_err());
}

#[test]
fn owned_root_can_be_read_repeatedly() {
    let doc = parse_owned(b"[true,null]".to_vec()).unwrap();
    let first = doc.root();
    let second = doc.root();
    assert_eq!(first, second);
}
