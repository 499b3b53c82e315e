use sn::bytes::slices_equal;
use sn::util::{is_numeric_like, is_numeric_or_negative, is_whitespace};
use sn::Bytes;

#[test]
fn bytes_equality_is_over_contents() {
    let left_buffer = b"same".to_vec();
    let right_buffer = b"same".to_vec();
    assert_eq!(Bytes(&left_buffer), Bytes(&right_buffer));
    assert_ne!(Bytes(b"a"), Bytes(b"b"));
    assert_ne!(Bytes(b"a"), Bytes(b"ab"));
    assert_eq!(Bytes(b""), Bytes(b""));
}

#[test]
fn escapes_compare_literally() {
    assert_ne!(Bytes(b"a\\\"b"), Bytes(b"a\"b"));
}

#[test]
fn utf8_rendering_is_lossy_and_display_only() {
    assert_eq!(Bytes(b"hello").as_utf8_str(), "hello");
    assert_eq!(Bytes(b"").as_utf8_str(), "");
    let rendered = Bytes(&[0x61, 0xff, 0x62]).as_utf8_str();
    assert_eq!(rendered, "a\u{fffd}b");
}

#[test]
fn slice_equality_helper() {
    assert!(slices_equal(b"abc", b"abc"));
    assert!(!slices_equal(b"abc", b"abd"));
    assert!(!slices_equal(b"abc", b"ab"));
    assert!(slices_equal(b"", b""));
}

#[test]
fn numeric_byte_classifiers() {
    for b in b'0'..=b'9' {
        assert!(is_numeric_like(b));
        assert!(is_numeric_or_negative(b));
    }
    assert!(is_numeric_like(b'.'));
    assert!(is_numeric_like(b'e'));
    assert!(is_numeric_like(b'-'));
    assert!(!is_numeric_like(b'+'));
    assert!(!is_numeric_like(b'x'));
    assert!(is_numeric_or_negative(b'-'));
    assert!(!is_numeric_or_negative(b'.'));
    assert!(!is_numeric_or_negative(b'e'));
}

#[test]
fn whitespace_byte_classifier() {
    assert!(is_whitespace(b' '));
    assert!(is_whitespace(b'\n'));
    assert!(is_whitespace(b'\r'));
    assert!(is_whitespace(b'\t'));
    assert!(!is_whitespace(b'a'));
    assert!(!is_whitespace(0));
}
