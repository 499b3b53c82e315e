use sn::Stream;

#[test]
fn new_stream_starts_at_the_beginning() {
    let s = Stream::new(b"abc");
    assert_eq!(s.position(), 0);
    assert_eq!(s.length(), 3);
    assert!(!s.is_eof());
}

#[test]
fn current_and_copied_accessors() {
    let s = Stream::new(b"ab");
    assert_eq!(s.current(), Some(&b'a'));
    assert_eq!(s.current_copied(), Some(b'a'));
    assert_eq!(s.current_unchecked(), b'a');
    let empty = Stream::new(b"");
    assert!(empty.is_eof());
    assert_eq!(empty.current(), None);
    assert_eq!(empty.current_copied(), None);
}

#[test]
fn next_moves_and_stops_at_the_end() {
    let mut s = Stream::new(b"ab");
    assert_eq!(s.next(), Some(&b'b'));
    assert_eq!(s.position(), 1);
    assert_eq!(s.next(), None);
    assert_eq!(s.position(), 1);
}

#[test]
fn next_copied_and_unchecked() {
    let mut s = Stream::new(b"abc");
    assert_eq!(s.next_copied(), Some(b'b'));
    assert_eq!(*s.next_unchecked(), b'c');
    assert_eq!(s.position(), 2);
    assert_eq!(s.next_copied(), None);
    assert!(s.is_eof());
}

#[test]
fn peeking_does_not_move() {
    let mut s = Stream::new(b"abc");
    assert_eq!(s.peek(), Some(&b'b'));
    assert_eq!(s.position(), 0);
    assert_eq!(s.peek_back(), None);
    assert_eq!(s.peek_back_copied(), None);
    s.skip();
    assert_eq!(s.peek_back(), Some(&b'a'));
    assert_eq!(s.peek_back_copied(), Some(b'a'));
    s.skip();
    assert_eq!(s.peek(), None);
}

#[test]
fn conditional_advances() {
    let mut s = Stream::new(b"abc");
    assert_eq!(s.next_if_current_is(b'x'), None);
    assert_eq!(s.position(), 0);
    assert_eq!(s.next_if_current_is(b'a'), Some(b'a'));
    assert_eq!(s.position(), 1);
    assert_eq!(s.next_if_current_present_in(b"xyb"), Some(b'b'));
    assert_eq!(s.position(), 2);
    assert_eq!(s.next_if_current_present_in(b"xy"), None);
    assert_eq!(s.position(), 2);
    assert!(s.skip_if_current_is(b'c'));
    assert!(s.is_eof());
    assert!(!s.skip_if_current_is(b'c'));
}

#[test]
fn skipping_and_rewinding() {
    let mut s = Stream::new(b"abcdef");
    s.skip();
    s.skip_n(3);
    assert_eq!(s.position(), 4);
    s.unskip();
    assert_eq!(s.position(), 3);
    assert_eq!(s.current_copied(), Some(b'd'));
    s.reset_to_start();
    assert_eq!(s.position(), 0);
}

#[test]
fn slicing() {
    let s = Stream::new(b"abcdef");
    assert_eq!(s.slice(1, 4), b"bcd");
    assert_eq!(s.slice(2, 100), b"cdef");
    assert_eq!(s.slice_unchecked(0, 6), b"abcdef");
    assert_eq!(s.slice_unchecked(3, 3), b"");
    assert_eq!(s.slice_len(1, 2), b"bc");
    assert_eq!(s.slice_len(4, 10), b"ef");
}
