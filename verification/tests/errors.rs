use oxc_graphql_parser::ast::Span;
use oxc_graphql_parser::error::{Error, LimitTracker};

#[test]
fn limit_tracker_reaches_its_limit() {
    let mut t = LimitTracker::new(2);
    assert!(!t.check_and_increment());
    assert!(!t.check_and_increment());
    assert_eq!(t.high(), 2);
    assert!(t.check_and_increment());
    assert_eq!(t.current(), 2);
    assert_eq!(t.high(), 3);
    t.decrement();
    assert_eq!(t.current(), 1);
    assert_eq!(t.high(), 3);
    assert_eq!(t.limit(), 2);
}

#[test]
fn limit_tracker_of_zero_is_reached_at_once() {
    let mut t = LimitTracker::new(0);
    assert!(t.check_and_increment());
    assert_eq!(t.current(), 0);
}

#[test]
fn error_constructors() {
    let e = Error::with_loc("bad", "x".to_string(), 3);
    assert_eq!((e.message(), e.data(), e.index(), e.is_eof(), e.is_limit()), ("bad", "x", 3, false, false));
    let e = Error::eof("end", 7);
    assert_eq!((e.message(), e.data(), e.index(), e.is_eof(), e.is_limit()), ("end", "EOF", 7, true, false));
    let e = Error::limit("lim", 1);
    assert_eq!((e.message(), e.data(), e.index(), e.is_eof(), e.is_limit()), ("lim", "", 1, false, true));
}

#[test]
fn span_new_keeps_its_ends() {
    let s = Span::new(3, 9);
    assert_eq!((s.start, s.end), (3, 9));
}
