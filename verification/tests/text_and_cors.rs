use quiz_server::cors::CORS;
use quiz_server::text::{blank, parse_number, question_lines, split_fields, str_equals};

#[test]
fn splits_at_every_separator() {
    assert_eq!(split_fields("a#b##c", '#'), vec!["a", "b", "", "c"]);
    assert_eq!(split_fields("", '#'), vec![""]);
    assert_eq!(split_fields("#", '#'), vec!["", ""]);
    assert_eq!("x#y".split('#').collect::<Vec<_>>(), split_fields("x#y", '#'));
}

#[test]
fn lines_like_str_lines() {
    let text = "one\r\ntwo\n\n \u{3000}\nthree\rfour\nlast\r";
    let expected: Vec<&str> = text.lines().filter(|l| !l.trim().is_empty()).collect();
    assert_eq!(question_lines(text), expected);
    assert_eq!(question_lines(""), Vec::<String>::new());
    assert_eq!(question_lines("\n"), Vec::<String>::new());
}

#[test]
fn blank_means_only_white_space() {
    assert!(blank(""));
    assert!(blank(" \t\r\n\u{a0}\u{2003}"));
    assert!(!blank(" x "));
}

#[test]
fn numbers_and_equality() {
    assert_eq!(parse_number("42"), Some(42));
    assert_eq!(parse_number("+1"), Some(1));
    assert_eq!(parse_number("4 2"), None);
    assert_eq!(parse_number("x"), None);
    assert!(str_equals("abc", "abc"));
    assert!(!str_equals("abc", "abd"));
    assert!(!str_equals("ab", "abc"));
}

#[test]
fn cors_headers() {
    let c = CORS;
    assert_eq!(c.name(), "Attaching CORS headers to responses");
    assert_eq!(
        c.headers(),
        vec![
            ("Access-Control-Allow-Origin", "*"),
            ("Access-Control-Allow-Methods", "POST, GET, PATCH, OPTIONS"),
            ("Access-Control-Allow-Headers", "*"),
            ("Access-Control-Allow-Credentials", "true"),
        ]
    );
}
