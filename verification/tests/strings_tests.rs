use konfi::strings::parse_string;

fn p(s: &str) -> Option<(usize, String)> {
    let v: Vec<char> = s.chars().collect();
    parse_string(&v, 0)
}

fn full(s: &str) -> Option<String> {
    let v: Vec<char> = s.chars().collect();
    match parse_string(&v, 0) {
        Some((pos, content)) if pos == v.len() => Some(content),
        _ => None,
    }
}

#[test]
fn parse_string_simple() {
    assert_eq!(full("\"foo\""), Some(String::from("foo")));
    assert_eq!(full("\"   \""), Some(String::from("   ")));
    // Like in Rust, ' can be, but doesn't have to be escaped:
    assert_eq!(full(r#""O\'Hare""#), Some(String::from("O\'Hare")));
    assert_eq!(full(r#""O'Hare""#), Some(String::from("O'Hare")));
    assert_eq!(
        full(r#""123\n456\n789\n""#),
        Some(String::from("123\n456\n789\n"))
    );
    assert_eq!(full(r#""\\begin{foo}""#), Some(String::from("\\begin{foo}")));
}

#[test]
fn parse_string_escaped_unicode() {
    assert_eq!(
        full(r#""S\u{00F6}gestra\u{df}e""#),
        Some(String::from("S\u{f6}gestra\u{df}e"))
    );
}

#[test]
fn parse_string_escaped_whitespace() {
    let s = "foo\
        bar";
    assert_eq!(full(&format!("\"{}\"", s)), Some(String::from("foobar")));
    assert_eq!(
        full("\"abc\\   \n   def\\   ghi \""),
        Some(String::from("abcdefghi "))
    );
}

#[test]
fn parse_string_leaves_trailing_input() {
    assert_eq!(p("\"ab\" + 1"), Some((4, String::from("ab"))));
}

#[test]
fn parse_string_rejects_bad_input() {
    // Unterminated literal.
    assert_eq!(p("\"abc"), None);
    // Unknown escape.
    assert_eq!(p(r#""\q""#), None);
    // Code point past the Unicode range.
    assert_eq!(p(r#""\u{110000}""#), None);
    // A surrogate is not a scalar value.
    assert_eq!(p(r#""\u{D800}""#), None);
    // Not a string at all.
    assert_eq!(p("foo"), None);
}

#[test]
fn parse_string_more_escapes() {
    assert_eq!(full(r#""\u{41}\t\r\b\f\/\"""#), Some(String::from("A\t\r\u{8}\u{c}/\"")));
}
