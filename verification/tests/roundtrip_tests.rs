//! Round trips: parsing the textual rendering of a record literal and
//! evaluating it reproduces the value tree of the original source.

use konfi::ast;
use konfi::eval::{eval, Ctx, EvalError, Store, Val};
use konfi::parser;
use konfi::DEFAULT_FUEL;

fn eval_global(s: &str) -> Result<Val, EvalError> {
    let e = parser::expr_opt(s)
        .unwrap_or_else(|| panic!("Expected being able to parse: {}", s));
    let mut st = Store::new();
    let ctx = Ctx::global(&mut st);
    eval(&e, &mut st, ctx, DEFAULT_FUEL)
}

/// The two sources evaluate to the same value at every one of the given
/// field paths.
fn assert_same_tree(original: &str, rendering: &str, paths: &[&str]) {
    for path in paths {
        let a = eval_global(&format!("{}{}", original, path));
        let b = eval_global(&format!("{}{}", rendering, path));
        assert_eq!(a, b, "trees differ at path {}", path);
        assert!(a.is_ok(), "path {} did not evaluate", path);
    }
}

#[test]
fn roundtrip_flat_record() {
    let original = "{ a: 1\nb: \"x\"\nc: 2 + 3 }";
    // The same record, rendered field by field from its evaluated values.
    let rendering = "{\na: 1\nb: \"x\"\nc: 5\n}";
    assert_same_tree(original, rendering, &[".a", ".b", ".c"]);
}

#[test]
fn roundtrip_nested_record() {
    let original = "{ outer: { inner: n }\nn: 7 }";
    let rendering = "{\nouter: {\ninner: 7\n}\nn: 7\n}";
    assert_same_tree(original, rendering, &[".outer.inner", ".n"]);
}

#[test]
fn roundtrip_string_escapes() {
    // The rendering escapes the quote and the backslash; decoding restores
    // the original text.
    let original = "{ s: \"a\\\\b\\\"c\" }";
    let rendering = "{\ns: \"a\\\\b\\\"c\"\n}";
    assert_same_tree(original, rendering, &[".s"]);
    assert_eq!(
        eval_global("{ s: \"a\\\\b\\\"c\" }.s"),
        Ok(Val::Str("a\\b\"c".to_string()))
    );
}

#[test]
fn integer_rendering_parses_back() {
    for v in [0i64, 7, -7, 42, 1000, i64::MAX, i64::MIN] {
        let text: String = konfi::text::fmt_i64(v).iter().collect();
        let e = parser::expr_opt(&text)
            .unwrap_or_else(|| panic!("Could not parse rendering of {}", v));
        assert_eq!(*e, ast::Expr::Literal(ast::Literal::Int(v)));
        assert_eq!(eval_global(&text), Ok(Val::Int(v)));
    }
}

#[test]
fn reparsing_a_parsed_record_gives_the_same_tree() {
    // Parsing is stable: two textual forms of one record literal parse to
    // the same expression tree.
    let a = parser::expr_opt("{ x: 1\ny: { z: 2 } }").unwrap();
    let b = parser::expr_opt("{\n  x: 1\n  y: {\n    z: 2\n  }\n}").unwrap();
    assert_eq!(*a, *b);
    match *a {
        ast::Expr::Rec(ref r) => assert_eq!(r.fields.len(), 2),
        _ => panic!("expected a record literal"),
    }
}
