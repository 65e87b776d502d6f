use konfi::ast::{self, BinOp, LetBinding, UnOp, Var};
use konfi::ast::BinOp::{Plus, Times};
use konfi::ast::UnOp::{Not, UnMinus};
use konfi::parser::{self, BinopPrecedence};

fn chars(s: &str) -> Vec<char> {
    s.chars().collect()
}

// Helper functions to build expressions.

fn ilit(i: i64) -> ast::Literal {
    ast::Literal::Int(i)
}

fn ilit_expr(i: i64) -> Box<ast::Expr> {
    Box::new(ast::Expr::Literal(ilit(i)))
}

fn slit_expr(t: &str) -> Box<ast::Expr> {
    Box::new(ast::Expr::Literal(ast::Literal::Str(String::from(t))))
}

fn var(s: &str) -> ast::Var {
    ast::Var {
        name: String::from(s),
    }
}

fn var_expr(s: &str) -> Box<ast::Expr> {
    Box::new(ast::Expr::Var(var(s)))
}

fn unexpr(op: ast::UnOp, e: Box<ast::Expr>) -> Box<ast::Expr> {
    Box::new(ast::Expr::UnExpr(op, e))
}

fn binexpr(a: Box<ast::Expr>, op: ast::BinOp, b: Box<ast::Expr>) -> Box<ast::Expr> {
    Box::new(ast::Expr::BinExpr(a, op, b))
}

fn rec_expr(fields: Vec<(&str, Box<ast::Expr>)>) -> Box<ast::Expr> {
    let mut fs = Vec::new();
    for (f, e) in fields.into_iter() {
        fs.push(ast::Field {
            name: f.to_string(),
            value: e,
        });
    }
    Box::new(ast::Expr::Rec(ast::Rec {
        let_vars: vec![],
        fields: fs,
    }))
}

fn acc_expr(e: Box<ast::Expr>, f: &str) -> Box<ast::Expr> {
    Box::new(ast::Expr::FieldAcc(e, String::from(f)))
}

fn letvar(x: &str, e: Box<ast::Expr>) -> LetBinding {
    LetBinding {
        var: ast::Var {
            name: x.to_string(),
        },
        value: e,
    }
}

/// Parse an expression that must span the whole input.
fn force_expr(input: &str) -> Box<ast::Expr> {
    parser::expr_opt(input)
        .unwrap_or_else(|| panic!("Could not parse: {}", input))
}

#[test]
fn i64_works() {
    let s = chars("123");
    assert_eq!(parser::int_literal(&s, 0), Some((3, 123)));
    let s = chars("+1");
    assert_eq!(parser::int_literal(&s, 0), Some((2, 1)));
    let s = chars("-2");
    assert_eq!(parser::int_literal(&s, 0), Some((2, -2)));
}

#[test]
fn var_works() {
    let s = chars("y");
    assert_eq!(parser::var(&s, 0), Some((1, var("y"))));
    let s = chars("_");
    assert_eq!(parser::var(&s, 0), Some((1, var("_"))));
    let s = chars("_1");
    assert_eq!(parser::var(&s, 0), Some((2, var("_1"))));
    // The rest of the input (".x") stays unconsumed.
    let s = chars("foo_1.x");
    assert_eq!(parser::var(&s, 0), Some((5, var("foo_1"))));
    let s = chars("1");
    assert!(parser::var(&s, 0).is_none());
}

#[test]
fn expr_works() {
    let v = var_expr;
    let l = ilit_expr;
    let bin = binexpr;
    let un = unexpr;
    assert_eq!(force_expr("x+y *3"), bin(v("x"), Plus, bin(v("y"), Times, l(3))));
    assert_eq!(
        force_expr("x * y + 3"),
        bin(bin(v("x"), Times, v("y")), Plus, l(3))
    );
    assert_eq!(
        force_expr("(x + y ) *3"),
        bin(bin(v("x"), Plus, v("y")), Times, l(3))
    );
    // Right-associative expr parsing:
    let right_assoc_add = bin(v("x"), Plus, bin(v("y"), Plus, v("z")));
    assert_eq!(force_expr("x+y+z"), right_assoc_add);
    let right_assoc_add2 = bin(v("x"), Plus, bin(v("y"), Plus, v("z")));
    assert_eq!(force_expr("x+(y+z)"), right_assoc_add2);
    assert_eq!(force_expr("! !x"), un(Not, un(Not, v("x"))));
    assert_eq!(force_expr("x + - y"), bin(v("x"), Plus, un(UnMinus, v("y"))));
}

#[test]
fn expr_long_chain() {
    // Ensure the parser does not suffer from a combinatorial explosion
    // when parsing long chains of expressions.
    let args = vec!["a"; 1000];
    assert!(parser::expr_opt(&args.join("*")[..]).is_some());
    assert!(parser::expr_opt(&args.join("||")[..]).is_some());
    assert!(parser::expr_opt(&args.join(">>")[..]).is_some());
}

#[test]
fn expr_rec_field_access() {
    let l = ilit_expr;
    let r = rec_expr;
    let get = acc_expr;
    assert_eq!(force_expr("{x: 7}.x"), get(r(vec![("x", l(7))]), "x"));
    assert_eq!(
        force_expr("{x: {y: 7}}.x.y"),
        get(get(r(vec![("x", r(vec![("y", l(7))]))]), "x"), "y")
    );
}

#[test]
fn rec_works() {
    let l = ilit_expr;
    let s = slit_expr;
    let r = rec_expr;
    let input = chars("{}");
    assert_eq!(parser::rec(&input, 0), Some((2, r(vec![]))));
    let input = chars("{}");
    assert_eq!(parser::rec(&input, 0), Some((2, r(vec![]))));
    let text = r#"{
            x: 7
            y: 10
        }"#;
    let input = chars(text);
    assert_eq!(
        parser::rec(&input, 0),
        Some((text.chars().count(), r(vec![("x", l(7)), ("y", l(10))])))
    );
    let text = r#"{
            x: {
                y: {
                    z: "foo"
                }
            }
        }"#;
    let input = chars(text);
    assert_eq!(
        parser::rec(&input, 0),
        Some((
            text.chars().count(),
            r(vec![("x", r(vec![("y", r(vec![("z", s("foo"))]))]))])
        ))
    );
}

#[test]
fn let_binding_works() {
    let input = chars("let x = 7");
    assert_eq!(
        parser::let_binding(&input, 0),
        Some((
            9,
            LetBinding {
                var: Var {
                    name: "x".to_string(),
                },
                value: ilit_expr(7),
            }
        ))
    );
}

#[test]
fn module_works() {
    let r = rec_expr;
    let text = r#"
        let x = 1

        let y = 2

        {
            a: 1
        }
        "#;
    let input = chars(text);
    assert_eq!(
        parser::module(&input, 0),
        Some((
            text.chars().count(),
            ast::Module {
                let_vars: vec![letvar("x", ilit_expr(1)), letvar("y", ilit_expr(2))],
                expr: r(vec![("a", ilit_expr(1))]),
            }
        ))
    );
}

#[test]
fn shift_tokens_map_to_their_constants() {
    let l = ilit_expr;
    assert_eq!(
        force_expr("1 << 2"),
        binexpr(l(1), BinOp::ShiftLeft, l(2))
    );
    assert_eq!(
        force_expr("1 >> 2"),
        binexpr(l(1), BinOp::ShiftRight, l(2))
    );
}

#[test]
fn int_literal_underscores() {
    let s = chars("1_000");
    assert_eq!(parser::int_literal(&s, 0), Some((5, 1000)));
    let s = chars("1__2_");
    assert_eq!(parser::int_literal(&s, 0), Some((5, 12)));
    let s = chars("_1");
    assert!(parser::int_literal(&s, 0).is_none());
}

#[test]
fn int_literal_bounds() {
    let s = chars("9223372036854775807");
    assert_eq!(parser::int_literal(&s, 0), Some((19, i64::MAX)));
    let s = chars("-9223372036854775808");
    assert_eq!(parser::int_literal(&s, 0), Some((20, i64::MIN)));
    // One past the greatest value is not an integer literal.
    let s = chars("9223372036854775808");
    assert!(parser::int_literal(&s, 0).is_none());
}

#[test]
fn unicode_identifiers_parse() {
    // Identifiers follow the Unicode alphabetic classes.
    let name = "f\u{fc}r";
    assert_eq!(force_expr(name), var_expr(name));
}

#[test]
fn parse_module_accepts_lets_and_expr() {
    let m = parser::parse_module("let x = 7\n\n{\na: 1\n}").expect("should parse");
    assert_eq!(m.let_vars.len(), 1);
    assert_eq!(*m.expr, *rec_expr(vec![("a", ilit_expr(1))]));
}

#[test]
fn parse_module_rejects_trailing_input() {
    let e = parser::parse_module("{\na: 1\n} extra").unwrap_err();
    assert_eq!(e.message, "expected end of input at line 3, column 3");
}

#[test]
fn parse_module_reports_missing_expression() {
    let e = parser::parse_module("").unwrap_err();
    assert_eq!(e.message, "expected an expression at line 1, column 1");
    let e = parser::parse_module("let x = 7\n").unwrap_err();
    assert!(e.message.contains("expected an expression"));
    // An incomplete binding is not a binding; the line parses as far as
    // the variable `let`, and the rest is trailing input.
    let e = parser::parse_module("let x = ").unwrap_err();
    assert!(e.message.contains("expected end of input"));
}

#[test]
fn precedence_levels_step_down() {
    assert!(BinopPrecedence::Multiplicative.is_terminal());
    assert!(!BinopPrecedence::LogicalOr.is_terminal());
    assert_eq!(BinopPrecedence::LogicalOr.next(), BinopPrecedence::LogicalAnd);
    assert_eq!(BinopPrecedence::LogicalAnd.next(), BinopPrecedence::Equality);
    assert_eq!(BinopPrecedence::Equality.next(), BinopPrecedence::Relational);
    assert_eq!(BinopPrecedence::Relational.next(), BinopPrecedence::Shift);
    assert_eq!(BinopPrecedence::Shift.next(), BinopPrecedence::Additive);
    assert_eq!(
        BinopPrecedence::Additive.next(),
        BinopPrecedence::Multiplicative
    );
}
