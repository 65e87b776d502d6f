use konfi::ast;
use konfi::eval::{eval, Ctx, EvalError, Rec, Store, Val};
use konfi::parser;
use konfi::DEFAULT_FUEL;

fn force_parse(s: &str) -> Box<ast::Expr> {
    parser::expr_opt(s)
        .unwrap_or_else(|| panic!("Expected being able to parse: {}", s))
}

fn eval_global(s: &str) -> Result<Val, EvalError> {
    let e = force_parse(s);
    let mut st = Store::new();
    let ctx = Ctx::global(&mut st);
    eval(&e, &mut st, ctx, DEFAULT_FUEL)
}

fn err(message: &str) -> Result<Val, EvalError> {
    Err(EvalError {
        message: message.to_string(),
    })
}

#[test]
fn eval_truthy() {
    let e = eval_global;
    let r = |b| Ok(Val::Bool(b));
    assert_eq!(e("!!7"), r(true));
    assert_eq!(e("!\"foo\""), r(false));
    assert_eq!(e("!!{}"), r(false));
    assert_eq!(e("!!{}"), r(false));
}

#[test]
fn eval_comp() {
    let e = eval_global;
    let r = |b| Ok(Val::Bool(b));
    assert_eq!(e("1 == 2"), r(false));
    assert_eq!(e("1 != 2"), r(true));
    assert_eq!(e("1 < 2 && 2 < 3"), r(true));
    // Tests that && binds more tightly than ||
    assert_eq!(e("1 || 1 && 0"), r(true));
    assert_eq!(e("1 || 0 && 0"), r(true));
}

#[test]
fn eval_rec() {
    assert_eq!(eval_global("{x: 3 - 8}.x"), Ok(Val::Int(-5)));
}

#[test]
fn eval_rec_lookup() {
    let rec = parser::expr_opt(
        r#"{
            b: {
                d: c + a
                c: 1
            }
            a: 1
        }.b.d"#,
    )
    .unwrap();
    let mut st = Store::new();
    let ctx = Ctx::global(&mut st);
    assert_eq!(eval(&rec, &mut st, ctx, DEFAULT_FUEL), Ok(Val::Int(2)));
}

#[test]
fn eval_rec_linear_dep() {
    let rec = parser::expr_opt(
        r#"{
            a: b.value
            b: c
            c: d
            d: e
            e: f
            f: {value: 1}
        }.a"#,
    )
    .unwrap();
    let mut st = Store::new();
    let ctx = Ctx::global(&mut st);
    assert_eq!(eval(&rec, &mut st, ctx, DEFAULT_FUEL), Ok(Val::Int(1)));
}

#[test]
fn order_independence_of_fields() {
    assert_eq!(eval_global("{ a: b\nb: 1 }.a"), Ok(Val::Int(1)));
    assert_eq!(eval_global("{ b: 1\na: b }.a"), Ok(Val::Int(1)));
}

#[test]
fn subtraction_is_right_associative() {
    assert_eq!(eval_global("3-8-1"), Ok(Val::Int(-4)));
    assert_eq!(eval_global("8/4/2"), Ok(Val::Int(4)));
}

#[test]
fn string_plus_int_is_type_error() {
    assert_eq!(
        eval_global("\"1\" + 2"),
        err("Invalid types for arithmetic operation '+': str and int")
    );
}

#[test]
fn truthiness_of_nonempty_record() {
    assert_eq!(eval_global("!!{a: 1}"), Ok(Val::Bool(true)));
    assert_eq!(eval_global("!!\"\""), Ok(Val::Bool(false)));
    assert_eq!(eval_global("!!0"), Ok(Val::Bool(false)));
}

#[test]
fn no_short_circuit_and() {
    // The left operand alone would decide both results, but the failing
    // right operand is still evaluated and its error surfaces.
    assert_eq!(eval_global("0 && nosuch"), err("Unbound variable 'nosuch'"));
    assert_eq!(eval_global("1 || nosuch"), err("Unbound variable 'nosuch'"));
}

#[test]
fn nested_field_access() {
    assert_eq!(eval_global("{x: {y: 7}}.x.y"), Ok(Val::Int(7)));
    assert_eq!(
        eval_global("{x: 7}.y"),
        err("Field does not exist 'y'")
    );
}

#[test]
fn unbound_variable_fails() {
    assert_eq!(eval_global("nosuch"), err("Unbound variable 'nosuch'"));
}

#[test]
fn field_access_on_non_record_fails() {
    assert_eq!(
        eval_global("7.x"),
        err("Invalid field access on value type 'int'")
    );
}

#[test]
fn unary_minus_on_record_fails() {
    assert_eq!(
        eval_global("-{}"),
        err("Cannot apply unary minus to type 'rec'")
    );
    assert_eq!(eval_global("- 5"), Ok(Val::Int(-5)));
    assert_eq!(eval_global("+x + {a: 4}.a"), err("Unbound variable 'x'"));
}

#[test]
fn shift_operators_are_unsupported() {
    assert_eq!(eval_global("1 << 2"), err("Unsupported shift operator"));
    assert_eq!(eval_global("1 >> 2"), err("Unsupported shift operator"));
}

#[test]
fn division_by_zero_fails() {
    assert_eq!(eval_global("1 / 0"), err("Division by zero"));
    assert_eq!(eval_global("-7 / 2"), Ok(Val::Int(-3)));
    assert_eq!(eval_global("7 / -2"), Ok(Val::Int(-3)));
}

#[test]
fn integer_overflow_fails() {
    assert_eq!(
        eval_global("9223372036854775807 + 1"),
        err("Integer overflow in operation '+'")
    );
    assert_eq!(
        eval_global("-9223372036854775808 - 1"),
        err("Integer overflow in operation '-'")
    );
    assert_eq!(
        eval_global("-(-9223372036854775808)"),
        err("Integer overflow in operation '-'")
    );
    assert_eq!(
        eval_global("-9223372036854775808 / -1"),
        err("Integer overflow in operation '/'")
    );
    assert_eq!(eval_global("-9223372036854775808"), Ok(Val::Int(i64::MIN)));
}

#[test]
fn cyclic_references_run_out_of_depth() {
    let e = force_parse("{a: b\nb: a}.a");
    let mut st = Store::new();
    let ctx = Ctx::global(&mut st);
    assert_eq!(
        eval(&e, &mut st, ctx, 64),
        err("Evaluation nesting too deep")
    );
}

#[test]
fn memoized_fields_yield_same_value_everywhere() {
    // `n` is referenced from two siblings and a nested child; every
    // reference sees the same value.
    assert_eq!(eval_global("{a: n\nb: n\nn: 3\ns: a + b + n}.s"), Ok(Val::Int(9)));
    assert_eq!(eval_global("{x: {y: n}\nn: 5}.x.y"), Ok(Val::Int(5)));
}

#[test]
fn string_and_bool_comparisons() {
    let t = Ok(Val::Bool(true));
    assert_eq!(eval_global("\"abc\" < \"abd\""), t);
    assert_eq!(eval_global("\"b\" >= \"a\""), t);
    assert_eq!(eval_global("\"a\" == \"a\""), t);
    assert_eq!(eval_global("(1 == 1) == (2 == 2)"), t);
    assert_eq!(eval_global("(1 == 2) < (1 == 1)"), t);
    assert_eq!(
        eval_global("\"a\" < 1"),
        err("Invalid types for arithmetic operation '<': str and int")
    );
}

#[test]
fn val_type_names() {
    assert_eq!(Val::Nil.typ(), "nil");
    assert_eq!(Val::Bool(true).typ(), "bool");
    assert_eq!(Val::Int(3).typ(), "int");
    assert_eq!(Val::Str("x".to_string()).typ(), "str");
    assert_eq!(Val::Rec(0).typ(), "rec");
}

#[test]
fn record_set_and_get() {
    let mut r = Rec::new();
    assert!(r.is_empty());
    assert_eq!(r.getattr("a"), None);
    r.setattr("a", Val::Int(1));
    assert!(!r.is_empty());
    assert_eq!(r.getattr("a"), Some(Val::Int(1)));
    // Map semantics: a second set overwrites.
    r.setattr("a", Val::Int(2));
    assert_eq!(r.getattr("a"), Some(Val::Int(2)));
    r.setattr("b", Val::Str("s".to_string()));
    assert_eq!(r.getattr("b"), Some(Val::Str("s".to_string())));
}

#[test]
fn truthiness_of_values_directly() {
    let st = Store::new();
    assert!(!Val::Nil.to_bool(&st));
    assert!(Val::Int(7).to_bool(&st));
    assert!(!Val::Int(0).to_bool(&st));
    assert!(Val::Str("x".to_string()).to_bool(&st));
    assert!(!Val::Str("".to_string()).to_bool(&st));
    assert!(Val::Bool(true).to_bool(&st));
}

#[test]
fn whole_pipeline_via_parse_module() {
    let m = parser::parse_module(
        r#"
        let unused = 1

        {
            greeting: "hi"
            n: m * 2
            m: 21
        }
        "#,
    )
    .expect("should parse");
    let mut st = Store::new();
    let ctx = Ctx::global(&mut st);
    let v = eval(&m.expr, &mut st, ctx, DEFAULT_FUEL).expect("should evaluate");
    match v {
        Val::Rec(ri) => {
            assert_eq!(st.recs[ri].getattr("n"), Some(Val::Int(42)));
            assert_eq!(
                st.recs[ri].getattr("greeting"),
                Some(Val::Str("hi".to_string()))
            );
        }
        other => panic!("expected a record, got {:?}", other),
    }
}
