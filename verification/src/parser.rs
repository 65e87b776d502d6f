//! The parser: recursive descent with precedence climbing.
//!
//! Every parsing function has a specification twin over `Seq<char>`; the
//! executable function is proved to return exactly what its twin describes.
//! The grammar is a deterministic ordered-choice grammar: each `spec_*`
//! function *is* the meaning of its production.
//!
//! One deliberate quirk: the right operand of a binary operator is parsed at
//! the *same* precedence level, so operators of one level associate to the
//! right: `a - b - c` parses as `a - (b - c)`.

use vstd::prelude::*;
use crate::ast::{
    BinOp, Expr, ExprView, Field, FieldView, LetBinding, LetView, Literal, LiteralView, Module,
    ModuleView, Rec, RecView, UnOp, Var, expr_view, field_view, fields_view, let_view, lets_view,
    module_view, rec_view,
};
use crate::chars::{chars_string, str_chars};
use crate::strings::{parse_string, spec_parse_string};
use crate::text::{
    digit_val, hws_pred, ident_cont_pred, ident_start_pred, intlit_pred, is_digit_char,
    is_digit_char_e, lemma_span_bounds, span, take_hws, take_ident_cont, take_ident_start,
    take_intlit, take_ws, ws_pred, dec_digits, dec_int, fmt_u64,
};

verus! {

// ---------------------------------------------------------------------------
// Precedence levels.
// ---------------------------------------------------------------------------

/// The precedence classes of the binary operators, loosest binding last.
#[derive(PartialEq, Eq, Structural, Debug, Clone, Copy)]
pub enum BinopPrecedence {
    Multiplicative,
    Additive,
    Shift,
    Relational,
    Equality,
    LogicalAnd,
    LogicalOr,
}

impl BinopPrecedence {
    /// How loosely this level binds; `Multiplicative` is tightest at 0.
    pub open spec fn rank(self) -> int {
        match self {
            BinopPrecedence::Multiplicative => 0,
            BinopPrecedence::Additive => 1,
            BinopPrecedence::Shift => 2,
            BinopPrecedence::Relational => 3,
            BinopPrecedence::Equality => 4,
            BinopPrecedence::LogicalAnd => 5,
            BinopPrecedence::LogicalOr => 6,
        }
    }

    /// The next tighter level; `Multiplicative` has none and maps to itself.
    pub open spec fn next_level(self) -> BinopPrecedence {
        match self {
            BinopPrecedence::LogicalOr => BinopPrecedence::LogicalAnd,
            BinopPrecedence::LogicalAnd => BinopPrecedence::Equality,
            BinopPrecedence::Equality => BinopPrecedence::Relational,
            BinopPrecedence::Relational => BinopPrecedence::Shift,
            BinopPrecedence::Shift => BinopPrecedence::Additive,
            BinopPrecedence::Additive => BinopPrecedence::Multiplicative,
            BinopPrecedence::Multiplicative => BinopPrecedence::Multiplicative,
        }
    }

    pub fn is_terminal(&self) -> (r: bool)
        ensures
            r == (*self == BinopPrecedence::Multiplicative),
    {
        *self == Self::Multiplicative
    }

    pub fn next(&self) -> (r: Self)
        requires
            *self != BinopPrecedence::Multiplicative,
        ensures
            r == self.next_level(),
            r.rank() == self.rank() - 1,
    {
        match *self {
            Self::LogicalOr => Self::LogicalAnd,
            Self::LogicalAnd => Self::Equality,
            Self::Equality => Self::Relational,
            Self::Relational => Self::Shift,
            Self::Shift => Self::Additive,
            Self::Additive => Self::Multiplicative,
            Self::Multiplicative => {
                proof {
                    assert(false);
                }
                Self::Multiplicative
            },
        }
    }
}

// ---------------------------------------------------------------------------
// Small productions: identifiers, integers, operators, line breaks.
// ---------------------------------------------------------------------------

/// An identifier: one or more alphabetic-or-underscore characters, then any
/// run of alphanumeric-or-underscore characters.
pub open spec fn spec_ident(s: Seq<char>, pos: int) -> Option<(int, Seq<char>)> {
    if 0 <= pos && pos <= s.len() {
        let e1 = span(s, pos, ident_start_pred());
        if e1 > pos {
            let e2 = span(s, e1, ident_cont_pred());
            Some((e2, s.subrange(pos, e2)))
        } else {
            None
        }
    } else {
        None
    }
}

pub proof fn lemma_ident_bounds(s: Seq<char>, pos: int)
    requires
        0 <= pos <= s.len(),
    ensures
        spec_ident(s, pos) matches Some((p, _)) ==> pos < p <= s.len(),
{
    lemma_span_bounds(s, pos, ident_start_pred());
    let e1 = span(s, pos, ident_start_pred());
    if e1 > pos {
        lemma_span_bounds(s, e1, ident_cont_pred());
    }
}

/// The value of the digits in `s[pos..end)`, underscores skipped.
pub open spec fn digits_val(s: Seq<char>, pos: int, end: int) -> int
    decreases end - pos,
{
    if pos >= end {
        0
    } else if s[end - 1] == '_' {
        digits_val(s, pos, end - 1)
    } else {
        digits_val(s, pos, end - 1) * 10 + digit_val(s[end - 1])
    }
}

/// An integer literal: an optional sign, then digits, each optionally
/// followed by underscores. `None` also covers values outside `i64`.
pub open spec fn spec_int_literal(s: Seq<char>, pos: int) -> Option<(int, i64)> {
    if 0 <= pos && pos <= s.len() {
        let neg = pos < s.len() && s[pos] == '-';
        let dstart = if pos < s.len() && (s[pos] == '+' || s[pos] == '-') {
            pos + 1
        } else {
            pos
        };
        if dstart < s.len() && is_digit_char(s[dstart]) {
            let e = span(s, dstart, intlit_pred());
            let v = if neg {
                -digits_val(s, dstart, e)
            } else {
                digits_val(s, dstart, e)
            };
            if i64::MIN <= v && v <= i64::MAX {
                Some((e, v as i64))
            } else {
                None
            }
        } else {
            None
        }
    } else {
        None
    }
}

pub proof fn lemma_int_literal_bounds(s: Seq<char>, pos: int)
    requires
        0 <= pos <= s.len(),
    ensures
        spec_int_literal(s, pos) matches Some((p, _)) ==> pos < p <= s.len(),
{
    let dstart = if pos < s.len() && (s[pos] == '+' || s[pos] == '-') {
        pos + 1
    } else {
        pos
    };
    if dstart < s.len() && is_digit_char(s[dstart]) {
        lemma_span_bounds(s, dstart, intlit_pred());
        assert(span(s, dstart, intlit_pred()) == span(s, dstart + 1, intlit_pred()));
        lemma_span_bounds(s, dstart + 1, intlit_pred());
    }
}

/// A unary operator character.
pub open spec fn spec_unop(s: Seq<char>, pos: int) -> Option<(int, UnOp)> {
    if 0 <= pos && pos < s.len() {
        if s[pos] == '-' {
            Some(((pos + 1) as int, UnOp::UnMinus))
        } else if s[pos] == '+' {
            Some(((pos + 1) as int, UnOp::UnPlus))
        } else if s[pos] == '!' {
            Some(((pos + 1) as int, UnOp::Not))
        } else {
            None
        }
    } else {
        None
    }
}

/// Whether the two characters `a` then `b` stand at `pos`.
pub open spec fn two_at(s: Seq<char>, pos: int, a: char, b: char) -> bool {
    0 <= pos && pos + 1 < s.len() && s[pos] == a && s[pos + 1] == b
}

/// A binary operator of the given precedence level.
pub open spec fn spec_binop(lvl: BinopPrecedence, s: Seq<char>, pos: int) -> Option<(int, BinOp)> {
    match lvl {
        BinopPrecedence::Multiplicative => {
            if 0 <= pos && pos < s.len() && s[pos] == '*' {
                Some(((pos + 1) as int, BinOp::Times))
            } else if 0 <= pos && pos < s.len() && s[pos] == '/' {
                Some(((pos + 1) as int, BinOp::Div))
            } else {
                None
            }
        },
        BinopPrecedence::Additive => {
            if 0 <= pos && pos < s.len() && s[pos] == '+' {
                Some(((pos + 1) as int, BinOp::Plus))
            } else if 0 <= pos && pos < s.len() && s[pos] == '-' {
                Some(((pos + 1) as int, BinOp::Minus))
            } else {
                None
            }
        },
        BinopPrecedence::Shift => {
            if two_at(s, pos, '>', '>') {
                Some(((pos + 2) as int, BinOp::ShiftRight))
            } else if two_at(s, pos, '<', '<') {
                Some(((pos + 2) as int, BinOp::ShiftLeft))
            } else {
                None
            }
        },
        BinopPrecedence::Relational => {
            if two_at(s, pos, '<', '=') {
                Some(((pos + 2) as int, BinOp::LessEq))
            } else if two_at(s, pos, '>', '=') {
                Some(((pos + 2) as int, BinOp::GreaterEq))
            } else if 0 <= pos && pos < s.len() && s[pos] == '<' {
                Some(((pos + 1) as int, BinOp::LessThan))
            } else if 0 <= pos && pos < s.len() && s[pos] == '>' {
                Some(((pos + 1) as int, BinOp::GreaterThan))
            } else {
                None
            }
        },
        BinopPrecedence::Equality => {
            if two_at(s, pos, '=', '=') {
                Some(((pos + 2) as int, BinOp::Eq))
            } else if two_at(s, pos, '!', '=') {
                Some(((pos + 2) as int, BinOp::NotEq))
            } else {
                None
            }
        },
        BinopPrecedence::LogicalAnd => {
            if two_at(s, pos, '&', '&') {
                Some(((pos + 2) as int, BinOp::LogicalAnd))
            } else {
                None
            }
        },
        BinopPrecedence::LogicalOr => {
            if two_at(s, pos, '|', '|') {
                Some(((pos + 2) as int, BinOp::LogicalOr))
            } else {
                None
            }
        },
    }
}

/// A record-field separator: horizontal whitespace, then a line break.
pub open spec fn spec_eol(s: Seq<char>, pos: int) -> Option<int> {
    if 0 <= pos && pos <= s.len() {
        let i = span(s, pos, hws_pred());
        if i + 1 < s.len() && s[i] == '\r' && s[i + 1] == '\n' {
            Some(i + 2)
        } else if i < s.len() && s[i] == '\n' {
            Some(i + 1)
        } else {
            None
        }
    } else {
        None
    }
}

pub proof fn lemma_eol_bounds(s: Seq<char>, pos: int)
    requires
        0 <= pos <= s.len(),
    ensures
        spec_eol(s, pos) matches Some(p) ==> pos < p <= s.len(),
{
    lemma_span_bounds(s, pos, hws_pred());
}

// ---------------------------------------------------------------------------
// Executable twins of the small productions.
// ---------------------------------------------------------------------------

/// Copy `s[a..b)` into a `String`.
fn substring(s: &Vec<char>, a: usize, b: usize) -> (r: String)
    requires
        a <= b <= s.len(),
    ensures
        r@ == s@.subrange(a as int, b as int),
{
    let mut v: Vec<char> = Vec::new();
    let mut k: usize = a;
    while k < b
        invariant
            a <= k <= b <= s.len(),
            v@ == s@.subrange(a as int, k as int),
        decreases b - k,
    {
        let c = s[k];
        proof {
            assert(s@.subrange(a as int, k as int + 1) =~= s@.subrange(a as int, k as int).push(
                c,
            ));
        }
        v.push(c);
        k = k + 1;
    }
    chars_string(&v)
}

pub fn ident(s: &Vec<char>, pos: usize) -> (r: Option<(usize, String)>)
    requires
        pos <= s.len(),
    ensures
        match r {
            Some((p, name)) => {
                &&& spec_ident(s@, pos as int) == Some((p as int, name@))
                &&& pos < p <= s.len()
            },
            None => spec_ident(s@, pos as int) is None,
        },
{
    proof {
        lemma_ident_bounds(s@, pos as int);
        lemma_span_bounds(s@, pos as int, ident_start_pred());
    }
    let e1 = take_ident_start(s, pos);
    if e1 > pos {
        let e2 = take_ident_cont(s, e1);
        Some((e2, substring(s, pos, e2)))
    } else {
        None
    }
}

/// A variable reference: an identifier.
pub fn var(s: &Vec<char>, pos: usize) -> (r: Option<(usize, Var)>)
    requires
        pos <= s.len(),
    ensures
        match r {
            Some((p, v)) => {
                &&& spec_ident(s@, pos as int) == Some((p as int, v.name@))
                &&& pos < p <= s.len()
            },
            None => spec_ident(s@, pos as int) is None,
        },
{
    match ident(s, pos) {
        Some((p, name)) => Some((p, Var { name })),
        None => None,
    }
}

fn unop(s: &Vec<char>, pos: usize) -> (r: Option<(usize, UnOp)>)
    requires
        pos <= s.len(),
    ensures
        match r {
            Some((p, op)) => {
                &&& spec_unop(s@, pos as int) == Some((p as int, op))
                &&& pos < p <= s.len()
            },
            None => spec_unop(s@, pos as int) is None,
        },
{
    if pos < s.len() {
        let c = s[pos];
        if c == '-' {
            Some((pos + 1, UnOp::UnMinus))
        } else if c == '+' {
            Some((pos + 1, UnOp::UnPlus))
        } else if c == '!' {
            Some((pos + 1, UnOp::Not))
        } else {
            None
        }
    } else {
        None
    }
}

fn binop(lvl: BinopPrecedence, s: &Vec<char>, pos: usize) -> (r: Option<(usize, BinOp)>)
    requires
        pos <= s.len(),
    ensures
        match r {
            Some((p, op)) => {
                &&& spec_binop(lvl, s@, pos as int) == Some((p as int, op))
                &&& pos < p <= s.len()
            },
            None => spec_binop(lvl, s@, pos as int) is None,
        },
{
    let one = if pos < s.len() {
        Some(s[pos])
    } else {
        None
    };
    let two = if pos < s.len() && pos + 1 < s.len() {
        Some(s[pos + 1])
    } else {
        None
    };
    match lvl {
        BinopPrecedence::Multiplicative => {
            match one {
                Some('*') => Some((pos + 1, BinOp::Times)),
                Some('/') => Some((pos + 1, BinOp::Div)),
                _ => None,
            }
        },
        BinopPrecedence::Additive => {
            match one {
                Some('+') => Some((pos + 1, BinOp::Plus)),
                Some('-') => Some((pos + 1, BinOp::Minus)),
                _ => None,
            }
        },
        BinopPrecedence::Shift => {
            match (one, two) {
                (Some('>'), Some('>')) => Some((pos + 2, BinOp::ShiftRight)),
                (Some('<'), Some('<')) => Some((pos + 2, BinOp::ShiftLeft)),
                _ => None,
            }
        },
        BinopPrecedence::Relational => {
            match (one, two) {
                (Some('<'), Some('=')) => Some((pos + 2, BinOp::LessEq)),
                (Some('>'), Some('=')) => Some((pos + 2, BinOp::GreaterEq)),
                (Some('<'), _) => Some((pos + 1, BinOp::LessThan)),
                (Some('>'), _) => Some((pos + 1, BinOp::GreaterThan)),
                _ => None,
            }
        },
        BinopPrecedence::Equality => {
            match (one, two) {
                (Some('='), Some('=')) => Some((pos + 2, BinOp::Eq)),
                (Some('!'), Some('=')) => Some((pos + 2, BinOp::NotEq)),
                _ => None,
            }
        },
        BinopPrecedence::LogicalAnd => {
            match (one, two) {
                (Some('&'), Some('&')) => Some((pos + 2, BinOp::LogicalAnd)),
                _ => None,
            }
        },
        BinopPrecedence::LogicalOr => {
            match (one, two) {
                (Some('|'), Some('|')) => Some((pos + 2, BinOp::LogicalOr)),
                _ => None,
            }
        },
    }
}

fn eol(s: &Vec<char>, pos: usize) -> (r: Option<usize>)
    requires
        pos <= s.len(),
    ensures
        match r {
            Some(p) => {
                &&& spec_eol(s@, pos as int) == Some(p as int)
                &&& pos < p <= s.len()
            },
            None => spec_eol(s@, pos as int) is None,
        },
{
    let i = take_hws(s, pos);
    if i < s.len() && s[i] == '\r' && i + 1 < s.len() && s[i + 1] == '\n' {
        Some(i + 2)
    } else if i < s.len() && s[i] == '\n' {
        Some(i + 1)
    } else {
        None
    }
}

proof fn lemma_digits_val_mono(s: Seq<char>, pos: int, mid: int, end: int)
    requires
        pos <= mid <= end,
        forall|k: int| pos <= k < end ==> intlit_pred()(#[trigger] s[k]),
    ensures
        0 <= digits_val(s, pos, mid) <= digits_val(s, pos, end),
    decreases end - mid,
{
    if mid == end {
        lemma_digits_val_nonneg(s, pos, end);
    } else {
        lemma_digits_val_mono(s, pos, mid, end - 1);
    }
}

proof fn lemma_digits_val_nonneg(s: Seq<char>, pos: int, end: int)
    requires
        forall|k: int| pos <= k < end ==> intlit_pred()(#[trigger] s[k]),
    ensures
        digits_val(s, pos, end) >= 0,
    decreases end - pos,
{
    if pos < end {
        lemma_digits_val_nonneg(s, pos, end - 1);
    }
}

pub fn int_literal(s: &Vec<char>, pos: usize) -> (r: Option<(usize, i64)>)
    requires
        pos <= s.len(),
    ensures
        match r {
            Some((p, v)) => {
                &&& spec_int_literal(s@, pos as int) == Some((p as int, v))
                &&& pos < p <= s.len()
            },
            None => spec_int_literal(s@, pos as int) is None,
        },
{
    proof {
        lemma_int_literal_bounds(s@, pos as int);
    }
    let neg = pos < s.len() && s[pos] == '-';
    let dstart = if pos < s.len() && (s[pos] == '+' || s[pos] == '-') {
        pos + 1
    } else {
        pos
    };
    if dstart < s.len() && is_digit_char_e(s[dstart]) {
        proof {
            lemma_span_bounds(s@, dstart as int, intlit_pred());
        }
        let e = take_intlit(s, dstart);
        let cap: u64 = if neg {
            9223372036854775808u64
        } else {
            9223372036854775807u64
        };
        let mut mag: u64 = 0;
        let mut k: usize = dstart;
        while k < e
            invariant
                pos <= dstart <= k <= e <= s.len(),
                neg == (pos < s.len() && s@[pos as int] == '-'),
                dstart as int == (if pos < s.len() && (s@[pos as int] == '+' || s@[pos as int]
                    == '-') {
                    pos as int + 1
                } else {
                    pos as int
                }),
                dstart < s.len() && is_digit_char(s@[dstart as int]),
                e as int == span(s@, dstart as int, intlit_pred()),
                forall|j: int| dstart <= j < e ==> intlit_pred()(#[trigger] s@[j]),
                mag as int == digits_val(s@, dstart as int, k as int),
                mag <= cap,
                cap == (if neg {
                    9223372036854775808u64
                } else {
                    9223372036854775807u64
                }),
            decreases e - k,
        {
            let c = s[k];
            if c != '_' {
                let d: u64 = ((c as u32) - 48) as u64;
                proof {
                    assert(is_digit_char(s@[k as int]));
                    assert(d <= 9);
                    assert(digits_val(s@, dstart as int, k as int + 1) == mag * 10 + d);
                }
                if mag > (cap - d) / 10 {
                    proof {
                        assert(10 * ((cap - d) / 10) <= cap - d);
                        assert(10 * ((cap - d) / 10) + 9 >= cap - d);
                        assert(mag * 10 + d > cap);
                        lemma_digits_val_mono(s@, dstart as int, k as int + 1, e as int);
                        assert(digits_val(s@, dstart as int, e as int) > cap);
                        if neg {
                            assert(-digits_val(s@, dstart as int, e as int) < i64::MIN);
                        } else {
                            assert(digits_val(s@, dstart as int, e as int) > i64::MAX);
                        }
                        assert(spec_int_literal(s@, pos as int) is None);
                    }
                    return None;
                }
                proof {
                    assert(10 * ((cap - d) / 10) + 9 >= cap - d);
                    assert(mag * 10 + d <= cap);
                }
                mag = mag * 10 + d;
            } else {
                proof {
                    assert(digits_val(s@, dstart as int, k as int + 1) == mag);
                }
            }
            k = k + 1;
        }
        if neg {
            if mag == 9223372036854775808u64 {
                Some((e, i64::MIN))
            } else {
                Some((e, -(mag as i64)))
            }
        } else {
            Some((e, mag as i64))
        }
    } else {
        None
    }
}

// ---------------------------------------------------------------------------
// The expression grammar. The functions below are mutually recursive; the
// second `decreases` component orders the productions that can call each
// other without consuming input.
// ---------------------------------------------------------------------------

/// Zero or more `.name` suffixes after an atom, folded into `FieldAcc`.
pub open spec fn spec_field_suffix(s: Seq<char>, pos: int, acc: ExprView) -> (int, ExprView)
    decreases s.len() - pos, 0int,
{
    if 0 <= pos && pos <= s.len() {
        let i = span(s, pos, ws_pred());
        if i < s.len() && s[i] == '.' {
            let j = span(s, i + 1, ws_pred());
            match spec_ident(s, j) {
                Some((p2, name)) => {
                    if pos < p2 && p2 <= s.len() {
                        spec_field_suffix(s, p2, ExprView::FieldAcc(Box::new(acc), name))
                    } else {
                        (pos, acc)
                    }
                },
                None => (pos, acc),
            }
        } else {
            (pos, acc)
        }
    } else {
        (pos, acc)
    }
}

/// A record literal: `{`, fields separated by line breaks, `}`.
pub open spec fn spec_rec(s: Seq<char>, pos: int) -> Option<(int, ExprView)>
    decreases s.len() - pos, 1int,
{
    if 0 <= pos && pos < s.len() && s[pos] == '{' {
        let i = span(s, pos + 1, ws_pred());
        if pos < i && i <= s.len() {
            let (p1, fs) = spec_rec_fields(s, i);
            let j = span(s, p1, ws_pred());
            if j < s.len() && s[j] == '}' {
                Some((j + 1, ExprView::Rec(RecView { let_vars: Seq::empty(), fields: fs })))
            } else {
                None
            }
        } else {
            None
        }
    } else {
        None
    }
}

/// A parenthesized expression.
pub open spec fn spec_paren(s: Seq<char>, pos: int) -> Option<(int, ExprView)>
    decreases s.len() - pos, 1int,
{
    if 0 <= pos && pos < s.len() && s[pos] == '(' {
        let i = span(s, pos + 1, ws_pred());
        if pos < i && i <= s.len() {
            match spec_gen_expr(BinopPrecedence::LogicalOr, s, i) {
                Some((p1, e)) => {
                    let j = span(s, p1, ws_pred());
                    if j < s.len() && s[j] == ')' {
                        Some((j + 1, e))
                    } else {
                        None
                    }
                },
                None => None,
            }
        } else {
            None
        }
    } else {
        None
    }
}

/// A unary operator applied to an atom.
pub open spec fn spec_unop_atom(s: Seq<char>, pos: int) -> Option<(int, ExprView)>
    decreases s.len() - pos, 1int,
{
    if 0 <= pos && pos <= s.len() {
        let i = span(s, pos, ws_pred());
        match spec_unop(s, i) {
            Some((p1, op)) => {
                let j = span(s, p1, ws_pred());
                if pos < j && j <= s.len() {
                    match spec_atom(s, j) {
                        Some((p2, e)) => Some((p2, ExprView::UnExpr(op, Box::new(e)))),
                        None => None,
                    }
                } else {
                    None
                }
            },
            None => None,
        }
    } else {
        None
    }
}

/// An atom before its field-access suffixes, by ordered choice: record,
/// parenthesized expression, string literal, integer literal, unary
/// expression, variable.
pub open spec fn spec_atom_base(s: Seq<char>, pos: int) -> Option<(int, ExprView)>
    decreases s.len() - pos, 2int,
{
    if 0 <= pos && pos <= s.len() {
        match spec_rec(s, pos) {
            Some(r) => Some(r),
            None => match spec_paren(s, pos) {
                Some(r) => Some(r),
                None => match spec_parse_string(s, pos) {
                    Some((p, content)) => Some(
                        (p, ExprView::Literal(LiteralView::Str(content))),
                    ),
                    None => match spec_int_literal(s, pos) {
                        Some((p, v)) => Some((p, ExprView::Literal(LiteralView::Int(v)))),
                        None => match spec_unop_atom(s, pos) {
                            Some(r) => Some(r),
                            None => match spec_ident(s, pos) {
                                Some((p, name)) => Some((p, ExprView::Var(name))),
                                None => None,
                            },
                        },
                    },
                },
            },
        }
    } else {
        None
    }
}

/// An atom together with its field-access suffixes.
pub open spec fn spec_atom(s: Seq<char>, pos: int) -> Option<(int, ExprView)>
    decreases s.len() - pos, 3int,
{
    if 0 <= pos && pos <= s.len() {
        match spec_atom_base(s, pos) {
            Some((p1, e)) => {
                if pos < p1 && p1 <= s.len() {
                    Some(spec_field_suffix(s, p1, e))
                } else {
                    None
                }
            },
            None => None,
        }
    } else {
        None
    }
}

/// An expression at one precedence level: a tighter expression, optionally
/// followed by an operator of this level and a right operand *at the same
/// level* — which is what makes every level right-associative.
pub open spec fn spec_gen_expr(lvl: BinopPrecedence, s: Seq<char>, pos: int) -> Option<
    (int, ExprView),
>
    decreases s.len() - pos, 4 + lvl.rank(),
{
    if 0 <= pos && pos <= s.len() {
        let first = if lvl == BinopPrecedence::Multiplicative {
            spec_atom(s, pos)
        } else {
            spec_gen_expr(lvl.next_level(), s, pos)
        };
        match first {
            Some((p1, a)) => {
                let i = span(s, p1, ws_pred());
                match spec_binop(lvl, s, i) {
                    Some((p2, op)) => {
                        let j = span(s, p2, ws_pred());
                        if pos < j && j <= s.len() {
                            match spec_gen_expr(lvl, s, j) {
                                Some((p3, b)) => Some(
                                    (p3, ExprView::BinExpr(Box::new(a), op, Box::new(b))),
                                ),
                                None => None,
                            }
                        } else {
                            None
                        }
                    },
                    None => Some((p1, a)),
                }
            },
            None => None,
        }
    } else {
        None
    }
}

/// A whole expression: the loosest precedence level.
pub open spec fn spec_expr(s: Seq<char>, pos: int) -> Option<(int, ExprView)> {
    spec_gen_expr(BinopPrecedence::LogicalOr, s, pos)
}

/// One record field: `name : expr`.
pub open spec fn spec_rec_field(s: Seq<char>, pos: int) -> Option<(int, FieldView)>
    decreases s.len() - pos, 11int,
{
    if 0 <= pos && pos <= s.len() {
        match spec_ident(s, pos) {
            Some((p1, name)) => {
                let i = span(s, p1, ws_pred());
                if i < s.len() && s[i] == ':' {
                    let j = span(s, i + 1, ws_pred());
                    if pos < j && j <= s.len() {
                        match spec_gen_expr(BinopPrecedence::LogicalOr, s, j) {
                            Some((p2, e)) => Some((p2, FieldView { name, value: e })),
                            None => None,
                        }
                    } else {
                        None
                    }
                } else {
                    None
                }
            },
            None => None,
        }
    } else {
        None
    }
}

/// The record fields after the first: a line break, then a field; stops
/// (without consuming the break) when no field follows.
pub open spec fn spec_rec_fields_tail(s: Seq<char>, pos: int) -> (int, Seq<FieldView>)
    decreases s.len() - pos, 12int,
{
    if 0 <= pos && pos <= s.len() {
        match spec_eol(s, pos) {
            Some(p1) => {
                let i = span(s, p1, ws_pred());
                if pos <= i && i <= s.len() {
                    match spec_rec_field(s, i) {
                        Some((p2, f)) => {
                            if pos < p2 && p2 <= s.len() {
                                let (p3, rest) = spec_rec_fields_tail(s, p2);
                                (p3, seq![f] + rest)
                            } else {
                                (pos, Seq::empty())
                            }
                        },
                        None => (pos, Seq::empty()),
                    }
                } else {
                    (pos, Seq::empty())
                }
            },
            None => (pos, Seq::empty()),
        }
    } else {
        (pos, Seq::empty())
    }
}

/// A possibly empty list of record fields separated by line breaks.
pub open spec fn spec_rec_fields(s: Seq<char>, pos: int) -> (int, Seq<FieldView>)
    decreases s.len() - pos, 12int,
{
    if 0 <= pos && pos <= s.len() {
        let i = span(s, pos, ws_pred());
        if pos <= i && i <= s.len() {
            match spec_rec_field(s, i) {
                Some((p1, f)) => {
                    if pos < p1 && p1 <= s.len() {
                        let (p2, rest) = spec_rec_fields_tail(s, p1);
                        (p2, seq![f] + rest)
                    } else {
                        (pos, Seq::empty())
                    }
                },
                None => (pos, Seq::empty()),
            }
        } else {
            (pos, Seq::empty())
        }
    } else {
        (pos, Seq::empty())
    }
}

/// One `let name = expr` binding.
pub open spec fn spec_let_binding(s: Seq<char>, pos: int) -> Option<(int, LetView)>
    decreases s.len() - pos, 11int,
{
    if 0 <= pos && pos + 2 < s.len() && s[pos] == 'l' && s[pos + 1] == 'e' && s[pos + 2]
        == 't' {
        let w = span(s, pos + 3, ws_pred());
        if w > pos + 3 && w <= s.len() {
            match spec_ident(s, w) {
                Some((p1, name)) => {
                    let i = span(s, p1, ws_pred());
                    if i < s.len() && s[i] == '=' {
                        let j = span(s, i + 1, ws_pred());
                        if pos < j && j <= s.len() {
                            match spec_gen_expr(BinopPrecedence::LogicalOr, s, j) {
                                Some((p2, e)) => Some((p2, LetView { var: name, value: e })),
                                None => None,
                            }
                        } else {
                            None
                        }
                    } else {
                        None
                    }
                },
                None => None,
            }
        } else {
            None
        }
    } else {
        None
    }
}

/// Zero or more `let` bindings, each followed by a line break.
pub open spec fn spec_let_list(s: Seq<char>, pos: int) -> (int, Seq<LetView>)
    decreases s.len() - pos, 12int,
{
    if 0 <= pos && pos <= s.len() {
        let i = span(s, pos, ws_pred());
        if pos <= i && i <= s.len() {
            match spec_let_binding(s, i) {
                Some((p1, lb)) => {
                    match spec_eol(s, p1) {
                        Some(p2) => {
                            if pos < p2 && p2 <= s.len() {
                                let (p3, rest) = spec_let_list(s, p2);
                                (p3, seq![lb] + rest)
                            } else {
                                (pos, Seq::empty())
                            }
                        },
                        None => (pos, Seq::empty()),
                    }
                },
                None => (pos, Seq::empty()),
            }
        } else {
            (pos, Seq::empty())
        }
    } else {
        (pos, Seq::empty())
    }
}

/// A module: leading whitespace, `let` bindings, one expression, trailing
/// whitespace.
pub open spec fn spec_module(s: Seq<char>, pos: int) -> Option<(int, ModuleView)> {
    if 0 <= pos && pos <= s.len() {
        let i0 = span(s, pos, ws_pred());
        let r1 = spec_let_list(s, i0);
        let j = span(s, r1.0, ws_pred());
        match spec_gen_expr(BinopPrecedence::LogicalOr, s, j) {
            Some((p2, e)) => {
                let k = span(s, p2, ws_pred());
                Some((k, ModuleView { let_vars: r1.1, expr: e }))
            },
            None => None,
        }
    } else {
        None
    }
}

/// An expression that must consume the whole input.
pub open spec fn spec_expr_opt(s: Seq<char>) -> Option<ExprView> {
    match spec_expr(s, 0) {
        Some((p, e)) => if p == s.len() {
            Some(e)
        } else {
            None
        },
        None => None,
    }
}

/// A module that must consume the whole input.
pub open spec fn spec_parse_module(s: Seq<char>) -> Option<ModuleView> {
    match spec_module(s, 0) {
        Some((p, m)) => if p == s.len() {
            Some(m)
        } else {
            None
        },
        None => None,
    }
}

// ---------------------------------------------------------------------------
// Laws of the grammar.
// ---------------------------------------------------------------------------

/// Right-associativity: when an operator of level `lvl` follows the first
/// operand, the whole rest of the input is parsed as the right operand at
/// the *same* level, so `a - b - c` groups as `a - (b - c)`.
pub proof fn lemma_right_associative(lvl: BinopPrecedence, s: Seq<char>, pos: int)
    requires
        0 <= pos <= s.len(),
        ({
            let first = if lvl == BinopPrecedence::Multiplicative {
                spec_atom(s, pos)
            } else {
                spec_gen_expr(lvl.next_level(), s, pos)
            };
            first matches Some((p1, a)) && {
                let i = span(s, p1, ws_pred());
                spec_binop(lvl, s, i) matches Some((p2, op)) && {
                    let j = span(s, p2, ws_pred());
                    pos < j <= s.len() && spec_gen_expr(lvl, s, j) is Some
                }
            }
        }),
    ensures
        ({
            let first = if lvl == BinopPrecedence::Multiplicative {
                spec_atom(s, pos)
            } else {
                spec_gen_expr(lvl.next_level(), s, pos)
            };
            let (p1, a) = first->Some_0;
            let i = span(s, p1, ws_pred());
            let (p2, op) = spec_binop(lvl, s, i)->Some_0;
            let j = span(s, p2, ws_pred());
            let (p3, b) = spec_gen_expr(lvl, s, j)->Some_0;
            spec_gen_expr(lvl, s, pos) == Some(
                (p3, ExprView::BinExpr(Box::new(a), op, Box::new(b))),
            )
        }),
{
}

proof fn lemma_span_all(s: Seq<char>, pos: int, p: spec_fn(char) -> bool)
    requires
        0 <= pos <= s.len(),
        forall|k: int| pos <= k < s.len() ==> p(#[trigger] s[k]),
    ensures
        span(s, pos, p) == s.len(),
    decreases s.len() - pos,
{
    if pos < s.len() {
        lemma_span_all(s, pos + 1, p);
    }
}

proof fn lemma_dec_digits_are_digits(n: nat)
    ensures
        dec_digits(n).len() >= 1,
        forall|k: int|
            0 <= k < dec_digits(n).len() ==> is_digit_char(#[trigger] dec_digits(n)[k]),
    decreases n,
{
    if n >= 10 {
        lemma_dec_digits_are_digits(n / 10);
    }
}

proof fn lemma_digits_val_only_range(s1: Seq<char>, s2: Seq<char>, pos: int, end: int)
    requires
        forall|k: int| pos <= k < end ==> s1[k] == #[trigger] s2[k],
    ensures
        digits_val(s1, pos, end) == digits_val(s2, pos, end),
    decreases end - pos,
{
    if pos < end {
        lemma_digits_val_only_range(s1, s2, pos, end - 1);
    }
}

proof fn lemma_digits_val_of_dec(n: nat)
    ensures
        digits_val(dec_digits(n), 0, dec_digits(n).len() as int) == n,
    decreases n,
{
    lemma_dec_digits_are_digits(n);
    if n < 10 {
        let c = ((48 + n) as u8) as char;
        assert(dec_digits(n) == seq![c]);
        assert(dec_digits(n)[0] == c);
        assert(c as u32 == 48 + n);
        assert(c != '_');
        assert(digits_val(dec_digits(n), 0, 0) == 0);
        assert(digits_val(dec_digits(n), 0, 1) == digit_val(c));
    } else {
        lemma_digits_val_of_dec(n / 10);
        let p = dec_digits(n / 10);
        let s = dec_digits(n);
        let c = ((48 + n % 10) as u8) as char;
        assert(s == p.push(c));
        assert(s[s.len() - 1] == c);
        assert(s[s.len() - 1] != '_');
        assert(digits_val(s, 0, s.len() as int) == digits_val(s, 0, s.len() - 1) * 10
            + digit_val(c));
        assert(forall|k: int| 0 <= k < p.len() ==> s[k] == #[trigger] p[k]);
        lemma_digits_val_only_range(s, p, 0, p.len() as int);
    }
}

/// `digits_val` over a suffix that is a pushed-on block.
proof fn lemma_digits_val_shift(a: Seq<char>, b: Seq<char>)
    ensures
        digits_val(a + b, a.len() as int, (a.len() + b.len()) as int) == digits_val(
            b,
            0,
            b.len() as int,
        ),
    decreases b.len(),
{
    if b.len() == 0 {
    } else {
        let s = a + b;
        let end = (a.len() + b.len()) as int;
        assert(s[end - 1] == b[b.len() - 1]);
        let b2 = b.drop_last();
        assert(forall|k: int| a.len() <= k < end - 1 ==> (a + b2)[k] == #[trigger] s[k]);
        lemma_digits_val_only_range(s, a + b2, a.len() as int, end - 1);
        lemma_digits_val_shift(a, b2);
        assert(digits_val(b, 0, b.len() as int) == digits_val(b, 0, b.len() - 1) * 10
            + digit_val(b[b.len() - 1]) || (b[b.len() - 1] == '_' && digits_val(
            b,
            0,
            b.len() as int,
        ) == digits_val(b, 0, b.len() - 1)));
        assert(forall|k: int| 0 <= k < b2.len() ==> b[k] == #[trigger] b2[k]);
        lemma_digits_val_only_range(b, b2, 0, b2.len() as int);
    }
}

/// Escaping a text, wrapping it in quotes, and parsing the result as an
/// expression yields exactly the string literal of that text — for every
/// text.
pub proof fn lemma_string_expr_roundtrip(t: Seq<char>)
    ensures
        spec_expr_opt(seq!['"'] + crate::strings::esc_text(t) + seq!['"']) == Some(
            ExprView::Literal(LiteralView::Str(t)),
        ),
{
    let esc = crate::strings::esc_text(t);
    let s = seq!['"'] + esc + seq!['"'];
    let n = esc.len() as int;
    crate::strings::lemma_string_roundtrip(t);
    assert(s[0] == '"');
    assert(spec_rec(s, 0) is None);
    assert(spec_paren(s, 0) is None);
    let e = ExprView::Literal(LiteralView::Str(t));
    assert(spec_atom_base(s, 0) == Some((n + 2, e)));
    assert(span(s, n + 2, ws_pred()) == n + 2);
    assert(spec_field_suffix(s, n + 2, e) == (n + 2, e));
    assert(spec_atom(s, 0) == Some((n + 2, e)));
    assert forall|lvl: BinopPrecedence| true implies #[trigger] spec_binop(
        lvl,
        s,
        n + 2,
    ) is None by {
        assert(!two_at(s, n + 2, '*', '*'));
    }
    assert(spec_gen_expr(BinopPrecedence::Multiplicative, s, 0) == Some((n + 2, e)));
    assert(spec_gen_expr(BinopPrecedence::Additive, s, 0) == Some((n + 2, e)));
    assert(spec_gen_expr(BinopPrecedence::Shift, s, 0) == Some((n + 2, e)));
    assert(spec_gen_expr(BinopPrecedence::Relational, s, 0) == Some((n + 2, e)));
    assert(spec_gen_expr(BinopPrecedence::Equality, s, 0) == Some((n + 2, e)));
    assert(spec_gen_expr(BinopPrecedence::LogicalAnd, s, 0) == Some((n + 2, e)));
    assert(spec_gen_expr(BinopPrecedence::LogicalOr, s, 0) == Some((n + 2, e)));
}

/// Rendering an integer value as decimal text and parsing that text back
/// yields exactly the integer literal of that value.
pub proof fn lemma_int_roundtrip(v: i64)
    ensures
        spec_expr_opt(dec_int(v as int)) == Some(
            ExprView::Literal(LiteralView::Int(v)),
        ),
{
    let s = dec_int(v as int);
    let m: nat = if v < 0 {
        (-(v as int)) as nat
    } else {
        v as nat
    };
    lemma_dec_digits_are_digits(m);
    let d = dec_digits(m);
    let dstart: int = if v < 0 {
        1
    } else {
        0
    };
    assert forall|k: int| dstart <= k < s.len() implies intlit_pred()(#[trigger] s[k]) by {
        if v < 0 {
            assert(s[k] == d[k - 1]);
            assert(is_digit_char(d[k - 1]));
        } else {
            assert(is_digit_char(d[k]));
        }
    }
    // The integer literal spans the whole rendering and has value v.
    lemma_span_all(s, dstart, intlit_pred());
    if v < 0 {
        assert(s[0] == '-');
        assert(s[1] == d[0]);
        assert(is_digit_char(s[1]));
        lemma_digits_val_shift(seq!['-'], d);
        assert(seq!['-'] + d == s);
        lemma_digits_val_of_dec(m);
        assert(digits_val(s, 1, s.len() as int) == m);
        assert(spec_int_literal(s, 0) == Some((s.len() as int, v)));
    } else {
        assert(s == d);
        assert(is_digit_char(s[0]));
        assert(s[0] != '+' && s[0] != '-');
        lemma_digits_val_of_dec(m);
        assert(spec_int_literal(s, 0) == Some((s.len() as int, v)));
    }
    // No other atom alternative applies, and nothing follows.
    assert(s[0] != '{' && s[0] != '(' && s[0] != '"');
    assert(spec_rec(s, 0) is None);
    assert(spec_paren(s, 0) is None);
    assert(spec_parse_string(s, 0) is None);
    let e = ExprView::Literal(LiteralView::Int(v));
    assert(spec_atom_base(s, 0) == Some((s.len() as int, e)));
    assert(span(s, s.len() as int, ws_pred()) == s.len());
    assert(spec_field_suffix(s, s.len() as int, e) == (s.len() as int, e));
    assert(spec_atom(s, 0) == Some((s.len() as int, e)));
    assert forall|lvl: BinopPrecedence| true implies spec_binop(
        lvl,
        s,
        s.len() as int,
    ) is None by {
        assert(!two_at(s, s.len() as int, '*', '*'));
    }
    assert(spec_gen_expr(BinopPrecedence::Multiplicative, s, 0) == Some((s.len() as int, e)));
    assert(spec_gen_expr(BinopPrecedence::Additive, s, 0) == Some((s.len() as int, e)));
    assert(spec_gen_expr(BinopPrecedence::Shift, s, 0) == Some((s.len() as int, e)));
    assert(spec_gen_expr(BinopPrecedence::Relational, s, 0) == Some((s.len() as int, e)));
    assert(spec_gen_expr(BinopPrecedence::Equality, s, 0) == Some((s.len() as int, e)));
    assert(spec_gen_expr(BinopPrecedence::LogicalAnd, s, 0) == Some((s.len() as int, e)));
    assert(spec_gen_expr(BinopPrecedence::LogicalOr, s, 0) == Some((s.len() as int, e)));
}

// ---------------------------------------------------------------------------
// Executable twins of the grammar.
// ---------------------------------------------------------------------------

fn field_suffix(s: &Vec<char>, pos: usize, acc: Box<Expr>) -> (r: (usize, Box<Expr>))
    requires
        pos <= s.len(),
    ensures
        spec_field_suffix(s@, pos as int, expr_view(*acc)) == (r.0 as int, expr_view(*r.1)),
        pos <= r.0 <= s.len(),
    decreases s.len() - pos, 0int,
{
    let i = take_ws(s, pos);
    if i < s.len() && s[i] == '.' {
        let j = take_ws(s, i + 1);
        match ident(s, j) {
            Some((p2, name)) => field_suffix(s, p2, Box::new(Expr::FieldAcc(acc, name))),
            None => (pos, acc),
        }
    } else {
        (pos, acc)
    }
}

pub fn rec(s: &Vec<char>, pos: usize) -> (r: Option<(usize, Box<Expr>)>)
    requires
        pos <= s.len(),
    ensures
        match r {
            Some((p, e)) => {
                &&& spec_rec(s@, pos as int) == Some((p as int, expr_view(*e)))
                &&& pos < p <= s.len()
            },
            None => spec_rec(s@, pos as int) is None,
        },
    decreases s.len() - pos, 1int,
{
    if pos < s.len() && s[pos] == '{' {
        let i = take_ws(s, pos + 1);
        let (p1, fields) = rec_fields(s, i);
        let j = take_ws(s, p1);
        if j < s.len() && s[j] == '}' {
            let re = Rec { let_vars: Vec::new(), fields };
            proof {
                assert(lets_view(re.let_vars@) =~= Seq::<LetView>::empty());
                assert(rec_view(re) == RecView {
                    let_vars: Seq::<LetView>::empty(),
                    fields: fields_view(re.fields@),
                });
            }
            let e = Box::new(Expr::Rec(re));
            Some((j + 1, e))
        } else {
            None
        }
    } else {
        None
    }
}

fn paren(s: &Vec<char>, pos: usize) -> (r: Option<(usize, Box<Expr>)>)
    requires
        pos <= s.len(),
    ensures
        match r {
            Some((p, e)) => {
                &&& spec_paren(s@, pos as int) == Some((p as int, expr_view(*e)))
                &&& pos < p <= s.len()
            },
            None => spec_paren(s@, pos as int) is None,
        },
    decreases s.len() - pos, 1int,
{
    if pos < s.len() && s[pos] == '(' {
        let i = take_ws(s, pos + 1);
        match gen_expr(BinopPrecedence::LogicalOr, s, i) {
            Some((p1, e)) => {
                let j = take_ws(s, p1);
                if j < s.len() && s[j] == ')' {
                    Some((j + 1, e))
                } else {
                    None
                }
            },
            None => None,
        }
    } else {
        None
    }
}

fn unop_atom(s: &Vec<char>, pos: usize) -> (r: Option<(usize, Box<Expr>)>)
    requires
        pos <= s.len(),
    ensures
        match r {
            Some((p, e)) => {
                &&& spec_unop_atom(s@, pos as int) == Some((p as int, expr_view(*e)))
                &&& pos < p <= s.len()
            },
            None => spec_unop_atom(s@, pos as int) is None,
        },
    decreases s.len() - pos, 1int,
{
    let i = take_ws(s, pos);
    match unop(s, i) {
        Some((p1, op)) => {
            let j = take_ws(s, p1);
            match atom(s, j) {
                Some((p2, e)) => Some((p2, Box::new(Expr::UnExpr(op, e)))),
                None => None,
            }
        },
        None => None,
    }
}

fn atom_base(s: &Vec<char>, pos: usize) -> (r: Option<(usize, Box<Expr>)>)
    requires
        pos <= s.len(),
    ensures
        match r {
            Some((p, e)) => {
                &&& spec_atom_base(s@, pos as int) == Some((p as int, expr_view(*e)))
                &&& pos < p <= s.len()
            },
            None => spec_atom_base(s@, pos as int) is None,
        },
    decreases s.len() - pos, 2int,
{
    match rec(s, pos) {
        Some(r) => Some(r),
        None => match paren(s, pos) {
            Some(r) => Some(r),
            None => match parse_string(s, pos) {
                Some((p, content)) => Some(
                    (p, Box::new(Expr::Literal(Literal::Str(content)))),
                ),
                None => match int_literal(s, pos) {
                    Some((p, v)) => Some((p, Box::new(Expr::Literal(Literal::Int(v))))),
                    None => match unop_atom(s, pos) {
                        Some(r) => Some(r),
                        None => match ident(s, pos) {
                            Some((p, name)) => Some((p, Box::new(Expr::Var(Var { name })))),
                            None => None,
                        },
                    },
                },
            },
        },
    }
}

fn atom(s: &Vec<char>, pos: usize) -> (r: Option<(usize, Box<Expr>)>)
    requires
        pos <= s.len(),
    ensures
        match r {
            Some((p, e)) => {
                &&& spec_atom(s@, pos as int) == Some((p as int, expr_view(*e)))
                &&& pos < p <= s.len()
            },
            None => spec_atom(s@, pos as int) is None,
        },
    decreases s.len() - pos, 3int,
{
    match atom_base(s, pos) {
        Some((p1, e)) => {
            let (p2, e2) = field_suffix(s, p1, e);
            Some((p2, e2))
        },
        None => None,
    }
}

fn gen_expr(lvl: BinopPrecedence, s: &Vec<char>, pos: usize) -> (r: Option<(usize, Box<Expr>)>)
    requires
        pos <= s.len(),
    ensures
        match r {
            Some((p, e)) => {
                &&& spec_gen_expr(lvl, s@, pos as int) == Some((p as int, expr_view(*e)))
                &&& pos < p <= s.len()
            },
            None => spec_gen_expr(lvl, s@, pos as int) is None,
        },
    decreases s.len() - pos, 4 + lvl.rank(),
{
    let first = if lvl.is_terminal() {
        atom(s, pos)
    } else {
        gen_expr(lvl.next(), s, pos)
    };
    match first {
        Some((p1, a)) => {
            let i = take_ws(s, p1);
            match binop(lvl, s, i) {
                Some((p2, op)) => {
                    let j = take_ws(s, p2);
                    match gen_expr(lvl, s, j) {
                        Some((p3, b)) => Some((p3, Box::new(Expr::BinExpr(a, op, b)))),
                        None => None,
                    }
                },
                None => Some((p1, a)),
            }
        },
        None => None,
    }
}

/// Parse one expression starting at `pos`.
pub fn expr(s: &Vec<char>, pos: usize) -> (r: Option<(usize, Box<Expr>)>)
    requires
        pos <= s.len(),
    ensures
        match r {
            Some((p, e)) => {
                &&& spec_expr(s@, pos as int) == Some((p as int, expr_view(*e)))
                &&& pos < p <= s.len()
            },
            None => spec_expr(s@, pos as int) is None,
        },
{
    gen_expr(BinopPrecedence::LogicalOr, s, pos)
}

fn rec_field(s: &Vec<char>, pos: usize) -> (r: Option<(usize, Field)>)
    requires
        pos <= s.len(),
    ensures
        match r {
            Some((p, f)) => {
                &&& spec_rec_field(s@, pos as int) == Some((p as int, field_view(f)))
                &&& pos < p <= s.len()
            },
            None => spec_rec_field(s@, pos as int) is None,
        },
    decreases s.len() - pos, 11int,
{
    match ident(s, pos) {
        Some((p1, name)) => {
            let i = take_ws(s, p1);
            if i < s.len() && s[i] == ':' {
                let j = take_ws(s, i + 1);
                match gen_expr(BinopPrecedence::LogicalOr, s, j) {
                    Some((p2, e)) => Some((p2, Field { name, value: e })),
                    None => None,
                }
            } else {
                None
            }
        },
        None => None,
    }
}

fn rec_fields(s: &Vec<char>, pos: usize) -> (r: (usize, Vec<Field>))
    requires
        pos <= s.len(),
    ensures
        spec_rec_fields(s@, pos as int).0 == r.0 as int,
        spec_rec_fields(s@, pos as int).1 == fields_view(r.1@),
        pos <= r.0 <= s.len(),
    decreases s.len() - pos, 12int,
{
    let i = take_ws(s, pos);
    match rec_field(s, i) {
        None => {
            proof {
                assert(fields_view(Seq::<Field>::empty()) =~= Seq::<FieldView>::empty());
            }
            (pos, Vec::new())
        },
        Some((p1, f)) => {
            let ghost fv = field_view(f);
            let mut fields: Vec<Field> = Vec::new();
            fields.push(f);
            let mut cur: usize = p1;
            proof {
                assert(fields@ =~= seq![f]);
                assert(seq![f].drop_last() =~= Seq::<Field>::empty());
                assert(fields_view(Seq::<Field>::empty()) =~= Seq::<FieldView>::empty());
                assert(fields_view(fields@) =~= seq![fv]);
            }
            loop
                invariant
                    pos <= s.len(),
                    pos < cur <= s.len(),
                    spec_rec_fields(s@, pos as int).0 == spec_rec_fields_tail(s@, cur as int).0,
                    spec_rec_fields(s@, pos as int).1 == fields_view(fields@)
                        + spec_rec_fields_tail(s@, cur as int).1,
                decreases s.len() - cur,
            {
                match eol(s, cur) {
                    None => {
                        proof {
                            assert(fields_view(fields@) + Seq::<FieldView>::empty()
                                =~= fields_view(fields@));
                        }
                        return (cur, fields);
                    },
                    Some(p2) => {
                        let k2 = take_ws(s, p2);
                        match rec_field(s, k2) {
                            None => {
                                proof {
                                    assert(fields_view(fields@) + Seq::<FieldView>::empty()
                                        =~= fields_view(fields@));
                                }
                                return (cur, fields);
                            },
                            Some((p3, f2)) => {
                                let ghost fv2 = field_view(f2);
                                proof {
                                    assert(fields@.push(f2).drop_last() =~= fields@);
                                    assert(fields_view(fields@.push(f2)) =~= fields_view(
                                        fields@,
                                    ).push(fv2));
                                    assert(fields_view(fields@) + (seq![fv2]
                                        + spec_rec_fields_tail(s@, p3 as int).1) =~= fields_view(
                                        fields@,
                                    ).push(fv2) + spec_rec_fields_tail(s@, p3 as int).1);
                                }
                                fields.push(f2);
                                cur = p3;
                            },
                        }
                    },
                }
            }
        },
    }
}

pub fn let_binding(s: &Vec<char>, pos: usize) -> (r: Option<(usize, LetBinding)>)
    requires
        pos <= s.len(),
    ensures
        match r {
            Some((p, lb)) => {
                &&& spec_let_binding(s@, pos as int) == Some((p as int, let_view(lb)))
                &&& pos < p <= s.len()
            },
            None => spec_let_binding(s@, pos as int) is None,
        },
    decreases s.len() - pos, 11int,
{
    if pos < s.len() && s[pos] == 'l' && pos + 1 < s.len() && s[pos + 1] == 'e' && pos + 2
        < s.len() && s[pos + 2] == 't' {
        let w = take_ws(s, pos + 3);
        if w > pos + 3 {
            match ident(s, w) {
                Some((p1, name)) => {
                    let i = take_ws(s, p1);
                    if i < s.len() && s[i] == '=' {
                        let j = take_ws(s, i + 1);
                        match gen_expr(BinopPrecedence::LogicalOr, s, j) {
                            Some((p2, e)) => Some(
                                (p2, LetBinding { var: Var { name }, value: e }),
                            ),
                            None => None,
                        }
                    } else {
                        None
                    }
                },
                None => None,
            }
        } else {
            None
        }
    } else {
        None
    }
}

proof fn lemma_lets_view_cons(lb: LetBinding, b: Seq<LetBinding>)
    ensures
        lets_view(seq![lb] + b) == seq![let_view(lb)] + lets_view(b),
    decreases b.len(),
{
    if b.len() == 0 {
        assert(seq![lb] + b =~= seq![lb]);
        assert(seq![lb].drop_last() =~= Seq::<LetBinding>::empty());
        assert(lets_view(Seq::<LetBinding>::empty()) =~= Seq::<LetView>::empty());
        assert(lets_view(seq![lb]) =~= seq![let_view(lb)]);
        assert(seq![let_view(lb)] + lets_view(b) =~= seq![let_view(lb)]);
    } else {
        lemma_lets_view_cons(lb, b.drop_last());
        assert((seq![lb] + b).drop_last() =~= seq![lb] + b.drop_last());
        assert((seq![lb] + b).last() == b.last());
        assert(lets_view(seq![lb] + b) == lets_view(seq![lb] + b.drop_last()).push(let_view(
            b.last(),
        )));
        assert((seq![let_view(lb)] + lets_view(b.drop_last())).push(let_view(b.last()))
            =~= seq![let_view(lb)] + lets_view(b.drop_last()).push(let_view(b.last())));
    }
}

fn let_list(s: &Vec<char>, pos: usize) -> (r: (usize, Vec<LetBinding>))
    requires
        pos <= s.len(),
    ensures
        spec_let_list(s@, pos as int).0 == r.0 as int,
        spec_let_list(s@, pos as int).1 == lets_view(r.1@),
        pos <= r.0 <= s.len(),
    decreases s.len() - pos, 12int,
{
    let i = take_ws(s, pos);
    match let_binding(s, i) {
        None => {
            proof {
                assert(lets_view(Seq::<LetBinding>::empty()) =~= Seq::<LetView>::empty());
            }
            (pos, Vec::new())
        },
        Some((p1, lb)) => {
            match eol(s, p1) {
                None => {
                    proof {
                        assert(lets_view(Seq::<LetBinding>::empty()) =~= Seq::<LetView>::empty());
                    }
                    (pos, Vec::new())
                },
                Some(p2) => {
                    let ghost lv = let_view(lb);
                    let (p3, mut rest) = let_list(s, p2);
                    let mut out: Vec<LetBinding> = Vec::new();
                    out.push(lb);
                    proof {
                        assert(out@ =~= seq![lb]);
                        lemma_lets_view_cons(lb, rest@);
                    }
                    out.append(&mut rest);
                    (p3, out)
                },
            }
        },
    }
}

/// A parse failure, described for a human reader.
#[derive(Debug)]
pub struct KonfiParseError {
    pub message: String,
}

/// "`what` at line L, column C", with the line and column of `pos`.
/// The 1-based line of `pos`: one more than the line breaks before it
/// (the counter saturates, so the value is exact for any realistic input).
pub open spec fn line_of(s: Seq<char>, pos: int) -> int
    decreases pos,
{
    if pos <= 0 {
        1
    } else {
        let l = line_of(s, pos - 1);
        if s[pos - 1] == '\n' {
            if l < usize::MAX {
                l + 1
            } else {
                l
            }
        } else {
            l
        }
    }
}

/// The 1-based column of `pos`: the characters since the last line break,
/// plus one (saturating like `line_of`).
pub open spec fn col_of(s: Seq<char>, pos: int) -> int
    decreases pos,
{
    if pos <= 0 {
        1
    } else if s[pos - 1] == '\n' {
        1
    } else {
        let c = col_of(s, pos - 1);
        if c < usize::MAX {
            c + 1
        } else {
            c
        }
    }
}

proof fn lemma_line_col_bounds(s: Seq<char>, pos: int)
    ensures
        1 <= line_of(s, pos) <= usize::MAX,
        1 <= col_of(s, pos) <= usize::MAX,
    decreases pos,
{
    if pos > 0 {
        lemma_line_col_bounds(s, pos - 1);
    }
}

/// "`what` at line L, column C", with the line and column of `pos`.
pub open spec fn pos_message(what: Seq<char>, s: Seq<char>, pos: int) -> Seq<char> {
    what + " at line "@ + dec_digits(line_of(s, pos) as nat) + ", column "@ + dec_digits(
        col_of(s, pos) as nat,
    )
}

fn position_message(what: &str, s: &Vec<char>, pos: usize) -> (r: String)
    requires
        pos <= s.len(),
    ensures
        r@ == pos_message(what@, s@, pos as int),
{
    let mut line: usize = 1;
    let mut col: usize = 1;
    let mut k: usize = 0;
    proof {
        lemma_line_col_bounds(s@, pos as int);
    }
    while k < pos
        invariant
            k <= pos <= s.len(),
            line as int == line_of(s@, k as int),
            col as int == col_of(s@, k as int),
        decreases pos - k,
    {
        proof {
            lemma_line_col_bounds(s@, k as int);
        }
        if s[k] == '\n' {
            if line < usize::MAX {
                line = line + 1;
            }
            col = 1;
        } else {
            if col < usize::MAX {
                col = col + 1;
            }
        }
        k = k + 1;
    }
    let mut v = str_chars(what);
    let mut part = str_chars(" at line ");
    v.append(&mut part);
    let mut digits = fmt_u64(line as u64);
    v.append(&mut digits);
    let mut part2 = str_chars(", column ");
    v.append(&mut part2);
    let mut digits2 = fmt_u64(col as u64);
    v.append(&mut digits2);
    proof {
        assert(v@ =~= pos_message(what@, s@, pos as int));
    }
    chars_string(&v)
}

/// Parse one expression that must span the whole input.
pub fn expr_opt(input: &str) -> (r: Option<Box<Expr>>)
    ensures
        match r {
            Some(e) => spec_expr_opt(input@) == Some(expr_view(*e)),
            None => spec_expr_opt(input@) is None,
        },
{
    let s = str_chars(input);
    match expr(&s, 0) {
        Some((p, e)) => {
            if p == s.len() {
                Some(e)
            } else {
                None
            }
        },
        None => None,
    }
}

/// Parse a whole source file: `let` bindings, one expression, nothing else.
/// On failure the error says what was expected and where.
/// Where `parse_module` gives up on an input that is no module: at the
/// position where an expression was expected, or at the start of trailing
/// input. The message names the expected construct and that position.
pub open spec fn spec_parse_module_error(s: Seq<char>) -> Seq<char> {
    let i0 = span(s, 0, ws_pred());
    let j = span(s, spec_let_list(s, i0).0, ws_pred());
    match spec_gen_expr(BinopPrecedence::LogicalOr, s, j) {
        None => pos_message("expected an expression"@, s, j),
        Some((p2, _)) => pos_message(
            "expected end of input"@,
            s,
            span(s, p2, ws_pred()),
        ),
    }
}

pub fn parse_module(input: &str) -> (r: Result<Module, KonfiParseError>)
    ensures
        r matches Ok(m) ==> spec_parse_module(input@) == Some(module_view(m)),
        r is Err ==> spec_parse_module(input@) is None,
        r matches Err(er) ==> er.message@ == spec_parse_module_error(input@),
{
    let s = str_chars(input);
    let i0 = take_ws(&s, 0);
    let (p1, lets) = let_list(&s, i0);
    let j = take_ws(&s, p1);
    match gen_expr(BinopPrecedence::LogicalOr, &s, j) {
        None => Err(
            KonfiParseError { message: position_message("expected an expression", &s, j) },
        ),
        Some((p2, e)) => {
            let k = take_ws(&s, p2);
            if k == s.len() {
                Ok(Module { let_vars: lets, expr: e })
            } else {
                Err(
                    KonfiParseError {
                        message: position_message("expected end of input", &s, k),
                    },
                )
            }
        },
    }
}

/// Parse a module starting at `pos`.
pub fn module(s: &Vec<char>, pos: usize) -> (r: Option<(usize, Module)>)
    requires
        pos <= s.len(),
    ensures
        match r {
            Some((p, m)) => {
                &&& spec_module(s@, pos as int) == Some((p as int, module_view(m)))
                &&& pos <= p <= s.len()
            },
            None => spec_module(s@, pos as int) is None,
        },
{
    let i0 = take_ws(s, pos);
    let (p1, lets) = let_list(s, i0);
    let j = take_ws(s, p1);
    match gen_expr(BinopPrecedence::LogicalOr, s, j) {
        Some((p2, e)) => {
            let k = take_ws(s, p2);
            Some((k, Module { let_vars: lets, expr: e }))
        },
        None => None,
    }
}

} // verus!
