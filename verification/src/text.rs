//! Character classes, runs of characters, and decimal rendering.
//!
//! The parser and the string decoder work over `Vec<char>` with an explicit
//! position; a "span" is the end of the longest run of characters from a
//! class. `span` is the single spec-level definition; each character class
//! gets a small executable scanner proved against it.

use vstd::prelude::*;
use crate::chars::{alpha_char, alnum_char, char_is_alphabetic, char_is_alphanumeric};

verus! {

// ---------------------------------------------------------------------------
// Character classes.
// ---------------------------------------------------------------------------

/// Whitespace as the grammar understands it: space, tab, carriage return,
/// line feed.
pub open spec fn is_ws_char(c: char) -> bool {
    c == ' ' || c == '\t' || c == '\r' || c == '\n'
}

/// Horizontal whitespace: space or tab.
pub open spec fn is_hws_char(c: char) -> bool {
    c == ' ' || c == '\t'
}

pub open spec fn is_digit_char(c: char) -> bool {
    '0' <= c && c <= '9'
}

pub open spec fn digit_val(c: char) -> int {
    c as u32 - 48
}

pub open spec fn is_hex_char(c: char) -> bool {
    ('0' <= c && c <= '9') || ('a' <= c && c <= 'f') || ('A' <= c && c <= 'F')
}

pub open spec fn hex_digit_val(c: char) -> int {
    if '0' <= c && c <= '9' {
        c as u32 - 48
    } else if 'a' <= c && c <= 'f' {
        c as u32 - 87
    } else {
        c as u32 - 55
    }
}

pub open spec fn ws_pred() -> spec_fn(char) -> bool {
    |c: char| is_ws_char(c)
}

pub open spec fn hws_pred() -> spec_fn(char) -> bool {
    |c: char| is_hws_char(c)
}

/// First character of an identifier: alphabetic or underscore.
pub open spec fn ident_start_pred() -> spec_fn(char) -> bool {
    |c: char| alpha_char(c) || c == '_'
}

/// Later characters of an identifier: alphanumeric or underscore.
pub open spec fn ident_cont_pred() -> spec_fn(char) -> bool {
    |c: char| alnum_char(c) || c == '_'
}

/// A character that may stand unescaped inside a string literal.
pub open spec fn strlit_pred() -> spec_fn(char) -> bool {
    |c: char| c != '"' && c != '\\'
}

/// A character of an integer literal's digit part: digit or underscore.
pub open spec fn intlit_pred() -> spec_fn(char) -> bool {
    |c: char| is_digit_char(c) || c == '_'
}

// ---------------------------------------------------------------------------
// Runs.
// ---------------------------------------------------------------------------

/// The end of the longest run of characters satisfying `p`, starting at
/// `pos`.
pub open spec fn span(s: Seq<char>, pos: int, p: spec_fn(char) -> bool) -> int
    decreases s.len() - pos,
{
    if pos < 0 || pos >= s.len() {
        pos
    } else if p(s[pos]) {
        span(s, pos + 1, p)
    } else {
        pos
    }
}

pub proof fn lemma_span_bounds(s: Seq<char>, pos: int, p: spec_fn(char) -> bool)
    requires
        0 <= pos <= s.len(),
    ensures
        pos <= span(s, pos, p) <= s.len(),
        forall|k: int| pos <= k < span(s, pos, p) ==> p(#[trigger] s[k]),
        span(s, pos, p) < s.len() ==> !p(s[span(s, pos, p)]),
    decreases s.len() - pos,
{
    if pos < s.len() && p(s[pos]) {
        lemma_span_bounds(s, pos + 1, p);
    }
}

/// A run that covers exactly `[pos, e)`: everything in it satisfies `p`
/// and the run stops at `e`.
pub proof fn lemma_span_exact(s: Seq<char>, pos: int, e: int, p: spec_fn(char) -> bool)
    requires
        0 <= pos <= e <= s.len(),
        forall|k: int| pos <= k < e ==> p(#[trigger] s[k]),
        e < s.len() ==> !p(s[e]),
    ensures
        span(s, pos, p) == e,
    decreases e - pos,
{
    if pos < e {
        lemma_span_exact(s, pos + 1, e, p);
    }
}

fn is_ws_char_e(c: char) -> (r: bool)
    ensures
        r == is_ws_char(c),
{
    c == ' ' || c == '\t' || c == '\r' || c == '\n'
}

fn is_hws_char_e(c: char) -> (r: bool)
    ensures
        r == is_hws_char(c),
{
    c == ' ' || c == '\t'
}

pub(crate) fn is_digit_char_e(c: char) -> (r: bool)
    ensures
        r == is_digit_char(c),
{
    let u = c as u32;
    48 <= u && u <= 57
}

pub(crate) fn is_hex_char_e(c: char) -> (r: bool)
    ensures
        r == is_hex_char(c),
{
    let u = c as u32;
    (48 <= u && u <= 57) || (97 <= u && u <= 102) || (65 <= u && u <= 70)
}

pub(crate) fn hex_digit_val_e(c: char) -> (r: u32)
    requires
        is_hex_char(c),
    ensures
        r as int == hex_digit_val(c),
{
    let u = c as u32;
    if 48 <= u && u <= 57 {
        u - 48
    } else if 97 <= u && u <= 102 {
        u - 87
    } else {
        u - 55
    }
}

pub(crate) fn take_ws(s: &Vec<char>, pos: usize) -> (r: usize)
    requires
        pos <= s.len(),
    ensures
        pos <= r <= s.len(),
        r as int == span(s@, pos as int, ws_pred()),
{
    let mut i: usize = pos;
    while i < s.len() && is_ws_char_e(s[i])
        invariant
            pos <= i <= s.len(),
            span(s@, pos as int, ws_pred()) == span(s@, i as int, ws_pred()),
        decreases s.len() - i,
    {
        i = i + 1;
    }
    i
}

pub(crate) fn take_hws(s: &Vec<char>, pos: usize) -> (r: usize)
    requires
        pos <= s.len(),
    ensures
        pos <= r <= s.len(),
        r as int == span(s@, pos as int, hws_pred()),
{
    let mut i: usize = pos;
    while i < s.len() && is_hws_char_e(s[i])
        invariant
            pos <= i <= s.len(),
            span(s@, pos as int, hws_pred()) == span(s@, i as int, hws_pred()),
        decreases s.len() - i,
    {
        i = i + 1;
    }
    i
}

pub(crate) fn take_ident_start(s: &Vec<char>, pos: usize) -> (r: usize)
    requires
        pos <= s.len(),
    ensures
        pos <= r <= s.len(),
        r as int == span(s@, pos as int, ident_start_pred()),
{
    let mut i: usize = pos;
    while i < s.len() && (char_is_alphabetic(s[i]) || s[i] == '_')
        invariant
            pos <= i <= s.len(),
            span(s@, pos as int, ident_start_pred()) == span(s@, i as int, ident_start_pred()),
        decreases s.len() - i,
    {
        i = i + 1;
    }
    i
}

pub(crate) fn take_ident_cont(s: &Vec<char>, pos: usize) -> (r: usize)
    requires
        pos <= s.len(),
    ensures
        pos <= r <= s.len(),
        r as int == span(s@, pos as int, ident_cont_pred()),
{
    let mut i: usize = pos;
    while i < s.len() && (char_is_alphanumeric(s[i]) || s[i] == '_')
        invariant
            pos <= i <= s.len(),
            span(s@, pos as int, ident_cont_pred()) == span(s@, i as int, ident_cont_pred()),
        decreases s.len() - i,
    {
        i = i + 1;
    }
    i
}

pub(crate) fn take_strlit(s: &Vec<char>, pos: usize) -> (r: usize)
    requires
        pos <= s.len(),
    ensures
        pos <= r <= s.len(),
        r as int == span(s@, pos as int, strlit_pred()),
{
    let mut i: usize = pos;
    while i < s.len() && s[i] != '"' && s[i] != '\\'
        invariant
            pos <= i <= s.len(),
            span(s@, pos as int, strlit_pred()) == span(s@, i as int, strlit_pred()),
        decreases s.len() - i,
    {
        i = i + 1;
    }
    i
}

pub(crate) fn take_intlit(s: &Vec<char>, pos: usize) -> (r: usize)
    requires
        pos <= s.len(),
    ensures
        pos <= r <= s.len(),
        r as int == span(s@, pos as int, intlit_pred()),
{
    let mut i: usize = pos;
    while i < s.len() && (is_digit_char_e(s[i]) || s[i] == '_')
        invariant
            pos <= i <= s.len(),
            span(s@, pos as int, intlit_pred()) == span(s@, i as int, intlit_pred()),
        decreases s.len() - i,
    {
        i = i + 1;
    }
    i
}

// ---------------------------------------------------------------------------
// Decimal rendering.
// ---------------------------------------------------------------------------

/// The decimal digits of `n`, most significant first.
pub open spec fn dec_digits(n: nat) -> Seq<char>
    decreases n,
{
    if n < 10 {
        seq![((48 + n) as u8) as char]
    } else {
        dec_digits(n / 10).push(((48 + n % 10) as u8) as char)
    }
}

/// The decimal rendering of `n`, with a leading minus sign when negative.
pub open spec fn dec_int(n: int) -> Seq<char> {
    if n < 0 {
        seq!['-'] + dec_digits((-n) as nat)
    } else {
        dec_digits(n as nat)
    }
}

pub fn fmt_u64(n: u64) -> (r: Vec<char>)
    ensures
        r@ == dec_digits(n as nat),
    decreases n,
{
    if n < 10 {
        let c = ((48 + n) as u8) as char;
        let mut v: Vec<char> = Vec::new();
        v.push(c);
        proof {
            assert(v@ =~= seq![((48 + n as nat) as u8) as char]);
        }
        v
    } else {
        let mut v = fmt_u64(n / 10);
        let c = ((48 + n % 10) as u8) as char;
        v.push(c);
        proof {
            assert(v@ =~= dec_digits((n / 10) as nat).push(
                ((48 + (n as nat) % 10) as u8) as char,
            ));
        }
        v
    }
}

pub fn fmt_i64(n: i64) -> (r: Vec<char>)
    ensures
        r@ == dec_int(n as int),
{
    if n >= 0 {
        fmt_u64(n as u64)
    } else {
        let mag: u64 = ((-(n + 1)) as u64) + 1;
        let digits = fmt_u64(mag);
        let mut v: Vec<char> = Vec::new();
        v.push('-');
        let mut k: usize = 0;
        while k < digits.len()
            invariant
                k <= digits.len(),
                digits@ == dec_digits(mag as nat),
                mag == -(n as int),
                v@ == seq!['-'] + digits@.subrange(0, k as int),
            decreases digits.len() - k,
        {
            let c = digits[k];
            proof {
                assert((seq!['-'] + digits@.subrange(0, k as int)).push(c) =~= seq!['-']
                    + digits@.subrange(0, k as int + 1));
            }
            v.push(c);
            k = k + 1;
        }
        proof {
            assert(digits@.subrange(0, digits@.len() as int) =~= digits@);
        }
        v
    }
}

} // verus!
