//! The string-literal decoder.
//!
//! A string literal is a double-quoted run of fragments: plain characters,
//! single-character escapes (`\n \r \t \b \f \\ \' \/ \"`), Unicode escapes
//! `\u{H..H}` with one to six hex digits, and "escaped whitespace" — a
//! backslash followed by a run of whitespace that disappears entirely from
//! the decoded text.

use vstd::prelude::*;
use crate::chars::{char_from_u32, chars_string};
use crate::text::{
    hex_digit_val, is_hex_char, is_hex_char_e, hex_digit_val_e, lemma_span_bounds, span,
    strlit_pred, take_strlit, take_ws, ws_pred,
};

verus! {

// ---------------------------------------------------------------------------
// Specification.
// ---------------------------------------------------------------------------

/// What a single-character escape decodes to, if it is one.
pub open spec fn escape_char_of(c: char) -> Option<char> {
    if c == 'n' {
        Some('\n')
    } else if c == 'r' {
        Some('\r')
    } else if c == 't' {
        Some('\t')
    } else if c == 'b' {
        Some('\u{08}')
    } else if c == 'f' {
        Some('\u{0C}')
    } else if c == '\\' {
        Some('\\')
    } else if c == '\'' {
        Some('\'')
    } else if c == '/' {
        Some('/')
    } else if c == '"' {
        Some('"')
    } else {
        None
    }
}

/// The end of a run of at most `k` hex digits starting at `pos`.
pub open spec fn hex_span(s: Seq<char>, pos: int, k: nat) -> int
    decreases k,
{
    if k == 0 || pos < 0 || pos >= s.len() || !is_hex_char(s[pos]) {
        pos
    } else {
        hex_span(s, pos + 1, (k - 1) as nat)
    }
}

pub proof fn lemma_hex_span_bounds(s: Seq<char>, pos: int, k: nat)
    requires
        0 <= pos <= s.len(),
    ensures
        pos <= hex_span(s, pos, k) <= s.len(),
        hex_span(s, pos, k) - pos <= k,
    decreases k,
{
    if !(k == 0 || pos >= s.len() || !is_hex_char(s[pos])) {
        lemma_hex_span_bounds(s, pos + 1, (k - 1) as nat);
    }
}

/// The value of the hex digits in `s[pos..end)`.
pub open spec fn hex_val(s: Seq<char>, pos: int, end: int) -> int
    decreases end - pos,
{
    if pos >= end {
        0
    } else {
        hex_val(s, pos, end - 1) * 16 + hex_digit_val(s[end - 1])
    }
}

/// A Unicode escape `u{H..H}`; `pos` stands just after the backslash.
pub open spec fn spec_unicode_escape(s: Seq<char>, pos: int) -> Option<(int, char)> {
    if pos < s.len() && s[pos] == 'u' && pos + 1 < s.len() && s[pos + 1] == '{' {
        let e = hex_span(s, pos + 2, 6);
        if e > pos + 2 && e < s.len() && s[e] == '}' {
            let u = hex_val(s, pos + 2, e);
            if u < 0xD800 || (0xE000 <= u && u <= 0x10FFFF) {
                Some(((e + 1) as int, u as char))
            } else {
                None
            }
        } else {
            None
        }
    } else {
        None
    }
}

/// An escaped character; `pos` stands at the backslash.
pub open spec fn spec_escaped_char(s: Seq<char>, pos: int) -> Option<(int, char)> {
    if pos < s.len() && s[pos] == '\\' {
        match spec_unicode_escape(s, pos + 1) {
            Some(r) => Some(r),
            None => {
                if pos + 1 < s.len() {
                    match escape_char_of(s[pos + 1]) {
                        Some(c) => Some(((pos + 2) as int, c)),
                        None => None,
                    }
                } else {
                    None
                }
            },
        }
    } else {
        None
    }
}

/// Escaped whitespace; `pos` stands at the backslash.
pub open spec fn spec_escaped_ws(s: Seq<char>, pos: int) -> Option<int> {
    if pos < s.len() && s[pos] == '\\' {
        let e = span(s, pos + 1, ws_pred());
        if e > pos + 1 {
            Some(e)
        } else {
            None
        }
    } else {
        None
    }
}

pub proof fn lemma_escaped_char_bounds(s: Seq<char>, pos: int)
    requires
        0 <= pos <= s.len(),
    ensures
        spec_escaped_char(s, pos) matches Some((p, _)) ==> pos < p <= s.len(),
        spec_escaped_ws(s, pos) matches Some(p) ==> pos < p <= s.len(),
{
    if pos < s.len() && s[pos] == '\\' {
        if pos + 1 < s.len() && s[pos + 1] == 'u' && pos + 2 < s.len() && s[pos + 2] == '{' {
            lemma_hex_span_bounds(s, pos + 3, 6);
        }
        lemma_span_bounds(s, pos + 1, ws_pred());
    }
}

/// The decoded fragments from `pos` up to the first character that no
/// fragment can consume (normally the closing quote): the position reached
/// and the decoded text.
pub open spec fn spec_fragments(s: Seq<char>, pos: int) -> (int, Seq<char>)
    decreases s.len() - pos
        when 0 <= pos <= s.len()
        via spec_fragments_dec
{
    let lit_e = span(s, pos, strlit_pred());
    if lit_e > pos {
        let (p2, rest) = spec_fragments(s, lit_e);
        (p2, s.subrange(pos, lit_e) + rest)
    } else {
        match spec_escaped_char(s, pos) {
            Some((p1, c)) => {
                let (p2, rest) = spec_fragments(s, p1);
                (p2, seq![c] + rest)
            },
            None => {
                match spec_escaped_ws(s, pos) {
                    Some(p1) => spec_fragments(s, p1),
                    None => (pos, Seq::empty()),
                }
            },
        }
    }
}

#[via_fn]
proof fn spec_fragments_dec(s: Seq<char>, pos: int) {
    lemma_span_bounds(s, pos, strlit_pred());
    lemma_escaped_char_bounds(s, pos);
}

pub proof fn lemma_fragments_bounds(s: Seq<char>, pos: int)
    requires
        0 <= pos <= s.len(),
    ensures
        pos <= spec_fragments(s, pos).0 <= s.len(),
    decreases s.len() - pos,
{
    lemma_span_bounds(s, pos, strlit_pred());
    lemma_escaped_char_bounds(s, pos);
    let lit_e = span(s, pos, strlit_pred());
    if lit_e > pos {
        lemma_fragments_bounds(s, lit_e);
    } else {
        match spec_escaped_char(s, pos) {
            Some((p1, _)) => lemma_fragments_bounds(s, p1),
            None => {
                match spec_escaped_ws(s, pos) {
                    Some(p1) => lemma_fragments_bounds(s, p1),
                    None => {},
                }
            },
        }
    }
}

/// A whole string literal: opening quote, fragments, closing quote.
pub open spec fn spec_parse_string(s: Seq<char>, pos: int) -> Option<(int, Seq<char>)> {
    if 0 <= pos && pos < s.len() && s[pos] == '"' {
        let (p1, content) = spec_fragments(s, pos + 1);
        if p1 < s.len() && s[p1] == '"' {
            Some(((p1 + 1) as int, content))
        } else {
            None
        }
    } else {
        None
    }
}

pub proof fn lemma_parse_string_bounds(s: Seq<char>, pos: int)
    requires
        0 <= pos <= s.len(),
    ensures
        spec_parse_string(s, pos) matches Some((p, _)) ==> pos < p <= s.len(),
{
    if pos < s.len() && s[pos] == '"' {
        lemma_fragments_bounds(s, pos + 1);
    }
}

// ---------------------------------------------------------------------------
// Rendering: the inverse direction.
// ---------------------------------------------------------------------------

/// The escaped form of one character inside a string literal: quotes and
/// backslashes get a backslash, everything else stands as itself.
pub open spec fn esc_char(c: char) -> Seq<char> {
    if c == '"' {
        seq!['\\', '"']
    } else if c == '\\' {
        seq!['\\', '\\']
    } else {
        seq![c]
    }
}

/// The escaped form of a text.
pub open spec fn esc_text(t: Seq<char>) -> Seq<char>
    decreases t.len(),
{
    if t.len() == 0 {
        Seq::empty()
    } else {
        esc_char(t[0]) + esc_text(t.drop_first())
    }
}

proof fn lemma_esc_concat(a: Seq<char>, b: Seq<char>)
    ensures
        esc_text(a + b) == esc_text(a) + esc_text(b),
    decreases a.len(),
{
    if a.len() == 0 {
        assert(a + b =~= b);
        assert(esc_text(a) + esc_text(b) =~= esc_text(b));
    } else {
        assert((a + b).drop_first() =~= a.drop_first() + b);
        lemma_esc_concat(a.drop_first(), b);
        assert((a + b)[0] == a[0]);
        assert(esc_char(a[0]) + (esc_text(a.drop_first()) + esc_text(b)) =~= (esc_char(a[0])
            + esc_text(a.drop_first())) + esc_text(b));
    }
}

proof fn lemma_esc_plain(t: Seq<char>)
    requires
        forall|k: int| 0 <= k < t.len() ==> strlit_pred()(#[trigger] t[k]),
    ensures
        esc_text(t) == t,
    decreases t.len(),
{
    if t.len() > 0 {
        assert(forall|k: int|
            0 <= k < t.drop_first().len() ==> t.drop_first()[k] == #[trigger] t[k + 1]);
        lemma_esc_plain(t.drop_first());
        assert(esc_char(t[0]) =~= seq![t[0]]);
        assert(seq![t[0]] + t.drop_first() =~= t);
    }
}

/// Decoding fragments over the escaped form of `t`, up to a closing quote,
/// gives back exactly `t`.
proof fn lemma_fragments_of_escaped(s: Seq<char>, pos: int, t: Seq<char>)
    requires
        0 <= pos,
        pos + esc_text(t).len() < s.len(),
        s.subrange(pos, pos + esc_text(t).len() as int) == esc_text(t),
        s[pos + esc_text(t).len() as int] == '"',
    ensures
        spec_fragments(s, pos) == (pos + esc_text(t).len() as int, t),
    decreases t.len(),
{
    let n = esc_text(t).len() as int;
    let end = pos + n;
    assert forall|j: int| 0 <= j < n implies s[pos + j] == #[trigger] esc_text(t)[j] by {
        assert(esc_text(t)[j] == s.subrange(pos, pos + n)[j]);
    }
    if t.len() == 0 {
        assert(span(s, pos, strlit_pred()) == pos) by {
            assert(s[pos] == '"');
        }
        assert(spec_escaped_char(s, pos) is None);
        assert(spec_escaped_ws(s, pos) is None);
        assert(t =~= Seq::<char>::empty());
    } else if t[0] == '"' || t[0] == '\\' {
        assert(esc_char(t[0]) =~= seq!['\\', t[0]]);
        assert(s[pos] == esc_text(t)[0]);
        assert(esc_text(t)[0] == '\\');
        assert(s[pos + 1] == esc_text(t)[1]);
        assert(esc_text(t)[1] == t[0]);
        assert(span(s, pos, strlit_pred()) == pos);
        assert(spec_unicode_escape(s, pos + 1) is None);
        assert(spec_escaped_char(s, pos) == Some((pos + 2, t[0])));
        let rest = t.drop_first();
        assert(esc_text(t) =~= seq!['\\', t[0]] + esc_text(rest));
        assert forall|k: int|
            0 <= k < esc_text(rest).len() implies s.subrange(
            pos + 2,
            pos + 2 + esc_text(rest).len() as int,
        )[k] == #[trigger] esc_text(rest)[k] by {
            assert(esc_text(rest)[k] == esc_text(t)[k + 2]);
            assert(s[pos + 2 + k] == esc_text(t)[k + 2]);
        }
        assert(s.subrange(pos + 2, pos + 2 + esc_text(rest).len() as int) =~= esc_text(
            rest,
        ));
        lemma_fragments_of_escaped(s, pos + 2, rest);
        assert(seq![t[0]] + rest =~= t);
    } else {
        // A run of plain characters up to the next escape or the end.
        let m = span(t, 0, strlit_pred());
        lemma_span_bounds(t, 0, strlit_pred());
        assert(m >= 1) by {
            assert(strlit_pred()(t[0]));
            assert(span(t, 0, strlit_pred()) == span(t, 1, strlit_pred()));
            lemma_span_bounds(t, 1, strlit_pred());
        }
        let head = t.take(m);
        let rest = t.skip(m);
        assert(head + rest =~= t);
        lemma_esc_concat(head, rest);
        assert(forall|k: int| 0 <= k < head.len() ==> strlit_pred()(#[trigger] head[k]));
        lemma_esc_plain(head);
        assert(esc_text(t) == head + esc_text(rest));
        // In `s`, the run covers exactly [pos, pos + m).
        assert forall|k: int| pos <= k < pos + m implies #[trigger] s[k] == head[k
            - pos] by {
            assert(s[k] == esc_text(t)[k - pos]);
            assert(esc_text(t)[k - pos] == (head + esc_text(rest))[k - pos]);
        }
        assert(s[pos + m] == (if rest.len() == 0 {
            '"'
        } else {
            '\\'
        })) by {
            if rest.len() == 0 {
                assert(esc_text(rest) =~= Seq::<char>::empty());
                assert(pos + m == end);
            } else {
                assert(!strlit_pred()(rest[0]));
                assert(esc_char(rest[0])[0] == '\\');
                assert(esc_text(rest)[0] == '\\');
                assert(s[pos + m] == esc_text(t)[m]);
                assert(esc_text(t)[m] == esc_text(rest)[0]);
            }
        }
        crate::text::lemma_span_exact(s, pos, pos + m, strlit_pred());
        assert(span(s, pos, strlit_pred()) == pos + m);
        assert forall|k: int|
            0 <= k < esc_text(rest).len() implies s.subrange(
            pos + m,
            pos + m + esc_text(rest).len() as int,
        )[k] == #[trigger] esc_text(rest)[k] by {
            assert(esc_text(rest)[k] == (head + esc_text(rest))[k + m]);
            assert(s[pos + m + k] == esc_text(t)[k + m]);
        }
        assert(s.subrange(pos + m, pos + m + esc_text(rest).len() as int) =~= esc_text(
            rest,
        ));
        lemma_fragments_of_escaped(s, pos + m, rest);
        assert(s.subrange(pos, pos + m) =~= head);
        assert(head + rest =~= t);
    }
}

/// Escaping a text and wrapping it in quotes yields a string literal that
/// decodes back to exactly that text — for every text.
pub proof fn lemma_string_roundtrip(t: Seq<char>)
    ensures
        spec_parse_string(seq!['"'] + esc_text(t) + seq!['"'], 0) == Some(
            ((esc_text(t).len() + 2) as int, t),
        ),
{
    let s = seq!['"'] + esc_text(t) + seq!['"'];
    let n = esc_text(t).len() as int;
    assert(s[0] == '"');
    assert(s[n + 1] == '"');
    assert(s.subrange(1, 1 + n) =~= esc_text(t));
    lemma_fragments_of_escaped(s, 1, t);
}

// ---------------------------------------------------------------------------
// Execution.
// ---------------------------------------------------------------------------

fn unicode_escape(s: &Vec<char>, pos: usize) -> (r: Option<(usize, char)>)
    requires
        pos <= s.len(),
    ensures
        match r {
            Some((p, c)) => {
                &&& spec_unicode_escape(s@, pos as int) == Some((p as int, c))
                &&& pos < p <= s.len()
            },
            None => spec_unicode_escape(s@, pos as int) is None,
        },
{
    if pos < s.len() && s[pos] == 'u' && pos + 1 < s.len() && s[pos + 1] == '{' {
        let start = pos + 2;
        let mut i: usize = start;
        let mut u: u32 = 0;
        while i < s.len() && i - start < 6 && is_hex_char_e(s[i])
            invariant
                start <= i <= s.len(),
                start + 6 >= i,
                pos + 2 == start,
                pos + 1 < s.len(),
                u as int == hex_val(s@, start as int, i as int),
                (u as int) < pow16((i - start) as nat),
                hex_span(s@, start as int, 6) == hex_span(
                    s@,
                    i as int,
                    (6 - (i - start)) as nat,
                ),
            decreases s.len() - i,
        {
            let d = hex_digit_val_e(s[i]);
            proof {
                lemma_pow16_small();
                assert(hex_val(s@, start as int, i as int + 1) == u * 16 + hex_digit_val(
                    s@[i as int],
                ));
                assert(pow16(((i - start) + 1) as nat) == 16 * pow16((i - start) as nat));
            }
            u = u * 16 + d;
            i = i + 1;
        }
        proof {
            lemma_pow16_small();
            assert(hex_span(s@, i as int, (6 - (i - start)) as nat) == i as int);
        }
        if i > start && i < s.len() && s[i] == '}' {
            if u < 0xD800 || (0xE000 <= u && u <= 0x10FFFF) {
                let c = char_from_u32(u);
                match c {
                    Some(ch) => Some((i + 1, ch)),
                    None => {
                        proof {
                            assert(false);
                        }
                        None
                    },
                }
            } else {
                None
            }
        } else {
            None
        }
    } else {
        None
    }
}

spec fn pow16(k: nat) -> int
    decreases k,
{
    if k == 0 {
        1
    } else {
        16 * pow16((k - 1) as nat)
    }
}

proof fn lemma_pow16_small()
    ensures
        pow16(0) == 1,
        pow16(1) == 0x10,
        pow16(2) == 0x100,
        pow16(3) == 0x1000,
        pow16(4) == 0x10000,
        pow16(5) == 0x100000,
        pow16(6) == 0x1000000,
{
    assert(pow16(1) == 16 * pow16(0));
    assert(pow16(2) == 16 * pow16(1));
    assert(pow16(3) == 16 * pow16(2));
    assert(pow16(4) == 16 * pow16(3));
    assert(pow16(5) == 16 * pow16(4));
    assert(pow16(6) == 16 * pow16(5));
}

fn escaped_char(s: &Vec<char>, pos: usize) -> (r: Option<(usize, char)>)
    requires
        pos <= s.len(),
    ensures
        match r {
            Some((p, c)) => {
                &&& spec_escaped_char(s@, pos as int) == Some((p as int, c))
                &&& pos < p <= s.len()
            },
            None => spec_escaped_char(s@, pos as int) is None,
        },
{
    if pos < s.len() && s[pos] == '\\' {
        match unicode_escape(s, pos + 1) {
            Some((p, c)) => Some((p, c)),
            None => {
                if pos + 1 < s.len() {
                    let c = s[pos + 1];
                    let decoded: Option<char> = if c == 'n' {
                        Some('\n')
                    } else if c == 'r' {
                        Some('\r')
                    } else if c == 't' {
                        Some('\t')
                    } else if c == 'b' {
                        Some('\u{08}')
                    } else if c == 'f' {
                        Some('\u{0C}')
                    } else if c == '\\' {
                        Some('\\')
                    } else if c == '\'' {
                        Some('\'')
                    } else if c == '/' {
                        Some('/')
                    } else if c == '"' {
                        Some('"')
                    } else {
                        None
                    };
                    match decoded {
                        Some(d) => Some((pos + 2, d)),
                        None => None,
                    }
                } else {
                    None
                }
            },
        }
    } else {
        None
    }
}

fn escaped_ws(s: &Vec<char>, pos: usize) -> (r: Option<usize>)
    requires
        pos <= s.len(),
    ensures
        match r {
            Some(p) => {
                &&& spec_escaped_ws(s@, pos as int) == Some(p as int)
                &&& pos < p <= s.len()
            },
            None => spec_escaped_ws(s@, pos as int) is None,
        },
{
    if pos < s.len() && s[pos] == '\\' {
        let e = take_ws(s, pos + 1);
        if e > pos + 1 {
            Some(e)
        } else {
            None
        }
    } else {
        None
    }
}

fn decode_fragments(s: &Vec<char>, pos: usize) -> (r: (usize, Vec<char>))
    requires
        pos <= s.len(),
    ensures
        spec_fragments(s@, pos as int) == (r.0 as int, r.1@),
        pos <= r.0 <= s.len(),
{
    let mut i: usize = pos;
    let mut acc: Vec<char> = Vec::new();
    proof {
        lemma_fragments_bounds(s@, pos as int);
        assert(Seq::<char>::empty() + spec_fragments(s@, pos as int).1 =~= spec_fragments(
            s@,
            pos as int,
        ).1);
    }
    loop
        invariant
            pos <= i <= s.len(),
            spec_fragments(s@, pos as int).0 == spec_fragments(s@, i as int).0,
            spec_fragments(s@, pos as int).1 == acc@ + spec_fragments(s@, i as int).1,
        decreases s.len() - i,
    {
        proof {
            lemma_span_bounds(s@, i as int, strlit_pred());
        }
        let lit_e = take_strlit(s, i);
        if lit_e > i {
            let ghost pre = acc@;
            let mut k: usize = i;
            while k < lit_e
                invariant
                    i <= k <= lit_e <= s.len(),
                    acc@ == pre + s@.subrange(i as int, k as int),
                decreases lit_e - k,
            {
                let c = s[k];
                proof {
                    assert(pre + s@.subrange(i as int, k as int + 1) =~= (pre + s@.subrange(
                        i as int,
                        k as int,
                    )).push(c));
                }
                acc.push(c);
                k = k + 1;
            }
            proof {
                let tail = spec_fragments(s@, lit_e as int);
                assert(spec_fragments(s@, i as int).1 == s@.subrange(i as int, lit_e as int)
                    + tail.1);
                assert(pre + (s@.subrange(i as int, lit_e as int) + tail.1) =~= (pre
                    + s@.subrange(i as int, lit_e as int)) + tail.1);
            }
            i = lit_e;
        } else {
            match escaped_char(s, i) {
                Some((p1, c)) => {
                    proof {
                        let tail = spec_fragments(s@, p1 as int);
                        assert(spec_fragments(s@, i as int).1 == seq![c] + tail.1);
                        assert(acc@ + (seq![c] + tail.1) =~= acc@.push(c) + tail.1);
                    }
                    acc.push(c);
                    i = p1;
                },
                None => {
                    match escaped_ws(s, i) {
                        Some(p1) => {
                            i = p1;
                        },
                        None => {
                            proof {
                                assert(spec_fragments(s@, i as int) == (
                                    i as int,
                                    Seq::<char>::empty(),
                                ));
                                assert(acc@ + Seq::<char>::empty() =~= acc@);
                            }
                            return (i, acc);
                        },
                    }
                },
            }
        }
    }
}

/// Decode a string literal starting at `pos`; on success, the position just
/// after the closing quote and the decoded content.
pub fn parse_string(s: &Vec<char>, pos: usize) -> (r: Option<(usize, String)>)
    requires
        pos <= s.len(),
    ensures
        match r {
            Some((p, content)) => {
                &&& spec_parse_string(s@, pos as int) == Some((p as int, content@))
                &&& pos < p <= s.len()
            },
            None => spec_parse_string(s@, pos as int) is None,
        },
{
    if pos < s.len() && s[pos] == '"' {
        let (p1, content) = decode_fragments(s, pos + 1);
        if p1 < s.len() && s[p1] == '"' {
            Some((p1 + 1, chars_string(&content)))
        } else {
            None
        }
    } else {
        None
    }
}

} // verus!
