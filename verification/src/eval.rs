//! The evaluator: values, records, contexts, and the lazy lookup protocol.
//!
//! Runtime records live in an arena (`Store`) and are addressed by index;
//! a `Ctx` pairs a record in progress with the record literal that defines
//! it and a link to the enclosing context. The whole evaluation semantics
//! is given as the spec function `spec_eval`; the executable evaluator is
//! proved to return exactly what it describes.

use vstd::prelude::*;
use crate::ast;
use crate::ast::{expr_view, BinOp, Expr, ExprView, FieldView, Literal, UnOp};
use crate::chars::str_chars;
use vstd::string::StringExecFns;

verus! {

// ---------------------------------------------------------------------------
// Values.
// ---------------------------------------------------------------------------

/// A runtime value. A record value is a handle into the store's arena.
#[derive(Debug, PartialEq, Clone)]
pub enum Val {
    Nil,
    Rec(usize),
    Bool(bool),
    Int(i64),
    Str(String),
}

pub enum ValView {
    Nil,
    Rec(int),
    Bool(bool),
    Int(i64),
    Str(Seq<char>),
}

pub open spec fn val_view(v: Val) -> ValView {
    match v {
        Val::Nil => ValView::Nil,
        Val::Rec(r) => ValView::Rec(r as int),
        Val::Bool(b) => ValView::Bool(b),
        Val::Int(i) => ValView::Int(i),
        Val::Str(s) => ValView::Str(s@),
    }
}

pub open spec fn type_name_of(v: ValView) -> Seq<char> {
    match v {
        ValView::Nil => "nil"@,
        ValView::Rec(_) => "rec"@,
        ValView::Bool(_) => "bool"@,
        ValView::Int(_) => "int"@,
        ValView::Str(_) => "str"@,
    }
}

impl Val {
    /// The value's type, for error messages and tests.
    pub fn typ(&self) -> (r: &'static str)
        ensures
            r@ == type_name_of(val_view(*self)),
    {
        match self {
            Val::Nil => "nil",
            Val::Rec(_) => "rec",
            Val::Bool(_) => "bool",
            Val::Int(_) => "int",
            Val::Str(_) => "str",
        }
    }

    /// An exact copy.
    pub fn duplicate(&self) -> (r: Val)
        ensures
            r == *self,
    {
        match self {
            Val::Nil => Val::Nil,
            Val::Rec(i) => Val::Rec(*i),
            Val::Bool(b) => Val::Bool(*b),
            Val::Int(i) => Val::Int(*i),
            Val::Str(s) => Val::Str(s.clone()),
        }
    }
}

// ---------------------------------------------------------------------------
// Records.
// ---------------------------------------------------------------------------

/// A runtime record: named values in insertion order, names unique.
#[derive(Debug, PartialEq)]
pub struct Rec {
    pub fields: Vec<(String, Val)>,
}

/// The view of a record: a sequence of name/value pairs.
pub open spec fn rec_entries(fs: Seq<(String, Val)>) -> Seq<(Seq<char>, ValView)> {
    fs.map(|i: int, p: (String, Val)| (p.0@, val_view(p.1)))
}

/// The first value stored under `name`, if any.
pub open spec fn rv_get(m: Seq<(Seq<char>, ValView)>, name: Seq<char>) -> Option<ValView>
    decreases m.len(),
{
    if m.len() == 0 {
        None
    } else if m[0].0 == name {
        Some(m[0].1)
    } else {
        rv_get(m.drop_first(), name)
    }
}

/// The record with `name` bound to `v`: overwritten in place if present,
/// appended otherwise.
pub open spec fn rv_set(m: Seq<(Seq<char>, ValView)>, name: Seq<char>, v: ValView) -> Seq<
    (Seq<char>, ValView),
>
    decreases m.len(),
{
    if m.len() == 0 {
        seq![(name, v)]
    } else if m[0].0 == name {
        seq![(name, v)] + m.drop_first()
    } else {
        seq![m[0]] + rv_set(m.drop_first(), name, v)
    }
}

impl Rec {
    pub fn new() -> (r: Self)
        ensures
            rec_entries(r.fields@) == Seq::<(Seq<char>, ValView)>::empty(),
    {
        let r = Rec { fields: Vec::new() };
        proof {
            assert(rec_entries(r.fields@) =~= Seq::<(Seq<char>, ValView)>::empty());
        }
        r
    }

    /// The value stored under `f`, if any.
    pub fn getattr(&self, f: &str) -> (r: Option<Val>)
        ensures
            match r {
                Some(v) => rv_get(rec_entries(self.fields@), f@) == Some(val_view(v)),
                None => rv_get(rec_entries(self.fields@), f@) is None,
            },
    {
        let key: String = f.to_owned();
        let mut i: usize = 0;
        proof {
            assert(rec_entries(self.fields@).skip(0) =~= rec_entries(self.fields@));
        }
        while i < self.fields.len()
            invariant
                i <= self.fields.len(),
                key@ == f@,
                rv_get(rec_entries(self.fields@), f@) == rv_get(
                    rec_entries(self.fields@).skip(i as int),
                    f@,
                ),
            decreases self.fields.len() - i,
        {
            proof {
                assert(rec_entries(self.fields@).skip(i as int)[0] == (
                    self.fields@[i as int].0@,
                    val_view(self.fields@[i as int].1),
                ));
                assert(rec_entries(self.fields@).skip(i as int).drop_first() =~= rec_entries(
                    self.fields@,
                ).skip(i as int + 1));
            }
            if self.fields[i].0 == key {
                return Some(self.fields[i].1.duplicate());
            }
            i = i + 1;
        }
        proof {
            assert(rec_entries(self.fields@).skip(i as int) =~= Seq::<
                (Seq<char>, ValView),
            >::empty());
        }
        None
    }

    /// Bind `f` to `val`: overwrite if present, append otherwise.
    pub fn setattr(&mut self, f: &str, val: Val)
        ensures
            rec_entries(final(self).fields@) == rv_set(
                rec_entries(old(self).fields@),
                f@,
                val_view(val),
            ),
            final(self).fields@.len() >= old(self).fields@.len(),
    {
        let key: String = f.to_owned();
        let mut i: usize = 0;
        while i < self.fields.len()
            invariant
                i <= self.fields.len(),
                key@ == f@,
                *self == *old(self),
                forall|j: int| 0 <= j < i ==> (#[trigger] self.fields@[j]).0@ != f@,
            decreases self.fields.len() - i,
        {
            if self.fields[i].0 == key {
                let ghost pre = self.fields@;
                self.fields[i] = (key, val);
                proof {
                    lemma_rv_set_at(rec_entries(pre), i as int, f@, val_view(val));
                    assert(rec_entries(self.fields@) =~= rec_entries(pre).update(
                        i as int,
                        (f@, val_view(val)),
                    ));
                }
                return ;
            }
            i = i + 1;
        }
        let ghost pre = self.fields@;
        self.fields.push((key, val));
        proof {
            assert(forall|j: int|
                0 <= j < rec_entries(pre).len() ==> (#[trigger] rec_entries(pre)[j]).0 == pre[
                    j
                ].0@);
            lemma_rv_get_none(rec_entries(pre), f@);
            lemma_rv_set_append(rec_entries(pre), f@, val_view(val));
            assert(rec_entries(self.fields@) =~= rec_entries(pre).push((f@, val_view(val))));
        }
    }

    pub fn is_empty(&self) -> (r: bool)
        ensures
            r == (rec_entries(self.fields@).len() == 0),
    {
        self.fields.len() == 0
    }
}

/// A record none of whose names is `name` has no binding for it.
pub proof fn lemma_rv_get_none(m: Seq<(Seq<char>, ValView)>, name: Seq<char>)
    requires
        forall|j: int| 0 <= j < m.len() ==> (#[trigger] m[j]).0 != name,
    ensures
        rv_get(m, name) is None,
    decreases m.len(),
{
    if m.len() > 0 {
        assert(forall|j: int|
            0 <= j < m.drop_first().len() ==> m.drop_first()[j] == #[trigger] m[j + 1]);
        lemma_rv_get_none(m.drop_first(), name);
    }
}

/// Overwriting the first occurrence of `name` (at index `i`) is an update.
proof fn lemma_rv_set_at(m: Seq<(Seq<char>, ValView)>, i: int, name: Seq<char>, v: ValView)
    requires
        0 <= i < m.len(),
        m[i].0 == name,
        forall|j: int| 0 <= j < i ==> (#[trigger] m[j]).0 != name,
    ensures
        rv_set(m, name, v) == m.update(i, (name, v)),
    decreases i,
{
    if i == 0 {
        assert(rv_set(m, name, v) == seq![(name, v)] + m.drop_first());
        assert(seq![(name, v)] + m.drop_first() =~= m.update(0, (name, v)));
    } else {
        assert(m.drop_first()[i - 1].0 == name);
        assert(forall|j: int|
            0 <= j < i - 1 ==> (#[trigger] m.drop_first()[j]).0 != name) by {
            assert(forall|j: int|
                0 <= j < i - 1 ==> m.drop_first()[j] == #[trigger] m[j + 1]);
        }
        lemma_rv_set_at(m.drop_first(), i - 1, name, v);
        assert(seq![m[0]] + m.drop_first().update(i - 1, (name, v)) =~= m.update(i, (name, v)));
    }
}

/// Binding an absent name appends it.
pub proof fn lemma_rv_set_append(m: Seq<(Seq<char>, ValView)>, name: Seq<char>, v: ValView)
    requires
        rv_get(m, name) is None,
    ensures
        rv_set(m, name, v) == m.push((name, v)),
    decreases m.len(),
{
    if m.len() == 0 {
        assert(rv_set(m, name, v) =~= m.push((name, v)));
    } else {
        lemma_rv_set_append(m.drop_first(), name, v);
        assert(seq![m[0]] + m.drop_first().push((name, v)) =~= m.push((name, v)));
    }
}

/// What `rv_set` does to lookups: the set name reads back as `v`, others
/// are unchanged.
pub proof fn lemma_rv_set_get(
    m: Seq<(Seq<char>, ValView)>,
    name: Seq<char>,
    v: ValView,
    other: Seq<char>,
)
    ensures
        rv_get(rv_set(m, name, v), name) == Some(v),
        other != name ==> rv_get(rv_set(m, name, v), other) == rv_get(m, other),
    decreases m.len(),
{
    if m.len() == 0 {
        assert(rv_set(m, name, v) == seq![(name, v)]);
        assert(rv_get(seq![(name, v)], name) == Some(v));
        if other != name {
            assert(seq![(name, v)].drop_first() =~= Seq::<(Seq<char>, ValView)>::empty());
            assert(rv_get(Seq::<(Seq<char>, ValView)>::empty(), other) is None);
            assert(rv_get(m, other) is None);
        }
    } else if m[0].0 == name {
        let m2 = seq![(name, v)] + m.drop_first();
        assert(m2[0] == (name, v));
        assert(m2.drop_first() =~= m.drop_first());
    } else {
        lemma_rv_set_get(m.drop_first(), name, v, other);
        let m2 = seq![m[0]] + rv_set(m.drop_first(), name, v);
        assert(m2[0] == m[0]);
        assert(m2.drop_first() =~= rv_set(m.drop_first(), name, v));
    }
}

// ---------------------------------------------------------------------------
// Errors.
// ---------------------------------------------------------------------------

/// An evaluation failure, described for a human reader.
#[derive(Debug, PartialEq)]
pub struct EvalError {
    pub message: String,
}

pub open spec fn msg_depth() -> Seq<char> {
    "Evaluation nesting too deep"@
}

pub open spec fn msg_unbound(name: Seq<char>) -> Seq<char> {
    "Unbound variable '"@ + name + "'"@
}

pub open spec fn msg_field_missing(f: Seq<char>) -> Seq<char> {
    "Field does not exist '"@ + f + "'"@
}

pub open spec fn msg_invalid_acc(t: Seq<char>) -> Seq<char> {
    "Invalid field access on value type '"@ + t + "'"@
}

pub open spec fn msg_unary_minus(t: Seq<char>) -> Seq<char> {
    "Cannot apply unary minus to type '"@ + t + "'"@
}

pub open spec fn msg_arith(op: Seq<char>, lt: Seq<char>, rt: Seq<char>) -> Seq<char> {
    "Invalid types for arithmetic operation '"@ + op + "': "@ + lt + " and "@ + rt
}

pub open spec fn msg_overflow(op: Seq<char>) -> Seq<char> {
    "Integer overflow in operation '"@ + op + "'"@
}

pub open spec fn msg_div_zero() -> Seq<char> {
    "Division by zero"@
}

pub open spec fn msg_shift() -> Seq<char> {
    "Unsupported shift operator"@
}

pub open spec fn msg_call() -> Seq<char> {
    "Function calls are not supported"@
}

pub open spec fn msg_fun() -> Seq<char> {
    "Function literals are not supported"@
}

// ---------------------------------------------------------------------------
// The store: an arena of records and contexts.
// ---------------------------------------------------------------------------

/// An evaluation context: a record in progress, the record literal that
/// defines it, and the enclosing context.
pub struct Ctx {
    pub rec: usize,
    pub syntax: ast::Rec,
    pub parent: Option<usize>,
}

/// The arena holding every record and context of one evaluation.
pub struct Store {
    pub recs: Vec<Rec>,
    pub ctxs: Vec<Ctx>,
}

pub struct CtxView {
    pub rec: int,
    pub syntax: ast::RecView,
    pub parent: Option<int>,
}

pub struct StoreView {
    pub recs: Seq<Seq<(Seq<char>, ValView)>>,
    pub ctxs: Seq<CtxView>,
}

pub open spec fn ctx_view(c: Ctx) -> CtxView {
    CtxView {
        rec: c.rec as int,
        syntax: ast::rec_view(c.syntax),
        parent: match c.parent {
            Some(p) => Some(p as int),
            None => None,
        },
    }
}

pub open spec fn store_view(st: Store) -> StoreView {
    StoreView {
        recs: st.recs@.map(|i: int, r: Rec| rec_entries(r.fields@)),
        ctxs: st.ctxs@.map(|i: int, c: Ctx| ctx_view(c)),
    }
}

/// A record handle points into the arena.
pub open spec fn val_wf(sv: StoreView, v: ValView) -> bool {
    match v {
        ValView::Rec(r) => 0 <= r < sv.recs.len(),
        _ => true,
    }
}

pub open spec fn ctx_wf_at(sv: StoreView, i: int) -> bool {
    &&& 0 <= sv.ctxs[i].rec < sv.recs.len()
    &&& match sv.ctxs[i].parent {
        Some(p) => 0 <= p < i,
        None => true,
    }
}

/// Well-formed store: every context points at a record and at an earlier
/// context, and every stored record handle points into the arena.
pub open spec fn sv_wf(sv: StoreView) -> bool {
    &&& forall|i: int| 0 <= i < sv.ctxs.len() ==> #[trigger] ctx_wf_at(sv, i)
    &&& forall|r: int, j: int|
        0 <= r < sv.recs.len() && 0 <= j < sv.recs[r].len() ==> val_wf(
            sv,
            (#[trigger] sv.recs[r][j]).1,
        )
}

/// The later store keeps every context of the earlier one and only appends.
pub open spec fn sv_extends(a: StoreView, b: StoreView) -> bool {
    &&& a.ctxs.len() <= b.ctxs.len()
    &&& a.recs.len() <= b.recs.len()
    &&& forall|i: int| 0 <= i < a.ctxs.len() ==> a.ctxs[i] == b.ctxs[i]
}

/// A successful `rv_get` hands back a value stored in the record.
pub proof fn lemma_rv_get_index(m: Seq<(Seq<char>, ValView)>, name: Seq<char>)
    ensures
        rv_get(m, name) matches Some(v) ==> exists|j: int|
            0 <= j < m.len() && (#[trigger] m[j]).1 == v,
    decreases m.len(),
{
    if m.len() > 0 && m[0].0 != name {
        lemma_rv_get_index(m.drop_first(), name);
        if rv_get(m, name) is Some {
            let v = rv_get(m, name)->Some_0;
            let j = choose|j: int|
                0 <= j < m.drop_first().len() && (#[trigger] m.drop_first()[j]).1 == v;
            assert(m[j + 1].1 == v);
        }
    }
}

// ---------------------------------------------------------------------------
// Truthiness.
// ---------------------------------------------------------------------------

/// The boolean a value coerces to: `Nil` never, booleans themselves,
/// numbers when nonzero, strings when nonempty, records when they have at
/// least one field.
pub open spec fn spec_truthy(sv: StoreView, v: ValView) -> bool {
    match v {
        ValView::Nil => false,
        ValView::Rec(r) => 0 <= r < sv.recs.len() && sv.recs[r].len() != 0,
        ValView::Bool(b) => b,
        ValView::Int(i) => i != 0,
        ValView::Str(s) => s.len() != 0,
    }
}

impl Val {
    /// The value's truthiness.
    pub fn to_bool(&self, st: &Store) -> (r: bool)
        requires
            sv_wf(store_view(*st)),
            val_wf(store_view(*st), val_view(*self)),
        ensures
            r == spec_truthy(store_view(*st), val_view(*self)),
    {
        match self {
            Val::Nil => false,
            Val::Rec(r) => !st.recs[*r].is_empty(),
            Val::Bool(b) => *b,
            Val::Int(i) => *i != 0,
            Val::Str(s) => !s.as_str().is_empty(),
        }
    }
}

// ---------------------------------------------------------------------------
// The lookup protocol.
// ---------------------------------------------------------------------------

/// The first already-evaluated binding of `name` along the context chain.
pub open spec fn spec_getval(sv: StoreView, ctx: int, name: Seq<char>) -> Option<ValView>
    decreases ctx,
{
    if 0 <= ctx && ctx < sv.ctxs.len() {
        let c = sv.ctxs[ctx];
        match rv_get(sv.recs[c.rec], name) {
            Some(v) => Some(v),
            None => match c.parent {
                Some(p) => if 0 <= p && p < ctx {
                    spec_getval(sv, p, name)
                } else {
                    None
                },
                None => None,
            },
        }
    } else {
        None
    }
}

/// The index of the first field named `name`, if any.
pub open spec fn find_field(fs: Seq<FieldView>, name: Seq<char>) -> Option<int>
    decreases fs.len(),
{
    if fs.len() == 0 {
        None
    } else if fs[0].name == name {
        Some(0int)
    } else {
        match find_field(fs.drop_first(), name) {
            Some(i) => Some(i + 1),
            None => None,
        }
    }
}

/// `find_field` finds the first match, and only fails when nothing matches.
pub proof fn lemma_find_field_char(fs: Seq<FieldView>, name: Seq<char>)
    ensures
        match find_field(fs, name) {
            Some(i) => 0 <= i < fs.len() && fs[i].name == name && forall|j: int|
                0 <= j < i ==> (#[trigger] fs[j]).name != name,
            None => forall|j: int| 0 <= j < fs.len() ==> (#[trigger] fs[j]).name != name,
        },
    decreases fs.len(),
{
    if fs.len() > 0 && fs[0].name != name {
        lemma_find_field_char(fs.drop_first(), name);
        match find_field(fs, name) {
            Some(i) => {
                assert(fs.drop_first()[i - 1] == fs[i]);
                assert forall|j: int| 0 <= j < i implies (#[trigger] fs[j]).name != name by {
                    if j > 0 {
                        assert(fs.drop_first()[j - 1] == fs[j]);
                    }
                }
            },
            None => {
                assert forall|j: int|
                    0 <= j < fs.len() implies (#[trigger] fs[j]).name != name by {
                    if j > 0 {
                        assert(fs.drop_first()[j - 1] == fs[j]);
                    }
                }
            },
        }
    }
}

/// The first context along the chain whose literal defines `name`, and the
/// field's index there.
pub open spec fn spec_for_var(sv: StoreView, ctx: int, name: Seq<char>) -> Option<(int, int)>
    decreases ctx,
{
    if 0 <= ctx && ctx < sv.ctxs.len() {
        let c = sv.ctxs[ctx];
        match find_field(c.syntax.fields, name) {
            Some(fi) => Some((ctx, fi)),
            None => match c.parent {
                Some(p) => if 0 <= p && p < ctx {
                    spec_for_var(sv, p, name)
                } else {
                    None
                },
                None => None,
            },
        }
    } else {
        None
    }
}

// ---------------------------------------------------------------------------
// Binary operators.
// ---------------------------------------------------------------------------

pub open spec fn op_str(op: BinOp) -> Seq<char> {
    match op {
        BinOp::Times => "*"@,
        BinOp::Div => "/"@,
        BinOp::Plus => "+"@,
        BinOp::Minus => "-"@,
        BinOp::ShiftLeft => "<<"@,
        BinOp::ShiftRight => ">>"@,
        BinOp::LessThan => "<"@,
        BinOp::GreaterThan => ">"@,
        BinOp::LessEq => "<="@,
        BinOp::GreaterEq => ">="@,
        BinOp::Eq => "=="@,
        BinOp::NotEq => "!="@,
        BinOp::LogicalAnd => "&&"@,
        BinOp::LogicalOr => "||"@,
    }
}

pub open spec fn iabs(x: int) -> int {
    if x < 0 {
        -x
    } else {
        x
    }
}

/// Integer division truncating toward zero, as the machine does it.
pub open spec fn trunc_div(x: int, y: int) -> int {
    if (x < 0) == (y < 0) {
        iabs(x) / iabs(y)
    } else {
        -(iabs(x) / iabs(y))
    }
}

pub open spec fn arith_val(op: BinOp, x: int, y: int) -> int {
    match op {
        BinOp::Times => x * y,
        BinOp::Div => trunc_div(x, y),
        BinOp::Plus => x + y,
        BinOp::Minus => x - y,
        _ => 0,
    }
}

/// Strict lexicographic order on character sequences by code point, which
/// is how the machine orders strings.
pub open spec fn lex_lt(a: Seq<char>, b: Seq<char>) -> bool
    decreases a.len(),
{
    if b.len() == 0 {
        false
    } else if a.len() == 0 {
        true
    } else if a[0] != b[0] {
        (a[0] as u32) < (b[0] as u32)
    } else {
        lex_lt(a.drop_first(), b.drop_first())
    }
}

pub open spec fn cmp_int(op: BinOp, x: i64, y: i64) -> bool {
    match op {
        BinOp::LessThan => x < y,
        BinOp::GreaterThan => x > y,
        BinOp::LessEq => x <= y,
        BinOp::GreaterEq => x >= y,
        BinOp::Eq => x == y,
        BinOp::NotEq => x != y,
        _ => false,
    }
}

pub open spec fn cmp_str(op: BinOp, x: Seq<char>, y: Seq<char>) -> bool {
    match op {
        BinOp::LessThan => lex_lt(x, y),
        BinOp::GreaterThan => lex_lt(y, x),
        BinOp::LessEq => !lex_lt(y, x),
        BinOp::GreaterEq => !lex_lt(x, y),
        BinOp::Eq => x == y,
        BinOp::NotEq => x != y,
        _ => false,
    }
}

pub open spec fn cmp_bool(op: BinOp, x: bool, y: bool) -> bool {
    match op {
        BinOp::LessThan => !x && y,
        BinOp::GreaterThan => x && !y,
        BinOp::LessEq => !x || y,
        BinOp::GreaterEq => x || !y,
        BinOp::Eq => x == y,
        BinOp::NotEq => x != y,
        _ => false,
    }
}

pub open spec fn is_comparison(op: BinOp) -> bool {
    match op {
        BinOp::LessThan | BinOp::GreaterThan | BinOp::LessEq | BinOp::GreaterEq | BinOp::Eq
            | BinOp::NotEq => true,
        _ => false,
    }
}

/// What a binary operator yields on two evaluated operands: integer
/// arithmetic with overflow and division-by-zero reported; comparisons on
/// integer, string and boolean pairs; truthiness conjunction and
/// disjunction; a type error on anything else. Both operands have already
/// been evaluated by the time this applies — there is no short-circuit.
pub open spec fn apply_binop(sv: StoreView, op: BinOp, a: ValView, b: ValView) -> Result<
    ValView,
    Seq<char>,
> {
    match op {
        BinOp::Times | BinOp::Div | BinOp::Plus | BinOp::Minus => match (a, b) {
            (ValView::Int(x), ValView::Int(y)) => {
                if op == BinOp::Div && y == 0 {
                    Err(msg_div_zero())
                } else {
                    let r = arith_val(op, x as int, y as int);
                    if i64::MIN <= r && r <= i64::MAX {
                        Ok(ValView::Int(r as i64))
                    } else {
                        Err(msg_overflow(op_str(op)))
                    }
                }
            },
            (_, _) => Err(msg_arith(op_str(op), type_name_of(a), type_name_of(b))),
        },
        BinOp::ShiftLeft | BinOp::ShiftRight => Err(msg_shift()),
        BinOp::LessThan | BinOp::GreaterThan | BinOp::LessEq | BinOp::GreaterEq | BinOp::Eq
            | BinOp::NotEq => match (a, b) {
            (ValView::Int(x), ValView::Int(y)) => Ok(ValView::Bool(cmp_int(op, x, y))),
            (ValView::Str(x), ValView::Str(y)) => Ok(ValView::Bool(cmp_str(op, x, y))),
            (ValView::Bool(x), ValView::Bool(y)) => Ok(ValView::Bool(cmp_bool(op, x, y))),
            (_, _) => Err(msg_arith(op_str(op), type_name_of(a), type_name_of(b))),
        },
        BinOp::LogicalAnd => Ok(ValView::Bool(spec_truthy(sv, a) && spec_truthy(sv, b))),
        BinOp::LogicalOr => Ok(ValView::Bool(spec_truthy(sv, a) || spec_truthy(sv, b))),
    }
}

proof fn lemma_mul_i64_range(x: int, y: int)
    by (nonlinear_arith)
    requires
        -0x8000000000000000 <= x <= 0x7FFFFFFFFFFFFFFF,
        -0x8000000000000000 <= y <= 0x7FFFFFFFFFFFFFFF,
    ensures
        -0x80000000000000000000000000000000 < x * y < 0x80000000000000000000000000000000,
{
}

fn op_text(op: BinOp) -> (r: &'static str)
    ensures
        r@ == op_str(op),
{
    match op {
        BinOp::Times => "*",
        BinOp::Div => "/",
        BinOp::Plus => "+",
        BinOp::Minus => "-",
        BinOp::ShiftLeft => "<<",
        BinOp::ShiftRight => ">>",
        BinOp::LessThan => "<",
        BinOp::GreaterThan => ">",
        BinOp::LessEq => "<=",
        BinOp::GreaterEq => ">=",
        BinOp::Eq => "==",
        BinOp::NotEq => "!=",
        BinOp::LogicalAnd => "&&",
        BinOp::LogicalOr => "||",
    }
}

fn arith_error(op: BinOp, a: &Val, b: &Val) -> (r: EvalError)
    ensures
        r.message@ == msg_arith(op_str(op), type_name_of(val_view(*a)), type_name_of(val_view(*b))),
{
    let msg = String::from_str("Invalid types for arithmetic operation '").concat(
        op_text(op),
    ).concat("': ").concat(a.typ()).concat(" and ").concat(b.typ());
    EvalError { message: msg }
}

/// The magnitude of `x` as an unsigned number.
fn magnitude(x: i64) -> (r: u64)
    ensures
        r as int == iabs(x as int),
{
    if x >= 0 {
        x as u64
    } else {
        ((-(x + 1)) as u64) + 1
    }
}

fn eval_binop(st: &Store, op: BinOp, a: &Val, b: &Val) -> (r: Result<Val, EvalError>)
    requires
        sv_wf(store_view(*st)),
        val_wf(store_view(*st), val_view(*a)),
        val_wf(store_view(*st), val_view(*b)),
    ensures
        match r {
            Ok(v) => {
                &&& apply_binop(store_view(*st), op, val_view(*a), val_view(*b)) == Ok::<
                    ValView,
                    Seq<char>,
                >(val_view(v))
                &&& val_wf(store_view(*st), val_view(v))
            },
            Err(e) => {
                &&& apply_binop(store_view(*st), op, val_view(*a), val_view(*b)) matches Err(m)
                &&& e.message@ == m
            },
        },
{
    match op {
        BinOp::Times | BinOp::Div | BinOp::Plus | BinOp::Minus => {
            match (a, b) {
                (Val::Int(xr), Val::Int(yr)) => {
                    let x = *xr;
                    let y = *yr;
                    let is_div = matches!(op, BinOp::Div);
                    if is_div && y == 0 {
                        Err(EvalError { message: String::from_str("Division by zero") })
                    } else if is_div {
                        let neg_res = (x < 0) != (y < 0);
                        let mx = magnitude(x);
                        let my = magnitude(y);
                        let q: u64 = mx / my;
                        if neg_res {
                            proof {
                                assert(arith_val(op, x as int, y as int) == -(q as int));
                            }
                            if q == 9223372036854775808u64 {
                                Ok(Val::Int(i64::MIN))
                            } else {
                                Ok(Val::Int(-(q as i64)))
                            }
                        } else {
                            proof {
                                assert(arith_val(op, x as int, y as int) == q as int);
                            }
                            if q > 9223372036854775807u64 {
                                Err(
                                    EvalError {
                                        message: String::from_str(
                                            "Integer overflow in operation '",
                                        ).concat(op_text(op)).concat("'"),
                                    },
                                )
                            } else {
                                Ok(Val::Int(q as i64))
                            }
                        }
                    } else {
                        let xw = x as i128;
                        let yw = y as i128;
                        proof {
                            lemma_mul_i64_range(x as int, y as int);
                        }
                        let rw: i128 = match op {
                            BinOp::Times => xw * yw,
                            BinOp::Plus => xw + yw,
                            _ => xw - yw,
                        };
                        if -9223372036854775808i128 <= rw && rw <= 9223372036854775807i128 {
                            Ok(Val::Int(rw as i64))
                        } else {
                            Err(
                                EvalError {
                                    message: String::from_str(
                                        "Integer overflow in operation '",
                                    ).concat(op_text(op)).concat("'"),
                                },
                            )
                        }
                    }
                },
                (_, _) => Err(arith_error(op, a, b)),
            }
        },
        BinOp::ShiftLeft | BinOp::ShiftRight => Err(
            EvalError { message: String::from_str("Unsupported shift operator") },
        ),
        BinOp::LessThan | BinOp::GreaterThan | BinOp::LessEq | BinOp::GreaterEq | BinOp::Eq
            | BinOp::NotEq => {
            match (a, b) {
                (Val::Int(x), Val::Int(y)) => Ok(Val::Bool(cmp_int_e(op, *x, *y))),
                (Val::Str(x), Val::Str(y)) => Ok(Val::Bool(cmp_str_e(op, x, y))),
                (Val::Bool(x), Val::Bool(y)) => Ok(Val::Bool(cmp_bool_e(op, *x, *y))),
                (_, _) => Err(arith_error(op, a, b)),
            }
        },
        BinOp::LogicalAnd => Ok(Val::Bool(a.to_bool(st) && b.to_bool(st))),
        BinOp::LogicalOr => Ok(Val::Bool(a.to_bool(st) || b.to_bool(st))),
    }
}

fn cmp_int_e(op: BinOp, x: i64, y: i64) -> (r: bool)
    requires
        is_comparison(op),
    ensures
        r == cmp_int(op, x, y),
{
    match op {
        BinOp::LessThan => x < y,
        BinOp::GreaterThan => x > y,
        BinOp::LessEq => x <= y,
        BinOp::GreaterEq => x >= y,
        BinOp::Eq => x == y,
        BinOp::NotEq => x != y,
        _ => {
            proof {
                assert(false);
            }
            false
        },
    }
}

fn lex_lt_chars(x: &Vec<char>, y: &Vec<char>) -> (r: bool)
    ensures
        r == lex_lt(x@, y@),
{
    let mut i: usize = 0;
    proof {
        assert(x@.skip(0) =~= x@);
        assert(y@.skip(0) =~= y@);
    }
    while i < x.len() && i < y.len() && x[i] == y[i]
        invariant
            i <= x.len(),
            i <= y.len(),
            lex_lt(x@, y@) == lex_lt(x@.skip(i as int), y@.skip(i as int)),
        decreases x.len() - i,
    {
        proof {
            assert(x@.skip(i as int).drop_first() =~= x@.skip(i as int + 1));
            assert(y@.skip(i as int).drop_first() =~= y@.skip(i as int + 1));
        }
        i = i + 1;
    }
    if i >= y.len() {
        false
    } else if i >= x.len() {
        true
    } else {
        (x[i] as u32) < (y[i] as u32)
    }
}

fn cmp_str_e(op: BinOp, x: &String, y: &String) -> (r: bool)
    requires
        is_comparison(op),
    ensures
        r == cmp_str(op, x@, y@),
{
    match op {
        BinOp::Eq => *x == *y,
        BinOp::NotEq => !(*x == *y),
        BinOp::LessThan => {
            let xv = str_chars(x.as_str());
            let yv = str_chars(y.as_str());
            lex_lt_chars(&xv, &yv)
        },
        BinOp::GreaterThan => {
            let xv = str_chars(x.as_str());
            let yv = str_chars(y.as_str());
            lex_lt_chars(&yv, &xv)
        },
        BinOp::LessEq => {
            let xv = str_chars(x.as_str());
            let yv = str_chars(y.as_str());
            !lex_lt_chars(&yv, &xv)
        },
        BinOp::GreaterEq => {
            let xv = str_chars(x.as_str());
            let yv = str_chars(y.as_str());
            !lex_lt_chars(&xv, &yv)
        },
        _ => {
            proof {
                assert(false);
            }
            false
        },
    }
}

fn cmp_bool_e(op: BinOp, x: bool, y: bool) -> (r: bool)
    requires
        is_comparison(op),
    ensures
        r == cmp_bool(op, x, y),
{
    match op {
        BinOp::LessThan => !x && y,
        BinOp::GreaterThan => x && !y,
        BinOp::LessEq => !x || y,
        BinOp::GreaterEq => x || !y,
        BinOp::Eq => x == y,
        BinOp::NotEq => x != y,
        _ => {
            proof {
                assert(false);
            }
            false
        },
    }
}

// ---------------------------------------------------------------------------
// The evaluation semantics.
// ---------------------------------------------------------------------------

pub open spec fn lit_to_val(l: ast::LiteralView) -> ValView {
    match l {
        ast::LiteralView::Nil => ValView::Nil,
        ast::LiteralView::Int(i) => ValView::Int(i),
        ast::LiteralView::Str(s) => ValView::Str(s),
    }
}

/// The store with record `r`'s binding for `name` set to `v`.
pub open spec fn sv_set_field(sv: StoreView, r: int, name: Seq<char>, v: ValView) -> StoreView {
    StoreView { recs: sv.recs.update(r, rv_set(sv.recs[r], name, v)), ctxs: sv.ctxs }
}

/// What evaluating `e` in context `ctx` yields and what it does to the
/// store. `fuel` bounds the nesting depth of evaluation (cyclic field
/// references are not detected; they run the fuel out and fail).
///
/// This is the reference semantics of the language: literals convert
/// directly; a variable resolves by the lookup protocol, evaluating and
/// memoizing the defining field on first use; field access requires an
/// already-evaluated record; unary and binary operators follow
/// `apply_binop` and truthiness, with both operands always evaluated; a
/// record literal fills a fresh record field by field, skipping fields
/// memoized meanwhile; calls and function literals are not supported.
pub open spec fn spec_eval(e: ExprView, ctx: int, sv: StoreView, fuel: nat) -> (Result<
    ValView,
    Seq<char>,
>, StoreView)
    decreases fuel, 1int, 0int,
{
    if fuel == 0 {
        (Err(msg_depth()), sv)
    } else {
        let fl = (fuel - 1) as nat;
        match e {
            ExprView::Literal(l) => (Ok(lit_to_val(l)), sv),
            ExprView::Var(name) => match spec_getval(sv, ctx, name) {
                Some(v) => (Ok(v), sv),
                None => match spec_for_var(sv, ctx, name) {
                    Some((c2, fi)) => {
                        if 0 <= c2 < sv.ctxs.len() && 0 <= fi < sv.ctxs[c2].syntax.fields.len() {
                            let fld = sv.ctxs[c2].syntax.fields[fi];
                            let step = spec_eval(fld.value, c2, sv, fl);
                            match step.0 {
                                Ok(v) => (
                                    Ok(v),
                                    sv_set_field(step.1, sv.ctxs[c2].rec, fld.name, v),
                                ),
                                Err(m) => (Err(m), step.1),
                            }
                        } else {
                            (Err(msg_unbound(name)), sv)
                        }
                    },
                    None => (Err(msg_unbound(name)), sv),
                },
            },
            ExprView::FieldAcc(b, f) => {
                let step = spec_eval(*b, ctx, sv, fl);
                match step.0 {
                    Ok(v) => match v {
                        ValView::Rec(ri) => {
                            if 0 <= ri < step.1.recs.len() {
                                match rv_get(step.1.recs[ri], f) {
                                    Some(fv) => (Ok(fv), step.1),
                                    None => (Err(msg_field_missing(f)), step.1),
                                }
                            } else {
                                (Err(msg_field_missing(f)), step.1)
                            }
                        },
                        _ => (Err(msg_invalid_acc(type_name_of(v))), step.1),
                    },
                    Err(m) => (Err(m), step.1),
                }
            },
            ExprView::UnExpr(op, b) => {
                let step = spec_eval(*b, ctx, sv, fl);
                match step.0 {
                    Ok(v) => match op {
                        UnOp::UnPlus => (Ok(v), step.1),
                        UnOp::UnMinus => match v {
                            ValView::Int(i) => {
                                if i == i64::MIN {
                                    (Err(msg_overflow("-"@)), step.1)
                                } else {
                                    (Ok(ValView::Int((-(i as int)) as i64)), step.1)
                                }
                            },
                            _ => (Err(msg_unary_minus(type_name_of(v))), step.1),
                        },
                        UnOp::Not => (Ok(ValView::Bool(!spec_truthy(step.1, v))), step.1),
                    },
                    Err(m) => (Err(m), step.1),
                }
            },
            ExprView::BinExpr(l, op, r) => {
                let lstep = spec_eval(*l, ctx, sv, fl);
                match lstep.0 {
                    Err(m) => (Err(m), lstep.1),
                    Ok(lv) => {
                        let rstep = spec_eval(*r, ctx, lstep.1, fl);
                        match rstep.0 {
                            Err(m) => (Err(m), rstep.1),
                            Ok(rv) => (apply_binop(rstep.1, op, lv, rv), rstep.1),
                        }
                    },
                }
            },
            ExprView::Rec(re) => {
                let rid = sv.recs.len() as int;
                let c2 = sv.ctxs.len() as int;
                let sv1 = StoreView {
                    recs: sv.recs.push(Seq::empty()),
                    ctxs: sv.ctxs.push(CtxView { rec: rid, syntax: re, parent: Some(ctx) }),
                };
                let run = spec_eval_fields(re.fields, 0, c2, rid, sv1, fuel);
                match run.0 {
                    None => (Ok(ValView::Rec(rid)), run.1),
                    Some(m) => (Err(m), run.1),
                }
            },
            ExprView::Call(_) => (Err(msg_call()), sv),
            ExprView::Fun(_) => (Err(msg_fun()), sv),
        }
    }
}

/// Fill record `rid` from fields `fs[i..]`, in declaration order, skipping
/// any field that a cross-reference has already filled in; the first error
/// aborts. Returns the error, if any, and the store reached.
pub open spec fn spec_eval_fields(
    fs: Seq<FieldView>,
    i: int,
    ctx: int,
    rid: int,
    sv: StoreView,
    fuel: nat,
) -> (Option<Seq<char>>, StoreView)
    decreases fuel, 0int, fs.len() - i,
{
    if i < 0 || i >= fs.len() {
        (None, sv)
    } else if fuel == 0 {
        (Some(msg_depth()), sv)
    } else {
        let fld = fs[i];
        let present = 0 <= rid < sv.recs.len() && rv_get(sv.recs[rid], fld.name) is Some;
        if present {
            spec_eval_fields(fs, i + 1, ctx, rid, sv, fuel)
        } else {
            let step = spec_eval(fld.value, ctx, sv, (fuel - 1) as nat);
            match step.0 {
                Ok(v) => spec_eval_fields(
                    fs,
                    i + 1,
                    ctx,
                    rid,
                    sv_set_field(step.1, rid, fld.name, v),
                    fuel,
                ),
                Err(m) => (Some(m), step.1),
            }
        }
    }
}

/// Every entry of `rv_set(m, name, v)` is an entry of `m` or carries `v`.
proof fn lemma_rv_set_entries(m: Seq<(Seq<char>, ValView)>, name: Seq<char>, v: ValView)
    ensures
        forall|j: int|
            0 <= j < rv_set(m, name, v).len() ==> ((#[trigger] rv_set(m, name, v)[j]).1 == v
                || exists|k: int| 0 <= k < m.len() && (#[trigger] m[k]).1 == rv_set(m, name, v)[j].1),
    decreases m.len(),
{
    let out = rv_set(m, name, v);
    if m.len() == 0 {
        assert(out =~= seq![(name, v)]);
    } else if m[0].0 == name {
        assert forall|j: int| 0 <= j < out.len() implies ((#[trigger] out[j]).1 == v || exists|
            k: int,
        | 0 <= k < m.len() && (#[trigger] m[k]).1 == out[j].1) by {
            if j > 0 {
                assert(out[j] == m.drop_first()[j - 1]);
                assert(m[j].1 == out[j].1);
            }
        }
    } else {
        lemma_rv_set_entries(m.drop_first(), name, v);
        assert forall|j: int| 0 <= j < out.len() implies ((#[trigger] out[j]).1 == v || exists|
            k: int,
        | 0 <= k < m.len() && (#[trigger] m[k]).1 == out[j].1) by {
            if j == 0 {
                assert(out[0] == m[0]);
                assert(m[0].1 == out[0].1);
            } else {
                let inner = rv_set(m.drop_first(), name, v);
                assert(out[j] == inner[j - 1]);
                if inner[j - 1].1 != v {
                    let k = choose|k: int|
                        0 <= k < m.drop_first().len() && (#[trigger] m.drop_first()[k]).1
                            == inner[j - 1].1;
                    assert(m[k + 1].1 == out[j].1);
                }
            }
        }
    }
}

/// Setting a field of a well-formed store with a well-formed value keeps
/// the store well-formed.
pub proof fn lemma_sv_set_field_wf(sv: StoreView, r: int, name: Seq<char>, v: ValView)
    requires
        sv_wf(sv),
        0 <= r < sv.recs.len(),
        val_wf(sv, v),
    ensures
        sv_wf(sv_set_field(sv, r, name, v)),
        sv_set_field(sv, r, name, v).recs.len() == sv.recs.len(),
        sv_set_field(sv, r, name, v).ctxs == sv.ctxs,
{
    let sv2 = sv_set_field(sv, r, name, v);
    lemma_rv_set_entries(sv.recs[r], name, v);
    assert forall|i: int| 0 <= i < sv2.ctxs.len() implies #[trigger] ctx_wf_at(sv2, i) by {
        assert(ctx_wf_at(sv, i));
    }
    assert forall|q: int, j: int|
        0 <= q < sv2.recs.len() && 0 <= j < sv2.recs[q].len() implies val_wf(
        sv2,
        (#[trigger] sv2.recs[q][j]).1,
    ) by {
        if q == r {
            if sv2.recs[q][j].1 != v {
                let k = choose|k: int|
                    0 <= k < sv.recs[r].len() && (#[trigger] sv.recs[r][k]).1 == sv2.recs[q][
                        j
                    ].1;
                assert(val_wf(sv, sv.recs[r][k].1));
            }
        } else {
            assert(val_wf(sv, sv.recs[q][j].1));
        }
    }
}

/// When no chain record holds `name` and the defining context is `c2`,
/// `c2`'s own record does not hold `name` either.
proof fn lemma_getval_none_covers(sv: StoreView, ctx: int, name: Seq<char>, c2: int, fi: int)
    requires
        sv_wf(sv),
        0 <= ctx < sv.ctxs.len(),
        spec_getval(sv, ctx, name) is None,
        spec_for_var(sv, ctx, name) == Some((c2, fi)),
    ensures
        0 <= c2 < sv.ctxs.len(),
        rv_get(sv.recs[sv.ctxs[c2].rec], name) is None,
    decreases ctx,
{
    assert(ctx_wf_at(sv, ctx));
    if find_field(sv.ctxs[ctx].syntax.fields, name) is Some {
        assert(c2 == ctx);
    } else {
        match sv.ctxs[ctx].parent {
            Some(p) => {
                lemma_getval_none_covers(sv, p, name, c2, fi);
            },
            None => {},
        }
    }
}

// ---------------------------------------------------------------------------
// Laws of evaluation.
// ---------------------------------------------------------------------------

/// No short-circuit: both operands of `&&` and `||` are always evaluated.
/// When the left operand evaluates, an error in the right operand surfaces
/// as the whole expression's error — even though the left operand alone
/// would determine the boolean result.
pub proof fn lemma_no_short_circuit(
    l: ExprView,
    op: BinOp,
    r: ExprView,
    ctx: int,
    sv: StoreView,
    fuel: nat,
)
    requires
        fuel >= 1,
        op == BinOp::LogicalAnd || op == BinOp::LogicalOr,
        spec_eval(l, ctx, sv, (fuel - 1) as nat).0 is Ok,
        spec_eval(r, ctx, spec_eval(l, ctx, sv, (fuel - 1) as nat).1, (fuel - 1) as nat).0
            is Err,
    ensures
        spec_eval(ExprView::BinExpr(Box::new(l), op, Box::new(r)), ctx, sv, fuel)
            == spec_eval(r, ctx, spec_eval(l, ctx, sv, (fuel - 1) as nat).1, (fuel - 1) as nat),
{
}

/// Field access is strict and never lazy: once the base has evaluated, the
/// store stays exactly as the base evaluation left it — no sibling field of
/// the record is evaluated. On a record base it reads the stored binding or
/// fails with the missing-field error; on any other base it fails with the
/// invalid-target error.
pub proof fn lemma_field_access(
    b: ExprView,
    f: Seq<char>,
    ctx: int,
    sv: StoreView,
    fuel: nat,
)
    requires
        fuel >= 1,
        spec_eval(b, ctx, sv, (fuel - 1) as nat).0 is Ok,
    ensures
        ({
            let step = spec_eval(b, ctx, sv, (fuel - 1) as nat);
            let res = spec_eval(ExprView::FieldAcc(Box::new(b), f), ctx, sv, fuel);
            &&& res.1 == step.1
            &&& match step.0->Ok_0 {
                ValView::Rec(r) => 0 <= r < step.1.recs.len() ==> res.0 == (match rv_get(
                    step.1.recs[r],
                    f,
                ) {
                    Some(v) => Ok(v),
                    None => Err(msg_field_missing(f)),
                }),
                v => res.0 == Err::<ValView, Seq<char>>(msg_invalid_acc(type_name_of(v))),
            }
        }),
{
}

/// An identifier with no already-evaluated binding and no defining field
/// anywhere in the enclosing chain fails with the unbound-variable error
/// and leaves the store untouched.
pub proof fn lemma_unbound_variable(name: Seq<char>, ctx: int, sv: StoreView, fuel: nat)
    requires
        fuel >= 1,
        spec_getval(sv, ctx, name) is None,
        spec_for_var(sv, ctx, name) is None,
    ensures
        spec_eval(ExprView::Var(name), ctx, sv, fuel) == (
            Err::<ValView, Seq<char>>(msg_unbound(name)),
            sv,
        ),
{
}

/// No context owning record `r` declares a field named `n`.
pub open spec fn unowned_name(sv: StoreView, r: int, n: Seq<char>) -> bool {
    forall|c: int|
        0 <= c < sv.ctxs.len() && (#[trigger] sv.ctxs[c]).rec == r ==> find_field(
            sv.ctxs[c].syntax.fields,
            n,
        ) is None
}

/// No two contexts share a record.
pub open spec fn sv_distinct_recs(sv: StoreView) -> bool {
    forall|c1: int, c2: int|
        0 <= c1 < c2 < sv.ctxs.len() ==> (#[trigger] sv.ctxs[c1]).rec != (
        #[trigger] sv.ctxs[c2]).rec
}

/// A value found along the chain is stored in some record, hence
/// well-formed.
proof fn lemma_getval_val_wf(sv: StoreView, ctx: int, name: Seq<char>)
    requires
        sv_wf(sv),
    ensures
        spec_getval(sv, ctx, name) matches Some(v) ==> val_wf(sv, v),
    decreases ctx,
{
    if 0 <= ctx && ctx < sv.ctxs.len() {
        assert(ctx_wf_at(sv, ctx));
        let c = sv.ctxs[ctx];
        lemma_rv_get_index(sv.recs[c.rec], name);
        match rv_get(sv.recs[c.rec], name) {
            Some(_) => {},
            None => match c.parent {
                Some(p) => {
                    if 0 <= p && p < ctx {
                        lemma_getval_val_wf(sv, p, name);
                    }
                },
                None => {},
            },
        }
    }
}

/// The context that `spec_for_var` finds really declares the name, at the
/// index returned.
proof fn lemma_for_var_finds(sv: StoreView, ctx: int, name: Seq<char>)
    ensures
        spec_for_var(sv, ctx, name) matches Some((c2, fi)) ==> {
            &&& 0 <= c2 < sv.ctxs.len()
            &&& find_field(sv.ctxs[c2].syntax.fields, name) == Some(fi)
        },
    decreases ctx,
{
    if 0 <= ctx && ctx < sv.ctxs.len() {
        let c = sv.ctxs[ctx];
        if find_field(c.syntax.fields, name) is None {
            match c.parent {
                Some(p) => {
                    if 0 <= p && p < ctx {
                        lemma_for_var_finds(sv, p, name);
                    }
                },
                None => {},
            }
        }
    }
}

/// How one evaluation step treats the store: well-formedness and existing
/// contexts are kept, new contexts own fresh records, an existing binding
/// is never overwritten, and no binding appears under a name that no
/// owning context declares.
proof fn lemma_eval_state(e: ExprView, ctx: int, sv: StoreView, fuel: nat, r: int, n: Seq<char>)
    requires
        sv_wf(sv),
        0 <= ctx < sv.ctxs.len(),
    ensures
        ({
            let step = spec_eval(e, ctx, sv, fuel);
            &&& sv_wf(step.1)
            &&& sv_extends(sv, step.1)
            &&& (step.0 matches Ok(v) ==> val_wf(step.1, v))
            &&& (forall|c: int|
                sv.ctxs.len() <= c < step.1.ctxs.len() ==> (#[trigger] step.1.ctxs[c]).rec
                    >= sv.recs.len())
            &&& (0 <= r < sv.recs.len() ==> {
                &&& (rv_get(sv.recs[r], n) matches Some(v0) ==> rv_get(step.1.recs[r], n)
                    == Some(v0))
                &&& (rv_get(sv.recs[r], n) is None && unowned_name(sv, r, n) ==> rv_get(
                    step.1.recs[r],
                    n,
                ) is None)
            })
        }),
    decreases fuel, 1int, 0int,
{
    if fuel == 0 {
        return ;
    }
    let fl = (fuel - 1) as nat;
    match e {
        ExprView::Literal(_) => {},
        ExprView::Var(name) => {
            lemma_getval_val_wf(sv, ctx, name);
            match spec_getval(sv, ctx, name) {
                Some(_) => {},
                None => match spec_for_var(sv, ctx, name) {
                    Some((c2, fi)) => {
                        if 0 <= c2 < sv.ctxs.len() && 0 <= fi < sv.ctxs[c2].syntax.fields.len() {
                            let fld = sv.ctxs[c2].syntax.fields[fi];
                            let rc2 = sv.ctxs[c2].rec;
                            assert(ctx_wf_at(sv, c2));
                            lemma_eval_state(fld.value, c2, sv, fl, r, n);
                            let step = spec_eval(fld.value, c2, sv, fl);
                            match step.0 {
                                Ok(v) => {
                                    lemma_sv_set_field_wf(step.1, rc2, fld.name, v);
                                    lemma_for_var_finds(sv, ctx, name);
                                    lemma_find_field_char(sv.ctxs[c2].syntax.fields, name);
                                    assert(fld.name == name);
                                    assert(0 <= ctx < sv.ctxs.len());
                                    lemma_getval_none_covers(sv, ctx, name, c2, fi);
                                    if 0 <= r < sv.recs.len() {
                                        if r == rc2 {
                                            lemma_rv_set_get(step.1.recs[rc2], fld.name, v, n);
                                        }
                                    }
                                },
                                Err(_) => {},
                            }
                        }
                    },
                    None => {},
                },
            }
        },
        ExprView::FieldAcc(b, f) => {
            lemma_eval_state(*b, ctx, sv, fl, r, n);
            let step = spec_eval(*b, ctx, sv, fl);
            match step.0 {
                Ok(v) => match v {
                    ValView::Rec(ri) => {
                        if 0 <= ri < step.1.recs.len() {
                            lemma_rv_get_index(step.1.recs[ri], f);
                        }
                    },
                    _ => {},
                },
                Err(_) => {},
            }
        },
        ExprView::UnExpr(op, b) => {
            lemma_eval_state(*b, ctx, sv, fl, r, n);
        },
        ExprView::BinExpr(l, op, rr) => {
            lemma_eval_state(*l, ctx, sv, fl, r, n);
            let lstep = spec_eval(*l, ctx, sv, fl);
            match lstep.0 {
                Err(_) => {},
                Ok(_) => {
                    lemma_eval_state(*rr, ctx, lstep.1, fl, r, n);
                    if 0 <= r < sv.recs.len() {
                        if rv_get(sv.recs[r], n) is None && unowned_name(sv, r, n) {
                            assert(unowned_name(lstep.1, r, n)) by {
                                assert(forall|c: int|
                                    0 <= c < sv.ctxs.len() ==> lstep.1.ctxs[c] == (
                                    #[trigger] sv.ctxs[c]));
                            }
                        }
                    }
                },
            }
        },
        ExprView::Rec(re) => {
            let rid = sv.recs.len() as int;
            let c2 = sv.ctxs.len() as int;
            let sv1 = StoreView {
                recs: sv.recs.push(Seq::empty()),
                ctxs: sv.ctxs.push(CtxView { rec: rid, syntax: re, parent: Some(ctx) }),
            };
            assert(sv_wf(sv1)) by {
                assert forall|i: int| 0 <= i < sv1.ctxs.len() implies #[trigger] ctx_wf_at(
                    sv1,
                    i,
                ) by {
                    if i < sv.ctxs.len() {
                        assert(ctx_wf_at(sv, i));
                    }
                }
            }
            lemma_eval_fields_state(re.fields, 0, c2, rid, sv1, fuel, r, n);
            if 0 <= r < sv.recs.len() {
                if rv_get(sv.recs[r], n) is None && unowned_name(sv, r, n) {
                    assert(unowned_name(sv1, r, n)) by {
                        assert(forall|c: int|
                            0 <= c < sv.ctxs.len() ==> sv1.ctxs[c] == (#[trigger] sv.ctxs[c]));
                    }
                }
            }
        },
        ExprView::Call(_) => {},
        ExprView::Fun(_) => {},
    }
}

/// The same facts for the field-filling run of a record literal. Here
/// `ctx` is the record's own context and `rid` its record, so the names
/// set are exactly names the owning context declares.
proof fn lemma_eval_fields_state(
    fs: Seq<FieldView>,
    i: int,
    ctx: int,
    rid: int,
    sv: StoreView,
    fuel: nat,
    r: int,
    n: Seq<char>,
)
    requires
        sv_wf(sv),
        0 <= ctx < sv.ctxs.len(),
        sv.ctxs[ctx].rec == rid,
        sv.ctxs[ctx].syntax.fields == fs,
    ensures
        ({
            let run = spec_eval_fields(fs, i, ctx, rid, sv, fuel);
            &&& sv_wf(run.1)
            &&& sv_extends(sv, run.1)
            &&& (forall|c: int|
                sv.ctxs.len() <= c < run.1.ctxs.len() ==> (#[trigger] run.1.ctxs[c]).rec
                    >= sv.recs.len())
            &&& (0 <= r < sv.recs.len() ==> {
                &&& (rv_get(sv.recs[r], n) matches Some(v0) ==> rv_get(run.1.recs[r], n)
                    == Some(v0))
                &&& (rv_get(sv.recs[r], n) is None && unowned_name(sv, r, n) ==> rv_get(
                    run.1.recs[r],
                    n,
                ) is None)
            })
        }),
    decreases fuel, 0int, fs.len() - i,
{
    if i < 0 || i >= fs.len() || fuel == 0 {
        return ;
    }
    let fld = fs[i];
    let present = 0 <= rid < sv.recs.len() && rv_get(sv.recs[rid], fld.name) is Some;
    if present {
        lemma_eval_fields_state(fs, i + 1, ctx, rid, sv, fuel, r, n);
    } else {
        lemma_eval_state(fld.value, ctx, sv, (fuel - 1) as nat, r, n);
        let step = spec_eval(fld.value, ctx, sv, (fuel - 1) as nat);
        match step.0 {
            Ok(v) => {
                assert(ctx_wf_at(sv, ctx));
                lemma_sv_set_field_wf(step.1, rid, fld.name, v);
                let svs = sv_set_field(step.1, rid, fld.name, v);
                if 0 <= r < sv.recs.len() {
                    if r == rid {
                        lemma_rv_set_get(step.1.recs[rid], fld.name, v, n);
                        if rv_get(sv.recs[r], n) is None && unowned_name(sv, r, n) && fld.name
                            == n {
                            lemma_find_field_char(fs, n);
                            assert(find_field(fs, n) is Some) by {
                                if find_field(fs, n) is None {
                                    assert(fs[i].name != n);
                                }
                            }
                            assert(false);
                        }
                    } else {
                        lemma_rv_set_get(step.1.recs[rid], fld.name, v, n);
                    }
                }
                assert(sv_extends(sv, svs));
                assert(0 <= ctx < svs.ctxs.len() && svs.ctxs[ctx].rec == rid
                    && svs.ctxs[ctx].syntax.fields == fs);
                lemma_eval_fields_state(fs, i + 1, ctx, rid, svs, fuel, r, n);
                if 0 <= r < sv.recs.len() {
                    if rv_get(sv.recs[r], n) is None && unowned_name(sv, r, n) {
                        assert(unowned_name(svs, r, n)) by {
                            assert(forall|c: int|
                                0 <= c < sv.ctxs.len() ==> svs.ctxs[c] == (
                                #[trigger] sv.ctxs[c]));
                        }
                    }
                }
            },
            Err(_) => {},
        }
    }
}

/// After the defining field of `name` has been evaluated and stored at
/// `c2`, every lookup from a chain position `c` that leads to `c2` finds
/// the stored value.
proof fn lemma_second_getval(
    name: Seq<char>,
    c: int,
    c2: int,
    fi: int,
    sv: StoreView,
    fl: nat,
    v: ValView,
)
    requires
        sv_wf(sv),
        sv_distinct_recs(sv),
        spec_getval(sv, c, name) is None,
        spec_for_var(sv, c, name) == Some((c2, fi)),
        0 <= fi < sv.ctxs[c2].syntax.fields.len(),
        spec_eval(sv.ctxs[c2].syntax.fields[fi].value, c2, sv, fl).0 == Ok::<
            ValView,
            Seq<char>,
        >(v),
    ensures
        ({
            let sv1 = spec_eval(sv.ctxs[c2].syntax.fields[fi].value, c2, sv, fl).1;
            let sv2 = sv_set_field(
                sv1,
                sv.ctxs[c2].rec,
                sv.ctxs[c2].syntax.fields[fi].name,
                v,
            );
            spec_getval(sv2, c, name) == Some(v)
        }),
    decreases c,
{
    assert(0 <= c < sv.ctxs.len());
    lemma_for_var_finds(sv, c, name);
    lemma_find_field_char(sv.ctxs[c2].syntax.fields, name);
    let fld = sv.ctxs[c2].syntax.fields[fi];
    assert(fld.name == name);
    let rc2 = sv.ctxs[c2].rec;
    let node = sv.ctxs[c];
    let rc = node.rec;
    assert(ctx_wf_at(sv, c));
    assert(ctx_wf_at(sv, c2));
    let sv1 = spec_eval(fld.value, c2, sv, fl).1;
    let sv2 = sv_set_field(sv1, rc2, name, v);
    lemma_eval_state(fld.value, c2, sv, fl, rc, name);
    assert(sv1.ctxs[c] == sv.ctxs[c]);
    if find_field(node.syntax.fields, name) is Some {
        assert(c == c2);
        lemma_rv_set_get(sv1.recs[rc2], name, v, name);
        assert(rv_get(sv2.recs[rc2], name) == Some(v));
        assert(spec_getval(sv2, c, name) == Some(v));
    } else {
        // This node neither declares nor stores the name; the lookup walks on.
        assert(c != c2);
        assert(rc != rc2);
        assert(rv_get(sv.recs[rc], name) is None);
        assert(unowned_name(sv, rc, name)) by {
            assert forall|cx: int|
                0 <= cx < sv.ctxs.len() && (#[trigger] sv.ctxs[cx]).rec == rc implies find_field(
                sv.ctxs[cx].syntax.fields,
                name,
            ) is None by {
                if cx != c {
                    if cx < c {
                        assert(sv.ctxs[cx].rec != sv.ctxs[c].rec);
                    } else {
                        assert(sv.ctxs[c].rec != sv.ctxs[cx].rec);
                    }
                }
            }
        }
        assert(rv_get(sv1.recs[rc], name) is None);
        assert(rv_get(sv2.recs[rc], name) is None);
        match node.parent {
            Some(p) => {
                assert(0 <= p < c);
                lemma_second_getval(name, p, c2, fi, sv, fl, v);
                assert(spec_getval(sv2, c, name) == spec_getval(sv2, p, name));
            },
            None => {
                assert(false);
            },
        }
    }
}

/// Memoization: once a variable reference has produced a value, a second
/// reference to the same name from the same context yields the same value
/// again and leaves the store exactly as it was — the defining expression
/// is not evaluated a second time.
pub proof fn lemma_memoized_reference(
    name: Seq<char>,
    ctx: int,
    sv: StoreView,
    fuel: nat,
    fuel2: nat,
)
    requires
        sv_wf(sv),
        sv_distinct_recs(sv),
        spec_eval(ExprView::Var(name), ctx, sv, fuel).0 is Ok,
        fuel2 >= 1,
    ensures
        ({
            let first = spec_eval(ExprView::Var(name), ctx, sv, fuel);
            spec_eval(ExprView::Var(name), ctx, first.1, fuel2) == (first.0, first.1)
        }),
{
    let first = spec_eval(ExprView::Var(name), ctx, sv, fuel);
    let fl = (fuel - 1) as nat;
    match spec_getval(sv, ctx, name) {
        Some(_) => {},
        None => {
            match spec_for_var(sv, ctx, name) {
                Some((c2, fi)) => {
                    lemma_for_var_finds(sv, ctx, name);
                    lemma_find_field_char(sv.ctxs[c2].syntax.fields, name);
                    lemma_second_getval(name, ctx, c2, fi, sv, fl, first.0->Ok_0);
                },
                None => {},
            }
        },
    }
}

/// Every stored field of a context's record is declared by that context's
/// literal. Evaluation establishes and preserves this; it is what makes
/// the two-pass lookup protocol coherent.
pub open spec fn sv_fields_declared(sv: StoreView) -> bool {
    forall|c: int, j: int|
        0 <= c < sv.ctxs.len() && 0 <= j < sv.recs[sv.ctxs[c].rec].len() ==> find_field(
            sv.ctxs[c].syntax.fields,
            (#[trigger] sv.recs[sv.ctxs[c].rec][j]).0,
        ) is Some
}

/// A successful lookup hands back a whole stored entry.
proof fn lemma_rv_get_entry(m: Seq<(Seq<char>, ValView)>, name: Seq<char>)
    ensures
        rv_get(m, name) matches Some(v) ==> exists|j: int|
            0 <= j < m.len() && #[trigger] m[j] == (name, v),
    decreases m.len(),
{
    if m.len() > 0 {
        if m[0].0 == name {
            assert(m[0] == (name, m[0].1));
        } else {
            lemma_rv_get_entry(m.drop_first(), name);
            if rv_get(m, name) is Some {
                let v = rv_get(m, name)->Some_0;
                let j = choose|j: int|
                    0 <= j < m.drop_first().len() && #[trigger] m.drop_first()[j] == (name, v);
                assert(m[j + 1] == (name, v));
            }
        }
    }
}

/// Every entry of `rv_set(m, name, v)` is `(name, v)` or an entry of `m`.
proof fn lemma_rv_set_members(m: Seq<(Seq<char>, ValView)>, name: Seq<char>, v: ValView)
    ensures
        forall|j: int|
            0 <= j < rv_set(m, name, v).len() ==> (#[trigger] rv_set(m, name, v)[j] == (name, v)
                || exists|k: int| 0 <= k < m.len() && #[trigger] m[k] == rv_set(m, name, v)[j]),
    decreases m.len(),
{
    let out = rv_set(m, name, v);
    if m.len() == 0 {
        assert(out =~= seq![(name, v)]);
    } else if m[0].0 == name {
        assert forall|j: int| 0 <= j < out.len() implies (#[trigger] out[j] == (name, v)
            || exists|k: int| 0 <= k < m.len() && #[trigger] m[k] == out[j]) by {
            if j > 0 {
                assert(out[j] == m.drop_first()[j - 1]);
                assert(m[j] == out[j]);
            }
        }
    } else {
        lemma_rv_set_members(m.drop_first(), name, v);
        assert forall|j: int| 0 <= j < out.len() implies (#[trigger] out[j] == (name, v)
            || exists|k: int| 0 <= k < m.len() && #[trigger] m[k] == out[j]) by {
            if j == 0 {
                assert(m[0] == out[0]);
            } else {
                let inner = rv_set(m.drop_first(), name, v);
                assert(out[j] == inner[j - 1]);
                if inner[j - 1] != (name, v) {
                    let k = choose|k: int|
                        0 <= k < m.drop_first().len() && #[trigger] m.drop_first()[k] == inner[
                            j - 1
                        ];
                    assert(m[k + 1] == out[j]);
                }
            }
        }
    }
}

/// One evaluation step keeps both structural invariants: no two contexts
/// share a record, and stored fields stay within their context's declared
/// fields.
proof fn lemma_eval_invariants(e: ExprView, ctx: int, sv: StoreView, fuel: nat)
    requires
        sv_wf(sv),
        0 <= ctx < sv.ctxs.len(),
        sv_distinct_recs(sv),
        sv_fields_declared(sv),
    ensures
        ({
            let step = spec_eval(e, ctx, sv, fuel);
            &&& sv_distinct_recs(step.1)
            &&& sv_fields_declared(step.1)
        }),
    decreases fuel, 1int, 0int,
{
    if fuel == 0 {
        return ;
    }
    let fl = (fuel - 1) as nat;
    match e {
        ExprView::Literal(_) => {},
        ExprView::Var(name) => {
            match spec_getval(sv, ctx, name) {
                Some(_) => {},
                None => match spec_for_var(sv, ctx, name) {
                    Some((c2, fi)) => {
                        if 0 <= c2 < sv.ctxs.len() && 0 <= fi < sv.ctxs[c2].syntax.fields.len() {
                            let fld = sv.ctxs[c2].syntax.fields[fi];
                            let rc2 = sv.ctxs[c2].rec;
                            assert(ctx_wf_at(sv, c2));
                            lemma_eval_state(fld.value, c2, sv, fl, 0, name);
                            lemma_eval_invariants(fld.value, c2, sv, fl);
                            let step = spec_eval(fld.value, c2, sv, fl);
                            match step.0 {
                                Ok(v) => {
                                    let sv2 = sv_set_field(step.1, rc2, fld.name, v);
                                    lemma_for_var_finds(sv, ctx, name);
                                    lemma_find_field_char(sv.ctxs[c2].syntax.fields, name);
                                    lemma_set_declared(step.1, sv, c2, rc2, fld.name, v);
                                },
                                Err(_) => {},
                            }
                        }
                    },
                    None => {},
                },
            }
        },
        ExprView::FieldAcc(b, _) => {
            lemma_eval_invariants(*b, ctx, sv, fl);
        },
        ExprView::UnExpr(_, b) => {
            lemma_eval_invariants(*b, ctx, sv, fl);
        },
        ExprView::BinExpr(l, _, rr) => {
            lemma_eval_state(*l, ctx, sv, fl, 0, Seq::empty());
            lemma_eval_invariants(*l, ctx, sv, fl);
            let lstep = spec_eval(*l, ctx, sv, fl);
            match lstep.0 {
                Err(_) => {},
                Ok(_) => {
                    lemma_eval_invariants(*rr, ctx, lstep.1, fl);
                },
            }
        },
        ExprView::Rec(re) => {
            let rid = sv.recs.len() as int;
            let c2 = sv.ctxs.len() as int;
            let sv1 = StoreView {
                recs: sv.recs.push(Seq::empty()),
                ctxs: sv.ctxs.push(CtxView { rec: rid, syntax: re, parent: Some(ctx) }),
            };
            assert(sv_wf(sv1)) by {
                assert forall|i: int| 0 <= i < sv1.ctxs.len() implies #[trigger] ctx_wf_at(
                    sv1,
                    i,
                ) by {
                    if i < sv.ctxs.len() {
                        assert(ctx_wf_at(sv, i));
                    }
                }
            }
            assert(sv_distinct_recs(sv1)) by {
                assert forall|a: int, b: int| 0 <= a < b < sv1.ctxs.len() implies (
                #[trigger] sv1.ctxs[a]).rec != (#[trigger] sv1.ctxs[b]).rec by {
                    if b < sv.ctxs.len() {
                        assert(sv.ctxs[a].rec != sv.ctxs[b].rec);
                    } else {
                        assert(ctx_wf_at(sv, a));
                    }
                }
            }
            assert(sv_fields_declared(sv1)) by {
                assert forall|c: int, j: int|
                    0 <= c < sv1.ctxs.len() && 0 <= j < sv1.recs[sv1.ctxs[c].rec].len() implies
                    find_field(
                    sv1.ctxs[c].syntax.fields,
                    (#[trigger] sv1.recs[sv1.ctxs[c].rec][j]).0,
                ) is Some by {
                    if c < sv.ctxs.len() {
                        assert(ctx_wf_at(sv, c));
                        assert(sv1.recs[sv1.ctxs[c].rec] == sv.recs[sv.ctxs[c].rec]);
                    }
                }
            }
            lemma_eval_fields_invariants(re.fields, 0, c2, rid, sv1, fuel);
        },
        ExprView::Call(_) => {},
        ExprView::Fun(_) => {},
    }
}

/// Setting a declared name of the one context that owns a record keeps
/// `sv_fields_declared`. `svb` is the store before the defining expression
/// ran; `svk` the store after; the set happens in `svk`.
proof fn lemma_set_declared(
    svk: StoreView,
    svb: StoreView,
    c2: int,
    rc2: int,
    name: Seq<char>,
    v: ValView,
)
    requires
        sv_wf(svb),
        sv_wf(svk),
        sv_extends(svb, svk),
        sv_distinct_recs(svk),
        sv_fields_declared(svk),
        0 <= c2 < svb.ctxs.len(),
        svb.ctxs[c2].rec == rc2,
        0 <= rc2 < svb.recs.len(),
        find_field(svb.ctxs[c2].syntax.fields, name) is Some,
        forall|c: int|
            svb.ctxs.len() <= c < svk.ctxs.len() ==> (#[trigger] svk.ctxs[c]).rec
                >= svb.recs.len(),
    ensures
        sv_distinct_recs(sv_set_field(svk, rc2, name, v)),
        sv_fields_declared(sv_set_field(svk, rc2, name, v)),
{
    let sv2 = sv_set_field(svk, rc2, name, v);
    lemma_rv_set_members(svk.recs[rc2], name, v);
    assert forall|c: int, j: int|
        0 <= c < sv2.ctxs.len() && 0 <= j < sv2.recs[sv2.ctxs[c].rec].len() implies find_field(
        sv2.ctxs[c].syntax.fields,
        (#[trigger] sv2.recs[sv2.ctxs[c].rec][j]).0,
    ) is Some by {
        assert(ctx_wf_at(svk, c));
        let rc = sv2.ctxs[c].rec;
        if rc == rc2 {
            // The only owner of rc2 is c2.
            if c != c2 {
                if c < svb.ctxs.len() {
                    if c < c2 {
                        assert(svk.ctxs[c].rec != svk.ctxs[c2].rec);
                    } else {
                        assert(svk.ctxs[c2].rec != svk.ctxs[c].rec);
                    }
                } else {
                    assert(svk.ctxs[c].rec >= svb.recs.len());
                }
                assert(false);
            }
            if sv2.recs[rc2][j] != (name, v) {
                let k = choose|k: int|
                    0 <= k < svk.recs[rc2].len() && #[trigger] svk.recs[rc2][k] == sv2.recs[
                        rc2
                    ][j];
                assert(find_field(svk.ctxs[c2].syntax.fields, svk.recs[rc2][k].0) is Some);
            }
        } else {
            assert(sv2.recs[rc] == svk.recs[rc]);
            assert(find_field(svk.ctxs[c].syntax.fields, svk.recs[rc][j].0) is Some);
        }
    }
}

/// The invariants across a record literal's field-filling run.
proof fn lemma_eval_fields_invariants(
    fs: Seq<FieldView>,
    i: int,
    ctx: int,
    rid: int,
    sv: StoreView,
    fuel: nat,
)
    requires
        sv_wf(sv),
        0 <= ctx < sv.ctxs.len(),
        sv.ctxs[ctx].rec == rid,
        sv.ctxs[ctx].syntax.fields == fs,
        sv_distinct_recs(sv),
        sv_fields_declared(sv),
    ensures
        ({
            let run = spec_eval_fields(fs, i, ctx, rid, sv, fuel);
            &&& sv_distinct_recs(run.1)
            &&& sv_fields_declared(run.1)
        }),
    decreases fuel, 0int, fs.len() - i,
{
    if i < 0 || i >= fs.len() || fuel == 0 {
        return ;
    }
    let fld = fs[i];
    let present = 0 <= rid < sv.recs.len() && rv_get(sv.recs[rid], fld.name) is Some;
    if present {
        lemma_eval_fields_invariants(fs, i + 1, ctx, rid, sv, fuel);
    } else {
        lemma_eval_state(fld.value, ctx, sv, (fuel - 1) as nat, 0, fld.name);
        lemma_eval_invariants(fld.value, ctx, sv, (fuel - 1) as nat);
        let step = spec_eval(fld.value, ctx, sv, (fuel - 1) as nat);
        match step.0 {
            Ok(v) => {
                assert(ctx_wf_at(sv, ctx));
                lemma_find_field_char(fs, fld.name);
                assert(find_field(fs, fld.name) is Some) by {
                    if find_field(fs, fld.name) is None {
                        assert(fs[i].name != fld.name);
                    }
                }
                lemma_set_declared(step.1, sv, ctx, rid, fld.name, v);
                lemma_sv_set_field_wf(step.1, rid, fld.name, v);
                let svs = sv_set_field(step.1, rid, fld.name, v);
                lemma_eval_fields_invariants(fs, i + 1, ctx, rid, svs, fuel);
            },
            Err(_) => {},
        }
    }
}

/// Under the structural invariants, a name that no chain context declares
/// is also stored nowhere along the chain.
pub proof fn lemma_for_var_none_getval_none(sv: StoreView, ctx: int, name: Seq<char>)
    requires
        sv_wf(sv),
        sv_fields_declared(sv),
        spec_for_var(sv, ctx, name) is None,
    ensures
        spec_getval(sv, ctx, name) is None,
    decreases ctx,
{
    if 0 <= ctx && ctx < sv.ctxs.len() {
        assert(ctx_wf_at(sv, ctx));
        let node = sv.ctxs[ctx];
        lemma_rv_get_entry(sv.recs[node.rec], name);
        if rv_get(sv.recs[node.rec], name) is Some {
            let v = rv_get(sv.recs[node.rec], name)->Some_0;
            let j = choose|j: int|
                0 <= j < sv.recs[node.rec].len() && #[trigger] sv.recs[node.rec][j] == (
                    name,
                    v,
                );
            assert(find_field(node.syntax.fields, sv.recs[node.rec][j].0) is Some);
            assert(false);
        }
        match node.parent {
            Some(p) => {
                if 0 <= p && p < ctx {
                    lemma_for_var_none_getval_none(sv, p, name);
                }
            },
            None => {},
        }
    }
}

/// An identifier with no defining field anywhere in the enclosing chain
/// fails with the unbound-variable error and leaves the store untouched.
pub proof fn lemma_unbound_variable_no_field(
    name: Seq<char>,
    ctx: int,
    sv: StoreView,
    fuel: nat,
)
    requires
        fuel >= 1,
        sv_wf(sv),
        sv_fields_declared(sv),
        spec_for_var(sv, ctx, name) is None,
    ensures
        spec_eval(ExprView::Var(name), ctx, sv, fuel) == (
            Err::<ValView, Seq<char>>(msg_unbound(name)),
            sv,
        ),
{
    lemma_for_var_none_getval_none(sv, ctx, name);
}

/// Every field's value is a literal.
pub open spec fn all_literal_fields(fs: Seq<FieldView>) -> bool {
    forall|i: int| 0 <= i < fs.len() ==> (#[trigger] fs[i]).value is Literal
}

/// No two fields share a name.
pub open spec fn distinct_names(fs: Seq<FieldView>) -> bool {
    forall|i: int, j: int|
        0 <= i < j < fs.len() ==> (#[trigger] fs[i]).name != (#[trigger] fs[j]).name
}

/// The record entries a run of literal fields produces.
pub open spec fn lit_entries(fs: Seq<FieldView>) -> Seq<(Seq<char>, ValView)> {
    fs.map(|i: int, f: FieldView| (f.name, lit_to_val(f.value->Literal_0)))
}

proof fn lemma_eval_literal_fields(
    fs: Seq<FieldView>,
    i: int,
    ctx: int,
    rid: int,
    sv: StoreView,
    fuel: nat,
)
    requires
        fuel >= 2,
        0 <= rid < sv.recs.len(),
        all_literal_fields(fs),
        distinct_names(fs),
        0 <= i <= fs.len(),
        sv.recs[rid] == lit_entries(fs.take(i)),
    ensures
        spec_eval_fields(fs, i, ctx, rid, sv, fuel) == (
            None::<Seq<char>>,
            StoreView { recs: sv.recs.update(rid, lit_entries(fs)), ctxs: sv.ctxs },
        ),
    decreases fs.len() - i,
{
    if i == fs.len() {
        assert(fs.take(i) =~= fs);
        assert(sv.recs.update(rid, lit_entries(fs)) =~= sv.recs);
        assert(StoreView { recs: sv.recs.update(rid, lit_entries(fs)), ctxs: sv.ctxs }
            == sv);
    } else {
        let fld = fs[i];
        assert(fld.value is Literal);
        // The name is not yet present: only earlier fields are stored, and
        // names are distinct.
        assert(forall|j: int|
            0 <= j < lit_entries(fs.take(i)).len() ==> (#[trigger] lit_entries(fs.take(i))[
                j
            ]).0 == fs[j].name);
        lemma_rv_get_none(lit_entries(fs.take(i)), fld.name);
        let v = lit_to_val(fld.value->Literal_0);
        assert(spec_eval(fld.value, ctx, sv, (fuel - 1) as nat) == (
            Ok::<ValView, Seq<char>>(v),
            sv,
        ));
        let svs = sv_set_field(sv, rid, fld.name, v);
        lemma_rv_set_append(sv.recs[rid], fld.name, v);
        assert(svs.recs[rid] =~= lit_entries(fs.take(i + 1))) by {
            assert(fs.take(i + 1).drop_last() =~= fs.take(i));
            assert(lit_entries(fs.take(i)).push((fld.name, v)) =~= lit_entries(
                fs.take(i + 1),
            ));
        }
        lemma_eval_literal_fields(fs, i + 1, ctx, rid, svs, fuel);
        assert(svs.recs.update(rid, lit_entries(fs)) =~= sv.recs.update(
            rid,
            lit_entries(fs),
        ));
    }
}

/// Evaluating a record literal whose fields are distinct-named literals
/// yields a fresh record holding exactly those fields' values.
pub proof fn lemma_literal_record(re: ast::RecView, ctx: int, sv: StoreView, fuel: nat)
    requires
        fuel >= 2,
        all_literal_fields(re.fields),
        distinct_names(re.fields),
    ensures
        ({
            let rid = sv.recs.len() as int;
            spec_eval(ExprView::Rec(re), ctx, sv, fuel) == (
                Ok::<ValView, Seq<char>>(ValView::Rec(rid)),
                StoreView {
                    recs: sv.recs.push(lit_entries(re.fields)),
                    ctxs: sv.ctxs.push(
                        CtxView { rec: rid, syntax: re, parent: Some(ctx) },
                    ),
                },
            )
        }),
{
    let rid = sv.recs.len() as int;
    let sv1 = StoreView {
        recs: sv.recs.push(Seq::empty()),
        ctxs: sv.ctxs.push(CtxView { rec: rid, syntax: re, parent: Some(ctx) }),
    };
    assert(sv1.recs[rid] =~= lit_entries(re.fields.take(0)));
    lemma_eval_literal_fields(re.fields, 0, sv.ctxs.len() as int, rid, sv1, fuel);
    assert(sv1.recs.update(rid, lit_entries(re.fields)) =~= sv.recs.push(
        lit_entries(re.fields),
    ));
}

/// In the record such fields produce, each name maps to its own field's
/// value — whatever the declaration order was.
pub proof fn lemma_literal_record_lookup(fs: Seq<FieldView>, j: int)
    requires
        distinct_names(fs),
        0 <= j < fs.len(),
        fs[j].value is Literal,
    ensures
        rv_get(lit_entries(fs), fs[j].name) == Some(lit_to_val(fs[j].value->Literal_0)),
    decreases fs.len(),
{
    if j == 0 {
        assert(lit_entries(fs)[0] == (fs[0].name, lit_to_val(fs[0].value->Literal_0)));
    } else {
        assert(lit_entries(fs)[0].0 == fs[0].name);
        assert(fs[0].name != fs[j].name);
        let rest = fs.drop_first();
        assert(lit_entries(fs).drop_first() =~= lit_entries(rest)) by {
            assert(forall|k: int|
                0 <= k < rest.len() ==> rest[k] == #[trigger] fs[k + 1]);
        }
        assert(forall|a: int, b: int|
            0 <= a < b < rest.len() ==> (#[trigger] rest[a]).name != (
            #[trigger] rest[b]).name) by {
            assert(forall|k: int| 0 <= k < rest.len() ==> rest[k] == #[trigger] fs[k + 1]);
        }
        assert(rest[j - 1] == fs[j]);
        lemma_literal_record_lookup(rest, j - 1);
    }
}

/// Evaluate `e` in context `ctx`; `fuel` bounds the nesting depth.
///
/// Returns and stores exactly what `spec_eval` describes; the store only
/// ever grows, and no existing context changes.
pub fn eval(e: &Expr, st: &mut Store, ctx: usize, fuel: u64) -> (r: Result<Val, EvalError>)
    requires
        sv_wf(store_view(*old(st))),
        ctx < old(st).ctxs.len(),
    ensures
        ({
            let pre = store_view(*old(st));
            let post = store_view(*final(st));
            let step = spec_eval(expr_view(*e), ctx as int, pre, fuel as nat);
            &&& post == step.1
            &&& sv_wf(post)
            &&& sv_extends(pre, post)
            &&& match r {
                Ok(v) => step.0 == Ok::<ValView, Seq<char>>(val_view(v)) && val_wf(
                    post,
                    val_view(v),
                ),
                Err(er) => step.0 matches Err(m) && er.message@ == m,
            }
        }),
    decreases fuel, 1int, 0int,
{
    if fuel == 0 {
        return Err(EvalError { message: String::from_str("Evaluation nesting too deep") });
    }
    let ghost pre = store_view(*st);
    match e {
        Expr::Literal(l) => match l {
            Literal::Nil => Ok(Val::Nil),
            Literal::Int(i) => Ok(Val::Int(*i)),
            Literal::Str(s) => Ok(Val::Str(s.clone())),
        },
        Expr::Var(v) => {
            match Ctx::getval(st, ctx, v.name.as_str()) {
                Some(val) => Ok(val),
                None => {
                    match Ctx::for_var(st, ctx, v.name.as_str()) {
                        Some((c2, fi)) => {
                            proof {
                                assert(ctx_wf_at(pre, c2 as int));
                                ast::lemma_fields_view_index(
                                    st.ctxs@[c2 as int].syntax.fields@,
                                );
                            }
                            let fexpr = st.ctxs[c2].syntax.fields[fi].value.duplicate();
                            let fname = st.ctxs[c2].syntax.fields[fi].name.clone();
                            let ghost fld = pre.ctxs[c2 as int].syntax.fields[fi as int];
                            proof {
                                assert(expr_view(fexpr) == fld.value);
                                assert(fname@ == fld.name);
                            }
                            match eval(&fexpr, st, c2, fuel - 1) {
                                Ok(val) => {
                                    let ghost sv1 = store_view(*st);
                                    proof {
                                        assert(sv1.ctxs[c2 as int] == pre.ctxs[c2 as int]);
                                        assert(ctx_wf_at(sv1, c2 as int));
                                    }
                                    let ri = st.ctxs[c2].rec;
                                    let dup = val.duplicate();
                                    proof {
                                        lemma_sv_set_field_wf(
                                            sv1,
                                            ri as int,
                                            fname@,
                                            val_view(val),
                                        );
                                    }
                                    st.recs[ri].setattr(fname.as_str(), dup);
                                    proof {
                                        assert(store_view(*st).recs =~= sv1.recs.update(
                                            ri as int,
                                            rv_set(sv1.recs[ri as int], fname@, val_view(val)),
                                        ));
                                        assert(store_view(*st).ctxs =~= sv1.ctxs);
                                        assert(store_view(*st) == sv_set_field(
                                            sv1,
                                            ri as int,
                                            fname@,
                                            val_view(val),
                                        ));
                                    }
                                    Ok(val)
                                },
                                Err(er) => Err(er),
                            }
                        },
                        None => {
                            let msg = String::from_str("Unbound variable '").concat(
                                v.name.as_str(),
                            ).concat("'");
                            Err(EvalError { message: msg })
                        },
                    }
                },
            }
        },
        Expr::FieldAcc(b, f) => {
            match eval(b, st, ctx, fuel - 1) {
                Ok(bv) => match bv {
                    Val::Rec(ri) => {
                        match st.recs[ri].getattr(f.as_str()) {
                            Some(v) => {
                                proof {
                                    lemma_rv_get_index(store_view(*st).recs[ri as int], f@);
                                }
                                Ok(v)
                            },
                            None => {
                                let msg = String::from_str("Field does not exist '").concat(
                                    f.as_str(),
                                ).concat("'");
                                Err(EvalError { message: msg })
                            },
                        }
                    },
                    other => {
                        let msg = String::from_str(
                            "Invalid field access on value type '",
                        ).concat(other.typ()).concat("'");
                        Err(EvalError { message: msg })
                    },
                },
                Err(er) => Err(er),
            }
        },
        Expr::UnExpr(op, b) => {
            match eval(b, st, ctx, fuel - 1) {
                Ok(val) => match op {
                    UnOp::UnPlus => Ok(val),
                    UnOp::UnMinus => match &val {
                        Val::Int(i) => {
                            if *i == i64::MIN {
                                let msg = String::from_str(
                                    "Integer overflow in operation '",
                                ).concat("-").concat("'");
                                Err(EvalError { message: msg })
                            } else {
                                Ok(Val::Int(-(*i)))
                            }
                        },
                        _ => {
                            let msg = String::from_str(
                                "Cannot apply unary minus to type '",
                            ).concat(val.typ()).concat("'");
                            Err(EvalError { message: msg })
                        },
                    },
                    UnOp::Not => {
                        let tb = val.to_bool(st);
                        Ok(Val::Bool(!tb))
                    },
                },
                Err(er) => Err(er),
            }
        },
        Expr::BinExpr(l, op, rhs) => {
            match eval(l, st, ctx, fuel - 1) {
                Err(er) => Err(er),
                Ok(lv) => {
                    let ghost sv1 = store_view(*st);
                    match eval(rhs, st, ctx, fuel - 1) {
                        Err(er) => Err(er),
                        Ok(rv) => {
                            proof {
                                assert(val_wf(store_view(*st), val_view(lv)));
                            }
                            eval_binop(st, *op, &lv, &rv)
                        },
                    }
                },
            }
        },
        Expr::Rec(re) => {
            match eval_rec(re, st, ctx, fuel) {
                Ok(ri) => Ok(Val::Rec(ri)),
                Err(er) => Err(er),
            }
        },
        Expr::Call(_) => Err(
            EvalError { message: String::from_str("Function calls are not supported") },
        ),
        Expr::Fun(_) => Err(
            EvalError { message: String::from_str("Function literals are not supported") },
        ),
    }
}

/// Evaluate a record literal: a fresh record and a child context, then the
/// fields in declaration order, skipping any field a cross-reference has
/// already filled.
fn eval_rec(re: &ast::Rec, st: &mut Store, ctx: usize, fuel: u64) -> (r: Result<
    usize,
    EvalError,
>)
    requires
        sv_wf(store_view(*old(st))),
        ctx < old(st).ctxs.len(),
        fuel >= 1,
    ensures
        ({
            let pre = store_view(*old(st));
            let post = store_view(*final(st));
            let rid = pre.recs.len() as int;
            let c2 = pre.ctxs.len() as int;
            let sv1 = StoreView {
                recs: pre.recs.push(Seq::empty()),
                ctxs: pre.ctxs.push(
                    CtxView {
                        rec: rid,
                        syntax: ast::rec_view(*re),
                        parent: Some(ctx as int),
                    },
                ),
            };
            let run = spec_eval_fields(
                ast::rec_view(*re).fields,
                0,
                c2,
                rid,
                sv1,
                fuel as nat,
            );
            &&& post == run.1
            &&& sv_wf(post)
            &&& sv_extends(pre, post)
            &&& match r {
                Ok(ri) => run.0 is None && ri as int == rid && ri < final(st).recs.len(),
                Err(er) => run.0 matches Some(m) && er.message@ == m,
            }
        }),
    decreases fuel, 0int, 0int,
{
    let ghost pre = store_view(*st);
    let rid = st.recs.len();
    st.recs.push(Rec::new());
    proof {
        let mid = store_view(*st);
        assert(mid.recs =~= pre.recs.push(Seq::<(Seq<char>, ValView)>::empty()));
        assert(mid.ctxs =~= pre.ctxs);
        assert forall|i: int| 0 <= i < mid.ctxs.len() implies #[trigger] ctx_wf_at(mid, i) by {
            assert(ctx_wf_at(pre, i));
        }
        assert(sv_wf(mid));
    }
    let c2 = Ctx::child_of(st, ctx, rid, re);
    let ghost sv1 = store_view(*st);
    let n = re.fields.len();
    let ghost fsv = ast::rec_view(*re).fields;
    proof {
        ast::lemma_fields_view_index(re.fields@);
    }
    let mut i: usize = 0;
    loop
        invariant
            sv_wf(store_view(*st)),
            sv_extends(sv1, store_view(*st)),
            sv_extends(store_view(*old(st)), store_view(*st)),
            sv1.recs == store_view(*old(st)).recs.push(Seq::<(Seq<char>, ValView)>::empty()),
            sv1.ctxs == store_view(*old(st)).ctxs.push(
                CtxView {
                    rec: store_view(*old(st)).recs.len() as int,
                    syntax: ast::rec_view(*re),
                    parent: Some(ctx as int),
                },
            ),
            rid as int == store_view(*old(st)).recs.len(),
            c2 as int == store_view(*old(st)).ctxs.len(),
            i <= n,
            n == re.fields.len(),
            fsv == ast::rec_view(*re).fields,
            fsv.len() == n,
            fuel >= 1,
            rid < sv1.recs.len(),
            rid < st.recs.len(),
            c2 < sv1.ctxs.len(),
            c2 < st.ctxs.len(),
            spec_eval_fields(fsv, 0, c2 as int, rid as int, sv1, fuel as nat)
                == spec_eval_fields(
                fsv,
                i as int,
                c2 as int,
                rid as int,
                store_view(*st),
                fuel as nat,
            ),
        decreases n - i,
    {
        if i >= n {
            return Ok(rid);
        }
        proof {
            ast::lemma_fields_view_index(re.fields@);
            assert(fsv[i as int] == ast::field_view(re.fields@[i as int]));
        }
        match st.recs[rid].getattr(re.fields[i].name.as_str()) {
            Some(_) => {
                i = i + 1;
            },
            None => {
                match eval(&re.fields[i].value, st, c2, fuel - 1) {
                    Err(er) => {
                        return Err(er);
                    },
                    Ok(v) => {
                        let ghost svb = store_view(*st);
                        let ghost vv = val_view(v);
                        proof {
                            lemma_sv_set_field_wf(svb, rid as int, fsv[i as int].name, vv);
                        }
                        st.recs[rid].setattr(re.fields[i].name.as_str(), v);
                        proof {
                            assert(store_view(*st).recs =~= svb.recs.update(
                                rid as int,
                                rv_set(svb.recs[rid as int], fsv[i as int].name, vv),
                            ));
                            assert(store_view(*st).ctxs =~= svb.ctxs);
                            assert(store_view(*st) == sv_set_field(
                                svb,
                                rid as int,
                                fsv[i as int].name,
                                vv,
                            ));
                        }
                        i = i + 1;
                    },
                }
            },
        }
    }
}

impl Store {
    /// An empty arena: no records, no contexts.
    pub fn new() -> (st: Store)
        ensures
            store_view(st).recs == Seq::<Seq<(Seq<char>, ValView)>>::empty(),
            store_view(st).ctxs == Seq::<CtxView>::empty(),
            sv_wf(store_view(st)),
            sv_distinct_recs(store_view(st)),
            sv_fields_declared(store_view(st)),
    {
        let st = Store { recs: Vec::new(), ctxs: Vec::new() };
        proof {
            assert(store_view(st).recs =~= Seq::<Seq<(Seq<char>, ValView)>>::empty());
            assert(store_view(st).ctxs =~= Seq::<CtxView>::empty());
        }
        st
    }
}

impl Ctx {
    /// Create the global context: an empty record paired with an empty
    /// record literal and no parent. The caller invokes this once per
    /// evaluation; no state outlives it.
    pub fn global(st: &mut Store) -> (c: usize)
        requires
            sv_wf(store_view(*old(st))),
        ensures
            ({
                let pre = store_view(*old(st));
                let post = store_view(*final(st));
                &&& post.recs == pre.recs.push(Seq::<(Seq<char>, ValView)>::empty())
                &&& post.ctxs == pre.ctxs.push(
                    CtxView {
                        rec: pre.recs.len() as int,
                        syntax: ast::RecView {
                            let_vars: Seq::empty(),
                            fields: Seq::empty(),
                        },
                        parent: None,
                    },
                )
                &&& c == pre.ctxs.len()
                &&& sv_wf(post)
                &&& sv_extends(pre, post)
                &&& (sv_distinct_recs(pre) ==> sv_distinct_recs(post))
                &&& (sv_fields_declared(pre) ==> sv_fields_declared(post))
            }),
    {
        let ghost pre = store_view(*st);
        let r = st.recs.len();
        st.recs.push(Rec::new());
        let c = st.ctxs.len();
        let syntax = ast::Rec { let_vars: Vec::new(), fields: Vec::new() };
        proof {
            assert(ast::lets_view(syntax.let_vars@) =~= Seq::<ast::LetView>::empty());
            assert(ast::fields_view(syntax.fields@) =~= Seq::<FieldView>::empty());
        }
        st.ctxs.push(Ctx { rec: r, syntax, parent: None });
        proof {
            let post = store_view(*st);
            assert(post.recs =~= pre.recs.push(Seq::<(Seq<char>, ValView)>::empty()));
            assert(post.ctxs =~= pre.ctxs.push(
                CtxView {
                    rec: pre.recs.len() as int,
                    syntax: ast::RecView { let_vars: Seq::empty(), fields: Seq::empty() },
                    parent: None,
                },
            ));
            assert forall|i: int| 0 <= i < post.ctxs.len() implies #[trigger] ctx_wf_at(
                post,
                i,
            ) by {
                if i < pre.ctxs.len() {
                    assert(ctx_wf_at(pre, i));
                }
            }
            assert(sv_wf(post));
            if sv_distinct_recs(pre) {
                assert forall|a: int, b: int| 0 <= a < b < post.ctxs.len() implies (
                #[trigger] post.ctxs[a]).rec != (#[trigger] post.ctxs[b]).rec by {
                    if b < pre.ctxs.len() {
                        assert(pre.ctxs[a].rec != pre.ctxs[b].rec);
                    } else {
                        assert(ctx_wf_at(pre, a));
                    }
                }
            }
            if sv_fields_declared(pre) {
                assert forall|ci: int, j: int|
                    0 <= ci < post.ctxs.len() && 0 <= j < post.recs[post.ctxs[ci].rec].len()
                    implies find_field(
                    post.ctxs[ci].syntax.fields,
                    (#[trigger] post.recs[post.ctxs[ci].rec][j]).0,
                ) is Some by {
                    if ci < pre.ctxs.len() {
                        assert(ctx_wf_at(pre, ci));
                        assert(post.recs[post.ctxs[ci].rec] == pre.recs[pre.ctxs[ci].rec]);
                    }
                }
            }
        }
        c
    }

    /// Create a context for record `r` being filled according to `re`,
    /// enclosed by `parent`.
    pub fn child_of(st: &mut Store, parent: usize, r: usize, re: &ast::Rec) -> (c: usize)
        requires
            sv_wf(store_view(*old(st))),
            parent < old(st).ctxs.len(),
            r < old(st).recs.len(),
        ensures
            ({
                let pre = store_view(*old(st));
                let post = store_view(*final(st));
                &&& post.recs == pre.recs
                &&& post.ctxs == pre.ctxs.push(
                    CtxView {
                        rec: r as int,
                        syntax: ast::rec_view(*re),
                        parent: Some(parent as int),
                    },
                )
                &&& c == pre.ctxs.len()
                &&& sv_wf(post)
                &&& sv_extends(pre, post)
            }),
    {
        let ghost pre = store_view(*st);
        let c = st.ctxs.len();
        st.ctxs.push(Ctx { rec: r, syntax: re.duplicate(), parent: Some(parent) });
        proof {
            let post = store_view(*st);
            assert(post.recs =~= pre.recs);
            assert(post.ctxs =~= pre.ctxs.push(
                CtxView {
                    rec: r as int,
                    syntax: ast::rec_view(*re),
                    parent: Some(parent as int),
                },
            ));
            assert forall|i: int| 0 <= i < post.ctxs.len() implies #[trigger] ctx_wf_at(
                post,
                i,
            ) by {
                if i < pre.ctxs.len() {
                    assert(ctx_wf_at(pre, i));
                }
            }
            assert(sv_wf(post));
        }
        c
    }

    /// Walk the chain and return the first already-evaluated binding.
    pub fn getval(st: &Store, ctx: usize, var: &str) -> (r: Option<Val>)
        requires
            sv_wf(store_view(*st)),
            ctx < st.ctxs.len(),
        ensures
            match r {
                Some(v) => {
                    &&& spec_getval(store_view(*st), ctx as int, var@) == Some(val_view(v))
                    &&& val_wf(store_view(*st), val_view(v))
                },
                None => spec_getval(store_view(*st), ctx as int, var@) is None,
            },
    {
        let ghost sv = store_view(*st);
        let mut c: usize = ctx;
        loop
            invariant
                sv == store_view(*st),
                sv_wf(sv),
                c < st.ctxs.len(),
                spec_getval(sv, ctx as int, var@) == spec_getval(sv, c as int, var@),
            decreases c,
        {
            proof {
                assert(ctx_wf_at(sv, c as int));
            }
            let ri = st.ctxs[c].rec;
            match st.recs[ri].getattr(var) {
                Some(v) => {
                    proof {
                        lemma_rv_get_index(sv.recs[ri as int], var@);
                    }
                    return Some(v);
                },
                None => {
                    match st.ctxs[c].parent {
                        Some(p) => {
                            c = p;
                        },
                        None => {
                            return None;
                        },
                    }
                },
            }
        }
    }

    /// Walk the chain and return the first context whose literal defines
    /// `field`, with the field's index in that literal.
    pub fn for_var(st: &Store, ctx: usize, field: &str) -> (r: Option<(usize, usize)>)
        requires
            sv_wf(store_view(*st)),
            ctx < st.ctxs.len(),
        ensures
            match r {
                Some((c2, fi)) => {
                    &&& spec_for_var(store_view(*st), ctx as int, field@) == Some(
                        (c2 as int, fi as int),
                    )
                    &&& c2 < st.ctxs.len()
                    &&& fi < st.ctxs@[c2 as int].syntax.fields.len()
                },
                None => spec_for_var(store_view(*st), ctx as int, field@) is None,
            },
    {
        let ghost sv = store_view(*st);
        let mut c: usize = ctx;
        loop
            invariant
                sv == store_view(*st),
                sv_wf(sv),
                ctx < st.ctxs.len(),
                c < st.ctxs.len(),
                spec_for_var(sv, ctx as int, field@) == spec_for_var(sv, c as int, field@),
            decreases c,
        {
            proof {
                assert(ctx_wf_at(sv, c as int));
                ast::lemma_fields_view_index(st.ctxs@[c as int].syntax.fields@);
                lemma_find_field_char(sv.ctxs[c as int].syntax.fields, field@);
            }
            let key: String = field.to_owned();
            let fs = &st.ctxs[c].syntax.fields;
            let mut j: usize = 0;
            while j < fs.len()
                invariant
                    sv == store_view(*st),
                    sv_wf(sv),
                    ctx < st.ctxs.len(),
                    c < st.ctxs.len(),
                    spec_for_var(sv, ctx as int, field@) == spec_for_var(sv, c as int, field@),
                    fs == &st.ctxs@[c as int].syntax.fields,
                    j <= fs.len(),
                    key@ == field@,
                    forall|k: int|
                        0 <= k < j ==> (#[trigger] ast::field_view(fs@[k])).name != field@,
                decreases fs.len() - j,
            {
                if fs[j].name == key {
                    proof {
                        ast::lemma_fields_view_index(fs@);
                        lemma_find_field_char(sv.ctxs[c as int].syntax.fields, field@);
                        assert(sv.ctxs[c as int].syntax.fields == ast::fields_view(fs@));
                        assert(ast::fields_view(fs@)[j as int] == ast::field_view(
                            fs@[j as int],
                        ));
                        assert(ast::fields_view(fs@)[j as int].name == field@);
                        assert forall|k: int|
                            0 <= k < j implies (#[trigger] ast::fields_view(fs@)[k]).name
                            != field@ by {
                            assert(ast::fields_view(fs@)[k] == ast::field_view(fs@[k]));
                        }
                        assert(find_field(sv.ctxs[c as int].syntax.fields, field@) == Some(
                            j as int,
                        ));
                    }
                    return Some((c, j));
                }
                j = j + 1;
            }
            proof {
                ast::lemma_fields_view_index(fs@);
                assert(find_field(sv.ctxs[c as int].syntax.fields, field@) is None);
            }
            match st.ctxs[c].parent {
                Some(p) => {
                    c = p;
                },
                None => {
                    return None;
                },
            }
        }
    }
}

} // verus!
