//! The expression tree built by the parser.
//!
//! Each syntactic category has an executable type and a mathematical view
//! (`ExprView` and friends) that contracts and proofs speak about.

use vstd::prelude::*;

verus! {

broadcast use vstd::seq::group_seq_axioms, vstd::std_specs::vec::group_vec_axioms;

#[derive(Clone, Copy, Debug, PartialEq, Eq)]
pub enum UnOp {
    UnPlus,
    UnMinus,
    Not,
}

#[derive(Clone, Copy, Debug, PartialEq, Eq)]
pub enum BinOp {
    Times,
    Div,
    Plus,
    Minus,
    ShiftLeft,
    ShiftRight,
    LessThan,
    GreaterThan,
    LessEq,
    GreaterEq,
    Eq,
    NotEq,
    LogicalAnd,
    LogicalOr,
}

/// A literal constant. Values of other kinds (booleans, records) only arise
/// from evaluation; they have no literal syntax.
#[derive(Debug, PartialEq)]
pub enum Literal {
    Nil,
    Int(i64),
    Str(String),
}

#[derive(Debug, PartialEq, Eq)]
pub struct Var {
    pub name: String,
}

#[derive(Debug, PartialEq)]
pub enum Expr {
    Literal(Literal),
    Var(Var),
    FieldAcc(Box<Expr>, String),
    UnExpr(UnOp, Box<Expr>),
    BinExpr(Box<Expr>, BinOp, Box<Expr>),
    Rec(Rec),
    Call(Call),
    Fun(Fun),
}

/// A function literal. Functions have no evaluation semantics in this crate;
/// the variant exists so the data model is closed.
#[derive(Debug, PartialEq)]
pub struct Fun {
    params: Vec<Var>,
    body: Box<Expr>,
}

/// A function call. Calls have no evaluation semantics in this crate.
#[derive(Debug, PartialEq)]
pub struct Call {
    fun: Box<Expr>,
    args: Vec<Box<Expr>>,
}

/// A record literal: named fields in declaration order.
#[derive(Debug, PartialEq)]
pub struct Rec {
    pub let_vars: Vec<LetBinding>,
    pub fields: Vec<Field>,
}

#[derive(Debug, PartialEq)]
pub struct Field {
    pub name: String,
    pub value: Box<Expr>,
}

#[derive(Debug, PartialEq)]
pub struct LetBinding {
    pub var: Var,
    pub value: Box<Expr>,
}

/// A whole source file: optional `let` bindings followed by one expression.
#[derive(Debug, PartialEq)]
pub struct Module {
    pub let_vars: Vec<LetBinding>,
    pub expr: Box<Expr>,
}

// ---------------------------------------------------------------------------
// Mathematical views of the tree.
// ---------------------------------------------------------------------------

pub enum LiteralView {
    Nil,
    Int(i64),
    Str(Seq<char>),
}

pub enum ExprView {
    Literal(LiteralView),
    Var(Seq<char>),
    FieldAcc(Box<ExprView>, Seq<char>),
    UnExpr(UnOp, Box<ExprView>),
    BinExpr(Box<ExprView>, BinOp, Box<ExprView>),
    Rec(RecView),
    Call(CallView),
    Fun(FunView),
}

pub struct FunView {
    pub params: Seq<Seq<char>>,
    pub body: Box<ExprView>,
}

pub struct CallView {
    pub fun: Box<ExprView>,
    pub args: Seq<ExprView>,
}

pub struct RecView {
    pub let_vars: Seq<LetView>,
    pub fields: Seq<FieldView>,
}

pub struct FieldView {
    pub name: Seq<char>,
    pub value: ExprView,
}

pub struct LetView {
    pub var: Seq<char>,
    pub value: ExprView,
}

pub struct ModuleView {
    pub let_vars: Seq<LetView>,
    pub expr: ExprView,
}

pub open spec fn lit_view(l: Literal) -> LiteralView {
    match l {
        Literal::Nil => LiteralView::Nil,
        Literal::Int(i) => LiteralView::Int(i),
        Literal::Str(s) => LiteralView::Str(s@),
    }
}

pub open spec fn expr_view(e: Expr) -> ExprView
    decreases e,
{
    match e {
        Expr::Literal(l) => ExprView::Literal(lit_view(l)),
        Expr::Var(v) => ExprView::Var(v.name@),
        Expr::FieldAcc(b, f) => ExprView::FieldAcc(Box::new(expr_view(*b)), f@),
        Expr::UnExpr(op, b) => ExprView::UnExpr(op, Box::new(expr_view(*b))),
        Expr::BinExpr(l, op, r) => ExprView::BinExpr(
            Box::new(expr_view(*l)),
            op,
            Box::new(expr_view(*r)),
        ),
        Expr::Rec(r) => ExprView::Rec(rec_view(r)),
        Expr::Call(c) => ExprView::Call(call_view(c)),
        Expr::Fun(f) => ExprView::Fun(fun_view(f)),
    }
}

pub open spec fn field_view(f: Field) -> FieldView
    decreases f,
{
    FieldView { name: f.name@, value: expr_view(*f.value) }
}

pub open spec fn fields_view(fs: Seq<Field>) -> Seq<FieldView>
    decreases fs,
{
    if fs.len() == 0 {
        Seq::empty()
    } else {
        fields_view(fs.drop_last()).push(field_view(fs.last()))
    }
}

pub open spec fn let_view(l: LetBinding) -> LetView
    decreases l,
{
    LetView { var: l.var.name@, value: expr_view(*l.value) }
}

pub open spec fn lets_view(ls: Seq<LetBinding>) -> Seq<LetView>
    decreases ls,
{
    if ls.len() == 0 {
        Seq::empty()
    } else {
        lets_view(ls.drop_last()).push(let_view(ls.last()))
    }
}

pub open spec fn rec_view(r: Rec) -> RecView
    decreases r,
{
    RecView { let_vars: lets_view(r.let_vars@), fields: fields_view(r.fields@) }
}

pub open spec fn exprs_view(es: Seq<Box<Expr>>) -> Seq<ExprView>
    decreases es,
{
    if es.len() == 0 {
        Seq::empty()
    } else {
        exprs_view(es.drop_last()).push(expr_view(*es.last()))
    }
}

pub open spec fn params_view(ps: Seq<Var>) -> Seq<Seq<char>>
    decreases ps,
{
    if ps.len() == 0 {
        Seq::empty()
    } else {
        params_view(ps.drop_last()).push(ps.last().name@)
    }
}

pub closed spec fn call_view(c: Call) -> CallView
    decreases c,
{
    CallView { fun: Box::new(expr_view(*c.fun)), args: exprs_view(c.args@) }
}

pub closed spec fn fun_view(f: Fun) -> FunView
    decreases f,
{
    FunView { params: params_view(f.params@), body: Box::new(expr_view(*f.body)) }
}

pub open spec fn module_view(m: Module) -> ModuleView {
    ModuleView { let_vars: lets_view(m.let_vars@), expr: expr_view(*m.expr) }
}

/// `fields_view` element by element.
pub proof fn lemma_fields_view_index(fs: Seq<Field>)
    ensures
        fields_view(fs).len() == fs.len(),
        forall|j: int| 0 <= j < fs.len() ==> fields_view(fs)[j] == field_view(fs[j]),
    decreases fs.len(),
{
    if fs.len() > 0 {
        lemma_fields_view_index(fs.drop_last());
    }
}

// ---------------------------------------------------------------------------
// Deep copies. Evaluation contexts own a copy of the record literal that
// defines them, so the tree must be copyable with a view-preserving contract.
// ---------------------------------------------------------------------------

impl Literal {
    pub fn duplicate(&self) -> (r: Literal)
        ensures
            lit_view(r) == lit_view(*self),
    {
        match self {
            Literal::Nil => Literal::Nil,
            Literal::Int(i) => Literal::Int(*i),
            Literal::Str(s) => Literal::Str(s.clone()),
        }
    }
}

impl Expr {
    pub fn duplicate(&self) -> (r: Expr)
        ensures
            expr_view(r) == expr_view(*self),
        decreases *self,
    {
        match self {
            Expr::Literal(l) => Expr::Literal(l.duplicate()),
            Expr::Var(v) => Expr::Var(Var { name: v.name.clone() }),
            Expr::FieldAcc(b, f) => Expr::FieldAcc(Box::new(b.duplicate()), f.clone()),
            Expr::UnExpr(op, b) => Expr::UnExpr(*op, Box::new(b.duplicate())),
            Expr::BinExpr(l, op, r) => Expr::BinExpr(
                Box::new(l.duplicate()),
                *op,
                Box::new(r.duplicate()),
            ),
            Expr::Rec(r) => Expr::Rec(r.duplicate()),
            Expr::Call(c) => Expr::Call(c.duplicate()),
            Expr::Fun(f) => Expr::Fun(f.duplicate()),
        }
    }
}

impl Field {
    pub fn duplicate(&self) -> (r: Field)
        ensures
            field_view(r) == field_view(*self),
        decreases *self,
    {
        Field { name: self.name.clone(), value: Box::new(self.value.duplicate()) }
    }
}

impl LetBinding {
    pub fn duplicate(&self) -> (r: LetBinding)
        ensures
            let_view(r) == let_view(*self),
        decreases *self,
    {
        LetBinding {
            var: Var { name: self.var.name.clone() },
            value: Box::new(self.value.duplicate()),
        }
    }
}

fn duplicate_fields(fs: &Vec<Field>) -> (r: Vec<Field>)
    ensures
        fields_view(r@) == fields_view(fs@),
    decreases *fs,
{
    let mut out: Vec<Field> = Vec::new();
    let mut i: usize = 0;
    assert(fs@.subrange(0, 0) =~= Seq::<Field>::empty());
    while i < fs.len()
        invariant
            i <= fs.len(),
            fields_view(out@) == fields_view(fs@.subrange(0, i as int)),
        decreases fs.len() - i,
    {
        let d = fs[i].duplicate();
        proof {
            let pre = fs@.subrange(0, i as int);
            let post = fs@.subrange(0, i as int + 1);
            assert(post.drop_last() =~= pre);
            assert(post.last() == fs@[i as int]);
            assert(out@.push(d).drop_last() =~= out@);
        }
        out.push(d);
        i = i + 1;
    }
    assert(fs@.subrange(0, fs.len() as int) =~= fs@);
    out
}

fn duplicate_lets(ls: &Vec<LetBinding>) -> (r: Vec<LetBinding>)
    ensures
        lets_view(r@) == lets_view(ls@),
    decreases *ls,
{
    let mut out: Vec<LetBinding> = Vec::new();
    let mut i: usize = 0;
    assert(ls@.subrange(0, 0) =~= Seq::<LetBinding>::empty());
    while i < ls.len()
        invariant
            i <= ls.len(),
            lets_view(out@) == lets_view(ls@.subrange(0, i as int)),
        decreases ls.len() - i,
    {
        let d = ls[i].duplicate();
        proof {
            let post = ls@.subrange(0, i as int + 1);
            assert(post.drop_last() =~= ls@.subrange(0, i as int));
            assert(post.last() == ls@[i as int]);
            assert(out@.push(d).drop_last() =~= out@);
        }
        out.push(d);
        i = i + 1;
    }
    assert(ls@.subrange(0, ls.len() as int) =~= ls@);
    out
}

impl Rec {
    pub fn duplicate(&self) -> (r: Rec)
        ensures
            rec_view(r) == rec_view(*self),
        decreases *self,
    {
        Rec {
            let_vars: duplicate_lets(&self.let_vars),
            fields: duplicate_fields(&self.fields),
        }
    }
}

impl Call {
    fn duplicate(&self) -> (r: Call)
        ensures
            call_view(r) == call_view(*self),
        decreases *self,
    {
        let mut args: Vec<Box<Expr>> = Vec::new();
        let mut i: usize = 0;
        assert(self.args@.subrange(0, 0) =~= Seq::<Box<Expr>>::empty());
        while i < self.args.len()
            invariant
                i <= self.args.len(),
                exprs_view(args@) == exprs_view(self.args@.subrange(0, i as int)),
            decreases self.args.len() - i,
        {
            let d = Box::new(self.args[i].duplicate());
            proof {
                let post = self.args@.subrange(0, i as int + 1);
                assert(post.drop_last() =~= self.args@.subrange(0, i as int));
                assert(post.last() == self.args@[i as int]);
                assert(args@.push(d).drop_last() =~= args@);
            }
            args.push(d);
            i = i + 1;
        }
        assert(self.args@.subrange(0, self.args.len() as int) =~= self.args@);
        Call { fun: Box::new(self.fun.duplicate()), args }
    }
}

impl Fun {
    fn duplicate(&self) -> (r: Fun)
        ensures
            fun_view(r) == fun_view(*self),
        decreases *self,
    {
        let mut params: Vec<Var> = Vec::new();
        let mut i: usize = 0;
        assert(self.params@.subrange(0, 0) =~= Seq::<Var>::empty());
        while i < self.params.len()
            invariant
                i <= self.params.len(),
                params_view(params@) == params_view(self.params@.subrange(0, i as int)),
            decreases self.params.len() - i,
        {
            let d = Var { name: self.params[i].name.clone() };
            proof {
                let post = self.params@.subrange(0, i as int + 1);
                assert(post.drop_last() =~= self.params@.subrange(0, i as int));
                assert(post.last() == self.params@[i as int]);
                assert(params@.push(d).drop_last() =~= params@);
            }
            params.push(d);
            i = i + 1;
        }
        assert(self.params@.subrange(0, self.params.len() as int) =~= self.params@);
        Fun { params, body: Box::new(self.body.duplicate()) }
    }
}

} // verus!
