//! The statement and expression trees of a parsed template, and their
//! views: the same trees with every string taken as its characters.
use vstd::prelude::*;

verus! {

/// A literal. A float literal keeps its decimal text (digits, a point and
/// digits); the evaluator reads its value.
#[derive(Debug)]
pub enum Lit {
    Null,
    Bool(bool),
    Int(i64),
    Float(String),
    Str(String),
}

/// A binary operator.
#[derive(Debug, Clone, Copy, PartialEq, Eq, Structural)]
pub enum BinOp {
    Or,
    And,
    Eq,
    Ne,
    Lt,
    Gt,
    Le,
    Ge,
    Equals,
    NotEquals,
    Add,
    Sub,
    Mul,
    Div,
    Rem,
}

/// An expression.
#[derive(Debug)]
pub enum Expr {
    Lit(Lit),
    Var(String),
    Not(Box<Expr>),
    Binary { op: BinOp, lhs: Box<Expr>, rhs: Box<Expr> },
    Test { name: String, negated: bool, expr: Box<Expr> },
    Ternary { cond: Box<Expr>, then_branch: Box<Expr>, els: Box<Expr> },
    ListLit(Vec<Expr>),
    DictLit(Vec<(String, Expr)>),
    Range { start: Box<Expr>, end: Box<Expr> },
    Index { base: Box<Expr>, index: Box<Expr> },
    Member { base: Box<Expr>, name: String },
    Call { base: Box<Expr>, name: String, args: Vec<Expr> },
    Filter { base: Box<Expr>, name: String, args: Vec<Expr> },
}

/// A statement.
#[derive(Debug)]
pub enum Stmt {
    Text(String),
    Expr(Box<Expr>),
    If(Vec<(Box<Expr>, Vec<Stmt>)>, Vec<Stmt>),
    For { target: String, iterable: Box<Expr>, body: Vec<Stmt> },
    SetVar { name: String, value: Box<Expr> },
    Include(Box<Expr>),
    Autoescape(Box<Expr>, Vec<Stmt>),
}

/// A literal as plain values.
pub enum LitV {
    Null,
    Bool(bool),
    Int(i64),
    Float(Seq<char>),
    Str(Seq<char>),
}

/// An expression as plain values.
pub enum ExprV {
    Lit(LitV),
    Var(Seq<char>),
    Not(Box<ExprV>),
    Binary { op: BinOp, lhs: Box<ExprV>, rhs: Box<ExprV> },
    Test { name: Seq<char>, negated: bool, expr: Box<ExprV> },
    Ternary { cond: Box<ExprV>, then_branch: Box<ExprV>, els: Box<ExprV> },
    ListLit(Seq<ExprV>),
    DictLit(Seq<(Seq<char>, ExprV)>),
    Range { start: Box<ExprV>, end: Box<ExprV> },
    Index { base: Box<ExprV>, index: Box<ExprV> },
    Member { base: Box<ExprV>, name: Seq<char> },
    Call { base: Box<ExprV>, name: Seq<char>, args: Seq<ExprV> },
    Filter { base: Box<ExprV>, name: Seq<char>, args: Seq<ExprV> },
}

/// A statement as plain values.
pub enum StmtV {
    Text(Seq<char>),
    Expr(ExprV),
    If(Seq<(ExprV, Seq<StmtV>)>, Seq<StmtV>),
    For { target: Seq<char>, iterable: ExprV, body: Seq<StmtV> },
    SetVar { name: Seq<char>, value: ExprV },
    Include(ExprV),
    Autoescape(ExprV, Seq<StmtV>),
}

pub open spec fn lit_v(l: Lit) -> LitV {
    match l {
        Lit::Null => LitV::Null,
        Lit::Bool(b) => LitV::Bool(b),
        Lit::Int(i) => LitV::Int(i),
        Lit::Float(s) => LitV::Float(s@),
        Lit::Str(s) => LitV::Str(s@),
    }
}

pub open spec fn expr_v(e: Expr) -> ExprV
    decreases e,
{
    match e {
        Expr::Lit(l) => ExprV::Lit(lit_v(l)),
        Expr::Var(s) => ExprV::Var(s@),
        Expr::Not(x) => ExprV::Not(Box::new(expr_v(*x))),
        Expr::Binary { op, lhs, rhs } => ExprV::Binary {
            op,
            lhs: Box::new(expr_v(*lhs)),
            rhs: Box::new(expr_v(*rhs)),
        },
        Expr::Test { name, negated, expr } => ExprV::Test {
            name: name@,
            negated,
            expr: Box::new(expr_v(*expr)),
        },
        Expr::Ternary { cond, then_branch, els } => ExprV::Ternary {
            cond: Box::new(expr_v(*cond)),
            then_branch: Box::new(expr_v(*then_branch)),
            els: Box::new(expr_v(*els)),
        },
        Expr::ListLit(items) => ExprV::ListLit(exprs_v(items@)),
        Expr::DictLit(items) => ExprV::DictLit(dict_v(items@)),
        Expr::Range { start, end } => ExprV::Range {
            start: Box::new(expr_v(*start)),
            end: Box::new(expr_v(*end)),
        },
        Expr::Index { base, index } => ExprV::Index {
            base: Box::new(expr_v(*base)),
            index: Box::new(expr_v(*index)),
        },
        Expr::Member { base, name } => ExprV::Member { base: Box::new(expr_v(*base)), name: name@ },
        Expr::Call { base, name, args } => ExprV::Call {
            base: Box::new(expr_v(*base)),
            name: name@,
            args: exprs_v(args@),
        },
        Expr::Filter { base, name, args } => ExprV::Filter {
            base: Box::new(expr_v(*base)),
            name: name@,
            args: exprs_v(args@),
        },
    }
}

pub open spec fn exprs_v(es: Seq<Expr>) -> Seq<ExprV>
    decreases es,
{
    if es.len() == 0 {
        Seq::empty()
    } else {
        exprs_v(es.drop_last()).push(expr_v(es.last()))
    }
}

pub open spec fn dict_v(ds: Seq<(String, Expr)>) -> Seq<(Seq<char>, ExprV)>
    decreases ds,
{
    if ds.len() == 0 {
        Seq::empty()
    } else {
        dict_v(ds.drop_last()).push((ds.last().0@, expr_v(ds.last().1)))
    }
}

pub open spec fn stmt_v(s: Stmt) -> StmtV
    decreases s,
{
    match s {
        Stmt::Text(t) => StmtV::Text(t@),
        Stmt::Expr(e) => StmtV::Expr(expr_v(*e)),
        Stmt::If(branches, els) => StmtV::If(branches_v(branches@), stmts_v(els@)),
        Stmt::For { target, iterable, body } => StmtV::For {
            target: target@,
            iterable: expr_v(*iterable),
            body: stmts_v(body@),
        },
        Stmt::SetVar { name, value } => StmtV::SetVar { name: name@, value: expr_v(*value) },
        Stmt::Include(e) => StmtV::Include(expr_v(*e)),
        Stmt::Autoescape(mode, body) => StmtV::Autoescape(expr_v(*mode), stmts_v(body@)),
    }
}

pub open spec fn stmts_v(ss: Seq<Stmt>) -> Seq<StmtV>
    decreases ss,
{
    if ss.len() == 0 {
        Seq::empty()
    } else {
        stmts_v(ss.drop_last()).push(stmt_v(ss.last()))
    }
}

pub open spec fn branches_v(bs: Seq<(Box<Expr>, Vec<Stmt>)>) -> Seq<(ExprV, Seq<StmtV>)>
    decreases bs,
{
    if bs.len() == 0 {
        Seq::empty()
    } else {
        branches_v(bs.drop_last()).push((expr_v(*bs.last().0), stmts_v(bs.last().1@)))
    }
}

pub proof fn lemma_exprs_v_push(es: Seq<Expr>, e: Expr)
    ensures
        exprs_v(es.push(e)) == exprs_v(es).push(expr_v(e)),
        exprs_v(Seq::<Expr>::empty()) == Seq::<ExprV>::empty(),
{
    assert(es.push(e).drop_last() =~= es);
}

pub proof fn lemma_views_empty()
    ensures
        exprs_v(Seq::<Expr>::empty()) == Seq::<ExprV>::empty(),
        dict_v(Seq::<(String, Expr)>::empty()) == Seq::<(Seq<char>, ExprV)>::empty(),
        stmts_v(Seq::<Stmt>::empty()) == Seq::<StmtV>::empty(),
        branches_v(Seq::<(Box<Expr>, Vec<Stmt>)>::empty()) == Seq::<(ExprV, Seq<StmtV>)>::empty(),
{
}

pub proof fn lemma_exprs_v_index(es: Seq<Expr>)
    ensures
        exprs_v(es).len() == es.len(),
        forall|k: int| 0 <= k < es.len() ==> #[trigger] exprs_v(es)[k] == expr_v(es[k]),
    decreases es.len(),
{
    if es.len() > 0 {
        lemma_exprs_v_index(es.drop_last());
    }
}

pub proof fn lemma_dict_v_push(ds: Seq<(String, Expr)>, k: String, e: Expr)
    ensures
        dict_v(ds.push((k, e))) == dict_v(ds).push((k@, expr_v(e))),
        dict_v(Seq::<(String, Expr)>::empty()) == Seq::<(Seq<char>, ExprV)>::empty(),
{
    assert(ds.push((k, e)).drop_last() =~= ds);
}

pub proof fn lemma_stmts_v_push(ss: Seq<Stmt>, s: Stmt)
    ensures
        stmts_v(ss.push(s)) == stmts_v(ss).push(stmt_v(s)),
        stmts_v(Seq::<Stmt>::empty()) == Seq::<StmtV>::empty(),
{
    assert(ss.push(s).drop_last() =~= ss);
}

pub proof fn lemma_branches_v_push(bs: Seq<(Box<Expr>, Vec<Stmt>)>, c: Box<Expr>, b: Vec<Stmt>)
    ensures
        branches_v(bs.push((c, b))) == branches_v(bs).push((expr_v(*c), stmts_v(b@))),
        branches_v(Seq::<(Box<Expr>, Vec<Stmt>)>::empty()) == Seq::<(ExprV, Seq<StmtV>)>::empty(),
{
    assert(bs.push((c, b)).drop_last() =~= bs);
}

pub proof fn lemma_stmts_v_index(ss: Seq<Stmt>)
    ensures
        stmts_v(ss).len() == ss.len(),
        forall|k: int| 0 <= k < ss.len() ==> #[trigger] stmts_v(ss)[k] == stmt_v(ss[k]),
    decreases ss.len(),
{
    if ss.len() > 0 {
        lemma_stmts_v_index(ss.drop_last());
    }
}

pub proof fn lemma_branches_v_index(bs: Seq<(Box<Expr>, Vec<Stmt>)>)
    ensures
        branches_v(bs).len() == bs.len(),
        forall|k: int|
            0 <= k < bs.len() ==> #[trigger] branches_v(bs)[k] == (expr_v(*bs[k].0), stmts_v(bs[k].1@)),
    decreases bs.len(),
{
    if bs.len() > 0 {
        lemma_branches_v_index(bs.drop_last());
    }
}

} // verus!
