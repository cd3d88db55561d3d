//! The grammar of expressions: a recursive-descent parser over the expression
//! tokens. Precedence, loosest first: ternary `? :`, `or`, `and`, unary
//! `not`, comparisons (`== != < > <= >=`, `equals`, `not equals`), `+ -`,
//! `* / %`, unary `-`, the `is [not] name` test, and postfix member access,
//! calls, indexing and filters. The parser never fails: what it cannot read
//! becomes a null literal or ends the construct.
use vstd::prelude::*;
use crate::ast::{BinOp, ExprV, LitV};
use crate::expr_tokens::{lexe, Op, TokV, Word, op_spelling, keyword_spelling};

verus! {

/// The tokens left from position `i` of `n` tokens.
pub open spec fn rest_len(n: int, i: int) -> int {
    if i < n {
        n - i
    } else {
        0
    }
}

pub open spec fn tok_at(t: Seq<TokV>, i: int) -> Option<TokV> {
    if 0 <= i < t.len() {
        Some(t[i])
    } else {
        None
    }
}

pub open spec fn punct_at(t: Seq<TokV>, i: int, c: char) -> bool {
    tok_at(t, i) == Some(TokV::Punct(c))
}

pub open spec fn word_at(t: Seq<TokV>, i: int, w: Word) -> bool {
    match tok_at(t, i) {
        Some(TokV::Ident(_, w2)) => w2 == w,
        _ => false,
    }
}

pub open spec fn op_at(t: Seq<TokV>, i: int) -> Option<Op> {
    match tok_at(t, i) {
        Some(TokV::Op(o)) => Some(o),
        _ => None,
    }
}

/// The position after consuming the token at `i`, if there is one.
pub open spec fn step(n: int, i: int) -> int {
    if i < n {
        i + 1
    } else {
        i
    }
}

pub open spec fn null_v() -> ExprV {
    ExprV::Lit(LitV::Null)
}

/// The comparison operator at `p` and how many tokens spell it.
pub open spec fn comparison_op(t: Seq<TokV>, p: int) -> Option<(BinOp, nat)> {
    match tok_at(t, p) {
        Some(TokV::Op(Op::Eq)) => Some((BinOp::Eq, 1)),
        Some(TokV::Op(Op::Ne)) => Some((BinOp::Ne, 1)),
        Some(TokV::Op(Op::Lt)) => Some((BinOp::Lt, 1)),
        Some(TokV::Op(Op::Gt)) => Some((BinOp::Gt, 1)),
        Some(TokV::Op(Op::Le)) => Some((BinOp::Le, 1)),
        Some(TokV::Op(Op::Ge)) => Some((BinOp::Ge, 1)),
        Some(TokV::Ident(_, Word::Equals)) => Some((BinOp::Equals, 1)),
        Some(TokV::Ident(_, Word::Not)) => if word_at(t, p + 1, Word::Equals) {
            Some((BinOp::NotEquals, 2))
        } else {
            None
        },
        _ => None,
    }
}

pub open spec fn add_op(t: Seq<TokV>, p: int) -> Option<BinOp> {
    match op_at(t, p) {
        Some(Op::Plus) => Some(BinOp::Add),
        Some(Op::Minus) => Some(BinOp::Sub),
        _ => None,
    }
}

pub open spec fn mul_op(t: Seq<TokV>, p: int) -> Option<BinOp> {
    match op_at(t, p) {
        Some(Op::Star) => Some(BinOp::Mul),
        Some(Op::Slash) => Some(BinOp::Div),
        Some(Op::Percent) => Some(BinOp::Rem),
        _ => None,
    }
}

pub open spec fn bin(op: BinOp, l: ExprV, r: ExprV) -> ExprV {
    ExprV::Binary { op, lhs: Box::new(l), rhs: Box::new(r) }
}

// Each parsing function reads the tokens from position `i` and gives the
// expression and the number of tokens it consumed.

/// `cond ? a : b`; a missing `: b` gives null.
pub closed spec fn p_ternary(t: Seq<TokV>, i: int) -> (ExprV, nat)
    decreases rest_len(t.len() as int, i), 16int,
{
    let r = p_or(t, i);
    let p = i + r.1;
    if punct_at(t, p, '?') {
        let a = p_ternary(t, p + 1);
        let q = p + 1 + a.1;
        if !punct_at(t, q, ':') {
            (
                ExprV::Ternary {
                    cond: Box::new(r.0),
                    then_branch: Box::new(a.0),
                    els: Box::new(null_v()),
                },
                (q - i) as nat,
            )
        } else {
            let b = p_ternary(t, q + 1);
            (
                ExprV::Ternary {
                    cond: Box::new(r.0),
                    then_branch: Box::new(a.0),
                    els: Box::new(b.0),
                },
                (q + 1 + b.1 - i) as nat,
            )
        }
    } else {
        r
    }
}

pub closed spec fn p_or(t: Seq<TokV>, i: int) -> (ExprV, nat)
    decreases rest_len(t.len() as int, i), 15int,
{
    let l = p_and(t, i);
    let r = p_or_tail(t, i + l.1, l.0);
    (r.0, l.1 + r.1)
}

pub closed spec fn p_or_tail(t: Seq<TokV>, p: int, lhs: ExprV) -> (ExprV, nat)
    decreases rest_len(t.len() as int, p), 14int,
{
    if word_at(t, p, Word::Or) {
        let a = p_and(t, p + 1);
        let r = p_or_tail(t, p + 1 + a.1, bin(BinOp::Or, lhs, a.0));
        (r.0, 1 + a.1 + r.1)
    } else {
        (lhs, 0)
    }
}

pub closed spec fn p_and(t: Seq<TokV>, i: int) -> (ExprV, nat)
    decreases rest_len(t.len() as int, i), 13int,
{
    let l = p_not(t, i);
    let r = p_and_tail(t, i + l.1, l.0);
    (r.0, l.1 + r.1)
}

pub closed spec fn p_and_tail(t: Seq<TokV>, p: int, lhs: ExprV) -> (ExprV, nat)
    decreases rest_len(t.len() as int, p), 12int,
{
    if word_at(t, p, Word::And) {
        let a = p_not(t, p + 1);
        let r = p_and_tail(t, p + 1 + a.1, bin(BinOp::And, lhs, a.0));
        (r.0, 1 + a.1 + r.1)
    } else {
        (lhs, 0)
    }
}

/// `not x`; `not equals` is a comparison operator, not a unary `not`.
pub closed spec fn p_not(t: Seq<TokV>, i: int) -> (ExprV, nat)
    decreases rest_len(t.len() as int, i), 11int,
{
    if word_at(t, i, Word::Not) && word_at(t, i + 1, Word::Equals) {
        p_comparison(t, i)
    } else if word_at(t, i, Word::Not) {
        let a = p_not(t, i + 1);
        (ExprV::Not(Box::new(a.0)), 1 + a.1)
    } else {
        p_comparison(t, i)
    }
}

pub closed spec fn p_comparison(t: Seq<TokV>, i: int) -> (ExprV, nat)
    decreases rest_len(t.len() as int, i), 10int,
{
    let l = p_add(t, i);
    let r = p_comparison_tail(t, i + l.1, l.0);
    (r.0, l.1 + r.1)
}

pub closed spec fn p_comparison_tail(t: Seq<TokV>, p: int, lhs: ExprV) -> (ExprV, nat)
    decreases rest_len(t.len() as int, p), 9int,
{
    match comparison_op(t, p) {
        Some((op, c)) => {
            let a = p_add(t, p + c);
            let r = p_comparison_tail(t, p + c + a.1, bin(op, lhs, a.0));
            (r.0, c + a.1 + r.1)
        },
        None => (lhs, 0),
    }
}

pub closed spec fn p_add(t: Seq<TokV>, i: int) -> (ExprV, nat)
    decreases rest_len(t.len() as int, i), 8int,
{
    let l = p_mul(t, i);
    let r = p_add_tail(t, i + l.1, l.0);
    (r.0, l.1 + r.1)
}

pub closed spec fn p_add_tail(t: Seq<TokV>, p: int, lhs: ExprV) -> (ExprV, nat)
    decreases rest_len(t.len() as int, p), 7int,
{
    match add_op(t, p) {
        Some(op) => {
            let a = p_mul(t, p + 1);
            let r = p_add_tail(t, p + 1 + a.1, bin(op, lhs, a.0));
            (r.0, 1 + a.1 + r.1)
        },
        None => (lhs, 0),
    }
}

pub closed spec fn p_mul(t: Seq<TokV>, i: int) -> (ExprV, nat)
    decreases rest_len(t.len() as int, i), 6int,
{
    let l = p_unary(t, i);
    let r = p_mul_tail(t, i + l.1, l.0);
    (r.0, l.1 + r.1)
}

pub closed spec fn p_mul_tail(t: Seq<TokV>, p: int, lhs: ExprV) -> (ExprV, nat)
    decreases rest_len(t.len() as int, p), 5int,
{
    match mul_op(t, p) {
        Some(op) => {
            let a = p_unary(t, p + 1);
            let r = p_mul_tail(t, p + 1 + a.1, bin(op, lhs, a.0));
            (r.0, 1 + a.1 + r.1)
        },
        None => (lhs, 0),
    }
}

/// Unary minus: `-x` reads as the product `-1 * x`, the negation of `x`.
pub closed spec fn p_unary(t: Seq<TokV>, i: int) -> (ExprV, nat)
    decreases rest_len(t.len() as int, i), 4int,
{
    if op_at(t, i) == Some(Op::Minus) {
        let a = p_unary(t, i + 1);
        (bin(BinOp::Mul, ExprV::Lit(LitV::Int(-1i64)), a.0), 1 + a.1)
    } else {
        p_postfix(t, i)
    }
}

/// `x is [not] name`; a missing name gives the empty name.
pub closed spec fn p_postfix(t: Seq<TokV>, i: int) -> (ExprV, nat)
    decreases rest_len(t.len() as int, i), 3int,
{
    let e = p_chain(t, i);
    let p = i + e.1;
    if word_at(t, p, Word::Is) {
        let negated = word_at(t, p + 1, Word::Not);
        let q = if negated {
            p + 2
        } else {
            p + 1
        };
        let name = match tok_at(t, q) {
            Some(TokV::Ident(s, _)) => s,
            _ => Seq::empty(),
        };
        let q2 = step(t.len() as int, q);
        (ExprV::Test { name, negated, expr: Box::new(e.0) }, (q2 - i) as nat)
    } else {
        e
    }
}

pub closed spec fn p_chain(t: Seq<TokV>, i: int) -> (ExprV, nat)
    decreases rest_len(t.len() as int, i), 2int,
{
    let l = p_primary(t, i);
    let r = p_chain_tail(t, i + l.1, l.0);
    (r.0, l.1 + r.1)
}

/// Postfix `.name`, `.name(args)`, `[index]` and `| filter(args)`. A `.` or
/// `|` that no name follows ends the chain, after consuming the token that
/// follows it.
pub closed spec fn p_chain_tail(t: Seq<TokV>, p: int, e: ExprV) -> (ExprV, nat)
    decreases rest_len(t.len() as int, p), 1int,
{
    let n = t.len() as int;
    if punct_at(t, p, '.') {
        match tok_at(t, p + 1) {
            Some(TokV::Ident(name, _)) => {
                if punct_at(t, p + 2, '(') {
                    let a = p_args(t, p + 3);
                    let r = p_chain_tail(
                        t,
                        p + 3 + a.1,
                        ExprV::Call { base: Box::new(e), name, args: a.0 },
                    );
                    (r.0, 3 + a.1 + r.1)
                } else {
                    let r = p_chain_tail(t, p + 2, ExprV::Member { base: Box::new(e), name });
                    (r.0, 2 + r.1)
                }
            },
            _ => (e, (step(n, p + 1) - p) as nat),
        }
    } else if punct_at(t, p, '[') {
        let a = p_ternary(t, p + 1);
        let q = p + 1 + a.1;
        let q2 = if punct_at(t, q, ']') {
            q + 1
        } else {
            q
        };
        let r = p_chain_tail(t, q2, ExprV::Index { base: Box::new(e), index: Box::new(a.0) });
        (r.0, (q2 - p + r.1) as nat)
    } else if punct_at(t, p, '|') {
        match tok_at(t, p + 1) {
            Some(TokV::Ident(name, _)) => {
                if punct_at(t, p + 2, '(') {
                    let a = p_args(t, p + 3);
                    let r = p_chain_tail(
                        t,
                        p + 3 + a.1,
                        ExprV::Filter { base: Box::new(e), name, args: a.0 },
                    );
                    (r.0, 3 + a.1 + r.1)
                } else {
                    let r = p_chain_tail(
                        t,
                        p + 2,
                        ExprV::Filter { base: Box::new(e), name, args: Seq::empty() },
                    );
                    (r.0, 2 + r.1)
                }
            },
            _ => (e, (step(n, p + 1) - p) as nat),
        }
    } else {
        (e, 0)
    }
}

/// The arguments after an opening `(`, through the closing `)`.
pub closed spec fn p_args(t: Seq<TokV>, i: int) -> (Seq<ExprV>, nat)
    decreases rest_len(t.len() as int, i), 18int,
{
    if punct_at(t, i, ')') {
        (Seq::empty(), 1)
    } else {
        p_args_loop(t, i, Seq::empty())
    }
}

pub closed spec fn p_args_loop(t: Seq<TokV>, i: int, acc: Seq<ExprV>) -> (Seq<ExprV>, nat)
    decreases rest_len(t.len() as int, i), 17int,
{
    let a = p_ternary(t, i);
    let acc2 = acc.push(a.0);
    let p = i + a.1;
    if punct_at(t, p, ',') {
        let r = p_args_loop(t, p + 1, acc2);
        (r.0, (p + 1 - i + r.1) as nat)
    } else if punct_at(t, p, ')') {
        (acc2, (p + 1 - i) as nat)
    } else {
        (acc2, (p - i) as nat)
    }
}

/// A literal, a variable, a parenthesised expression, a range `[a..b]`, a
/// list `[...]` or a map `{...}`; any other token reads as null.
pub closed spec fn p_primary(t: Seq<TokV>, i: int) -> (ExprV, nat)
    decreases rest_len(t.len() as int, i), 0int,
{
    match tok_at(t, i) {
        None => (null_v(), 0),
        Some(tok) => match tok {
            TokV::Str(s) => (ExprV::Lit(LitV::Str(s)), 1),
            TokV::Int(v) => if op_at(t, i + 1) == Some(Op::DotDot) {
                let a = p_ternary(t, i + 2);
                let q = i + 2 + a.1;
                let q2 = if punct_at(t, q, ']') {
                    q + 1
                } else {
                    q
                };
                (
                    ExprV::Range { start: Box::new(ExprV::Lit(LitV::Int(v))), end: Box::new(a.0) },
                    (q2 - i) as nat,
                )
            } else {
                (ExprV::Lit(LitV::Int(v)), 1)
            },
            TokV::Float(s) => (ExprV::Lit(LitV::Float(s)), 1),
            TokV::Ident(s, w) => (
                if w == Word::True {
                    ExprV::Lit(LitV::Bool(true))
                } else if w == Word::False {
                    ExprV::Lit(LitV::Bool(false))
                } else if w == Word::Null {
                    null_v()
                } else {
                    ExprV::Var(s)
                },
                1,
            ),
            TokV::Punct(c) => if c == '(' {
                let a = p_ternary(t, i + 1);
                let q = i + 1 + a.1;
                let q2 = if punct_at(t, q, ')') {
                    q + 1
                } else {
                    q
                };
                (a.0, (q2 - i) as nat)
            } else if c == '[' {
                if punct_at(t, i + 1, ']') {
                    (ExprV::ListLit(Seq::empty()), 2)
                } else {
                    let r = p_list(t, i + 1, Seq::empty());
                    (r.0, 1 + r.1)
                }
            } else if c == '{' {
                if punct_at(t, i + 1, '}') {
                    (ExprV::DictLit(Seq::empty()), 2)
                } else {
                    let r = p_dict(t, i + 1, Seq::empty());
                    (r.0, 1 + r.1)
                }
            } else {
                (null_v(), 1)
            },
            TokV::Op(_) => (null_v(), 1),
        },
    }
}

/// The items of a list after `[`; a single range item is the range itself.
pub closed spec fn p_list(t: Seq<TokV>, j: int, items: Seq<ExprV>) -> (ExprV, nat)
    decreases rest_len(t.len() as int, j), 17int,
{
    let a = p_ternary(t, j);
    let items2 = items.push(a.0);
    let q = j + a.1;
    if punct_at(t, q, ',') {
        if punct_at(t, q + 1, ']') {
            (ExprV::ListLit(items2), (q + 2 - j) as nat)
        } else {
            let r = p_list(t, q + 1, items2);
            (r.0, (q + 1 - j + r.1) as nat)
        }
    } else {
        let q2 = if punct_at(t, q, ']') {
            q + 1
        } else {
            q
        };
        (
            if items2.len() == 1 && items2[0] is Range {
                items2[0]
            } else {
                ExprV::ListLit(items2)
            },
            (q2 - j) as nat,
        )
    }
}

/// The entries of a map after `{`: `key: value`, or a bare `key` that
/// stands for the variable of that name.
pub closed spec fn p_dict(t: Seq<TokV>, j: int, items: Seq<(Seq<char>, ExprV)>) -> (ExprV, nat)
    decreases rest_len(t.len() as int, j), 17int,
{
    let n = t.len() as int;
    let key = match tok_at(t, j) {
        Some(TokV::Ident(s, _)) => s,
        Some(TokV::Str(s)) => s,
        _ => Seq::empty(),
    };
    let j1 = step(n, j);
    let a = if punct_at(t, j1, ':') {
        let v = p_ternary(t, j1 + 1);
        (v.0, j1 + 1 + v.1)
    } else {
        (ExprV::Var(key), j1)
    };
    let items2 = items.push((key, a.0));
    let j2 = a.1;
    if punct_at(t, j2, ',') {
        if punct_at(t, j2 + 1, '}') {
            (ExprV::DictLit(items2), (j2 + 2 - j) as nat)
        } else {
            let r = p_dict(t, j2 + 1, items2);
            (r.0, (j2 + 1 - j + r.1) as nat)
        }
    } else if punct_at(t, j2, '}') {
        (ExprV::DictLit(items2), (j2 + 1 - j) as nat)
    } else {
        (ExprV::DictLit(items2), (j2 - j) as nat)
    }
}

/// The expression that an expression source reads as.
pub open spec fn spec_parse_expr(cs: Seq<char>) -> ExprV {
    p_ternary(lexe(cs, 0), 0).0
}

/// `p_ternary` unfolded once.
pub proof fn unfold_p_ternary(t: Seq<TokV>, i: int)
    ensures
        p_ternary(t, i) == ({
            let r = p_or(t, i);
            let p = i + r.1;
            if punct_at(t, p, '?') {
                let a = p_ternary(t, p + 1);
                let q = p + 1 + a.1;
                if !punct_at(t, q, ':') {
                    (
                        ExprV::Ternary {
                            cond: Box::new(r.0),
                            then_branch: Box::new(a.0),
                            els: Box::new(null_v()),
                        },
                        (q - i) as nat,
                    )
                } else {
                    let b = p_ternary(t, q + 1);
                    (
                        ExprV::Ternary {
                            cond: Box::new(r.0),
                            then_branch: Box::new(a.0),
                            els: Box::new(b.0),
                        },
                        (q + 1 + b.1 - i) as nat,
                    )
                }
            } else {
                r
            }
        }),
{
}

/// `p_or` unfolded once.
pub proof fn unfold_p_or(t: Seq<TokV>, i: int)
    ensures
        p_or(t, i) == ({
            let l = p_and(t, i);
            let r = p_or_tail(t, i + l.1, l.0);
            (r.0, l.1 + r.1)
        }),
{
}

/// `p_or_tail` unfolded once.
pub proof fn unfold_p_or_tail(t: Seq<TokV>, p: int, lhs: ExprV)
    ensures
        p_or_tail(t, p, lhs) == ({
            if word_at(t, p, Word::Or) {
                let a = p_and(t, p + 1);
                let r = p_or_tail(t, p + 1 + a.1, bin(BinOp::Or, lhs, a.0));
                (r.0, 1 + a.1 + r.1)
            } else {
                (lhs, 0)
            }
        }),
{
}

/// `p_and` unfolded once.
pub proof fn unfold_p_and(t: Seq<TokV>, i: int)
    ensures
        p_and(t, i) == ({
            let l = p_not(t, i);
            let r = p_and_tail(t, i + l.1, l.0);
            (r.0, l.1 + r.1)
        }),
{
}

/// `p_and_tail` unfolded once.
pub proof fn unfold_p_and_tail(t: Seq<TokV>, p: int, lhs: ExprV)
    ensures
        p_and_tail(t, p, lhs) == ({
            if word_at(t, p, Word::And) {
                let a = p_not(t, p + 1);
                let r = p_and_tail(t, p + 1 + a.1, bin(BinOp::And, lhs, a.0));
                (r.0, 1 + a.1 + r.1)
            } else {
                (lhs, 0)
            }
        }),
{
}

/// `p_not` unfolded once.
pub proof fn unfold_p_not(t: Seq<TokV>, i: int)
    ensures
        p_not(t, i) == ({
            if word_at(t, i, Word::Not) && word_at(t, i + 1, Word::Equals) {
                p_comparison(t, i)
            } else if word_at(t, i, Word::Not) {
                let a = p_not(t, i + 1);
                (ExprV::Not(Box::new(a.0)), 1 + a.1)
            } else {
                p_comparison(t, i)
            }
        }),
{
}

/// `p_comparison` unfolded once.
pub proof fn unfold_p_comparison(t: Seq<TokV>, i: int)
    ensures
        p_comparison(t, i) == ({
            let l = p_add(t, i);
            let r = p_comparison_tail(t, i + l.1, l.0);
            (r.0, l.1 + r.1)
        }),
{
}

/// `p_comparison_tail` unfolded once.
pub proof fn unfold_p_comparison_tail(t: Seq<TokV>, p: int, lhs: ExprV)
    ensures
        p_comparison_tail(t, p, lhs) == ({
            match comparison_op(t, p) {
                Some((op, c)) => {
                    let a = p_add(t, p + c);
                    let r = p_comparison_tail(t, p + c + a.1, bin(op, lhs, a.0));
                    (r.0, c + a.1 + r.1)
                },
                None => (lhs, 0),
            }
        }),
{
}

/// `p_add` unfolded once.
pub proof fn unfold_p_add(t: Seq<TokV>, i: int)
    ensures
        p_add(t, i) == ({
            let l = p_mul(t, i);
            let r = p_add_tail(t, i + l.1, l.0);
            (r.0, l.1 + r.1)
        }),
{
}

/// `p_add_tail` unfolded once.
pub proof fn unfold_p_add_tail(t: Seq<TokV>, p: int, lhs: ExprV)
    ensures
        p_add_tail(t, p, lhs) == ({
            match add_op(t, p) {
                Some(op) => {
                    let a = p_mul(t, p + 1);
                    let r = p_add_tail(t, p + 1 + a.1, bin(op, lhs, a.0));
                    (r.0, 1 + a.1 + r.1)
                },
                None => (lhs, 0),
            }
        }),
{
}

/// `p_mul` unfolded once.
pub proof fn unfold_p_mul(t: Seq<TokV>, i: int)
    ensures
        p_mul(t, i) == ({
            let l = p_unary(t, i);
            let r = p_mul_tail(t, i + l.1, l.0);
            (r.0, l.1 + r.1)
        }),
{
}

/// `p_mul_tail` unfolded once.
pub proof fn unfold_p_mul_tail(t: Seq<TokV>, p: int, lhs: ExprV)
    ensures
        p_mul_tail(t, p, lhs) == ({
            match mul_op(t, p) {
                Some(op) => {
                    let a = p_unary(t, p + 1);
                    let r = p_mul_tail(t, p + 1 + a.1, bin(op, lhs, a.0));
                    (r.0, 1 + a.1 + r.1)
                },
                None => (lhs, 0),
            }
        }),
{
}

/// `p_unary` unfolded once.
pub proof fn unfold_p_unary(t: Seq<TokV>, i: int)
    ensures
        p_unary(t, i) == ({
            if op_at(t, i) == Some(Op::Minus) {
                let a = p_unary(t, i + 1);
                (bin(BinOp::Mul, ExprV::Lit(LitV::Int(-1i64)), a.0), 1 + a.1)
            } else {
                p_postfix(t, i)
            }
        }),
{
}

/// `p_postfix` unfolded once.
pub proof fn unfold_p_postfix(t: Seq<TokV>, i: int)
    ensures
        p_postfix(t, i) == ({
            let e = p_chain(t, i);
            let p = i + e.1;
            if word_at(t, p, Word::Is) {
                let negated = word_at(t, p + 1, Word::Not);
                let q = if negated {
                    p + 2
                } else {
                    p + 1
                };
                let name = match tok_at(t, q) {
                    Some(TokV::Ident(s, _)) => s,
                    _ => Seq::empty(),
                };
                let q2 = step(t.len() as int, q);
                (ExprV::Test { name, negated, expr: Box::new(e.0) }, (q2 - i) as nat)
            } else {
                e
            }
        }),
{
}

/// `p_chain` unfolded once.
pub proof fn unfold_p_chain(t: Seq<TokV>, i: int)
    ensures
        p_chain(t, i) == ({
            let l = p_primary(t, i);
            let r = p_chain_tail(t, i + l.1, l.0);
            (r.0, l.1 + r.1)
        }),
{
}

/// `p_chain_tail` unfolded once.
pub proof fn unfold_p_chain_tail(t: Seq<TokV>, p: int, e: ExprV)
    ensures
        p_chain_tail(t, p, e) == ({
            let n = t.len() as int;
            if punct_at(t, p, '.') {
                match tok_at(t, p + 1) {
                    Some(TokV::Ident(name, _)) => {
                        if punct_at(t, p + 2, '(') {
                            let a = p_args(t, p + 3);
                            let r = p_chain_tail(
                                t,
                                p + 3 + a.1,
                                ExprV::Call { base: Box::new(e), name, args: a.0 },
                            );
                            (r.0, 3 + a.1 + r.1)
                        } else {
                            let r = p_chain_tail(t, p + 2, ExprV::Member { base: Box::new(e), name });
                            (r.0, 2 + r.1)
                        }
                    },
                    _ => (e, (step(n, p + 1) - p) as nat),
                }
            } else if punct_at(t, p, '[') {
                let a = p_ternary(t, p + 1);
                let q = p + 1 + a.1;
                let q2 = if punct_at(t, q, ']') {
                    q + 1
                } else {
                    q
                };
                let r = p_chain_tail(t, q2, ExprV::Index { base: Box::new(e), index: Box::new(a.0) });
                (r.0, (q2 - p + r.1) as nat)
            } else if punct_at(t, p, '|') {
                match tok_at(t, p + 1) {
                    Some(TokV::Ident(name, _)) => {
                        if punct_at(t, p + 2, '(') {
                            let a = p_args(t, p + 3);
                            let r = p_chain_tail(
                                t,
                                p + 3 + a.1,
                                ExprV::Filter { base: Box::new(e), name, args: a.0 },
                            );
                            (r.0, 3 + a.1 + r.1)
                        } else {
                            let r = p_chain_tail(
                                t,
                                p + 2,
                                ExprV::Filter { base: Box::new(e), name, args: Seq::empty() },
                            );
                            (r.0, 2 + r.1)
                        }
                    },
                    _ => (e, (step(n, p + 1) - p) as nat),
                }
            } else {
                (e, 0)
            }
        }),
{
}

/// `p_args` unfolded once.
pub proof fn unfold_p_args(t: Seq<TokV>, i: int)
    ensures
        p_args(t, i) == ({
            if punct_at(t, i, ')') {
                (Seq::empty(), 1)
            } else {
                p_args_loop(t, i, Seq::empty())
            }
        }),
{
}

/// `p_args_loop` unfolded once.
pub proof fn unfold_p_args_loop(t: Seq<TokV>, i: int, acc: Seq<ExprV>)
    ensures
        p_args_loop(t, i, acc) == ({
            let a = p_ternary(t, i);
            let acc2 = acc.push(a.0);
            let p = i + a.1;
            if punct_at(t, p, ',') {
                let r = p_args_loop(t, p + 1, acc2);
                (r.0, (p + 1 - i + r.1) as nat)
            } else if punct_at(t, p, ')') {
                (acc2, (p + 1 - i) as nat)
            } else {
                (acc2, (p - i) as nat)
            }
        }),
{
}

/// `p_primary` unfolded once.
pub proof fn unfold_p_primary(t: Seq<TokV>, i: int)
    ensures
        p_primary(t, i) == ({
            match tok_at(t, i) {
                None => (null_v(), 0),
                Some(tok) => match tok {
                    TokV::Str(s) => (ExprV::Lit(LitV::Str(s)), 1),
                    TokV::Int(v) => if op_at(t, i + 1) == Some(Op::DotDot) {
                        let a = p_ternary(t, i + 2);
                        let q = i + 2 + a.1;
                        let q2 = if punct_at(t, q, ']') {
                            q + 1
                        } else {
                            q
                        };
                        (
                            ExprV::Range { start: Box::new(ExprV::Lit(LitV::Int(v))), end: Box::new(a.0) },
                            (q2 - i) as nat,
                        )
                    } else {
                        (ExprV::Lit(LitV::Int(v)), 1)
                    },
                    TokV::Float(s) => (ExprV::Lit(LitV::Float(s)), 1),
                    TokV::Ident(s, w) => (
                        if w == Word::True {
                            ExprV::Lit(LitV::Bool(true))
                        } else if w == Word::False {
                            ExprV::Lit(LitV::Bool(false))
                        } else if w == Word::Null {
                            null_v()
                        } else {
                            ExprV::Var(s)
                        },
                        1,
                    ),
                    TokV::Punct(c) => if c == '(' {
                        let a = p_ternary(t, i + 1);
                        let q = i + 1 + a.1;
                        let q2 = if punct_at(t, q, ')') {
                            q + 1
                        } else {
                            q
                        };
                        (a.0, (q2 - i) as nat)
                    } else if c == '[' {
                        if punct_at(t, i + 1, ']') {
                            (ExprV::ListLit(Seq::empty()), 2)
                        } else {
                            let r = p_list(t, i + 1, Seq::empty());
                            (r.0, 1 + r.1)
                        }
                    } else if c == '{' {
                        if punct_at(t, i + 1, '}') {
                            (ExprV::DictLit(Seq::empty()), 2)
                        } else {
                            let r = p_dict(t, i + 1, Seq::empty());
                            (r.0, 1 + r.1)
                        }
                    } else {
                        (null_v(), 1)
                    },
                    TokV::Op(_) => (null_v(), 1),
                },
            }
        }),
{
}

/// `p_list` unfolded once.
pub proof fn unfold_p_list(t: Seq<TokV>, j: int, items: Seq<ExprV>)
    ensures
        p_list(t, j, items) == ({
            let a = p_ternary(t, j);
            let items2 = items.push(a.0);
            let q = j + a.1;
            if punct_at(t, q, ',') {
                if punct_at(t, q + 1, ']') {
                    (ExprV::ListLit(items2), (q + 2 - j) as nat)
                } else {
                    let r = p_list(t, q + 1, items2);
                    (r.0, (q + 1 - j + r.1) as nat)
                }
            } else {
                let q2 = if punct_at(t, q, ']') {
                    q + 1
                } else {
                    q
                };
                (
                    if items2.len() == 1 && items2[0] is Range {
                        items2[0]
                    } else {
                        ExprV::ListLit(items2)
                    },
                    (q2 - j) as nat,
                )
            }
        }),
{
}

/// `p_dict` unfolded once.
pub proof fn unfold_p_dict(t: Seq<TokV>, j: int, items: Seq<(Seq<char>, ExprV)>)
    ensures
        p_dict(t, j, items) == ({
            let n = t.len() as int;
            let key = match tok_at(t, j) {
                Some(TokV::Ident(s, _)) => s,
                Some(TokV::Str(s)) => s,
                _ => Seq::empty(),
            };
            let j1 = step(n, j);
            let a = if punct_at(t, j1, ':') {
                let v = p_ternary(t, j1 + 1);
                (v.0, j1 + 1 + v.1)
            } else {
                (ExprV::Var(key), j1)
            };
            let items2 = items.push((key, a.0));
            let j2 = a.1;
            if punct_at(t, j2, ',') {
                if punct_at(t, j2 + 1, '}') {
                    (ExprV::DictLit(items2), (j2 + 2 - j) as nat)
                } else {
                    let r = p_dict(t, j2 + 1, items2);
                    (r.0, (j2 + 1 - j + r.1) as nat)
                }
            } else if punct_at(t, j2, '}') {
                (ExprV::DictLit(items2), (j2 + 1 - j) as nat)
            } else {
                (ExprV::DictLit(items2), (j2 - j) as nat)
            }
        }),
{
}

/// How a binary operator is written in a template.
pub open spec fn binop_spelling(b: BinOp) -> Seq<char> {
    match b {
        BinOp::Or => seq!['o', 'r'],
        BinOp::And => seq!['a', 'n', 'd'],
        BinOp::Eq => seq!['=', '='],
        BinOp::Ne => seq!['!', '='],
        BinOp::Lt => seq!['<'],
        BinOp::Gt => seq!['>'],
        BinOp::Le => seq!['<', '='],
        BinOp::Ge => seq!['>', '='],
        BinOp::Equals => seq!['e', 'q', 'u', 'a', 'l', 's'],
        BinOp::NotEquals => seq!['n', 'o', 't', ' ', 'e', 'q', 'u', 'a', 'l', 's'],
        BinOp::Add => seq!['+'],
        BinOp::Sub => seq!['-'],
        BinOp::Mul => seq!['*'],
        BinOp::Div => seq!['/'],
        BinOp::Rem => seq!['%'],
    }
}

/// Whether the operator `o` is one of the comparisons `==`, `!=`, `<`,
/// `>`, `<=`, `>=`.
pub open spec fn is_comparison_token(o: Op) -> bool {
    o == Op::Eq || o == Op::Ne || o == Op::Lt || o == Op::Gt || o == Op::Le || o == Op::Ge
}

/// The comparison read at a position is the one its token spells: an
/// operator token `<`, `>`, `<=`, `>=`, `==` or `!=` gives the comparison
/// written the same way, and reads one token; `equals` gives `equals`, and
/// `not equals` gives `not equals` over two tokens.
pub proof fn law_comparison_is_what_the_token_spells(t: Seq<TokV>, p: int)
    ensures
        tok_at(t, p) matches Some(TokV::Op(o)) ==> (is_comparison_token(o) <==> comparison_op(t, p) is Some),
        tok_at(t, p) matches Some(TokV::Op(o)) ==> (comparison_op(t, p) matches Some((b, n)) ==> n == 1
            && binop_spelling(b) == op_spelling(o)),
        tok_at(t, p) matches Some(TokV::Ident(_, w)) ==> (comparison_op(t, p) matches Some((b, n)) ==> (n == 1
            && w == Word::Equals && binop_spelling(b) == keyword_spelling(w)) || (n == 2 && w == Word::Not
            && word_at(t, p + 1, Word::Equals) && binop_spelling(b) == keyword_spelling(w) + seq![' ']
            + keyword_spelling(Word::Equals))),
        tok_at(t, p) matches Some(TokV::Ident(_, w)) ==> (w == Word::Equals ==> comparison_op(t, p) is Some),
{
    match tok_at(t, p) {
        Some(TokV::Ident(_, w)) => {
            if w == Word::Not && word_at(t, p + 1, Word::Equals) {
                assert(binop_spelling(BinOp::NotEquals) =~= keyword_spelling(w) + seq![' '] + keyword_spelling(
                    Word::Equals,
                ));
            }
        },
        _ => {},
    }
}

/// The additive and multiplicative operators read at a position are the
/// ones their tokens spell.
pub proof fn law_arithmetic_is_what_the_token_spells(t: Seq<TokV>, p: int)
    ensures
        add_op(t, p) matches Some(b) ==> op_at(t, p) matches Some(o) && binop_spelling(b) == op_spelling(o),
        mul_op(t, p) matches Some(b) ==> op_at(t, p) matches Some(o) && binop_spelling(b) == op_spelling(o),
        op_at(t, p) == Some(Op::Plus) || op_at(t, p) == Some(Op::Minus) ==> add_op(t, p) is Some,
        op_at(t, p) == Some(Op::Star) || op_at(t, p) == Some(Op::Slash) || op_at(t, p) == Some(Op::Percent)
            ==> mul_op(t, p) is Some,
{
}

/// A keyword identifier reads as its literal: `true` and `false` as the
/// booleans of the same name, `null` as null; any other identifier reads as
/// the variable it names. Each is one token.
pub proof fn law_keywords_read_as_literals(t: Seq<TokV>, i: int, s: Seq<char>, w: Word)
    requires
        tok_at(t, i) == Some(TokV::Ident(s, w)),
    ensures
        p_primary(t, i).1 == 1,
        w == Word::True ==> p_primary(t, i).0 == ExprV::Lit(LitV::Bool(true)),
        w == Word::False ==> p_primary(t, i).0 == ExprV::Lit(LitV::Bool(false)),
        w == Word::Null ==> p_primary(t, i).0 == ExprV::Lit(LitV::Null),
        w != Word::True && w != Word::False && w != Word::Null ==> p_primary(t, i).0 == ExprV::Var(s),
{
    unfold_p_primary(t, i);
}

} // verus!
