//! The expression parser, which reads tokens as `expr_grammar` says.
use vstd::prelude::*;
use crate::ast::{
    BinOp, Expr, ExprV, Lit, LitV, expr_v, exprs_v, dict_v, lemma_exprs_v_push, lemma_dict_v_push,
    lemma_exprs_v_index, lemma_views_empty,
};
use crate::expr_grammar::{
    rest_len, tok_at, punct_at, word_at, op_at, comparison_op, spec_parse_expr, unfold_p_ternary,
    unfold_p_or, unfold_p_or_tail, unfold_p_and, unfold_p_and_tail, unfold_p_not, unfold_p_comparison,
    unfold_p_comparison_tail, unfold_p_add, unfold_p_add_tail, unfold_p_mul, unfold_p_mul_tail,
    unfold_p_unary, unfold_p_postfix, unfold_p_chain, unfold_p_chain_tail, unfold_p_args,
    unfold_p_args_loop, unfold_p_primary, unfold_p_list, unfold_p_dict, p_ternary, p_or, p_or_tail,
    p_and, p_and_tail, p_not, p_comparison, p_comparison_tail, p_add, p_add_tail, p_mul, p_mul_tail,
    p_unary, p_postfix, p_chain, p_chain_tail, p_args, p_args_loop, p_primary, p_list, p_dict, bin,
    null_v,
};
use crate::expr_tokens::{toks_v, tokenize_expr, Op, Tok, TokV, Word};
use crate::text::chars_of;

verus! {

/// The expression parser's state: the tokens it reads. Each parsing method
/// takes the position to read from and gives the expression and the
/// position after it.
struct P {
    toks: Vec<Tok>,
}

impl P {
    spec fn tv(&self) -> Seq<TokV> {
        toks_v(self.toks@)
    }

    fn is_punct(&self, i: usize, c: char) -> (b: bool)
        ensures
            b == punct_at(self.tv(), i as int, c),
    {
        if i < self.toks.len() {
            match &self.toks[i] {
                Tok::Punct(p) => *p == c,
                _ => false,
            }
        } else {
            false
        }
    }

    fn is_word(&self, i: usize, w: Word) -> (b: bool)
        ensures
            b == word_at(self.tv(), i as int, w),
    {
        if i < self.toks.len() {
            match &self.toks[i] {
                Tok::Ident(_, w2) => *w2 == w,
                _ => false,
            }
        } else {
            false
        }
    }

    fn op_at(&self, i: usize) -> (r: Option<Op>)
        ensures
            r == op_at(self.tv(), i as int),
    {
        if i < self.toks.len() {
            match &self.toks[i] {
                Tok::Op(o) => Some(*o),
                _ => None,
            }
        } else {
            None
        }
    }

    fn parse_ternary(&self, i: usize) -> (r: (Expr, usize))
        requires
            i <= self.toks.len(),
        ensures
            expr_v(r.0) == p_ternary(self.tv(), i as int).0,
            r.1 == i + p_ternary(self.tv(), i as int).1,
            r.1 <= self.toks.len(),
        decreases rest_len(self.toks.len() as int, i as int), 16int,
    {
        proof {
            unfold_p_ternary(self.tv(), i as int);
        }
        let (c, p) = self.parse_or(i);
        if self.is_punct(p, '?') {
            let (a, q) = self.parse_ternary(p + 1);
            if !self.is_punct(q, ':') {
                proof {
                    assert(expr_v(Expr::Lit(Lit::Null)) == null_v());
                }
                (
                    Expr::Ternary {
                        cond: Box::new(c),
                        then_branch: Box::new(a),
                        els: Box::new(Expr::Lit(Lit::Null)),
                    },
                    q,
                )
            } else {
                let (b, r) = self.parse_ternary(q + 1);
                (Expr::Ternary { cond: Box::new(c), then_branch: Box::new(a), els: Box::new(b) }, r)
            }
        } else {
            (c, p)
        }
    }

    fn parse_or(&self, i: usize) -> (r: (Expr, usize))
        requires
            i <= self.toks.len(),
        ensures
            expr_v(r.0) == p_or(self.tv(), i as int).0,
            r.1 == i + p_or(self.tv(), i as int).1,
            r.1 <= self.toks.len(),
        decreases rest_len(self.toks.len() as int, i as int), 15int,
    {
        proof {
            unfold_p_or(self.tv(), i as int);
        }
        let (l, p) = self.parse_and(i);
        self.parse_or_tail(p, l)
    }

    fn parse_or_tail(&self, p: usize, lhs: Expr) -> (r: (Expr, usize))
        requires
            p <= self.toks.len(),
        ensures
            expr_v(r.0) == p_or_tail(self.tv(), p as int, expr_v(lhs)).0,
            r.1 == p + p_or_tail(self.tv(), p as int, expr_v(lhs)).1,
            r.1 <= self.toks.len(),
        decreases rest_len(self.toks.len() as int, p as int), 14int,
    {
        proof {
            unfold_p_or_tail(self.tv(), p as int, expr_v(lhs));
        }
        if self.is_word(p, Word::Or) {
            let (a, q) = self.parse_and(p + 1);
            self.parse_or_tail(q, Expr::Binary { op: BinOp::Or, lhs: Box::new(lhs), rhs: Box::new(a) })
        } else {
            (lhs, p)
        }
    }

    fn parse_and(&self, i: usize) -> (r: (Expr, usize))
        requires
            i <= self.toks.len(),
        ensures
            expr_v(r.0) == p_and(self.tv(), i as int).0,
            r.1 == i + p_and(self.tv(), i as int).1,
            r.1 <= self.toks.len(),
        decreases rest_len(self.toks.len() as int, i as int), 13int,
    {
        proof {
            unfold_p_and(self.tv(), i as int);
        }
        let (l, p) = self.parse_not(i);
        self.parse_and_tail(p, l)
    }

    fn parse_and_tail(&self, p: usize, lhs: Expr) -> (r: (Expr, usize))
        requires
            p <= self.toks.len(),
        ensures
            expr_v(r.0) == p_and_tail(self.tv(), p as int, expr_v(lhs)).0,
            r.1 == p + p_and_tail(self.tv(), p as int, expr_v(lhs)).1,
            r.1 <= self.toks.len(),
        decreases rest_len(self.toks.len() as int, p as int), 12int,
    {
        proof {
            unfold_p_and_tail(self.tv(), p as int, expr_v(lhs));
        }
        if self.is_word(p, Word::And) {
            let (a, q) = self.parse_not(p + 1);
            self.parse_and_tail(q, Expr::Binary { op: BinOp::And, lhs: Box::new(lhs), rhs: Box::new(a) })
        } else {
            (lhs, p)
        }
    }

    fn parse_not(&self, i: usize) -> (r: (Expr, usize))
        requires
            i <= self.toks.len(),
        ensures
            expr_v(r.0) == p_not(self.tv(), i as int).0,
            r.1 == i + p_not(self.tv(), i as int).1,
            r.1 <= self.toks.len(),
        decreases rest_len(self.toks.len() as int, i as int), 11int,
    {
        proof {
            unfold_p_not(self.tv(), i as int);
        }
        if self.is_word(i, Word::Not) && self.is_word(i + 1, Word::Equals) {
            self.parse_comparison(i)
        } else if self.is_word(i, Word::Not) {
            let (a, q) = self.parse_not(i + 1);
            (Expr::Not(Box::new(a)), q)
        } else {
            self.parse_comparison(i)
        }
    }

    fn parse_comparison(&self, i: usize) -> (r: (Expr, usize))
        requires
            i <= self.toks.len(),
        ensures
            expr_v(r.0) == p_comparison(self.tv(), i as int).0,
            r.1 == i + p_comparison(self.tv(), i as int).1,
            r.1 <= self.toks.len(),
        decreases rest_len(self.toks.len() as int, i as int), 10int,
    {
        proof {
            unfold_p_comparison(self.tv(), i as int);
        }
        let (l, p) = self.parse_add(i);
        self.parse_comparison_tail(p, l)
    }

    fn comparison_op(&self, p: usize) -> (r: Option<(BinOp, usize)>)
        ensures
            r matches Some((op, c)) ==> comparison_op(self.tv(), p as int) == Some((op, c as nat)),
            r is None ==> comparison_op(self.tv(), p as int) is None,
    {
        if p < self.toks.len() {
            match &self.toks[p] {
                Tok::Op(Op::Eq) => Some((BinOp::Eq, 1)),
                Tok::Op(Op::Ne) => Some((BinOp::Ne, 1)),
                Tok::Op(Op::Lt) => Some((BinOp::Lt, 1)),
                Tok::Op(Op::Gt) => Some((BinOp::Gt, 1)),
                Tok::Op(Op::Le) => Some((BinOp::Le, 1)),
                Tok::Op(Op::Ge) => Some((BinOp::Ge, 1)),
                Tok::Ident(_, Word::Equals) => Some((BinOp::Equals, 1)),
                Tok::Ident(_, Word::Not) => {
                    if self.is_word(p + 1, Word::Equals) {
                        Some((BinOp::NotEquals, 2))
                    } else {
                        None
                    }
                },
                _ => None,
            }
        } else {
            None
        }
    }

    fn parse_comparison_tail(&self, p: usize, lhs: Expr) -> (r: (Expr, usize))
        requires
            p <= self.toks.len(),
        ensures
            expr_v(r.0) == p_comparison_tail(self.tv(), p as int, expr_v(lhs)).0,
            r.1 == p + p_comparison_tail(self.tv(), p as int, expr_v(lhs)).1,
            r.1 <= self.toks.len(),
        decreases rest_len(self.toks.len() as int, p as int), 9int,
    {
        proof {
            unfold_p_comparison_tail(self.tv(), p as int, expr_v(lhs));
        }
        match self.comparison_op(p) {
            Some((op, c)) => {
                let (a, q) = self.parse_add(p + c);
                self.parse_comparison_tail(q, Expr::Binary { op, lhs: Box::new(lhs), rhs: Box::new(a) })
            },
            None => (lhs, p),
        }
    }

    fn parse_add(&self, i: usize) -> (r: (Expr, usize))
        requires
            i <= self.toks.len(),
        ensures
            expr_v(r.0) == p_add(self.tv(), i as int).0,
            r.1 == i + p_add(self.tv(), i as int).1,
            r.1 <= self.toks.len(),
        decreases rest_len(self.toks.len() as int, i as int), 8int,
    {
        proof {
            unfold_p_add(self.tv(), i as int);
        }
        let (l, p) = self.parse_mul(i);
        self.parse_add_tail(p, l)
    }

    fn parse_add_tail(&self, p: usize, lhs: Expr) -> (r: (Expr, usize))
        requires
            p <= self.toks.len(),
        ensures
            expr_v(r.0) == p_add_tail(self.tv(), p as int, expr_v(lhs)).0,
            r.1 == p + p_add_tail(self.tv(), p as int, expr_v(lhs)).1,
            r.1 <= self.toks.len(),
        decreases rest_len(self.toks.len() as int, p as int), 7int,
    {
        proof {
            unfold_p_add_tail(self.tv(), p as int, expr_v(lhs));
        }
        let op = match self.op_at(p) {
            Some(Op::Plus) => Some(BinOp::Add),
            Some(Op::Minus) => Some(BinOp::Sub),
            _ => None,
        };
        match op {
            Some(op) => {
                let (a, q) = self.parse_mul(p + 1);
                self.parse_add_tail(q, Expr::Binary { op, lhs: Box::new(lhs), rhs: Box::new(a) })
            },
            None => (lhs, p),
        }
    }

    fn parse_mul(&self, i: usize) -> (r: (Expr, usize))
        requires
            i <= self.toks.len(),
        ensures
            expr_v(r.0) == p_mul(self.tv(), i as int).0,
            r.1 == i + p_mul(self.tv(), i as int).1,
            r.1 <= self.toks.len(),
        decreases rest_len(self.toks.len() as int, i as int), 6int,
    {
        proof {
            unfold_p_mul(self.tv(), i as int);
        }
        let (l, p) = self.parse_unary(i);
        self.parse_mul_tail(p, l)
    }

    fn parse_mul_tail(&self, p: usize, lhs: Expr) -> (r: (Expr, usize))
        requires
            p <= self.toks.len(),
        ensures
            expr_v(r.0) == p_mul_tail(self.tv(), p as int, expr_v(lhs)).0,
            r.1 == p + p_mul_tail(self.tv(), p as int, expr_v(lhs)).1,
            r.1 <= self.toks.len(),
        decreases rest_len(self.toks.len() as int, p as int), 5int,
    {
        proof {
            unfold_p_mul_tail(self.tv(), p as int, expr_v(lhs));
        }
        let op = match self.op_at(p) {
            Some(Op::Star) => Some(BinOp::Mul),
            Some(Op::Slash) => Some(BinOp::Div),
            Some(Op::Percent) => Some(BinOp::Rem),
            _ => None,
        };
        match op {
            Some(op) => {
                let (a, q) = self.parse_unary(p + 1);
                self.parse_mul_tail(q, Expr::Binary { op, lhs: Box::new(lhs), rhs: Box::new(a) })
            },
            None => (lhs, p),
        }
    }

    fn parse_unary(&self, i: usize) -> (r: (Expr, usize))
        requires
            i <= self.toks.len(),
        ensures
            expr_v(r.0) == p_unary(self.tv(), i as int).0,
            r.1 == i + p_unary(self.tv(), i as int).1,
            r.1 <= self.toks.len(),
        decreases rest_len(self.toks.len() as int, i as int), 4int,
    {
        proof {
            unfold_p_unary(self.tv(), i as int);
        }
        let minus = match self.op_at(i) {
            Some(Op::Minus) => true,
            _ => false,
        };
        if minus {
            let (a, q) = self.parse_unary(i + 1);
            proof {
                assert(expr_v(Expr::Lit(Lit::Int(-1i64))) == ExprV::Lit(LitV::Int(-1i64)));
            }
            (
                Expr::Binary {
                    op: BinOp::Mul,
                    lhs: Box::new(Expr::Lit(Lit::Int(-1))),
                    rhs: Box::new(a),
                },
                q,
            )
        } else {
            self.parse_postfix(i)
        }
    }

    fn parse_postfix(&self, i: usize) -> (r: (Expr, usize))
        requires
            i <= self.toks.len(),
        ensures
            expr_v(r.0) == p_postfix(self.tv(), i as int).0,
            r.1 == i + p_postfix(self.tv(), i as int).1,
            r.1 <= self.toks.len(),
        decreases rest_len(self.toks.len() as int, i as int), 3int,
    {
        proof {
            unfold_p_postfix(self.tv(), i as int);
        }
        let (e, p) = self.parse_chain(i);
        if self.is_word(p, Word::Is) {
            let negated = self.is_word(p + 1, Word::Not);
            let q = if negated {
                p + 2
            } else {
                p + 1
            };
            let name = if q < self.toks.len() {
                match &self.toks[q] {
                    Tok::Ident(s, _) => s.clone(),
                    _ => String::new(),
                }
            } else {
                String::new()
            };
            let q2 = if q < self.toks.len() {
                q + 1
            } else {
                q
            };
            (Expr::Test { name, negated, expr: Box::new(e) }, q2)
        } else {
            (e, p)
        }
    }

    fn parse_chain(&self, i: usize) -> (r: (Expr, usize))
        requires
            i <= self.toks.len(),
        ensures
            expr_v(r.0) == p_chain(self.tv(), i as int).0,
            r.1 == i + p_chain(self.tv(), i as int).1,
            r.1 <= self.toks.len(),
        decreases rest_len(self.toks.len() as int, i as int), 2int,
    {
        proof {
            unfold_p_chain(self.tv(), i as int);
        }
        let (l, p) = self.parse_primary(i);
        self.parse_chain_tail(p, l)
    }

    fn ident_at(&self, i: usize) -> (r: Option<String>)
        ensures
            r matches Some(s) ==> tok_at(self.tv(), i as int) matches Some(TokV::Ident(n, _)) && n
                == s@,
            r is None ==> !(tok_at(self.tv(), i as int) matches Some(TokV::Ident(_, _))),
    {
        if i < self.toks.len() {
            match &self.toks[i] {
                Tok::Ident(s, _) => Some(s.clone()),
                _ => None,
            }
        } else {
            None
        }
    }

    fn parse_chain_tail(&self, p: usize, e: Expr) -> (r: (Expr, usize))
        requires
            p <= self.toks.len(),
        ensures
            expr_v(r.0) == p_chain_tail(self.tv(), p as int, expr_v(e)).0,
            r.1 == p + p_chain_tail(self.tv(), p as int, expr_v(e)).1,
            r.1 <= self.toks.len(),
        decreases rest_len(self.toks.len() as int, p as int), 1int,
    {
        proof {
            unfold_p_chain_tail(self.tv(), p as int, expr_v(e));
        }
        let n = self.toks.len();
        if self.is_punct(p, '.') {
            match self.ident_at(p + 1) {
                Some(name) => {
                    if self.is_punct(p + 2, '(') {
                        let (args, q) = self.parse_args(p + 3);
                        self.parse_chain_tail(q, Expr::Call { base: Box::new(e), name, args })
                    } else {
                        self.parse_chain_tail(p + 2, Expr::Member { base: Box::new(e), name })
                    }
                },
                None => {
                    let q = if p + 1 < n {
                        p + 2
                    } else {
                        p + 1
                    };
                    (e, q)
                },
            }
        } else if self.is_punct(p, '[') {
            let (index, q) = self.parse_ternary(p + 1);
            let q2 = if self.is_punct(q, ']') {
                q + 1
            } else {
                q
            };
            self.parse_chain_tail(q2, Expr::Index { base: Box::new(e), index: Box::new(index) })
        } else if self.is_punct(p, '|') {
            match self.ident_at(p + 1) {
                Some(name) => {
                    if self.is_punct(p + 2, '(') {
                        let (args, q) = self.parse_args(p + 3);
                        self.parse_chain_tail(q, Expr::Filter { base: Box::new(e), name, args })
                    } else {
                        let args: Vec<Expr> = Vec::new();
                        proof {
                            lemma_views_empty();
                        }
                        self.parse_chain_tail(p + 2, Expr::Filter { base: Box::new(e), name, args })
                    }
                },
                None => {
                    let q = if p + 1 < n {
                        p + 2
                    } else {
                        p + 1
                    };
                    (e, q)
                },
            }
        } else {
            (e, p)
        }
    }

    fn parse_args(&self, i: usize) -> (r: (Vec<Expr>, usize))
        requires
            i <= self.toks.len(),
        ensures
            exprs_v(r.0@) == p_args(self.tv(), i as int).0,
            r.1 == i + p_args(self.tv(), i as int).1,
            r.1 <= self.toks.len(),
        decreases rest_len(self.toks.len() as int, i as int), 18int,
    {
        proof {
            unfold_p_args(self.tv(), i as int);
        }
        let acc: Vec<Expr> = Vec::new();
        proof {
            lemma_views_empty();
        }
        if self.is_punct(i, ')') {
            (acc, i + 1)
        } else {
            self.parse_args_loop(i, acc)
        }
    }

    fn parse_args_loop(&self, i: usize, acc: Vec<Expr>) -> (r: (Vec<Expr>, usize))
        requires
            i <= self.toks.len(),
        ensures
            exprs_v(r.0@) == p_args_loop(self.tv(), i as int, exprs_v(acc@)).0,
            r.1 == i + p_args_loop(self.tv(), i as int, exprs_v(acc@)).1,
            r.1 <= self.toks.len(),
        decreases rest_len(self.toks.len() as int, i as int), 17int,
    {
        proof {
            unfold_p_args_loop(self.tv(), i as int, exprs_v(acc@));
        }
        let (a, p) = self.parse_ternary(i);
        let mut acc = acc;
        proof {
            lemma_exprs_v_push(acc@, a);
        }
        acc.push(a);
        if self.is_punct(p, ',') {
            self.parse_args_loop(p + 1, acc)
        } else if self.is_punct(p, ')') {
            (acc, p + 1)
        } else {
            (acc, p)
        }
    }

    fn parse_primary(&self, i: usize) -> (r: (Expr, usize))
        requires
            i <= self.toks.len(),
        ensures
            expr_v(r.0) == p_primary(self.tv(), i as int).0,
            r.1 == i + p_primary(self.tv(), i as int).1,
            r.1 <= self.toks.len(),
        decreases rest_len(self.toks.len() as int, i as int), 0int,
    {
        proof {
            unfold_p_primary(self.tv(), i as int);
        }
        if i >= self.toks.len() {
            return (Expr::Lit(Lit::Null), i);
        }
        match &self.toks[i] {
            Tok::Str(s) => (Expr::Lit(Lit::Str(s.clone())), i + 1),
            Tok::Int(v) => {
                let dotdot = match self.op_at(i + 1) {
                    Some(Op::DotDot) => true,
                    _ => false,
                };
                if dotdot {
                    let (end, q) = self.parse_ternary(i + 2);
                    let q2 = if self.is_punct(q, ']') {
                        q + 1
                    } else {
                        q
                    };
                    proof {
                        assert(expr_v(Expr::Lit(Lit::Int(*v))) == ExprV::Lit(LitV::Int(*v)));
                    }
                    (
                        Expr::Range {
                            start: Box::new(Expr::Lit(Lit::Int(*v))),
                            end: Box::new(end),
                        },
                        q2,
                    )
                } else {
                    (Expr::Lit(Lit::Int(*v)), i + 1)
                }
            },
            Tok::Float(s) => (Expr::Lit(Lit::Float(s.clone())), i + 1),
            Tok::Ident(s, w) => {
                let e = if *w == Word::True {
                    Expr::Lit(Lit::Bool(true))
                } else if *w == Word::False {
                    Expr::Lit(Lit::Bool(false))
                } else if *w == Word::Null {
                    Expr::Lit(Lit::Null)
                } else {
                    Expr::Var(s.clone())
                };
                (e, i + 1)
            },
            Tok::Punct(c) => {
                if *c == '(' {
                    let (e, q) = self.parse_ternary(i + 1);
                    let q2 = if self.is_punct(q, ')') {
                        q + 1
                    } else {
                        q
                    };
                    (e, q2)
                } else if *c == '[' {
                    let items: Vec<Expr> = Vec::new();
                    proof {
                        lemma_views_empty();
                    }
                    if self.is_punct(i + 1, ']') {
                        (Expr::ListLit(items), i + 2)
                    } else {
                        self.parse_list(i + 1, items)
                    }
                } else if *c == '{' {
                    let items: Vec<(String, Expr)> = Vec::new();
                    proof {
                        lemma_views_empty();
                    }
                    if self.is_punct(i + 1, '}') {
                        (Expr::DictLit(items), i + 2)
                    } else {
                        self.parse_dict(i + 1, items)
                    }
                } else {
                    (Expr::Lit(Lit::Null), i + 1)
                }
            },
            Tok::Op(_) => (Expr::Lit(Lit::Null), i + 1),
        }
    }

    fn parse_list(&self, j: usize, items: Vec<Expr>) -> (r: (Expr, usize))
        requires
            j <= self.toks.len(),
        ensures
            expr_v(r.0) == p_list(self.tv(), j as int, exprs_v(items@)).0,
            r.1 == j + p_list(self.tv(), j as int, exprs_v(items@)).1,
            r.1 <= self.toks.len(),
        decreases rest_len(self.toks.len() as int, j as int), 17int,
    {
        proof {
            unfold_p_list(self.tv(), j as int, exprs_v(items@));
        }
        let (a, q) = self.parse_ternary(j);
        let mut items = items;
        proof {
            lemma_exprs_v_push(items@, a);
        }
        items.push(a);
        if self.is_punct(q, ',') {
            if self.is_punct(q + 1, ']') {
                (Expr::ListLit(items), q + 2)
            } else {
                self.parse_list(q + 1, items)
            }
        } else {
            let q2 = if self.is_punct(q, ']') {
                q + 1
            } else {
                q
            };
            proof {
                lemma_exprs_v_index(items@);
            }
            let single_range = items.len() == 1 && match &items[0] {
                Expr::Range { .. } => true,
                _ => false,
            };
            if single_range {
                let e = items.pop().unwrap();
                (e, q2)
            } else {
                (Expr::ListLit(items), q2)
            }
        }
    }

    fn parse_dict(&self, j: usize, items: Vec<(String, Expr)>) -> (r: (Expr, usize))
        requires
            j <= self.toks.len(),
        ensures
            expr_v(r.0) == p_dict(self.tv(), j as int, dict_v(items@)).0,
            r.1 == j + p_dict(self.tv(), j as int, dict_v(items@)).1,
            r.1 <= self.toks.len(),
        decreases rest_len(self.toks.len() as int, j as int), 17int,
    {
        proof {
            unfold_p_dict(self.tv(), j as int, dict_v(items@));
        }
        let n = self.toks.len();
        let key = if j < n {
            match &self.toks[j] {
                Tok::Ident(s, _) => s.clone(),
                Tok::Str(s) => s.clone(),
                _ => String::new(),
            }
        } else {
            String::new()
        };
        let j1 = if j < n {
            j + 1
        } else {
            j
        };
        let (value, j2) = if self.is_punct(j1, ':') {
            self.parse_ternary(j1 + 1)
        } else {
            (Expr::Var(key.clone()), j1)
        };
        let mut items = items;
        proof {
            lemma_dict_v_push(items@, key, value);
        }
        items.push((key, value));
        if self.is_punct(j2, ',') {
            if self.is_punct(j2 + 1, '}') {
                (Expr::DictLit(items), j2 + 2)
            } else {
                self.parse_dict(j2 + 1, items)
            }
        } else if self.is_punct(j2, '}') {
            (Expr::DictLit(items), j2 + 1)
        } else {
            (Expr::DictLit(items), j2)
        }
    }
}

/// Parses the expression in `cs`.
pub fn parse_expr_chars(cs: &Vec<char>) -> (e: Expr)
    ensures
        expr_v(e) == spec_parse_expr(cs@),
{
    let p = P { toks: tokenize_expr(cs) };
    let (e, _) = p.parse_ternary(0);
    e
}

/// Parses an expression source (the inside of `{{ ... }}` or the argument
/// of a tag).
pub fn parse_expr(src: &str) -> (e: Expr)
    ensures
        expr_v(e) == spec_parse_expr(src@),
{
    let cs = chars_of(src);
    parse_expr_chars(&cs)
}

} // verus!
