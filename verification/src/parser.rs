//! The statement parser: reads the lexer's tokens into the statement tree,
//! and each `{{ ... }}` or tag payload into an expression, as
//! `stmt_grammar` and `expr_grammar` say.
use vstd::prelude::*;
pub use crate::ast::{BinOp, Expr, Lit, Stmt};
pub use crate::expr_parser::parse_expr;
use crate::ast::{
    ExprV, LitV, StmtV, expr_v, stmts_v, stmt_v, branches_v, lemma_stmts_v_push,
    lemma_branches_v_push, lemma_views_empty,
};
use crate::expr_grammar::{rest_len, spec_parse_expr};
use crate::expr_parser::parse_expr_chars;
use crate::expr_tokens::spells;
use crate::lexer::{Token, TokenV, tokens_v};
use crate::stmt_grammar::{
    TagKw, Closers, closes, lead_end, trail_end, trim, word_end, first_word, after_word, tag_kind,
    cur_tag, occurs_at, find_seq, in_sep, for_parts, set_parts, for_iterable, autoescape_mode,
    closing, opt_cons, s_until, s_stmt, s_if_tail, spec_parse_stmts, unfold_s_until, unfold_s_stmt,
    unfold_s_if_tail,
};
use crate::text::{chars_of, is_whitespace, slice_of, string_of, has_prefix_at};

verus! {

/// `cs` without leading and trailing whitespace.
fn trim_chars(cs: &Vec<char>) -> (r: Vec<char>)
    ensures
        r@ == trim(cs@),
{
    let n = cs.len();
    let mut a: usize = 0;
    while a < n && is_whitespace(cs[a])
        invariant
            n == cs.len(),
            a <= n,
            lead_end(cs@, a as int) == lead_end(cs@, 0),
        decreases n - a,
    {
        a = a + 1;
    }
    let mut b: usize = n;
    while b > 0 && is_whitespace(cs[b - 1])
        invariant
            n == cs.len(),
            b <= n,
            trail_end(cs@, b as int) == trail_end(cs@, n as int),
        decreases b,
    {
        b = b - 1;
    }
    if a < b {
        slice_of(cs, a, b)
    } else {
        Vec::new()
    }
}

/// The end of the first word of `cs`.
fn word_end_of(cs: &Vec<char>) -> (r: usize)
    ensures
        r == word_end(cs@, 0),
        r <= cs.len(),
{
    let n = cs.len();
    let mut k: usize = 0;
    while k < n && !is_whitespace(cs[k])
        invariant
            n == cs.len(),
            k <= n,
            word_end(cs@, k as int) == word_end(cs@, 0),
        decreases n - k,
    {
        k = k + 1;
    }
    k
}

/// The keyword that a tag's first word spells.
fn tag_kind_of(w: &Vec<char>) -> (r: TagKw)
    ensures
        r == tag_kind(w@),
{
    if spells(w, &['i', 'f']) {
        TagKw::If
    } else if spells(w, &['e', 'l', 's', 'e', 'i', 'f']) {
        TagKw::Elseif
    } else if spells(w, &['e', 'l', 's', 'e']) {
        TagKw::Else
    } else if spells(w, &['e', 'n', 'd', 'i', 'f']) {
        TagKw::Endif
    } else if spells(w, &['f', 'o', 'r']) {
        TagKw::For
    } else if spells(w, &['e', 'n', 'd', 'f', 'o', 'r']) {
        TagKw::Endfor
    } else if spells(w, &['s', 'e', 't']) {
        TagKw::SetVar
    } else if spells(w, &['i', 'n', 'c', 'l', 'u', 'd', 'e']) {
        TagKw::Include
    } else if spells(w, &['a', 'u', 't', 'o', 'e', 's', 'c', 'a', 'p', 'e']) {
        TagKw::Autoescape
    } else if spells(w, &['e', 'n', 'd', 'a', 'u', 't', 'o', 'e', 's', 'c', 'a', 'p', 'e']) {
        TagKw::Endautoescape
    } else {
        TagKw::Other
    }
}

/// The first position where `pat` occurs in `cs`.
fn find_chars(cs: &Vec<char>, pat: &Vec<char>) -> (r: Option<usize>)
    ensures
        r matches Some(p) ==> find_seq(cs@, pat@, 0) == Some(p as int) && occurs_at(
            cs@,
            pat@,
            p as int,
        ),
        r is None ==> find_seq(cs@, pat@, 0) is None,
{
    let n = cs.len();
    let mut k: usize = 0;
    while k <= n
        invariant
            n == cs.len(),
            find_seq(cs@, pat@, k as int) == find_seq(cs@, pat@, 0),
        decreases n + 1 - k,
    {
        if pat.len() > n - k {
            return None;
        }
        if has_prefix_at(cs, k, pat) {
            return Some(k);
        }
        if k == n {
            return None;
        }
        k = k + 1;
    }
    None
}

/// Whether the tag keyword `kw` ends a block of kind `c`.
fn closes_block(c: Closers, kw: TagKw) -> (r: bool)
    ensures
        r == closes(c, kw),
{
    match c {
        Closers::Top => false,
        Closers::IfBranch => kw == TagKw::Else || kw == TagKw::Elseif || kw == TagKw::Endif,
        Closers::ElseBody => kw == TagKw::Endif,
        Closers::ForBody => kw == TagKw::Endfor,
        Closers::AutoescapeBody => kw == TagKw::Endautoescape,
    }
}

pub open spec fn opt_stmt_v(o: Option<Stmt>) -> Option<StmtV> {
    match o {
        Some(s) => Some(stmt_v(s)),
        None => None,
    }
}

/// The statement parser's state: the tokens it reads. Each method takes
/// the position to read from and gives the position after what it read.
struct SP<'t, 'a> {
    toks: &'t [Token<'a>],
}

impl<'t, 'a> SP<'t, 'a> {
    spec fn tv(&self) -> Seq<TokenV> {
        tokens_v(self.toks@)
    }

    /// The keyword and the trimmed text of the tag at `i`.
    fn current_tag(&self, i: usize) -> (r: Option<(TagKw, Vec<char>)>)
        ensures
            r matches Some((k, f)) ==> cur_tag(self.tv(), i as int) == Some((k, f@)),
            r is None ==> cur_tag(self.tv(), i as int) is None,
    {
        if i >= self.toks.len() {
            return None;
        }
        match &self.toks[i] {
            Token::Tag(s) => {
                let cs = chars_of(s);
                let full = trim_chars(&cs);
                let we = word_end_of(&full);
                let w = slice_of(&full, 0, we);
                Some((tag_kind_of(&w), full))
            },
            _ => None,
        }
    }

    /// Whether the tag at `p` is the closing tag `kw`.
    fn is_closing(&self, p: usize, kw: TagKw) -> (b: bool)
        ensures
            b == (closing(self.tv(), p as int, kw) == 1),
    {
        match self.current_tag(p) {
            Some((k, _)) => k == kw,
            None => false,
        }
    }

    fn stmts_until(&self, i: usize, c: Closers) -> (r: (Vec<Stmt>, usize))
        requires
            i <= self.toks.len(),
        ensures
            stmts_v(r.0@) == s_until(self.tv(), i as int, c).0,
            r.1 == i + s_until(self.tv(), i as int, c).1,
            r.1 <= self.toks.len(),
        decreases rest_len(self.toks.len() as int, i as int), 1int,
    {
        let mut out: Vec<Stmt> = Vec::new();
        let mut k: usize = i;
        proof {
            lemma_views_empty();
        }
        loop
            invariant
                i <= k <= self.toks.len(),
                stmts_v(out@) + s_until(self.tv(), k as int, c).0 == s_until(
                    self.tv(),
                    i as int,
                    c,
                ).0,
                k + s_until(self.tv(), k as int, c).1 == i + s_until(self.tv(), i as int, c).1,
            decreases self.toks.len() - k,
        {
            proof {
                unfold_s_until(self.tv(), k as int, c);
            }
            if k >= self.toks.len() {
                proof {
                    assert(stmts_v(out@) + Seq::<StmtV>::empty() =~= stmts_v(out@));
                }
                return (out, k);
            }
            let closed = match self.current_tag(k) {
                Some((kw, _)) => closes_block(c, kw),
                None => false,
            };
            if closed {
                proof {
                    assert(stmts_v(out@) + Seq::<StmtV>::empty() =~= stmts_v(out@));
                }
                return (out, k);
            }
            let ghost before = stmts_v(out@);
            let (s, p) = self.stmt(k);
            match s {
                Some(st) => {
                    proof {
                        lemma_stmts_v_push(out@, st);
                    }
                    out.push(st);
                },
                None => {},
            }
            proof {
                let rest = s_until(self.tv(), p as int, c).0;
                assert(stmts_v(out@) + rest =~= before + opt_cons(
                    s_stmt(self.tv(), k as int).0,
                    rest,
                ));
            }
            k = p;
        }
    }

    fn stmt(&self, i: usize) -> (r: (Option<Stmt>, usize))
        requires
            i < self.toks.len(),
        ensures
            opt_stmt_v(r.0) == s_stmt(self.tv(), i as int).0,
            r.1 == i + 1 + s_stmt(self.tv(), i as int).1,
            r.1 <= self.toks.len(),
        decreases rest_len(self.toks.len() as int, i as int), 0int,
    {
        proof {
            unfold_s_stmt(self.tv(), i as int);
        }
        match &self.toks[i] {
            Token::Text(t) => (Some(Stmt::Text((*t).to_owned())), i + 1),
            Token::Expr(e) => (Some(Stmt::Expr(Box::new(parse_expr(e)))), i + 1),
            Token::Tag(s) => {
                let cs = chars_of(s);
                let full = trim_chars(&cs);
                let we = word_end_of(&full);
                let w = slice_of(&full, 0, we);
                let kw = tag_kind_of(&w);
                let rest = slice_of(&full, we, full.len());
                proof {
                    assert(rest@ =~= after_word(full@));
                }
                if kw == TagKw::If {
                    let cond = parse_expr_chars(&rest);
                    let (body, p) = self.stmts_until(i + 1, Closers::IfBranch);
                    let mut branches: Vec<(Box<Expr>, Vec<Stmt>)> = Vec::new();
                    proof {
                        lemma_views_empty();
                        lemma_branches_v_push(branches@, Box::new(cond), body);
                    }
                    branches.push((Box::new(cond), body));
                    let (bs, els, q) = self.if_tail(p, branches);
                    (Some(Stmt::If(bs, els)), q)
                } else if kw == TagKw::For {
                    let sep: Vec<char> = vec![' ', 'i', 'n', ' '];
                    proof {
                        assert(sep@ =~= in_sep());
                    }
                    let (target_chars, iter_src) = match find_chars(&rest, &sep) {
                        Some(p) => {
                            let before = slice_of(&rest, 0, p);
                            proof {
                                assert(rest@.skip(p + 4) =~= rest@.subrange(p + 4, rest@.len() as int));
                            }
                            (trim_chars(&before), slice_of(&rest, p + 4, rest.len()))
                        },
                        None => {
                            let empty: Vec<char> = Vec::new();
                            proof {
                                assert(empty@ =~= Seq::<char>::empty());
                            }
                            (trim_chars(&rest), empty)
                        },
                    };
                    let target = string_of(&target_chars, 0, target_chars.len());
                    proof {
                        assert(target_chars@.subrange(0, target_chars@.len() as int) =~= target_chars@);
                    }
                    let (body, p) = self.stmts_until(i + 1, Closers::ForBody);
                    let q = if self.is_closing(p, TagKw::Endfor) {
                        p + 1
                    } else {
                        p
                    };
                    let iterable = if trim_chars(&iter_src).len() == 0 {
                        Expr::Lit(Lit::Null)
                    } else {
                        parse_expr_chars(&iter_src)
                    };
                    (Some(Stmt::For { target, iterable: Box::new(iterable), body }), q)
                } else if kw == TagKw::SetVar {
                    let eq: Vec<char> = vec!['='];
                    proof {
                        assert(eq@ =~= seq!['=']);
                    }
                    let (name_chars, value_src) = match find_chars(&rest, &eq) {
                        Some(p) => {
                            let before = slice_of(&rest, 0, p);
                            proof {
                                assert(rest@.skip(p + 1) =~= rest@.subrange(p + 1, rest@.len() as int));
                            }
                            (trim_chars(&before), slice_of(&rest, p + 1, rest.len()))
                        },
                        None => {
                            let e1: Vec<char> = Vec::new();
                            let e2: Vec<char> = Vec::new();
                            proof {
                                assert(e1@ =~= Seq::<char>::empty());
                                assert(e2@ =~= Seq::<char>::empty());
                            }
                            (e1, e2)
                        },
                    };
                    let name = string_of(&name_chars, 0, name_chars.len());
                    proof {
                        assert(name_chars@.subrange(0, name_chars@.len() as int) =~= name_chars@);
                    }
                    let value = parse_expr_chars(&value_src);
                    (Some(Stmt::SetVar { name, value: Box::new(value) }), i + 1)
                } else if kw == TagKw::Include {
                    (Some(Stmt::Include(Box::new(parse_expr_chars(&rest)))), i + 1)
                } else if kw == TagKw::Autoescape {
                    let (body, p) = self.stmts_until(i + 1, Closers::AutoescapeBody);
                    let q = if self.is_closing(p, TagKw::Endautoescape) {
                        p + 1
                    } else {
                        p
                    };
                    let mode = if trim_chars(&rest).len() == 0 {
                        let html = "html".to_owned();
                        proof {
                            reveal_strlit("html");
                            assert(html@ =~= seq!['h', 't', 'm', 'l']);
                        }
                        Expr::Lit(Lit::Str(html))
                    } else {
                        parse_expr_chars(&rest)
                    };
                    (Some(Stmt::Autoescape(Box::new(mode), body)), q)
                } else {
                    (None, i + 1)
                }
            },
        }
    }

    fn if_tail(&self, p: usize, branches: Vec<(Box<Expr>, Vec<Stmt>)>) -> (r: (
        Vec<(Box<Expr>, Vec<Stmt>)>,
        Vec<Stmt>,
        usize,
    ))
        requires
            p <= self.toks.len(),
        ensures
            branches_v(r.0@) == s_if_tail(self.tv(), p as int, branches_v(branches@)).0,
            stmts_v(r.1@) == s_if_tail(self.tv(), p as int, branches_v(branches@)).1,
            r.2 == p + s_if_tail(self.tv(), p as int, branches_v(branches@)).2,
            r.2 <= self.toks.len(),
        decreases rest_len(self.toks.len() as int, p as int), 0int,
    {
        proof {
            unfold_s_if_tail(self.tv(), p as int, branches_v(branches@));
            lemma_views_empty();
        }
        match self.current_tag(p) {
            None => (branches, Vec::new(), p),
            Some((kw, full)) => {
                if kw == TagKw::Elseif {
                    let we = word_end_of(&full);
                    let rest = slice_of(&full, we, full.len());
                    proof {
                        assert(rest@ =~= after_word(full@));
                    }
                    let cond = parse_expr_chars(&rest);
                    let (b, q) = self.stmts_until(p + 1, Closers::IfBranch);
                    let mut branches = branches;
                    proof {
                        lemma_branches_v_push(branches@, Box::new(cond), b);
                    }
                    branches.push((Box::new(cond), b));
                    self.if_tail(q, branches)
                } else if kw == TagKw::Else {
                    let (e, q) = self.stmts_until(p + 1, Closers::ElseBody);
                    let q2 = if self.is_closing(q, TagKw::Endif) {
                        q + 1
                    } else {
                        q
                    };
                    (branches, e, q2)
                } else if kw == TagKw::Endif {
                    (branches, Vec::new(), p + 1)
                } else {
                    (branches, Vec::new(), p)
                }
            },
        }
    }
}

/// Parses template tokens into statements.
pub fn parse_stmts(tokens: &[Token]) -> (stmts: Vec<Stmt>)
    ensures
        stmts_v(stmts@) == spec_parse_stmts(tokens_v(tokens@)),
{
    let sp = SP { toks: tokens };
    let (stmts, _) = sp.stmts_until(0, Closers::Top);
    stmts
}

} // verus!

verus! {

/// Whether no token is a tag.
pub open spec fn no_tags(t: Seq<TokenV>) -> bool {
    forall|j: int| 0 <= j < t.len() ==> !(#[trigger] t[j] is Tag)
}

/// The statement that a text or output token stands for.
pub open spec fn plain_stmt(tok: TokenV) -> StmtV {
    match tok {
        TokenV::Text(s) => StmtV::Text(s),
        TokenV::Expr(s) => StmtV::Expr(spec_parse_expr(s)),
        TokenV::Tag(s) => StmtV::Text(s),
    }
}

proof fn lemma_plain_stmts(t: Seq<TokenV>, i: int)
    requires
        no_tags(t),
        0 <= i <= t.len(),
    ensures
        s_until(t, i, Closers::Top).0 == t.subrange(i, t.len() as int).map_values(
            |x: TokenV| plain_stmt(x),
        ),
    decreases t.len() - i,
{
    unfold_s_until(t, i, Closers::Top);
    if i < t.len() {
        unfold_s_stmt(t, i);
        assert(!(t[i] is Tag));
        lemma_plain_stmts(t, i + 1);
        assert(seq![plain_stmt(t[i])] + t.subrange(i + 1, t.len() as int).map_values(
            |x: TokenV| plain_stmt(x),
        ) =~= t.subrange(i, t.len() as int).map_values(|x: TokenV| plain_stmt(x)));
    } else {
        assert(t.subrange(i, t.len() as int).map_values(|x: TokenV| plain_stmt(x)) =~= Seq::<
            StmtV,
        >::empty());
    }
}

/// Without tags, every text token becomes a text statement and every
/// `{{ ... }}` an output statement, one each and in order.
pub proof fn law_untagged_tokens_map_one_to_one(t: Seq<TokenV>)
    requires
        no_tags(t),
    ensures
        spec_parse_stmts(t) == t.map_values(|x: TokenV| plain_stmt(x)),
{
    lemma_plain_stmts(t, 0);
    assert(t.subrange(0, t.len() as int) =~= t);
}

} // verus!
