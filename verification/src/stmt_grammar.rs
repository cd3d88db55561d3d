//! The grammar of template statements: how the lexer's tokens read as
//! text, `{{ ... }}` output, and the tags `if`/`elseif`/`else`/`endif`,
//! `for ... in ...`/`endfor`, `set`, `include` and
//! `autoescape`/`endautoescape`. An unknown tag, and a closing tag where
//! none is expected, is dropped.
use vstd::prelude::*;
use crate::ast::{ExprV, LitV, StmtV};
use crate::expr_grammar::rest_len;
use crate::expr_grammar::spec_parse_expr;
use crate::lexer::TokenV;
use crate::text::white_space;

verus! {

/// The keyword of a tag.
#[derive(Debug, Clone, Copy, PartialEq, Eq, Structural)]
pub enum TagKw {
    If,
    Elseif,
    Else,
    Endif,
    For,
    Endfor,
    SetVar,
    Include,
    Autoescape,
    Endautoescape,
    Other,
}

/// The tags that end a block: a block of statements is read up to one of
/// them.
#[derive(Debug, Clone, Copy, PartialEq, Eq, Structural)]
pub enum Closers {
    Top,
    IfBranch,
    ElseBody,
    ForBody,
    AutoescapeBody,
}

/// Whether the tag keyword `kw` ends a block of kind `c`.
pub open spec fn closes(c: Closers, kw: TagKw) -> bool {
    match c {
        Closers::Top => false,
        Closers::IfBranch => kw == TagKw::Else || kw == TagKw::Elseif || kw == TagKw::Endif,
        Closers::ElseBody => kw == TagKw::Endif,
        Closers::ForBody => kw == TagKw::Endfor,
        Closers::AutoescapeBody => kw == TagKw::Endautoescape,
    }
}

/// The first position at or after `i` that is not whitespace.
pub open spec fn lead_end(cs: Seq<char>, i: int) -> int
    decreases cs.len() - i,
{
    if 0 <= i < cs.len() && white_space(cs[i]) {
        lead_end(cs, i + 1)
    } else {
        i
    }
}

/// The end of `cs[..j]` without its trailing whitespace.
pub open spec fn trail_end(cs: Seq<char>, j: int) -> int
    decreases j,
{
    if 0 < j <= cs.len() && white_space(cs[j - 1]) {
        trail_end(cs, j - 1)
    } else {
        j
    }
}

/// `cs` without leading and trailing whitespace.
pub open spec fn trim(cs: Seq<char>) -> Seq<char> {
    let a = lead_end(cs, 0);
    let b = trail_end(cs, cs.len() as int);
    if a < b {
        cs.subrange(a, b)
    } else {
        Seq::empty()
    }
}

/// The first position at or after `i` that is whitespace, or the end.
pub open spec fn word_end(cs: Seq<char>, i: int) -> int
    decreases cs.len() - i,
{
    if 0 <= i < cs.len() && !white_space(cs[i]) {
        word_end(cs, i + 1)
    } else {
        i
    }
}

/// The first word of a trimmed tag: the characters before the first
/// whitespace.
pub open spec fn first_word(cs: Seq<char>) -> Seq<char> {
    cs.subrange(0, word_end(cs, 0))
}

/// What follows the first word of a trimmed tag.
pub open spec fn after_word(cs: Seq<char>) -> Seq<char> {
    cs.skip(word_end(cs, 0))
}

/// The keyword that a tag's first word spells.
pub open spec fn tag_kind(w: Seq<char>) -> TagKw {
    if w == seq!['i', 'f'] {
        TagKw::If
    } else if w == seq!['e', 'l', 's', 'e', 'i', 'f'] {
        TagKw::Elseif
    } else if w == seq!['e', 'l', 's', 'e'] {
        TagKw::Else
    } else if w == seq!['e', 'n', 'd', 'i', 'f'] {
        TagKw::Endif
    } else if w == seq!['f', 'o', 'r'] {
        TagKw::For
    } else if w == seq!['e', 'n', 'd', 'f', 'o', 'r'] {
        TagKw::Endfor
    } else if w == seq!['s', 'e', 't'] {
        TagKw::SetVar
    } else if w == seq!['i', 'n', 'c', 'l', 'u', 'd', 'e'] {
        TagKw::Include
    } else if w == seq!['a', 'u', 't', 'o', 'e', 's', 'c', 'a', 'p', 'e'] {
        TagKw::Autoescape
    } else if w == seq!['e', 'n', 'd', 'a', 'u', 't', 'o', 'e', 's', 'c', 'a', 'p', 'e'] {
        TagKw::Endautoescape
    } else {
        TagKw::Other
    }
}

/// The keyword and the trimmed text of the tag at position `i`, if the
/// token there is a tag.
pub open spec fn cur_tag(t: Seq<TokenV>, i: int) -> Option<(TagKw, Seq<char>)> {
    if 0 <= i < t.len() {
        match t[i] {
            TokenV::Tag(s) => Some((tag_kind(first_word(trim(s))), trim(s))),
            _ => None,
        }
    } else {
        None
    }
}

/// Whether `pat` occurs in `cs` at position `k`.
pub open spec fn occurs_at(cs: Seq<char>, pat: Seq<char>, k: int) -> bool {
    0 <= k && k + pat.len() <= cs.len() && cs.subrange(k, k + pat.len()) == pat
}

/// The first position at or after `k` where `pat` occurs in `cs`.
pub open spec fn find_seq(cs: Seq<char>, pat: Seq<char>, k: int) -> Option<int>
    decreases cs.len() - k,
{
    if k < 0 || k + pat.len() > cs.len() {
        None
    } else if occurs_at(cs, pat, k) {
        Some(k)
    } else if k >= cs.len() {
        None
    } else {
        find_seq(cs, pat, k + 1)
    }
}

/// ` in `, which parts the target of a `for` tag from its iterable.
pub open spec fn in_sep() -> Seq<char> {
    seq![' ', 'i', 'n', ' ']
}

/// The target and the iterable source of a `for` tag's text after `for`.
pub open spec fn for_parts(rest: Seq<char>) -> (Seq<char>, Seq<char>) {
    match find_seq(rest, in_sep(), 0) {
        Some(p) => (trim(rest.subrange(0, p)), rest.skip(p + 4)),
        None => (trim(rest), Seq::empty()),
    }
}

/// The name and the value source of a `set` tag's text after `set`.
pub open spec fn set_parts(rest: Seq<char>) -> (Seq<char>, Seq<char>) {
    match find_seq(rest, seq!['='], 0) {
        Some(p) => (trim(rest.subrange(0, p)), rest.skip(p + 1)),
        None => (Seq::empty(), Seq::empty()),
    }
}

/// The iterable of a `for` tag: null when its source is blank.
pub open spec fn for_iterable(src: Seq<char>) -> ExprV {
    if trim(src).len() == 0 {
        ExprV::Lit(LitV::Null)
    } else {
        spec_parse_expr(src)
    }
}

/// The escaping mode of an `autoescape` tag: `html` when none is given.
pub open spec fn autoescape_mode(rest: Seq<char>) -> ExprV {
    if trim(rest).len() == 0 {
        ExprV::Lit(LitV::Str(seq!['h', 't', 'm', 'l']))
    } else {
        spec_parse_expr(rest)
    }
}

/// How many tokens close a block that ends at `p`: one when the tag there
/// is the closing tag `kw`.
pub open spec fn closing(t: Seq<TokenV>, p: int, kw: TagKw) -> nat {
    match cur_tag(t, p) {
        Some((k, _)) => if k == kw {
            1
        } else {
            0
        },
        None => 0,
    }
}

pub open spec fn opt_cons(o: Option<StmtV>, rest: Seq<StmtV>) -> Seq<StmtV> {
    match o {
        Some(s) => seq![s] + rest,
        None => rest,
    }
}

// Reading a block gives its statements and the number of tokens read; reading
// one statement gives the statement (none for a dropped tag) and the number
// of tokens read after its first token.

/// The statements from position `i` up to a tag that closes a block of kind
/// `c`, or the end.
pub closed spec fn s_until(t: Seq<TokenV>, i: int, c: Closers) -> (Seq<StmtV>, nat)
    decreases rest_len(t.len() as int, i), 1int,
{
    if i < 0 || i >= t.len() {
        (Seq::empty(), 0)
    } else if cur_tag(t, i) matches Some((kw, _)) && closes(c, kw) {
        (Seq::empty(), 0)
    } else {
        let s = s_stmt(t, i);
        let r = s_until(t, i + 1 + s.1, c);
        (opt_cons(s.0, r.0), 1 + s.1 + r.1)
    }
}

/// The statement that starts at position `i`.
pub closed spec fn s_stmt(t: Seq<TokenV>, i: int) -> (Option<StmtV>, nat)
    decreases rest_len(t.len() as int, i), 0int,
{
    if i < 0 || i >= t.len() {
        (None, 0)
    } else {
        match t[i] {
            TokenV::Text(s) => (Some(StmtV::Text(s)), 0),
            TokenV::Expr(s) => (Some(StmtV::Expr(spec_parse_expr(s))), 0),
            TokenV::Tag(s) => {
                let full = trim(s);
                let kw = tag_kind(first_word(full));
                let rest = after_word(full);
                if kw == TagKw::If {
                    let cond = spec_parse_expr(rest);
                    let body = s_until(t, i + 1, Closers::IfBranch);
                    let r = s_if_tail(t, i + 1 + body.1, seq![(cond, body.0)]);
                    (Some(StmtV::If(r.0, r.1)), body.1 + r.2)
                } else if kw == TagKw::For {
                    let parts = for_parts(rest);
                    let body = s_until(t, i + 1, Closers::ForBody);
                    let close = closing(t, i + 1 + body.1, TagKw::Endfor);
                    (
                        Some(
                            StmtV::For {
                                target: parts.0,
                                iterable: for_iterable(parts.1),
                                body: body.0,
                            },
                        ),
                        body.1 + close,
                    )
                } else if kw == TagKw::SetVar {
                    let parts = set_parts(rest);
                    (Some(StmtV::SetVar { name: parts.0, value: spec_parse_expr(parts.1) }), 0)
                } else if kw == TagKw::Include {
                    (Some(StmtV::Include(spec_parse_expr(rest))), 0)
                } else if kw == TagKw::Autoescape {
                    let body = s_until(t, i + 1, Closers::AutoescapeBody);
                    let close = closing(t, i + 1 + body.1, TagKw::Endautoescape);
                    (Some(StmtV::Autoescape(autoescape_mode(rest), body.0)), body.1 + close)
                } else {
                    (None, 0)
                }
            },
        }
    }
}

/// The `elseif`, `else` and `endif` tags of an `if` from position `p` on:
/// the branches, the `else` body and the number of tokens read, the
/// closing `endif` included.
pub closed spec fn s_if_tail(t: Seq<TokenV>, p: int, branches: Seq<(ExprV, Seq<StmtV>)>) -> (
    Seq<(ExprV, Seq<StmtV>)>,
    Seq<StmtV>,
    nat,
)
    decreases rest_len(t.len() as int, p), 0int,
{
    match cur_tag(t, p) {
        None => (branches, Seq::empty(), 0),
        Some((kw, full)) => if kw == TagKw::Elseif {
            let cond = spec_parse_expr(after_word(full));
            let b = s_until(t, p + 1, Closers::IfBranch);
            let r = s_if_tail(t, p + 1 + b.1, branches.push((cond, b.0)));
            (r.0, r.1, 1 + b.1 + r.2)
        } else if kw == TagKw::Else {
            let e = s_until(t, p + 1, Closers::ElseBody);
            (branches, e.0, 1 + e.1 + closing(t, p + 1 + e.1, TagKw::Endif))
        } else if kw == TagKw::Endif {
            (branches, Seq::empty(), 1)
        } else {
            (branches, Seq::empty(), 0)
        },
    }
}

/// The statements that a template's tokens read as.
pub open spec fn spec_parse_stmts(t: Seq<TokenV>) -> Seq<StmtV> {
    s_until(t, 0, Closers::Top).0
}

/// `s_until` unfolded once.
pub proof fn unfold_s_until(t: Seq<TokenV>, i: int, c: Closers)
    ensures
        s_until(t, i, c) == ({
            if i < 0 || i >= t.len() {
                (Seq::empty(), 0)
            } else if cur_tag(t, i) matches Some((kw, _)) && closes(c, kw) {
                (Seq::empty(), 0)
            } else {
                let s = s_stmt(t, i);
                let r = s_until(t, i + 1 + s.1, c);
                (opt_cons(s.0, r.0), 1 + s.1 + r.1)
            }
        }),
{
}

/// `s_stmt` unfolded once.
pub proof fn unfold_s_stmt(t: Seq<TokenV>, i: int)
    ensures
        s_stmt(t, i) == ({
            if i < 0 || i >= t.len() {
                (None, 0)
            } else {
                match t[i] {
                    TokenV::Text(s) => (Some(StmtV::Text(s)), 0),
                    TokenV::Expr(s) => (Some(StmtV::Expr(spec_parse_expr(s))), 0),
                    TokenV::Tag(s) => {
                        let full = trim(s);
                        let kw = tag_kind(first_word(full));
                        let rest = after_word(full);
                        if kw == TagKw::If {
                            let cond = spec_parse_expr(rest);
                            let body = s_until(t, i + 1, Closers::IfBranch);
                            let r = s_if_tail(t, i + 1 + body.1, seq![(cond, body.0)]);
                            (Some(StmtV::If(r.0, r.1)), body.1 + r.2)
                        } else if kw == TagKw::For {
                            let parts = for_parts(rest);
                            let body = s_until(t, i + 1, Closers::ForBody);
                            let close = closing(t, i + 1 + body.1, TagKw::Endfor);
                            (
                                Some(
                                    StmtV::For {
                                        target: parts.0,
                                        iterable: for_iterable(parts.1),
                                        body: body.0,
                                    },
                                ),
                                body.1 + close,
                            )
                        } else if kw == TagKw::SetVar {
                            let parts = set_parts(rest);
                            (Some(StmtV::SetVar { name: parts.0, value: spec_parse_expr(parts.1) }), 0)
                        } else if kw == TagKw::Include {
                            (Some(StmtV::Include(spec_parse_expr(rest))), 0)
                        } else if kw == TagKw::Autoescape {
                            let body = s_until(t, i + 1, Closers::AutoescapeBody);
                            let close = closing(t, i + 1 + body.1, TagKw::Endautoescape);
                            (Some(StmtV::Autoescape(autoescape_mode(rest), body.0)), body.1 + close)
                        } else {
                            (None, 0)
                        }
                    },
                }
            }
        }),
{
}

/// `s_if_tail` unfolded once.
pub proof fn unfold_s_if_tail(t: Seq<TokenV>, p: int, branches: Seq<(ExprV, Seq<StmtV>)>)
    ensures
        s_if_tail(t, p, branches) == ({
            match cur_tag(t, p) {
                None => (branches, Seq::empty(), 0),
                Some((kw, full)) => if kw == TagKw::Elseif {
                    let cond = spec_parse_expr(after_word(full));
                    let b = s_until(t, p + 1, Closers::IfBranch);
                    let r = s_if_tail(t, p + 1 + b.1, branches.push((cond, b.0)));
                    (r.0, r.1, 1 + b.1 + r.2)
                } else if kw == TagKw::Else {
                    let e = s_until(t, p + 1, Closers::ElseBody);
                    (branches, e.0, 1 + e.1 + closing(t, p + 1 + e.1, TagKw::Endif))
                } else if kw == TagKw::Endif {
                    (branches, Seq::empty(), 1)
                } else {
                    (branches, Seq::empty(), 0)
                },
            }
        }),
{
}

/// A tag whose first word names no statement (`{% block x %}`, or a stray
/// `{% endif %}`) is dropped: it gives no statement, the reading goes on
/// at the next token, and at the top level the statements read are those
/// of the tokens after it.
pub proof fn law_unknown_tag_is_dropped(t: Seq<TokenV>, i: int, s: Seq<char>)
    requires
        0 <= i < t.len(),
        t[i] == TokenV::Tag(s),
        tag_kind(first_word(trim(s))) != TagKw::If,
        tag_kind(first_word(trim(s))) != TagKw::For,
        tag_kind(first_word(trim(s))) != TagKw::SetVar,
        tag_kind(first_word(trim(s))) != TagKw::Include,
        tag_kind(first_word(trim(s))) != TagKw::Autoescape,
    ensures
        s_stmt(t, i) == (None::<StmtV>, 0nat),
        s_until(t, i, Closers::Top).0 == s_until(t, i + 1, Closers::Top).0,
{
    unfold_s_stmt(t, i);
    unfold_s_until(t, i, Closers::Top);
}

/// Whether the tag at `p` is the tag `kw`.
pub open spec fn tag_is(t: Seq<TokenV>, p: int, kw: TagKw) -> bool {
    cur_tag(t, p) matches Some((k, _)) && k == kw
}

/// A block consumes the tag that closes it: a `for` whose body ends at an
/// `{% endfor %}` reads that tag too, an `autoescape` reads its
/// `{% endautoescape %}`, and an `if` reads the `{% endif %}` after its
/// branch or after its `else` body. So each closing tag closes exactly
/// one block, and with nested blocks what follows an inner closing tag
/// stays in the outer body. A block whose closing tag is missing reads up
/// to where its body ends.
pub proof fn law_blocks_consume_their_closing_tag(t: Seq<TokenV>, i: int, s: Seq<char>)
    requires
        0 <= i < t.len(),
        t[i] == TokenV::Tag(s),
    ensures
        tag_kind(first_word(trim(s))) == TagKw::For ==> s_stmt(t, i).1 == s_until(t, i + 1, Closers::ForBody).1
            + if tag_is(t, i + 1 + s_until(t, i + 1, Closers::ForBody).1, TagKw::Endfor) {
            1nat
        } else {
            0nat
        },
        tag_kind(first_word(trim(s))) == TagKw::Autoescape ==> s_stmt(t, i).1 == s_until(
            t,
            i + 1,
            Closers::AutoescapeBody,
        ).1 + if tag_is(t, i + 1 + s_until(t, i + 1, Closers::AutoescapeBody).1, TagKw::Endautoescape) {
            1nat
        } else {
            0nat
        },
        tag_kind(first_word(trim(s))) == TagKw::If && tag_is(
            t,
            i + 1 + s_until(t, i + 1, Closers::IfBranch).1,
            TagKw::Endif,
        ) ==> s_stmt(t, i).1 == s_until(t, i + 1, Closers::IfBranch).1 + 1,
        tag_kind(first_word(trim(s))) == TagKw::If && tag_is(
            t,
            i + 1 + s_until(t, i + 1, Closers::IfBranch).1,
            TagKw::Else,
        ) ==> s_stmt(t, i).1 == s_until(t, i + 1, Closers::IfBranch).1 + 1 + s_until(
            t,
            i + 2 + s_until(t, i + 1, Closers::IfBranch).1,
            Closers::ElseBody,
        ).1 + if tag_is(
            t,
            i + 2 + s_until(t, i + 1, Closers::IfBranch).1 + s_until(
                t,
                i + 2 + s_until(t, i + 1, Closers::IfBranch).1,
                Closers::ElseBody,
            ).1,
            TagKw::Endif,
        ) {
            1nat
        } else {
            0nat
        },
{
    unfold_s_stmt(t, i);
    let b = s_until(t, i + 1, Closers::IfBranch);
    unfold_s_if_tail(t, i + 1 + b.1, seq![(spec_parse_expr(after_word(trim(s))), b.0)]);
}

/// A block's body ends at the tag that closes it: a `for` body at
/// `endfor`, an `if` branch at `elseif`, `else` or `endif`, an `else`
/// body at `endif`, an `autoescape` body at `endautoescape`; the
/// template itself reads every token.
pub proof fn law_bodies_end_at_their_closing_tags(t: Seq<TokenV>, i: int)
    requires
        0 <= i < t.len(),
    ensures
        tag_is(t, i, TagKw::Endfor) ==> s_until(t, i, Closers::ForBody).1 == 0,
        tag_is(t, i, TagKw::Elseif) || tag_is(t, i, TagKw::Else) || tag_is(t, i, TagKw::Endif) ==> s_until(
            t,
            i,
            Closers::IfBranch,
        ).1 == 0,
        tag_is(t, i, TagKw::Endif) ==> s_until(t, i, Closers::ElseBody).1 == 0,
        tag_is(t, i, TagKw::Endautoescape) ==> s_until(t, i, Closers::AutoescapeBody).1 == 0,
        s_until(t, i, Closers::Top).1 >= 1,
{
    unfold_s_until(t, i, Closers::ForBody);
    unfold_s_until(t, i, Closers::IfBranch);
    unfold_s_until(t, i, Closers::ElseBody);
    unfold_s_until(t, i, Closers::AutoescapeBody);
    unfold_s_until(t, i, Closers::Top);
}

/// How a tag keyword is written.
pub open spec fn tag_spelling(k: TagKw) -> Seq<char> {
    match k {
        TagKw::If => seq!['i', 'f'],
        TagKw::Elseif => seq!['e', 'l', 's', 'e', 'i', 'f'],
        TagKw::Else => seq!['e', 'l', 's', 'e'],
        TagKw::Endif => seq!['e', 'n', 'd', 'i', 'f'],
        TagKw::For => seq!['f', 'o', 'r'],
        TagKw::Endfor => seq!['e', 'n', 'd', 'f', 'o', 'r'],
        TagKw::SetVar => seq!['s', 'e', 't'],
        TagKw::Include => seq!['i', 'n', 'c', 'l', 'u', 'd', 'e'],
        TagKw::Autoescape => seq!['a', 'u', 't', 'o', 'e', 's', 'c', 'a', 'p', 'e'],
        TagKw::Endautoescape => seq!['e', 'n', 'd', 'a', 'u', 't', 'o', 'e', 's', 'c', 'a', 'p', 'e'],
        TagKw::Other => Seq::empty(),
    }
}

/// A tag's first word names the keyword it spells, and a word that spells
/// no keyword names none.
pub proof fn law_tag_keywords_are_what_they_spell(w: Seq<char>, k: TagKw)
    requires
        k != TagKw::Other,
    ensures
        tag_kind(w) == k <==> w == tag_spelling(k),
{
    if w == tag_spelling(k) {
        if w.len() == 6 {
            assert(w[1] == tag_spelling(k)[1]);
        }
        if w.len() == 3 {
            assert(w[0] == tag_spelling(k)[0]);
        }
        match k {
            TagKw::If => {},
            TagKw::Elseif => {},
            TagKw::Else => {},
            TagKw::Endif => {},
            TagKw::For => {},
            TagKw::Endfor => {},
            TagKw::SetVar => {},
            TagKw::Include => {},
            TagKw::Autoescape => {},
            TagKw::Endautoescape => {},
            TagKw::Other => {},
        }
    }
}

} // verus!
