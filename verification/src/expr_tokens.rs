//! The tokenizer of `{{ ... }}` and tag expressions.
use vstd::prelude::*;
use crate::text::push_char;

verus! {

/// An operator token.
#[derive(Debug, Clone, Copy, PartialEq, Eq, Structural)]
pub enum Op {
    Eq,
    Ne,
    Le,
    Ge,
    DotDot,
    Lt,
    Gt,
    Plus,
    Minus,
    Star,
    Slash,
    Percent,
    Assign,
}

/// The keyword an identifier spells, if any.
#[derive(Debug, Clone, Copy, PartialEq, Eq, Structural)]
pub enum Word {
    Or,
    And,
    Not,
    Equals,
    Is,
    True,
    False,
    Null,
    Other,
}

/// An expression token. An identifier carries the keyword it spells; a
/// float keeps its decimal text.
#[derive(Debug)]
pub enum Tok {
    Ident(String, Word),
    Str(String),
    Int(i64),
    Float(String),
    Op(Op),
    Punct(char),
}

/// An expression token as plain values.
pub enum TokV {
    Ident(Seq<char>, Word),
    Str(Seq<char>),
    Int(i64),
    Float(Seq<char>),
    Op(Op),
    Punct(char),
}

impl View for Tok {
    type V = TokV;

    open spec fn view(&self) -> TokV {
        match self {
            Tok::Ident(s, w) => TokV::Ident(s@, *w),
            Tok::Str(s) => TokV::Str(s@),
            Tok::Int(i) => TokV::Int(*i),
            Tok::Float(s) => TokV::Float(s@),
            Tok::Op(o) => TokV::Op(*o),
            Tok::Punct(c) => TokV::Punct(*c),
        }
    }
}

pub open spec fn toks_v(ts: Seq<Tok>) -> Seq<TokV> {
    ts.map_values(|t: Tok| t@)
}

/// The keyword that `s` spells.
pub open spec fn word_of(s: Seq<char>) -> Word {
    if s == seq!['o', 'r'] {
        Word::Or
    } else if s == seq!['a', 'n', 'd'] {
        Word::And
    } else if s == seq!['n', 'o', 't'] {
        Word::Not
    } else if s == seq!['e', 'q', 'u', 'a', 'l', 's'] {
        Word::Equals
    } else if s == seq!['i', 's'] {
        Word::Is
    } else if s == seq!['t', 'r', 'u', 'e'] {
        Word::True
    } else if s == seq!['f', 'a', 'l', 's', 'e'] {
        Word::False
    } else if s == seq!['n', 'u', 'l', 'l'] {
        Word::Null
    } else {
        Word::Other
    }
}

pub open spec fn is_space(c: char) -> bool {
    c == ' ' || c == '\t' || c == '\r' || c == '\n'
}

pub open spec fn is_digit(c: char) -> bool {
    '0' <= c && c <= '9'
}

pub open spec fn is_alpha(c: char) -> bool {
    ('a' <= c && c <= 'z') || ('A' <= c && c <= 'Z')
}

pub open spec fn is_ident_start(c: char) -> bool {
    is_alpha(c) || c == '_'
}

pub open spec fn is_ident_char(c: char) -> bool {
    is_alpha(c) || is_digit(c) || c == '_'
}

/// The operator of a two-character operator spelling.
pub open spec fn two_op(a: char, b: char) -> Option<Op> {
    if a == '=' && b == '=' {
        Some(Op::Eq)
    } else if a == '!' && b == '=' {
        Some(Op::Ne)
    } else if a == '<' && b == '=' {
        Some(Op::Le)
    } else if a == '>' && b == '=' {
        Some(Op::Ge)
    } else if a == '.' && b == '.' {
        Some(Op::DotDot)
    } else {
        None
    }
}

/// The operator of a one-character operator spelling.
pub open spec fn one_op(c: char) -> Option<Op> {
    if c == '<' {
        Some(Op::Lt)
    } else if c == '>' {
        Some(Op::Gt)
    } else if c == '+' {
        Some(Op::Plus)
    } else if c == '-' {
        Some(Op::Minus)
    } else if c == '*' {
        Some(Op::Star)
    } else if c == '/' {
        Some(Op::Slash)
    } else if c == '%' {
        Some(Op::Percent)
    } else if c == '=' {
        Some(Op::Assign)
    } else {
        None
    }
}

/// The punctuation characters that are tokens of their own.
pub open spec fn is_punct_char(c: char) -> bool {
    c == '.' || c == '(' || c == ')' || c == '[' || c == ']' || c == '|' || c == '?' || c == ':'
        || c == '{' || c == '}' || c == ','
}

/// The operator that a spelling stands for: a two-character operator when
/// `s` is exactly one, else the operator of its first character.
pub open spec fn spec_op_token(s: Seq<char>) -> Option<Op> {
    if s.len() == 2 && two_op(s[0], s[1]) is Some {
        two_op(s[0], s[1])
    } else if s.len() > 0 {
        one_op(s[0])
    } else {
        None
    }
}

/// The end of the run of digits that starts at `i`.
pub open spec fn digits_end(cs: Seq<char>, i: int) -> int
    decreases cs.len() - i,
{
    if 0 <= i < cs.len() && is_digit(cs[i]) {
        digits_end(cs, i + 1)
    } else {
        i
    }
}

/// The end of the run of identifier characters that starts at `i`.
pub open spec fn ident_end(cs: Seq<char>, i: int) -> int
    decreases cs.len() - i,
{
    if 0 <= i < cs.len() && is_ident_char(cs[i]) {
        ident_end(cs, i + 1)
    } else {
        i
    }
}

pub proof fn lemma_digits_end(cs: Seq<char>, i: int)
    requires
        0 <= i <= cs.len(),
    ensures
        i <= digits_end(cs, i) <= cs.len(),
        forall|k: int| i <= k < digits_end(cs, i) ==> is_digit(#[trigger] cs[k]),
        digits_end(cs, i) < cs.len() ==> !is_digit(cs[digits_end(cs, i)]),
    decreases cs.len() - i,
{
    if i < cs.len() && is_digit(cs[i]) {
        lemma_digits_end(cs, i + 1);
    }
}

pub proof fn lemma_ident_end(cs: Seq<char>, i: int)
    requires
        0 <= i <= cs.len(),
    ensures
        i <= ident_end(cs, i) <= cs.len(),
        forall|k: int| i <= k < ident_end(cs, i) ==> is_ident_char(#[trigger] cs[k]),
        ident_end(cs, i) < cs.len() ==> !is_ident_char(cs[ident_end(cs, i)]),
    decreases cs.len() - i,
{
    if i < cs.len() && is_ident_char(cs[i]) {
        lemma_ident_end(cs, i + 1);
    }
}

/// The character that the escape `\e` stands for in a string literal.
pub open spec fn unescape(e: char) -> char {
    if e == 'n' {
        '\n'
    } else if e == 't' {
        '\t'
    } else if e == 'r' {
        '\r'
    } else {
        e
    }
}

/// The contents of a string literal from position `k` up to the closing
/// quote `q` (or the end), with escapes resolved, and the position where the
/// scan stopped.
pub open spec fn scan_str(cs: Seq<char>, k: int, q: char) -> (Seq<char>, int)
    decreases cs.len() - k,
{
    if k < 0 || k >= cs.len() || cs[k] == q {
        (Seq::empty(), k)
    } else if cs[k] == '\\' && k + 1 < cs.len() {
        let r = scan_str(cs, k + 2, q);
        (seq![unescape(cs[k + 1])] + r.0, r.1)
    } else {
        let r = scan_str(cs, k + 1, q);
        (seq![cs[k]] + r.0, r.1)
    }
}

pub proof fn lemma_scan_str(cs: Seq<char>, k: int, q: char)
    requires
        0 <= k <= cs.len(),
    ensures
        k <= scan_str(cs, k, q).1 <= cs.len(),
    decreases cs.len() - k,
{
    if k < cs.len() && cs[k] != q {
        if cs[k] == '\\' && k + 1 < cs.len() {
            lemma_scan_str(cs, k + 2, q);
        } else {
            lemma_scan_str(cs, k + 1, q);
        }
    }
}

/// The value of a sequence of decimal digits.
pub open spec fn decimal_value(ds: Seq<char>) -> int
    decreases ds.len(),
{
    if ds.len() == 0 {
        0
    } else {
        decimal_value(ds.drop_last()) * 10 + (ds.last() as int - '0' as int)
    }
}

/// The integer literal that a run of digits gives: its value, or 0 when
/// the value does not fit in an `i64`.
pub open spec fn int_literal(ds: Seq<char>) -> i64 {
    if decimal_value(ds) <= i64::MAX {
        decimal_value(ds) as i64
    } else {
        0
    }
}

/// The tokens of `cs` from position `i` on.
pub open spec fn lexe(cs: Seq<char>, i: int) -> Seq<TokV>
    decreases cs.len() - i,
{
    if i < 0 || i >= cs.len() {
        Seq::empty()
    } else {
        let c = cs[i];
        if is_space(c) {
            lexe(cs, i + 1)
        } else if c == '\'' || c == '"' {
            proof {
                lemma_scan_str(cs, i + 1, c);
            }
            let r = scan_str(cs, i + 1, c);
            let next = if r.1 < cs.len() {
                r.1 + 1
            } else {
                cs.len() as int
            };
            seq![TokV::Str(r.0)] + lexe(cs, next)
        } else if is_digit(c) {
            proof {
                lemma_digits_end(cs, i);
            }
            let j = digits_end(cs, i);
            if j + 1 < cs.len() && cs[j] == '.' && is_digit(cs[j + 1]) {
                proof {
                    lemma_digits_end(cs, j + 1);
                }
                let k = digits_end(cs, j + 1);
                seq![TokV::Float(cs.subrange(i, k))] + lexe(cs, k)
            } else {
                seq![TokV::Int(int_literal(cs.subrange(i, j)))] + lexe(cs, j)
            }
        } else if is_ident_start(c) {
            proof {
                lemma_ident_end(cs, i);
            }
            let j = ident_end(cs, i);
            seq![TokV::Ident(cs.subrange(i, j), word_of(cs.subrange(i, j)))] + lexe(cs, j)
        } else if i + 1 < cs.len() && two_op(c, cs[i + 1]) is Some {
            seq![TokV::Op(two_op(c, cs[i + 1]).unwrap())] + lexe(cs, i + 2)
        } else if one_op(c) is Some {
            seq![TokV::Op(one_op(c).unwrap())] + lexe(cs, i + 1)
        } else if is_punct_char(c) {
            seq![TokV::Punct(c)] + lexe(cs, i + 1)
        } else {
            lexe(cs, i + 1)
        }
    }
}

/// Whether `w` spells the word `lit`.
pub(crate) fn spells(w: &Vec<char>, lit: &[char]) -> (b: bool)
    ensures
        b == (w@ == lit@),
{
    if w.len() != lit.len() {
        return false;
    }
    let mut k: usize = 0;
    while k < w.len()
        invariant
            w@.len() == lit@.len(),
            k <= w.len(),
            forall|j: int| 0 <= j < k ==> w@[j] == lit@[j],
        decreases w.len() - k,
    {
        if w[k] != lit[k] {
            return false;
        }
        k = k + 1;
    }
    proof {
        assert(w@ =~= lit@);
    }
    true
}

/// The keyword that the characters `w` spell.
fn word_of_chars(w: &Vec<char>) -> (r: Word)
    ensures
        r == word_of(w@),
{
    if spells(w, &['o', 'r']) {
        Word::Or
    } else if spells(w, &['a', 'n', 'd']) {
        Word::And
    } else if spells(w, &['n', 'o', 't']) {
        Word::Not
    } else if spells(w, &['e', 'q', 'u', 'a', 'l', 's']) {
        Word::Equals
    } else if spells(w, &['i', 's']) {
        Word::Is
    } else if spells(w, &['t', 'r', 'u', 'e']) {
        Word::True
    } else if spells(w, &['f', 'a', 'l', 's', 'e']) {
        Word::False
    } else if spells(w, &['n', 'u', 'l', 'l']) {
        Word::Null
    } else {
        Word::Other
    }
}

/// The operator token that the spelling `s` stands for (a two-character
/// operator when `s` is exactly one, else that of its first character).
pub fn op_token(s: &Vec<char>) -> (r: Option<Op>)
    ensures
        r == spec_op_token(s@),
{
    if s.len() == 2 {
        let a = s[0];
        let b = s[1];
        if a == '=' && b == '=' {
            return Some(Op::Eq);
        } else if a == '!' && b == '=' {
            return Some(Op::Ne);
        } else if a == '<' && b == '=' {
            return Some(Op::Le);
        } else if a == '>' && b == '=' {
            return Some(Op::Ge);
        } else if a == '.' && b == '.' {
            return Some(Op::DotDot);
        }
    }
    if s.len() == 0 {
        return None;
    }
    let c = s[0];
    if c == '<' {
        Some(Op::Lt)
    } else if c == '>' {
        Some(Op::Gt)
    } else if c == '+' {
        Some(Op::Plus)
    } else if c == '-' {
        Some(Op::Minus)
    } else if c == '*' {
        Some(Op::Star)
    } else if c == '/' {
        Some(Op::Slash)
    } else if c == '%' {
        Some(Op::Percent)
    } else if c == '=' {
        Some(Op::Assign)
    } else {
        None
    }
}

/// The integer value of the digits `cs[from..to]`, or 0 when it does not
/// fit in an `i64`.
fn int_of_digits(cs: &Vec<char>, from: usize, to: usize) -> (r: i64)
    requires
        from <= to <= cs.len(),
        forall|k: int| from <= k < to ==> is_digit(#[trigger] cs@[k]),
    ensures
        r == int_literal(cs@.subrange(from as int, to as int)),
{
    let mut acc: i64 = 0;
    let mut overflow = false;
    let mut k: usize = from;
    while k < to
        invariant
            from <= k <= to <= cs.len(),
            forall|j: int| from <= j < to ==> is_digit(#[trigger] cs@[j]),
            decimal_value(cs@.subrange(from as int, k as int)) >= 0,
            !overflow ==> acc == decimal_value(cs@.subrange(from as int, k as int)),
            overflow ==> decimal_value(cs@.subrange(from as int, k as int)) > i64::MAX,
        decreases to - k,
    {
        let c = cs[k];
        assert(is_digit(cs@[k as int]));
        let d: i64 = ((c as u32) - ('0' as u32)) as i64;
        proof {
            let pre = cs@.subrange(from as int, k as int);
            let post = cs@.subrange(from as int, k + 1);
            assert(post.drop_last() =~= pre);
            assert(post.last() == c);
            assert(decimal_value(post) == decimal_value(pre) * 10 + d);
        }
        if !overflow {
            if acc > 922337203685477580 || (acc == 922337203685477580 && d > 7) {
                overflow = true;
            } else {
                acc = acc * 10 + d;
            }
        }
        k = k + 1;
    }
    if overflow {
        0
    } else {
        acc
    }
}

/// Splits an expression source into tokens.
pub fn tokenize_expr(cs: &Vec<char>) -> (out: Vec<Tok>)
    ensures
        toks_v(out@) == lexe(cs@, 0),
{
    let mut out: Vec<Tok> = Vec::new();
    let n = cs.len();
    let mut i: usize = 0;
    while i < n
        invariant
            n == cs.len(),
            i <= n,
            toks_v(out@) + lexe(cs@, i as int) == lexe(cs@, 0),
        decreases n - i,
    {
        let c = cs[i];
        let ghost before = toks_v(out@);
        if c == ' ' || c == '\t' || c == '\r' || c == '\n' {
            i = i + 1;
        } else if c == '\'' || c == '"' {
            let quote = c;
            let ghost start = i + 1;
            proof {
                lemma_scan_str(cs@, start, quote);
            }
            i = i + 1;
            let mut s = String::new();
            while i < n && cs[i] != quote
                invariant
                    n == cs.len(),
                    start <= i <= n,
                    s@ + scan_str(cs@, i as int, quote).0 == scan_str(cs@, start, quote).0,
                    scan_str(cs@, i as int, quote).1 == scan_str(cs@, start, quote).1,
                decreases n - i,
            {
                if cs[i] == '\\' && i + 1 < n {
                    let e = cs[i + 1];
                    let u = if e == 'n' {
                        '\n'
                    } else if e == 't' {
                        '\t'
                    } else if e == 'r' {
                        '\r'
                    } else {
                        e
                    };
                    let ghost s0 = s@;
                    push_char(&mut s, u);
                    proof {
                        assert(s@ + scan_str(cs@, i + 2, quote).0 =~= s0 + (seq![u]
                            + scan_str(cs@, i + 2, quote).0));
                    }
                    i = i + 2;
                } else {
                    let ghost s0 = s@;
                    push_char(&mut s, cs[i]);
                    proof {
                        assert(s@ + scan_str(cs@, i + 1, quote).0 =~= s0 + (seq![cs@[i as int]]
                            + scan_str(cs@, i + 1, quote).0));
                    }
                    i = i + 1;
                }
            }
            proof {
                assert(s@ =~= scan_str(cs@, start, quote).0);
            }
            i = if i < n { i + 1 } else { n };
            out.push(Tok::Str(s));
            proof {
                assert(toks_v(out@) =~= before.push(TokV::Str(scan_str(cs@, start, quote).0)));
            }
        } else if '0' <= c && c <= '9' {
            let start = i;
            proof {
                lemma_digits_end(cs@, start as int);
            }
            while i < n && '0' <= cs[i] && cs[i] <= '9'
                invariant
                    n == cs.len(),
                    start <= i <= n,
                    digits_end(cs@, i as int) == digits_end(cs@, start as int),
                    forall|k: int| start <= k < i ==> is_digit(#[trigger] cs@[k]),
                decreases n - i,
            {
                i = i + 1;
            }
            let j = i;
            if j < n && n - j > 1 && cs[j] == '.' && '0' <= cs[j + 1] && cs[j + 1] <= '9' {
                i = j + 1;
                proof {
                    lemma_digits_end(cs@, i as int);
                }
                while i < n && '0' <= cs[i] && cs[i] <= '9'
                    invariant
                        n == cs.len(),
                        j + 1 <= i <= n,
                        digits_end(cs@, i as int) == digits_end(cs@, j + 1),
                    decreases n - i,
                {
                    i = i + 1;
                }
                let text = crate::text::string_of(cs, start, i);
                out.push(Tok::Float(text));
                proof {
                    assert(toks_v(out@) =~= before.push(
                        TokV::Float(cs@.subrange(start as int, i as int)),
                    ));
                }
            } else {
                let v = int_of_digits(cs, start, j);
                out.push(Tok::Int(v));
                proof {
                    assert(toks_v(out@) =~= before.push(
                        TokV::Int(int_literal(cs@.subrange(start as int, j as int))),
                    ));
                }
            }
        } else if ('a' <= c && c <= 'z') || ('A' <= c && c <= 'Z') || c == '_' {
            let start = i;
            proof {
                lemma_ident_end(cs@, start as int);
            }
            while i < n && (('a' <= cs[i] && cs[i] <= 'z') || ('A' <= cs[i] && cs[i] <= 'Z') || (
            '0' <= cs[i] && cs[i] <= '9') || cs[i] == '_')
                invariant
                    n == cs.len(),
                    start <= i <= n,
                    ident_end(cs@, i as int) == ident_end(cs@, start as int),
                decreases n - i,
            {
                i = i + 1;
            }
            let w = crate::text::slice_of(cs, start, i);
            let word = word_of_chars(&w);
            let name = crate::text::string_of(cs, start, i);
            out.push(Tok::Ident(name, word));
            proof {
                assert(toks_v(out@) =~= before.push(
                    TokV::Ident(
                        cs@.subrange(start as int, i as int),
                        word_of(cs@.subrange(start as int, i as int)),
                    ),
                ));
            }
        } else {
            let mut done = false;
            if i + 1 < n {
                let two: Vec<char> = vec![c, cs[i + 1]];
                proof {
                    assert(two@ =~= seq![c, cs@[i + 1]]);
                }
                if two_op_exec(c, cs[i + 1]) {
                    let o = op_token(&two);
                    out.push(Tok::Op(o.unwrap()));
                    proof {
                        assert(toks_v(out@) =~= before.push(TokV::Op(two_op(c, cs@[i + 1]).unwrap())));
                    }
                    i = i + 2;
                    done = true;
                }
            }
            if !done {
                let one: Vec<char> = vec![c];
                proof {
                    assert(one@ =~= seq![c]);
                }
                let o = op_token(&one);
                match o {
                    Some(op) => {
                        out.push(Tok::Op(op));
                        proof {
                            assert(toks_v(out@) =~= before.push(TokV::Op(one_op(c).unwrap())));
                        }
                    },
                    None => {
                        if c == '.' || c == '(' || c == ')' || c == '[' || c == ']' || c == '|' || c
                            == '?' || c == ':' || c == '{' || c == '}' || c == ',' {
                            out.push(Tok::Punct(c));
                            proof {
                                assert(toks_v(out@) =~= before.push(TokV::Punct(c)));
                            }
                        }
                    },
                }
                i = i + 1;
            }
        }
    }
    proof {
        assert(toks_v(out@) + lexe(cs@, n as int) =~= toks_v(out@));
    }
    out
}

/// Whether `a b` spells a two-character operator.
fn two_op_exec(a: char, b: char) -> (r: bool)
    ensures
        r == two_op(a, b) is Some,
{
    (a == '=' && b == '=') || (a == '!' && b == '=') || (a == '<' && b == '=') || (a == '>' && b
        == '=') || (a == '.' && b == '.')
}

/// How an operator is written.
pub open spec fn op_spelling(o: Op) -> Seq<char> {
    match o {
        Op::Eq => seq!['=', '='],
        Op::Ne => seq!['!', '='],
        Op::Le => seq!['<', '='],
        Op::Ge => seq!['>', '='],
        Op::DotDot => seq!['.', '.'],
        Op::Lt => seq!['<'],
        Op::Gt => seq!['>'],
        Op::Plus => seq!['+'],
        Op::Minus => seq!['-'],
        Op::Star => seq!['*'],
        Op::Slash => seq!['/'],
        Op::Percent => seq!['%'],
        Op::Assign => seq!['='],
    }
}

/// An operator token is the operator its characters spell: a one- or
/// two-character spelling gives an operator exactly when that operator is
/// written so.
pub proof fn law_operators_are_what_they_spell(a: char, b: char, o: Op)
    ensures
        one_op(a) == Some(o) <==> op_spelling(o) == seq![a],
        two_op(a, b) == Some(o) <==> op_spelling(o) == seq![a, b],
{
    let sp = op_spelling(o);
    if one_op(a) == Some(o) {
        assert(sp =~= seq![a]);
    }
    if two_op(a, b) == Some(o) {
        assert(sp =~= seq![a, b]);
    }
    if sp == seq![a] {
        assert(sp.len() == 1 && sp[0] == a);
        match o {
            Op::Eq => {},
            Op::Ne => {},
            Op::Le => {},
            Op::Ge => {},
            Op::DotDot => {},
            Op::Lt => {},
            Op::Gt => {},
            Op::Plus => {},
            Op::Minus => {},
            Op::Star => {},
            Op::Slash => {},
            Op::Percent => {},
            Op::Assign => {},
        }
    }
    if sp == seq![a, b] {
        assert(sp.len() == 2 && sp[0] == a && sp[1] == b);
        match o {
            Op::Eq => {},
            Op::Ne => {},
            Op::Le => {},
            Op::Ge => {},
            Op::DotDot => {},
            Op::Lt => {},
            Op::Gt => {},
            Op::Plus => {},
            Op::Minus => {},
            Op::Star => {},
            Op::Slash => {},
            Op::Percent => {},
            Op::Assign => {},
        }
    }
}

/// How a keyword is written.
pub open spec fn keyword_spelling(w: Word) -> Seq<char> {
    match w {
        Word::Or => seq!['o', 'r'],
        Word::And => seq!['a', 'n', 'd'],
        Word::Not => seq!['n', 'o', 't'],
        Word::Equals => seq!['e', 'q', 'u', 'a', 'l', 's'],
        Word::Is => seq!['i', 's'],
        Word::True => seq!['t', 'r', 'u', 'e'],
        Word::False => seq!['f', 'a', 'l', 's', 'e'],
        Word::Null => seq!['n', 'u', 'l', 'l'],
        Word::Other => Seq::empty(),
    }
}

/// An identifier is a keyword exactly when it spells that keyword (so
/// `false` is the keyword `false`, `true` the keyword `true`, `null` the
/// keyword `null`), and any other identifier is no keyword.
pub proof fn law_keywords_are_what_they_spell(s: Seq<char>, w: Word)
    requires
        w != Word::Other,
    ensures
        word_of(s) == w <==> s == keyword_spelling(w),
        word_of(s) == Word::Other <==> (forall|k: Word| k != Word::Other ==> s != #[trigger] keyword_spelling(k)),
{
    if word_of(s) == Word::Other {
        assert forall|k: Word| k != Word::Other implies s != #[trigger] keyword_spelling(k) by {
            match k {
                _ => {},
            }
        }
    } else {
        let k = word_of(s);
        assert(s == keyword_spelling(k));
    }
}

} // verus!
