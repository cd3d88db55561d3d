//! The template lexer: splits template source into raw text, `{{ ... }}`
//! expressions and `{% ... %}` tags; `{# ... #}` comments are dropped.
use vstd::prelude::*;
use crate::text::chars_of;

verus! {

/// One piece of template source. Each piece borrows the source text it
/// stands for (without the delimiters).
#[derive(Debug, PartialEq, Eq)]
pub enum Token<'s> {
    Text(&'s str),
    Expr(&'s str),
    Tag(&'s str),
}

/// A token as the characters it holds.
pub enum TokenV {
    Text(Seq<char>),
    Expr(Seq<char>),
    Tag(Seq<char>),
}

impl<'s> View for Token<'s> {
    type V = TokenV;

    open spec fn view(&self) -> TokenV {
        match self {
            Token::Text(s) => TokenV::Text(s@),
            Token::Expr(s) => TokenV::Expr(s@),
            Token::Tag(s) => TokenV::Tag(s@),
        }
    }
}

/// The tokens of a sequence, each by its view.
pub open spec fn tokens_v<'s>(ts: Seq<Token<'s>>) -> Seq<TokenV> {
    ts.map_values(|t: Token<'s>| t@)
}

/// Whether the two characters `a b` stand at position `k` of `cs`.
pub open spec fn pair_at(cs: Seq<char>, k: int, a: char, b: char) -> bool {
    0 <= k && k + 1 < cs.len() && cs[k] == a && cs[k + 1] == b
}

/// The index of the first occurrence of the two characters `a b` that
/// starts at or after `from`.
pub open spec fn find_pair(cs: Seq<char>, from: int, a: char, b: char) -> Option<int>
    decreases cs.len() - from,
{
    if from < 0 || from + 1 >= cs.len() {
        None
    } else if cs[from] == a && cs[from + 1] == b {
        Some(from)
    } else {
        find_pair(cs, from + 1, a, b)
    }
}

/// `find_pair` finds the first occurrence, and only a real one.
pub proof fn lemma_find_pair(cs: Seq<char>, from: int, a: char, b: char)
    requires
        0 <= from,
    ensures
        find_pair(cs, from, a, b) matches Some(j) ==> {
            &&& from <= j
            &&& j + 1 < cs.len()
            &&& cs[j] == a
            &&& cs[j + 1] == b
            &&& forall|k: int| from <= k < j ==> !#[trigger] pair_at(cs, k, a, b)
        },
        find_pair(cs, from, a, b) is None ==> forall|k: int|
            from <= k ==> !#[trigger] pair_at(cs, k, a, b),
    decreases cs.len() - from,
{
    if from + 1 < cs.len() && !(cs[from] == a && cs[from + 1] == b) {
        lemma_find_pair(cs, from + 1, a, b);
    }
}

/// A text token for `cs[a..b]`, or none when the range is empty.
pub open spec fn text_piece(cs: Seq<char>, a: int, b: int) -> Seq<TokenV> {
    if a < b {
        seq![TokenV::Text(cs.subrange(a, b))]
    } else {
        Seq::empty()
    }
}

/// The tokens of `cs` from position `i` on, where the text not yet emitted
/// starts at `last`. Text runs up to a `{{ ... }}` expression, a
/// `{% ... %}` tag or a `{# ... #}` comment; a comment is dropped and runs
/// to the end when it is not closed; an unclosed `{{` or `{%` is text.
/// Inside an expression or a tag, `{#` is part of the payload.
pub open spec fn lex_from(cs: Seq<char>, i: int, last: int) -> Seq<TokenV>
    decreases cs.len() - i,
{
    if i < 0 || i + 1 >= cs.len() {
        text_piece(cs, last, cs.len() as int)
    } else if cs[i] == '{' && cs[i + 1] == '{' {
        proof {
            lemma_find_pair(cs, i + 2, '}', '}');
        }
        match find_pair(cs, i + 2, '}', '}') {
            Some(e) => text_piece(cs, last, i) + seq![TokenV::Expr(cs.subrange(i + 2, e))]
                + lex_from(cs, e + 2, e + 2),
            None => lex_from(cs, i + 1, last),
        }
    } else if cs[i] == '{' && cs[i + 1] == '%' {
        proof {
            lemma_find_pair(cs, i + 2, '%', '}');
        }
        match find_pair(cs, i + 2, '%', '}') {
            Some(e) => text_piece(cs, last, i) + seq![TokenV::Tag(cs.subrange(i + 2, e))]
                + lex_from(cs, e + 2, e + 2),
            None => lex_from(cs, i + 1, last),
        }
    } else if cs[i] == '{' && cs[i + 1] == '#' {
        proof {
            lemma_find_pair(cs, i + 2, '#', '}');
        }
        match find_pair(cs, i + 2, '#', '}') {
            Some(e) => text_piece(cs, last, i) + lex_from(cs, e + 2, e + 2),
            None => text_piece(cs, last, i),
        }
    } else {
        lex_from(cs, i + 1, last)
    }
}

/// The tokens of a template source.
pub open spec fn spec_tokenize(cs: Seq<char>) -> Seq<TokenV> {
    lex_from(cs, 0, 0)
}

/// The first occurrence of `a b` at or after `from`.
fn find_pair_exec(cs: &Vec<char>, from: usize, a: char, b: char) -> (r: Option<usize>)
    requires
        from <= cs.len(),
    ensures
        r matches Some(j) ==> find_pair(cs@, from as int, a, b) == Some(j as int),
        r is None ==> find_pair(cs@, from as int, a, b) is None,
{
    let mut k: usize = from;
    while k < cs.len() && cs.len() - k > 1
        invariant
            from <= k <= cs.len(),
            find_pair(cs@, from as int, a, b) == find_pair(cs@, k as int, a, b),
        decreases cs.len() - k,
    {
        if cs[k] == a && cs[k + 1] == b {
            return Some(k);
        }
        k = k + 1;
    }
    None
}

/// Pushes the text `src[start..end]` as one token, when it is not empty.
fn push_text<'a>(out: &mut Vec<Token<'a>>, src: &'a str, start: usize, end: usize)
    requires
        end <= src@.len(),
    ensures
        tokens_v(final(out)@) == tokens_v(old(out)@) + text_piece(src@, start as int, end as int),
{
    if start < end {
        let ghost before = tokens_v(out@);
        out.push(Token::Text(src.substring_char(start, end)));
        proof {
            assert(tokens_v(out@) =~= before + seq![TokenV::Text(src@.subrange(start as int, end as int))]);
        }
    } else {
        proof {
            assert(tokens_v(out@) + Seq::<TokenV>::empty() =~= tokens_v(out@));
        }
    }
}

/// Splits template source into tokens.
pub fn tokenize(src: &str) -> (out: Vec<Token<'_>>)
    ensures
        tokens_v(out@) == spec_tokenize(src@),
{
    let cs = chars_of(src);
    let mut out: Vec<Token<'_>> = Vec::new();
    let mut i: usize = 0;
    let mut last: usize = 0;
    let n = cs.len();
    while i < n && n - i > 1
        invariant
            n == cs.len() == src@.len(),
            cs@ == src@,
            last <= n,
            i <= n,
            tokens_v(out@) + lex_from(src@, i as int, last as int) == spec_tokenize(src@),
        decreases n - i,
    {
        if cs[i] == '{' {
            let c1 = cs[i + 1];
            if c1 == '{' || c1 == '%' {
                let closer = if c1 == '{' { '}' } else { '%' };
                proof {
                    lemma_find_pair(cs@, i + 2, closer, '}');
                }
                match find_pair_exec(&cs, i + 2, closer, '}') {
                    Some(end) => {
                        let ghost before = tokens_v(out@);
                        push_text(&mut out, src, last, i);
                        let ghost mid = tokens_v(out@);
                        let piece = src.substring_char(i + 2, end);
                        if c1 == '{' {
                            out.push(Token::Expr(piece));
                        } else {
                            out.push(Token::Tag(piece));
                        }
                        proof {
                            let t = if c1 == '{' {
                                TokenV::Expr(src@.subrange(i + 2, end as int))
                            } else {
                                TokenV::Tag(src@.subrange(i + 2, end as int))
                            };
                            assert(tokens_v(out@) =~= mid + seq![t]);
                            assert(before + (text_piece(src@, last as int, i as int) + seq![t]
                                + lex_from(src@, end + 2, end + 2)) =~= tokens_v(out@)
                                + lex_from(src@, end + 2, end + 2));
                        }
                        i = end + 2;
                        last = i;
                    },
                    None => {
                        i = i + 1;
                    },
                }
            } else if c1 == '#' {
                proof {
                    lemma_find_pair(cs@, i + 2, '#', '}');
                }
                match find_pair_exec(&cs, i + 2, '#', '}') {
                    Some(end) => {
                        let ghost before = tokens_v(out@);
                        push_text(&mut out, src, last, i);
                        proof {
                            assert(before + (text_piece(src@, last as int, i as int) + lex_from(
                                src@,
                                end + 2,
                                end + 2,
                            )) =~= tokens_v(out@) + lex_from(src@, end + 2, end + 2));
                        }
                        i = end + 2;
                        last = i;
                    },
                    None => {
                        push_text(&mut out, src, last, i);
                        return out;
                    },
                }
            } else {
                i = i + 1;
            }
        } else {
            i = i + 1;
        }
    }
    push_text(&mut out, src, last, n);
    out
}

} // verus!

verus! {

/// Whether `a b` occurs nowhere in `s`.
pub open spec fn no_pair(s: Seq<char>, a: char, b: char) -> bool {
    forall|m: int| !#[trigger] pair_at(s, m, a, b)
}

/// Whether no expression token holds `}}` and no tag token holds `%}`.
pub open spec fn closers_outside(ts: Seq<TokenV>) -> bool {
    forall|j: int|
        0 <= j < ts.len() ==> match #[trigger] ts[j] {
            TokenV::Expr(s) => no_pair(s, '}', '}'),
            TokenV::Tag(s) => no_pair(s, '%', '}'),
            TokenV::Text(_) => true,
        }
}

proof fn lemma_closers_concat(a: Seq<TokenV>, b: Seq<TokenV>)
    requires
        closers_outside(a),
        closers_outside(b),
    ensures
        closers_outside(a + b),
{
    assert forall|j: int| 0 <= j < (a + b).len() implies match #[trigger] (a + b)[j] {
        TokenV::Expr(s) => no_pair(s, '}', '}'),
        TokenV::Tag(s) => no_pair(s, '%', '}'),
        TokenV::Text(_) => true,
    } by {
        if j < a.len() {
            assert((a + b)[j] == a[j]);
        } else {
            assert((a + b)[j] == b[j - a.len()]);
        }
    }
}

proof fn lemma_text_piece_closers(cs: Seq<char>, a: int, b: int)
    ensures
        closers_outside(text_piece(cs, a, b)),
{
}

/// The characters between `from` and the first `a b` after it hold no
/// `a b`.
proof fn lemma_inside_no_pair(cs: Seq<char>, from: int, a: char, b: char)
    requires
        0 <= from,
        find_pair(cs, from, a, b) is Some,
    ensures
        no_pair(cs.subrange(from, find_pair(cs, from, a, b).unwrap()), a, b),
{
    lemma_find_pair(cs, from, a, b);
    let e = find_pair(cs, from, a, b).unwrap();
    let s = cs.subrange(from, e);
    assert forall|m: int| !#[trigger] pair_at(s, m, a, b) by {
        if pair_at(s, m, a, b) {
            assert(cs[from + m] == s[m]);
            assert(cs[from + m + 1] == s[m + 1]);
            assert(pair_at(cs, from + m, a, b));
        }
    }
}

proof fn lemma_lex_closers(cs: Seq<char>, i: int, last: int)
    ensures
        closers_outside(lex_from(cs, i, last)),
    decreases cs.len() - i,
{
    if i < 0 || i + 1 >= cs.len() {
        lemma_text_piece_closers(cs, last, cs.len() as int);
    } else if cs[i] == '{' && (cs[i + 1] == '{' || cs[i + 1] == '%') {
        let closer = if cs[i + 1] == '{' {
            '}'
        } else {
            '%'
        };
        lemma_find_pair(cs, i + 2, closer, '}');
        match find_pair(cs, i + 2, closer, '}') {
            Some(e) => {
                lemma_lex_closers(cs, e + 2, e + 2);
                lemma_text_piece_closers(cs, last, i);
                lemma_inside_no_pair(cs, i + 2, closer, '}');
                let t = if cs[i + 1] == '{' {
                    TokenV::Expr(cs.subrange(i + 2, e))
                } else {
                    TokenV::Tag(cs.subrange(i + 2, e))
                };
                assert(closers_outside(seq![t]));
                lemma_closers_concat(text_piece(cs, last, i), seq![t]);
                lemma_closers_concat(text_piece(cs, last, i) + seq![t], lex_from(cs, e + 2, e + 2));
            },
            None => {
                lemma_lex_closers(cs, i + 1, last);
            },
        }
    } else if cs[i] == '{' && cs[i + 1] == '#' {
        lemma_find_pair(cs, i + 2, '#', '}');
        lemma_text_piece_closers(cs, last, i);
        match find_pair(cs, i + 2, '#', '}') {
            Some(e) => {
                lemma_lex_closers(cs, e + 2, e + 2);
                lemma_closers_concat(text_piece(cs, last, i), lex_from(cs, e + 2, e + 2));
            },
            None => {},
        }
    } else {
        lemma_lex_closers(cs, i + 1, last);
    }
}

/// An expression token never holds the `}}` that closes it, and a tag token
/// never holds the `%}` that closes it: each ends at the first closer.
pub proof fn law_tokens_end_at_first_closer(cs: Seq<char>)
    ensures
        closers_outside(spec_tokenize(cs)),
{
    lemma_lex_closers(cs, 0, 0);
}

proof fn lemma_lex_plain(cs: Seq<char>, i: int)
    requires
        forall|k: int| 0 <= k < cs.len() ==> cs[k] != '{',
    ensures
        lex_from(cs, i, 0) == text_piece(cs, 0, cs.len() as int),
    decreases cs.len() - i,
{
    if !(i < 0 || i + 1 >= cs.len()) {
        lemma_lex_plain(cs, i + 1);
    }
}

/// Source without `{` is one text token holding all of it (none when it is
/// empty): only `{{`, `{%` and `{#` open anything.
pub proof fn law_plain_text_is_one_token(cs: Seq<char>)
    requires
        forall|k: int| 0 <= k < cs.len() ==> cs[k] != '{',
    ensures
        spec_tokenize(cs) == (if cs.len() == 0 {
            Seq::<TokenV>::empty()
        } else {
            seq![TokenV::Text(cs)]
        }),
{
    lemma_lex_plain(cs, 0);
    if cs.len() > 0 {
        assert(cs.subrange(0, cs.len() as int) =~= cs);
    }
}

/// Whether no text token holds the `{#` that opens a comment.
pub open spec fn comments_dropped(ts: Seq<TokenV>) -> bool {
    forall|j: int|
        0 <= j < ts.len() ==> match #[trigger] ts[j] {
            TokenV::Text(s) => no_pair(s, '{', '#'),
            _ => true,
        }
}

proof fn lemma_dropped_concat(a: Seq<TokenV>, b: Seq<TokenV>)
    requires
        comments_dropped(a),
        comments_dropped(b),
    ensures
        comments_dropped(a + b),
{
    assert forall|j: int| 0 <= j < (a + b).len() implies match #[trigger] (a + b)[j] {
        TokenV::Text(s) => no_pair(s, '{', '#'),
        _ => true,
    } by {
        if j < a.len() {
            assert((a + b)[j] == a[j]);
        } else {
            assert((a + b)[j] == b[j - a.len()]);
        }
    }
}

/// A text piece `cs[last..i]` in which no `{#` starts before `i - 1` holds
/// no `{#`.
proof fn lemma_piece_clean(cs: Seq<char>, last: int, i: int)
    requires
        0 <= last,
        i <= cs.len(),
        forall|p: int| last <= p && p + 1 < i ==> !#[trigger] pair_at(cs, p, '{', '#'),
    ensures
        comments_dropped(text_piece(cs, last, i)),
{
    if last < i {
        let t = cs.subrange(last, i);
        assert forall|m: int| !#[trigger] pair_at(t, m, '{', '#') by {
            if pair_at(t, m, '{', '#') {
                assert(cs[last + m] == t[m]);
                assert(cs[last + m + 1] == t[m + 1]);
                assert(pair_at(cs, last + m, '{', '#'));
            }
        }
        let ts = text_piece(cs, last, i);
        assert(ts[0] == TokenV::Text(t));
    }
}

proof fn lemma_lex_clean(cs: Seq<char>, i: int, last: int)
    requires
        0 <= last <= i,
        forall|p: int| last <= p && p + 1 < i + 1 && p < i ==> !#[trigger] pair_at(cs, p, '{', '#'),
    ensures
        comments_dropped(lex_from(cs, i, last)),
    decreases cs.len() - i,
{
    if i < 0 || i + 1 >= cs.len() {
        lemma_piece_clean(cs, last, cs.len() as int);
    } else if cs[i] == '{' && (cs[i + 1] == '{' || cs[i + 1] == '%') {
        let closer = if cs[i + 1] == '{' {
            '}'
        } else {
            '%'
        };
        lemma_find_pair(cs, i + 2, closer, '}');
        match find_pair(cs, i + 2, closer, '}') {
            Some(e) => {
                lemma_lex_clean(cs, e + 2, e + 2);
                lemma_piece_clean(cs, last, i);
                let t = if cs[i + 1] == '{' {
                    TokenV::Expr(cs.subrange(i + 2, e))
                } else {
                    TokenV::Tag(cs.subrange(i + 2, e))
                };
                assert(comments_dropped(seq![t]));
                lemma_dropped_concat(text_piece(cs, last, i), seq![t]);
                lemma_dropped_concat(text_piece(cs, last, i) + seq![t], lex_from(cs, e + 2, e + 2));
            },
            None => {
                assert(!pair_at(cs, i, '{', '#'));
                lemma_lex_clean(cs, i + 1, last);
            },
        }
    } else if cs[i] == '{' && cs[i + 1] == '#' {
        lemma_find_pair(cs, i + 2, '#', '}');
        lemma_piece_clean(cs, last, i);
        match find_pair(cs, i + 2, '#', '}') {
            Some(e) => {
                lemma_lex_clean(cs, e + 2, e + 2);
                lemma_dropped_concat(text_piece(cs, last, i), lex_from(cs, e + 2, e + 2));
            },
            None => {},
        }
    } else {
        assert(!pair_at(cs, i, '{', '#'));
        lemma_lex_clean(cs, i + 1, last);
    }
}

/// Comments are dropped: no text token holds the `{#` that opens one.
pub proof fn law_comments_are_dropped(cs: Seq<char>)
    ensures
        comments_dropped(spec_tokenize(cs)),
{
    lemma_lex_clean(cs, 0, 0);
}

/// A token shown back as template source.
pub open spec fn show(t: TokenV) -> Seq<char> {
    match t {
        TokenV::Text(s) => s,
        TokenV::Expr(s) => seq!['{', '{'] + s + seq!['}', '}'],
        TokenV::Tag(s) => seq!['{', '%'] + s + seq!['%', '}'],
    }
}

/// Tokens shown back one after the other.
pub open spec fn show_all(ts: Seq<TokenV>) -> Seq<char>
    decreases ts.len(),
{
    if ts.len() == 0 {
        Seq::empty()
    } else {
        show(ts[0]) + show_all(ts.skip(1))
    }
}

proof fn lemma_show_all_concat(a: Seq<TokenV>, b: Seq<TokenV>)
    ensures
        show_all(a + b) == show_all(a) + show_all(b),
    decreases a.len(),
{
    if a.len() == 0 {
        assert(a + b =~= b);
    } else {
        assert((a + b).skip(1) =~= a.skip(1) + b);
        lemma_show_all_concat(a.skip(1), b);
        assert(show_all(a) + show_all(b) =~= show(a[0]) + (show_all(a.skip(1)) + show_all(b)));
    }
}

proof fn lemma_show_piece(cs: Seq<char>, a: int, b: int)
    requires
        0 <= a <= b <= cs.len(),
    ensures
        show_all(text_piece(cs, a, b)) == cs.subrange(a, b),
{
    if a < b {
        let ts = text_piece(cs, a, b);
        assert(ts.skip(1) =~= Seq::<TokenV>::empty());
        assert(show_all(ts.skip(1)) == Seq::<char>::empty());
        assert(show_all(ts) =~= cs.subrange(a, b));
    } else {
        assert(cs.subrange(a, b) =~= Seq::<char>::empty());
    }
}

proof fn lemma_lex_shows_back(cs: Seq<char>, i: int, last: int)
    requires
        0 <= last <= i <= cs.len(),
        no_pair(cs, '{', '#'),
    ensures
        show_all(lex_from(cs, i, last)) == cs.subrange(last, cs.len() as int),
    decreases cs.len() - i,
{
    let n = cs.len() as int;
    if i + 1 >= n {
        lemma_show_piece(cs, last, n);
    } else if cs[i] == '{' && (cs[i + 1] == '{' || cs[i + 1] == '%') {
        let closer = if cs[i + 1] == '{' {
            '}'
        } else {
            '%'
        };
        lemma_find_pair(cs, i + 2, closer, '}');
        match find_pair(cs, i + 2, closer, '}') {
            Some(e) => {
                lemma_lex_shows_back(cs, e + 2, e + 2);
                lemma_show_piece(cs, last, i);
                let t = if cs[i + 1] == '{' {
                    TokenV::Expr(cs.subrange(i + 2, e))
                } else {
                    TokenV::Tag(cs.subrange(i + 2, e))
                };
                lemma_show_all_concat(text_piece(cs, last, i), seq![t]);
                lemma_show_all_concat(text_piece(cs, last, i) + seq![t], lex_from(cs, e + 2, e + 2));
                assert(seq![t].skip(1) =~= Seq::<TokenV>::empty());
                assert(show_all(seq![t].skip(1)) == Seq::<char>::empty());
                assert(seq![t][0] == t);
                assert(show_all(seq![t]) =~= show(t));
                assert(show(t) =~= cs.subrange(i, e + 2));
                assert(cs.subrange(last, i) + cs.subrange(i, e + 2) + cs.subrange(e + 2, n)
                    =~= cs.subrange(last, n));
            },
            None => {
                lemma_lex_shows_back(cs, i + 1, last);
            },
        }
    } else if cs[i] == '{' && cs[i + 1] == '#' {
        assert(pair_at(cs, i, '{', '#'));
    } else {
        lemma_lex_shows_back(cs, i + 1, last);
    }
}

/// A source without comment openers is its tokens shown back in order:
/// nothing is lost or added, and each text token is a non-empty run.
pub proof fn law_tokens_show_back_the_source(cs: Seq<char>)
    requires
        no_pair(cs, '{', '#'),
    ensures
        show_all(spec_tokenize(cs)) == cs,
        forall|j: int|
            0 <= j < spec_tokenize(cs).len() ==> (#[trigger] spec_tokenize(cs)[j] matches TokenV::Text(s)
                ==> s.len() > 0),
{
    lemma_lex_shows_back(cs, 0, 0);
    assert(cs.subrange(0, cs.len() as int) =~= cs);
    lemma_text_nonempty(cs, 0, 0);
}

proof fn lemma_text_nonempty(cs: Seq<char>, i: int, last: int)
    requires
        0 <= last,
    ensures
        forall|j: int|
            0 <= j < lex_from(cs, i, last).len() ==> (#[trigger] lex_from(cs, i, last)[j] matches TokenV::Text(
                s,
            ) ==> s.len() > 0),
    decreases cs.len() - i,
{
    let r = lex_from(cs, i, last);
    if i < 0 || i + 1 >= cs.len() {
    } else if cs[i] == '{' && (cs[i + 1] == '{' || cs[i + 1] == '%') {
        let closer = if cs[i + 1] == '{' {
            '}'
        } else {
            '%'
        };
        lemma_find_pair(cs, i + 2, closer, '}');
        match find_pair(cs, i + 2, closer, '}') {
            Some(e) => {
                lemma_text_nonempty(cs, e + 2, e + 2);
                let a = text_piece(cs, last, i);
                let t = if cs[i + 1] == '{' {
                    TokenV::Expr(cs.subrange(i + 2, e))
                } else {
                    TokenV::Tag(cs.subrange(i + 2, e))
                };
                let b = lex_from(cs, e + 2, e + 2);
                assert forall|j: int| 0 <= j < r.len() implies (#[trigger] r[j] matches TokenV::Text(s)
                    ==> s.len() > 0) by {
                    if j < a.len() {
                        assert(r[j] == a[j]);
                    } else if j == a.len() {
                        assert(r[j] == t);
                    } else {
                        assert(r[j] == b[j - a.len() - 1]);
                    }
                }
            },
            None => {
                lemma_text_nonempty(cs, i + 1, last);
            },
        }
    } else if cs[i] == '{' && cs[i + 1] == '#' {
        lemma_find_pair(cs, i + 2, '#', '}');
        match find_pair(cs, i + 2, '#', '}') {
            Some(e) => {
                lemma_text_nonempty(cs, e + 2, e + 2);
                let a = text_piece(cs, last, i);
                let b = lex_from(cs, e + 2, e + 2);
                assert forall|j: int| 0 <= j < r.len() implies (#[trigger] r[j] matches TokenV::Text(s)
                    ==> s.len() > 0) by {
                    if j < a.len() {
                        assert(r[j] == a[j]);
                    } else {
                        assert(r[j] == b[j - a.len()]);
                    }
                }
            },
            None => {},
        }
    } else {
        lemma_text_nonempty(cs, i + 1, last);
    }
}

/// A piece of template source as the lexer reads it: a token, or a
/// dropped comment (its whole text, delimiters included).
pub enum Piece {
    Tok(TokenV),
    Comment(Seq<char>),
}

/// Text tokens as pieces.
pub open spec fn text_pieces(cs: Seq<char>, a: int, b: int) -> Seq<Piece> {
    text_piece(cs, a, b).map_values(|t: TokenV| Piece::Tok(t))
}

/// The pieces of `cs` from position `i` on, where the text not yet emitted
/// starts at `last`: what `lex_from` reads, with the comments it drops.
pub open spec fn lex_pieces(cs: Seq<char>, i: int, last: int) -> Seq<Piece>
    decreases cs.len() - i,
{
    if i < 0 || i + 1 >= cs.len() {
        text_pieces(cs, last, cs.len() as int)
    } else if cs[i] == '{' && cs[i + 1] == '{' {
        proof {
            lemma_find_pair(cs, i + 2, '}', '}');
        }
        match find_pair(cs, i + 2, '}', '}') {
            Some(e) => text_pieces(cs, last, i) + seq![Piece::Tok(TokenV::Expr(cs.subrange(i + 2, e)))]
                + lex_pieces(cs, e + 2, e + 2),
            None => lex_pieces(cs, i + 1, last),
        }
    } else if cs[i] == '{' && cs[i + 1] == '%' {
        proof {
            lemma_find_pair(cs, i + 2, '%', '}');
        }
        match find_pair(cs, i + 2, '%', '}') {
            Some(e) => text_pieces(cs, last, i) + seq![Piece::Tok(TokenV::Tag(cs.subrange(i + 2, e)))]
                + lex_pieces(cs, e + 2, e + 2),
            None => lex_pieces(cs, i + 1, last),
        }
    } else if cs[i] == '{' && cs[i + 1] == '#' {
        proof {
            lemma_find_pair(cs, i + 2, '#', '}');
        }
        match find_pair(cs, i + 2, '#', '}') {
            Some(e) => text_pieces(cs, last, i) + seq![Piece::Comment(cs.subrange(i, e + 2))]
                + lex_pieces(cs, e + 2, e + 2),
            None => text_pieces(cs, last, i) + seq![Piece::Comment(cs.subrange(i, cs.len() as int))],
        }
    } else {
        lex_pieces(cs, i + 1, last)
    }
}

/// The tokens among the pieces, in order.
pub open spec fn tokens_of(ps: Seq<Piece>) -> Seq<TokenV>
    decreases ps.len(),
{
    if ps.len() == 0 {
        Seq::empty()
    } else {
        (match ps[0] {
            Piece::Tok(t) => seq![t],
            Piece::Comment(_) => Seq::empty(),
        }) + tokens_of(ps.skip(1))
    }
}

/// A piece shown back as template source.
pub open spec fn show_piece(p: Piece) -> Seq<char> {
    match p {
        Piece::Tok(t) => show(t),
        Piece::Comment(c) => c,
    }
}

/// Pieces shown back one after the other.
pub open spec fn show_pieces(ps: Seq<Piece>) -> Seq<char>
    decreases ps.len(),
{
    if ps.len() == 0 {
        Seq::empty()
    } else {
        show_piece(ps[0]) + show_pieces(ps.skip(1))
    }
}

/// A closed comment: `{#`, a body without `#}`, then `#}`.
pub open spec fn closed_comment(c: Seq<char>) -> bool {
    &&& c.len() >= 4
    &&& c[0] == '{' && c[1] == '#'
    &&& c[c.len() - 2] == '#' && c[c.len() - 1] == '}'
    &&& no_pair(c.subrange(2, c.len() - 2), '#', '}')
}

/// An unclosed comment: `{#` and a rest without `#}`.
pub open spec fn open_comment(c: Seq<char>) -> bool {
    &&& c.len() >= 2
    &&& c[0] == '{' && c[1] == '#'
    &&& no_pair(c.skip(2), '#', '}')
}

/// Whether every comment among the pieces is closed, but for one unclosed
/// comment that may end them.
pub open spec fn comments_well_formed(ps: Seq<Piece>) -> bool {
    forall|j: int|
        0 <= j < ps.len() ==> match #[trigger] ps[j] {
            Piece::Comment(c) => closed_comment(c) || (j == ps.len() - 1 && open_comment(c)),
            Piece::Tok(_) => true,
        }
}

proof fn lemma_pieces_concat(a: Seq<Piece>, b: Seq<Piece>)
    ensures
        tokens_of(a + b) == tokens_of(a) + tokens_of(b),
        show_pieces(a + b) == show_pieces(a) + show_pieces(b),
    decreases a.len(),
{
    if a.len() == 0 {
        assert(a + b =~= b);
    } else {
        assert((a + b).skip(1) =~= a.skip(1) + b);
        assert((a + b)[0] == a[0]);
        lemma_pieces_concat(a.skip(1), b);
        let h = match a[0] {
            Piece::Tok(t) => seq![t],
            Piece::Comment(_) => Seq::<TokenV>::empty(),
        };
        assert(tokens_of(a + b) =~= tokens_of(a) + tokens_of(b)) by {
            assert(tokens_of(a + b) == h + tokens_of(a.skip(1) + b));
        }
        assert(show_pieces(a + b) =~= show_pieces(a) + show_pieces(b)) by {
            assert(show_pieces(a + b) == show_piece(a[0]) + show_pieces(a.skip(1) + b));
        }
    }
}

proof fn lemma_single_piece(p: Piece)
    ensures
        tokens_of(seq![p]) == (match p {
            Piece::Tok(t) => seq![t],
            Piece::Comment(_) => Seq::<TokenV>::empty(),
        }),
        show_pieces(seq![p]) == show_piece(p),
{
    assert(seq![p].skip(1) =~= Seq::<Piece>::empty());
    assert(seq![p][0] == p);
    assert(tokens_of(seq![p].skip(1)) == Seq::<TokenV>::empty());
    assert(show_pieces(seq![p].skip(1)) == Seq::<char>::empty());
    assert(show_pieces(seq![p]) =~= show_piece(p));
    match p {
        Piece::Tok(t) => {
            assert(tokens_of(seq![p]) =~= seq![t]);
        },
        Piece::Comment(_) => {
            assert(tokens_of(seq![p]) =~= Seq::<TokenV>::empty());
        },
    }
}

proof fn lemma_text_pieces(cs: Seq<char>, a: int, b: int)
    requires
        0 <= a,
        b <= cs.len(),
    ensures
        tokens_of(text_pieces(cs, a, b)) == text_piece(cs, a, b),
        a <= b ==> show_pieces(text_pieces(cs, a, b)) == cs.subrange(a, b),
        comments_well_formed(text_pieces(cs, a, b)),
{
    if a < b {
        let t = TokenV::Text(cs.subrange(a, b));
        assert(text_pieces(cs, a, b) =~= seq![Piece::Tok(t)]);
        lemma_single_piece(Piece::Tok(t));
    } else {
        assert(text_pieces(cs, a, b) =~= Seq::<Piece>::empty());
        if a <= b {
            assert(cs.subrange(a, b) =~= Seq::<char>::empty());
        }
    }
}

proof fn lemma_wf_concat(a: Seq<Piece>, b: Seq<Piece>)
    requires
        comments_well_formed(b),
        forall|j: int| 0 <= j < a.len() ==> match #[trigger] a[j] {
            Piece::Comment(c) => closed_comment(c),
            Piece::Tok(_) => true,
        },
    ensures
        comments_well_formed(a + b),
{
    assert forall|j: int| 0 <= j < (a + b).len() implies match #[trigger] (a + b)[j] {
        Piece::Comment(c) => closed_comment(c) || (j == (a + b).len() - 1 && open_comment(c)),
        Piece::Tok(_) => true,
    } by {
        if j < a.len() {
            assert((a + b)[j] == a[j]);
        } else {
            assert((a + b)[j] == b[j - a.len()]);
        }
    }
}

proof fn lemma_lex_pieces(cs: Seq<char>, i: int, last: int)
    requires
        0 <= last <= i <= cs.len(),
    ensures
        tokens_of(lex_pieces(cs, i, last)) == lex_from(cs, i, last),
        show_pieces(lex_pieces(cs, i, last)) == cs.subrange(last, cs.len() as int),
        comments_well_formed(lex_pieces(cs, i, last)),
    decreases cs.len() - i,
{
    let n = cs.len() as int;
    if i + 1 >= n {
        lemma_text_pieces(cs, last, n);
    } else if cs[i] == '{' && (cs[i + 1] == '{' || cs[i + 1] == '%') {
        let closer = if cs[i + 1] == '{' {
            '}'
        } else {
            '%'
        };
        lemma_find_pair(cs, i + 2, closer, '}');
        match find_pair(cs, i + 2, closer, '}') {
            Some(e) => {
                lemma_lex_pieces(cs, e + 2, e + 2);
                lemma_text_pieces(cs, last, i);
                let t = if cs[i + 1] == '{' {
                    TokenV::Expr(cs.subrange(i + 2, e))
                } else {
                    TokenV::Tag(cs.subrange(i + 2, e))
                };
                let a = text_pieces(cs, last, i);
                let m = seq![Piece::Tok(t)];
                let r = lex_pieces(cs, e + 2, e + 2);
                lemma_single_piece(Piece::Tok(t));
                lemma_pieces_concat(a, m);
                lemma_pieces_concat(a + m, r);
                assert(show(t) =~= cs.subrange(i, e + 2));
                assert(cs.subrange(last, i) + cs.subrange(i, e + 2) + cs.subrange(e + 2, n)
                    =~= cs.subrange(last, n));
                assert(forall|j: int| 0 <= j < (a + m).len() ==> (#[trigger] (a + m)[j]) is Tok) by {
                    assert forall|j: int| 0 <= j < (a + m).len() implies (#[trigger] (a + m)[j]) is Tok by {
                        if j < a.len() {
                            assert((a + m)[j] == a[j]);
                        } else {
                            assert((a + m)[j] == m[j - a.len()]);
                        }
                    }
                }
                lemma_wf_concat(a + m, r);
            },
            None => {
                lemma_lex_pieces(cs, i + 1, last);
            },
        }
    } else if cs[i] == '{' && cs[i + 1] == '#' {
        lemma_find_pair(cs, i + 2, '#', '}');
        lemma_text_pieces(cs, last, i);
        let a = text_pieces(cs, last, i);
        match find_pair(cs, i + 2, '#', '}') {
            Some(e) => {
                lemma_lex_pieces(cs, e + 2, e + 2);
                lemma_inside_no_pair(cs, i + 2, '#', '}');
                let c = cs.subrange(i, e + 2);
                let m = seq![Piece::Comment(c)];
                let r = lex_pieces(cs, e + 2, e + 2);
                lemma_single_piece(Piece::Comment(c));
                lemma_pieces_concat(a, m);
                lemma_pieces_concat(a + m, r);
                assert(c.subrange(2, c.len() - 2) =~= cs.subrange(i + 2, e));
                assert(closed_comment(c));
                assert(cs.subrange(last, i) + c + cs.subrange(e + 2, n) =~= cs.subrange(last, n));
                assert forall|j: int| 0 <= j < (a + m).len() implies match #[trigger] (a + m)[j] {
                    Piece::Comment(x) => closed_comment(x),
                    Piece::Tok(_) => true,
                } by {
                    if j < a.len() {
                        assert((a + m)[j] == a[j]);
                    } else {
                        assert((a + m)[j] == m[j - a.len()]);
                    }
                }
                lemma_wf_concat(a + m, r);
                assert(text_piece(cs, last, i) + Seq::<TokenV>::empty() + lex_from(cs, e + 2, e + 2)
                    =~= text_piece(cs, last, i) + lex_from(cs, e + 2, e + 2));
            },
            None => {
                let c = cs.subrange(i, n);
                let m = seq![Piece::Comment(c)];
                lemma_single_piece(Piece::Comment(c));
                lemma_pieces_concat(a, m);
                assert(c.skip(2) =~= cs.subrange(i + 2, n));
                assert(no_pair(c.skip(2), '#', '}')) by {
                    assert forall|q: int| !#[trigger] pair_at(c.skip(2), q, '#', '}') by {
                        if pair_at(c.skip(2), q, '#', '}') {
                            assert(c.skip(2)[q] == cs[i + 2 + q]);
                            assert(c.skip(2)[q + 1] == cs[i + 2 + q + 1]);
                            assert(pair_at(cs, i + 2 + q, '#', '}'));
                        }
                    }
                }
                assert(open_comment(c));
                assert(cs.subrange(last, i) + c =~= cs.subrange(last, n));
                assert(text_piece(cs, last, i) + Seq::<TokenV>::empty() =~= text_piece(cs, last, i));
                assert forall|j: int| 0 <= j < (a + m).len() implies match #[trigger] (a + m)[j] {
                    Piece::Comment(x) => closed_comment(x) || (j == (a + m).len() - 1 && open_comment(x)),
                    Piece::Tok(_) => true,
                } by {
                    if j < a.len() {
                        assert((a + m)[j] == a[j]);
                    } else {
                        assert((a + m)[j] == m[j - a.len()]);
                    }
                }
            },
        }
    } else {
        lemma_lex_pieces(cs, i + 1, last);
    }
}

/// Every source is its tokens shown back in order with only comments
/// between them: the lexer's pieces are the tokens of `tokenize`
/// interleaved with the comments it drops, they show back as the source,
/// and each comment is `{#`, a body without `#}` and `#}`, but for an
/// unclosed last one that runs to the end.
pub proof fn law_source_is_tokens_and_comments(cs: Seq<char>)
    ensures
        tokens_of(lex_pieces(cs, 0, 0)) == spec_tokenize(cs),
        show_pieces(lex_pieces(cs, 0, 0)) == cs,
        comments_well_formed(lex_pieces(cs, 0, 0)),
{
    lemma_lex_pieces(cs, 0, 0);
    assert(cs.subrange(0, cs.len() as int) =~= cs);
}

} // verus!
