//! Name mapping between template (camelCase, bean-style) names and the
//! snake_case names that host objects expose, and output escaping.
use vstd::prelude::*;
use crate::text::{chars_of, push_char, string_of, chars_eq, has_prefix_at, to_lowercase, lowercase_of};

verus! {

/// An ASCII uppercase letter.
pub open spec fn is_ascii_upper(c: char) -> bool {
    'A' <= c && c <= 'Z'
}

/// An ASCII lowercase letter.
pub open spec fn is_ascii_lower(c: char) -> bool {
    'a' <= c && c <= 'z'
}

/// The ASCII lowercase letter of an ASCII uppercase letter.
pub open spec fn ascii_lower(c: char) -> char {
    ((c as u32) + 32) as char
}

/// What `camel_to_snake` writes for the character at `i`: an uppercase
/// letter becomes its lowercase, preceded by `_` when the character before
/// it is a lowercase letter or `_`; any other character stays.
pub open spec fn snake_piece(cs: Seq<char>, i: int) -> Seq<char> {
    let c = cs[i];
    if is_ascii_upper(c) {
        if i > 0 && (is_ascii_lower(cs[i - 1]) || cs[i - 1] == '_') {
            seq!['_', ascii_lower(c)]
        } else {
            seq![ascii_lower(c)]
        }
    } else {
        seq![c]
    }
}

/// The pieces of the first `k` characters of `cs`, in order.
pub open spec fn snake_prefix(cs: Seq<char>, k: int) -> Seq<char>
    decreases k,
{
    if k <= 0 {
        Seq::empty()
    } else {
        snake_prefix(cs, k - 1) + snake_piece(cs, k - 1)
    }
}

/// The snake_case form of a camelCase name.
pub open spec fn spec_camel_to_snake(cs: Seq<char>) -> Seq<char> {
    snake_prefix(cs, cs.len() as int)
}

fn lower_ascii(c: char) -> (r: char)
    requires
        is_ascii_upper(c),
    ensures
        r == ascii_lower(c),
{
    let x: u8 = (c as u8) + 32;
    x as char
}

fn snake_of_chars(cs: &Vec<char>) -> (out: String)
    ensures
        out@ == spec_camel_to_snake(cs@),
{
    let mut out = String::new();
    let mut prev_lower = false;
    let mut i: usize = 0;
    while i < cs.len()
        invariant
            i <= cs.len(),
            out@ == snake_prefix(cs@, i as int),
            i > 0 ==> prev_lower == (is_ascii_lower(cs@[i - 1]) || cs@[i - 1] == '_'),
        decreases cs.len() - i,
    {
        let c = cs[i];
        if 'A' <= c && c <= 'Z' {
            if i > 0 && prev_lower {
                push_char(&mut out, '_');
            }
            push_char(&mut out, lower_ascii(c));
        } else {
            push_char(&mut out, c);
        }
        prev_lower = ('a' <= c && c <= 'z') || c == '_';
        proof {
            assert(out@ =~= snake_prefix(cs@, i as int) + snake_piece(cs@, i as int));
        }
        i = i + 1;
    }
    out
}

/// `camelCase` -> `snake_case` (template names are camelCase; the
/// host object adapters expose snake_case names).
pub fn camel_to_snake(name: &str) -> (out: String)
    ensures
        out@ == spec_camel_to_snake(name@),
{
    let cs = chars_of(name);
    snake_of_chars(&cs)
}

/// The strings of a sequence, each by its characters.
pub open spec fn strings_v(v: Seq<String>) -> Seq<Seq<char>> {
    v.map_values(|s: String| s@)
}

/// The property-access name candidates of a template name, in try order:
/// the name itself, then its snake_case form if that differs, then its
/// lowercase form if that differs from the name and is not yet listed.
pub open spec fn spec_name_variants(name: Seq<char>) -> Seq<Seq<char>> {
    let snake = spec_camel_to_snake(name);
    let lower = lowercase_of(name);
    let first = if snake != name {
        seq![name, snake]
    } else {
        seq![name]
    };
    if lower != name && !first.contains(lower) {
        first.push(lower)
    } else {
        first
    }
}

/// Whether `v` holds a string equal to `s`.
fn contains_string(v: &Vec<String>, s: &String) -> (r: bool)
    ensures
        r == strings_v(v@).contains(s@),
{
    let mut k: usize = 0;
    while k < v.len()
        invariant
            k <= v.len(),
            forall|j: int| 0 <= j < k ==> v@[j]@ != s@,
        decreases v.len() - k,
    {
        if v[k] == *s {
            proof {
                assert(strings_v(v@)[k as int] == s@);
            }
            return true;
        }
        k = k + 1;
    }
    proof {
        if strings_v(v@).contains(s@) {
            let j = choose|j: int| 0 <= j < strings_v(v@).len() && strings_v(v@)[j] == s@;
            assert(v@[j]@ == s@);
        }
    }
    false
}

/// Appends `s` to `v` unless `v` already holds an equal string.
pub open spec fn push_unique(v: Seq<Seq<char>>, s: Seq<char>) -> Seq<Seq<char>> {
    if v.contains(s) {
        v
    } else {
        v.push(s)
    }
}

fn push_unique_exec(v: &mut Vec<String>, s: String)
    ensures
        strings_v(final(v)@) == push_unique(strings_v(old(v)@), s@),
{
    if !contains_string(v, &s) {
        let ghost before = v@;
        v.push(s);
        proof {
            assert(strings_v(v@) =~= strings_v(before).push(s@));
        }
    }
}

/// Property-access name candidates in try order for a template name.
pub fn name_variants(name: &str) -> (out: Vec<String>)
    ensures
        strings_v(out@) == spec_name_variants(name@),
{
    let snake = camel_to_snake(name);
    let lower = to_lowercase(name);
    let name_s = name.to_owned();
    let mut out: Vec<String> = Vec::new();
    out.push(name_s);
    let ghost name_v = name@;
    proof {
        assert(strings_v(out@) =~= seq![name_v]);
    }
    let name_again = name.to_owned();
    if snake != name_again {
        out.push(snake);
        proof {
            assert(strings_v(out@) =~= seq![name_v, spec_camel_to_snake(name_v)]);
        }
    }
    if lower != name_again && !contains_string(&out, &lower) {
        let ghost before = out@;
        out.push(lower);
        proof {
            assert(strings_v(out@) =~= strings_v(before).push(lowercase_of(name_v)));
        }
    }
    out
}

/// The name with the prefix `p` removed, when it starts with `p` and more
/// follows.
pub open spec fn strip_nonempty(name: Seq<char>, p: Seq<char>) -> Option<Seq<char>> {
    if name.len() > p.len() && name.subrange(0, p.len() as int) == p {
        Some(name.skip(p.len() as int))
    } else {
        None
    }
}

/// One bean-style prefix step of `call_variants`: when the name starts with
/// `p` and more follows, the rest and its snake_case form are added.
pub open spec fn prefix_step(v: Seq<Seq<char>>, name: Seq<char>, p: Seq<char>) -> Seq<Seq<char>> {
    match strip_nonempty(name, p) {
        Some(rest) => push_unique(push_unique(v, rest), spec_camel_to_snake(rest)),
        None => v,
    }
}

/// The method-call name candidates of a template name, in try order and
/// without repeats: the name, its snake_case form, for each of the prefixes
/// `get`, `is`, `set` that the name starts with (and more follows) the rest
/// and the rest's snake_case form, then the lowercase form.
pub open spec fn spec_call_variants(name: Seq<char>) -> Seq<Seq<char>> {
    let v1 = push_unique(seq![name], spec_camel_to_snake(name));
    let v2 = prefix_step(v1, name, seq!['g', 'e', 't']);
    let v3 = prefix_step(v2, name, seq!['i', 's']);
    let v4 = prefix_step(v3, name, seq!['s', 'e', 't']);
    push_unique(v4, lowercase_of(name))
}

fn prefix_step_exec(out: &mut Vec<String>, cs: &Vec<char>, p: &Vec<char>)
    ensures
        strings_v(final(out)@) == prefix_step(strings_v(old(out)@), cs@, p@),
{
    if has_prefix_at(cs, 0, p) && cs.len() > p.len() {
        let rest = string_of(cs, p.len(), cs.len());
        let rest_chars = chars_of(rest.as_str());
        let snake = snake_of_chars(&rest_chars);
        proof {
            assert(cs@.skip(p@.len() as int) =~= cs@.subrange(p@.len() as int, cs@.len() as int));
        }
        push_unique_exec(out, rest);
        push_unique_exec(out, snake);
    }
}

/// Method-call name candidates in try order (`getId` also resolves to `id`).
pub fn call_variants(name: &str) -> (out: Vec<String>)
    ensures
        strings_v(out@) == spec_call_variants(name@),
{
    let cs = chars_of(name);
    let mut out: Vec<String> = Vec::new();
    out.push(name.to_owned());
    proof {
        assert(strings_v(out@) =~= seq![name@]);
    }
    push_unique_exec(&mut out, snake_of_chars(&cs));
    let get_p: Vec<char> = vec!['g', 'e', 't'];
    let is_p: Vec<char> = vec!['i', 's'];
    let set_p: Vec<char> = vec!['s', 'e', 't'];
    proof {
        assert(get_p@ =~= seq!['g', 'e', 't']);
        assert(is_p@ =~= seq!['i', 's']);
        assert(set_p@ =~= seq!['s', 'e', 't']);
    }
    prefix_step_exec(&mut out, &cs, &get_p);
    prefix_step_exec(&mut out, &cs, &is_p);
    prefix_step_exec(&mut out, &cs, &set_p);
    push_unique_exec(&mut out, to_lowercase(name));
    out
}

/// What `html_escape` writes for one character.
pub open spec fn html_piece(c: char) -> Seq<char> {
    if c == '&' {
        seq!['&', 'a', 'm', 'p', ';']
    } else if c == '<' {
        seq!['&', 'l', 't', ';']
    } else if c == '>' {
        seq!['&', 'g', 't', ';']
    } else if c == '"' {
        seq!['&', 'q', 'u', 'o', 't', ';']
    } else if c == '\'' {
        seq!['&', '#', '3', '9', ';']
    } else {
        seq![c]
    }
}

/// What `js_escape` writes for one character.
pub open spec fn js_piece(c: char) -> Seq<char> {
    if c == '\\' {
        seq!['\\', '\\']
    } else if c == '\'' {
        seq!['\\', '\'']
    } else if c == '"' {
        seq!['\\', '"']
    } else if c == '\n' {
        seq!['\\', 'n']
    } else if c == '\r' {
        seq!['\\', 'r']
    } else {
        seq![c]
    }
}

/// The HTML-escaped form of `cs`: each character replaced by its piece.
pub open spec fn spec_html_escape(cs: Seq<char>) -> Seq<char>
    decreases cs.len(),
{
    if cs.len() == 0 {
        Seq::empty()
    } else {
        spec_html_escape(cs.drop_last()) + html_piece(cs.last())
    }
}

/// The JavaScript-string-escaped form of `cs`.
pub open spec fn spec_js_escape(cs: Seq<char>) -> Seq<char>
    decreases cs.len(),
{
    if cs.len() == 0 {
        Seq::empty()
    } else {
        spec_js_escape(cs.drop_last()) + js_piece(cs.last())
    }
}

fn push_pieces(out: &mut String, pieces: &[char])
    ensures
        final(out)@ == old(out)@ + pieces@,
{
    let mut k: usize = 0;
    while k < pieces.len()
        invariant
            k <= pieces@.len(),
            out@ == old(out)@ + pieces@.subrange(0, k as int),
        decreases pieces.len() - k,
    {
        push_char(out, pieces[k]);
        proof {
            assert(pieces@.subrange(0, k + 1) =~= pieces@.subrange(0, k as int).push(pieces@[k as int]));
        }
        k = k + 1;
    }
    proof {
        assert(pieces@.subrange(0, pieces@.len() as int) =~= pieces@);
    }
}

/// HTML escaping (the `html` mode of `autoescape` and of the `escape` filter).
pub fn html_escape(s: &str) -> (out: String)
    ensures
        out@ == spec_html_escape(s@),
{
    let cs = chars_of(s);
    let mut out = String::new();
    let mut i: usize = 0;
    while i < cs.len()
        invariant
            i <= cs.len(),
            out@ == spec_html_escape(cs@.take(i as int)),
        decreases cs.len() - i,
    {
        let c = cs[i];
        proof {
            assert(cs@.take(i + 1).drop_last() =~= cs@.take(i as int));
        }
        if c == '&' {
            push_pieces(&mut out, &['&', 'a', 'm', 'p', ';']);
        } else if c == '<' {
            push_pieces(&mut out, &['&', 'l', 't', ';']);
        } else if c == '>' {
            push_pieces(&mut out, &['&', 'g', 't', ';']);
        } else if c == '"' {
            push_pieces(&mut out, &['&', 'q', 'u', 'o', 't', ';']);
        } else if c == '\'' {
            push_pieces(&mut out, &['&', '#', '3', '9', ';']);
        } else {
            push_char(&mut out, c);
        }
        proof {
            assert(out@ =~= spec_html_escape(cs@.take(i as int)) + html_piece(c));
        }
        i = i + 1;
    }
    proof {
        assert(cs@.take(cs@.len() as int) =~= cs@);
    }
    out
}

/// JavaScript string escaping (`escape('js')`).
pub fn js_escape(s: &str) -> (out: String)
    ensures
        out@ == spec_js_escape(s@),
{
    let cs = chars_of(s);
    let mut out = String::new();
    let mut i: usize = 0;
    while i < cs.len()
        invariant
            i <= cs.len(),
            out@ == spec_js_escape(cs@.take(i as int)),
        decreases cs.len() - i,
    {
        let c = cs[i];
        proof {
            assert(cs@.take(i + 1).drop_last() =~= cs@.take(i as int));
        }
        if c == '\\' {
            push_pieces(&mut out, &['\\', '\\']);
        } else if c == '\'' {
            push_pieces(&mut out, &['\\', '\'']);
        } else if c == '"' {
            push_pieces(&mut out, &['\\', '"']);
        } else if c == '\n' {
            push_pieces(&mut out, &['\\', 'n']);
        } else if c == '\r' {
            push_pieces(&mut out, &['\\', 'r']);
        } else {
            push_char(&mut out, c);
        }
        proof {
            assert(out@ =~= spec_js_escape(cs@.take(i as int)) + js_piece(c));
        }
        i = i + 1;
    }
    proof {
        assert(cs@.take(cs@.len() as int) =~= cs@);
    }
    out
}

/// Escapes `s` for the escaping mode `mode`: `js` selects JavaScript string
/// escaping, any other mode HTML escaping.
pub fn escape(mode: &str, s: &str) -> (out: String)
    ensures
        out@ == (if mode@ == seq!['j', 's'] {
            spec_js_escape(s@)
        } else {
            spec_html_escape(s@)
        }),
{
    let m = chars_of(mode);
    let js: Vec<char> = vec!['j', 's'];
    proof {
        assert(js@ =~= seq!['j', 's']);
    }
    if chars_eq(&m, &js) {
        js_escape(s)
    } else {
        html_escape(s)
    }
}

} // verus!

verus! {

/// Whether `c` occurs nowhere in `s`.
pub open spec fn lacks(s: Seq<char>, c: char) -> bool {
    forall|i: int| 0 <= i < s.len() ==> #[trigger] s[i] != c
}

proof fn lemma_lacks_concat(a: Seq<char>, b: Seq<char>, c: char)
    requires
        lacks(a, c),
        lacks(b, c),
    ensures
        lacks(a + b, c),
{
    assert forall|i: int| 0 <= i < (a + b).len() implies #[trigger] (a + b)[i] != c by {
        if i < a.len() {
            assert((a + b)[i] == a[i]);
        } else {
            assert((a + b)[i] == b[i - a.len()]);
        }
    }
}

/// HTML escaping leaves none of `<`, `>`, `"` and `'` in its output.
pub proof fn law_html_escape_leaves_no_markup(cs: Seq<char>)
    ensures
        lacks(spec_html_escape(cs), '<'),
        lacks(spec_html_escape(cs), '>'),
        lacks(spec_html_escape(cs), '"'),
        lacks(spec_html_escape(cs), '\''),
    decreases cs.len(),
{
    if cs.len() > 0 {
        law_html_escape_leaves_no_markup(cs.drop_last());
        let p = html_piece(cs.last());
        let r = spec_html_escape(cs.drop_last());
        assert(lacks(p, '<') && lacks(p, '>') && lacks(p, '"') && lacks(p, '\'')) by {
            assert forall|i: int| 0 <= i < p.len() implies #[trigger] p[i] != '<' && p[i] != '>'
                && p[i] != '"' && p[i] != '\'' by {}
        }
        lemma_lacks_concat(r, p, '<');
        lemma_lacks_concat(r, p, '>');
        lemma_lacks_concat(r, p, '"');
        lemma_lacks_concat(r, p, '\'');
    }
}

/// Text without `&`, `<`, `>`, `"` and `'` is its own HTML escape.
pub proof fn law_html_escape_keeps_plain_text(cs: Seq<char>)
    requires
        lacks(cs, '&'),
        lacks(cs, '<'),
        lacks(cs, '>'),
        lacks(cs, '"'),
        lacks(cs, '\''),
    ensures
        spec_html_escape(cs) == cs,
    decreases cs.len(),
{
    if cs.len() > 0 {
        let d = cs.drop_last();
        assert forall|i: int| 0 <= i < d.len() implies #[trigger] d[i] != '&' && d[i] != '<'
            && d[i] != '>' && d[i] != '"' && d[i] != '\'' by {
            assert(d[i] == cs[i]);
        }
        law_html_escape_keeps_plain_text(d);
        assert(cs.last() == cs[cs.len() - 1]);
        assert(d.push(cs.last()) =~= cs);
    }
}

/// JavaScript string escaping leaves no line break in its output.
pub proof fn law_js_escape_leaves_no_line_break(cs: Seq<char>)
    ensures
        lacks(spec_js_escape(cs), '\n'),
        lacks(spec_js_escape(cs), '\r'),
    decreases cs.len(),
{
    if cs.len() > 0 {
        law_js_escape_leaves_no_line_break(cs.drop_last());
        let p = js_piece(cs.last());
        let r = spec_js_escape(cs.drop_last());
        assert(lacks(p, '\n') && lacks(p, '\r')) by {
            assert forall|i: int| 0 <= i < p.len() implies #[trigger] p[i] != '\n' && p[i]
                != '\r' by {}
        }
        lemma_lacks_concat(r, p, '\n');
        lemma_lacks_concat(r, p, '\r');
    }
}

/// Whether `s` holds no ASCII uppercase letter.
pub open spec fn no_upper(s: Seq<char>) -> bool {
    forall|i: int| 0 <= i < s.len() ==> !is_ascii_upper(#[trigger] s[i])
}

proof fn lemma_snake_prefix_no_upper(cs: Seq<char>, k: int)
    ensures
        no_upper(snake_prefix(cs, k)),
    decreases k,
{
    if k > 0 {
        lemma_snake_prefix_no_upper(cs, k - 1);
        let a = snake_prefix(cs, k - 1);
        let p = snake_piece(cs, k - 1);
        assert(no_upper(p)) by {
            let c = cs[k - 1];
            if is_ascii_upper(c) {
                assert('a' <= ascii_lower(c) <= 'z');
            }
        }
        assert forall|i: int| 0 <= i < (a + p).len() implies !is_ascii_upper(#[trigger] (a + p)[i]) by {
            if i < a.len() {
                assert((a + p)[i] == a[i]);
            } else {
                assert((a + p)[i] == p[i - a.len()]);
            }
        }
    }
}

proof fn lemma_snake_prefix_plain(cs: Seq<char>, k: int)
    requires
        no_upper(cs),
        0 <= k <= cs.len(),
    ensures
        snake_prefix(cs, k) == cs.take(k),
    decreases k,
{
    if k > 0 {
        lemma_snake_prefix_plain(cs, k - 1);
        assert(cs.take(k) =~= cs.take(k - 1).push(cs[k - 1]));
    }
}

/// The snake_case form holds no ASCII uppercase letter.
pub proof fn law_camel_to_snake_lowercases(cs: Seq<char>)
    ensures
        no_upper(spec_camel_to_snake(cs)),
{
    lemma_snake_prefix_no_upper(cs, cs.len() as int);
}

/// A name without ASCII uppercase letters is its own snake_case form, so
/// `camel_to_snake` is idempotent.
pub proof fn law_camel_to_snake_idempotent(cs: Seq<char>)
    ensures
        no_upper(cs) ==> spec_camel_to_snake(cs) == cs,
        spec_camel_to_snake(spec_camel_to_snake(cs)) == spec_camel_to_snake(cs),
{
    if no_upper(cs) {
        lemma_snake_prefix_plain(cs, cs.len() as int);
        assert(cs.take(cs.len() as int) =~= cs);
    }
    law_camel_to_snake_lowercases(cs);
    let s = spec_camel_to_snake(cs);
    lemma_snake_prefix_plain(s, s.len() as int);
    assert(s.take(s.len() as int) =~= s);
}

/// Whether no string occurs twice in `v`.
pub open spec fn no_repeats(v: Seq<Seq<char>>) -> bool {
    forall|i: int, j: int| 0 <= i < j < v.len() ==> v[i] != v[j]
}

proof fn lemma_push_unique(v: Seq<Seq<char>>, s: Seq<char>)
    requires
        no_repeats(v),
    ensures
        no_repeats(push_unique(v, s)),
        push_unique(v, s).len() >= v.len(),
        forall|i: int| 0 <= i < v.len() ==> push_unique(v, s)[i] == v[i],
        push_unique(v, s).contains(s),
{
    if !v.contains(s) {
        let w = v.push(s);
        assert forall|i: int, j: int| 0 <= i < j < w.len() implies w[i] != w[j] by {
            if j == v.len() {
                assert(w[i] == v[i]);
            }
        }
        assert(w[v.len() as int] == s);
    }
}

/// The property-access candidates start with the name itself, list no name
/// twice, and hold the snake_case form.
pub proof fn law_name_variants_start_with_name(name: Seq<char>)
    ensures
        spec_name_variants(name)[0] == name,
        no_repeats(spec_name_variants(name)),
        spec_name_variants(name).contains(spec_camel_to_snake(name)),
{
    let snake = spec_camel_to_snake(name);
    let first = if snake != name {
        seq![name, snake]
    } else {
        seq![name]
    };
    assert(first.contains(snake)) by {
        if snake != name {
            assert(first[1] == snake);
        } else {
            assert(first[0] == snake);
        }
    }
    assert(no_repeats(first));
    lemma_push_unique(first, lowercase_of(name));
    assert(first.contains(name)) by {
        assert(first[0] == name);
    }
}

/// The method-call candidates start with the name itself and list no name
/// twice.
pub proof fn law_call_variants_start_with_name(name: Seq<char>)
    ensures
        spec_call_variants(name)[0] == name,
        no_repeats(spec_call_variants(name)),
{
    let v0 = seq![name];
    assert(no_repeats(v0));
    let v1 = push_unique(v0, spec_camel_to_snake(name));
    lemma_push_unique(v0, spec_camel_to_snake(name));
    let v2 = prefix_step(v1, name, seq!['g', 'e', 't']);
    lemma_prefix_step(v1, name, seq!['g', 'e', 't']);
    let v3 = prefix_step(v2, name, seq!['i', 's']);
    lemma_prefix_step(v2, name, seq!['i', 's']);
    let v4 = prefix_step(v3, name, seq!['s', 'e', 't']);
    lemma_prefix_step(v3, name, seq!['s', 'e', 't']);
    lemma_push_unique(v4, lowercase_of(name));
}

proof fn lemma_prefix_step(v: Seq<Seq<char>>, name: Seq<char>, p: Seq<char>)
    requires
        no_repeats(v),
        v.len() > 0,
    ensures
        no_repeats(prefix_step(v, name, p)),
        prefix_step(v, name, p).len() > 0,
        prefix_step(v, name, p)[0] == v[0],
{
    match strip_nonempty(name, p) {
        Some(rest) => {
            lemma_push_unique(v, rest);
            lemma_push_unique(push_unique(v, rest), spec_camel_to_snake(rest));
        },
        None => {},
    }
}

} // verus!

verus! {

proof fn lemma_push_unique_has(v: Seq<Seq<char>>, s: Seq<char>)
    ensures
        push_unique(v, s).contains(s),
{
    if !v.contains(s) {
        assert(v.push(s)[v.len() as int] == s);
    }
}

proof fn lemma_push_unique_keeps(v: Seq<Seq<char>>, s: Seq<char>, x: Seq<char>)
    requires
        v.contains(x),
    ensures
        push_unique(v, s).contains(x),
{
    let j = choose|j: int| 0 <= j < v.len() && v[j] == x;
    if !v.contains(s) {
        assert(v.push(s)[j] == x);
    }
}

proof fn lemma_prefix_step_keeps(v: Seq<Seq<char>>, name: Seq<char>, p: Seq<char>, x: Seq<char>)
    requires
        v.contains(x),
    ensures
        prefix_step(v, name, p).contains(x),
{
    match strip_nonempty(name, p) {
        Some(rest) => {
            lemma_push_unique_keeps(v, rest, x);
            lemma_push_unique_keeps(push_unique(v, rest), spec_camel_to_snake(rest), x);
        },
        None => {},
    }
}

/// A bean-style accessor name resolves to its property: when a name is
/// `get`, `is` or `set` followed by more, the method-call candidates hold
/// what follows and its snake_case form (`getSiteName` reaches `site_name`).
pub proof fn law_call_variants_strip_bean_prefix(name: Seq<char>, p: Seq<char>)
    requires
        p == seq!['g', 'e', 't'] || p == seq!['i', 's'] || p == seq!['s', 'e', 't'],
        name.len() > p.len(),
        name.subrange(0, p.len() as int) == p,
    ensures
        spec_call_variants(name).contains(name.skip(p.len() as int)),
        spec_call_variants(name).contains(spec_camel_to_snake(name.skip(p.len() as int))),
{
    let rest = name.skip(p.len() as int);
    let snake = spec_camel_to_snake(rest);
    let g = seq!['g', 'e', 't'];
    let i = seq!['i', 's'];
    let s = seq!['s', 'e', 't'];
    let v1 = push_unique(seq![name], spec_camel_to_snake(name));
    let v2 = prefix_step(v1, name, g);
    let v3 = prefix_step(v2, name, i);
    let v4 = prefix_step(v3, name, s);
    assert(strip_nonempty(name, p) == Some(rest));
    // The step of `p` adds `rest` and its snake_case form; the later steps
    // and the final push keep them.
    if p == g {
        lemma_push_unique_has(v1, rest);
        lemma_push_unique_has(push_unique(v1, rest), snake);
        lemma_push_unique_keeps(push_unique(v1, rest), snake, rest);
        lemma_prefix_step_keeps(v2, name, i, rest);
        lemma_prefix_step_keeps(v2, name, i, snake);
        lemma_prefix_step_keeps(v3, name, s, rest);
        lemma_prefix_step_keeps(v3, name, s, snake);
    } else if p == i {
        lemma_push_unique_has(v2, rest);
        lemma_push_unique_has(push_unique(v2, rest), snake);
        lemma_push_unique_keeps(push_unique(v2, rest), snake, rest);
        lemma_prefix_step_keeps(v3, name, s, rest);
        lemma_prefix_step_keeps(v3, name, s, snake);
    } else {
        lemma_push_unique_has(v3, rest);
        lemma_push_unique_has(push_unique(v3, rest), snake);
        lemma_push_unique_keeps(push_unique(v3, rest), snake, rest);
    }
    lemma_push_unique_keeps(v4, lowercase_of(name), rest);
    lemma_push_unique_keeps(v4, lowercase_of(name), snake);
}

/// HTML text decoded left to right: each of `&amp;`, `&lt;`, `&gt;`,
/// `&quot;` and `&#39;` stands for the character it escapes, everything
/// else for itself.
pub open spec fn html_unescape(t: Seq<char>) -> Seq<char>
    decreases t.len(),
{
    if t.len() == 0 {
        Seq::empty()
    } else if t.len() >= 5 && t.take(5) == seq!['&', 'a', 'm', 'p', ';'] {
        seq!['&'] + html_unescape(t.skip(5))
    } else if t.len() >= 4 && t.take(4) == seq!['&', 'l', 't', ';'] {
        seq!['<'] + html_unescape(t.skip(4))
    } else if t.len() >= 4 && t.take(4) == seq!['&', 'g', 't', ';'] {
        seq!['>'] + html_unescape(t.skip(4))
    } else if t.len() >= 6 && t.take(6) == seq!['&', 'q', 'u', 'o', 't', ';'] {
        seq!['"'] + html_unescape(t.skip(6))
    } else if t.len() >= 5 && t.take(5) == seq!['&', '#', '3', '9', ';'] {
        seq!['\''] + html_unescape(t.skip(5))
    } else {
        seq![t[0]] + html_unescape(t.skip(1))
    }
}

proof fn lemma_html_escape_front(cs: Seq<char>)
    requires
        cs.len() > 0,
    ensures
        spec_html_escape(cs) == html_piece(cs[0]) + spec_html_escape(cs.skip(1)),
    decreases cs.len(),
{
    if cs.len() == 1 {
        assert(cs.drop_last() =~= Seq::<char>::empty());
        assert(cs.skip(1) =~= Seq::<char>::empty());
        assert(spec_html_escape(cs.drop_last()) == Seq::<char>::empty());
        assert(cs.last() == cs[0]);
        assert(spec_html_escape(cs) =~= html_piece(cs[0]));
    } else {
        lemma_html_escape_front(cs.drop_last());
        assert(cs.drop_last().skip(1) =~= cs.skip(1).drop_last());
        assert(cs.skip(1).last() == cs.last());
        assert(spec_html_escape(cs) =~= html_piece(cs[0]) + spec_html_escape(cs.skip(1)));
    }
}

proof fn lemma_unescape_piece(c: char, rest: Seq<char>)
    ensures
        html_unescape(html_piece(c) + rest) == seq![c] + html_unescape(rest),
{
    let t = html_piece(c) + rest;
    if c == '&' {
        assert(t.take(5) =~= seq!['&', 'a', 'm', 'p', ';']);
        assert(t.skip(5) =~= rest);
    } else if c == '<' {
        assert(t.take(5) != seq!['&', 'a', 'm', 'p', ';'] || t.len() < 5) by {
            if t.len() >= 5 {
                assert(t.take(5)[1] == 'l');
            }
        }
        assert(t.take(4) =~= seq!['&', 'l', 't', ';']);
        assert(t.skip(4) =~= rest);
    } else if c == '>' {
        if t.len() >= 5 {
            assert(t.take(5)[1] == 'g');
        }
        assert(t.take(4)[1] == 'g');
        assert(t.take(4) =~= seq!['&', 'g', 't', ';']);
        assert(t.skip(4) =~= rest);
    } else if c == '"' {
        assert(t.take(5)[1] == 'q');
        assert(t.take(4)[1] == 'q');
        assert(t.take(6) =~= seq!['&', 'q', 'u', 'o', 't', ';']);
        assert(t.skip(6) =~= rest);
    } else if c == '\'' {
        assert(t.take(5) =~= seq!['&', '#', '3', '9', ';']);
        assert(t.take(5)[1] == '#');
        assert(t.take(4)[1] == '#');
        if t.len() >= 6 {
            assert(t.take(6)[1] == '#');
        }
        assert(t.skip(5) =~= rest);
    } else {
        assert(t[0] == c);
        if t.len() >= 4 {
            assert(t.take(4)[0] == c);
        }
        if t.len() >= 5 {
            assert(t.take(5)[0] == c);
        }
        if t.len() >= 6 {
            assert(t.take(6)[0] == c);
        }
        assert(t.skip(1) =~= rest);
    }
}

/// Decoding undoes HTML escaping: the escaped text decodes to the input.
pub proof fn law_html_escape_round_trip(cs: Seq<char>)
    ensures
        html_unescape(spec_html_escape(cs)) == cs,
    decreases cs.len(),
{
    if cs.len() > 0 {
        lemma_html_escape_front(cs);
        lemma_unescape_piece(cs[0], spec_html_escape(cs.skip(1)));
        law_html_escape_round_trip(cs.skip(1));
        assert(seq![cs[0]] + cs.skip(1) =~= cs);
    }
}

/// JavaScript string text decoded left to right: a backslash and the
/// character after it stand for that character (`\\n` and `\\r` for the
/// line breaks), everything else for itself.
pub open spec fn js_unescape(t: Seq<char>) -> Seq<char>
    decreases t.len(),
{
    if t.len() == 0 {
        Seq::empty()
    } else if t[0] == '\\' && t.len() >= 2 {
        seq![
            if t[1] == 'n' {
                '\n'
            } else if t[1] == 'r' {
                '\r'
            } else {
                t[1]
            },
        ] + js_unescape(t.skip(2))
    } else {
        seq![t[0]] + js_unescape(t.skip(1))
    }
}

proof fn lemma_js_escape_front(cs: Seq<char>)
    requires
        cs.len() > 0,
    ensures
        spec_js_escape(cs) == js_piece(cs[0]) + spec_js_escape(cs.skip(1)),
    decreases cs.len(),
{
    if cs.len() == 1 {
        assert(cs.drop_last() =~= Seq::<char>::empty());
        assert(cs.skip(1) =~= Seq::<char>::empty());
        assert(spec_js_escape(cs.drop_last()) == Seq::<char>::empty());
        assert(cs.last() == cs[0]);
        assert(spec_js_escape(cs) =~= js_piece(cs[0]));
    } else {
        lemma_js_escape_front(cs.drop_last());
        assert(cs.drop_last().skip(1) =~= cs.skip(1).drop_last());
        assert(cs.skip(1).last() == cs.last());
        assert(spec_js_escape(cs) =~= js_piece(cs[0]) + spec_js_escape(cs.skip(1)));
    }
}

proof fn lemma_js_unescape_piece(c: char, rest: Seq<char>)
    ensures
        js_unescape(js_piece(c) + rest) == seq![c] + js_unescape(rest),
{
    let t = js_piece(c) + rest;
    if c == '\\' || c == '\'' || c == '"' || c == '\n' || c == '\r' {
        assert(t[0] == '\\');
        assert(t.skip(2) =~= rest);
    } else {
        assert(t[0] == c);
        assert(t.skip(1) =~= rest);
    }
}

/// Decoding undoes JavaScript string escaping: the escaped text decodes to
/// the input.
pub proof fn law_js_escape_round_trip(cs: Seq<char>)
    ensures
        js_unescape(spec_js_escape(cs)) == cs,
    decreases cs.len(),
{
    if cs.len() > 0 {
        lemma_js_escape_front(cs);
        lemma_js_unescape_piece(cs[0], spec_js_escape(cs.skip(1)));
        law_js_escape_round_trip(cs.skip(1));
        assert(seq![cs[0]] + cs.skip(1) =~= cs);
    }
}

} // verus!
