//! Character-level helpers shared by the lexer, the parsers and the name
//! and escaping functions.
use vstd::prelude::*;

verus! {

/// The characters of `s`, in order.
pub fn chars_of(s: &str) -> (v: Vec<char>)
    ensures
        v@ == s@,
{
    let mut v: Vec<char> = Vec::new();
    for c in it: s.chars()
        invariant
            v@ == it.seq().take(it.index() as int),
            it.seq() == s@,
    {
        v.push(c);
    }
    proof {
        assert(s@.take(s@.len() as int) =~= s@);
    }
    v
}

/// Appends one character to a string (std's `String::push`).
#[verifier::external_body]
pub(crate) fn push_char(s: &mut String, c: char)
    ensures
        final(s)@ == old(s)@.push(c),
{
    s.push(c);
}

/// The string made of `v[from..to]`.
pub fn string_of(v: &Vec<char>, from: usize, to: usize) -> (s: String)
    requires
        from <= to <= v.len(),
    ensures
        s@ == v@.subrange(from as int, to as int),
{
    let mut s = String::new();
    let mut k: usize = from;
    while k < to
        invariant
            from <= k <= to <= v.len(),
            s@ == v@.subrange(from as int, k as int),
        decreases to - k,
    {
        push_char(&mut s, v[k]);
        proof {
            assert(v@.subrange(from as int, k + 1) =~= v@.subrange(from as int, k as int).push(v@[k as int]));
        }
        k = k + 1;
    }
    s
}

/// A copy of `v[from..to]`.
pub fn slice_of(v: &Vec<char>, from: usize, to: usize) -> (r: Vec<char>)
    requires
        from <= to <= v.len(),
    ensures
        r@ == v@.subrange(from as int, to as int),
{
    let mut r: Vec<char> = Vec::new();
    let mut k: usize = from;
    while k < to
        invariant
            from <= k <= to <= v.len(),
            r@ == v@.subrange(from as int, k as int),
        decreases to - k,
    {
        r.push(v[k]);
        proof {
            assert(v@.subrange(from as int, k + 1) =~= v@.subrange(from as int, k as int).push(v@[k as int]));
        }
        k = k + 1;
    }
    r
}

/// Whether `v[from..]` starts with `pat`.
pub fn has_prefix_at(v: &Vec<char>, from: usize, pat: &Vec<char>) -> (b: bool)
    requires
        from <= v.len(),
    ensures
        b == (from + pat.len() <= v.len() && v@.subrange(from as int, from + pat.len()) == pat@),
{
    if pat.len() > v.len() - from {
        return false;
    }
    let mut k: usize = 0;
    while k < pat.len()
        invariant
            from + pat.len() <= v.len(),
            k <= pat.len(),
            forall|j: int| 0 <= j < k ==> v@[from + j] == pat@[j],
        decreases pat.len() - k,
    {
        if v[from + k] != pat[k] {
            proof {
                assert(v@.subrange(from as int, from + pat.len())[k as int] != pat@[k as int]);
            }
            return false;
        }
        k = k + 1;
    }
    proof {
        assert(v@.subrange(from as int, from + pat.len()) =~= pat@);
    }
    true
}

/// Whether two character sequences are equal.
pub fn chars_eq(a: &Vec<char>, b: &Vec<char>) -> (r: bool)
    ensures
        r == (a@ == b@),
{
    if a.len() != b.len() {
        return false;
    }
    let r = has_prefix_at(a, 0, b);
    proof {
        assert(a@.subrange(0, a@.len() as int) =~= a@);
    }
    r
}

/// Whether `c` has the Unicode `White_Space` property, which std's
/// `char::is_whitespace` tests: U+0009 to U+000D, U+0020, U+0085, U+00A0,
/// U+1680, U+2000 to U+200A, U+2028, U+2029, U+202F, U+205F and U+3000.
pub open spec fn white_space(c: char) -> bool {
    let u = c as u32;
    (0x9 <= u && u <= 0xd) || u == 0x20 || u == 0x85 || u == 0xa0 || u == 0x1680 || (0x2000 <= u
        && u <= 0x200a) || u == 0x2028 || u == 0x2029 || u == 0x202f || u == 0x205f || u == 0x3000
}

/// Whether `c` is whitespace, as std's `char::is_whitespace` answers.
pub fn is_whitespace(c: char) -> (b: bool)
    ensures
        b == white_space(c),
{
    let u = c as u32;
    (0x9 <= u && u <= 0xd) || u == 0x20 || u == 0x85 || u == 0xa0 || u == 0x1680 || (0x2000 <= u
        && u <= 0x200a) || u == 0x2028 || u == 0x2029 || u == 0x202f || u == 0x205f || u == 0x3000
}

/// What std's `str::to_lowercase` returns for a string: its Unicode
/// lowercase mapping.
pub uninterp spec fn lowercase_of(s: Seq<char>) -> Seq<char>;

/// The ASCII lowercase form of `s`: each ASCII uppercase letter becomes
/// its lowercase letter, every other character stays.
pub open spec fn ascii_lowercase(s: Seq<char>) -> Seq<char> {
    s.map_values(|c: char| if 'A' <= c && c <= 'Z' { ((c as u32) + 32) as char } else { c })
}

/// std's `str::to_lowercase`. The contract names its result; of the Unicode
/// case mapping it states only what it does on ASCII text (uppercase
/// letters become lowercase, other characters stay), and nothing of other
/// characters.
#[verifier::external_body]
pub(crate) fn to_lowercase(s: &str) -> (r: String)
    ensures
        r@ == lowercase_of(s@),
        (forall|i: int| 0 <= i < s@.len() ==> (#[trigger] s@[i] as u32) < 128) ==> r@
            == ascii_lowercase(s@),
{
    s.to_lowercase()
}

} // verus!
