//! The renderer's operations on strings, lists and maps that need no
//! number arithmetic: the `replace` filter, member and index access.
use vstd::prelude::*;
use crate::text::{chars_of, push_char, has_prefix_at};
use crate::expr_tokens::{is_digit, decimal_value};
use crate::value::strings_v;

verus! {

// ---------------------------------------------------------------------------
// The `replace` filter
// ---------------------------------------------------------------------------

/// What replacing every occurrence of `from` by `to` gives for `s` from
/// position `i` on. Occurrences are taken left to right without overlap;
/// an empty `from` occurs before every character and at the end.
pub open spec fn replaced_from(s: Seq<char>, i: int, from: Seq<char>, to: Seq<char>) -> Seq<char>
    decreases s.len() - i,
{
    if from.len() == 0 {
        if i >= s.len() {
            to
        } else {
            to + seq![s[i]] + replaced_from(s, i + 1, from, to)
        }
    } else if i >= s.len() {
        Seq::empty()
    } else if i + from.len() <= s.len() && s.subrange(i, i + from.len()) == from {
        to + replaced_from(s, i + from.len(), from, to)
    } else {
        seq![s[i]] + replaced_from(s, i + 1, from, to)
    }
}

/// `s` with every occurrence of `from` replaced by `to` (std's
/// `str::replace`).
pub open spec fn spec_replace(s: Seq<char>, from: Seq<char>, to: Seq<char>) -> Seq<char> {
    replaced_from(s, 0, from, to)
}

/// Replaces every occurrence of `from` in `s` by `to`, left to right and
/// without overlap.
pub fn replace_all(s: &str, from: &str, to: &str) -> (r: String)
    ensures
        r@ == spec_replace(s@, from@, to@),
{
    let cs = chars_of(s);
    let fs = chars_of(from);
    let mut out = String::new();
    let mut i: usize = 0;
    while i < cs.len()
        invariant
            i <= cs.len(),
            cs@ == s@,
            fs@ == from@,
            out@ + replaced_from(cs@, i as int, fs@, to@) == replaced_from(cs@, 0, fs@, to@),
        decreases cs.len() - i,
    {
        let ghost before = out@;
        if fs.len() == 0 {
            out.append(to);
            push_char(&mut out, cs[i]);
            proof {
                assert(out@ + replaced_from(cs@, i + 1, fs@, to@) =~= before + replaced_from(
                    cs@,
                    i as int,
                    fs@,
                    to@,
                ));
            }
            i = i + 1;
        } else if has_prefix_at(&cs, i, &fs) {
            out.append(to);
            proof {
                assert(out@ + replaced_from(cs@, i + fs@.len(), fs@, to@) =~= before
                    + replaced_from(cs@, i as int, fs@, to@));
            }
            i = i + fs.len();
        } else {
            push_char(&mut out, cs[i]);
            proof {
                assert(out@ + replaced_from(cs@, i + 1, fs@, to@) =~= before + replaced_from(
                    cs@,
                    i as int,
                    fs@,
                    to@,
                ));
            }
            i = i + 1;
        }
    }
    if fs.len() == 0 {
        let ghost before = out@;
        out.append(to);
        proof {
            assert(out@ =~= before + replaced_from(cs@, i as int, fs@, to@));
        }
    } else {
        proof {
            assert(out@ =~= out@ + replaced_from(cs@, i as int, fs@, to@));
        }
    }
    out
}

/// Whether `from` occurs in `s` at position `j`.
pub open spec fn occurs_at(s: Seq<char>, j: int, from: Seq<char>) -> bool {
    j + from.len() <= s.len() && s.subrange(j, j + from.len()) == from
}

proof fn lemma_replace_absent(s: Seq<char>, i: int, from: Seq<char>, to: Seq<char>)
    requires
        0 <= i <= s.len(),
        from.len() > 0,
        forall|j: int| 0 <= j ==> !#[trigger] occurs_at(s, j, from),
    ensures
        replaced_from(s, i, from, to) == s.skip(i),
    decreases s.len() - i,
{
    if i < s.len() {
        assert(!occurs_at(s, i, from));
        lemma_replace_absent(s, i + 1, from, to);
        assert(seq![s[i]] + s.skip(i + 1) =~= s.skip(i));
    } else {
        assert(s.skip(i) =~= Seq::<char>::empty());
    }
}

proof fn lemma_replace_same(s: Seq<char>, i: int, from: Seq<char>)
    requires
        0 <= i <= s.len(),
        from.len() > 0,
    ensures
        replaced_from(s, i, from, from) == s.skip(i),
    decreases s.len() - i,
{
    if i < s.len() {
        if i + from.len() <= s.len() && s.subrange(i, i + from.len()) == from {
            lemma_replace_same(s, i + from.len(), from);
            assert(from + s.skip(i + from.len()) =~= s.skip(i));
        } else {
            lemma_replace_same(s, i + 1, from);
            assert(seq![s[i]] + s.skip(i + 1) =~= s.skip(i));
        }
    } else {
        assert(s.skip(i) =~= Seq::<char>::empty());
    }
}

/// Replacing a non-empty string that does not occur leaves the input as
/// it is.
pub proof fn law_replace_absent_is_identity(s: Seq<char>, from: Seq<char>, to: Seq<char>)
    requires
        from.len() > 0,
        forall|j: int| 0 <= j ==> !#[trigger] occurs_at(s, j, from),
    ensures
        spec_replace(s, from, to) == s,
{
    lemma_replace_absent(s, 0, from, to);
    assert(s.skip(0) =~= s);
}

/// Replacing a non-empty string by itself leaves the input as it is.
pub proof fn law_replace_by_itself_is_identity(s: Seq<char>, from: Seq<char>)
    requires
        from.len() > 0,
    ensures
        spec_replace(s, from, from) == s,
{
    lemma_replace_same(s, 0, from);
    assert(s.skip(0) =~= s);
}

/// What the `replace` filter with a map argument gives: the replacements
/// of `pairs` applied one after the other, in order; a pair whose
/// replacement is not a string is skipped.
pub open spec fn replaced_by_pairs(s: Seq<char>, pairs: Seq<(String, Option<String>)>) -> Seq<char>
    decreases pairs.len(),
{
    if pairs.len() == 0 {
        s
    } else {
        let r = replaced_by_pairs(s, pairs.drop_last());
        match pairs.last().1 {
            Some(t) => spec_replace(r, pairs.last().0@, t@),
            None => r,
        }
    }
}

/// Applies the replacements of `pairs` to `s` one after the other.
pub fn replace_each(s: &str, pairs: &Vec<(String, Option<String>)>) -> (r: String)
    ensures
        r@ == replaced_by_pairs(s@, pairs@),
{
    let mut out = String::from_str(s);
    let mut k: usize = 0;
    while k < pairs.len()
        invariant
            k <= pairs.len(),
            out@ == replaced_by_pairs(s@, pairs@.take(k as int)),
        decreases pairs.len() - k,
    {
        proof {
            assert(pairs@.take(k + 1).drop_last() =~= pairs@.take(k as int));
        }
        match &pairs[k].1 {
            Some(t) => {
                out = replace_all(out.as_str(), pairs[k].0.as_str(), t.as_str());
            },
            None => {},
        }
        k = k + 1;
    }
    proof {
        assert(pairs@.take(pairs@.len() as int) =~= pairs@);
    }
    out
}

// ---------------------------------------------------------------------------
// Member and index access
// ---------------------------------------------------------------------------

/// Whether every character of `ds` is an ASCII digit.
pub open spec fn all_digits(ds: Seq<char>) -> bool {
    forall|j: int| 0 <= j < ds.len() ==> is_digit(#[trigger] ds[j])
}

/// The integer that std's `str::parse::<i64>` reads from `s`: an optional
/// `+` or `-`, then one or more ASCII digits and nothing else, whose value
/// fits in an `i64`; `None` for any other text.
pub open spec fn parsed_i64(s: Seq<char>) -> Option<int> {
    let ds = digits_part(s);
    let v = if s.len() > 0 && s[0] == '-' {
        -decimal_value(ds)
    } else {
        decimal_value(ds)
    };
    if ds.len() > 0 && all_digits(ds) && i64::MIN <= v <= i64::MAX {
        Some(v)
    } else {
        None
    }
}

/// What follows the optional sign of `s`.
pub open spec fn digits_part(s: Seq<char>) -> Seq<char> {
    if s.len() > 0 && (s[0] == '-' || s[0] == '+') {
        s.skip(1)
    } else {
        s
    }
}

proof fn lemma_decimal_nonneg(ds: Seq<char>)
    requires
        all_digits(ds),
    ensures
        0 <= decimal_value(ds),
    decreases ds.len(),
{
    if ds.len() > 0 {
        assert(all_digits(ds.drop_last())) by {
            assert forall|j: int| 0 <= j < ds.drop_last().len() implies is_digit(
                #[trigger] ds.drop_last()[j],
            ) by {
                assert(ds.drop_last()[j] == ds[j]);
            }
        }
        lemma_decimal_nonneg(ds.drop_last());
        assert(is_digit(ds[ds.len() - 1]));
    }
}

proof fn lemma_decimal_grows(ds: Seq<char>, k: int)
    requires
        0 <= k <= ds.len(),
        all_digits(ds),
    ensures
        decimal_value(ds.take(k)) <= decimal_value(ds),
    decreases ds.len() - k,
{
    if k < ds.len() {
        lemma_decimal_grows(ds, k + 1);
        assert(ds.take(k + 1).drop_last() =~= ds.take(k));
        assert(is_digit(ds[k]));
        assert(all_digits(ds.take(k))) by {
            assert forall|j: int| 0 <= j < k implies is_digit(#[trigger] ds.take(k)[j]) by {
                assert(ds.take(k)[j] == ds[j]);
            }
        }
        lemma_decimal_nonneg(ds.take(k));
    } else {
        assert(ds.take(k) =~= ds);
    }
}

/// Reads an integer as std's `str::parse::<i64>` does (a list member
/// written as a number, `items.0`).
pub fn parse_index(name: &str) -> (r: Option<i64>)
    ensures
        match r {
            Some(v) => parsed_i64(name@) == Some(v as int),
            None => parsed_i64(name@) is None,
        },
{
    let cs = chars_of(name);
    let n = cs.len();
    let neg = n > 0 && cs[0] == '-';
    let signed = n > 0 && (cs[0] == '-' || cs[0] == '+');
    let start: usize = if signed {
        1
    } else {
        0
    };
    let ghost ds = if signed {
        cs@.skip(1)
    } else {
        cs@
    };
    if start >= n {
        return None;
    }
    let limit: u128 = 9223372036854775808;
    let mut acc: u128 = 0;
    let mut k: usize = start;
    while k < n
        invariant
            cs@ == name@,
            n == cs.len(),
            start <= k <= n,
            ds == cs@.skip(start as int),
            ds == digits_part(name@),
            neg == (name@.len() > 0 && name@[0] == '-'),
            limit == 9223372036854775808,
            acc <= limit,
            acc == decimal_value(ds.take(k - start)),
            all_digits(ds.take(k - start)),
        decreases n - k,
    {
        let c = cs[k];
        if !('0' <= c && c <= '9') {
            proof {
                assert(ds[k - start] == c);
                assert(!is_digit(ds[k - start]));
                assert(!all_digits(ds));
            }
            return None;
        }
        let d: u128 = ((c as u32) - ('0' as u32)) as u128;
        proof {
            assert(d <= 9);
            assert(ds.take(k + 1 - start).drop_last() =~= ds.take(k - start));
            assert(ds.take(k + 1 - start).last() == c);
            assert(all_digits(ds.take(k + 1 - start))) by {
                assert forall|j: int| 0 <= j < k + 1 - start implies is_digit(
                    #[trigger] ds.take(k + 1 - start)[j],
                ) by {
                    if j < k - start {
                        assert(ds.take(k + 1 - start)[j] == ds.take(k - start)[j]);
                    }
                }
            }
        }
        acc = acc * 10 + d;
        if acc > limit {
            proof {
                if all_digits(ds) {
                    lemma_decimal_grows(ds, k + 1 - start);
                }
            }
            return None;
        }
        k = k + 1;
    }
    proof {
        assert(ds.take(n - start) =~= ds);
    }
    if neg {
        if acc == limit {
            Some(i64::MIN)
        } else {
            let m: i64 = acc as i64;
            Some(-m)
        }
    } else if acc > 9223372036854775807 {
        None
    } else {
        Some(acc as i64)
    }
}

/// The position that an integer index names in a list of `len` items:
/// the index itself when it is within the list.
pub fn element_index(len: usize, i: i64) -> (r: Option<usize>)
    ensures
        r == (if 0 <= i < len {
            Some(i as usize)
        } else {
            None
        }),
{
    if i < 0 {
        None
    } else if (i as u64) < (len as u64) {
        Some(i as usize)
    } else {
        None
    }
}

/// The character at index `i` of `s`, when there is one.
pub fn char_at(s: &str, i: i64) -> (r: Option<char>)
    ensures
        r == (if 0 <= i < s@.len() {
            Some(s@[i as int])
        } else {
            None
        }),
{
    let cs = chars_of(s);
    match element_index(cs.len(), i) {
        Some(k) => Some(cs[k]),
        None => None,
    }
}

/// The position of the first key equal to `k`, when one is.
pub fn key_position(keys: &Vec<String>, k: &str) -> (r: Option<usize>)
    ensures
        match r {
            Some(j) => j < keys.len() && keys@[j as int]@ == k@ && forall|m: int|
                0 <= m < j ==> keys@[m]@ != k@,
            None => !strings_v(keys@).contains(k@),
        },
{
    let kc = chars_of(k);
    let mut j: usize = 0;
    while j < keys.len()
        invariant
            j <= keys.len(),
            kc@ == k@,
            forall|m: int| 0 <= m < j ==> keys@[m]@ != k@,
        decreases keys.len() - j,
    {
        let c = chars_of(keys[j].as_str());
        if crate::text::chars_eq(&c, &kc) {
            return Some(j);
        }
        j = j + 1;
    }
    proof {
        if strings_v(keys@).contains(k@) {
            let m = choose|m: int| 0 <= m < strings_v(keys@).len() && strings_v(keys@)[m] == k@;
            assert(keys@[m]@ == k@);
        }
    }
    None
}

/// The key that a member access reaches in a map with keys `keys`: the
/// first name candidate (in try order) that some key equals, at that key's
/// first position.
pub fn lookup_key(keys: &Vec<String>, cands: &Vec<String>) -> (r: Option<usize>)
    ensures
        match r {
            Some(j) => j < keys.len() && exists|ci: int|
                0 <= ci < cands.len() && #[trigger] cands@[ci]@ == keys@[j as int]@ && (forall|m: int|
                    0 <= m < j ==> keys@[m]@ != cands@[ci]@) && (forall|cj: int|
                    0 <= cj < ci ==> !strings_v(keys@).contains(#[trigger] cands@[cj]@)),
            None => forall|ci: int|
                0 <= ci < cands.len() ==> !strings_v(keys@).contains(#[trigger] cands@[ci]@),
        },
{
    let mut ci: usize = 0;
    while ci < cands.len()
        invariant
            ci <= cands.len(),
            forall|cj: int| 0 <= cj < ci ==> !strings_v(keys@).contains(#[trigger] cands@[cj]@),
        decreases cands.len() - ci,
    {
        match key_position(keys, cands[ci].as_str()) {
            Some(j) => {
                proof {
                    assert(cands@[ci as int]@ == keys@[j as int]@);
                }
                return Some(j);
            },
            None => {},
        }
        ci = ci + 1;
    }
    None
}

// ---------------------------------------------------------------------------
// Text comparison
// ---------------------------------------------------------------------------

/// Whether `a` comes before `b` in the order of std's `str` comparison:
/// at the first position where they differ the character of `a` has the
/// smaller code point, or `a` is a proper prefix of `b`. (UTF-8 keeps code
/// point order, so this is the byte order that std compares by.)
pub open spec fn text_before(a: Seq<char>, b: Seq<char>, i: int) -> bool
    decreases a.len() - i,
{
    if i >= a.len() {
        i < b.len()
    } else if i >= b.len() {
        false
    } else if a[i] != b[i] {
        (a[i] as int) < (b[i] as int)
    } else {
        text_before(a, b, i + 1)
    }
}

/// Whether `a` sorts before `b`.
pub open spec fn spec_text_less(a: Seq<char>, b: Seq<char>) -> bool {
    text_before(a, b, 0)
}

/// Whether the text `a` sorts before the text `b` (the comparison that
/// `<`, `>`, `<=` and `>=` make when an operand is not a number).
pub fn text_less(a: &str, b: &str) -> (r: bool)
    ensures
        r == spec_text_less(a@, b@),
{
    let x = chars_of(a);
    let y = chars_of(b);
    let mut i: usize = 0;
    while i < x.len() && i < y.len()
        invariant
            x@ == a@,
            y@ == b@,
            i <= x.len(),
            i <= y.len(),
            text_before(x@, y@, i as int) == text_before(x@, y@, 0),
        decreases x.len() - i,
    {
        if x[i] != y[i] {
            return x[i] < y[i];
        }
        i = i + 1;
    }
    i < y.len()
}

proof fn lemma_text_order(a: Seq<char>, b: Seq<char>, i: int)
    requires
        0 <= i <= a.len(),
        i <= b.len(),
        a.subrange(0, i) == b.subrange(0, i),
    ensures
        !(text_before(a, b, i) && text_before(b, a, i)),
        a != b ==> (text_before(a, b, i) || text_before(b, a, i)),
    decreases a.len() - i,
{
    if i < a.len() && i < b.len() {
        if a[i] != b[i] {
            assert((a[i] as int) != (b[i] as int));
        } else {
            assert(a.subrange(0, i + 1) =~= a.subrange(0, i).push(a[i]));
            assert(b.subrange(0, i + 1) =~= b.subrange(0, i).push(b[i]));
            lemma_text_order(a, b, i + 1);
        }
    } else if i == a.len() && i == b.len() {
        assert(a =~= a.subrange(0, i));
        assert(b =~= b.subrange(0, i));
    }
}

/// Text comparison is a strict total order: of two different texts exactly
/// one sorts before the other, and no text sorts before itself.
pub proof fn law_text_order_is_total(a: Seq<char>, b: Seq<char>)
    ensures
        !(spec_text_less(a, b) && spec_text_less(b, a)),
        a != b ==> (spec_text_less(a, b) || spec_text_less(b, a)),
        !spec_text_less(a, a),
{
    assert(a.subrange(0, 0) =~= b.subrange(0, 0));
    lemma_text_order(a, b, 0);
    lemma_text_order(a, a, 0);
}

} // verus!
