//! The evaluator's bookkeeping that is independent of runtime values: the
//! scope chain of variables and the resolution of `{% include %}` paths.
use vstd::prelude::*;
use crate::text::{chars_of, push_char};
use crate::expr_tokens::spells;

verus! {

// ---------------------------------------------------------------------------
// Include paths
// ---------------------------------------------------------------------------

/// Whether `cs` starts with `p`.
pub open spec fn starts_with(cs: Seq<char>, p: Seq<char>) -> bool {
    cs.len() >= p.len() && cs.subrange(0, p.len() as int) == p
}

/// An include path that is resolved against the including template's
/// directory: one that starts with `../` or `./`.
pub open spec fn is_relative(rel: Seq<char>) -> bool {
    starts_with(rel, seq!['.', '.', '/']) || starts_with(rel, seq!['.', '/'])
}

/// The pieces of `cs` between the `/` separators (`a//b/` gives `a`, ``,
/// `b`, ``; the empty string gives one empty piece).
pub open spec fn split_slash(cs: Seq<char>) -> Seq<Seq<char>>
    decreases cs.len(),
{
    if cs.len() == 0 {
        seq![Seq::empty()]
    } else {
        let s = split_slash(cs.drop_last());
        if cs.last() == '/' {
            s.push(Seq::empty())
        } else {
            s.update(s.len() - 1, s.last().push(cs.last()))
        }
    }
}

/// The non-empty segments, in order.
pub open spec fn keep_nonempty(segs: Seq<Seq<char>>) -> Seq<Seq<char>>
    decreases segs.len(),
{
    if segs.len() == 0 {
        Seq::empty()
    } else {
        let v = keep_nonempty(segs.drop_last());
        if segs.last().len() > 0 {
            v.push(segs.last())
        } else {
            v
        }
    }
}

/// The segments without their last one (unchanged when there is none).
pub open spec fn pop_seg(v: Seq<Seq<char>>) -> Seq<Seq<char>> {
    if v.len() > 0 {
        v.drop_last()
    } else {
        v
    }
}

/// One step of path resolution: `..` goes up one directory, `.` and empty
/// segments stay, any other segment goes down into it.
pub open spec fn apply_seg(v: Seq<Seq<char>>, seg: Seq<char>) -> Seq<Seq<char>> {
    if seg == seq!['.', '.'] {
        pop_seg(v)
    } else if seg != seq!['.'] && seg.len() > 0 {
        v.push(seg)
    } else {
        v
    }
}

/// The directory `base` after walking the segments `segs`.
pub open spec fn apply_segs(base: Seq<Seq<char>>, segs: Seq<Seq<char>>) -> Seq<Seq<char>>
    decreases segs.len(),
{
    if segs.len() == 0 {
        base
    } else {
        apply_seg(apply_segs(base, segs.drop_last()), segs.last())
    }
}

/// The segments joined by `/`.
pub open spec fn join_slash(segs: Seq<Seq<char>>) -> Seq<char>
    decreases segs.len(),
{
    if segs.len() == 0 {
        Seq::empty()
    } else if segs.len() == 1 {
        segs[0]
    } else {
        join_slash(segs.drop_last()) + seq!['/'] + segs.last()
    }
}

/// The directory of the template named `current`: its non-empty segments
/// without the last (the file itself).
pub open spec fn base_dir(current: Option<Seq<char>>) -> Seq<Seq<char>> {
    match current {
        Some(c) => pop_seg(keep_nonempty(split_slash(c))),
        None => Seq::empty(),
    }
}

/// The template path that `{% include rel %}` names when the including
/// template is `current`: a `../` or `./` path is resolved against the
/// directory of `current`; any other path is taken as it is (relative to
/// the template root).
pub open spec fn spec_resolve_include(current: Option<Seq<char>>, rel: Seq<char>) -> Seq<char> {
    if !is_relative(rel) {
        rel
    } else {
        join_slash(apply_segs(base_dir(current), split_slash(rel)))
    }
}

pub open spec fn segs_v(v: Seq<Vec<char>>) -> Seq<Seq<char>> {
    v.map_values(|s: Vec<char>| s@)
}

pub proof fn lemma_split_slash_len(cs: Seq<char>)
    ensures
        split_slash(cs).len() >= 1,
    decreases cs.len(),
{
    if cs.len() > 0 {
        lemma_split_slash_len(cs.drop_last());
    }
}

/// The pieces of `cs` between the `/` separators.
fn split_slash_exec(cs: &Vec<char>) -> (r: Vec<Vec<char>>)
    ensures
        segs_v(r@) == split_slash(cs@),
{
    let mut r: Vec<Vec<char>> = Vec::new();
    r.push(Vec::new());
    proof {
        assert(segs_v(r@) =~= split_slash(cs@.take(0)));
    }
    let mut k: usize = 0;
    while k < cs.len()
        invariant
            k <= cs.len(),
            segs_v(r@) == split_slash(cs@.take(k as int)),
            r@.len() >= 1,
        decreases cs.len() - k,
    {
        let c = cs[k];
        let ghost before = segs_v(r@);
        proof {
            assert(cs@.take(k + 1).drop_last() =~= cs@.take(k as int));
            assert(cs@.take(k + 1).last() == c);
        }
        if c == '/' {
            r.push(Vec::new());
            proof {
                assert(segs_v(r@) =~= before.push(Seq::empty()));
            }
        } else {
            let mut last = r.pop().unwrap();
            last.push(c);
            r.push(last);
            proof {
                assert(segs_v(r@) =~= before.update(before.len() - 1, before.last().push(c)));
            }
        }
        k = k + 1;
    }
    proof {
        assert(cs@.take(cs@.len() as int) =~= cs@);
    }
    r
}

/// The directory of the template named `current`.
fn base_dir_exec(current: Option<&str>) -> (r: Vec<Vec<char>>)
    ensures
        segs_v(r@) == base_dir(
            match current {
                Some(c) => Some(c@),
                None => None,
            },
        ),
{
    let mut r: Vec<Vec<char>> = Vec::new();
    match current {
        None => {
            proof {
                assert(segs_v(r@) =~= Seq::<Seq<char>>::empty());
            }
            r
        },
        Some(c) => {
            let cs = chars_of(c);
            let segs = split_slash_exec(&cs);
            let mut k: usize = 0;
            proof {
                assert(segs_v(r@) =~= keep_nonempty(segs_v(segs@).take(0)));
            }
            while k < segs.len()
                invariant
                    k <= segs.len(),
                    segs_v(r@) == keep_nonempty(segs_v(segs@).take(k as int)),
                decreases segs.len() - k,
            {
                proof {
                    assert(segs_v(segs@).take(k + 1).drop_last() =~= segs_v(segs@).take(k as int));
                }
                if segs[k].len() > 0 {
                    let ghost before = segs_v(r@);
                    r.push(segs[k].clone());
                    proof {
                        assert(segs_v(r@) =~= before.push(segs@[k as int]@));
                    }
                }
                k = k + 1;
            }
            proof {
                assert(segs_v(segs@).take(segs@.len() as int) =~= segs_v(segs@));
            }
            if r.len() > 0 {
                let ghost before = segs_v(r@);
                r.pop();
                proof {
                    assert(segs_v(r@) =~= before.drop_last());
                }
            }
            r
        },
    }
}

/// `parts` joined by `/`.
fn join_slash_exec(parts: &Vec<Vec<char>>) -> (s: String)
    ensures
        s@ == join_slash(segs_v(parts@)),
{
    let mut s = String::new();
    let mut k: usize = 0;
    while k < parts.len()
        invariant
            k <= parts.len(),
            s@ == join_slash(segs_v(parts@).take(k as int)),
        decreases parts.len() - k,
    {
        let ghost before = s@;
        if k > 0 {
            push_char(&mut s, '/');
        }
        let seg = &parts[k];
        let mut j: usize = 0;
        let ghost mid = s@;
        while j < seg.len()
            invariant
                j <= seg.len(),
                s@ == mid + seg@.take(j as int),
            decreases seg.len() - j,
        {
            push_char(&mut s, seg[j]);
            proof {
                assert(seg@.take(j + 1) =~= seg@.take(j as int).push(seg@[j as int]));
            }
            j = j + 1;
        }
        proof {
            assert(seg@.take(seg@.len() as int) =~= seg@);
            let t = segs_v(parts@).take(k + 1);
            assert(t.drop_last() =~= segs_v(parts@).take(k as int));
            assert(t.last() == seg@);
            if k == 0 {
                assert(s@ =~= t[0]);
            } else {
                assert(s@ =~= join_slash(t.drop_last()) + seq!['/'] + t.last());
            }
        }
        k = k + 1;
    }
    proof {
        assert(segs_v(parts@).take(parts@.len() as int) =~= segs_v(parts@));
    }
    s
}

/// The path an `{% include %}` loads: `../` and `./` paths are resolved
/// against the directory of the template named `current`; every other path
/// is returned unchanged (it is relative to the template root).
pub fn resolve_include(current: Option<&str>, rel: &str) -> (r: String)
    ensures
        r@ == spec_resolve_include(
            match current {
                Some(c) => Some(c@),
                None => None,
            },
            rel@,
        ),
{
    let cs = chars_of(rel);
    let up: Vec<char> = vec!['.', '.', '/'];
    let here: Vec<char> = vec!['.', '/'];
    proof {
        assert(up@ =~= seq!['.', '.', '/']);
        assert(here@ =~= seq!['.', '/']);
    }
    let relative = crate::text::has_prefix_at(&cs, 0, &up) || crate::text::has_prefix_at(&cs, 0, &here);
    if !relative {
        return rel.to_owned();
    }
    let mut segs = base_dir_exec(current);
    let parts = split_slash_exec(&cs);
    let ghost base = segs_v(segs@);
    let mut k: usize = 0;
    proof {
        assert(segs_v(parts@).take(0) =~= Seq::<Seq<char>>::empty());
    }
    while k < parts.len()
        invariant
            k <= parts.len(),
            segs_v(segs@) == apply_segs(base, segs_v(parts@).take(k as int)),
        decreases parts.len() - k,
    {
        proof {
            assert(segs_v(parts@).take(k + 1).drop_last() =~= segs_v(parts@).take(k as int));
            assert(segs_v(parts@).take(k + 1).last() == parts@[k as int]@);
        }
        let seg = &parts[k];
        let ghost before = segs_v(segs@);
        let up_seg = spells(seg, &['.', '.']);
        let here_seg = seg.len() == 1 && seg[0] == '.';
        proof {
            assert(up_seg == (seg@ == seq!['.', '.']));
            assert(here_seg ==> seg@ =~= seq!['.']);
            assert(seg@ == seq!['.'] ==> here_seg);
            assert(segs_v(parts@).take(k + 1).last() == seg@);
        }
        if up_seg {
            if segs.len() > 0 {
                segs.pop();
                proof {
                    assert(segs_v(segs@) =~= before.drop_last());
                }
            }
        } else if !here_seg && seg.len() > 0 {
            segs.push(seg.clone());
            proof {
                assert(segs_v(segs@) =~= before.push(seg@));
            }
        }
        k = k + 1;
    }
    proof {
        assert(segs_v(parts@).take(parts@.len() as int) =~= segs_v(parts@));
    }
    join_slash_exec(&segs)
}

} // verus!

verus! {

// ---------------------------------------------------------------------------
// Scope chain
// ---------------------------------------------------------------------------

/// The variables of one scope, in the order they were set.
pub type ScopeV<T> = Seq<(Seq<char>, T)>;

/// The value bound to `k` in one scope: the one set last.
pub open spec fn scope_get<T>(s: ScopeV<T>, k: Seq<char>) -> Option<T>
    decreases s.len(),
{
    if s.len() == 0 {
        None
    } else if s.last().0 == k {
        Some(s.last().1)
    } else {
        scope_get(s.drop_last(), k)
    }
}

/// The value that `k` resolves to in a chain of scopes: the binding of the
/// innermost (last) scope that binds it.
pub open spec fn chain_lookup<T>(c: Seq<ScopeV<T>>, k: Seq<char>) -> Option<T>
    decreases c.len(),
{
    if c.len() == 0 {
        None
    } else {
        match scope_get(c.last(), k) {
            Some(v) => Some(v),
            None => chain_lookup(c.drop_last(), k),
        }
    }
}

/// The position of the last binding of `k` in a scope.
pub open spec fn last_index<T>(s: ScopeV<T>, k: Seq<char>) -> Option<int>
    decreases s.len(),
{
    if s.len() == 0 {
        None
    } else if s.last().0 == k {
        Some(s.len() - 1)
    } else {
        last_index(s.drop_last(), k)
    }
}

/// A scope with `k` bound to `v`: the binding of `k` is replaced when the
/// scope has one, else added at the end, so a name is bound at most once.
pub open spec fn scope_put<T>(s: ScopeV<T>, k: Seq<char>, v: T) -> ScopeV<T> {
    match last_index(s, k) {
        Some(j) => s.update(j, (k, v)),
        None => s.push((k, v)),
    }
}

/// The chain with `k` bound to `v` in its innermost scope (unchanged when
/// there is no scope).
pub open spec fn chain_set<T>(c: Seq<ScopeV<T>>, k: Seq<char>, v: T) -> Seq<ScopeV<T>> {
    if c.len() == 0 {
        c
    } else {
        c.update(c.len() - 1, scope_put(c.last(), k, v))
    }
}

/// Whether no name is bound twice in one scope.
pub open spec fn names_unique<T>(s: ScopeV<T>) -> bool {
    forall|a: int, b: int| 0 <= a < b < s.len() ==> #[trigger] s[a].0 != #[trigger] s[b].0
}

proof fn lemma_last_index<T>(s: ScopeV<T>, k: Seq<char>)
    ensures
        last_index(s, k) matches Some(j) ==> 0 <= j < s.len() && s[j].0 == k && forall|m: int|
            j < m < s.len() ==> s[m].0 != k,
        last_index(s, k) is None ==> forall|m: int| 0 <= m < s.len() ==> s[m].0 != k,
    decreases s.len(),
{
    if s.len() > 0 && s.last().0 != k {
        lemma_last_index(s.drop_last(), k);
        assert forall|m: int| 0 <= m < s.len() - 1 implies s[m] == s.drop_last()[m] by {}
    }
}

proof fn lemma_scope_get_none<T>(s: ScopeV<T>, k: Seq<char>)
    requires
        forall|m: int| 0 <= m < s.len() ==> s[m].0 != k,
    ensures
        scope_get(s, k) is None,
    decreases s.len(),
{
    if s.len() > 0 {
        lemma_scope_get_none(s.drop_last(), k);
    }
}

/// `scope_get` gives the value of the last binding of `k`.
proof fn lemma_scope_get_at<T>(s: ScopeV<T>, k: Seq<char>, j: int)
    requires
        0 <= j < s.len(),
        s[j].0 == k,
        forall|m: int| j < m < s.len() ==> s[m].0 != k,
    ensures
        scope_get(s, k) == Some(s[j].1),
    decreases s.len(),
{
    if j < s.len() - 1 {
        lemma_scope_get_at(s.drop_last(), k, j);
    }
}

proof fn lemma_scope_put<T>(s: ScopeV<T>, k: Seq<char>, v: T, other: Seq<char>)
    ensures
        scope_get(scope_put(s, k, v), k) == Some(v),
        other != k ==> scope_get(scope_put(s, k, v), other) == scope_get(s, other),
        names_unique(s) ==> names_unique(scope_put(s, k, v)),
{
    lemma_last_index(s, k);
    let p = scope_put(s, k, v);
    match last_index(s, k) {
        Some(j) => {
            lemma_scope_get_at(p, k, j);
        },
        None => {
            lemma_scope_get_at(p, k, s.len() as int);
        },
    }
    if other != k {
        lemma_last_index(s, other);
        lemma_last_index(p, other);
        match last_index(s, other) {
            Some(j) => {
                lemma_scope_get_at(s, other, j);
                lemma_scope_get_at(p, other, j);
            },
            None => {
                lemma_scope_get_none(s, other);
                lemma_scope_get_none(p, other);
            },
        }
    }
    if names_unique(s) {
        assert forall|a: int, b: int| 0 <= a < b < p.len() implies #[trigger] p[a].0 != #[trigger] p[b].0 by {
            if last_index(s, k) is None {
                if b == s.len() {
                    assert(s[a].0 != k);
                }
            }
        }
    }
}

/// The chain with a new, empty innermost scope.
pub open spec fn chain_push<T>(c: Seq<ScopeV<T>>) -> Seq<ScopeV<T>> {
    c.push(Seq::empty())
}

/// The chain without its innermost scope (unchanged when there is none).
pub open spec fn chain_pop<T>(c: Seq<ScopeV<T>>) -> Seq<ScopeV<T>> {
    if c.len() == 0 {
        c
    } else {
        c.drop_last()
    }
}

/// The scope chain of an evaluation: the last scope shadows the earlier ones, and `{% set %}` writes
/// into the last scope.
pub struct ScopeChain<T> {
    scopes: Vec<Vec<(String, T)>>,
}

pub open spec fn scope_v<T>(s: Seq<(String, T)>) -> ScopeV<T> {
    s.map_values(|e: (String, T)| (e.0@, e.1))
}

spec fn chain_of<T>(v: Seq<Vec<(String, T)>>) -> Seq<ScopeV<T>> {
    v.map_values(|s: Vec<(String, T)>| scope_v(s@))
}

impl<T> View for ScopeChain<T> {
    type V = Seq<ScopeV<T>>;

    closed spec fn view(&self) -> Seq<ScopeV<T>> {
        chain_of(self.scopes@)
    }
}

/// Whether no scope of the chain binds a name twice.
pub open spec fn chain_names_unique<T>(c: Seq<ScopeV<T>>) -> bool {
    forall|j: int| 0 <= j < c.len() ==> names_unique(#[trigger] c[j])
}

impl<T> ScopeChain<T> {
    /// Every scope binds each name at most once.
    #[verifier::type_invariant]
    spec fn names_once(self) -> bool {
        chain_names_unique(self@)
    }

    /// A chain with no scope.
    pub fn new() -> (c: Self)
        ensures
            c@ == Seq::<ScopeV<T>>::empty(),
            chain_names_unique(c@),
    {
        let c = ScopeChain { scopes: Vec::new() };
        proof {
            assert(c@ =~= Seq::<ScopeV<T>>::empty());
        }
        c
    }

    /// The number of scopes.
    pub fn depth(&self) -> (n: usize)
        ensures
            n == self@.len(),
    {
        self.scopes.len()
    }

    /// Opens a new, empty innermost scope.
    pub fn push_scope(&mut self)
        ensures
            final(self)@ == chain_push(old(self)@),
            chain_names_unique(final(self)@),
    {
        proof {
            use_type_invariant(&*self);
        }
        let ghost before = self@;
        let mut scopes: Vec<Vec<(String, T)>> = Vec::new();
        std::mem::swap(&mut scopes, &mut self.scopes);
        scopes.push(Vec::new());
        proof {
            assert(scope_v(Seq::<(String, T)>::empty()) =~= Seq::<(Seq<char>, T)>::empty());
            assert(chain_of(scopes@) =~= chain_push(before));
        }
        self.scopes = scopes;
    }

    /// Closes the innermost scope, forgetting what it bound.
    pub fn pop_scope(&mut self)
        ensures
            final(self)@ == chain_pop(old(self)@),
            chain_names_unique(final(self)@),
    {
        proof {
            use_type_invariant(&*self);
        }
        let ghost before = self@;
        let mut scopes: Vec<Vec<(String, T)>> = Vec::new();
        std::mem::swap(&mut scopes, &mut self.scopes);
        if scopes.len() > 0 {
            scopes.pop();
            proof {
                assert(chain_of(scopes@) =~= before.drop_last());
            }
        }
        self.scopes = scopes;
    }

    /// Binds `name` to `value` in the innermost scope, replacing a binding
    /// of `name` there; without a scope it does nothing.
    pub fn set(&mut self, name: String, value: T)
        ensures
            final(self)@ == chain_set(old(self)@, name@, value),
            chain_names_unique(final(self)@),
    {
        proof {
            use_type_invariant(&*self);
        }
        let ghost before = self@;
        let ghost k = name@;
        let mut scopes: Vec<Vec<(String, T)>> = Vec::new();
        std::mem::swap(&mut scopes, &mut self.scopes);
        if scopes.len() > 0 {
            let mut top = scopes.pop().unwrap();
            let ghost top0 = top@;
            let key = chars_of(name.as_str());
            let mut j: usize = top.len();
            let mut found = false;
            proof {
                assert(scope_v(top0).take(j as int) =~= scope_v(top0));
            }
            while j > 0 && !found
                invariant
                    j <= top.len(),
                    top@ == top0,
                    key@ == k,
                    last_index(scope_v(top0), k) == last_index(scope_v(top0).take(j as int), k),
                    found ==> j > 0 && scope_v(top0)[j - 1].0 == k,
                decreases j, (if found { 0int } else { 1int }),
            {
                let c = chars_of(top[j - 1].0.as_str());
                if crate::text::chars_eq(&c, &key) {
                    found = true;
                } else {
                    proof {
                        assert(scope_v(top0).take(j as int).drop_last() =~= scope_v(top0).take(j - 1));
                    }
                    j = j - 1;
                }
            }
            if found {
                proof {
                    assert(scope_v(top0).take(j as int).last() == scope_v(top0)[j - 1]);
                    assert(last_index(scope_v(top0), k) == Some(j - 1));
                }
                top.set(j - 1, (name, value));
                proof {
                    assert(scope_v(top@) =~= scope_v(top0).update(j - 1, (k, value)));
                }
            } else {
                proof {
                    assert(scope_v(top0).take(0) =~= Seq::<(Seq<char>, T)>::empty());
                    assert(last_index(scope_v(top0), k) is None);
                }
                top.push((name, value));
                proof {
                    assert(scope_v(top@) =~= scope_v(top0).push((k, value)));
                }
            }
            proof {
                lemma_scope_put(scope_v(top0), k, value, k);
                assert(names_unique(before[before.len() - 1]));
            }
            scopes.push(top);
            proof {
                assert(chain_of(scopes@) =~= before.update(before.len() - 1, scope_put(before.last(), k, value)));
            }
        }
        self.scopes = scopes;
    }

    /// The value that `name` resolves to: that of the innermost scope that
    /// binds it.
    pub fn resolve(&self, name: &str) -> (r: Option<&T>)
        ensures
            r matches Some(v) ==> chain_lookup(self@, name@) == Some(*v),
            r is None ==> chain_lookup(self@, name@) is None,
    {
        let key = name.to_owned();
        let mut i: usize = self.scopes.len();
        proof {
            assert(self@.take(i as int) =~= self@);
        }
        while i > 0
            invariant
                i <= self.scopes.len(),
                key@ == name@,
                chain_lookup(self@, name@) == chain_lookup(self@.take(i as int), name@),
            decreases i,
        {
            let scope = &self.scopes[i - 1];
            let mut j: usize = scope.len();
            proof {
                assert(self@.take(i as int).drop_last() =~= self@.take(i - 1));
                assert(self@.take(i as int).last() == scope_v(scope@));
                assert(scope_v(scope@).take(j as int) =~= scope_v(scope@));
            }
            while j > 0
                invariant
                    j <= scope.len(),
                    key@ == name@,
                    0 < i <= self.scopes.len(),
                    chain_lookup(self@, name@) == chain_lookup(self@.take(i as int), name@),
                    self@.take(i as int).last() == scope_v(scope@),
                    scope_get(scope_v(scope@), name@) == scope_get(scope_v(scope@).take(j as int), name@),
                decreases j,
            {
                proof {
                    assert(scope_v(scope@).take(j as int).drop_last() =~= scope_v(scope@).take(j - 1));
                }
                if scope[j - 1].0 == key {
                    proof {
                        assert(scope_v(scope@).take(j as int).last() == (name@, scope@[j - 1].1));
                        assert(scope_get(scope_v(scope@), name@) == Some(scope@[j - 1].1));
                        assert(chain_lookup(self@.take(i as int), name@) == Some(scope@[j - 1].1));
                    }
                    return Some(&scope[j - 1].1);
                }
                j = j - 1;
            }
            proof {
                assert(scope_v(scope@).take(0) =~= Seq::<(Seq<char>, T)>::empty());
            }
            i = i - 1;
        }
        None
    }

    /// Whether some scope binds `name` (the `is present` test).
    pub fn contains(&self, name: &str) -> (b: bool)
        ensures
            b == chain_lookup(self@, name@) is Some,
    {
        match self.resolve(name) {
            Some(_) => true,
            None => false,
        }
    }
}

} // verus!

verus! {

/// A variable set in the innermost scope resolves to the value set, as
/// long as there is a scope to set it in.
pub proof fn law_set_then_resolve<T>(c: Seq<ScopeV<T>>, k: Seq<char>, v: T)
    requires
        c.len() > 0,
    ensures
        chain_lookup(chain_set(c, k, v), k) == Some(v),
{
    lemma_scope_put(c.last(), k, v, k);
    let d = chain_set(c, k, v);
    assert(d.last() == scope_put(c.last(), k, v));
}

/// Setting one variable leaves what every other name resolves to.
pub proof fn law_set_keeps_other_names<T>(c: Seq<ScopeV<T>>, k: Seq<char>, v: T, other: Seq<char>)
    requires
        other != k,
    ensures
        chain_lookup(chain_set(c, k, v), other) == chain_lookup(c, other),
{
    if c.len() > 0 {
        lemma_scope_put(c.last(), k, v, other);
        let d = chain_set(c, k, v);
        assert(d.last() == scope_put(c.last(), k, v));
        assert(d.drop_last() =~= c.drop_last());
    }
}

/// Setting a name keeps each scope binding every name at most once.
pub proof fn law_set_keeps_names_unique<T>(c: Seq<ScopeV<T>>, k: Seq<char>, v: T)
    requires
        forall|j: int| 0 <= j < c.len() ==> names_unique(#[trigger] c[j]),
    ensures
        forall|j: int| 0 <= j < chain_set(c, k, v).len() ==> names_unique(#[trigger] chain_set(c, k, v)[j]),
{
    if c.len() > 0 {
        lemma_scope_put(c.last(), k, v, k);
        assert(names_unique(c[c.len() - 1]));
    }
}

/// Opening a scope hides nothing, and closing it again gives back the
/// chain as it was.
pub proof fn law_push_pop<T>(c: Seq<ScopeV<T>>, k: Seq<char>)
    ensures
        chain_lookup(chain_push(c), k) == chain_lookup(c, k),
        chain_pop(chain_push(c)) == c,
{
    assert(chain_push(c).drop_last() =~= c);
}

/// What is set inside a scope is forgotten when the scope closes (a
/// `{% set %}` in a `{% for %}` body does not outlive the iteration).
pub proof fn law_scoped_set_is_forgotten<T>(c: Seq<ScopeV<T>>, k: Seq<char>, v: T)
    ensures
        chain_pop(chain_set(chain_push(c), k, v)) == c,
{
    let p = chain_push(c);
    let d = chain_set(p, k, v);
    assert(d.drop_last() =~= c);
}

/// Whether no segment of a `/`-separated path is empty: the path neither
/// starts nor ends with `/` and holds no `//`.
pub open spec fn no_empty_segment(cs: Seq<char>) -> bool {
    &&& cs.len() > 0 ==> cs[0] != '/' && cs[cs.len() - 1] != '/'
    &&& forall|i: int| 0 <= i < cs.len() - 1 ==> !(#[trigger] cs[i] == '/' && cs[i + 1] == '/')
}

/// Whether every segment is non-empty and holds no `/`.
pub open spec fn proper_segs(v: Seq<Seq<char>>) -> bool {
    forall|j: int|
        0 <= j < v.len() ==> (#[trigger] v[j]).len() > 0 && forall|m: int|
            0 <= m < v[j].len() ==> v[j][m] != '/'
}

proof fn lemma_split_no_slash(cs: Seq<char>)
    ensures
        forall|j: int, m: int|
            0 <= j < split_slash(cs).len() && 0 <= m < split_slash(cs)[j].len() ==> #[trigger] split_slash(
                cs,
            )[j][m] != '/',
    decreases cs.len(),
{
    if cs.len() > 0 {
        lemma_split_no_slash(cs.drop_last());
        lemma_split_slash_len(cs.drop_last());
        let s = split_slash(cs.drop_last());
        if cs.last() != '/' {
            let t = s.update(s.len() - 1, s.last().push(cs.last()));
            assert forall|j: int, m: int| 0 <= j < t.len() && 0 <= m < t[j].len() implies #[trigger] t[j][m]
                != '/' by {
                if j == s.len() - 1 {
                    if m < s.last().len() {
                        assert(t[j][m] == s[j][m]);
                    }
                } else {
                    assert(t[j] == s[j]);
                }
            }
        } else {
            let t = s.push(Seq::<char>::empty());
            assert forall|j: int, m: int| 0 <= j < t.len() && 0 <= m < t[j].len() implies #[trigger] t[j][m]
                != '/' by {
                assert(t[j] == s[j]);
            }
        }
    }
}

proof fn lemma_keep_nonempty_proper(segs: Seq<Seq<char>>)
    requires
        forall|j: int, m: int| 0 <= j < segs.len() && 0 <= m < segs[j].len() ==> #[trigger] segs[j][m] != '/',
    ensures
        proper_segs(keep_nonempty(segs)),
    decreases segs.len(),
{
    if segs.len() > 0 {
        let d = segs.drop_last();
        assert forall|j: int, m: int| 0 <= j < d.len() && 0 <= m < d[j].len() implies #[trigger] d[j][m] != '/' by {
            assert(d[j] == segs[j]);
        }
        lemma_keep_nonempty_proper(d);
        let v = keep_nonempty(d);
        if segs.last().len() > 0 {
            let w = v.push(segs.last());
            assert forall|j: int| 0 <= j < w.len() implies (#[trigger] w[j]).len() > 0 && forall|m: int|
                0 <= m < w[j].len() ==> w[j][m] != '/' by {
                if j < v.len() {
                    assert(w[j] == v[j]);
                } else {
                    assert forall|m: int| 0 <= m < w[j].len() implies w[j][m] != '/' by {
                        assert(w[j][m] == segs[segs.len() - 1][m]);
                    }
                }
            }
        }
    }
}

proof fn lemma_apply_segs_proper(base: Seq<Seq<char>>, segs: Seq<Seq<char>>)
    requires
        proper_segs(base),
        forall|j: int, m: int| 0 <= j < segs.len() && 0 <= m < segs[j].len() ==> #[trigger] segs[j][m] != '/',
    ensures
        proper_segs(apply_segs(base, segs)),
    decreases segs.len(),
{
    if segs.len() > 0 {
        let d = segs.drop_last();
        assert forall|j: int, m: int| 0 <= j < d.len() && 0 <= m < d[j].len() implies #[trigger] d[j][m] != '/' by {
            assert(d[j] == segs[j]);
        }
        lemma_apply_segs_proper(base, d);
        let v = apply_segs(base, d);
        let seg = segs.last();
        if seg == seq!['.', '.'] {
            if v.len() > 0 {
                assert forall|j: int| 0 <= j < v.drop_last().len() implies (#[trigger] v.drop_last()[j]).len()
                    > 0 && forall|m: int| 0 <= m < v.drop_last()[j].len() ==> v.drop_last()[j][m] != '/' by {
                    assert(v.drop_last()[j] == v[j]);
                }
            }
        } else if seg != seq!['.'] && seg.len() > 0 {
            let w = v.push(seg);
            assert forall|j: int| 0 <= j < w.len() implies (#[trigger] w[j]).len() > 0 && forall|m: int|
                0 <= m < w[j].len() ==> w[j][m] != '/' by {
                if j < v.len() {
                    assert(w[j] == v[j]);
                } else {
                    assert forall|m: int| 0 <= m < w[j].len() implies w[j][m] != '/' by {
                        assert(w[j][m] == segs[segs.len() - 1][m]);
                    }
                }
            }
        }
    }
}

proof fn lemma_join_proper(segs: Seq<Seq<char>>)
    requires
        proper_segs(segs),
    ensures
        no_empty_segment(join_slash(segs)),
        segs.len() > 0 ==> join_slash(segs).len() > 0,
    decreases segs.len(),
{
    if segs.len() == 1 {
        let s = segs[0];
        assert(s.len() > 0);
        assert forall|i: int| 0 <= i < s.len() - 1 implies !(#[trigger] s[i] == '/' && s[i + 1] == '/') by {}
    } else if segs.len() > 1 {
        let d = segs.drop_last();
        assert forall|j: int| 0 <= j < d.len() implies (#[trigger] d[j]).len() > 0 && forall|m: int|
            0 <= m < d[j].len() ==> d[j][m] != '/' by {
            assert(d[j] == segs[j]);
        }
        lemma_join_proper(d);
        let a = join_slash(d);
        let l = segs.last();
        assert(l == segs[segs.len() - 1]);
        let r = a + seq!['/'] + l;
        assert(r[0] == a[0]);
        assert(r[r.len() - 1] == l[l.len() - 1]);
        assert forall|i: int| 0 <= i < r.len() - 1 implies !(#[trigger] r[i] == '/' && r[i + 1] == '/') by {
            if i < a.len() - 1 {
                assert(r[i] == a[i] && r[i + 1] == a[i + 1]);
            } else if i == a.len() - 1 {
                assert(r[i] == a[a.len() - 1]);
            } else if i == a.len() {
                assert(r[i + 1] == l[0]);
            } else {
                assert(r[i] == l[i - a.len() - 1]);
                assert(r[i + 1] == l[i - a.len()]);
            }
        }
    }
}

/// A `../` or `./` include path resolves to a normalised path: it neither
/// starts nor ends with `/` and holds no `//`.
pub proof fn law_resolved_include_is_normalised(current: Option<Seq<char>>, rel: Seq<char>)
    requires
        is_relative(rel),
    ensures
        no_empty_segment(spec_resolve_include(current, rel)),
{
    let base = base_dir(current);
    assert(proper_segs(base)) by {
        match current {
            Some(c) => {
                lemma_split_no_slash(c);
                lemma_keep_nonempty_proper(split_slash(c));
                let k = keep_nonempty(split_slash(c));
                if k.len() > 0 {
                    assert forall|j: int| 0 <= j < k.drop_last().len() implies (#[trigger] k.drop_last()[j]).len()
                        > 0 && forall|m: int| 0 <= m < k.drop_last()[j].len() ==> k.drop_last()[j][m] != '/' by {
                        assert(k.drop_last()[j] == k[j]);
                    }
                }
            },
            None => {},
        }
    }
    lemma_split_no_slash(rel);
    lemma_apply_segs_proper(base, split_slash(rel));
    lemma_join_proper(apply_segs(base, split_slash(rel)));
}

} // verus!

verus! {

// ---------------------------------------------------------------------------
// Names of methods, filters and tests
// ---------------------------------------------------------------------------

/// A built-in method of strings, lists and maps.
#[derive(Debug, Clone, Copy, PartialEq, Eq, Structural)]
pub enum Method {
    ToLowerCase,
    ToUpperCase,
    Size,
    Keys,
    Values,
    EntrySet,
}

/// A built-in filter.
#[derive(Debug, Clone, Copy, PartialEq, Eq, Structural)]
pub enum FilterKind {
    Length,
    Escape,
    Replace,
    Upper,
    Lower,
    Keys,
    Values,
    EntrySet,
}

/// A built-in test (`x is name`).
#[derive(Debug, Clone, Copy, PartialEq, Eq, Structural)]
pub enum TestKind {
    Present,
    Defined,
}

/// The part of a map entry that a member or method name asks for.
#[derive(Debug, Clone, Copy, PartialEq, Eq, Structural)]
pub enum EntryPart {
    Key,
    Value,
}

/// The built-in method that a (snake_case) name spells.
pub open spec fn method_named(s: Seq<char>) -> Option<Method> {
    if s == seq!['t', 'o', '_', 'l', 'o', 'w', 'e', 'r', '_', 'c', 'a', 's', 'e'] {
        Some(Method::ToLowerCase)
    } else if s == seq!['t', 'o', '_', 'u', 'p', 'p', 'e', 'r', '_', 'c', 'a', 's', 'e'] {
        Some(Method::ToUpperCase)
    } else if s == seq!['s', 'i', 'z', 'e'] || s == seq!['l', 'e', 'n', 'g', 't', 'h'] {
        Some(Method::Size)
    } else if s == seq!['k', 'e', 'y', 's'] {
        Some(Method::Keys)
    } else if s == seq!['v', 'a', 'l', 'u', 'e', 's'] {
        Some(Method::Values)
    } else if s == seq!['e', 'n', 't', 'r', 'y', '_', 's', 'e', 't'] {
        Some(Method::EntrySet)
    } else {
        None
    }
}

/// The built-in filter that a (snake_case) name spells.
pub open spec fn filter_named(s: Seq<char>) -> Option<FilterKind> {
    if s == seq!['l', 'e', 'n', 'g', 't', 'h'] || s == seq!['s', 'i', 'z', 'e'] {
        Some(FilterKind::Length)
    } else if s == seq!['e', 's', 'c', 'a', 'p', 'e'] {
        Some(FilterKind::Escape)
    } else if s == seq!['r', 'e', 'p', 'l', 'a', 'c', 'e'] {
        Some(FilterKind::Replace)
    } else if s == seq!['u', 'p', 'p', 'e', 'r'] || s == seq![
        't',
        'o',
        '_',
        'u',
        'p',
        'p',
        'e',
        'r',
        '_',
        'c',
        'a',
        's',
        'e',
    ] {
        Some(FilterKind::Upper)
    } else if s == seq!['l', 'o', 'w', 'e', 'r'] || s == seq![
        't',
        'o',
        '_',
        'l',
        'o',
        'w',
        'e',
        'r',
        '_',
        'c',
        'a',
        's',
        'e',
    ] {
        Some(FilterKind::Lower)
    } else if s == seq!['k', 'e', 'y', 's'] {
        Some(FilterKind::Keys)
    } else if s == seq!['v', 'a', 'l', 'u', 'e', 's'] {
        Some(FilterKind::Values)
    } else if s == seq!['e', 'n', 't', 'r', 'y', '_', 's', 'e', 't'] {
        Some(FilterKind::EntrySet)
    } else {
        None
    }
}

/// The built-in test that a name spells.
pub open spec fn test_named(s: Seq<char>) -> Option<TestKind> {
    if s == seq!['p', 'r', 'e', 's', 'e', 'n', 't'] {
        Some(TestKind::Present)
    } else if s == seq!['d', 'e', 'f', 'i', 'n', 'e', 'd'] {
        Some(TestKind::Defined)
    } else {
        None
    }
}

/// The entry part that a list of name candidates asks for: the key when a
/// candidate is `key` or `get_key`, else the value when one is `value` or
/// `get_value`.
pub open spec fn entry_part_of(cands: Seq<Seq<char>>) -> Option<EntryPart> {
    if cands.contains(seq!['k', 'e', 'y']) || cands.contains(seq!['g', 'e', 't', '_', 'k', 'e', 'y']) {
        Some(EntryPart::Key)
    } else if cands.contains(seq!['v', 'a', 'l', 'u', 'e']) || cands.contains(
        seq!['g', 'e', 't', '_', 'v', 'a', 'l', 'u', 'e'],
    ) {
        Some(EntryPart::Value)
    } else {
        None
    }
}

/// The built-in method that a template name calls: the one its snake_case
/// form spells (`toUpperCase` and `to_upper_case` both name
/// `to_upper_case`).
pub fn method_of(name: &str) -> (r: Option<Method>)
    ensures
        r == method_named(crate::value::spec_camel_to_snake(name@)),
{
    let snake = crate::value::camel_to_snake(name);
    let s = chars_of(snake.as_str());
    if spells(&s, &['t', 'o', '_', 'l', 'o', 'w', 'e', 'r', '_', 'c', 'a', 's', 'e']) {
        Some(Method::ToLowerCase)
    } else if spells(&s, &['t', 'o', '_', 'u', 'p', 'p', 'e', 'r', '_', 'c', 'a', 's', 'e']) {
        Some(Method::ToUpperCase)
    } else if spells(&s, &['s', 'i', 'z', 'e']) || spells(&s, &['l', 'e', 'n', 'g', 't', 'h']) {
        Some(Method::Size)
    } else if spells(&s, &['k', 'e', 'y', 's']) {
        Some(Method::Keys)
    } else if spells(&s, &['v', 'a', 'l', 'u', 'e', 's']) {
        Some(Method::Values)
    } else if spells(&s, &['e', 'n', 't', 'r', 'y', '_', 's', 'e', 't']) {
        Some(Method::EntrySet)
    } else {
        None
    }
}

/// The built-in filter that a template name applies (by its snake_case
/// form).
pub fn filter_of(name: &str) -> (r: Option<FilterKind>)
    ensures
        r == filter_named(crate::value::spec_camel_to_snake(name@)),
{
    let snake = crate::value::camel_to_snake(name);
    let s = chars_of(snake.as_str());
    if spells(&s, &['l', 'e', 'n', 'g', 't', 'h']) || spells(&s, &['s', 'i', 'z', 'e']) {
        Some(FilterKind::Length)
    } else if spells(&s, &['e', 's', 'c', 'a', 'p', 'e']) {
        Some(FilterKind::Escape)
    } else if spells(&s, &['r', 'e', 'p', 'l', 'a', 'c', 'e']) {
        Some(FilterKind::Replace)
    } else if spells(&s, &['u', 'p', 'p', 'e', 'r']) || spells(
        &s,
        &['t', 'o', '_', 'u', 'p', 'p', 'e', 'r', '_', 'c', 'a', 's', 'e'],
    ) {
        Some(FilterKind::Upper)
    } else if spells(&s, &['l', 'o', 'w', 'e', 'r']) || spells(
        &s,
        &['t', 'o', '_', 'l', 'o', 'w', 'e', 'r', '_', 'c', 'a', 's', 'e'],
    ) {
        Some(FilterKind::Lower)
    } else if spells(&s, &['k', 'e', 'y', 's']) {
        Some(FilterKind::Keys)
    } else if spells(&s, &['v', 'a', 'l', 'u', 'e', 's']) {
        Some(FilterKind::Values)
    } else if spells(&s, &['e', 'n', 't', 'r', 'y', '_', 's', 'e', 't']) {
        Some(FilterKind::EntrySet)
    } else {
        None
    }
}

/// The built-in test that a name asks for.
pub fn test_of(name: &str) -> (r: Option<TestKind>)
    ensures
        r == test_named(name@),
{
    let s = chars_of(name);
    if spells(&s, &['p', 'r', 'e', 's', 'e', 'n', 't']) {
        Some(TestKind::Present)
    } else if spells(&s, &['d', 'e', 'f', 'i', 'n', 'e', 'd']) {
        Some(TestKind::Defined)
    } else {
        None
    }
}

/// Whether one of `cands` spells `w`.
fn any_spells(cands: &Vec<String>, w: &[char]) -> (r: bool)
    ensures
        r == crate::value::strings_v(cands@).contains(w@),
{
    let mut k: usize = 0;
    while k < cands.len()
        invariant
            k <= cands.len(),
            forall|j: int| 0 <= j < k ==> cands@[j]@ != w@,
        decreases cands.len() - k,
    {
        let c = chars_of(cands[k].as_str());
        if spells(&c, w) {
            proof {
                assert(crate::value::strings_v(cands@)[k as int] == w@);
            }
            return true;
        }
        k = k + 1;
    }
    proof {
        if crate::value::strings_v(cands@).contains(w@) {
            let j = choose|j: int|
                0 <= j < crate::value::strings_v(cands@).len() && crate::value::strings_v(
                    cands@,
                )[j] == w@;
            assert(cands@[j]@ == w@);
        }
    }
    false
}

/// The entry part that name candidates (from `name_variants` or
/// `call_variants`) ask for on a map entry.
pub fn entry_part(cands: &Vec<String>) -> (r: Option<EntryPart>)
    ensures
        r == entry_part_of(crate::value::strings_v(cands@)),
{
    if any_spells(cands, &['k', 'e', 'y']) || any_spells(cands, &['g', 'e', 't', '_', 'k', 'e', 'y']) {
        Some(EntryPart::Key)
    } else if any_spells(cands, &['v', 'a', 'l', 'u', 'e']) || any_spells(
        cands,
        &['g', 'e', 't', '_', 'v', 'a', 'l', 'u', 'e'],
    ) {
        Some(EntryPart::Value)
    } else {
        None
    }
}

/// The integers of the range literal `[a..b]`: `a` up to `b`, both
/// included (none when `b < a`).
pub fn int_range(a: i64, b: i64) -> (r: Vec<i64>)
    ensures
        r@.len() == (if b < a {
            0
        } else {
            b - a + 1
        }),
        forall|j: int| 0 <= j < r@.len() ==> #[trigger] r@[j] == a + j,
{
    let mut r: Vec<i64> = Vec::new();
    if b < a {
        return r;
    }
    let mut k: i64 = a;
    loop
        invariant
            a <= k <= b,
            r@.len() == k - a,
            forall|j: int| 0 <= j < r@.len() ==> #[trigger] r@[j] == a + j,
        decreases b - k,
    {
        r.push(k);
        if k == b {
            return r;
        }
        k = k + 1;
    }
}

/// A map entry's part follows the names asked for: the key when a
/// candidate is `key` or `get_key`; otherwise the value when a candidate is
/// `value` or `get_value`; otherwise neither. So `e.key`, `e.getKey()`,
/// `e.value` and `e.getValue()` all reach their part.
pub proof fn law_entry_part_follows_names(cands: Seq<Seq<char>>)
    ensures
        entry_part_of(cands) == Some(EntryPart::Key) <==> (cands.contains(seq!['k', 'e', 'y'])
            || cands.contains(seq!['g', 'e', 't', '_', 'k', 'e', 'y'])),
        entry_part_of(cands) == Some(EntryPart::Value) <==> (!cands.contains(seq!['k', 'e', 'y'])
            && !cands.contains(seq!['g', 'e', 't', '_', 'k', 'e', 'y']) && (cands.contains(
            seq!['v', 'a', 'l', 'u', 'e'],
        ) || cands.contains(seq!['g', 'e', 't', '_', 'v', 'a', 'l', 'u', 'e']))),
        entry_part_of(cands) is None <==> (!cands.contains(seq!['k', 'e', 'y']) && !cands.contains(
            seq!['g', 'e', 't', '_', 'k', 'e', 'y'],
        ) && !cands.contains(seq!['v', 'a', 'l', 'u', 'e']) && !cands.contains(
            seq!['g', 'e', 't', '_', 'v', 'a', 'l', 'u', 'e'],
        )),
{
}

/// A candidate list that starts with a name reaches the entry part that
/// name spells: `value` or `get_value` alone reaches the value, `key` or
/// `get_key` the key.
pub proof fn law_entry_part_of_single_name(n: Seq<char>)
    ensures
        (n == seq!['v', 'a', 'l', 'u', 'e'] || n == seq!['g', 'e', 't', '_', 'v', 'a', 'l', 'u', 'e'])
            ==> entry_part_of(seq![n]) == Some(EntryPart::Value),
        (n == seq!['k', 'e', 'y'] || n == seq!['g', 'e', 't', '_', 'k', 'e', 'y']) ==> entry_part_of(seq![n])
            == Some(EntryPart::Key),
{
    let c = seq![n];
    assert(c[0] == n);
    assert(c.contains(n));
    if c.contains(seq!['k', 'e', 'y']) {
        assert(n == seq!['k', 'e', 'y']);
    }
    if c.contains(seq!['g', 'e', 't', '_', 'k', 'e', 'y']) {
        assert(n == seq!['g', 'e', 't', '_', 'k', 'e', 'y']);
    }
    if n == seq!['v', 'a', 'l', 'u', 'e'] || n == seq!['g', 'e', 't', '_', 'v', 'a', 'l', 'u', 'e'] {
        assert(n != seq!['k', 'e', 'y']) by {
            assert(n.len() != 3);
        }
        assert(n != seq!['g', 'e', 't', '_', 'k', 'e', 'y']) by {
            if n.len() == 7 {
                assert(n[0] == 'v' || n[4] == 'v');
            }
        }
    }
}

/// Whether `s` is a (snake_case) name of the built-in method `m`.
pub open spec fn method_spelled(m: Method, s: Seq<char>) -> bool {
    match m {
        Method::ToLowerCase => s == seq!['t', 'o', '_', 'l', 'o', 'w', 'e', 'r', '_', 'c', 'a', 's', 'e'],
        Method::ToUpperCase => s == seq!['t', 'o', '_', 'u', 'p', 'p', 'e', 'r', '_', 'c', 'a', 's', 'e'],
        Method::Size => s == seq!['s', 'i', 'z', 'e'] || s == seq!['l', 'e', 'n', 'g', 't', 'h'],
        Method::Keys => s == seq!['k', 'e', 'y', 's'],
        Method::Values => s == seq!['v', 'a', 'l', 'u', 'e', 's'],
        Method::EntrySet => s == seq!['e', 'n', 't', 'r', 'y', '_', 's', 'e', 't'],
    }
}

/// Whether `s` is a (snake_case) name of the built-in filter `m`.
pub open spec fn filter_spelled(m: FilterKind, s: Seq<char>) -> bool {
    match m {
        FilterKind::Length => s == seq!['l', 'e', 'n', 'g', 't', 'h'] || s == seq!['s', 'i', 'z', 'e'],
        FilterKind::Escape => s == seq!['e', 's', 'c', 'a', 'p', 'e'],
        FilterKind::Replace => s == seq!['r', 'e', 'p', 'l', 'a', 'c', 'e'],
        FilterKind::Upper => s == seq!['u', 'p', 'p', 'e', 'r'] || s == seq!['t', 'o', '_', 'u', 'p', 'p', 'e', 'r', '_', 'c', 'a', 's', 'e'],
        FilterKind::Lower => s == seq!['l', 'o', 'w', 'e', 'r'] || s == seq!['t', 'o', '_', 'l', 'o', 'w', 'e', 'r', '_', 'c', 'a', 's', 'e'],
        FilterKind::Keys => s == seq!['k', 'e', 'y', 's'],
        FilterKind::Values => s == seq!['v', 'a', 'l', 'u', 'e', 's'],
        FilterKind::EntrySet => s == seq!['e', 'n', 't', 'r', 'y', '_', 's', 'e', 't'],
    }
}

/// Whether `s` is the name of the built-in test `m`.
pub open spec fn test_spelled(m: TestKind, s: Seq<char>) -> bool {
    match m {
        TestKind::Present => s == seq!['p', 'r', 'e', 's', 'e', 'n', 't'],
        TestKind::Defined => s == seq!['d', 'e', 'f', 'i', 'n', 'e', 'd'],
    }
}

/// A name calls a built-in method exactly when it is one of that method's names
/// (`to_upper_case`, `size` or `length`, ...), and no method otherwise.
pub proof fn law_methods_are_what_their_names_spell(s: Seq<char>, m: Method)
    ensures
        method_named(s) == Some(m) <==> method_spelled(m, s),
        method_named(s) is None <==> (forall|k: Method| !#[trigger] method_spelled(k, s)),
{
    assert forall|k: Method| #[trigger] method_spelled(k, s) implies method_named(s) == Some(k) by {
        match k {
            Method::ToLowerCase => {},
            Method::ToUpperCase => {},
            Method::Size => {},
            Method::Keys => {},
            Method::Values => {},
            Method::EntrySet => {},
        }
    }
    if method_named(s) is Some {
        assert(method_spelled(method_named(s).unwrap(), s));
    }
}

/// A name applies a built-in filter exactly when it is one of that filter's
/// names (`upper` or `to_upper_case`, `length` or `size`, `keys`, ...), and
/// no filter otherwise.
pub proof fn law_filters_are_what_their_names_spell(s: Seq<char>, m: FilterKind)
    ensures
        filter_named(s) == Some(m) <==> filter_spelled(m, s),
        filter_named(s) is None <==> (forall|k: FilterKind| !#[trigger] filter_spelled(k, s)),
{
    assert forall|k: FilterKind| #[trigger] filter_spelled(k, s) implies filter_named(s) == Some(k) by {
        match k {
            FilterKind::Length => {},
            FilterKind::Escape => {},
            FilterKind::Replace => {},
            FilterKind::Upper => {},
            FilterKind::Lower => {},
            FilterKind::Keys => {},
            FilterKind::Values => {},
            FilterKind::EntrySet => {},
        }
    }
    if filter_named(s) is Some {
        assert(filter_spelled(filter_named(s).unwrap(), s));
    }
}

/// A name asks for a built-in test exactly when it is that test's name.
pub proof fn law_tests_are_what_their_names_spell(s: Seq<char>, m: TestKind)
    ensures
        test_named(s) == Some(m) <==> test_spelled(m, s),
        test_named(s) is None <==> (forall|k: TestKind| !#[trigger] test_spelled(k, s)),
{
    assert forall|k: TestKind| #[trigger] test_spelled(k, s) implies test_named(s) == Some(k) by {
        match k {
            TestKind::Present => {},
            TestKind::Defined => {},
        }
    }
    if test_named(s) is Some {
        assert(test_spelled(test_named(s).unwrap(), s));
    }
}

} // verus!
