//! Statement execution as a state machine: the machine walks the statements
//! of a template and decides what runs next (which `if` branch, one `for`
//! body run per item in a fresh scope, where `set` binds, which template an
//! `include` loads and which escaping mode applies). The caller evaluates
//! expressions and loads templates, and hands back what it found.
use vstd::prelude::*;
use std::sync::Arc;
use crate::ast::{
    Expr, Stmt, StmtV, ExprV, expr_v, stmt_v, stmts_v, branches_v, lemma_stmts_v_index,
    lemma_branches_v_index,
};
use crate::engine::{ScopeChain, ScopeV, chain_set, chain_push, chain_pop, spec_resolve_include, resolve_include};
use crate::value::{escape, spec_js_escape, spec_html_escape};

verus! {

// ---------------------------------------------------------------------------
// Where a body lies
// ---------------------------------------------------------------------------

/// The body that step `(i, part)` enters from the statements `b`: branch
/// `part` of an `if` at `i` (its `else` body when `part` is past the
/// branches), or the body of a `for` or an `autoescape` at `i`.
pub open spec fn sub_body(b: Seq<StmtV>, step: (int, int)) -> Seq<StmtV> {
    if 0 <= step.0 < b.len() {
        match b[step.0] {
            StmtV::If(br, els) => if 0 <= step.1 < br.len() {
                br[step.1].1
            } else {
                els
            },
            StmtV::For { body, .. } => body,
            StmtV::Autoescape(_, body) => body,
            _ => Seq::empty(),
        }
    } else {
        Seq::empty()
    }
}

/// The body that `path` leads to from the statements `b`.
pub open spec fn body_at(b: Seq<StmtV>, path: Seq<(int, int)>) -> Seq<StmtV>
    decreases path.len(),
{
    if path.len() == 0 {
        b
    } else {
        sub_body(body_at(b, path.drop_last()), path.last())
    }
}

/// What a frame does when its body is done.
pub enum EndV<V> {
    Plain,
    ForLoop { target: Seq<char>, rest: Seq<V> },
    Include { prev: Option<Seq<char>> },
    Autoescape,
}

/// A body being run: template `tpl`, the path to the body in it, and the
/// position of the next statement.
pub struct FrameV<V> {
    pub tpl: int,
    pub path: Seq<(int, int)>,
    pub next: int,
    pub end: EndV<V>,
}

/// What the machine waits for.
#[derive(Debug, Clone, Copy, PartialEq, Eq, Structural)]
pub enum Wait {
    Ready,
    Shown,
    Cond(usize),
    Items,
    Value,
    Path,
    Mode,
}

/// The waits that carry a string, by their view.
pub enum WaitV {
    Plain(Wait),
    Load(Seq<char>),
}

/// The machine's state.
pub struct StateV<V> {
    pub frames: Seq<FrameV<V>>,
    pub scopes: Seq<ScopeV<Option<V>>>,
    pub escapes: Seq<Seq<char>>,
    pub current: Option<Seq<char>>,
    pub templates: Seq<Seq<StmtV>>,
    pub wait: WaitV,
}

/// What the caller hands back.
pub enum EventV<V> {
    Next,
    Shown(Seq<char>),
    Truth(bool),
    Items(Seq<V>),
    Value(V),
    Path(Option<Seq<char>>),
    Loaded(Option<Seq<StmtV>>),
    Mode(Option<Seq<char>>),
}

/// What the machine asks of the caller.
pub enum ActionV {
    Continue,
    Emit(Seq<char>),
    Output,
    Cond,
    Items,
    Value,
    Path,
    Load(Seq<char>),
    Mode,
    Done,
}

/// The body that `path` leads to in template `tpl`.
pub open spec fn located(tpls: Seq<Seq<StmtV>>, tpl: int, path: Seq<(int, int)>) -> Seq<StmtV> {
    if 0 <= tpl < tpls.len() {
        body_at(tpls[tpl], path)
    } else {
        Seq::empty()
    }
}

/// The body that frame `f` runs.
pub open spec fn frame_body<V>(tpls: Seq<Seq<StmtV>>, f: FrameV<V>) -> Seq<StmtV> {
    located(tpls, f.tpl, f.path)
}

/// The innermost frame's body.
pub open spec fn top_body<V>(s: StateV<V>) -> Seq<StmtV> {
    frame_body(s.templates, s.frames.last())
}

/// The statement the innermost frame is at.
pub open spec fn top_stmt<V>(s: StateV<V>) -> Option<StmtV> {
    if s.frames.len() > 0 && 0 <= s.frames.last().next < top_body(s).len() {
        Some(top_body(s)[s.frames.last().next])
    } else {
        None
    }
}

/// The frame `f` one statement further on.
pub open spec fn step_frame<V>(f: FrameV<V>) -> FrameV<V> {
    FrameV {
        next: if f.next < usize::MAX {
            f.next + 1
        } else {
            f.next
        },
        ..f
    }
}

/// `s` with its innermost frame one statement further on and waiting for
/// nothing.
pub open spec fn advance<V>(s: StateV<V>) -> StateV<V> {
    StateV {
        frames: if s.frames.len() > 0 {
            s.frames.update(s.frames.len() - 1, step_frame(s.frames.last()))
        } else {
            s.frames
        },
        wait: WaitV::Plain(Wait::Ready),
        ..s
    }
}

/// A frame for the body that step `part` of the innermost frame's current
/// statement enters.
pub open spec fn child<V>(s: StateV<V>, part: int, end: EndV<V>) -> FrameV<V> {
    let f = s.frames.last();
    FrameV { tpl: f.tpl, path: f.path.push((f.next, part)), next: 0, end }
}

/// `s` waiting for `w`.
pub open spec fn waiting<V>(s: StateV<V>, w: Wait) -> StateV<V> {
    StateV { wait: WaitV::Plain(w), ..s }
}

/// What the text `t` of an output becomes under the escaping modes
/// `escapes`: escaped for the innermost mode, as it is without one.
pub open spec fn escaped(escapes: Seq<Seq<char>>, t: Seq<char>) -> Seq<char> {
    if escapes.len() == 0 {
        t
    } else if escapes.last() == seq!['j', 's'] {
        spec_js_escape(t)
    } else {
        spec_html_escape(t)
    }
}

/// The step when the machine waits for nothing: finish the innermost body
/// when it is done, else start its next statement.
pub open spec fn ready_step<V>(s: StateV<V>) -> (StateV<V>, ActionV) {
    if s.frames.len() == 0 {
        (s, ActionV::Done)
    } else {
        match top_stmt(s) {
            None => end_step(s),
            Some(StmtV::Text(t)) => (advance(s), ActionV::Emit(t)),
            Some(StmtV::Expr(_)) => (waiting(s, Wait::Shown), ActionV::Output),
            Some(StmtV::If(_, _)) => (waiting(s, Wait::Cond(0)), ActionV::Cond),
            Some(StmtV::For { .. }) => (waiting(s, Wait::Items), ActionV::Items),
            Some(StmtV::SetVar { .. }) => (waiting(s, Wait::Value), ActionV::Value),
            Some(StmtV::Include(_)) => (waiting(s, Wait::Path), ActionV::Path),
            Some(StmtV::Autoescape(_, _)) => (waiting(s, Wait::Mode), ActionV::Mode),
        }
    }
}

/// The step that finishes the innermost frame's body: a `for` body runs
/// again for the next item in a fresh scope, or the frame closes (its
/// scope, include anchor or escaping mode with it).
pub open spec fn end_step<V>(s: StateV<V>) -> (StateV<V>, ActionV) {
    let f = s.frames.last();
    let rest_frames = s.frames.drop_last();
    match f.end {
        EndV::Plain => (StateV { frames: rest_frames, ..s }, ActionV::Continue),
        EndV::ForLoop { target, rest } => {
            let popped = chain_pop(s.scopes);
            if rest.len() == 0 {
                (StateV { frames: rest_frames, scopes: popped, ..s }, ActionV::Continue)
            } else {
                let again = FrameV { next: 0, end: EndV::ForLoop { target, rest: rest.skip(1) }, ..f };
                (
                    StateV {
                        frames: rest_frames.push(again),
                        scopes: chain_set(chain_push(popped), target, Some(rest[0])),
                        ..s
                    },
                    ActionV::Continue,
                )
            }
        },
        EndV::Include { prev } => (StateV { frames: rest_frames, current: prev, ..s }, ActionV::Continue),
        EndV::Autoescape => (
            StateV {
                frames: rest_frames,
                escapes: if s.escapes.len() > 0 {
                    s.escapes.drop_last()
                } else {
                    s.escapes
                },
                ..s
            },
            ActionV::Continue,
        ),
    }
}

/// The step after the `if` condition of branch `k` was found `truth`: run
/// the first branch whose condition holds, else the `else` body.
pub open spec fn cond_step<V>(s: StateV<V>, k: int, truth: bool) -> (StateV<V>, ActionV) {
    let n = match top_stmt(s) {
        Some(StmtV::If(br, _)) => br.len() as int,
        _ => 0,
    };
    if truth && k < n {
        let a = advance(s);
        (StateV { frames: a.frames.push(child(s, k, EndV::Plain)), ..a }, ActionV::Continue)
    } else if k + 1 < n && k + 1 <= usize::MAX {
        (waiting(s, Wait::Cond((k + 1) as usize)), ActionV::Cond)
    } else {
        let a = advance(s);
        (StateV { frames: a.frames.push(child(s, n, EndV::Plain)), ..a }, ActionV::Continue)
    }
}

/// The step after the items of a `for` were found: the body runs once per
/// item, in order, each time in a fresh scope binding the target.
pub open spec fn items_step<V>(s: StateV<V>, items: Seq<V>) -> (StateV<V>, ActionV) {
    let a = advance(s);
    let target = match top_stmt(s) {
        Some(StmtV::For { target, .. }) => target,
        _ => Seq::empty(),
    };
    if items.len() == 0 {
        (a, ActionV::Continue)
    } else {
        (
            StateV {
                frames: a.frames.push(
                    child(s, 0, EndV::ForLoop { target, rest: items.skip(1) }),
                ),
                scopes: chain_set(chain_push(s.scopes), target, Some(items[0])),
                ..a
            },
            ActionV::Continue,
        )
    }
}

/// The step after the value of a `set` was found: bind it in the innermost
/// scope.
pub open spec fn value_step<V>(s: StateV<V>, v: V) -> (StateV<V>, ActionV) {
    let name = match top_stmt(s) {
        Some(StmtV::SetVar { name, .. }) => name,
        _ => Seq::empty(),
    };
    let a = advance(s);
    (StateV { scopes: chain_set(s.scopes, name, Some(v)), ..a }, ActionV::Continue)
}

/// The step after the path of an `include` was found: load the resolved
/// path; a path that is no string includes nothing.
pub open spec fn path_step<V>(s: StateV<V>, p: Option<Seq<char>>) -> (StateV<V>, ActionV) {
    match p {
        None => (advance(s), ActionV::Continue),
        Some(rel) => {
            let r = spec_resolve_include(s.current, rel);
            (StateV { wait: WaitV::Load(r), ..s }, ActionV::Load(r))
        },
    }
}

/// The step after the template at `r` was loaded (or not): run it with
/// `r` as the current template, and restore the current template after.
pub open spec fn load_step<V>(s: StateV<V>, r: Seq<char>, t: Option<Seq<StmtV>>) -> (
    StateV<V>,
    ActionV,
) {
    let a = advance(s);
    match t {
        None => (a, ActionV::Continue),
        Some(body) => {
            let f = FrameV {
                tpl: s.templates.len() as int,
                path: Seq::empty(),
                next: 0,
                end: EndV::Include { prev: s.current },
            };
            (
                StateV {
                    frames: a.frames.push(f),
                    templates: s.templates.push(body),
                    current: Some(r),
                    ..a
                },
                ActionV::Continue,
            )
        },
    }
}

/// The step after the mode of an `autoescape` was found (`html` when it is
/// no string): run the body under that mode.
pub open spec fn mode_step<V>(s: StateV<V>, m: Option<Seq<char>>) -> (StateV<V>, ActionV) {
    let mode = match m {
        Some(x) => x,
        None => seq!['h', 't', 'm', 'l'],
    };
    let a = advance(s);
    (
        StateV {
            frames: a.frames.push(child(s, 0, EndV::Autoescape)),
            escapes: s.escapes.push(mode),
            ..a
        },
        ActionV::Continue,
    )
}

/// One step of the machine: from its state and what the caller handed back
/// to its next state and what it asks next. An event that does not answer
/// what the machine waits for changes nothing and the question is asked
/// again.
pub open spec fn spec_stmt_step<V>(s: StateV<V>, e: EventV<V>) -> (StateV<V>, ActionV) {
    if s.frames.len() == 0 {
        (waiting(s, Wait::Ready), ActionV::Done)
    } else {
        step_in_frame(s, e)
    }
}

/// A step while some body is being run.
pub open spec fn step_in_frame<V>(s: StateV<V>, e: EventV<V>) -> (StateV<V>, ActionV) {
    match s.wait {
        WaitV::Load(r) => match e {
            EventV::Loaded(t) => load_step(s, r, t),
            _ => (s, ActionV::Load(r)),
        },
        WaitV::Plain(w) => match w {
            Wait::Ready => ready_step(s),
            Wait::Shown => match e {
                EventV::Shown(t) => (advance(s), ActionV::Emit(escaped(s.escapes, t))),
                _ => (s, ActionV::Output),
            },
            Wait::Cond(k) => match e {
                EventV::Truth(b) => cond_step(s, k as int, b),
                _ => (s, ActionV::Cond),
            },
            Wait::Items => match e {
                EventV::Items(vs) => items_step(s, vs),
                _ => (s, ActionV::Items),
            },
            Wait::Value => match e {
                EventV::Value(v) => value_step(s, v),
                _ => (s, ActionV::Value),
            },
            Wait::Path => match e {
                EventV::Path(p) => path_step(s, p),
                _ => (s, ActionV::Path),
            },
            Wait::Mode => match e {
                EventV::Mode(m) => mode_step(s, m),
                _ => (s, ActionV::Mode),
            },
        },
    }
}

/// The expression the machine waits to have evaluated, when it waits for
/// one.
pub open spec fn spec_pending<V>(s: StateV<V>) -> Option<ExprV> {
    match (s.wait, top_stmt(s)) {
        (WaitV::Plain(Wait::Shown), Some(StmtV::Expr(e))) => Some(e),
        (WaitV::Plain(Wait::Cond(k)), Some(StmtV::If(br, _))) => if (k as int) < br.len() {
            Some(br[k as int].0)
        } else {
            None
        },
        (WaitV::Plain(Wait::Items), Some(StmtV::For { iterable, .. })) => Some(iterable),
        (WaitV::Plain(Wait::Value), Some(StmtV::SetVar { value, .. })) => Some(value),
        (WaitV::Plain(Wait::Path), Some(StmtV::Include(e))) => Some(e),
        (WaitV::Plain(Wait::Mode), Some(StmtV::Autoescape(m, _))) => Some(m),
        _ => None,
    }
}

// ---------------------------------------------------------------------------
// The machine
// ---------------------------------------------------------------------------

/// What a frame does when its body is done.
pub enum End<V> {
    Plain,
    ForLoop { target: String, rest: Vec<V> },
    Include { prev: Option<String> },
    Autoescape,
}

/// A body being run.
pub struct Frame<V> {
    tpl: usize,
    path: Vec<(usize, usize)>,
    next: usize,
    end: End<V>,
}

/// What the machine waits for, with the path it asked to load.
pub enum Pending {
    Plain(Wait),
    Load(String),
}

/// The state of statement execution: the frames of the bodies being run,
/// the scope chain, the escaping modes, the current template's name, the
/// templates loaded so far and what the machine waits for.
pub struct RenderState<V> {
    frames: Vec<Frame<V>>,
    scopes: ScopeChain<Option<V>>,
    escapes: Vec<String>,
    current: Option<String>,
    templates: Vec<Arc<Vec<Stmt>>>,
    wait: Pending,
}

/// What the caller hands back to the machine.
pub enum Event<V> {
    /// Nothing was asked (after `Continue` or `Emit`).
    Next,
    /// The text an output expression displays as.
    Shown(String),
    /// Whether an `if` condition holds.
    Truth(bool),
    /// The items a `for` iterates over, in order.
    Items(Vec<V>),
    /// The value of a `set`.
    Value(V),
    /// The path of an `include`, when it is a string.
    Path(Option<String>),
    /// The statements of the template asked for, when it could be loaded.
    Loaded(Option<Arc<Vec<Stmt>>>),
    /// The mode of an `autoescape`, when it is a string.
    Mode(Option<String>),
}

/// What the machine asks of the caller.
#[derive(Debug, PartialEq, Eq)]
pub enum Action {
    /// Step again with `Event::Next`.
    Continue,
    /// Append this text to the output.
    Emit(String),
    /// Evaluate the pending expression and display it (`Event::Shown`).
    Output,
    /// Evaluate the pending condition (`Event::Truth`).
    Cond,
    /// Evaluate the pending iterable into items (`Event::Items`).
    Items,
    /// Evaluate the pending value (`Event::Value`).
    Value,
    /// Evaluate the pending include path (`Event::Path`).
    Path,
    /// Load the template at this path (`Event::Loaded`).
    Load(String),
    /// Evaluate the pending escaping mode (`Event::Mode`).
    Mode,
    /// Execution is over.
    Done,
}

pub open spec fn path_v(p: Seq<(usize, usize)>) -> Seq<(int, int)> {
    p.map_values(|x: (usize, usize)| (x.0 as int, x.1 as int))
}

pub open spec fn opt_v(o: Option<String>) -> Option<Seq<char>> {
    match o {
        Some(s) => Some(s@),
        None => None,
    }
}

pub open spec fn end_v<V>(e: End<V>) -> EndV<V> {
    match e {
        End::Plain => EndV::Plain,
        End::ForLoop { target, rest } => EndV::ForLoop { target: target@, rest: rest@ },
        End::Include { prev } => EndV::Include { prev: opt_v(prev) },
        End::Autoescape => EndV::Autoescape,
    }
}

pub closed spec fn frame_v<V>(f: Frame<V>) -> FrameV<V> {
    FrameV { tpl: f.tpl as int, path: path_v(f.path@), next: f.next as int, end: end_v(f.end) }
}

pub open spec fn templates_v(t: Seq<Arc<Vec<Stmt>>>) -> Seq<Seq<StmtV>> {
    t.map_values(|a: Arc<Vec<Stmt>>| stmts_v(a@))
}

pub open spec fn pending_v(p: Pending) -> WaitV {
    match p {
        Pending::Plain(w) => WaitV::Plain(w),
        Pending::Load(r) => WaitV::Load(r@),
    }
}

pub open spec fn event_v<V>(e: Event<V>) -> EventV<V> {
    match e {
        Event::Next => EventV::Next,
        Event::Shown(t) => EventV::Shown(t@),
        Event::Truth(b) => EventV::Truth(b),
        Event::Items(vs) => EventV::Items(vs@),
        Event::Value(v) => EventV::Value(v),
        Event::Path(p) => EventV::Path(opt_v(p)),
        Event::Loaded(t) => EventV::Loaded(
            match t {
                Some(a) => Some(stmts_v(a@)),
                None => None,
            },
        ),
        Event::Mode(m) => EventV::Mode(opt_v(m)),
    }
}

pub open spec fn action_v(a: Action) -> ActionV {
    match a {
        Action::Continue => ActionV::Continue,
        Action::Emit(t) => ActionV::Emit(t@),
        Action::Output => ActionV::Output,
        Action::Cond => ActionV::Cond,
        Action::Items => ActionV::Items,
        Action::Value => ActionV::Value,
        Action::Path => ActionV::Path,
        Action::Load(r) => ActionV::Load(r@),
        Action::Mode => ActionV::Mode,
        Action::Done => ActionV::Done,
    }
}

impl<V> View for RenderState<V> {
    type V = StateV<V>;

    closed spec fn view(&self) -> StateV<V> {
        StateV {
            frames: self.frames@.map_values(|f: Frame<V>| frame_v(f)),
            scopes: self.scopes@,
            escapes: self.escapes@.map_values(|s: String| s@),
            current: opt_v(self.current),
            templates: templates_v(self.templates@),
            wait: pending_v(self.wait),
        }
    }
}

proof fn lemma_body_at_empty(b: Seq<StmtV>, p: Seq<(int, int)>, k: int)
    requires
        0 <= k <= p.len(),
        body_at(b, p.take(k)) == Seq::<StmtV>::empty(),
    ensures
        body_at(b, p) == Seq::<StmtV>::empty(),
    decreases p.len() - k,
{
    if k < p.len() {
        assert(p.take(k + 1).drop_last() =~= p.take(k));
        lemma_body_at_empty(b, p, k + 1);
    } else {
        assert(p.take(k) =~= p);
    }
}

/// The body that `path` leads to in template `tpl`; `None` stands for the
/// empty body.
fn body_ref<'a>(tpls: &'a Vec<Arc<Vec<Stmt>>>, tpl: usize, path: &Vec<(usize, usize)>) -> (r: Option<
    &'a Vec<Stmt>,
>)
    ensures
        r matches Some(b) ==> stmts_v(b@) == located(templates_v(tpls@), tpl as int, path_v(path@)),
        r is None ==> located(templates_v(tpls@), tpl as int, path_v(path@)) == Seq::<StmtV>::empty(),
{
    if tpl >= tpls.len() {
        return None;
    }
    let ghost root = templates_v(tpls@)[tpl as int];
    let ghost pv = path_v(path@);
    let mut cur: &Vec<Stmt> = &*tpls[tpl];
    let mut k: usize = 0;
    proof {
        assert(pv.take(0) =~= Seq::<(int, int)>::empty());
    }
    while k < path.len()
        invariant
            k <= path.len(),
            root == templates_v(tpls@)[tpl as int],
            pv == path_v(path@),
            stmts_v(cur@) == body_at(root, pv.take(k as int)),
        decreases path.len() - k,
    {
        let (i, part) = path[k];
        proof {
            assert(pv.take(k + 1).drop_last() =~= pv.take(k as int));
            assert(pv.take(k + 1).last() == (i as int, part as int));
            lemma_stmts_v_index(cur@);
        }
        if i >= cur.len() {
            proof {
                lemma_body_at_empty(root, pv, k + 1);
            }
            return None;
        }
        match &cur[i] {
            Stmt::If(br, els) => {
                proof {
                    lemma_branches_v_index(br@);
                }
                if part < br.len() {
                    cur = &br[part].1;
                } else {
                    cur = els;
                }
            },
            Stmt::For { body, .. } => {
                cur = body;
            },
            Stmt::Autoescape(_, body) => {
                cur = body;
            },
            _ => {
                proof {
                    lemma_body_at_empty(root, pv, k + 1);
                }
                return None;
            },
        }
        k = k + 1;
    }
    proof {
        assert(pv.take(path.len() as int) =~= pv);
    }
    Some(cur)
}

fn copy_path(p: &Vec<(usize, usize)>) -> (r: Vec<(usize, usize)>)
    ensures
        r@ == p@,
{
    let mut r: Vec<(usize, usize)> = Vec::new();
    let mut k: usize = 0;
    while k < p.len()
        invariant
            k <= p.len(),
            r@ == p@.take(k as int),
        decreases p.len() - k,
    {
        r.push(p[k]);
        proof {
            assert(p@.take(k + 1) =~= p@.take(k as int).push(p@[k as int]));
        }
        k = k + 1;
    }
    proof {
        assert(p@.take(p@.len() as int) =~= p@);
    }
    r
}

/// What the statement at a frame starts with, owned.
enum Head {
    Text(String),
    Expr,
    If(usize),
    For(String),
    SetVar(String),
    Include,
    Autoescape,
}

/// Whether `h` describes the statement `st`.
spec fn head_ok(h: Option<Head>, st: Option<StmtV>) -> bool {
    match (h, st) {
        (None, None) => true,
        (Some(Head::Text(t)), Some(StmtV::Text(u))) => t@ == u,
        (Some(Head::Expr), Some(StmtV::Expr(_))) => true,
        (Some(Head::If(n)), Some(StmtV::If(br, _))) => n as int == br.len(),
        (Some(Head::For(t)), Some(StmtV::For { target, .. })) => t@ == target,
        (Some(Head::SetVar(n)), Some(StmtV::SetVar { name, .. })) => n@ == name,
        (Some(Head::Include), Some(StmtV::Include(_))) => true,
        (Some(Head::Autoescape), Some(StmtV::Autoescape(_, _))) => true,
        _ => false,
    }
}

impl<V> RenderState<V> {
    /// A machine that runs the template `root`, named `current`, with the
    /// scope chain `scopes`.
    pub fn new(root: Arc<Vec<Stmt>>, scopes: ScopeChain<Option<V>>, current: Option<String>) -> (s: Self)
        ensures
            s@.frames == seq![FrameV::<V> { tpl: 0, path: Seq::empty(), next: 0, end: EndV::Plain }],
            s@.scopes == scopes@,
            s@.escapes == Seq::<Seq<char>>::empty(),
            s@.current == opt_v(current),
            s@.templates == seq![stmts_v(root@)],
            s@.wait == WaitV::Plain(Wait::Ready),
    {
        let mut frames: Vec<Frame<V>> = Vec::new();
        frames.push(Frame { tpl: 0, path: Vec::new(), next: 0, end: End::Plain });
        let mut templates: Vec<Arc<Vec<Stmt>>> = Vec::new();
        templates.push(root);
        let s = RenderState {
            frames,
            scopes,
            escapes: Vec::new(),
            current,
            templates,
            wait: Pending::Plain(Wait::Ready),
        };
        proof {
            assert(path_v(Seq::<(usize, usize)>::empty()) =~= Seq::<(int, int)>::empty());
            assert(s@.frames =~= seq![FrameV::<V> { tpl: 0, path: Seq::empty(), next: 0, end: EndV::Plain }]);
            assert(s@.escapes =~= Seq::<Seq<char>>::empty());
            assert(s@.templates =~= seq![stmts_v(s.templates@[0]@)]);
        }
        s
    }

    /// The scope chain, for evaluating expressions.
    pub fn scopes(&self) -> (r: &ScopeChain<Option<V>>)
        ensures
            r@ == self@.scopes,
    {
        &self.scopes
    }

    /// The expression the machine waits to have evaluated, when it waits
    /// for one.
    pub fn pending_expr(&self) -> (r: Option<&Expr>)
        ensures
            r matches Some(e) ==> spec_pending(self@) == Some(expr_v(*e)),
            r is None ==> spec_pending(self@) is None,
    {
        if self.frames.len() == 0 {
            return None;
        }
        let f = &self.frames[self.frames.len() - 1];
        proof {
            assert(self@.frames.last() == frame_v(*f));
        }
        match body_ref(&self.templates, f.tpl, &f.path) {
            None => None,
            Some(b) => {
                proof {
                    lemma_stmts_v_index(b@);
                }
                if f.next < b.len() {
                    match (&self.wait, &b[f.next]) {
                        (Pending::Plain(Wait::Shown), Stmt::Expr(e)) => Some(&**e),
                        (Pending::Plain(Wait::Cond(k)), Stmt::If(br, _)) => {
                            proof {
                                lemma_branches_v_index(br@);
                            }
                            if *k < br.len() {
                                Some(&*br[*k].0)
                            } else {
                                None
                            }
                        },
                        (Pending::Plain(Wait::Items), Stmt::For { iterable, .. }) => Some(&**iterable),
                        (Pending::Plain(Wait::Value), Stmt::SetVar { value, .. }) => Some(&**value),
                        (Pending::Plain(Wait::Path), Stmt::Include(e)) => Some(&**e),
                        (Pending::Plain(Wait::Mode), Stmt::Autoescape(m, _)) => Some(&**m),
                        _ => None,
                    }
                } else {
                    None
                }
            },
        }
    }

    fn head(&self) -> (h: Option<Head>)
        requires
            self.frames.len() > 0,
        ensures
            head_ok(h, top_stmt(self@)),
    {
        let f = &self.frames[self.frames.len() - 1];
        proof {
            assert(self@.frames.last() == frame_v(*f));
        }
        match body_ref(&self.templates, f.tpl, &f.path) {
            None => None,
            Some(b) => {
                proof {
                    lemma_stmts_v_index(b@);
                }
                if f.next < b.len() {
                    match &b[f.next] {
                        Stmt::Text(t) => Some(Head::Text(t.clone())),
                        Stmt::Expr(_) => Some(Head::Expr),
                        Stmt::If(br, _) => {
                            proof {
                                lemma_branches_v_index(br@);
                            }
                            Some(Head::If(br.len()))
                        },
                        Stmt::For { target, .. } => Some(Head::For(target.clone())),
                        Stmt::SetVar { name, .. } => Some(Head::SetVar(name.clone())),
                        Stmt::Include(_) => Some(Head::Include),
                        Stmt::Autoescape(_, _) => Some(Head::Autoescape),
                    }
                } else {
                    None
                }
            },
        }
    }

    fn advance(&mut self)
        requires
            old(self).frames.len() > 0,
        ensures
            final(self)@ == advance(old(self)@),
            final(self).frames.len() == old(self).frames.len(),
    {
        let ghost s0 = self@;
        let mut f = self.frames.pop().unwrap();
        if f.next < usize::MAX {
            f.next = f.next + 1;
        }
        self.frames.push(f);
        self.wait = Pending::Plain(Wait::Ready);
        proof {
            assert(self@.frames =~= advance(s0).frames);
        }
    }

    fn child(&self, part: usize, end: End<V>) -> (c: Frame<V>)
        requires
            self.frames.len() > 0,
        ensures
            frame_v(c) == child(self@, part as int, end_v(end)),
    {
        let f = &self.frames[self.frames.len() - 1];
        proof {
            assert(self@.frames.last() == frame_v(*f));
        }
        let mut path = copy_path(&f.path);
        path.push((f.next, part));
        let c = Frame { tpl: f.tpl, path, next: 0, end };
        proof {
            assert(path_v(c.path@) =~= path_v(f.path@).push((f.next as int, part as int)));
        }
        c
    }

    fn set_wait(&mut self, w: Wait)
        ensures
            final(self)@ == waiting(old(self)@, w),
            final(self).frames.len() == old(self).frames.len(),
    {
        self.wait = Pending::Plain(w);
    }

    fn push_frame(&mut self, c: Frame<V>)
        ensures
            final(self)@ == (StateV { frames: old(self)@.frames.push(frame_v(c)), ..old(self)@ }),
    {
        let ghost s0 = self@;
        self.frames.push(c);
        proof {
            assert(self@.frames =~= s0.frames.push(frame_v(c)));
        }
    }

    fn end_frame(&mut self) -> (a: Action)
        requires
            old(self).frames.len() > 0,
        ensures
            (final(self)@, action_v(a)) == end_step(old(self)@),
    {
        let ghost s0 = self@;
        let f = self.frames.pop().unwrap();
        proof {
            assert(s0.frames.last() == frame_v(f));
            assert(self@.frames =~= s0.frames.drop_last());
        }
        let Frame { tpl, path, next, end } = f;
        match end {
            End::Plain => Action::Continue,
            End::ForLoop { target, rest } => {
                let mut rest = rest;
                self.scopes.pop_scope();
                if rest.len() == 0 {
                    Action::Continue
                } else {
                    let ghost r0 = rest@;
                    let item = rest.remove(0);
                    proof {
                        assert(rest@ =~= r0.skip(1));
                    }
                    self.scopes.push_scope();
                    self.scopes.set(target.clone(), Some(item));
                    let again = Frame { tpl, path, next: 0, end: End::ForLoop { target, rest } };
                    let ghost s1 = self@;
                    self.frames.push(again);
                    proof {
                        assert(self@.frames =~= s1.frames.push(frame_v(again)));
                    }
                    Action::Continue
                }
            },
            End::Include { prev } => {
                self.current = prev;
                Action::Continue
            },
            End::Autoescape => {
                if self.escapes.len() > 0 {
                    let ghost e0 = self@.escapes;
                    self.escapes.pop();
                    proof {
                        assert(self@.escapes =~= e0.drop_last());
                    }
                }
                Action::Continue
            },
        }
    }

    fn ready(&mut self) -> (a: Action)
        requires
            old(self).frames.len() > 0,
        ensures
            (final(self)@, action_v(a)) == ready_step(old(self)@),
    {
        match self.head() {
            None => self.end_frame(),
            Some(Head::Text(t)) => {
                self.advance();
                Action::Emit(t)
            },
            Some(Head::Expr) => {
                self.set_wait(Wait::Shown);
                Action::Output
            },
            Some(Head::If(_)) => {
                self.set_wait(Wait::Cond(0));
                Action::Cond
            },
            Some(Head::For(_)) => {
                self.set_wait(Wait::Items);
                Action::Items
            },
            Some(Head::SetVar(_)) => {
                self.set_wait(Wait::Value);
                Action::Value
            },
            Some(Head::Include) => {
                self.set_wait(Wait::Path);
                Action::Path
            },
            Some(Head::Autoescape) => {
                self.set_wait(Wait::Mode);
                Action::Mode
            },
        }
    }

    fn on_shown(&mut self, t: String) -> (a: Action)
        requires
            old(self).frames.len() > 0,
        ensures
            (final(self)@, action_v(a)) == (advance(old(self)@), ActionV::Emit(
                escaped(old(self)@.escapes, t@),
            )),
    {
        let out = if self.escapes.len() == 0 {
            t
        } else {
            let m = &self.escapes[self.escapes.len() - 1];
            proof {
                assert(self@.escapes.last() == m@);
                reveal_strlit("js");
            }
            escape(m.as_str(), t.as_str())
        };
        self.advance();
        Action::Emit(out)
    }

    fn on_cond(&mut self, k: usize, truth: bool) -> (a: Action)
        requires
            old(self).frames.len() > 0,
        ensures
            (final(self)@, action_v(a)) == cond_step(old(self)@, k as int, truth),
    {
        let n: usize = match self.head() {
            Some(Head::If(n)) => n,
            _ => 0,
        };
        if truth && k < n {
            let c = self.child(k, End::Plain);
            self.advance();
            self.push_frame(c);
            Action::Continue
        } else if n > 0 && k < n - 1 {
            self.set_wait(Wait::Cond(k + 1));
            Action::Cond
        } else {
            let c = self.child(n, End::Plain);
            self.advance();
            self.push_frame(c);
            Action::Continue
        }
    }

    fn on_items(&mut self, items: Vec<V>) -> (a: Action)
        requires
            old(self).frames.len() > 0,
        ensures
            (final(self)@, action_v(a)) == items_step(old(self)@, items@),
    {
        let target = match self.head() {
            Some(Head::For(t)) => t,
            _ => String::new(),
        };
        if items.len() == 0 {
            self.advance();
            Action::Continue
        } else {
            let mut items = items;
            let ghost i0 = items@;
            let first = items.remove(0);
            proof {
                assert(items@ =~= i0.skip(1));
            }
            let c = self.child(0, End::ForLoop { target: target.clone(), rest: items });
            self.advance();
            self.push_frame(c);
            self.scopes.push_scope();
            self.scopes.set(target, Some(first));
            Action::Continue
        }
    }

    fn on_value(&mut self, v: V) -> (a: Action)
        requires
            old(self).frames.len() > 0,
        ensures
            (final(self)@, action_v(a)) == value_step(old(self)@, v),
    {
        let name = match self.head() {
            Some(Head::SetVar(n)) => n,
            _ => String::new(),
        };
        self.advance();
        self.scopes.set(name, Some(v));
        Action::Continue
    }

    fn on_path(&mut self, p: Option<String>) -> (a: Action)
        requires
            old(self).frames.len() > 0,
        ensures
            (final(self)@, action_v(a)) == path_step(old(self)@, opt_v(p)),
    {
        match p {
            None => {
                self.advance();
                Action::Continue
            },
            Some(rel) => {
                let cur: Option<&str> = match &self.current {
                    Some(c) => Some(c.as_str()),
                    None => None,
                };
                let r = resolve_include(cur, rel.as_str());
                self.wait = Pending::Load(r.clone());
                Action::Load(r)
            },
        }
    }

    fn on_loaded(&mut self, r: String, t: Option<Arc<Vec<Stmt>>>) -> (a: Action)
        requires
            old(self).frames.len() > 0,
        ensures
            (final(self)@, action_v(a)) == load_step(
                old(self)@,
                r@,
                match t {
                    Some(x) => Some(stmts_v(x@)),
                    None => None,
                },
            ),
    {
        match t {
            None => {
                self.advance();
                Action::Continue
            },
            Some(body) => {
                let ghost s0 = self@;
                let prev = match &self.current {
                    Some(c) => Some(c.clone()),
                    None => None,
                };
                let f = Frame { tpl: self.templates.len(), path: Vec::new(), next: 0, end: End::Include { prev } };
                proof {
                    assert(path_v(f.path@) =~= Seq::<(int, int)>::empty());
                }
                self.advance();
                self.push_frame(f);
                let ghost tv = self@.templates;
                self.templates.push(body);
                proof {
                    assert(self@.templates =~= tv.push(stmts_v(body@)));
                }
                self.current = Some(r);
                Action::Continue
            },
        }
    }

    fn on_mode(&mut self, m: Option<String>) -> (a: Action)
        requires
            old(self).frames.len() > 0,
        ensures
            (final(self)@, action_v(a)) == mode_step(old(self)@, opt_v(m)),
    {
        let mode = match m {
            Some(x) => x,
            None => {
                let h = String::from_str("html");
                proof {
                    reveal_strlit("html");
                    assert(h@ =~= seq!['h', 't', 'm', 'l']);
                }
                h
            },
        };
        let c = self.child(0, End::Autoescape);
        self.advance();
        self.push_frame(c);
        let ghost e0 = self@.escapes;
        self.escapes.push(mode);
        proof {
            assert(self@.escapes =~= e0.push(mode@));
        }
        Action::Continue
    }
}

/// Runs one step of statement execution: from what the caller hands back
/// to the machine's next state and what it asks next.
pub fn stmt_step<V>(state: &mut RenderState<V>, event: Event<V>) -> (a: Action)
    ensures
        (final(state)@, action_v(a)) == spec_stmt_step(old(state)@, event_v(event)),
{
    if state.frames.len() == 0 {
        state.set_wait(Wait::Ready);
        return Action::Done;
    }
    let load: Option<String> = match &state.wait {
        Pending::Load(r) => Some(r.clone()),
        Pending::Plain(_) => None,
    };
    match load {
        Some(r) => match event {
            Event::Loaded(t) => state.on_loaded(r, t),
            _ => Action::Load(r),
        },
        None => {
            let w = match &state.wait {
                Pending::Plain(w) => *w,
                Pending::Load(_) => Wait::Ready,
            };
            match w {
                Wait::Ready => state.ready(),
                Wait::Shown => match event {
                    Event::Shown(t) => state.on_shown(t),
                    _ => Action::Output,
                },
                Wait::Cond(k) => match event {
                    Event::Truth(b) => state.on_cond(k, b),
                    _ => Action::Cond,
                },
                Wait::Items => match event {
                    Event::Items(vs) => state.on_items(vs),
                    _ => Action::Items,
                },
                Wait::Value => match event {
                    Event::Value(v) => state.on_value(v),
                    _ => Action::Value,
                },
                Wait::Path => match event {
                    Event::Path(p) => state.on_path(p),
                    _ => Action::Path,
                },
                Wait::Mode => match event {
                    Event::Mode(m) => state.on_mode(m),
                    _ => Action::Mode,
                },
            }
        },
    }
}

// ---------------------------------------------------------------------------
// Laws
// ---------------------------------------------------------------------------

proof fn lemma_child_body<V>(s: StateV<V>, part: int, end: EndV<V>)
    requires
        s.frames.len() > 0,
    ensures
        frame_body(s.templates, child(s, part, end)) == sub_body(top_body(s), (s.frames.last().next, part)),
{
    let f = s.frames.last();
    let p = f.path.push((f.next, part));
    assert(p.drop_last() =~= f.path);
}

/// The state after one step.
pub open spec fn after<V>(s: StateV<V>, e: EventV<V>) -> StateV<V> {
    spec_stmt_step(s, e).0
}

/// An `if` runs the first branch whose condition holds: when the condition
/// of branch `k` holds, the body of branch `k` runs next (and the `if` is
/// done after it); when it does not, the next condition is asked for, or
/// after the last one the `else` body runs.
pub proof fn law_if_runs_first_true_branch<V>(
    s: StateV<V>,
    k: usize,
    br: Seq<(ExprV, Seq<StmtV>)>,
    els: Seq<StmtV>,
)
    requires
        s.frames.len() > 0,
        s.wait == WaitV::Plain(Wait::Cond(k)),
        top_stmt(s) == Some(StmtV::If(br, els)),
        br.len() <= usize::MAX,
    ensures
        (k as int) < br.len() ==> after(s, EventV::Truth(true)).frames.len() == s.frames.len() + 1
            && top_body(after(s, EventV::Truth(true))) == br[k as int].1
            && after(s, EventV::Truth(true)).wait == WaitV::Plain(Wait::Ready),
        (k as int) + 1 < br.len() ==> after(s, EventV::Truth(false)) == waiting(s, Wait::Cond((k + 1) as usize)),
        (k as int) + 1 >= br.len() ==> after(s, EventV::Truth(false)).frames.len() == s.frames.len() + 1
            && top_body(after(s, EventV::Truth(false))) == els,
{
    let n = br.len() as int;
    lemma_child_body(s, k as int, EndV::Plain);
    lemma_child_body(s, n, EndV::Plain);
}

/// A `for` runs its body once per item, in order, each time in a fresh
/// scope that binds the target to the item: when the items arrive the body
/// starts with the first one, the rest waiting in the loop's frame.
pub proof fn law_for_starts_with_first_item<V>(
    s: StateV<V>,
    target: Seq<char>,
    iterable: ExprV,
    body: Seq<StmtV>,
    items: Seq<V>,
)
    requires
        s.frames.len() > 0,
        s.wait == WaitV::Plain(Wait::Items),
        top_stmt(s) == Some(StmtV::For { target, iterable, body }),
    ensures
        items.len() == 0 ==> after(s, EventV::Items(items)) == advance(s),
        items.len() > 0 ==> after(s, EventV::Items(items)).frames.len() == s.frames.len() + 1
            && top_body(after(s, EventV::Items(items))) == body
            && after(s, EventV::Items(items)).frames.last().end == (EndV::ForLoop { target, rest: items.skip(1) })
            && after(s, EventV::Items(items)).scopes == chain_set(chain_push(s.scopes), target, Some(items[0])),
{
    lemma_child_body(s, 0, (EndV::ForLoop { target, rest: items.skip(1) }));
}

/// When a `for` body is done: with items left, the item's scope is replaced
/// by a fresh one binding the next item and the body runs again from its
/// start; with none left, the loop's frame and scope close.
pub proof fn law_for_body_end<V>(s: StateV<V>, target: Seq<char>, rest: Seq<V>)
    requires
        s.frames.len() > 0,
        s.wait == WaitV::Plain(Wait::Ready),
        top_stmt(s) is None,
        s.frames.last().end == (EndV::ForLoop { target, rest }),
    ensures
        rest.len() == 0 ==> after(s, EventV::Next).frames == s.frames.drop_last()
            && after(s, EventV::Next).scopes == chain_pop(s.scopes),
        rest.len() > 0 ==> after(s, EventV::Next).frames.len() == s.frames.len()
            && after(s, EventV::Next).frames.last().next == 0
            && top_body(after(s, EventV::Next)) == top_body(s)
            && after(s, EventV::Next).frames.last().end == (EndV::ForLoop { target, rest: rest.skip(1) })
            && after(s, EventV::Next).scopes == chain_set(chain_push(chain_pop(s.scopes)), target, Some(rest[0])),
{
}

/// A `set` binds its name in the innermost scope, where it resolves to the
/// value until that scope closes.
pub proof fn law_set_binds_in_innermost_scope<V>(s: StateV<V>, name: Seq<char>, value: ExprV, v: V)
    requires
        s.frames.len() > 0,
        s.scopes.len() > 0,
        s.wait == WaitV::Plain(Wait::Value),
        top_stmt(s) == Some(StmtV::SetVar { name, value }),
    ensures
        after(s, EventV::Value(v)).scopes == chain_set(s.scopes, name, Some(v)),
        crate::engine::chain_lookup(after(s, EventV::Value(v)).scopes, name) == Some(Some(v)),
{
    crate::engine::law_set_then_resolve(s.scopes, name, Some(v));
}

/// An `include` runs the loaded template with the resolved path as the
/// current template, and its frame keeps the template from before.
pub proof fn law_include_runs_loaded_template<V>(s: StateV<V>, r: Seq<char>, body: Seq<StmtV>)
    requires
        s.frames.len() > 0,
        s.wait == WaitV::Load(r),
    ensures
        after(s, EventV::Loaded(Some(body))).current == Some(r),
        after(s, EventV::Loaded(Some(body))).frames.len() == s.frames.len() + 1,
        top_body(after(s, EventV::Loaded(Some(body)))) == body,
        after(s, EventV::Loaded(Some(body))).frames.last().end == (EndV::<V>::Include { prev: s.current }),
{
    let a = after(s, EventV::Loaded(Some(body)));
    assert(a.templates[s.templates.len() as int] == body);
}

/// When an included template is done, the current template is again the
/// one from before the include.
pub proof fn law_include_restores_current<V>(t: StateV<V>, prev: Option<Seq<char>>)
    requires
        t.frames.len() > 0,
        t.wait == WaitV::Plain(Wait::Ready),
        top_stmt(t) is None,
        t.frames.last().end == (EndV::<V>::Include { prev }),
    ensures
        after(t, EventV::Next).current == prev,
        after(t, EventV::Next).frames == t.frames.drop_last(),
{
}

/// Output is escaped for the innermost `autoescape` mode, and left as it
/// is outside any.
pub proof fn law_output_escaping<V>(s: StateV<V>, t: Seq<char>)
    requires
        s.frames.len() > 0,
        s.wait == WaitV::Plain(Wait::Shown),
    ensures
        spec_stmt_step(s, EventV::Shown(t)).1 == ActionV::Emit(escaped(s.escapes, t)),
        s.escapes.len() == 0 ==> spec_stmt_step(s, EventV::Shown(t)).1 == ActionV::Emit(t),
{
}

// ---------------------------------------------------------------------------
// A whole `for` loop
// ---------------------------------------------------------------------------

/// The number of frames that run a `for` body (each owns one scope).
pub open spec fn loop_count<V>(fs: Seq<FrameV<V>>) -> int
    decreases fs.len(),
{
    if fs.len() == 0 {
        0
    } else {
        loop_count(fs.drop_last()) + if fs.last().end is ForLoop {
            1int
        } else {
            0int
        }
    }
}

/// The state after the caller hands back the events `evs`, one step each.
pub open spec fn run<V>(s: StateV<V>, evs: Seq<EventV<V>>) -> StateV<V>
    decreases evs.len(),
{
    if evs.len() == 0 {
        s
    } else {
        run(after(s, evs[0]), evs.skip(1))
    }
}

/// Whether `t` is inside a `for` loop whose frame sits on the frames `f0`
/// and whose scope sits on the scopes `s0`: those frames and scopes are
/// untouched, and there is one scope more for each `for` body being run.
pub open spec fn inside_loop<V>(t: StateV<V>, f0: Seq<FrameV<V>>, s0: Seq<ScopeV<Option<V>>>) -> bool {
    &&& t.frames.len() > f0.len()
    &&& t.frames.take(f0.len() as int) == f0
    &&& t.frames[f0.len() as int].end is ForLoop
    &&& t.scopes.len() == s0.len() + loop_count(t.frames) - loop_count(f0)
    &&& t.scopes.take(s0.len() as int) == s0
}

proof fn lemma_loop_count_push<V>(fs: Seq<FrameV<V>>, f: FrameV<V>)
    ensures
        loop_count(fs.push(f)) == loop_count(fs) + if f.end is ForLoop {
            1int
        } else {
            0int
        },
{
    assert(fs.push(f).drop_last() =~= fs);
}

proof fn lemma_loop_count_ge<V>(fs: Seq<FrameV<V>>, k: int)
    requires
        0 <= k < fs.len(),
        fs[k].end is ForLoop,
    ensures
        loop_count(fs) >= loop_count(fs.take(k)) + 1,
    decreases fs.len(),
{
    if fs.len() - 1 == k {
        assert(fs.drop_last() =~= fs.take(k));
    } else {
        let d = fs.drop_last();
        assert(d[k] == fs[k]);
        assert(d.take(k) =~= fs.take(k));
        lemma_loop_count_ge(d, k);
        lemma_loop_count_nonneg_step(fs);
    }
}

proof fn lemma_loop_count_nonneg_step<V>(fs: Seq<FrameV<V>>)
    requires
        fs.len() > 0,
    ensures
        loop_count(fs) >= loop_count(fs.drop_last()),
{
}

/// `t` with its innermost frame replaced by `f`, seen through the loop's
/// invariant: the frames below it and the count of loop frames.
proof fn lemma_replace_top<V>(t: StateV<V>, f0: Seq<FrameV<V>>, s0: Seq<ScopeV<Option<V>>>, f: FrameV<V>)
    requires
        inside_loop(t, f0, s0),
        t.frames.len() - 1 == f0.len() as int ==> f.end is ForLoop,
    ensures
        t.frames.update(t.frames.len() - 1, f).take(f0.len() as int) == f0,
        loop_count(t.frames.update(t.frames.len() - 1, f)) == loop_count(t.frames) - (if t.frames.last().end is ForLoop {
            1int
        } else {
            0int
        }) + (if f.end is ForLoop {
            1int
        } else {
            0int
        }),
        t.frames.update(t.frames.len() - 1, f)[f0.len() as int].end is ForLoop,
{
    let u = t.frames.update(t.frames.len() - 1, f);
    assert(u.take(f0.len() as int) =~= t.frames.take(f0.len() as int));
    assert(u.drop_last() =~= t.frames.drop_last());
}

proof fn lemma_scopes_prefix<V>(c: Seq<ScopeV<Option<V>>>, s0: Seq<ScopeV<Option<V>>>, k: Seq<char>, v: Option<V>)
    requires
        c.len() > s0.len(),
        c.take(s0.len() as int) == s0,
    ensures
        chain_set(c, k, v).len() == c.len(),
        chain_set(c, k, v).take(s0.len() as int) == s0,
        chain_pop(c).len() == c.len() - 1,
        chain_pop(c).take(s0.len() as int) == s0,
        chain_push(c).len() == c.len() + 1,
        chain_push(c).take(s0.len() as int) == s0,
{
    assert(chain_set(c, k, v).take(s0.len() as int) =~= c.take(s0.len() as int));
    assert(chain_pop(c).take(s0.len() as int) =~= c.take(s0.len() as int));
    assert(chain_push(c).take(s0.len() as int) =~= c.take(s0.len() as int));
}

/// One step inside a `for` loop keeps the loop's invariant, or ends the
/// loop with the frames and scopes as they were before it.
proof fn lemma_step_in_loop<V>(t: StateV<V>, e: EventV<V>, f0: Seq<FrameV<V>>, s0: Seq<ScopeV<Option<V>>>)
    requires
        inside_loop(t, f0, s0),
    ensures
        inside_loop(after(t, e), f0, s0) || (after(t, e).frames == f0 && after(t, e).scopes == s0),
{
    let d = f0.len() as int;
    let n = t.frames.len() as int;
    let b = s0.len() as int;
    lemma_loop_count_ge(t.frames, d);
    assert(t.frames.take(d) == f0);
    let top = t.frames.last();
    let a = advance(t);
    lemma_replace_top(t, f0, s0, step_frame(top));
    assert(a.frames == t.frames.update(n - 1, step_frame(top)));
    // the child frames a step may push
    assert forall|f: FrameV<V>| #[trigger] a.frames.push(f).take(d) == f0 by {
        assert(a.frames.push(f).take(d) =~= a.frames.take(d));
    }
    assert forall|f: FrameV<V>| #[trigger] a.frames.push(f)[d].end is ForLoop by {
        assert(a.frames.push(f)[d] == a.frames[d]);
    }
    assert forall|f: FrameV<V>|
        #[trigger] loop_count(a.frames.push(f)) == loop_count(t.frames) + (if f.end is ForLoop {
            1int
        } else {
            0int
        }) by {
        lemma_loop_count_push(a.frames, f);
    }
    assert forall|k: Seq<char>, v: Option<V>|
        #[trigger] chain_set(t.scopes, k, v).take(b) == s0 && chain_set(t.scopes, k, v).len() == t.scopes.len() by {
        lemma_scopes_prefix(t.scopes, s0, k, v);
    }
    lemma_scopes_prefix(t.scopes, s0, Seq::empty(), None);
    match t.wait {
        WaitV::Load(r) => {},
        WaitV::Plain(w) => match w {
            Wait::Ready => {
                if top_stmt(t) is None {
                    let rest_frames = t.frames.drop_last();
                    assert(rest_frames == t.frames.take(n - 1));
                    if n - 1 == d {
                        assert(rest_frames =~= f0);
                    } else {
                        assert(rest_frames.take(d) =~= f0);
                        assert(rest_frames[d] == t.frames[d]);
                    }
                    match top.end {
                        EndV::ForLoop { target, rest } => {
                            let popped = chain_pop(t.scopes);
                            if rest.len() == 0 {
                                if n - 1 == d {
                                    assert(loop_count(t.frames) == loop_count(f0) + 1);
                                    assert(popped =~= s0);
                                }
                            } else {
                                let again = FrameV { next: 0, end: EndV::ForLoop { target, rest: rest.skip(1) }, ..top };
                                lemma_replace_top(t, f0, s0, again);
                                assert(rest_frames.push(again) =~= t.frames.update(n - 1, again));
                                assert(popped.push(Seq::empty()).take(b) =~= popped.take(b));
                                lemma_scopes_prefix(popped.push(Seq::empty()), s0, target, Some(rest[0]));
                                assert(chain_push(popped) == popped.push(Seq::empty()));
                            }
                        },
                        _ => {},
                    }
                }
            },
            Wait::Items => {
                match e {
                    EventV::Items(items) => {
                        if items.len() > 0 {
                            let target = match top_stmt(t) {
                                Some(StmtV::For { target, .. }) => target,
                                _ => Seq::empty(),
                            };
                            lemma_scopes_prefix(chain_push(t.scopes), s0, target, Some(items[0]));
                        }
                    },
                    _ => {},
                }
            },
            _ => {},
        },
    }
}

proof fn lemma_run_in_loop<V>(t: StateV<V>, evs: Seq<EventV<V>>, f0: Seq<FrameV<V>>, s0: Seq<ScopeV<Option<V>>>)
    requires
        inside_loop(t, f0, s0),
        forall|k: int| 0 <= k < evs.len() ==> (#[trigger] run(t, evs.take(k))).frames.len() > f0.len(),
    ensures
        inside_loop(run(t, evs), f0, s0) || (run(t, evs).frames == f0 && run(t, evs).scopes == s0),
    decreases evs.len(),
{
    if evs.len() > 0 {
        lemma_step_in_loop(t, evs[0], f0, s0);
        let u = after(t, evs[0]);
        if evs.len() == 1 {
            assert(evs.skip(1) =~= Seq::<EventV<V>>::empty());
            assert(run(t, evs) == run(u, evs.skip(1)));
            assert(run(t, evs) == u);
        } else {
            assert(evs.take(1).skip(1) =~= Seq::<EventV<V>>::empty());
            assert(evs.take(1)[0] == evs[0]);
            assert(run(t, evs.take(1)) == run(u, evs.take(1).skip(1)));
            assert(run(t, evs.take(1)) == u);
            assert(run(t, evs.take(1)).frames.len() > f0.len());
            assert(u.frames.len() > f0.len());
            assert forall|k: int| 0 <= k < evs.skip(1).len() implies (#[trigger] run(u, evs.skip(1).take(k))).frames.len()
                > f0.len() by {
                assert(evs.take(k + 1).skip(1) =~= evs.skip(1).take(k));
                assert(evs.take(k + 1)[0] == evs[0]);
                assert(run(t, evs.take(k + 1)).frames.len() > f0.len());
            }
            lemma_run_in_loop(u, evs.skip(1), f0, s0);
        }
    }
}

/// A whole `for` loop leaves the scopes as they were: once the items have
/// arrived, however the caller answers, while the loop runs the frames and
/// scopes from before it stay untouched (one scope more for each body
/// being run), and when its frame closes the scopes are exactly those from
/// before the loop, so the loop variable and every `set` made in the body
/// are gone.
pub proof fn law_for_loop_restores_scopes<V>(
    s: StateV<V>,
    target: Seq<char>,
    iterable: ExprV,
    body: Seq<StmtV>,
    items: Seq<V>,
    evs: Seq<EventV<V>>,
)
    requires
        s.frames.len() > 0,
        s.wait == WaitV::Plain(Wait::Items),
        top_stmt(s) == Some(StmtV::For { target, iterable, body }),
        items.len() > 0,
        forall|k: int|
            0 <= k < evs.len() ==> (#[trigger] run(after(s, EventV::Items(items)), evs.take(k))).frames.len()
                > s.frames.len(),
        run(after(s, EventV::Items(items)), evs).frames.len() <= s.frames.len(),
    ensures
        run(after(s, EventV::Items(items)), evs).scopes == s.scopes,
        run(after(s, EventV::Items(items)), evs).frames == advance(s).frames,
{
    let t = after(s, EventV::Items(items));
    let f0 = advance(s).frames;
    law_for_starts_with_first_item(s, target, iterable, body, items);
    assert(t.frames == f0.push(child(s, 0, (EndV::ForLoop { target, rest: items.skip(1) }))));
    assert(t.frames.take(f0.len() as int) =~= f0);
    lemma_loop_count_push(f0, child(s, 0, (EndV::ForLoop { target, rest: items.skip(1) })));
    assert(chain_push(s.scopes).take(s.scopes.len() as int) =~= s.scopes);
    lemma_scopes_prefix(chain_push(s.scopes), s.scopes, target, Some(items[0]));
    assert(inside_loop(t, f0, s.scopes));
    lemma_run_in_loop(t, evs, f0, s.scopes);
}

/// An `autoescape` block pushes its mode (`html` when the mode is no
/// string) for its body only: starting the block adds the mode on top of
/// the modes before it, and when its body is done exactly that mode is
/// removed, so the modes are again those from before the block (none
/// outside every block, where output is not escaped).
pub proof fn law_autoescape_mode_lasts_for_its_block<V>(s: StateV<V>, m: Option<Seq<char>>, t: StateV<V>)
    requires
        s.frames.len() > 0,
        s.wait == WaitV::Plain(Wait::Mode),
        t.frames.len() > 0,
        t.wait == WaitV::Plain(Wait::Ready),
        top_stmt(t) is None,
        t.frames.last().end == EndV::<V>::Autoescape,
    ensures
        after(s, EventV::Mode(m)).escapes == s.escapes.push(
            match m {
                Some(x) => x,
                None => seq!['h', 't', 'm', 'l'],
            },
        ),
        after(s, EventV::Mode(m)).frames.len() == s.frames.len() + 1,
        after(s, EventV::Mode(m)).frames.last().end == EndV::<V>::Autoescape,
        t.escapes.len() > 0 ==> after(t, EventV::Next).escapes.len() == t.escapes.len() - 1,
        t.escapes.len() > 0 ==> after(t, EventV::Next).escapes == t.escapes.take(t.escapes.len() - 1),
        t.escapes.len() == 1 ==> after(t, EventV::Next).escapes.len() == 0,
        after(t, EventV::Next).frames == t.frames.drop_last(),
        after(t, EventV::Next).scopes == t.scopes,
{
    if t.escapes.len() > 0 {
        assert(t.escapes.drop_last() =~= t.escapes.take(t.escapes.len() - 1));
    }
}

/// Template text is emitted as it is, whatever the escaping mode, and the
/// statement after it comes next.
pub proof fn law_text_is_emitted_unescaped<V>(s: StateV<V>, text: Seq<char>)
    requires
        s.frames.len() > 0,
        s.wait == WaitV::Plain(Wait::Ready),
        top_stmt(s) == Some(StmtV::Text(text)),
        s.frames.last().next < usize::MAX,
    ensures
        spec_stmt_step(s, EventV::Next).1 == ActionV::Emit(text),
        after(s, EventV::Next).frames.len() == s.frames.len(),
        after(s, EventV::Next).frames.last().next == s.frames.last().next + 1,
        after(s, EventV::Next).escapes == s.escapes,
        after(s, EventV::Next).scopes == s.scopes,
{
}

/// An output is escaped for the innermost mode: JavaScript escaping under
/// `js`, HTML escaping under any other mode, and not at all outside every
/// `autoescape` block.
pub proof fn law_output_mode_selects_escaping<V>(s: StateV<V>, text: Seq<char>)
    requires
        s.frames.len() > 0,
        s.wait == WaitV::Plain(Wait::Shown),
    ensures
        s.escapes.len() == 0 ==> spec_stmt_step(s, EventV::Shown(text)).1 == ActionV::Emit(text),
        s.escapes.len() > 0 && s.escapes.last() == seq!['j', 's'] ==> spec_stmt_step(s, EventV::Shown(text)).1
            == ActionV::Emit(spec_js_escape(text)),
        s.escapes.len() > 0 && s.escapes.last() != seq!['j', 's'] ==> spec_stmt_step(s, EventV::Shown(text)).1
            == ActionV::Emit(spec_html_escape(text)),
{
}

} // verus!
