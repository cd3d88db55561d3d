use std::sync::Arc;

use pebble::engine::ScopeChain;
use pebble::lexer::tokenize;
use pebble::parser::{parse_stmts, Expr, Lit};
use pebble::step::{stmt_step, Action, Event, RenderState};
use pebble::text::is_whitespace;

/// Runs a template whose expressions are variables, integer or string
/// literals; `for` walks the integers `1..=n` of a variable `n`.
fn run(src: &str, vars: &[(&str, i64)], includes: &[(&str, &str)]) -> (String, Vec<String>) {
    let mut chain: ScopeChain<Option<i64>> = ScopeChain::new();
    chain.push_scope();
    for (k, v) in vars {
        chain.set(k.to_string(), Some(*v));
    }
    let mut state = RenderState::new(
        Arc::new(parse_stmts(&tokenize(src))),
        chain,
        Some("dir/main.tpl".to_string()),
    );
    let mut out = String::new();
    let mut loads = Vec::new();
    let mut event = Event::Next;
    let value = |state: &RenderState<i64>| -> Option<i64> {
        match state.pending_expr() {
            Some(Expr::Var(name)) => state.scopes().resolve(name).cloned().flatten(),
            Some(Expr::Lit(Lit::Int(i))) => Some(*i),
            _ => None,
        }
    };
    let text = |state: &RenderState<i64>| -> Option<String> {
        match state.pending_expr() {
            Some(Expr::Lit(Lit::Str(s))) => Some(s.clone()),
            _ => None,
        }
    };
    for _ in 0..10_000 {
        event = match stmt_step(&mut state, event) {
            Action::Continue => Event::Next,
            Action::Emit(t) => {
                out.push_str(&t);
                Event::Next
            }
            Action::Output => Event::Shown(
                text(&state).unwrap_or_else(|| value(&state).map(|v| v.to_string()).unwrap_or_default()),
            ),
            Action::Cond => Event::Truth(value(&state).map_or(false, |v| v != 0)),
            Action::Items => Event::Items((1..=value(&state).unwrap_or(0)).collect()),
            Action::Value => Event::Value(value(&state).unwrap_or(0)),
            Action::Path => Event::Path(text(&state)),
            Action::Load(p) => {
                loads.push(p.clone());
                Event::Loaded(
                    includes
                        .iter()
                        .find(|(name, _)| *name == p)
                        .map(|(_, body)| Arc::new(parse_stmts(&tokenize(body)))),
                )
            }
            Action::Mode => Event::Mode(text(&state)),
            Action::Done => return (out, loads),
        };
    }
    panic!("machine did not finish");
}

#[test]
fn if_takes_first_true_branch() {
    let src = "{% if a %}A{% elseif b %}B{% else %}C{% endif %}";
    assert_eq!(run(src, &[("a", 1), ("b", 1)], &[]).0, "A");
    assert_eq!(run(src, &[("a", 0), ("b", 1)], &[]).0, "B");
    assert_eq!(run(src, &[("a", 0), ("b", 0)], &[]).0, "C");
    let nested = "{% if a %}{% if b %}X{% else %}Y{% endif %}Z{% endif %}W";
    assert_eq!(run(nested, &[("a", 1), ("b", 0)], &[]).0, "YZW");
    assert_eq!(run(nested, &[("a", 0), ("b", 0)], &[]).0, "W");
}

#[test]
fn for_runs_body_per_item_in_its_own_scope() {
    let src = "{% for i in n %}[{{ i }}]{% set j = i %}{% endfor %}<{{ i }}{{ j }}>";
    assert_eq!(run(src, &[("n", 3)], &[]).0, "[1][2][3]<>");
    assert_eq!(run(src, &[("n", 0)], &[]).0, "<>");
}

#[test]
fn set_binds_until_scope_closes() {
    assert_eq!(run("{% set x = 5 %}{{ x }}{% set x = 6 %}{{ x }}", &[], &[]).0, "56");
    assert_eq!(run("{% set x = 5 %}{% for i in n %}{% set x = i %}{{ x }}{% endfor %}{{ x }}", &[("n", 2)], &[]).0, "125");
}

#[test]
fn include_resolves_and_restores_current() {
    let includes = [("base.tpl", "B{% include './leaf.tpl' %}"), ("leaf.tpl", "L"), ("dir/sib.tpl", "S")];
    let (out, loads) = run(
        "{% include '../base.tpl' %}|{% include './sib.tpl' %}|{% include 'nope.tpl' %}",
        &[],
        &includes,
    );
    assert_eq!(out, "BL|S|");
    assert_eq!(loads, vec!["base.tpl", "leaf.tpl", "dir/sib.tpl", "nope.tpl"]);
}

#[test]
fn autoescape_modes_apply_inside_their_blocks() {
    let src = "{{ '<a>' }}{% autoescape 'js' %}{{ \"'\" }}{% autoescape %}{{ '<' }}{% endautoescape %}{% endautoescape %}{{ '<' }}";
    assert_eq!(run(src, &[], &[]).0, "<a>\\'&lt;<");
}

#[test]
fn whitespace_matches_std() {
    for u in (0u32..0x3100).chain([0xfeff, 0x10ffff]) {
        if let Some(c) = char::from_u32(u) {
            assert_eq!(is_whitespace(c), c.is_whitespace(), "{u:#x}");
        }
    }
}
