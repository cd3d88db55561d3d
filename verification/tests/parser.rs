use pebble::expr_tokens::{op_token, tokenize_expr, Op, Tok};
use pebble::lexer::tokenize;
use pebble::parser::{parse_expr, parse_stmts, BinOp, Expr, Lit, Stmt};

fn exprs(src: &str) -> Vec<Stmt> {
    parse_stmts(&tokenize(src))
}

#[test]
fn parses_if_elseif_else() {
    let stmts = exprs("{% if a %}A{% elseif b %}B{% else %}C{% endif %}");
    assert!(matches!(stmts.len(), 1));
    if let Stmt::If(branches, els) = &stmts[0] {
        assert_eq!(branches.len(), 2);
        assert!(!els.is_empty());
    } else {
        panic!("expected If");
    }
}

#[test]
fn parses_for_and_set() {
    let stmts = exprs("{% set n = 3 %}{% for i in [1..n] %}{{ i }}{% endfor %}x");
    assert_eq!(stmts.len(), 3);
}

#[test]
fn parses_ternary_with_test() {
    let e = parse_expr("(\"x\" is present) ? x : \"\"");
    assert!(matches!(e, Expr::Ternary { .. }));
}

#[test]
fn parses_equals_operator() {
    let e = parse_expr("tagList.size() equals 0");
    assert!(matches!(e, Expr::Binary { op: BinOp::Equals, .. }));
}

#[test]
fn parses_not_equals_operator() {
    let e = parse_expr("a not equals b");
    assert!(matches!(e, Expr::Binary { op: BinOp::NotEquals, .. }));
}

#[test]
fn parses_unary_not() {
    let e = parse_expr("not a");
    assert!(matches!(e, Expr::Not(_)));
}

#[test]
fn parses_filter_with_arg() {
    let e = parse_expr("x | escape('js')");
    assert!(matches!(e, Expr::Filter { .. }));
}

#[test]
fn set_and_for_parts() {
    let stmts = exprs("{% set n = 3 %}{% for i in [1..n] %}{{ i }}{% endfor %}");
    match &stmts[0] {
        Stmt::SetVar { name, value } => {
            assert_eq!(name, "n");
            assert!(matches!(**value, Expr::Lit(Lit::Int(3))));
        }
        _ => panic!("expected SetVar"),
    }
    match &stmts[1] {
        Stmt::For { target, iterable, body } => {
            assert_eq!(target, "i");
            assert!(matches!(**iterable, Expr::Range { .. }));
            assert_eq!(body.len(), 1);
        }
        _ => panic!("expected For"),
    }
}

#[test]
fn precedence_of_or_and() {
    let e = parse_expr("a or b and c");
    match e {
        Expr::Binary { op: BinOp::Or, lhs, rhs } => {
            assert!(matches!(*lhs, Expr::Var(ref s) if s == "a"));
            assert!(matches!(*rhs, Expr::Binary { op: BinOp::And, .. }));
        }
        _ => panic!("expected or"),
    }
}

#[test]
fn unary_minus_negates() {
    let e = parse_expr("-5");
    match e {
        Expr::Binary { op: BinOp::Mul, lhs, rhs } => {
            assert!(matches!(*lhs, Expr::Lit(Lit::Int(-1))));
            assert!(matches!(*rhs, Expr::Lit(Lit::Int(5))));
        }
        _ => panic!("expected negation"),
    }
    match parse_expr("3 - -2") {
        Expr::Binary { op: BinOp::Sub, lhs, rhs } => {
            assert!(matches!(*lhs, Expr::Lit(Lit::Int(3))));
            assert!(matches!(*rhs, Expr::Binary { op: BinOp::Mul, .. }));
        }
        _ => panic!("expected subtraction"),
    }
}

#[test]
fn member_call_and_index_chain() {
    let e = parse_expr("m.entrySet()[0].key");
    match e {
        Expr::Member { base, name } => {
            assert_eq!(name, "key");
            match *base {
                Expr::Index { base, .. } => {
                    assert!(matches!(*base, Expr::Call { ref name, ref args, .. } if name == "entrySet" && args.is_empty()));
                }
                _ => panic!("expected index"),
            }
        }
        _ => panic!("expected member"),
    }
}

#[test]
fn list_dict_and_float_literals() {
    assert!(matches!(parse_expr("[1, 2, 3]"), Expr::ListLit(ref v) if v.len() == 3));
    assert!(matches!(parse_expr("[]"), Expr::ListLit(ref v) if v.is_empty()));
    match parse_expr("{a: 1, 'b': x, c}") {
        Expr::DictLit(items) => {
            assert_eq!(items.len(), 3);
            assert_eq!(items[1].0, "b");
            assert!(matches!(items[2].1, Expr::Var(ref s) if s == "c"));
        }
        _ => panic!("expected dict"),
    }
    assert!(matches!(parse_expr("1.25"), Expr::Lit(Lit::Float(ref s)) if s == "1.25"));
    assert!(matches!(parse_expr("true"), Expr::Lit(Lit::Bool(true))));
    assert!(matches!(parse_expr("null"), Expr::Lit(Lit::Null)));
}

#[test]
fn ternary_without_else_gives_null() {
    match parse_expr("a ? b") {
        Expr::Ternary { els, .. } => assert!(matches!(*els, Expr::Lit(Lit::Null))),
        _ => panic!("expected ternary"),
    }
}

#[test]
fn test_with_negation() {
    match parse_expr("x is not defined") {
        Expr::Test { name, negated, .. } => {
            assert_eq!(name, "defined");
            assert!(negated);
        }
        _ => panic!("expected test"),
    }
}

#[test]
fn expression_tokens() {
    let chars: Vec<char> = "1..3 99999999999999999999 'a\\'b' <= x_1".chars().collect();
    let toks = tokenize_expr(&chars);
    assert_eq!(toks.len(), 7);
    assert!(matches!(toks[0], Tok::Int(1)));
    assert!(matches!(toks[1], Tok::Op(Op::DotDot)));
    assert!(matches!(toks[2], Tok::Int(3)));
    assert!(matches!(toks[3], Tok::Int(0)));
    assert!(matches!(toks[4], Tok::Str(ref s) if s == "a'b"));
    assert!(matches!(toks[5], Tok::Op(Op::Le)));
    assert!(matches!(toks[6], Tok::Ident(ref s, _) if s == "x_1"));
}

#[test]
fn operator_spellings() {
    assert_eq!(op_token(&vec!['<', '=']), Some(Op::Le));
    assert_eq!(op_token(&vec!['<', 'x']), Some(Op::Lt));
    assert_eq!(op_token(&vec!['=']), Some(Op::Assign));
    assert_eq!(op_token(&vec!['!']), None);
}

#[test]
fn text_and_output_map_one_to_one() {
    let stmts = exprs("a{{ b }}c");
    assert_eq!(stmts.len(), 3);
    assert!(matches!(stmts[0], Stmt::Text(ref s) if s == "a"));
    assert!(matches!(stmts[1], Stmt::Expr(ref e) if matches!(**e, Expr::Var(ref v) if v == "b")));
    assert!(matches!(stmts[2], Stmt::Text(ref s) if s == "c"));
}

#[test]
fn unknown_tag_is_dropped_and_autoescape_defaults_to_html() {
    let stmts = exprs("{% frobnicate %}{% autoescape %}x{% endautoescape %}");
    assert_eq!(stmts.len(), 1);
    match &stmts[0] {
        Stmt::Autoescape(mode, body) => {
            assert!(matches!(**mode, Expr::Lit(Lit::Str(ref s)) if s == "html"));
            assert_eq!(body.len(), 1);
        }
        _ => panic!("expected autoescape"),
    }
}

#[test]
fn nested_if_else_closes_at_its_own_endif() {
    let stmts = exprs("{% if a %}{% if b %}X{% else %}Y{% endif %}Z{% endif %}W");
    assert_eq!(stmts.len(), 2);
    match &stmts[0] {
        Stmt::If(branches, els) => {
            assert_eq!(branches.len(), 1);
            assert!(els.is_empty());
            let body = &branches[0].1;
            assert_eq!(body.len(), 2);
            match &body[0] {
                Stmt::If(inner, inner_els) => {
                    assert_eq!(inner.len(), 1);
                    assert!(matches!(&inner[0].1[..], [Stmt::Text(x)] if x == "X"));
                    assert!(matches!(&inner_els[..], [Stmt::Text(y)] if y == "Y"));
                }
                _ => panic!("expected inner If"),
            }
            assert!(matches!(&body[1], Stmt::Text(z) if z == "Z"));
        }
        _ => panic!("expected If"),
    }
    assert!(matches!(&stmts[1], Stmt::Text(w) if w == "W"));
}
