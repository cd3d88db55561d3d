use pebble::lexer::{tokenize, Token};

#[test]
fn tokenizes_all_three_kinds() {
    let tokens = tokenize("a {{ x }} b {% if y %} c {# d #} e");
    // The comment drops, leaving two adjacent text nodes whose concatenation
    // is ` c  e` (they cannot be merged into one borrowed slice).
    assert_eq!(
        tokens,
        vec![
            Token::Text("a "),
            Token::Expr(" x "),
            Token::Text(" b "),
            Token::Tag(" if y "),
            Token::Text(" c "),
            Token::Text(" e"),
        ]
    );
}

#[test]
fn comment_between_text_is_dropped() {
    let tokens = tokenize("x{# c #}y");
    let texts: Vec<&str> = tokens
        .iter()
        .filter_map(|t| if let Token::Text(s) = t { Some(*s) } else { None })
        .collect();
    assert_eq!(texts, vec!["x", "y"]);
}

#[test]
fn unterminated_opening_stays_text() {
    let tokens = tokenize("a {{ x");
    assert_eq!(tokens, vec![Token::Text("a {{ x")]);
}

#[test]
fn plain_text_is_one_token() {
    assert_eq!(tokenize("hello, world"), vec![Token::Text("hello, world")]);
    assert_eq!(tokenize(""), Vec::<Token>::new());
}

#[test]
fn expression_ends_at_first_closer() {
    assert_eq!(
        tokenize("{{ a }} }}"),
        vec![Token::Expr(" a "), Token::Text(" }}")]
    );
    assert_eq!(
        tokenize("{% if %}%}"),
        vec![Token::Tag(" if "), Token::Text("%}")]
    );
}

#[test]
fn unterminated_comment_runs_to_the_end() {
    assert_eq!(tokenize("a{# b {{ c }}"), vec![Token::Text("a")]);
}

#[test]
fn non_ascii_text_is_kept() {
    assert_eq!(
        tokenize("héllo {{ ñ }}ü"),
        vec![Token::Text("héllo "), Token::Expr(" ñ "), Token::Text("ü")]
    );
}

#[test]
fn no_text_token_holds_a_comment_opener() {
    for src in ["a{# x {# y #}b{#c", "{{ a {# }} b #}c", "x{#y", "{#}{#}#}z", "p{%#%}q{##}r"] {
        for t in tokenize(src) {
            if let Token::Text(s) = t {
                assert!(!s.contains("{#"), "{src:?} gave text {s:?}");
            }
        }
    }
    assert_eq!(tokenize("a{# x {# y #}b"), vec![Token::Text("a"), Token::Text("b")]);
}

#[test]
fn comment_opener_inside_a_payload_is_payload() {
    assert_eq!(tokenize("{{ '{#' }}abc"), vec![Token::Expr(" '{#' "), Token::Text("abc")]);
    assert_eq!(
        tokenize("{% set x = '{#' %}y{# c #}z"),
        vec![Token::Tag(" set x = '{#' "), Token::Text("y"), Token::Text("z")]
    );
}

#[test]
fn tokens_show_back_the_source() {
    for src in ["a {{ x }} b {% if y %} c", "{{ a", "x{%y", "{{}}{%%}", "plain", "", "{{ '{#' }}q"] {
        let shown: String = tokenize(src)
            .into_iter()
            .map(|t| match t {
                Token::Text(s) => s.to_string(),
                Token::Expr(s) => format!("{{{{{s}}}}}"),
                Token::Tag(s) => format!("{{%{s}%}}"),
            })
            .collect();
        assert_eq!(shown, src);
    }
}

#[test]
fn tokens_and_comments_make_up_the_source() {
    let src = "a{# x #}{{ b }}c{# y";
    let shown: String = tokenize(src)
        .into_iter()
        .map(|t| match t {
            Token::Text(s) => s.to_string(),
            Token::Expr(s) => format!("{{{{{s}}}}}"),
            Token::Tag(s) => format!("{{%{s}%}}"),
        })
        .collect();
    assert_eq!(shown, "a{{ b }}c");
    assert_eq!(shown + "", src.replace("{# x #}", "").replace("{# y", ""));
}
