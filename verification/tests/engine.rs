use pebble::engine::{
    entry_part, filter_of, int_range, method_of, resolve_include, test_of, EntryPart, FilterKind,
    Method, ScopeChain, TestKind,
};
use pebble::value::{call_variants, name_variants};

#[test]
fn include_paths_resolve_against_the_current_directory() {
    assert_eq!(resolve_include(Some("sub/child.tpl"), "../base.tpl"), "base.tpl");
    assert_eq!(resolve_include(Some("sub/child.tpl"), "other.tpl"), "other.tpl");
    assert_eq!(resolve_include(Some("a/b/c.tpl"), "./d.tpl"), "a/b/d.tpl");
    assert_eq!(resolve_include(None, "../x.tpl"), "x.tpl");
    assert_eq!(resolve_include(Some("housekeeping/articles.tpl"), "../layout.tpl"), "layout.tpl");
}

#[test]
fn resolved_include_is_normalised() {
    assert_eq!(resolve_include(Some("a//b/c.tpl"), "./x//y/"), "a/b/x/y");
    assert_eq!(resolve_include(Some("a.tpl"), "../../x"), "x");
    assert_eq!(resolve_include(Some("/abs/t.tpl"), "./x"), "abs/x");
}

#[test]
fn set_then_resolve_and_scopes() {
    let mut c: ScopeChain<i32> = ScopeChain::new();
    c.set("a".to_string(), 1);
    assert_eq!(c.resolve("a"), None);
    c.push_scope();
    c.set("a".to_string(), 1);
    c.set("b".to_string(), 2);
    assert_eq!(c.resolve("a"), Some(&1));
    c.set("a".to_string(), 3);
    assert_eq!(c.resolve("a"), Some(&3));
    assert_eq!(c.resolve("b"), Some(&2));
    c.push_scope();
    assert_eq!(c.resolve("a"), Some(&3));
    c.set("a".to_string(), 4);
    assert_eq!(c.resolve("a"), Some(&4));
    assert!(c.contains("b"));
    assert!(!c.contains("z"));
    c.pop_scope();
    assert_eq!(c.resolve("a"), Some(&3));
    assert_eq!(c.depth(), 1);
}

#[test]
fn innermost_binding_shadows_even_when_empty() {
    let mut c: ScopeChain<Option<i32>> = ScopeChain::new();
    c.push_scope();
    c.set("x".to_string(), Some(1));
    c.push_scope();
    c.set("x".to_string(), None);
    assert_eq!(c.resolve("x"), Some(&None));
}

#[test]
fn method_names_go_by_snake_case() {
    assert_eq!(method_of("toUpperCase"), Some(Method::ToUpperCase));
    assert_eq!(method_of("to_upper_case"), Some(Method::ToUpperCase));
    assert_eq!(method_of("toLowerCase"), Some(Method::ToLowerCase));
    assert_eq!(method_of("length"), Some(Method::Size));
    assert_eq!(method_of("size"), Some(Method::Size));
    assert_eq!(method_of("keys"), Some(Method::Keys));
    assert_eq!(method_of("values"), Some(Method::Values));
    assert_eq!(method_of("entrySet"), Some(Method::EntrySet));
    assert_eq!(method_of("frobnicate"), None);
}

#[test]
fn filter_and_test_names() {
    assert_eq!(filter_of("length"), Some(FilterKind::Length));
    assert_eq!(filter_of("escape"), Some(FilterKind::Escape));
    assert_eq!(filter_of("replace"), Some(FilterKind::Replace));
    assert_eq!(filter_of("upper"), Some(FilterKind::Upper));
    assert_eq!(filter_of("to_upper_case"), Some(FilterKind::Upper));
    assert_eq!(filter_of("toUpperCase"), Some(FilterKind::Upper));
    assert_eq!(filter_of("lower"), Some(FilterKind::Lower));
    assert_eq!(filter_of("to_lower_case"), Some(FilterKind::Lower));
    assert_eq!(filter_of("size"), Some(FilterKind::Length));
    assert_eq!(filter_of("keys"), Some(FilterKind::Keys));
    assert_eq!(filter_of("values"), Some(FilterKind::Values));
    assert_eq!(filter_of("entry_set"), Some(FilterKind::EntrySet));
    assert_eq!(filter_of("entrySet"), Some(FilterKind::EntrySet));
    assert_eq!(filter_of("frobnicate"), None);
    assert_eq!(test_of("present"), Some(TestKind::Present));
    assert_eq!(test_of("defined"), Some(TestKind::Defined));
    assert_eq!(test_of("empty"), None);
}

#[test]
fn entry_parts_from_candidates() {
    assert_eq!(entry_part(&call_variants("getKey")), Some(EntryPart::Key));
    assert_eq!(entry_part(&name_variants("key")), Some(EntryPart::Key));
    assert_eq!(entry_part(&call_variants("getValue")), Some(EntryPart::Value));
    assert_eq!(entry_part(&name_variants("other")), None);
}

#[test]
fn integer_ranges_include_both_ends() {
    assert_eq!(int_range(1, 3), vec![1, 2, 3]);
    assert_eq!(int_range(-2, 0), vec![-2, -1, 0]);
    assert_eq!(int_range(4, 4), vec![4]);
    assert!(int_range(3, 1).is_empty());
}
