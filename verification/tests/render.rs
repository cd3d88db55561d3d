use pebble::render::{
    char_at, element_index, key_position, lookup_key, parse_index, replace_all, replace_each,
    text_less,
};
use pebble::value::name_variants;

fn strings(v: &[&str]) -> Vec<String> {
    v.iter().map(|s| s.to_string()).collect()
}

#[test]
fn replace_all_matches_left_to_right() {
    assert_eq!(replace_all("hello world", "o", "0"), "hell0 w0rld");
    assert_eq!(replace_all("aaa", "aa", "b"), "ba");
    assert_eq!(replace_all("abc", "", "-"), "-a-b-c-");
    assert_eq!(replace_all("", "", "x"), "x");
    assert_eq!(replace_all("", "a", "x"), "");
    assert_eq!(replace_all("aab", "ab", "b"), "ab");
    assert_eq!(replace_all("tête-à-tête", "ê", "e"), "tete-à-tete");
}

#[test]
fn replace_without_match_or_by_itself_is_identity() {
    assert_eq!(replace_all("template", "xyz", "q"), "template");
    assert_eq!(replace_all("banana", "an", "an"), "banana");
}

#[test]
fn replace_each_applies_pairs_in_order() {
    let pairs = vec![
        ("a".to_string(), Some("b".to_string())),
        ("b".to_string(), Some("c".to_string())),
        ("c".to_string(), None),
    ];
    assert_eq!(replace_each("ab", &pairs), "cc");
    assert_eq!(replace_each("ab", &Vec::new()), "ab");
}

#[test]
fn parse_index_reads_as_std_parse() {
    assert_eq!(parse_index("12"), Some(12));
    assert_eq!(parse_index("-3"), Some(-3));
    assert_eq!(parse_index("+7"), Some(7));
    assert_eq!(parse_index("007"), Some(7));
    assert_eq!(parse_index(""), None);
    assert_eq!(parse_index("-"), None);
    assert_eq!(parse_index("+"), None);
    assert_eq!(parse_index("1a"), None);
    assert_eq!(parse_index(" 1"), None);
    assert_eq!(parse_index("9223372036854775807"), Some(i64::MAX));
    assert_eq!(parse_index("9223372036854775808"), None);
    assert_eq!(parse_index("-9223372036854775808"), Some(i64::MIN));
    assert_eq!(parse_index("-9223372036854775809"), None);
    assert_eq!(parse_index("99999999999999999999999x"), None);
    for s in ["0", "42", "-17", "+5", "abc", "", "--1", "123456789012345678901"] {
        assert_eq!(parse_index(s), s.parse::<i64>().ok());
    }
}

#[test]
fn element_and_char_positions() {
    assert_eq!(element_index(3, 2), Some(2));
    assert_eq!(element_index(3, 3), None);
    assert_eq!(element_index(3, -1), None);
    assert_eq!(element_index(0, 0), None);
    assert_eq!(char_at("héllo", 1), Some('é'));
    assert_eq!(char_at("ab", 5), None);
    assert_eq!(char_at("ab", -1), None);
}

#[test]
fn keys_are_found_by_candidates_in_order() {
    let keys = strings(&["a", "b", "a"]);
    assert_eq!(key_position(&keys, "a"), Some(0));
    assert_eq!(key_position(&keys, "b"), Some(1));
    assert_eq!(key_position(&keys, "c"), None);
    let keys = strings(&["site_name", "siteName"]);
    assert_eq!(lookup_key(&keys, &name_variants("siteName")), Some(1));
    let keys = strings(&["x", "site_name"]);
    assert_eq!(lookup_key(&keys, &name_variants("siteName")), Some(1));
    assert_eq!(lookup_key(&keys, &name_variants("title")), None);
}

#[test]
fn text_order_follows_str_comparison() {
    let texts = ["", "a", "ab", "b", "B", "é", "z", "aa", "a b"];
    for a in texts {
        for b in texts {
            assert_eq!(text_less(a, b), a < b, "{a:?} < {b:?}");
        }
    }
    assert!(text_less("apple", "banana"));
    assert!(!text_less("same", "same"));
    assert!(text_less("ab", "abc"));
}
