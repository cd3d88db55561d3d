use pebble::value::{call_variants, camel_to_snake, escape, html_escape, js_escape, name_variants};

#[test]
fn escape_functions() {
    assert_eq!(html_escape("<b>&</b>"), "&lt;b&gt;&amp;&lt;/b&gt;");
    assert_eq!(js_escape("a'b"), "a\\'b");
    assert_eq!(html_escape("\"'"), "&quot;&#39;");
    assert_eq!(js_escape("\\\"\n\r"), "\\\\\\\"\\n\\r");
}

#[test]
fn escape_mode_selects_js_or_html() {
    assert_eq!(escape("js", "<'"), "<\\'");
    assert_eq!(escape("html", "<'"), "&lt;&#39;");
    assert_eq!(escape("other", "<"), "&lt;");
}

#[test]
fn html_escape_leaves_no_markup() {
    let out = html_escape("<a href='x'>\"q\"</a>");
    assert!(!out.contains('<') && !out.contains('>') && !out.contains('"') && !out.contains('\''));
    assert_eq!(html_escape("plain text"), "plain text");
}

#[test]
fn js_escape_leaves_no_line_break() {
    let out = js_escape("a\nb\rc");
    assert_eq!(out, "a\\nb\\rc");
    assert!(!out.contains('\n') && !out.contains('\r'));
}

#[test]
fn camel_to_snake_cases() {
    assert_eq!(camel_to_snake("siteName"), "site_name");
    assert_eq!(camel_to_snake("getURL"), "get_url");
    assert_eq!(camel_to_snake("SiteName"), "site_name");
    assert_eq!(camel_to_snake("a_B"), "a__b");
    assert_eq!(camel_to_snake("site_name"), "site_name");
    assert_eq!(camel_to_snake(&camel_to_snake("fooBarBaz")), camel_to_snake("fooBarBaz"));
}

#[test]
fn name_variants_in_try_order() {
    assert_eq!(name_variants("siteName"), vec!["siteName", "site_name", "sitename"]);
    assert_eq!(name_variants("name"), vec!["name"]);
    assert_eq!(name_variants("NAME"), vec!["NAME", "name"]);
}

#[test]
fn call_variants_in_try_order() {
    assert_eq!(
        call_variants("getSiteName"),
        vec!["getSiteName", "get_site_name", "SiteName", "site_name", "getsitename"]
    );
    assert_eq!(call_variants("upper"), vec!["upper"]);
    assert_eq!(call_variants("get"), vec!["get"]);
    assert_eq!(call_variants("isOpen"), vec!["isOpen", "is_open", "Open", "open", "isopen"]);
}

#[test]
fn bean_prefix_reaches_the_property() {
    let v = call_variants("getSiteName");
    assert!(v.contains(&"SiteName".to_string()) && v.contains(&"site_name".to_string()));
    let v = call_variants("setTitle");
    assert!(v.contains(&"Title".to_string()) && v.contains(&"title".to_string()));
    let v = call_variants("isOpen");
    assert!(v.contains(&"open".to_string()));
}

#[test]
fn html_escape_decodes_back() {
    for s in ["<a href='x'>\"q\" & b</a>", "&amp;", "plain", "", "&#39;&lt;"] {
        let decoded = html_escape(s)
            .replace("&lt;", "<")
            .replace("&gt;", ">")
            .replace("&quot;", "\"")
            .replace("&#39;", "'")
            .replace("&amp;", "&");
        assert_eq!(decoded, s);
    }
}
