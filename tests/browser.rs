use zephyr::{
    extract_source_bundle, extract_style_blocks, extract_text_and_links, is_safe_navigation_target,
    normalize_url, parse_url, render_page_text, resolve_url, wrap_text, ZephyrGuiApp,
};

#[test]
fn url_helpers_work() {
    let parts = parse_url("https://example.com/a/b").unwrap();
    assert_eq!(parts.scheme, "https");
    assert_eq!(parts.port, 443);
    assert_eq!(
        resolve_url("https://example.com/a/b", "../c").unwrap(),
        "https://example.com/c"
    );
    assert!(resolve_url("https://example.com", "javascript:alert(1)").is_none());
}

#[test]
fn extraction_and_rendering_work() {
    let sample = "<html><head><style>body{color:red}</style></head><body><h1>Hello</h1><a href='https://x'>X</a><script>console.log(1)</script></body></html>";
    let src = extract_source_bundle(sample);
    assert!(src.css.contains("color:red"));
    assert!(src.javascript.contains("console.log"));

    let rendered = render_page_text(sample, 80);
    assert!(rendered.contains("Hello"));
    assert!(rendered.contains("Links:"));
}

#[test]
fn parse_url_fills_defaults_and_rejects_other_schemes() {
    let parts = parse_url("http://example.com").unwrap();
    assert_eq!(parts.host, "example.com");
    assert_eq!(parts.port, 80);
    assert_eq!(parts.path, "/");
    assert_eq!(parse_url("http://example.com:8080/x").unwrap().port, 8080);
    assert!(parse_url("ftp://example.com/").is_none());
    assert!(parse_url("not a url").is_none());
}

#[test]
fn resolve_url_cases() {
    assert_eq!(resolve_url("https://a.com/x", "  https://b.com/y ").unwrap(), "https://b.com/y");
    assert_eq!(resolve_url("https://a.com/x", "#top").unwrap(), "https://a.com/x");
    assert_eq!(resolve_url("https://a.com/x/y", "z").unwrap(), "https://a.com/x/z");
    assert!(resolve_url("https://a.com/x", "   ").is_none());
    assert!(resolve_url("not a base", "z").is_none());
    assert!(resolve_url("https://a.com/", " DATA:text/html,hi").is_none());
}

#[test]
fn navigation_safety() {
    assert!(!is_safe_navigation_target("javascript:alert(1)"));
    assert!(!is_safe_navigation_target("  JavaScript:void(0)"));
    assert!(!is_safe_navigation_target("data:text/plain,x"));
    assert!(!is_safe_navigation_target("file:///etc/passwd"));
    assert!(!is_safe_navigation_target("VBScript:x"));
    assert!(is_safe_navigation_target("https://example.com"));
    assert!(is_safe_navigation_target("/relative/path"));
    assert!(is_safe_navigation_target(""));
}

#[test]
fn normalize_url_adds_a_scheme() {
    assert_eq!(normalize_url("example.com"), "https://example.com");
    assert_eq!(normalize_url("http://example.com"), "http://example.com");
    assert_eq!(normalize_url(""), "https://");
}

#[test]
fn wrap_text_packs_words_greedily() {
    assert_eq!(wrap_text("aaa bbb ccc", 7), "aaa bbb\nccc");
    assert_eq!(wrap_text("  aaa\n\n bbb  ", 100), "aaa bbb");
    assert_eq!(wrap_text("toolongword x", 3), "toolongword\nx");
    assert_eq!(wrap_text("", 10), "");
    assert_eq!(wrap_text("é é", 3), "é\né");
}

#[test]
fn style_blocks_are_joined() {
    let html = "<html><head><style>a{}</style><style>b{}</style></head><body></body></html>";
    assert_eq!(extract_style_blocks(html), "a{}\nb{}");
    assert_eq!(extract_style_blocks("<p>none</p>"), "");
}

#[test]
fn scripts_are_split_by_kind() {
    let html = "<body><script type='text/typescript'>let x: number = 1;</script><script src='a.js'></script><script>  </script></body>";
    let b = extract_source_bundle(html);
    assert_eq!(b.html, html);
    assert_eq!(b.typescript, "let x: number = 1;\n\n");
    assert_eq!(b.javascript, "// external script src=a.js\n\n");
}

#[test]
fn rendered_text_lists_only_safe_links() {
    let html = "<body><p>One   two</p><a href='javascript:x'>bad</a><a href='/ok'>good</a></body>";
    assert_eq!(render_page_text(html, 100), "One two bad good Links: - /ok");
    assert_eq!(render_page_text(html, 8), "One two\nbad good\nLinks: -\n/ok");
}

#[test]
fn rendered_links_stop_at_twelve() {
    let mut html = String::from("<body>");
    for i in 0..15 {
        html.push_str(&format!("<a href='/p{}'>l</a>", i));
    }
    html.push_str("</body>");
    let text = render_page_text(&html, 1000);
    assert!(text.contains("/p11"));
    assert!(!text.contains("/p12"));
}

#[test]
fn text_and_labelled_links() {
    let html = "<body><a href='/a'> First  link </a><a href='/b'>  </a><a href='data:x'>bad</a></body>";
    let (text, links) = extract_text_and_links(html);
    assert!(text.starts_with("First link"));
    assert_eq!(links, vec![("First  link".to_string(), "/a".to_string())]);
}

#[test]
fn history_records_and_moves() {
    let mut app = ZephyrGuiApp::new();
    assert_eq!(app.address, "https://duckduckgo.com");
    assert!(!app.can_back());
    assert!(!app.can_forward());
    app.record_loaded("https://a".to_string(), "A".to_string(), true);
    app.record_loaded("https://b".to_string(), "B".to_string(), true);
    app.record_loaded("https://b".to_string(), "B".to_string(), true);
    assert_eq!(app.history, vec!["https://a".to_string(), "https://b".to_string()]);
    assert_eq!(app.history_index, 1);
    assert!(app.can_back());
    assert_eq!(app.step_back().as_deref(), Some("https://a"));
    assert!(app.can_forward());
    app.record_loaded("https://c".to_string(), "C".to_string(), true);
    assert_eq!(app.history, vec!["https://a".to_string(), "https://c".to_string()]);
    assert_eq!(app.status, "Done");
    assert_eq!(app.step_forward(), None);
    app.record_failed("Load error: x".to_string());
    assert_eq!(app.status, "Load error");
    assert_eq!(app.page_text, "Load error: x");
}

#[test]
fn default_state_is_empty() {
    let app = ZephyrGuiApp::default();
    assert_eq!(app.status, "Ready");
    assert_eq!(app.page_text, "Welcome to Zephyr Rust GUI");
    assert!(app.history.is_empty());
    assert_eq!(app.history_index, -1);
}
