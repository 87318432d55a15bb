use spider::paths::{get_storage_path, has_asset_extension, is_asset, is_subpath, normalize_url, storage_segments};
use spider::robots::{allowed_by_robots, robots_body_is_readable, robots_txt_url};
use spider::weburl::{parse_url, WebUrl};

fn url(s: &str) -> WebUrl {
    parse_url(s).expect("test URL parses")
}

#[test]
fn subpath_accepts_children_and_rejects_siblings() {
    assert!(is_subpath("/docs/stable", "/docs/stable/foo"));
    assert!(!is_subpath("/docs/stable", "/docs/stable-other"));
    assert!(is_subpath("/docs/stable", "/docs/stable"));
    assert!(is_subpath("/docs/", "/docs/anything"));
    assert!(!is_subpath("/docs", "/blog/docs"));
    assert!(!is_subpath("/docs/stable/foo", "/docs/stable"));
    assert!(is_subpath("/", "/x"));
    assert!(is_subpath("/é", "/é/x"));
    assert!(!is_subpath("/é", "/éa/"));
    assert!(!is_subpath("/日本", "/日本語/x"));
}

#[test]
fn parse_keeps_url_parts() {
    let u = url("https://Example.com/a/b?x=1#frag");
    assert_eq!(u.head(), "https://example.com");
    assert_eq!(u.path(), "/a/b");
    assert_eq!(u.query(), Some("x=1"));
    assert_eq!(u.fragment(), Some("frag"));
    assert_eq!(u.domain(), Some("example.com"));
    assert!(!u.is_opaque());
    assert_eq!(u.as_text(), "https://example.com/a/b?x=1#frag");
    assert!(parse_url("not a url").is_none());
    let ip = url("http://127.0.0.1:8080/x");
    assert_eq!(ip.domain(), None);
    assert!(url("mailto:someone@example.com").is_opaque());
}

#[test]
fn normalize_drops_query_fragment_and_one_slash() {
    assert_eq!(normalize_url(&url("https://example.com/a/b/?q=1#top")), "https://example.com/a/b");
    assert_eq!(normalize_url(&url("https://example.com/")), "https://example.com");
    assert_eq!(normalize_url(&url("https://example.com/a#x")), normalize_url(&url("https://example.com/a?y")));
    assert_eq!(normalize_url(&url("https://example.com/a/b.html")), "https://example.com/a/b.html");
    assert_eq!(normalize_url(&url("https://example.com/docs/guide")), normalize_url(&url("https://example.com/docs/guide/?x=1#y")));
    assert_eq!(normalize_url(&url("foo://h?x")), normalize_url(&url("foo://h/?x")));
    assert_eq!(normalize_url(&url("foo://h?x")), "foo://h");
}

#[test]
fn join_resolves_relative_links() {
    let base = url("https://example.com/docs/guide/intro.html");
    let j = base.join("../api/index.html#part").unwrap();
    assert_eq!(j.as_text(), "https://example.com/docs/api/index.html#part");
    let mut k = j.duplicate();
    k.clear_fragment();
    assert_eq!(k.as_text(), "https://example.com/docs/api/index.html");
    let other = base.join("https://other.org/x").unwrap();
    assert_eq!(other.domain(), Some("other.org"));
}

#[test]
fn asset_detection_is_case_insensitive() {
    assert!(is_asset(&url("https://x.com/static/STYLE.CSS"), true));
    assert!(is_asset(&url("https://x.com/img/logo.png?v=2"), true));
    assert!(!is_asset(&url("https://x.com/guide/page"), true));
    assert!(is_asset(&url("https://x.com/guide/page"), false));
    assert!(has_asset_extension("/a/font.woff2"));
    assert!(has_asset_extension("/robots.txt"));
    assert!(!has_asset_extension("/a/page.html"));
    assert!(!has_asset_extension("/a/css"));
}

#[test]
fn robots_url_is_at_the_site_root() {
    let r = robots_txt_url(&url("https://example.com/docs/stable/?a=1#b")).unwrap();
    assert_eq!(r.as_text(), "https://example.com/robots.txt");
}

#[test]
fn robots_rules_are_applied() {
    let robots = "User-agent: *\nDisallow: /private\n";
    assert!(robots_body_is_readable(robots));
    assert!(!allowed_by_robots(robots, &url("https://example.com/private/page")));
    assert!(allowed_by_robots(robots, &url("https://example.com/public/page")));
    assert!(allowed_by_robots("", &url("https://example.com/private/page")));
    let specific = "User-agent: rust-crawler\nDisallow: /\n\nUser-agent: *\nAllow: /\n";
    assert!(!allowed_by_robots(specific, &url("https://example.com/a")));
}

#[test]
fn robots_body_with_misaligned_line_is_refused() {
    let long_ascii = "a".repeat(20000);
    assert!(robots_body_is_readable(&long_ascii));
    let short_wide = format!("{}\n{}", "é".repeat(100), "b".repeat(30000));
    assert!(robots_body_is_readable(&short_wide));
    let long_wide = "é".repeat(9000);
    assert!(robots_body_is_readable(&long_wide));
    let long_wide_then_line = format!("{}\na", "é".repeat(9000));
    assert!(!robots_body_is_readable(&long_wide_then_line));
    let two_wide_skipped = format!("{}éé\nx", "a".repeat(16663));
    assert!(!robots_body_is_readable(&two_wide_skipped));
    let unmarked = format!("\u{EF}\u{BB}x{}éé\ny", "a".repeat(16662));
    assert!(!robots_body_is_readable(&unmarked));
}

#[test]
fn readable_robots_bodies_are_matched_without_failing() {
    let page = url("https://example.com/b");
    let wide_then_ascii = format!("User-agent: *\nDisallow: /é{}\n", "a".repeat(20000));
    let ascii_then_wide = format!("{}é", "a".repeat(20000));
    let long_wide = "é".repeat(9000);
    let lands_on_newline = format!("{}éaaaa\nx", "a".repeat(16663));
    let marked = format!("\u{EF}\u{BB}\u{BF}{}éé\ny", "a".repeat(16662));
    for body in [&wide_then_ascii, &ascii_then_wide, &long_wide, &lands_on_newline, &marked] {
        assert!(robots_body_is_readable(body));
        assert!(allowed_by_robots(body, &page));
    }
}

#[test]
fn storage_path_rules() {
    let page = url("https://x.com/docs/guide");
    assert_eq!(storage_segments(&page), vec!["docs".to_string(), "guide".to_string()]);
    assert_eq!(get_storage_path(&page, true, false), vec!["docs".to_string(), "guide.html".to_string()]);
    assert_eq!(get_storage_path(&page, true, true), vec!["docs".to_string(), "guide".to_string(), "index.html".to_string()]);
    assert_eq!(get_storage_path(&page, false, false), vec!["docs".to_string(), "guide".to_string()]);
    let dir = url("https://x.com/docs/");
    assert_eq!(get_storage_path(&dir, true, false), vec!["docs".to_string(), "index.html".to_string()]);
    let root = url("https://x.com/");
    assert_eq!(get_storage_path(&root, true, false), vec!["index.html".to_string()]);
    let css = url("https://x.com//a//style.css");
    assert_eq!(get_storage_path(&css, false, false), vec!["a".to_string(), "style.css".to_string()]);
    let dotted = url("https://x.com/v1.2/notes");
    assert_eq!(get_storage_path(&dotted, true, false), vec!["v1.2".to_string(), "notes.html".to_string()]);
    let hidden = url("https://x.com/.profile");
    assert_eq!(get_storage_path(&hidden, true, false), vec![".profile.html".to_string()]);
    let opaque = url("mailto:x@y.z");
    assert_eq!(storage_segments(&opaque), vec!["index.html".to_string()]);
}

#[test]
fn storage_path_never_climbs_out() {
    let dots = url("https://x.com/a/../../b/%2e%2e/c");
    let path = get_storage_path(&dots, false, false);
    assert!(path.iter().all(|n| n != ".." && !n.is_empty() && !n.contains('/')));
    assert_eq!(path, vec!["c".to_string()]);
}
