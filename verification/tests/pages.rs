use spider::extract::{
    base_from_hrefs, css_links_from_pairs, extract_from_css, extract_from_html, extract_links,
    links_from_values, CapturePair,
};
use spider::page::{classify_content, hardcode_external_links, process_page, rewrite_hrefs, ContentKind};
use spider::scan::{replace_chars, srcset_candidates};
use spider::split::split_chars;
use spider::weburl::{parse_url, WebUrl};

fn url(s: &str) -> WebUrl {
    parse_url(s).expect("test URL parses")
}

fn texts(v: &[WebUrl]) -> Vec<String> {
    v.iter().map(|u| u.as_text()).collect()
}

fn chars(s: &str) -> Vec<char> {
    s.chars().collect()
}

const PAGE: &str = r#"<html><head>
<link rel="stylesheet" href="/docs/theme.css">
<link rel="icon" href="https://other.org/favicon.ico">
<script src="app.js"></script>
<style>body { background: url('bg.png'); } @import "print.css";</style>
</head><body>
<a href="intro.html#top">Intro</a>
<a href="/blog/post.html">Blog</a>
<a href="/blog/paper.PDF">Paper</a>
<a href="https://other.org/x">Elsewhere</a>
<img src="img/a.png" srcset="img/a-1x.png 1x, img/a-2x.png 2x,  , img/a-3x.png">
</body></html>"#;

#[test]
fn html_links_follow_the_rules() {
    let root = url("https://example.com/docs/");
    let page = url("https://example.com/docs/index.html");
    let found = texts(&extract_from_html(PAGE.as_bytes(), &page, &root));
    assert_eq!(
        found,
        vec![
            "https://example.com/docs/intro.html",
            "https://example.com/blog/paper.PDF",
            "https://example.com/docs/theme.css",
            "https://example.com/docs/app.js",
            "https://example.com/docs/img/a.png",
            "https://example.com/docs/img/a-1x.png",
            "https://example.com/docs/img/a-2x.png",
            "https://example.com/docs/img/a-3x.png",
            "https://example.com/docs/bg.png",
            "https://example.com/docs/print.css",
        ]
    );
}

#[test]
fn base_href_changes_resolution() {
    let root = url("https://example.com/");
    let page = url("https://example.com/docs/index.html");
    let html = r#"<html><head><base href="/static/"></head><body><a href="a.html">A</a></body></html>"#;
    let found = texts(&extract_from_html(html.as_bytes(), &page, &root));
    assert_eq!(found, vec!["https://example.com/static/a.html"]);
}

#[test]
fn css_links_stay_on_domain() {
    let root = url("https://example.com/docs/");
    let base = url("https://example.com/docs/css/site.css");
    let css = "a { background: url(\"../img/x.png#frag\") } b { src: url(https://cdn.net/f.woff) } @import 'more.css';";
    let found = texts(&extract_from_css(css.as_bytes(), &base, &root));
    assert_eq!(found, vec!["https://example.com/docs/img/x.png", "https://example.com/docs/css/more.css"]);
}

#[test]
fn other_content_yields_no_links() {
    let root = url("https://example.com/");
    let base = url("https://example.com/a.png");
    assert!(extract_links(b"url(x.png)", &base, &root, false, false).is_empty());
    assert_eq!(extract_links(b"url(x.png)", &base, &root, false, true).len(), 1);
}

#[test]
fn srcset_takes_first_word_of_each_part() {
    let got: Vec<String> = srcset_candidates(&chars(" a.png 1x,b.png\t2x , ,\u{a0}c.png"))
        .into_iter()
        .map(|v| v.into_iter().collect())
        .collect();
    assert_eq!(got, vec!["a.png", "b.png", "c.png"]);
}

#[test]
fn split_keeps_empty_pieces() {
    let got: Vec<String> = split_chars(&chars("a,,b,"), ',').into_iter().map(|v| v.into_iter().collect()).collect();
    assert_eq!(got, vec!["a", "", "b", ""]);
    assert_eq!(split_chars(&chars(""), ',').len(), 1);
}

#[test]
fn replace_matches_left_to_right() {
    let r: String = replace_chars(&chars("aaaa"), &chars("aa"), &chars("b")).into_iter().collect();
    assert_eq!(r, "bb");
    let r: String = replace_chars(&chars("xabcabx"), &chars("ab"), &chars("Z")).into_iter().collect();
    assert_eq!(r, "xZcZx");
    assert_eq!("xabcabx".replace("ab", "Z"), r);
}

#[test]
fn content_kind_from_header_and_path() {
    let k = classify_content("text/html; charset=utf-8", "/a");
    assert!(k.is_html && !k.is_css);
    let k = classify_content("text/css", "/a");
    assert!(!k.is_html && k.is_css);
    let k = classify_content("", "/site.css");
    assert!(!k.is_html && k.is_css);
    let k = classify_content("application/octet-stream", "/x.bin");
    assert!(!k.is_html && !k.is_css);
}

#[test]
fn off_site_links_are_made_absolute() {
    let root = url("https://example.com/docs/");
    let base = url("https://example.com/docs/index.html");
    let html = r#"<a href="/blog/x">b</a><a href="guide.html">g</a><a href="/blog/x">again</a><a href="logo.svg">l</a>"#;
    let out = hardcode_external_links(html, &base, &root);
    assert_eq!(
        out,
        r#"<a href="https://example.com/blog/x">b</a><a href="guide.html">g</a><a href="https://example.com/blog/x">again</a><a href="logo.svg">l</a>"#
    );
}

#[test]
fn page_processing_stores_and_extracts() {
    let root = url("https://example.com/docs/");
    let job = url("https://example.com/docs/guide");
    let fin = url("https://example.com/docs/guide/");
    let html = r#"<a href="part.html">p</a><a href="/elsewhere">e</a><a href="../x.html">x</a>"#;
    let kind = ContentKind { is_html: true, is_css: false };
    let out = process_page(&root, &job, &fin, html.as_bytes().to_vec(), &kind, true, true, false);
    assert_eq!(out.path, vec!["docs".to_string(), "guide.html".to_string()]);
    assert_eq!(
        String::from_utf8(out.content.clone()).unwrap(),
        r#"<a href="part.html">p</a><a href="https://example.com/elsewhere">e</a><a href="https://example.com/x.html">x</a>"#
    );
    assert_eq!(
        texts(&out.links),
        vec!["https://example.com/docs/guide/part.html", "https://example.com/docs/x.html"]
    );

    let plain = process_page(&root, &job, &fin, html.as_bytes().to_vec(), &kind, false, false, false);
    assert_eq!(plain.content, html.as_bytes().to_vec());
    assert!(plain.links.is_empty());
}

#[test]
fn invalid_utf8_in_a_page_becomes_the_replacement_character() {
    let root = url("https://example.com/docs/");
    let page = url("https://example.com/docs/index.html");
    let mut bytes: Vec<u8> = b"<a href=\"caf".to_vec();
    bytes.push(0xff);
    bytes.extend_from_slice(b".html\">x</a>");
    let found = texts(&extract_from_html(&bytes, &page, &root));
    assert_eq!(found, vec!["https://example.com/docs/caf%EF%BF%BD.html"]);
}

#[test]
fn invalid_utf8_in_a_stylesheet_becomes_the_replacement_character() {
    let root = url("https://example.com/");
    let sheet = url("https://example.com/css/site.css");
    let mut bytes: Vec<u8> = b"a { background: url(img".to_vec();
    bytes.push(0xfe);
    bytes.extend_from_slice(b".png); }");
    let found = texts(&extract_from_css(&bytes, &sheet, &root));
    assert_eq!(found, vec!["https://example.com/css/img%EF%BF%BD.png"]);
}

#[test]
fn css_matches_given_as_values_are_resolved_and_filtered() {
    let root = url("https://example.com/");
    let sheet = url("https://example.com/css/site.css");
    let pairs = vec![
        CapturePair { first: Some("img/a.png#x".to_string()), second: None },
        CapturePair { first: None, second: Some("/print.css".to_string()) },
        CapturePair { first: Some("https://cdn.org/f.woff".to_string()), second: None },
        CapturePair { first: None, second: None },
    ];
    assert_eq!(
        texts(&css_links_from_pairs(&pairs, &sheet, &root)),
        vec!["https://example.com/css/img/a.png", "https://example.com/print.css"]
    );
}

#[test]
fn attribute_values_given_as_values_follow_the_rules() {
    let root = url("https://example.com/docs/");
    let page = url("https://example.com/docs/a/page.html");
    let base = base_from_hrefs(&vec![Some("/docs/b/".to_string()), Some("/ignored/".to_string())], &page);
    assert_eq!(base.as_text(), "https://example.com/docs/b/");
    assert_eq!(base_from_hrefs(&vec![None], &page).as_text(), page.as_text());
    assert_eq!(base_from_hrefs(&vec![], &page).as_text(), page.as_text());
    let links = vec!["x.html".to_string(), "/blog/y.html".to_string(), "/blog/z.PNG".to_string()];
    assert_eq!(
        texts(&links_from_values(&base, &root, &links, false, true)),
        vec!["https://example.com/docs/b/x.html", "https://example.com/blog/z.PNG"]
    );
    let srcset = vec!["s1.png 1x, /blog/s2.png 2x".to_string()];
    assert_eq!(
        texts(&links_from_values(&base, &root, &srcset, true, false)),
        vec!["https://example.com/docs/b/s1.png", "https://example.com/blog/s2.png"]
    );
}

#[test]
fn link_values_given_as_values_are_rewritten() {
    let root = url("https://example.com/docs/");
    let base = url("https://example.com/docs/a.html");
    let html = r#"<a href="b.html">b</a><a href="/blog/">x</a>"#;
    let hrefs = vec!["b.html".to_string(), "/blog/".to_string()];
    assert_eq!(
        rewrite_hrefs(html, &hrefs, &base, &root),
        r#"<a href="b.html">b</a><a href="https://example.com/blog/">x</a>"#
    );
}

#[test]
fn page_with_nothing_to_rewrite_is_stored_as_fetched() {
    let root = url("https://example.com/docs/");
    let job = url("https://example.com/docs/guide.html");
    let html = "<p>caf\u{e9}</p><a href=\"part.html\">p</a><a href=\"/img/x.png\">i</a>";
    let kind = ContentKind { is_html: true, is_css: false };
    let out = process_page(&root, &job, &job, html.as_bytes().to_vec(), &kind, false, true, false);
    assert_eq!(out.content, html.as_bytes().to_vec());
}
