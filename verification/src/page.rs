//! What becomes of a fetched page: its kind, where it is stored, what is written,
//! and which URLs it leads to.
use vstd::prelude::*;
use crate::extract::{
    decoded_lossy, extract_links, page_base, page_links, present,
    selected_attribute_values, url_views, utf8_lossy,
};
use crate::paths::{
    get_storage_path, has_asset_extension_spec, is_asset, is_subpath, lowercased,
    plain_names, storage_path_spec, subpath_of, views,
};
use crate::scan::{contains_chars, contains_seq, replace_all, replace_chars};
use crate::text::{chars_of, ends_with, has_suffix, string_from_chars};
use crate::weburl::{joined_url, serialization, UrlView, WebUrl};

verus! {

broadcast use vstd::string::group_string_axioms;

/// The kind of a fetched resource.
pub struct ContentKind {
    pub is_html: bool,
    pub is_css: bool,
}

/// A response is HTML when its content type mentions `text/html`, and CSS when it
/// mentions `text/css` or the final URL's path ends in `.css`.
pub fn classify_content(content_type: &str, final_path: &str) -> (r: ContentKind)
    ensures
        r.is_html == contains_seq(content_type@, "text/html"@),
        r.is_css == (contains_seq(content_type@, "text/css"@) || ends_with(final_path@, ".css"@)),
{
    let ct = chars_of(content_type);
    let html = chars_of("text/html");
    let css = chars_of("text/css");
    let ext = chars_of(".css");
    let p = chars_of(final_path);
    let is_html = contains_chars(&ct, &html);
    let is_css = contains_chars(&ct, &css) || has_suffix(&p, &ext);
    ContentKind { is_html, is_css }
}

/// A link found in `<a href>` leads off the crawled site: to another domain, or
/// neither under the root path nor to an asset file.
pub open spec fn leads_off_site(root: UrlView, u: UrlView) -> bool {
    ||| u.domain != root.domain
    ||| !subpath_of(root.path, u.path) && !has_asset_extension_spec(
        lowercased(u.path),
    )
}

/// The rewrite for one `href` value: it and the absolute URL it resolves to, when
/// that URL leads off the site.
pub open spec fn rewrite_of(base: UrlView, root: UrlView, href: Seq<char>) -> Option<(Seq<char>, Seq<char>)> {
    match joined_url(serialization(base), href) {
        Some(u) => if leads_off_site(root, u) {
            Some((href, serialization(u)))
        } else {
            None
        },
        None => None,
    }
}

/// The rewrites for a list of `href` values, in order.
pub open spec fn rewrites_from(base: UrlView, root: UrlView, hrefs: Seq<Seq<char>>) -> Seq<(Seq<char>, Seq<char>)>
    decreases hrefs.len(),
{
    if hrefs.len() == 0 {
        Seq::empty()
    } else {
        match rewrite_of(base, root, hrefs.last()) {
            Some(p) => rewrites_from(base, root, hrefs.drop_last()).push(p),
            None => rewrites_from(base, root, hrefs.drop_last()),
        }
    }
}

/// The attribute text `href="v"`.
pub open spec fn href_attribute(v: Seq<char>) -> Seq<char> {
    "href=\""@ + v + "\""@
}

/// `html` after replacing, rewrite by rewrite in order, every `href="old"` with
/// `href="new"`.
pub open spec fn apply_rewrites(html: Seq<char>, pairs: Seq<(Seq<char>, Seq<char>)>) -> Seq<char>
    decreases pairs.len(),
{
    if pairs.len() == 0 {
        html
    } else {
        replace_all(
            apply_rewrites(html, pairs.drop_last()),
            href_attribute(pairs.last().0),
            href_attribute(pairs.last().1),
        )
    }
}

/// An HTML page with its links that lead off the site made absolute, so that the
/// stored copy still reaches them.
pub open spec fn hardcoded_html(html: Seq<char>, base: UrlView, root: UrlView) -> Seq<char> {
    apply_rewrites(html, rewrites_from(base, root, present(selected_attribute_values(html, "a[href]"@, "href"@))))
}

fn href_attribute_chars(v: &Vec<char>) -> (r: Vec<char>)
    ensures
        r@ == href_attribute(v@),
        r.len() > 0,
{
    let mut out = chars_of("href=\"");
    let mut i: usize = 0;
    let ghost start = out@;
    while i < v.len()
        invariant
            i <= v.len(),
            out@ =~= start + v@.subrange(0, i as int),
        decreases v.len() - i,
    {
        out.push(v[i]);
        i = i + 1;
    }
    out.push('"');
    proof {
        reveal_strlit("\"");
        assert(v@.subrange(0, v@.len() as int) =~= v@);
    }
    assert(out@ =~= href_attribute(v@));
    out
}

/// Makes the page's off-site links absolute (see [`hardcoded_html`]).
pub fn hardcode_external_links(html: &str, base: &WebUrl, root: &WebUrl) -> (r: String)
    ensures
        r@ == hardcoded_html(html@, base@, root@),
{
    let found = crate::extract::attribute_values(html, "a[href]", "href");
    let hrefs = crate::extract::present_values(&found);
    rewrite_hrefs(html, &hrefs, base, root)
}

/// `html` with each `href="v"` of the given link values that leads off the site
/// replaced by `href="absolute URL"`, rewrite by rewrite in order.
pub fn rewrite_hrefs(html: &str, hrefs: &Vec<String>, base: &WebUrl, root: &WebUrl) -> (r: String)
    ensures
        r@ == apply_rewrites(html@, rewrites_from(base@, root@, views(hrefs@))),
{
    let ghost all = views(hrefs@);
    let mut pairs: Vec<(Vec<char>, Vec<char>)> = Vec::new();
    let mut i: usize = 0;
    while i < hrefs.len()
        invariant
            i <= hrefs.len(),
            all == views(hrefs@),
            pairs@.map_values(|p: (Vec<char>, Vec<char>)| (p.0@, p.1@)) =~= rewrites_from(
                base@,
                root@,
                all.take(i as int),
            ),
        decreases hrefs.len() - i,
    {
        assert(all.take(i + 1).drop_last() =~= all.take(i as int));
        assert(all.take(i + 1).last() == hrefs@[i as int]@);
        match base.join(hrefs[i].as_str()) {
            Some(next) => {
                let same = next.same_domain(root);
                let sub = is_subpath(root.path(), next.path());
                let asset = is_asset(&next, true);
                if !same || (!sub && !asset) {
                    let old = chars_of(hrefs[i].as_str());
                    let abs = chars_of(next.as_text().as_str());
                    pairs.push((old, abs));
                }
            },
            None => {},
        }
        assert(pairs@.map_values(|p: (Vec<char>, Vec<char>)| (p.0@, p.1@)) =~= rewrites_from(
            base@,
            root@,
            all.take(i + 1),
        ));
        i = i + 1;
    }
    assert(all.take(hrefs.len() as int) =~= all);
    let ghost pv = pairs@.map_values(|p: (Vec<char>, Vec<char>)| (p.0@, p.1@));
    let mut cur = chars_of(html);
    let mut j: usize = 0;
    while j < pairs.len()
        invariant
            j <= pairs.len(),
            pv == pairs@.map_values(|p: (Vec<char>, Vec<char>)| (p.0@, p.1@)),
            cur@ == apply_rewrites(html@, pv.take(j as int)),
        decreases pairs.len() - j,
    {
        assert(pv.take(j + 1).drop_last() =~= pv.take(j as int));
        assert(pv.take(j + 1).last() == (pairs@[j as int].0@, pairs@[j as int].1@));
        let from = href_attribute_chars(&pairs[j].0);
        let to = href_attribute_chars(&pairs[j].1);
        cur = replace_chars(&cur, &from, &to);
        j = j + 1;
    }
    assert(pv.take(pairs.len() as int) =~= pv);
    string_from_chars(&cur)
}

/// The result of handling a fetched page.
pub struct PageOutcome {
    /// Where to store the page, as names under the output directory.
    pub path: Vec<String>,
    /// What to write there.
    pub content: Vec<u8>,
    /// The URLs found to crawl next.
    pub links: Vec<WebUrl>,
}

/// What is written for a fetched page of the crawl job `job_url`: an HTML page
/// with off-site links made absolute (resolved against the job's URL, or the
/// page's `<base href>` resolved against it) when that is asked for, re-encoded as
/// UTF-8; else the bytes as fetched.
pub open spec fn stored_content(bytes: Seq<u8>, job_url: UrlView, root: UrlView, is_html: bool, hardcode_external: bool) -> Seq<u8> {
    if is_html && hardcode_external {
        let html = decoded_lossy(bytes);
        vstd::utf8::encode_utf8(hardcoded_html(html, page_base(html, job_url), root))
    } else {
        bytes
    }
}

/// Handles a fetched page of the crawl job `job_url`, which the server delivered
/// from `final_url`: where it is stored (by the job's URL; `target_is_dir` tells
/// whether that place is an existing directory), what is written (links made
/// absolute against the job's URL), and, when `should_extract`, the URLs it leads
/// to (resolved against the final URL).
pub fn process_page(
    root: &WebUrl,
    job_url: &WebUrl,
    final_url: &WebUrl,
    bytes: Vec<u8>,
    kind: &ContentKind,
    should_extract: bool,
    hardcode_external: bool,
    target_is_dir: bool,
) -> (r: PageOutcome)
    ensures
        views(r.path@) == storage_path_spec(job_url@, kind.is_html, target_is_dir),
        plain_names(views(r.path@)),
        r.content@ == stored_content(bytes@, job_url@, root@, kind.is_html, hardcode_external),
        kind.is_html && hardcode_external && vstd::utf8::valid_utf8(bytes@) && rewrites_from(
            page_base(vstd::utf8::decode_utf8(bytes@), job_url@),
            root@,
            present(selected_attribute_values(vstd::utf8::decode_utf8(bytes@), "a[href]"@, "href"@)),
        ).len() == 0 ==> r.content@ == bytes@,
        url_views(r.links@) == (if should_extract {
            page_links(bytes@, final_url@, root@, kind.is_html, kind.is_css)
        } else {
            Seq::empty()
        }),
{
    let path = get_storage_path(job_url, kind.is_html, target_is_dir);
    let links = if should_extract {
        extract_links(bytes.as_slice(), final_url, root, kind.is_html, kind.is_css)
    } else {
        let none: Vec<WebUrl> = Vec::new();
        assert(url_views(none@) =~= Seq::<UrlView>::empty());
        none
    };
    let content = if kind.is_html && hardcode_external {
        let html = utf8_lossy(bytes.as_slice());
        let base = crate::extract::base_of_page(html.as_str(), job_url);
        let rewritten = hardcode_external_links(html.as_str(), &base, root);
        proof {
            if vstd::utf8::valid_utf8(bytes@) {
                vstd::utf8::decode_utf8_encode_utf8(bytes@);
            }
        }
        crate::text::string_bytes(&rewritten)
    } else {
        bytes
    };
    PageOutcome { path, content, links }
}

/// A link is made absolute exactly when it resolves and leads off the site: to
/// another domain, or, on the start page's domain, to a path that is neither under
/// the root path (on a directory boundary) nor a file with an asset extension
/// (case aside). The rewrite replaces the link's text by the resolved URL.
pub proof fn law_rewrite_rule(base: UrlView, root: UrlView, href: Seq<char>)
    ensures
        joined_url(serialization(base), href) is None ==> rewrite_of(base, root, href) is None,
        joined_url(serialization(base), href) matches Some(u) ==> rewrite_of(base, root, href) == (
        if u.domain != root.domain || (!subpath_of(root.path, u.path) && !has_asset_extension_spec(
            lowercased(u.path),
        )) {
            Some((href, serialization(u)))
        } else {
            None
        }),
{
}

/// Every link value that is rewritten has its rewrite in the list, and every
/// rewrite in the list comes from a link value.
pub proof fn law_rewrites_cover_the_links(base: UrlView, root: UrlView, hrefs: Seq<Seq<char>>)
    ensures
        forall|i: int| 0 <= i < hrefs.len() && (#[trigger] rewrite_of(base, root, hrefs[i])) is Some
            ==> rewrites_from(base, root, hrefs).contains(rewrite_of(base, root, hrefs[i])->0),
        forall|k: int| 0 <= k < rewrites_from(base, root, hrefs).len() ==> exists|i: int|
            0 <= i < hrefs.len() && rewrite_of(base, root, hrefs[i]) == Some(
                #[trigger] rewrites_from(base, root, hrefs)[k],
            ),
    decreases hrefs.len(),
{
    if hrefs.len() > 0 {
        let init = hrefs.drop_last();
        law_rewrites_cover_the_links(base, root, init);
        let pre = rewrites_from(base, root, init);
        let res = rewrites_from(base, root, hrefs);
        assert forall|i: int| 0 <= i < hrefs.len() && (#[trigger] rewrite_of(base, root, hrefs[i])) is Some
            implies res.contains(rewrite_of(base, root, hrefs[i])->0) by {
            if i < hrefs.len() - 1 {
                assert(init[i] == hrefs[i]);
                let j = choose|j: int| 0 <= j < pre.len() && pre[j] == rewrite_of(base, root, init[i])->0;
                assert(res[j] == pre[j]);
            } else {
                assert(hrefs[i] == hrefs.last());
                assert(res[pre.len() as int] == rewrite_of(base, root, hrefs[i])->0);
            }
        }
        assert forall|k: int| 0 <= k < res.len() implies exists|i: int|
            0 <= i < hrefs.len() && rewrite_of(base, root, hrefs[i]) == Some(#[trigger] res[k]) by {
            if k < pre.len() {
                assert(res[k] == pre[k]);
                let i = choose|i: int| 0 <= i < init.len() && rewrite_of(base, root, init[i]) == Some(pre[k]);
                assert(hrefs[i] == init[i]);
            } else {
                assert(hrefs[hrefs.len() - 1] == hrefs.last());
            }
        }
    }
}

/// The stored page's links are those of its `<a href>` elements, and each rewrite
/// replaces every `href="old"` with `href="new"`, in order.
pub proof fn law_hardcoded_links_are_a_href(html: Seq<char>, base: UrlView, root: UrlView, pairs: Seq<(Seq<char>, Seq<char>)>, p: (Seq<char>, Seq<char>))
    ensures
        hardcoded_html(html, base, root) == apply_rewrites(
            html,
            rewrites_from(base, root, present(selected_attribute_values(html, "a[href]"@, "href"@))),
        ),
        apply_rewrites(html, pairs.push(p)) == replace_all(
            apply_rewrites(html, pairs),
            "href=\""@ + p.0 + "\""@,
            "href=\""@ + p.1 + "\""@,
        ),
        apply_rewrites(html, Seq::empty()) == html,
{
    assert(pairs.push(p).drop_last() =~= pairs);
}

/// Only an HTML page with `hardcode_external` on is rewritten: its text, decoded
/// leniently, with its off-site `<a href>` links made absolute against the job's
/// URL (or its `<base href>`), stored as UTF-8; everything else is stored exactly
/// as fetched.
pub proof fn law_stored_content(bytes: Seq<u8>, job_url: UrlView, root: UrlView, is_html: bool, hardcode_external: bool)
    ensures
        !(is_html && hardcode_external) ==> stored_content(bytes, job_url, root, is_html, hardcode_external) == bytes,
        is_html && hardcode_external ==> stored_content(bytes, job_url, root, is_html, hardcode_external)
            == vstd::utf8::encode_utf8(apply_rewrites(
            decoded_lossy(bytes),
            rewrites_from(
                page_base(decoded_lossy(bytes), job_url),
                root,
                present(selected_attribute_values(decoded_lossy(bytes), "a[href]"@, "href"@)),
            ),
        )),
{
}

} // verus!
