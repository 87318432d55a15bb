//! Finding the URLs a fetched page refers to, and which of them to crawl.
use vstd::prelude::*;
use crate::paths::{has_asset_extension_spec, is_asset, is_subpath, lowercased, subpath_of};
use crate::paths::views;
use crate::scan::{srcset_candidates, srcset_urls};
use crate::text::{chars_of, string_from_chars};
use crate::weburl::{joined_url, opt_view, serialization, without_fragment, UrlView, WebUrl};

verus! {

broadcast use vstd::string::group_string_axioms;

/// The views of a list of URLs.
pub open spec fn url_views(v: Seq<WebUrl>) -> Seq<UrlView> {
    v.map_values(|u: WebUrl| u@)
}

/// What `String::from_utf8_lossy` gives for a byte string.
pub uninterp spec fn decoded_lossy(bytes: Seq<u8>) -> Seq<char>;

/// Calls `String::from_utf8_lossy` (invalid sequences become U+FFFD). Claims that
/// the result is the one `decoded_lossy` names for the bytes, and, as the
/// documentation says, that valid UTF-8 comes back as the text it encodes.
#[verifier::external_body]
pub(crate) fn utf8_lossy(bytes: &[u8]) -> (r: String)
    ensures
        r@ == decoded_lossy(bytes@),
        vstd::utf8::valid_utf8(bytes@) ==> r@ == vstd::utf8::decode_utf8(bytes@),
{
    String::from_utf8_lossy(bytes).into_owned()
}

/// The two capture groups of one regex match, as found.
pub struct CapturePair {
    pub first: Option<String>,
    pub second: Option<String>,
}

/// The view of a capture pair.
pub open spec fn pair_view(p: CapturePair) -> (Option<Seq<char>>, Option<Seq<char>>) {
    (opt_view(p.first), opt_view(p.second))
}

/// For each successive non-overlapping match of the regular expression `pattern`
/// in `text` (`regex::Regex::captures_iter`), the texts of capture groups 1 and 2
/// (`None` for a group that did not take part); empty when `pattern` is not a
/// valid expression.
pub uninterp spec fn regex_group_pairs(pattern: Seq<char>, text: Seq<char>) -> Seq<
    (Option<Seq<char>>, Option<Seq<char>>),
>;

/// Compiles `pattern` with `regex::Regex::new` and walks `captures_iter` over
/// `text`, keeping groups 1 and 2 of each match. Claims only that the result is the
/// one `regex_group_pairs` names.
#[verifier::external_body]
fn capture_groups(pattern: &str, text: &str) -> (r: Vec<CapturePair>)
    ensures
        r@.map_values(|p: CapturePair| pair_view(p)) == regex_group_pairs(pattern@, text@),
{
    let mut out = Vec::new();
    if let Ok(re) = regex::Regex::new(pattern) {
        for c in re.captures_iter(text) {
            let first = c.get(1).map(|m| m.as_str().to_string());
            let second = c.get(2).map(|m| m.as_str().to_string());
            out.push(CapturePair { first, second });
        }
    }
    out
}

/// The regular expression for URLs in CSS: `url(...)` with optional quotes, and
/// `@import "..."`.
pub open spec fn css_url_pattern() -> Seq<char> {
    "url\\(\\s*['\"]?([^'\")]*)['\"]?\\s*\\)|@import\\s+['\"]([^'\"]+)['\"]"@
}

fn css_url_pattern_text() -> (r: &'static str)
    ensures
        r@ == css_url_pattern(),
{
    "url\\(\\s*['\"]?([^'\")]*)['\"]?\\s*\\)|@import\\s+['\"]([^'\"]+)['\"]"
}

/// The URL text of a CSS match: the `url(...)` group, else the `@import` group.
pub open spec fn css_value(p: (Option<Seq<char>>, Option<Seq<char>>)) -> Option<Seq<char>> {
    match p.0 {
        Some(v) => Some(v),
        None => p.1,
    }
}

/// The URL a CSS match leads to, resolved against `base` without its fragment,
/// kept when it is on the domain of `root`.
pub open spec fn css_link(base: UrlView, root: UrlView, p: (Option<Seq<char>>, Option<Seq<char>>)) -> Option<UrlView> {
    match css_value(p) {
        Some(v) => match joined_url(serialization(base), v) {
            Some(u) => {
                let w = without_fragment(u);
                if w.domain == root.domain {
                    Some(w)
                } else {
                    None
                }
            },
            None => None,
        },
        None => None,
    }
}

/// The kept URLs of a list of CSS matches, in order.
pub open spec fn css_links_from(base: UrlView, root: UrlView, pairs: Seq<(Option<Seq<char>>, Option<Seq<char>>)>) -> Seq<UrlView>
    decreases pairs.len(),
{
    if pairs.len() == 0 {
        Seq::empty()
    } else {
        match css_link(base, root, pairs.last()) {
            Some(u) => css_links_from(base, root, pairs.drop_last()).push(u),
            None => css_links_from(base, root, pairs.drop_last()),
        }
    }
}

/// The URLs to crawl from a style sheet's text.
pub open spec fn css_links(text: Seq<char>, base: UrlView, root: UrlView) -> Seq<UrlView> {
    css_links_from(base, root, regex_group_pairs(css_url_pattern(), text))
}

/// The URLs to crawl from a style sheet's text: every `url(...)` and `@import`
/// target, resolved against `base` without fragment, on the domain of `root`.
pub fn extract_from_css_text(text: &str, base: &WebUrl, root: &WebUrl) -> (r: Vec<WebUrl>)
    ensures
        url_views(r@) == css_links(text@, base@, root@),
{
    let pairs = capture_groups(css_url_pattern_text(), text);
    css_links_from_pairs(&pairs, base, root)
}

/// The URLs to crawl from the matches of the CSS URL pattern: for each match, its
/// `url(...)` group, else its `@import` group, resolved against `base` without
/// fragment, kept when on the domain of `root`.
pub fn css_links_from_pairs(pairs: &Vec<CapturePair>, base: &WebUrl, root: &WebUrl) -> (r: Vec<WebUrl>)
    ensures
        url_views(r@) == css_links_from(base@, root@, pairs@.map_values(|p: CapturePair| pair_view(p))),
{
    let ghost all = pairs@.map_values(|p: CapturePair| pair_view(p));
    let mut out: Vec<WebUrl> = Vec::new();
    let mut i: usize = 0;
    while i < pairs.len()
        invariant
            i <= pairs.len(),
            all == pairs@.map_values(|p: CapturePair| pair_view(p)),
            url_views(out@) =~= css_links_from(base@, root@, all.take(i as int)),
        decreases pairs.len() - i,
    {
        assert(all.take(i + 1).drop_last() =~= all.take(i as int));
        assert(all.take(i + 1).last() == pair_view(pairs@[i as int]));
        let pair = &pairs[i];
        let value: Option<&String> = match &pair.first {
            Some(v) => Some(v),
            None => match &pair.second {
                Some(v) => Some(v),
                None => None,
            },
        };
        match value {
            Some(v) => {
                match base.join(v.as_str()) {
                    Some(mut next) => {
                        next.clear_fragment();
                        if next.same_domain(root) {
                            out.push(next);
                        }
                    },
                    None => {},
                }
            },
            None => {},
        }
        assert(url_views(out@) =~= css_links_from(base@, root@, all.take(i + 1)));
        i = i + 1;
    }
    assert(all.take(pairs.len() as int) =~= all);
    out
}

/// The URLs to crawl from a style sheet's bytes (decoded leniently as UTF-8).
pub fn extract_from_css(bytes: &[u8], base_url: &WebUrl, root: &WebUrl) -> (r: Vec<WebUrl>)
    ensures
        url_views(r@) == css_links(decoded_lossy(bytes@), base_url@, root@),
{
    let text = utf8_lossy(bytes);
    extract_from_css_text(text.as_str(), base_url, root)
}

/// For the document parsed from `html` (`scraper::Html::parse_document`), one entry
/// per element that matches the CSS selector `selector`, in document order: the
/// value of its attribute `attr`, or `None` when it has none; empty when the
/// selector does not parse.
pub uninterp spec fn selected_attribute_values(html: Seq<char>, selector: Seq<char>, attr: Seq<char>) -> Seq<Option<Seq<char>>>;

/// For the document parsed from `html`, the inner HTML of the elements that match
/// `selector`, in document order; empty when the selector does not parse.
pub uninterp spec fn selected_inner_html(html: Seq<char>, selector: Seq<char>) -> Seq<Seq<char>>;

/// The views of a list of optional strings.
pub open spec fn opt_views(v: Seq<Option<String>>) -> Seq<Option<Seq<char>>> {
    v.map_values(|o: Option<String>| opt_view(o))
}

/// Parses `html` with `scraper::Html::parse_document`, selects with
/// `scraper::Selector` and reads each element's attribute with
/// `scraper::ElementRef::attr`. Claims only that the result is the one
/// `selected_attribute_values` names.
#[verifier::external_body]
pub(crate) fn attribute_values(html: &str, selector: &str, attr: &str) -> (r: Vec<Option<String>>)
    ensures
        opt_views(r@) == selected_attribute_values(html@, selector@, attr@),
{
    let mut out = Vec::new();
    if let Ok(sel) = scraper::Selector::parse(selector) {
        let doc = scraper::Html::parse_document(html);
        for element in doc.select(&sel) {
            out.push(element.attr(attr).map(str::to_string));
        }
    }
    out
}

/// The values that are present, in order.
pub open spec fn present(s: Seq<Option<Seq<char>>>) -> Seq<Seq<char>>
    decreases s.len(),
{
    if s.len() == 0 {
        Seq::empty()
    } else {
        match s.last() {
            Some(v) => present(s.drop_last()).push(v),
            None => present(s.drop_last()),
        }
    }
}

/// The attribute values that are present, in order (elements without the
/// attribute are skipped).
pub(crate) fn present_values(v: &Vec<Option<String>>) -> (r: Vec<String>)
    ensures
        views(r@) == present(opt_views(v@)),
{
    let ghost all = opt_views(v@);
    let mut out: Vec<String> = Vec::new();
    let mut i: usize = 0;
    while i < v.len()
        invariant
            i <= v.len(),
            all == opt_views(v@),
            views(out@) =~= present(all.take(i as int)),
        decreases v.len() - i,
    {
        assert(all.take(i + 1).drop_last() =~= all.take(i as int));
        assert(all.take(i + 1).last() == opt_view(v@[i as int]));
        match &v[i] {
            Some(s) => {
                out.push(s.clone());
            },
            None => {},
        }
        assert(views(out@) =~= present(all.take(i + 1)));
        i = i + 1;
    }
    assert(all.take(v.len() as int) =~= all);
    out
}

/// Parses `html` with `scraper::Html::parse_document`, selects with
/// `scraper::Selector` and takes `scraper::ElementRef::inner_html` of each match.
/// Claims only that the result is the one `selected_inner_html` names.
#[verifier::external_body]
fn inner_html_of(html: &str, selector: &str) -> (r: Vec<String>)
    ensures
        views(r@) == selected_inner_html(html@, selector@),
{
    let mut out = Vec::new();
    if let Ok(sel) = scraper::Selector::parse(selector) {
        let doc = scraper::Html::parse_document(html);
        for element in doc.select(&sel) {
            out.push(element.inner_html());
        }
    }
    out
}

/// Whether a URL found in a page is kept for crawling: on the domain of `root`,
/// and under the root path or fetched as an asset.
pub open spec fn keep_link(root: UrlView, u: UrlView, is_link: bool) -> bool {
    &&& u.domain == root.domain
    &&& (subpath_of(root.path, u.path) || !is_link
        || has_asset_extension_spec(lowercased(u.path)))
}

/// The URL a text found in a tag leads to: resolved against `base`, without
/// fragment, kept when [`keep_link`] says so.
pub open spec fn tag_link(base: UrlView, root: UrlView, text: Seq<char>, is_link: bool) -> Option<UrlView> {
    match joined_url(serialization(base), text) {
        Some(u) => {
            let w = without_fragment(u);
            if keep_link(root, w, is_link) {
                Some(w)
            } else {
                None
            }
        },
        None => None,
    }
}

/// The kept URLs of a list of texts, in order.
pub open spec fn links_from(base: UrlView, root: UrlView, texts: Seq<Seq<char>>, is_link: bool) -> Seq<UrlView>
    decreases texts.len(),
{
    if texts.len() == 0 {
        Seq::empty()
    } else {
        match tag_link(base, root, texts.last(), is_link) {
            Some(u) => links_from(base, root, texts.drop_last(), is_link).push(u),
            None => links_from(base, root, texts.drop_last(), is_link),
        }
    }
}

/// The URL texts of an attribute value: the `srcset` candidates, or the value.
pub open spec fn value_texts(value: Seq<char>, srcset: bool) -> Seq<Seq<char>> {
    if srcset {
        srcset_urls(value)
    } else {
        seq![value]
    }
}

/// The kept URLs of a list of attribute values, in order.
pub open spec fn value_links(base: UrlView, root: UrlView, values: Seq<Seq<char>>, srcset: bool, is_link: bool) -> Seq<UrlView>
    decreases values.len(),
{
    if values.len() == 0 {
        Seq::empty()
    } else {
        value_links(base, root, values.drop_last(), srcset, is_link) + links_from(
            base,
            root,
            value_texts(values.last(), srcset),
            is_link,
        )
    }
}

/// The CSS selectors of the tags whose attributes name resources.
pub open spec fn tag_selector(i: int) -> Seq<char> {
    if i == 0 { "a[href]"@ }
    else if i == 1 { "link[rel=\"stylesheet\"][href]"@ }
    else if i == 2 { "script[src]"@ }
    else if i == 3 { "img[src]"@ }
    else if i == 4 { "img[srcset]"@ }
    else if i == 5 { "source[srcset]"@ }
    else if i == 6 { "link[rel*=\"icon\"]"@ }
    else if i == 7 { "iframe[src]"@ }
    else { "embed[src]"@ }
}

/// The attribute read from the tags of [`tag_selector`].
pub open spec fn tag_attribute(i: int) -> Seq<char> {
    if i == 0 || i == 1 || i == 6 { "href"@ }
    else if i == 4 || i == 5 { "srcset"@ }
    else { "src"@ }
}

/// The number of tag kinds read.
pub open spec fn tag_kinds() -> nat {
    9
}

fn tag_entry(i: usize) -> (r: (&'static str, &'static str, bool))
    requires
        i < 9,
    ensures
        r.0@ == tag_selector(i as int),
        r.1@ == tag_attribute(i as int),
        r.2 == (i == 0),
{
    if i == 0 { ("a[href]", "href", true) }
    else if i == 1 { ("link[rel=\"stylesheet\"][href]", "href", false) }
    else if i == 2 { ("script[src]", "src", false) }
    else if i == 3 { ("img[src]", "src", false) }
    else if i == 4 { ("img[srcset]", "srcset", false) }
    else if i == 5 { ("source[srcset]", "srcset", false) }
    else if i == 6 { ("link[rel*=\"icon\"]", "href", false) }
    else if i == 7 { ("iframe[src]", "src", false) }
    else { ("embed[src]", "src", false) }
}

/// The kept URLs from the first `n` tag kinds of a page, in order.
pub open spec fn tag_links(html: Seq<char>, base: UrlView, root: UrlView, n: nat) -> Seq<UrlView>
    decreases n,
{
    if n == 0 {
        Seq::empty()
    } else {
        let k = n - 1;
        tag_links(html, base, root, (n - 1) as nat) + value_links(
            base,
            root,
            present(selected_attribute_values(html, tag_selector(k), tag_attribute(k))),
            tag_attribute(k) == "srcset"@,
            k == 0,
        )
    }
}

/// The kept URLs of the style blocks of a page, in order.
pub open spec fn style_links(blocks: Seq<Seq<char>>, base: UrlView, root: UrlView) -> Seq<UrlView>
    decreases blocks.len(),
{
    if blocks.len() == 0 {
        Seq::empty()
    } else {
        style_links(blocks.drop_last(), base, root) + css_links(blocks.last(), base, root)
    }
}

/// The base URL given the `href` values of a page's `<base href>` elements: the
/// first one resolved against `final_url` when it is there and resolves, else
/// `final_url`.
pub open spec fn base_from(hrefs: Seq<Option<Seq<char>>>, final_url: UrlView) -> UrlView {
    if hrefs.len() > 0 && hrefs[0] is Some {
        match joined_url(serialization(final_url), hrefs[0]->0) {
            Some(b) => b,
            None => final_url,
        }
    } else {
        final_url
    }
}

/// The base URL of a page: its final URL, or the `href` of its first
/// `<base href>` element resolved against it when that resolves.
pub open spec fn page_base(html: Seq<char>, final_url: UrlView) -> UrlView {
    base_from(selected_attribute_values(html, "base[href]"@, "href"@), final_url)
}

/// The URLs to crawl from an HTML page: those of its resource tags, then those of
/// its style blocks.
pub open spec fn html_links(html: Seq<char>, final_url: UrlView, root: UrlView) -> Seq<UrlView> {
    let base = page_base(html, final_url);
    tag_links(html, base, root, tag_kinds()) + style_links(
        selected_inner_html(html, "style"@),
        base,
        root,
    )
}

/// Whether two texts are equal.
pub fn same_text(a: &str, b: &str) -> (r: bool)
    ensures
        r == (a@ == b@),
{
    let x = chars_of(a);
    let y = chars_of(b);
    if x.len() != y.len() {
        return false;
    }
    let mut i: usize = 0;
    while i < x.len()
        invariant
            x.len() == y.len(),
            x@ == a@,
            y@ == b@,
            i <= x.len(),
            forall|j: int| 0 <= j < i ==> x@[j] == y@[j],
        decreases x.len() - i,
    {
        if x[i] != y[i] {
            assert(a@[i as int] != b@[i as int]);
            return false;
        }
        i = i + 1;
    }
    assert(x@ =~= y@);
    true
}

/// The kept URLs of a list of texts found in tags: each resolved against `base`
/// without fragment, kept when [`keep_link`] says so.
pub fn links_from_texts(base: &WebUrl, root: &WebUrl, texts: &Vec<Vec<char>>, is_link: bool) -> (r: Vec<WebUrl>)
    ensures
        url_views(r@) == links_from(base@, root@, texts@.map_values(|t: Vec<char>| t@), is_link),
{
    let ghost all = texts@.map_values(|t: Vec<char>| t@);
    let mut out: Vec<WebUrl> = Vec::new();
    let mut i: usize = 0;
    while i < texts.len()
        invariant
            i <= texts.len(),
            all == texts@.map_values(|t: Vec<char>| t@),
            url_views(out@) =~= links_from(base@, root@, all.take(i as int), is_link),
        decreases texts.len() - i,
    {
        assert(all.take(i + 1).drop_last() =~= all.take(i as int));
        assert(all.take(i + 1).last() == texts@[i as int]@);
        let text = string_from_chars(&texts[i]);
        match base.join(text.as_str()) {
            Some(mut next) => {
                next.clear_fragment();
                if next.same_domain(root) && (is_subpath(
                    root.path(),
                    next.path(),
                ) || is_asset(&next, is_link)) {
                    out.push(next);
                }
            },
            None => {},
        }
        assert(url_views(out@) =~= links_from(base@, root@, all.take(i + 1), is_link));
        i = i + 1;
    }
    assert(all.take(texts.len() as int) =~= all);
    out
}

/// The kept URLs of a list of attribute values: the `srcset` candidates of each, or
/// the value itself, resolved and kept as [`links_from_texts`] does.
pub fn links_from_values(base: &WebUrl, root: &WebUrl, values: &Vec<String>, srcset: bool, is_link: bool) -> (r: Vec<WebUrl>)
    ensures
        url_views(r@) == value_links(base@, root@, views(values@), srcset, is_link),
{
    let ghost all = views(values@);
    let mut out: Vec<WebUrl> = Vec::new();
    let mut i: usize = 0;
    while i < values.len()
        invariant
            i <= values.len(),
            all == views(values@),
            url_views(out@) =~= value_links(base@, root@, all.take(i as int), srcset, is_link),
        decreases values.len() - i,
    {
        assert(all.take(i + 1).drop_last() =~= all.take(i as int));
        assert(all.take(i + 1).last() == values@[i as int]@);
        let v = chars_of(values[i].as_str());
        let texts: Vec<Vec<char>> = if srcset {
            srcset_candidates(&v)
        } else {
            let mut one: Vec<Vec<char>> = Vec::new();
            one.push(v);
            one
        };
        assert(texts@.map_values(|t: Vec<char>| t@) =~= value_texts(all[i as int], srcset));
        let mut found = links_from_texts(base, root, &texts, is_link);
        let ghost old_out = out@;
        let ghost f = found@;
        out.append(&mut found);
        assert(url_views(out@) =~= url_views(old_out) + url_views(f)) by {
            assert(out@ =~= old_out + f);
        }
        assert(url_views(out@) =~= value_links(base@, root@, all.take(i + 1), srcset, is_link));
        i = i + 1;
    }
    assert(all.take(values.len() as int) =~= all);
    out
}

/// The base URL of a page whose HTML text is `html`.
pub(crate) fn base_of_page(html: &str, final_url: &WebUrl) -> (r: WebUrl)
    ensures
        r@ == page_base(html@, final_url@),
{
    let hrefs = attribute_values(html, "base[href]", "href");
    base_from_hrefs(&hrefs, final_url)
}

/// The base URL given the `href` values of a page's `<base href>` elements (see
/// [`base_from`]).
pub fn base_from_hrefs(hrefs: &Vec<Option<String>>, final_url: &WebUrl) -> (r: WebUrl)
    ensures
        r@ == base_from(opt_views(hrefs@), final_url@),
{
    if hrefs.len() > 0 {
        assert(opt_views(hrefs@)[0] == opt_view(hrefs@[0]));
        match &hrefs[0] {
            Some(href) => match final_url.join(href.as_str()) {
                Some(b) => b,
                None => final_url.duplicate(),
            },
            None => final_url.duplicate(),
        }
    } else {
        final_url.duplicate()
    }
}

/// The URLs to crawl from the text of an HTML page.
pub fn extract_from_html_text(html: &str, final_url: &WebUrl, root: &WebUrl) -> (r: Vec<WebUrl>)
    ensures
        url_views(r@) == html_links(html@, final_url@, root@),
{
    let base_url = base_of_page(html, final_url);
    let mut out: Vec<WebUrl> = Vec::new();
    let mut k: usize = 0;
    while k < 9
        invariant
            k <= 9,
            base_url@ == page_base(html@, final_url@),
            url_views(out@) =~= tag_links(html@, base_url@, root@, k as nat),
        decreases 9 - k,
    {
        let (sel, attr, is_link) = tag_entry(k);
        let found_values = attribute_values(html, sel, attr);
        let values = present_values(&found_values);
        let srcset = same_text(attr, "srcset");
        let mut found = links_from_values(&base_url, root, &values, srcset, is_link);
        let ghost old_out = out@;
        let ghost f = found@;
        out.append(&mut found);
        assert(url_views(out@) =~= url_views(old_out) + url_views(f)) by {
            assert(out@ =~= old_out + f);
        }
        assert(url_views(out@) =~= tag_links(html@, base_url@, root@, (k + 1) as nat));
        k = k + 1;
    }
    let blocks = inner_html_of(html, "style");
    let ghost bl = views(blocks@);
    let ghost tags = url_views(out@);
    let mut j: usize = 0;
    while j < blocks.len()
        invariant
            j <= blocks.len(),
            bl == views(blocks@),
            bl == selected_inner_html(html@, "style"@),
            url_views(out@) =~= tags + style_links(bl.take(j as int), base_url@, root@),
        decreases blocks.len() - j,
    {
        assert(bl.take(j + 1).drop_last() =~= bl.take(j as int));
        assert(bl.take(j + 1).last() == blocks@[j as int]@);
        let mut found = extract_from_css_text(blocks[j].as_str(), &base_url, root);
        let ghost old_out = out@;
        let ghost f = found@;
        out.append(&mut found);
        assert(url_views(out@) =~= url_views(old_out) + url_views(f)) by {
            assert(out@ =~= old_out + f);
        }
        assert(url_views(out@) =~= tags + style_links(bl.take(j + 1), base_url@, root@));
        j = j + 1;
    }
    assert(bl.take(blocks.len() as int) =~= bl);
    out
}

/// The URLs to crawl from the bytes of an HTML page (decoded leniently as UTF-8).
pub fn extract_from_html(bytes: &[u8], final_url: &WebUrl, root: &WebUrl) -> (r: Vec<WebUrl>)
    ensures
        url_views(r@) == html_links(decoded_lossy(bytes@), final_url@, root@),
{
    let text = utf8_lossy(bytes);
    extract_from_html_text(text.as_str(), final_url, root)
}

/// The URLs to crawl from a fetched page, by its kind.
pub open spec fn page_links(bytes: Seq<u8>, base: UrlView, root: UrlView, is_html: bool, is_css: bool) -> Seq<UrlView> {
    if is_html {
        html_links(decoded_lossy(bytes), base, root)
    } else if is_css {
        css_links(decoded_lossy(bytes), base, root)
    } else {
        Seq::empty()
    }
}

/// The URLs to crawl from a fetched page: from HTML or CSS, none from anything else.
pub fn extract_links(bytes: &[u8], base: &WebUrl, root: &WebUrl, is_html: bool, is_css: bool) -> (r: Vec<WebUrl>)
    ensures
        url_views(r@) == page_links(bytes@, base@, root@, is_html, is_css),
{
    if is_html {
        extract_from_html(bytes, base, root)
    } else if is_css {
        extract_from_css(bytes, base, root)
    } else {
        Vec::new()
    }
}

/// Every URL of the list is on the domain of `root` and carries no fragment.
pub open spec fn on_site(s: Seq<UrlView>, root: UrlView) -> bool {
    forall|k: int| 0 <= k < s.len() ==> (#[trigger] s[k]).domain == root.domain && s[k].fragment is None
}

proof fn lemma_on_site_concat(a: Seq<UrlView>, b: Seq<UrlView>, root: UrlView)
    requires
        on_site(a, root),
        on_site(b, root),
    ensures
        on_site(a + b, root),
{
    assert forall|k: int| 0 <= k < (a + b).len() implies (#[trigger] (a + b)[k]).domain == root.domain
        && (a + b)[k].fragment is None by {
        if k < a.len() {
            assert((a + b)[k] == a[k]);
        } else {
            assert((a + b)[k] == b[k - a.len()]);
        }
    }
}

proof fn lemma_links_from_on_site(base: UrlView, root: UrlView, texts: Seq<Seq<char>>, is_link: bool)
    ensures
        on_site(links_from(base, root, texts, is_link), root),
    decreases texts.len(),
{
    if texts.len() > 0 {
        lemma_links_from_on_site(base, root, texts.drop_last(), is_link);
    }
}

proof fn lemma_value_links_on_site(base: UrlView, root: UrlView, values: Seq<Seq<char>>, srcset: bool, is_link: bool)
    ensures
        on_site(value_links(base, root, values, srcset, is_link), root),
    decreases values.len(),
{
    if values.len() > 0 {
        lemma_value_links_on_site(base, root, values.drop_last(), srcset, is_link);
        lemma_links_from_on_site(base, root, value_texts(values.last(), srcset), is_link);
        lemma_on_site_concat(
            value_links(base, root, values.drop_last(), srcset, is_link),
            links_from(base, root, value_texts(values.last(), srcset), is_link),
            root,
        );
    }
}

proof fn lemma_tag_links_on_site(html: Seq<char>, base: UrlView, root: UrlView, n: nat)
    ensures
        on_site(tag_links(html, base, root, n), root),
    decreases n,
{
    if n > 0 {
        let k = n - 1;
        lemma_tag_links_on_site(html, base, root, (n - 1) as nat);
        lemma_value_links_on_site(
            base,
            root,
            present(selected_attribute_values(html, tag_selector(k), tag_attribute(k))),
            tag_attribute(k) == "srcset"@,
            k == 0,
        );
        lemma_on_site_concat(
            tag_links(html, base, root, (n - 1) as nat),
            value_links(
                base,
                root,
                present(selected_attribute_values(html, tag_selector(k), tag_attribute(k))),
                tag_attribute(k) == "srcset"@,
                k == 0,
            ),
            root,
        );
    }
}

proof fn lemma_css_links_on_site(base: UrlView, root: UrlView, pairs: Seq<(Option<Seq<char>>, Option<Seq<char>>)>)
    ensures
        on_site(css_links_from(base, root, pairs), root),
    decreases pairs.len(),
{
    if pairs.len() > 0 {
        lemma_css_links_on_site(base, root, pairs.drop_last());
    }
}

proof fn lemma_style_links_on_site(blocks: Seq<Seq<char>>, base: UrlView, root: UrlView)
    ensures
        on_site(style_links(blocks, base, root), root),
    decreases blocks.len(),
{
    if blocks.len() > 0 {
        lemma_style_links_on_site(blocks.drop_last(), base, root);
        lemma_css_links_on_site(base, root, regex_group_pairs(css_url_pattern(), blocks.last()));
        lemma_on_site_concat(
            style_links(blocks.drop_last(), base, root),
            css_links(blocks.last(), base, root),
            root,
        );
    }
}

/// The crawler stays on the site: every URL taken from a page, HTML or CSS, is on
/// the domain of the start page and carries no fragment.
pub proof fn law_links_stay_on_site(bytes: Seq<u8>, base: UrlView, root: UrlView, is_html: bool, is_css: bool)
    ensures
        on_site(page_links(bytes, base, root, is_html, is_css), root),
{
    let html = decoded_lossy(bytes);
    let b = page_base(html, base);
    lemma_tag_links_on_site(html, b, root, tag_kinds());
    lemma_style_links_on_site(selected_inner_html(html, "style"@), b, root);
    lemma_on_site_concat(
        tag_links(html, b, root, tag_kinds()),
        style_links(selected_inner_html(html, "style"@), b, root),
        root,
    );
    lemma_css_links_on_site(base, root, regex_group_pairs(css_url_pattern(), html));
}

/// Every kept CSS link comes from a match, and every match whose link is kept
/// is in the list.
proof fn lemma_css_links_from_members(base: UrlView, root: UrlView, pairs: Seq<(Option<Seq<char>>, Option<Seq<char>>)>)
    ensures
        forall|i: int| 0 <= i < pairs.len() && (#[trigger] css_link(base, root, pairs[i])) is Some
            ==> css_links_from(base, root, pairs).contains(css_link(base, root, pairs[i])->0),
        forall|k: int| 0 <= k < css_links_from(base, root, pairs).len() ==> exists|i: int|
            0 <= i < pairs.len() && css_link(base, root, pairs[i]) == Some(
                #[trigger] css_links_from(base, root, pairs)[k],
            ),
    decreases pairs.len(),
{
    if pairs.len() > 0 {
        let init = pairs.drop_last();
        lemma_css_links_from_members(base, root, init);
        let pre = css_links_from(base, root, init);
        let res = css_links_from(base, root, pairs);
        assert forall|i: int| 0 <= i < pairs.len() && (#[trigger] css_link(base, root, pairs[i])) is Some
            implies res.contains(css_link(base, root, pairs[i])->0) by {
            if i < pairs.len() - 1 {
                assert(init[i] == pairs[i]);
                let j = choose|j: int| 0 <= j < pre.len() && pre[j] == css_link(base, root, init[i])->0;
                assert(res[j] == pre[j]);
            } else {
                assert(pairs[i] == pairs.last());
                assert(res[pre.len() as int] == css_link(base, root, pairs[i])->0);
            }
        }
        assert forall|k: int| 0 <= k < res.len() implies exists|i: int|
            0 <= i < pairs.len() && css_link(base, root, pairs[i]) == Some(#[trigger] res[k]) by {
            if k < pre.len() {
                assert(res[k] == pre[k]);
                let i = choose|i: int| 0 <= i < init.len() && css_link(base, root, init[i]) == Some(pre[k]);
                assert(pairs[i] == init[i]);
            } else {
                assert(pairs[pairs.len() - 1] == pairs.last());
            }
        }
    }
}

/// A style sheet's links are kept on the domain alone, with no path condition:
/// for each match of the CSS URL pattern, its URL text (the `url(...)` group, else
/// the `@import` group), resolved against the base and without fragment, is in the
/// list exactly when it resolves and lies on the start page's domain.
pub proof fn law_css_links_kept_on_domain_alone(
    base: UrlView,
    root: UrlView,
    pairs: Seq<(Option<Seq<char>>, Option<Seq<char>>)>,
)
    ensures
        forall|i: int, v: Seq<char>|
            #![trigger pairs[i], joined_url(serialization(base), v)]
            0 <= i < pairs.len() && (pairs[i].0 == Some(v) || (pairs[i].0 is None && pairs[i].1 == Some(v)))
                && joined_url(serialization(base), v) is Some && without_fragment(
                joined_url(serialization(base), v)->0,
            ).domain == root.domain ==> css_links_from(base, root, pairs).contains(
                without_fragment(joined_url(serialization(base), v)->0),
            ),
        forall|k: int| 0 <= k < css_links_from(base, root, pairs).len() ==> exists|i: int, v: Seq<char>|
            #![trigger pairs[i], joined_url(serialization(base), v)]
            0 <= i < pairs.len() && (pairs[i].0 == Some(v) || (pairs[i].0 is None && pairs[i].1 == Some(v)))
                && joined_url(serialization(base), v) is Some
                && #[trigger] css_links_from(base, root, pairs)[k] == without_fragment(
                joined_url(serialization(base), v)->0,
            ) && css_links_from(base, root, pairs)[k].domain == root.domain,
{
    lemma_css_links_from_members(base, root, pairs);
    let res = css_links_from(base, root, pairs);
    assert forall|i: int, v: Seq<char>|
        #![trigger pairs[i], joined_url(serialization(base), v)]
        0 <= i < pairs.len() && (pairs[i].0 == Some(v) || (pairs[i].0 is None && pairs[i].1 == Some(v)))
            && joined_url(serialization(base), v) is Some && without_fragment(
            joined_url(serialization(base), v)->0,
        ).domain == root.domain implies res.contains(
            without_fragment(joined_url(serialization(base), v)->0),
        ) by {
        assert(css_value(pairs[i]) == Some(v));
        assert(css_link(base, root, pairs[i]) is Some);
    }
    assert forall|k: int| 0 <= k < res.len() implies exists|i: int, v: Seq<char>|
        #![trigger pairs[i], joined_url(serialization(base), v)]
        0 <= i < pairs.len() && (pairs[i].0 == Some(v) || (pairs[i].0 is None && pairs[i].1 == Some(v)))
            && joined_url(serialization(base), v) is Some && #[trigger] res[k] == without_fragment(
            joined_url(serialization(base), v)->0,
        ) && res[k].domain == root.domain by {
        let i = choose|i: int| 0 <= i < pairs.len() && css_link(base, root, pairs[i]) == Some(res[k]);
        let v = css_value(pairs[i])->0;
        assert(pairs[i].0 == Some(v) || (pairs[i].0 is None && pairs[i].1 == Some(v)));
        assert(joined_url(serialization(base), v) is Some);
    }
}

/// A style sheet's matches are those of the pattern for `url(...)`, with optional
/// quotes, and `@import "..."`, group 1 and group 2.
pub proof fn law_css_pattern(text: Seq<char>, base: UrlView, root: UrlView)
    ensures
        css_links(text, base, root) == css_links_from(
            base,
            root,
            regex_group_pairs("url\\(\\s*['\"]?([^'\")]*)['\"]?\\s*\\)|@import\\s+['\"]([^'\"]+)['\"]"@, text),
        ),
{
}

/// The URL that `text`, resolved against `base` without fragment, leads to is in
/// `found` when it lies on the start page's domain and, for a plain link, under the
/// root path or with an asset extension (case aside).
pub open spec fn link_kept(base: UrlView, root: UrlView, text: Seq<char>, is_link: bool, found: Seq<UrlView>) -> bool {
    joined_url(serialization(base), text) matches Some(u) ==> {
        let w = without_fragment(u);
        w.domain == root.domain && (is_link ==> subpath_of(root.path, w.path)
            || has_asset_extension_spec(lowercased(w.path))) ==> found.contains(w)
    }
}

/// Every value of attribute `attr` on the elements matching `selector` is read as
/// one URL text and kept by [`link_kept`].
pub open spec fn tag_kind_read(
    html: Seq<char>,
    base: UrlView,
    root: UrlView,
    found: Seq<UrlView>,
    selector: Seq<char>,
    attr: Seq<char>,
    is_link: bool,
) -> bool {
    forall|i: int| 0 <= i < present(selected_attribute_values(html, selector, attr)).len() ==> link_kept(
        base,
        root,
        #[trigger] present(selected_attribute_values(html, selector, attr))[i],
        is_link,
        found,
    )
}

/// Every candidate URL of each `srcset` value on the elements matching `selector`
/// is kept by [`link_kept`] (as a resource, not a plain link).
pub open spec fn srcset_kind_read(html: Seq<char>, base: UrlView, root: UrlView, found: Seq<UrlView>, selector: Seq<char>) -> bool {
    forall|i: int, j: int|
        0 <= i < present(selected_attribute_values(html, selector, "srcset"@)).len() && 0 <= j < srcset_urls(
            present(selected_attribute_values(html, selector, "srcset"@))[i],
        ).len() ==> link_kept(
            base,
            root,
            #[trigger] srcset_urls(#[trigger] present(selected_attribute_values(html, selector, "srcset"@))[i])[j],
            false,
            found,
        )
}

proof fn lemma_contains_concat(a: Seq<UrlView>, b: Seq<UrlView>, x: UrlView)
    ensures
        a.contains(x) ==> (a + b).contains(x),
        b.contains(x) ==> (a + b).contains(x),
{
    if a.contains(x) {
        let i = choose|i: int| 0 <= i < a.len() && a[i] == x;
        assert((a + b)[i] == x);
    }
    if b.contains(x) {
        let i = choose|i: int| 0 <= i < b.len() && b[i] == x;
        assert((a + b)[a.len() + i] == x);
    }
}

proof fn lemma_links_from_has(base: UrlView, root: UrlView, texts: Seq<Seq<char>>, is_link: bool)
    ensures
        forall|j: int| 0 <= j < texts.len() && (#[trigger] tag_link(base, root, texts[j], is_link)) is Some
            ==> links_from(base, root, texts, is_link).contains(tag_link(base, root, texts[j], is_link)->0),
    decreases texts.len(),
{
    if texts.len() > 0 {
        let init = texts.drop_last();
        lemma_links_from_has(base, root, init, is_link);
        let pre = links_from(base, root, init, is_link);
        let res = links_from(base, root, texts, is_link);
        assert forall|j: int| 0 <= j < texts.len() && (#[trigger] tag_link(base, root, texts[j], is_link)) is Some
            implies res.contains(tag_link(base, root, texts[j], is_link)->0) by {
            if j < texts.len() - 1 {
                assert(init[j] == texts[j]);
                let m = choose|m: int| 0 <= m < pre.len() && pre[m] == tag_link(base, root, init[j], is_link)->0;
                assert(res[m] == pre[m]);
            } else {
                assert(texts[j] == texts.last());
                assert(res[pre.len() as int] == tag_link(base, root, texts[j], is_link)->0);
            }
        }
    }
}

proof fn lemma_value_links_has(base: UrlView, root: UrlView, values: Seq<Seq<char>>, srcset: bool, is_link: bool)
    ensures
        forall|i: int, j: int|
            0 <= i < values.len() && 0 <= j < value_texts(values[i], srcset).len()
                && (#[trigger] tag_link(base, root, value_texts(#[trigger] values[i], srcset)[j], is_link)) is Some
                ==> value_links(base, root, values, srcset, is_link).contains(
                tag_link(base, root, value_texts(values[i], srcset)[j], is_link)->0,
            ),
    decreases values.len(),
{
    if values.len() > 0 {
        let init = values.drop_last();
        lemma_value_links_has(base, root, init, srcset, is_link);
        let last_texts = value_texts(values.last(), srcset);
        lemma_links_from_has(base, root, last_texts, is_link);
        let pre = value_links(base, root, init, srcset, is_link);
        let tail = links_from(base, root, last_texts, is_link);
        assert forall|i: int, j: int|
            0 <= i < values.len() && 0 <= j < value_texts(values[i], srcset).len()
                && (#[trigger] tag_link(base, root, value_texts(#[trigger] values[i], srcset)[j], is_link)) is Some
            implies value_links(base, root, values, srcset, is_link).contains(
                tag_link(base, root, value_texts(values[i], srcset)[j], is_link)->0,
            ) by {
            let w = tag_link(base, root, value_texts(values[i], srcset)[j], is_link)->0;
            if i < values.len() - 1 {
                assert(init[i] == values[i]);
                lemma_contains_concat(pre, tail, w);
            } else {
                assert(values[i] == values.last());
                lemma_contains_concat(pre, tail, w);
            }
        }
    }
}

proof fn lemma_tag_links_has(html: Seq<char>, base: UrlView, root: UrlView, n: nat, k: int, w: UrlView)
    requires
        0 <= k < n,
        value_links(
            base,
            root,
            present(selected_attribute_values(html, tag_selector(k), tag_attribute(k))),
            tag_attribute(k) == "srcset"@,
            k == 0,
        ).contains(w),
    ensures
        tag_links(html, base, root, n).contains(w),
    decreases n,
{
    let m = n - 1;
    let cur = value_links(
        base,
        root,
        present(selected_attribute_values(html, tag_selector(m), tag_attribute(m))),
        tag_attribute(m) == "srcset"@,
        m == 0,
    );
    if k < m {
        lemma_tag_links_has(html, base, root, (n - 1) as nat, k, w);
        lemma_contains_concat(tag_links(html, base, root, (n - 1) as nat), cur, w);
    } else {
        lemma_contains_concat(tag_links(html, base, root, (n - 1) as nat), cur, w);
    }
}

proof fn lemma_value_kept(html: Seq<char>, final_url: UrlView, root: UrlView, k: int, i: int, j: int)
    requires
        0 <= k < 9,
        0 <= i < present(selected_attribute_values(html, tag_selector(k), tag_attribute(k))).len(),
        0 <= j < value_texts(
            present(selected_attribute_values(html, tag_selector(k), tag_attribute(k)))[i],
            tag_attribute(k) == "srcset"@,
        ).len(),
    ensures
        link_kept(
            page_base(html, final_url),
            root,
            value_texts(
                present(selected_attribute_values(html, tag_selector(k), tag_attribute(k)))[i],
                tag_attribute(k) == "srcset"@,
            )[j],
            k == 0,
            html_links(html, final_url, root),
        ),
{
    let base = page_base(html, final_url);
    let srcset = tag_attribute(k) == "srcset"@;
    let is_link = k == 0;
    let values = present(selected_attribute_values(html, tag_selector(k), tag_attribute(k)));
    let t = value_texts(values[i], srcset)[j];
    if let Some(u) = joined_url(serialization(base), t) {
        let w = without_fragment(u);
        if w.domain == root.domain && (is_link ==> subpath_of(root.path, w.path)
            || has_asset_extension_spec(lowercased(w.path))) {
            lemma_value_links_has(base, root, values, srcset, is_link);
            assert(tag_link(base, root, t, is_link) == Some(w));
            assert(value_links(base, root, values, srcset, is_link).contains(w));
            lemma_tag_links_has(html, base, root, tag_kinds(), k, w);
            let tags = tag_links(html, base, root, tag_kinds());
            let styles = style_links(selected_inner_html(html, "style"@), base, root);
            lemma_contains_concat(tags, styles, w);
        }
    }
}

proof fn lemma_plain_kind_read(html: Seq<char>, final_url: UrlView, root: UrlView, k: int)
    requires
        0 <= k < 9,
        tag_attribute(k) != "srcset"@,
    ensures
        tag_kind_read(
            html,
            page_base(html, final_url),
            root,
            html_links(html, final_url, root),
            tag_selector(k),
            tag_attribute(k),
            k == 0,
        ),
{
    let values = present(selected_attribute_values(html, tag_selector(k), tag_attribute(k)));
    assert forall|i: int| 0 <= i < values.len() implies link_kept(
        page_base(html, final_url),
        root,
        #[trigger] values[i],
        k == 0,
        html_links(html, final_url, root),
    ) by {
        assert(value_texts(values[i], false)[0] == values[i]);
        lemma_value_kept(html, final_url, root, k, i, 0);
    }
}

proof fn lemma_srcset_kind_read(html: Seq<char>, final_url: UrlView, root: UrlView, k: int)
    requires
        0 <= k < 9,
        tag_attribute(k) == "srcset"@,
        k != 0,
    ensures
        srcset_kind_read(html, page_base(html, final_url), root, html_links(html, final_url, root), tag_selector(k)),
{
    let values = present(selected_attribute_values(html, tag_selector(k), "srcset"@));
    assert forall|i: int, j: int| 0 <= i < values.len() && 0 <= j < srcset_urls(values[i]).len() implies link_kept(
        page_base(html, final_url),
        root,
        #[trigger] srcset_urls(#[trigger] values[i])[j],
        false,
        html_links(html, final_url, root),
    ) by {
        lemma_value_kept(html, final_url, root, k, i, j);
    }
}

/// Each kind of resource tag is read through its own attribute: the URLs of
/// `<a href>` (kept under the root path or as assets), of stylesheet links, scripts,
/// images, `srcset` candidates, icons, frames and embeds (kept on the domain), all
/// resolved against the page base, are among the page's links, and so are those
/// of its `<style>` blocks.
pub proof fn law_resource_tags_are_read(html: Seq<char>, final_url: UrlView, root: UrlView)
    ensures
        tag_kind_read(html, page_base(html, final_url), root, html_links(html, final_url, root),
            "a[href]"@, "href"@, true),
        tag_kind_read(html, page_base(html, final_url), root, html_links(html, final_url, root),
            "link[rel=\"stylesheet\"][href]"@, "href"@, false),
        tag_kind_read(html, page_base(html, final_url), root, html_links(html, final_url, root),
            "script[src]"@, "src"@, false),
        tag_kind_read(html, page_base(html, final_url), root, html_links(html, final_url, root),
            "img[src]"@, "src"@, false),
        srcset_kind_read(html, page_base(html, final_url), root, html_links(html, final_url, root),
            "img[srcset]"@),
        srcset_kind_read(html, page_base(html, final_url), root, html_links(html, final_url, root),
            "source[srcset]"@),
        tag_kind_read(html, page_base(html, final_url), root, html_links(html, final_url, root),
            "link[rel*=\"icon\"]"@, "href"@, false),
        tag_kind_read(html, page_base(html, final_url), root, html_links(html, final_url, root),
            "iframe[src]"@, "src"@, false),
        tag_kind_read(html, page_base(html, final_url), root, html_links(html, final_url, root),
            "embed[src]"@, "src"@, false),
        forall|b: int, k: int|
            0 <= b < selected_inner_html(html, "style"@).len() && 0 <= k < css_links(
                #[trigger] selected_inner_html(html, "style"@)[b],
                page_base(html, final_url),
                root,
            ).len() ==> html_links(html, final_url, root).contains(
                #[trigger] css_links(selected_inner_html(html, "style"@)[b], page_base(html, final_url), root)[k],
            ),
{
    reveal_strlit("href");
    reveal_strlit("src");
    reveal_strlit("srcset");
    assert("href"@ != "srcset"@) by {
        assert("href"@.len() != "srcset"@.len());
    }
    assert(tag_attribute(1) == "href"@ && tag_attribute(6) == "href"@);
    assert(tag_attribute(2) == "src"@ && tag_attribute(3) == "src"@);
    assert(tag_attribute(7) == "src"@ && tag_attribute(8) == "src"@);
    lemma_plain_kind_read(html, final_url, root, 0);
    lemma_plain_kind_read(html, final_url, root, 1);
    lemma_plain_kind_read(html, final_url, root, 2);
    lemma_plain_kind_read(html, final_url, root, 3);
    lemma_srcset_kind_read(html, final_url, root, 4);
    lemma_srcset_kind_read(html, final_url, root, 5);
    lemma_plain_kind_read(html, final_url, root, 6);
    lemma_plain_kind_read(html, final_url, root, 7);
    lemma_plain_kind_read(html, final_url, root, 8);
    let base = page_base(html, final_url);
    let blocks = selected_inner_html(html, "style"@);
    let tags = tag_links(html, base, root, tag_kinds());
    assert forall|b: int, k: int|
        0 <= b < blocks.len() && 0 <= k < css_links(#[trigger] blocks[b], base, root).len()
        implies html_links(html, final_url, root).contains(#[trigger] css_links(blocks[b], base, root)[k]) by {
        let w = css_links(blocks[b], base, root)[k];
        lemma_style_links_has(blocks, base, root, b, k);
        lemma_contains_concat(tags, style_links(blocks, base, root), w);
    }
}

proof fn lemma_style_links_has(blocks: Seq<Seq<char>>, base: UrlView, root: UrlView, b: int, k: int)
    requires
        0 <= b < blocks.len(),
        0 <= k < css_links(blocks[b], base, root).len(),
    ensures
        style_links(blocks, base, root).contains(css_links(blocks[b], base, root)[k]),
    decreases blocks.len(),
{
    let init = blocks.drop_last();
    let w = css_links(blocks[b], base, root)[k];
    let last = css_links(blocks.last(), base, root);
    if b < blocks.len() - 1 {
        assert(init[b] == blocks[b]);
        lemma_style_links_has(init, base, root, b, k);
        lemma_contains_concat(style_links(init, base, root), last, w);
    } else {
        assert(blocks[b] == blocks.last());
        assert(last[k] == w);
        lemma_contains_concat(style_links(init, base, root), last, w);
    }
}

/// A page's base is its final URL, unless its first `<base href>` element has an
/// `href` that resolves against the final URL; then it is that URL.
pub proof fn law_page_base(html: Seq<char>, final_url: UrlView)
    ensures
        selected_attribute_values(html, "base[href]"@, "href"@).len() == 0 ==> page_base(html, final_url)
            == final_url,
        selected_attribute_values(html, "base[href]"@, "href"@).len() > 0 ==> page_base(html, final_url) == (
        match selected_attribute_values(html, "base[href]"@, "href"@)[0] {
            Some(h) => match joined_url(serialization(final_url), h) {
                Some(b) => b,
                None => final_url,
            },
            None => final_url,
        }),
{
}

/// The attribute values read are exactly those present: every element's value
/// that is there is in the list, and every entry of the list is one of them.
pub proof fn law_present_values(s: Seq<Option<Seq<char>>>)
    ensures
        forall|i: int| 0 <= i < s.len() && (#[trigger] s[i]) is Some ==> present(s).contains(s[i]->0),
        forall|k: int| 0 <= k < present(s).len() ==> exists|i: int| 0 <= i < s.len() && s[i] == Some(
            #[trigger] present(s)[k],
        ),
    decreases s.len(),
{
    if s.len() > 0 {
        let init = s.drop_last();
        law_present_values(init);
        let pre = present(init);
        let res = present(s);
        assert forall|i: int| 0 <= i < s.len() && (#[trigger] s[i]) is Some implies res.contains(s[i]->0) by {
            if i < s.len() - 1 {
                assert(init[i] == s[i]);
                let j = choose|j: int| 0 <= j < pre.len() && pre[j] == init[i]->0;
                assert(res[j] == pre[j]);
            } else {
                assert(s[i] == s.last());
                assert(res[pre.len() as int] == s[i]->0);
            }
        }
        assert forall|k: int| 0 <= k < res.len() implies exists|i: int| 0 <= i < s.len() && s[i] == Some(
            #[trigger] res[k],
        ) by {
            if k < pre.len() {
                assert(res[k] == pre[k]);
                let i = choose|i: int| 0 <= i < init.len() && init[i] == Some(pre[k]);
                assert(s[i] == init[i]);
            } else {
                assert(s[s.len() - 1] == s.last());
            }
        }
    }
}

/// Links come from HTML pages and from style sheets (an HTML page is read as HTML
/// even when it is also marked as CSS), both decoded leniently, and from nothing
/// else.
pub proof fn law_page_links_by_kind(bytes: Seq<u8>, base: UrlView, root: UrlView, is_css: bool)
    ensures
        page_links(bytes, base, root, true, is_css) == html_links(decoded_lossy(bytes), base, root),
        page_links(bytes, base, root, false, true) == css_links(decoded_lossy(bytes), base, root),
        page_links(bytes, base, root, false, false) == Seq::<UrlView>::empty(),
{
}

/// A text found in a tag leads to a crawled URL exactly when it resolves against
/// the base and the resolved URL, without fragment, lies on the start page's domain
/// and, for a plain link, under the root path (on a directory boundary) or has an
/// asset extension (case aside); resources other than plain links need only the
/// domain.
pub proof fn law_tag_link_rule(base: UrlView, root: UrlView, text: Seq<char>, is_link: bool)
    ensures
        joined_url(serialization(base), text) is None ==> tag_link(base, root, text, is_link) is None,
        joined_url(serialization(base), text) matches Some(u) ==> tag_link(base, root, text, is_link) == (
        if without_fragment(u).domain == root.domain && (!is_link || subpath_of(
            root.path,
            without_fragment(u).path,
        ) || has_asset_extension_spec(lowercased(without_fragment(u).path))) {
            Some(without_fragment(u))
        } else {
            None
        }),
{
}

} // verus!
