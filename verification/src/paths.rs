//! Path decisions: sub-paths of the crawl root, asset files, normalized URL keys
//! and where a fetched page is stored.
use vstd::prelude::*;
use vstd::string::StringExecFns;
use crate::split::{lemma_split_pieces_lack_separator, nonempty_only, split_chars, split_from, split_on};
use crate::text::{chars_of, ends_with, has_prefix, has_suffix, starts_with, string_from_chars};
use crate::weburl::{
    is_dot_segment, path_segments, serialization, strip_trailing_spaces, url_wf,
    without_fragment, without_query, UrlView, WebUrl,
};

verus! {

broadcast use vstd::string::group_string_axioms;

/// `target` lies under `root`: it equals `root`, or starts with it and the match
/// ends on a directory boundary (`root` ends in `/`, or the character of `target`
/// right after the prefix is `/`).
pub open spec fn subpath_of(root: Seq<char>, target: Seq<char>) -> bool {
    ||| target == root
    ||| starts_with(target, root) && (ends_with(root, seq!['/']) || (root.len() < target.len()
        && target[root.len() as int] == '/'))
}

/// Whether `target_path` is `root_path` or lies below it, so that `/docs/stable`
/// covers `/docs/stable/foo` but not `/docs/stable-other`.
pub fn is_subpath(root_path: &str, target_path: &str) -> (r: bool)
    ensures
        r == subpath_of(root_path@, target_path@),
{
    let root = chars_of(root_path);
    let target = chars_of(target_path);
    let prefixed = has_prefix(&target, &root);
    if root.len() == target.len() && prefixed {
        assert(target@ =~= root@) by {
            assert(target@.subrange(0, root@.len() as int) =~= target@);
        }
        return true;
    }
    proof {
        if target@ == root@ {
            assert(target@.subrange(0, root@.len() as int) =~= target@);
        }
    }
    if !prefixed {
        return false;
    }
    let slash: Vec<char> = vec!['/'];
    assert(slash@ =~= seq!['/']);
    if has_suffix(&root, &slash) {
        return true;
    }
    let n = root.len();
    n < target.len() && target[n] == '/'
}

/// The file extensions that mark a linked file as an asset to download.
pub open spec fn asset_extension(i: int) -> Seq<char> {
    if i == 0 { ".css"@ }
    else if i == 1 { ".js"@ }
    else if i == 2 { ".png"@ }
    else if i == 3 { ".jpg"@ }
    else if i == 4 { ".jpeg"@ }
    else if i == 5 { ".gif"@ }
    else if i == 6 { ".svg"@ }
    else if i == 7 { ".webp"@ }
    else if i == 8 { ".ico"@ }
    else if i == 9 { ".woff"@ }
    else if i == 10 { ".woff2"@ }
    else if i == 11 { ".ttf"@ }
    else if i == 12 { ".otf"@ }
    else if i == 13 { ".pdf"@ }
    else if i == 14 { ".xml"@ }
    else { ".txt"@ }
}

/// The number of asset extensions.
pub open spec fn asset_extension_count() -> int {
    16
}

/// `path` ends with one of the asset extensions.
pub open spec fn has_asset_extension_spec(path: Seq<char>) -> bool {
    exists|i: int| 0 <= i < asset_extension_count() && ends_with(path, #[trigger] asset_extension(i))
}

fn asset_extension_at(i: usize) -> (r: &'static str)
    requires
        i < 16,
    ensures
        r@ == asset_extension(i as int),
{
    if i == 0 { ".css" }
    else if i == 1 { ".js" }
    else if i == 2 { ".png" }
    else if i == 3 { ".jpg" }
    else if i == 4 { ".jpeg" }
    else if i == 5 { ".gif" }
    else if i == 6 { ".svg" }
    else if i == 7 { ".webp" }
    else if i == 8 { ".ico" }
    else if i == 9 { ".woff" }
    else if i == 10 { ".woff2" }
    else if i == 11 { ".ttf" }
    else if i == 12 { ".otf" }
    else if i == 13 { ".pdf" }
    else if i == 14 { ".xml" }
    else { ".txt" }
}

/// Whether an (already lower-cased) path ends in an asset extension.
pub fn has_asset_extension(path: &str) -> (r: bool)
    ensures
        r == has_asset_extension_spec(path@),
{
    let p = chars_of(path);
    let mut i: usize = 0;
    while i < 16
        invariant
            p@ == path@,
            i <= 16,
            forall|j: int| 0 <= j < i ==> !ends_with(path@, #[trigger] asset_extension(j)),
        decreases 16 - i,
    {
        let ext = chars_of(asset_extension_at(i));
        if has_suffix(&p, &ext) {
            return true;
        }
        i = i + 1;
    }
    false
}

/// A path names an asset exactly when it ends in one of `.css`, `.js`, `.png`,
/// `.jpg`, `.jpeg`, `.gif`, `.svg`, `.webp`, `.ico`, `.woff`, `.woff2`, `.ttf`,
/// `.otf`, `.pdf`, `.xml` or `.txt`.
pub proof fn law_asset_extensions(path: Seq<char>)
    ensures
        has_asset_extension_spec(path) <==> {
            ||| ends_with(path, ".css"@)
            ||| ends_with(path, ".js"@)
            ||| ends_with(path, ".png"@)
            ||| ends_with(path, ".jpg"@)
            ||| ends_with(path, ".jpeg"@)
            ||| ends_with(path, ".gif"@)
            ||| ends_with(path, ".svg"@)
            ||| ends_with(path, ".webp"@)
            ||| ends_with(path, ".ico"@)
            ||| ends_with(path, ".woff"@)
            ||| ends_with(path, ".woff2"@)
            ||| ends_with(path, ".ttf"@)
            ||| ends_with(path, ".otf"@)
            ||| ends_with(path, ".pdf"@)
            ||| ends_with(path, ".xml"@)
            ||| ends_with(path, ".txt"@)
        },
{
    assert(asset_extension(0) == ".css"@);
    assert(asset_extension(1) == ".js"@);
    assert(asset_extension(2) == ".png"@);
    assert(asset_extension(3) == ".jpg"@);
    assert(asset_extension(4) == ".jpeg"@);
    assert(asset_extension(5) == ".gif"@);
    assert(asset_extension(6) == ".svg"@);
    assert(asset_extension(7) == ".webp"@);
    assert(asset_extension(8) == ".ico"@);
    assert(asset_extension(9) == ".woff"@);
    assert(asset_extension(10) == ".woff2"@);
    assert(asset_extension(11) == ".ttf"@);
    assert(asset_extension(12) == ".otf"@);
    assert(asset_extension(13) == ".pdf"@);
    assert(asset_extension(14) == ".xml"@);
    assert(asset_extension(15) == ".txt"@);
}

/// What `str::to_lowercase` gives for a text.
pub uninterp spec fn lowercased(s: Seq<char>) -> Seq<char>;

/// Calls `str::to_lowercase` (Unicode lower-casing). Claims only that the result
/// is the one `lowercased` names for the text.
#[verifier::external_body]
fn lowercase_text(s: &str) -> (r: String)
    ensures
        r@ == lowercased(s@),
{
    s.to_lowercase()
}

/// Whether a URL found in a page is fetched as an asset: everything that is not
/// a plain link is, and a link is when its lower-cased path ends in an asset
/// extension.
pub fn is_asset(url: &WebUrl, is_link: bool) -> (r: bool)
    ensures
        r == (!is_link || has_asset_extension_spec(lowercased(url@.path))),
{
    if !is_link {
        return true;
    }
    let lower = lowercase_text(url.path());
    has_asset_extension(lower.as_str())
}

/// `s` without one trailing `/`, if it has one (`String::pop` of a `/`).
pub open spec fn drop_trailing_slash(s: Seq<char>) -> Seq<char> {
    if s.len() > 0 && s.last() == '/' {
        s.drop_last()
    } else {
        s
    }
}

/// The key under which a URL counts as visited: its serialization without query
/// and fragment, less one trailing slash.
pub open spec fn normalized(u: UrlView) -> Seq<char> {
    drop_trailing_slash(serialization(without_query(without_fragment(u))))
}

/// The visited-set key of a URL.
pub fn normalize_url(url: &WebUrl) -> (r: String)
    ensures
        r@ == normalized(url@),
{
    let mut u = url.duplicate();
    u.clear_fragment();
    u.clear_query();
    let s = u.as_text();
    let cs = chars_of(s.as_str());
    if cs.len() > 0 && cs[cs.len() - 1] == '/' {
        let mut out: Vec<char> = Vec::new();
        let mut i: usize = 0;
        while i + 1 < cs.len()
            invariant
                cs.len() > 0,
                i + 1 <= cs.len(),
                out@ =~= cs@.subrange(0, i as int),
            decreases cs.len() - i,
        {
            out.push(cs[i]);
            i = i + 1;
        }
        assert(out@ =~= cs@.drop_last());
        string_from_chars(&out)
    } else {
        s
    }
}

/// `strip_trailing_spaces` is idempotent.
pub proof fn lemma_strip_idempotent(s: Seq<char>)
    ensures
        strip_trailing_spaces(strip_trailing_spaces(s)) == strip_trailing_spaces(s),
    decreases s.len(),
{
    if s.len() > 0 && s.last() == ' ' {
        lemma_strip_idempotent(s.drop_last());
    }
}

/// URLs that differ only in query and fragment have the same visited-set key, so
/// `page#a`, `page?x=1` and `page` are crawled once.
pub proof fn law_normalize_ignores_query_and_fragment(a: UrlView, b: UrlView)
    requires
        a.head == b.head,
        a.path == b.path,
        a.opaque == b.opaque,
    ensures
        normalized(a) == normalized(b),
{
    lemma_strip_idempotent(a.path);
    let na = without_query(without_fragment(a));
    let nb = without_query(without_fragment(b));
    assert(na.path == nb.path);
    assert(serialization(na) =~= serialization(nb));
}

/// A URL and the same URL with `/` added to its path share their visited-set key,
/// whatever their queries and fragments: `docs/guide` and `docs/guide/` are
/// crawled once. Left out are the inputs on which it fails: a URL whose head and
/// path together already end in `/` (an empty path after an empty host, as in
/// `foo://`), and an opaque path with trailing spaces, which dropping the query or
/// fragment strips from one of the two.
pub proof fn law_normalize_ignores_trailing_slash(a: UrlView, b: UrlView)
    requires
        a.head == b.head,
        a.opaque == b.opaque,
        !ends_with(a.head + a.path, seq!['/']),
        b.path == a.path.push('/'),
        a.opaque ==> strip_trailing_spaces(a.path) == a.path,
    ensures
        normalized(a) == normalized(b),
{
    lemma_strip_idempotent(a.path);
    assert(b.path.last() == '/');
    assert(strip_trailing_spaces(b.path) == b.path);
    let na = without_query(without_fragment(a));
    let nb = without_query(without_fragment(b));
    assert(na.path == a.path);
    assert(nb.path == b.path);
    let sa = serialization(na);
    let sb = serialization(nb);
    assert(sa =~= a.head + a.path);
    assert(sb =~= a.head + a.path + seq!['/']);
    assert(sb.drop_last() =~= sa);
    if sa.len() > 0 {
        assert(sa.last() != '/') by {
            if sa.last() == '/' {
                assert(sa.subrange(sa.len() - 1, sa.len() as int) =~= seq!['/']);
            }
        }
    }
}

/// For a URL whose path is not opaque, the visited-set key is its head and path
/// with one trailing slash removed: query and fragment play no part.
pub proof fn law_normalized_is_head_and_path(u: UrlView)
    requires
        !u.opaque,
    ensures
        normalized(u) == drop_trailing_slash(u.head + u.path),
{
    let n = without_query(without_fragment(u));
    assert(serialization(n) =~= u.head + u.path);
}

/// The directories and file under the output directory where a page is stored,
/// before the `index.html` and `.html` rules: the non-empty path segments, or
/// `index.html` for a URL without path segments.
pub open spec fn storage_segments_spec(u: UrlView) -> Seq<Seq<char>> {
    match path_segments(u) {
        Some(segs) => nonempty_only(segs),
        None => seq!["index.html"@],
    }
}

/// A file name has an extension: it is not `..` and holds a `.` after its first
/// character (`std::path::Path::extension` is `Some`).
pub open spec fn has_extension(name: Seq<char>) -> bool {
    name != ".."@ && exists|i: int| 0 < i < name.len() && name[i] == '.'
}

/// The storage path of a page: the storage segments, then `index.html` when the
/// target is a directory or the URL path ends in `/`, then `.html` appended to the
/// last name when the page is HTML and that name has no extension.
pub open spec fn storage_path_spec(u: UrlView, is_html: bool, target_is_dir: bool) -> Seq<Seq<char>> {
    let segs = storage_segments_spec(u);
    let with_index = if target_is_dir || ends_with(u.path, seq!['/']) {
        segs.push("index.html"@)
    } else {
        segs
    };
    if is_html && with_index.len() > 0 && !has_extension(with_index.last()) {
        with_index.update(with_index.len() - 1, with_index.last() + ".html"@)
    } else {
        with_index
    }
}

/// The views of a list of strings.
pub open spec fn views(v: Seq<String>) -> Seq<Seq<char>> {
    v.map_values(|s: String| s@)
}

/// The non-empty path segments of a URL (`index.html` when it has none), the
/// directories and file under the output directory before the final rules.
pub fn storage_segments(url: &WebUrl) -> (r: Vec<String>)
    ensures
        views(r@) == storage_segments_spec(url@),
{
    let p = chars_of(url.path());
    let slash: Vec<char> = vec!['/'];
    assert(slash@ =~= seq!['/']);
    if !has_prefix(&p, &slash) {
        let mut v: Vec<String> = Vec::new();
        v.push(String::from_str("index.html"));
        assert(views(v@) =~= seq!["index.html"@]);
        return v;
    }
    let mut rest: Vec<char> = Vec::new();
    let mut k: usize = 1;
    while k < p.len()
        invariant
            1 <= k <= p.len(),
            rest@ =~= p@.subrange(1, k as int),
        decreases p.len() - k,
    {
        rest.push(p[k]);
        k = k + 1;
    }
    assert(rest@ =~= url@.path.drop_first());
    let pieces = split_chars(&rest, '/');
    let ghost all = pieces@.map_values(|q: Vec<char>| q@);
    let mut out: Vec<String> = Vec::new();
    let mut i: usize = 0;
    while i < pieces.len()
        invariant
            i <= pieces.len(),
            all == pieces@.map_values(|q: Vec<char>| q@),
            views(out@) =~= nonempty_only(all.take(i as int)),
        decreases pieces.len() - i,
    {
        assert(all.take(i + 1).drop_last() =~= all.take(i as int));
        assert(all.take(i + 1).last() == all[i as int]);
        assert(all[i as int] == pieces@[i as int]@);
        if pieces[i].len() > 0 {
            let piece = string_from_chars(&pieces[i]);
            out.push(piece);
        }
        assert(views(out@) =~= nonempty_only(all.take(i + 1)));
        i = i + 1;
    }
    assert(all.take(pieces.len() as int) =~= all);
    out
}

/// Whether a file name has an extension (`std::path::Path::extension` is `Some`).
pub fn name_has_extension(name: &String) -> (r: bool)
    ensures
        r == has_extension(name@),
{
    let cs = chars_of(name.as_str());
    proof {
        reveal_strlit("..");
    }
    if cs.len() == 2 && cs[0] == '.' && cs[1] == '.' {
        assert(name@ =~= ".."@);
        return false;
    }
    assert(name@ != ".."@) by {
        if name@ == ".."@ {
            assert(name@.len() == 2 && name@[0] == '.' && name@[1] == '.');
        }
    }
    let mut i: usize = 1;
    while i < cs.len()
        invariant
            cs@ == name@,
            name@ != ".."@,
            1 <= i <= cs.len() || (cs.len() == 0 && i == 1),
            forall|j: int| 0 < j < i && j < cs.len() ==> cs@[j] != '.',
        decreases cs.len() + 1 - i,
    {
        if cs[i] == '.' {
            assert(0 < i < name@.len() && name@[i as int] == '.');
            return true;
        }
        i = i + 1;
    }
    false
}

/// Where a page is stored under the output directory: the non-empty path
/// segments, `index.html` added when the target is a directory or the URL path
/// ends in `/`, and `.html` added to an HTML page's file name without extension.
/// Every name is a plain step down, so the page stays under the output directory.
pub fn get_storage_path(url: &WebUrl, is_html: bool, target_is_dir: bool) -> (r: Vec<String>)
    ensures
        views(r@) == storage_path_spec(url@, is_html, target_is_dir),
        plain_names(views(r@)),
{
    proof {
        use_type_invariant(url);
        law_storage_names_are_plain(url@, is_html, target_is_dir);
    }
    let mut segs = storage_segments(url);
    let p = chars_of(url.path());
    let slash: Vec<char> = vec!['/'];
    assert(slash@ =~= seq!['/']);
    let ghost before = views(segs@);
    if target_is_dir || has_suffix(&p, &slash) {
        segs.push(String::from_str("index.html"));
        assert(views(segs@) =~= before.push("index.html"@));
    }
    let ghost with_index = views(segs@);
    let n = segs.len();
    if is_html && n > 0 {
        if !name_has_extension(&segs[n - 1]) {
            let mut last = segs[n - 1].clone();
            last.append(".html");
            segs.set(n - 1, last);
            assert(views(segs@) =~= with_index.update(n - 1, with_index.last() + ".html"@));
        }
    }
    segs
}

/// A path lies under itself, and a path under the root starts with the root; a
/// root ending in `/` covers every path that starts with it.
pub proof fn law_subpath_basics(root: Seq<char>, target: Seq<char>)
    ensures
        subpath_of(root, root),
        subpath_of(root, target) ==> starts_with(target, root),
        starts_with(target, root) && ends_with(root, seq!['/']) ==> subpath_of(root, target),
{
    assert(root.subrange(0, root.len() as int) =~= root);
}

/// A prefix that does not end in `/` covers a longer path only when the character
/// right after it is `/`: `/docs/stable` covers `/docs/stable/foo` but not
/// `/docs/stable-other`.
pub proof fn law_subpath_needs_separator(root: Seq<char>, target: Seq<char>)
    requires
        starts_with(target, root),
        target != root,
        !ends_with(root, seq!['/']),
    ensures
        subpath_of(root, target) <==> target[root.len() as int] == '/',
{
    if target.len() == root.len() {
        assert(target =~= target.subrange(0, root.len() as int));
    }
}

proof fn lemma_nonempty_only_keeps(s: Seq<Seq<char>>)
    ensures
        forall|k: int| 0 <= k < nonempty_only(s).len() ==> (#[trigger] nonempty_only(s)[k]).len() > 0
            && s.contains(nonempty_only(s)[k]),
    decreases s.len(),
{
    if s.len() > 0 {
        lemma_nonempty_only_keeps(s.drop_last());
        let r = nonempty_only(s.drop_last());
        assert forall|k: int| 0 <= k < nonempty_only(s).len() implies (#[trigger] nonempty_only(s)[k]).len() > 0
            && s.contains(nonempty_only(s)[k]) by {
            if k < r.len() {
                assert(nonempty_only(s)[k] == r[k]);
                let j = choose|j: int| 0 <= j < s.drop_last().len() && s.drop_last()[j] == r[k];
                assert(s[j] == r[k]);
            } else {
                assert(nonempty_only(s)[k] == s.last());
                assert(s[s.len() - 1] == s.last());
            }
        }
    }
}

/// A name that stays where it is put: non-empty, without `/`, and neither `.`
/// nor `..`.
pub open spec fn plain_name(n: Seq<char>) -> bool {
    n.len() > 0 && !n.contains('/') && !is_dot_segment(n)
}

/// Every name of a list is plain.
pub open spec fn plain_names(names: Seq<Seq<char>>) -> bool {
    forall|k: int| 0 <= k < names.len() ==> plain_name(#[trigger] names[k])
}

/// `index.html` is a plain name.
proof fn lemma_index_html_plain()
    ensures
        plain_name("index.html"@),
{
    reveal_strlit("index.html");
    reveal_strlit(".");
    reveal_strlit("..");
    assert(!"index.html"@.contains('/')) by {
        if "index.html"@.contains('/') {
            let j = choose|j: int| 0 <= j < "index.html"@.len() && "index.html"@[j] == '/';
        }
    }
}

/// A stored page never leaves the output directory: every name of the storage
/// path of a well-formed URL is non-empty, holds no `/`, and is neither `.` nor
/// `..`, so each is one plain step down.
pub proof fn law_storage_names_are_plain(u: UrlView, is_html: bool, target_is_dir: bool)
    requires
        url_wf(u),
    ensures
        plain_names(storage_path_spec(u, is_html, target_is_dir)),
{
    reveal_strlit(".html");
    reveal_strlit(".");
    reveal_strlit("..");
    lemma_index_html_plain();
    let segs = storage_segments_spec(u);
    assert forall|k: int| 0 <= k < segs.len() implies plain_name(#[trigger] segs[k]) by {
        match path_segments(u) {
            Some(pieces) => {
                assert(!Seq::<char>::empty().contains('/'));
                lemma_split_pieces_lack_separator(u.path.drop_first(), '/', Seq::empty());
                lemma_nonempty_only_keeps(pieces);
                let j = choose|j: int| 0 <= j < pieces.len() && pieces[j] == segs[k];
                assert(!pieces[j].contains('/'));
                assert(!is_dot_segment(pieces[j]));
            },
            None => {
                assert(segs[k] == "index.html"@);
            },
        }
    }
    let with_index = if target_is_dir || ends_with(u.path, seq!['/']) {
        segs.push("index.html"@)
    } else {
        segs
    };
    assert forall|k: int| 0 <= k < with_index.len() implies plain_name(#[trigger] with_index[k]) by {
        if k == segs.len() {
            assert(with_index[k] == "index.html"@);
        } else {
            assert(with_index[k] == segs[k]);
        }
    }
    let r = storage_path_spec(u, is_html, target_is_dir);
    assert forall|k: int| 0 <= k < r.len() implies plain_name(#[trigger] r[k]) by {
        if is_html && with_index.len() > 0 && !has_extension(with_index.last()) && k == with_index.len() - 1 {
            let last = with_index.last();
            let name = last + ".html"@;
            assert(with_index[with_index.len() - 1] == last);
            assert(plain_name(last));
            assert(r[k] == name);
            assert(name.len() >= 5);
            assert(!name.contains('/')) by {
                if name.contains('/') {
                    let j = choose|j: int| 0 <= j < name.len() && name[j] == '/';
                    if j < last.len() {
                        assert(last[j] == '/');
                        assert(last.contains('/'));
                    } else {
                        assert(".html"@[j - last.len()] == '/');
                    }
                }
            }
        } else {
            assert(r[k] == with_index[k]);
        }
    }
}

/// The last piece of a split is non-empty when the text does not end in the
/// separator.
proof fn lemma_split_last_piece(s: Seq<char>, sep: char, cur: Seq<char>)
    requires
        (s.len() > 0 && s.last() != sep) || (s.len() == 0 && cur.len() > 0),
    ensures
        split_from(s, sep, cur).len() > 0,
        split_from(s, sep, cur).last().len() > 0,
    decreases s.len(),
{
    if s.len() > 0 {
        let rest = s.drop_first();
        if s[0] == sep {
            assert(rest.len() > 0) by {
                if rest.len() == 0 {
                    assert(s.last() == s[0]);
                }
            }
            assert(rest.last() == s.last());
            lemma_split_last_piece(rest, sep, Seq::empty());
            assert((seq![cur] + split_from(rest, sep, Seq::empty())).last() == split_from(rest, sep, Seq::empty()).last());
        } else {
            if rest.len() > 0 {
                assert(rest.last() == s.last());
            }
            lemma_split_last_piece(rest, sep, cur.push(s[0]));
        }
    }
}

/// A stored page always has a file name; a URL whose path ends in `/`, or whose
/// place is an existing directory, is stored as `index.html` there; an HTML page's
/// file name always has an extension (a `.` after its first character), `.html`
/// when the URL gave it none; and every name before the last is a non-empty
/// segment of the URL path.
pub proof fn law_storage_path_rules(u: UrlView, is_html: bool, target_is_dir: bool)
    ensures
        storage_path_spec(u, is_html, target_is_dir).len() > 0,
        target_is_dir || ends_with(u.path, seq!['/']) ==> storage_path_spec(u, is_html, target_is_dir).last()
            == "index.html"@,
        is_html ==> exists|i: int|
            0 < i < storage_path_spec(u, is_html, target_is_dir).last().len()
                && #[trigger] storage_path_spec(u, is_html, target_is_dir).last()[i] == '.',
        forall|k: int| 0 <= k < storage_path_spec(u, is_html, target_is_dir).len() - 1 ==> (path_segments(u)
            matches Some(segs) ==> segs.contains(#[trigger] storage_path_spec(u, is_html, target_is_dir)[k]))
            && storage_path_spec(u, is_html, target_is_dir)[k].len() > 0,
{
    reveal_strlit("index.html");
    reveal_strlit(".html");
    reveal_strlit("..");
    let segs = storage_segments_spec(u);
    let with_index = if target_is_dir || ends_with(u.path, seq!['/']) {
        segs.push("index.html"@)
    } else {
        segs
    };
    let r = storage_path_spec(u, is_html, target_is_dir);
    if path_segments(u) is Some {
        lemma_nonempty_only_keeps(path_segments(u)->0);
        if !ends_with(u.path, seq!['/']) {
            let p = u.path.drop_first();
            assert(u.path.subrange(0, 1) == seq!['/']);
            assert(u.path.len() > 1) by {
                if u.path.len() == 1 {
                    assert(u.path.subrange(0, 1) =~= u.path);
                }
            }
            assert(p.last() == u.path.last());
            assert(p.last() != '/') by {
                if p.last() == '/' {
                    assert(u.path.subrange(u.path.len() - 1, u.path.len() as int) =~= seq!['/']);
                }
            }
            lemma_split_last_piece(p, '/', Seq::empty());
            assert(segs.len() > 0);
        }
    }
    assert(with_index.len() > 0);
    if is_html {
        let last = with_index.last();
        if !has_extension(last) {
            let name = last + ".html"@;
            assert(r.last() == name);
            assert(name[last.len() as int] == '.');
            assert(last.len() > 0) by {
                if with_index.len() == segs.len() + 1 && (target_is_dir || ends_with(u.path, seq!['/'])) {
                    assert(last == "index.html"@);
                } else {
                    assert(last == segs.last());
                    assert(segs[segs.len() - 1] == segs.last());
                    match path_segments(u) {
                        Some(pieces) => {},
                        None => {},
                    }
                }
            }
        } else {
            assert(r.last() == last);
        }
    }
    if target_is_dir || ends_with(u.path, seq!['/']) {
        assert("index.html"@[5] == '.');
        assert("index.html"@.len() == 10 && ".."@.len() == 2);
        assert(has_extension("index.html"@));
    }
    assert forall|k: int| 0 <= k < r.len() - 1 implies (path_segments(u) matches Some(pieces)
        ==> pieces.contains(#[trigger] r[k])) && r[k].len() > 0 by {
        assert(r[k] == with_index[k]);
        assert(k < segs.len());
        assert(with_index[k] == segs[k]);
        match path_segments(u) {
            Some(pieces) => {
                lemma_nonempty_only_keeps(pieces);
            },
            None => {
                assert(segs[k] == "index.html"@);
                assert("index.html"@.len() == 10);
            },
        }
    }
}

} // verus!
