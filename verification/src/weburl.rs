//! URLs as plain values: the parts of a parsed `url::Url` that the crawler reads.
use vstd::prelude::*;
use vstd::string::StringExecFns;
use crate::split::split_on;
use crate::text::starts_with;

verus! {

/// The mathematical model of a [`WebUrl`]: its serialization split at the path,
/// query and fragment, its domain, and whether its path is opaque
/// (a cannot-be-a-base URL such as `mailto:x`).
pub struct UrlView {
    pub head: Seq<char>,
    pub path: Seq<char>,
    pub query: Option<Seq<char>>,
    pub fragment: Option<Seq<char>>,
    pub domain: Option<Seq<char>>,
    pub opaque: bool,
}

/// A parsed URL held as plain strings.
///
/// Every value is well formed ([`url_wf`]), as `url::Url` keeps its URLs.
///
/// `head` is the serialization up to the path (`scheme://user@host:port`),
/// `path`, `query` and `fragment` are the components as `url::Url` reports them,
/// `domain` is the host when it is a domain name (not an IP address).
pub struct WebUrl {
    pub(crate) head: String,
    pub(crate) path: String,
    pub(crate) query: Option<String>,
    pub(crate) fragment: Option<String>,
    pub(crate) domain: Option<String>,
    pub(crate) opaque: bool,
}

impl View for WebUrl {
    type V = UrlView;

    closed spec fn view(&self) -> UrlView {
        UrlView {
            head: self.head@,
            path: self.path@,
            query: opt_view(self.query),
            fragment: opt_view(self.fragment),
            domain: opt_view(self.domain),
            opaque: self.opaque,
        }
    }
}

/// `url::Url::path_segments`: `None` unless the path starts with `/`, else the
/// path after that `/` split on `/`.
pub open spec fn path_segments(u: UrlView) -> Option<Seq<Seq<char>>> {
    if starts_with(u.path, seq!['/']) {
        Some(split_on(u.path.drop_first(), '/'))
    } else {
        None
    }
}

/// A path segment that names the current or the parent directory.
pub open spec fn is_dot_segment(s: Seq<char>) -> bool {
    s == "."@ || s == ".."@
}

/// A URL as `url::Url` keeps it: an opaque path does not start with `/` (the URL
/// is opaque exactly because nothing after `scheme:` starts with `/`), and no path
/// segment is `.` or `..` (the path parser resolves them, in percent-encoded form
/// too).
pub open spec fn url_wf(u: UrlView) -> bool {
    &&& (u.opaque ==> !starts_with(u.path, seq!['/']))
    &&& (path_segments(u) matches Some(segs) ==> forall|k: int|
        0 <= k < segs.len() ==> !is_dot_segment(#[trigger] segs[k]))
}

impl WebUrl {
    /// Every URL is well formed.
    #[verifier::type_invariant]
    pub open spec fn inv(self) -> bool {
        url_wf(self@)
    }
}

/// The view of an optional string.
pub open spec fn opt_view(o: Option<String>) -> Option<Seq<char>> {
    match o {
        Some(s) => Some(s@),
        None => None,
    }
}

/// The view of an optional URL.
pub open spec fn opt_url_view(o: Option<WebUrl>) -> Option<UrlView> {
    match o {
        Some(u) => Some(u@),
        None => None,
    }
}

/// `c` followed by `s`, or nothing.
pub open spec fn tagged(c: char, o: Option<Seq<char>>) -> Seq<char> {
    match o {
        Some(s) => seq![c] + s,
        None => Seq::empty(),
    }
}

/// The full serialization of a URL: head, path, `?query`, `#fragment`.
pub open spec fn serialization(u: UrlView) -> Seq<char> {
    u.head + u.path + tagged('?', u.query) + tagged('#', u.fragment)
}

/// `s` without its trailing spaces.
pub open spec fn strip_trailing_spaces(s: Seq<char>) -> Seq<char>
    decreases s.len(),
{
    if s.len() > 0 && s.last() == ' ' {
        strip_trailing_spaces(s.drop_last())
    } else {
        s
    }
}

/// Stripping trailing spaces keeps a prefix of the text, so a path that does not
/// start with `/` still does not.
pub proof fn lemma_strip_keeps_start(s: Seq<char>)
    ensures
        strip_trailing_spaces(s).len() <= s.len(),
        strip_trailing_spaces(s) == s.subrange(0, strip_trailing_spaces(s).len() as int),
        !starts_with(s, seq!['/']) ==> !starts_with(strip_trailing_spaces(s), seq!['/']),
    decreases s.len(),
{
    let t = strip_trailing_spaces(s);
    if s.len() > 0 && s.last() == ' ' {
        lemma_strip_keeps_start(s.drop_last());
        assert(t == strip_trailing_spaces(s.drop_last()));
        assert(s.drop_last().subrange(0, t.len() as int) =~= s.subrange(0, t.len() as int));
    } else {
        assert(s =~= s.subrange(0, s.len() as int));
    }
    if starts_with(t, seq!['/']) {
        assert(t.subrange(0, 1)[0] == '/');
        assert(t[0] == '/');
        assert(s[0] == t[0]);
        assert(s.subrange(0, 1) =~= seq!['/']);
    }
}

/// The URL after `url::Url::set_fragment(None)`: the fragment goes, and an opaque
/// path that now ends the serialization loses its trailing spaces.
pub open spec fn without_fragment(u: UrlView) -> UrlView {
    UrlView {
        fragment: None,
        path: if u.opaque && u.query is None {
            strip_trailing_spaces(u.path)
        } else {
            u.path
        },
        ..u
    }
}

/// The URL after `url::Url::set_query(None)`: the query goes, and an opaque path
/// that now ends the serialization loses its trailing spaces.
pub open spec fn without_query(u: UrlView) -> UrlView {
    UrlView {
        query: None,
        path: if u.opaque && u.fragment is None {
            strip_trailing_spaces(u.path)
        } else {
            u.path
        },
        ..u
    }
}

/// What `url::Url::parse` gives for a text, as plain values (`None` on a parse error).
pub uninterp spec fn parsed_url(text: Seq<char>) -> Option<UrlView>;

/// What `url::Url::join` gives for the URL serialized as `base` and the input
/// `input` (`None` when `base` does not parse or the join fails).
pub uninterp spec fn joined_url(base: Seq<char>, input: Seq<char>) -> Option<UrlView>;

/// The URL serialized as `text` after `url::Url::set_path(path)` (`None` when
/// `text` does not parse).
pub uninterp spec fn url_with_path(text: Seq<char>, path: Seq<char>) -> Option<UrlView>;

/// Calls `url::Url::parse` and keeps its parts as plain strings. Claims that the
/// result is the one `parsed_url` names for the text, and that it is well formed
/// (`url_wf`): the path parser drops `.` and `..` segments, and a URL is
/// cannot-be-a-base exactly when nothing after `scheme:` starts with `/`.
#[verifier::external_body]
fn url_parse_text(text: &str) -> (r: Option<WebUrl>)
    ensures
        opt_url_view(r) == parsed_url(text@),
        r matches Some(u) ==> url_wf(u@),
{
    match url::Url::parse(text) {
        Ok(u) => Some(WebUrl {
            head: u[..url::Position::BeforePath].to_string(),
            path: u.path().to_string(),
            query: u.query().map(str::to_string),
            fragment: u.fragment().map(str::to_string),
            domain: u.domain().map(str::to_string),
            opaque: u.cannot_be_a_base(),
        }),
        Err(_) => None,
    }
}

/// Calls `url::Url::join` on the URL serialized as `base` (parsed by
/// `url::Url::parse`, which gives back the same URL for its own serialization).
/// Claims that the result is the one `joined_url` names, and that it is well formed
/// (`url_wf`), as every URL the parser builds is.
#[verifier::external_body]
fn url_join_text(base: &str, input: &str) -> (r: Option<WebUrl>)
    ensures
        opt_url_view(r) == joined_url(base@, input@),
        r matches Some(u) ==> url_wf(u@),
{
    let joined = match url::Url::parse(base) {
        Ok(b) => b.join(input),
        Err(e) => Err(e),
    };
    match joined {
        Ok(u) => Some(WebUrl {
            head: u[..url::Position::BeforePath].to_string(),
            path: u.path().to_string(),
            query: u.query().map(str::to_string),
            fragment: u.fragment().map(str::to_string),
            domain: u.domain().map(str::to_string),
            opaque: u.cannot_be_a_base(),
        }),
        Err(_) => None,
    }
}

/// Calls `url::Url::set_path` on the URL serialized as `text`. Claims that the
/// result is the one `url_with_path` names, and that it is well formed (`url_wf`):
/// the new path goes through the path parser, or, for a cannot-be-a-base URL, is
/// kept from starting with `/` (a leading `/` becomes `%2F`).
#[verifier::external_body]
fn url_set_path_text(text: &str, path: &str) -> (r: Option<WebUrl>)
    ensures
        opt_url_view(r) == url_with_path(text@, path@),
        r matches Some(u) ==> url_wf(u@),
{
    match url::Url::parse(text) {
        Ok(mut u) => {
            u.set_path(path);
            Some(WebUrl {
                head: u[..url::Position::BeforePath].to_string(),
                path: u.path().to_string(),
                query: u.query().map(str::to_string),
                fragment: u.fragment().map(str::to_string),
                domain: u.domain().map(str::to_string),
                opaque: u.cannot_be_a_base(),
            })
        },
        Err(_) => None,
    }
}

/// Parses a URL text.
pub fn parse_url(text: &str) -> (r: Option<WebUrl>)
    ensures
        opt_url_view(r) == parsed_url(text@),
{
    url_parse_text(text)
}

/// A copy of an optional string.
pub fn copy_opt(o: &Option<String>) -> (r: Option<String>)
    ensures
        opt_view(r) == opt_view(*o),
{
    match o {
        Some(s) => Some(s.clone()),
        None => None,
    }
}

/// `s` without its trailing spaces.
pub fn strip_spaces_at_end(s: &String) -> (r: String)
    ensures
        r@ == strip_trailing_spaces(s@),
{
    let cs = crate::text::chars_of(s.as_str());
    let mut n: usize = cs.len();
    assert(cs@.subrange(0, n as int) =~= s@);
    while n > 0 && cs[n - 1] == ' '
        invariant
            n <= cs.len(),
            strip_trailing_spaces(cs@.subrange(0, n as int)) == strip_trailing_spaces(s@),
        decreases n,
    {
        assert(cs@.subrange(0, n as int).drop_last() =~= cs@.subrange(0, n - 1));
        n = n - 1;
    }
    let mut out: Vec<char> = Vec::new();
    let mut i: usize = 0;
    while i < n
        invariant
            n <= cs.len(),
            i <= n,
            out@ =~= cs@.subrange(0, i as int),
        decreases n - i,
    {
        out.push(cs[i]);
        i = i + 1;
    }
    proof {
        let t = cs@.subrange(0, n as int);
        assert(t.len() == 0 || t.last() != ' ');
        assert(strip_trailing_spaces(t) == t);
    }
    crate::text::string_from_chars(&out)
}

impl WebUrl {
    /// A copy of this URL.
    pub fn duplicate(&self) -> (r: WebUrl)
        ensures
            r@ == self@,
    {
        proof {
            use_type_invariant(self);
        }
        WebUrl {
            head: self.head.clone(),
            path: self.path.clone(),
            query: copy_opt(&self.query),
            fragment: copy_opt(&self.fragment),
            domain: copy_opt(&self.domain),
            opaque: self.opaque,
        }
    }

    /// The serialization of this URL (`url::Url::as_str`).
    pub fn as_text(&self) -> (r: String)
        ensures
            r@ == serialization(self@),
    {
        let mut s = String::from_str(self.head.as_str());
        s.append(self.path.as_str());
        match &self.query {
            Some(q) => {
                s.append("?");
                s.append(q.as_str());
            },
            None => {},
        }
        match &self.fragment {
            Some(f) => {
                s.append("#");
                s.append(f.as_str());
            },
            None => {},
        }
        proof {
            reveal_strlit("?");
            reveal_strlit("#");
        }
        assert(s@ =~= serialization(self@));
        s
    }

    /// Drops the fragment, as `url::Url::set_fragment(None)` does.
    pub fn clear_fragment(&mut self)
        ensures
            final(self)@ == without_fragment(old(self)@),
    {
        proof {
            use_type_invariant(&*self);
        }
        self.fragment = None;
        if self.opaque && self.query.is_none() {
            let stripped = strip_spaces_at_end(&self.path);
            proof {
                lemma_strip_keeps_start(self.path@);
            }
            self.path = stripped;
        }
    }

    /// Drops the query, as `url::Url::set_query(None)` does.
    pub fn clear_query(&mut self)
        ensures
            final(self)@ == without_query(old(self)@),
    {
        proof {
            use_type_invariant(&*self);
        }
        self.query = None;
        if self.opaque && self.fragment.is_none() {
            let stripped = strip_spaces_at_end(&self.path);
            proof {
                lemma_strip_keeps_start(self.path@);
            }
            self.path = stripped;
        }
    }

    /// Resolves `input` against this URL (`url::Url::join`).
    pub fn join(&self, input: &str) -> (r: Option<WebUrl>)
        ensures
            opt_url_view(r) == joined_url(serialization(self@), input@),
    {
        let base = self.as_text();
        url_join_text(base.as_str(), input)
    }

    /// The serialization up to the path (`scheme://user@host:port`).
    pub fn head(&self) -> (r: &str)
        ensures
            r@ == self@.head,
    {
        self.head.as_str()
    }

    /// The path (`url::Url::path`).
    pub fn path(&self) -> (r: &str)
        ensures
            r@ == self@.path,
    {
        self.path.as_str()
    }

    /// The query, if any (`url::Url::query`).
    pub fn query(&self) -> (r: Option<&str>)
        ensures
            r matches Some(q) ==> self@.query == Some(q@),
            r is None ==> self@.query is None,
    {
        match &self.query {
            Some(q) => Some(q.as_str()),
            None => None,
        }
    }

    /// The fragment, if any (`url::Url::fragment`).
    pub fn fragment(&self) -> (r: Option<&str>)
        ensures
            r matches Some(f) ==> self@.fragment == Some(f@),
            r is None ==> self@.fragment is None,
    {
        match &self.fragment {
            Some(f) => Some(f.as_str()),
            None => None,
        }
    }

    /// The host when it is a domain name (`url::Url::domain`).
    pub fn domain(&self) -> (r: Option<&str>)
        ensures
            r matches Some(d) ==> self@.domain == Some(d@),
            r is None ==> self@.domain is None,
    {
        match &self.domain {
            Some(d) => Some(d.as_str()),
            None => None,
        }
    }

    /// Whether the path is opaque (`url::Url::cannot_be_a_base`).
    pub fn is_opaque(&self) -> (r: bool)
        ensures
            r == self@.opaque,
    {
        self.opaque
    }

    /// Whether this URL has the same domain as `other` (both without one counts as
    /// the same).
    pub fn same_domain(&self, other: &WebUrl) -> (r: bool)
        ensures
            r == (self@.domain == other@.domain),
    {
        match (&self.domain, &other.domain) {
            (Some(x), Some(y)) => *x == *y,
            (None, None) => true,
            _ => false,
        }
    }

    /// This URL with its path replaced (`url::Url::set_path`).
    pub fn with_path(&self, path: &str) -> (r: Option<WebUrl>)
        ensures
            opt_url_view(r) == url_with_path(serialization(self@), path@),
    {
        let text = self.as_text();
        url_set_path_text(text.as_str(), path)
    }
}

} // verus!
