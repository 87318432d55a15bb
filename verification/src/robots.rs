//! robots.txt: where it lives, and whether it lets the crawler fetch a URL.
use vstd::prelude::*;
use crate::text::chars_of;
use crate::weburl::{
    opt_url_view, serialization, url_with_path, without_fragment, without_query, UrlView,
    WebUrl,
};

verus! {

broadcast use vstd::string::group_string_axioms;

/// The user agent the crawler matches robots.txt rules for.
pub open spec fn crawler_agent() -> Seq<char> {
    "rust-crawler"@
}

/// The byte count of a line at which the robots.txt parser stops keeping
/// characters and skips the rest of the line.
pub open spec fn robots_line_limit() -> nat {
    16663
}

/// The length of a character in UTF-8.
pub open spec fn utf8_len(c: char) -> nat {
    if (c as u32) < 0x80 {
        1
    } else if (c as u32) < 0x800 {
        2
    } else if (c as u32) < 0x10000 {
        3
    } else {
        4
    }
}

/// The byte offset in UTF-8 of character `i` of `s` (the length of its first `i`
/// characters).
pub open spec fn byte_offset(s: Seq<char>, i: int) -> nat
    decreases i,
{
    if i <= 0 {
        0
    } else {
        byte_offset(s, i - 1) + utf8_len(s[i - 1])
    }
}

/// A byte offset at which a character of `s` starts, or its end.
pub open spec fn char_boundary(s: Seq<char>, pos: int) -> bool {
    exists|i: int| 0 <= i <= s.len() && byte_offset(s, i) == pos
}

/// The byte-order-mark characters the parser drops at the start of a body, as it
/// compares each character's code with the bytes `EF BB BF`.
pub open spec fn bom_char(k: nat) -> char {
    if k == 0 {
        '\u{EF}'
    } else if k == 1 {
        '\u{BB}'
    } else {
        '\u{BF}'
    }
}

/// The robots.txt parser's position while it walks a body: how many
/// byte-order-mark characters it has matched, the byte range `start..end` of the
/// current line, how many characters of that line it skipped past the line limit,
/// and whether the last line ended in a carriage return.
pub struct LineScan {
    pub bom: nat,
    pub start: nat,
    pub end: nat,
    pub skip: nat,
    pub last_cr: bool,
}

/// The character is a dropped byte-order-mark character.
pub open spec fn is_bom_step(c: char, st: LineScan) -> bool {
    st.bom < 3 && c == bom_char(st.bom)
}

/// The character ends a line and the parser reads the line `start..end` there (a
/// line feed right after a carriage return that ended an empty line reads none).
pub open spec fn reads_line_at(c: char, st: LineScan) -> bool {
    &&& !is_bom_step(c, st)
    &&& (c == '\n' || c == '\r')
    &&& !(st.end == st.start && st.last_cr && c == '\n')
}

/// The parser's position after one more character. A character kept on a line
/// moves the line end by its width; a skipped one moves nothing, and the line's
/// skipped characters count one byte each when the next line starts.
pub open spec fn scan_step(c: char, st: LineScan) -> LineScan {
    if is_bom_step(c, st) {
        LineScan { bom: st.bom + 1, start: st.start + utf8_len(c), end: st.end + utf8_len(c), ..st }
    } else if c != '\n' && c != '\r' {
        if st.end - st.start < robots_line_limit() {
            LineScan { bom: 3, end: st.end + utf8_len(c), ..st }
        } else {
            LineScan { bom: 3, skip: st.skip + 1, ..st }
        }
    } else {
        LineScan {
            bom: 3,
            start: st.end + st.skip + utf8_len(c),
            end: st.end + st.skip + utf8_len(c),
            skip: 0,
            last_cr: c == '\r',
        }
    }
}

/// Slicing `body` at `start..end` succeeds.
pub open spec fn slice_fits(body: Seq<char>, st: LineScan) -> bool {
    st.start <= st.end && char_boundary(body, st.start as int) && char_boundary(body, st.end as int)
}

/// From character `i` on, with the parser at `st`, every line the parser slices
/// out of the body, the last one included, lies on character boundaries.
pub open spec fn slices_fit_from(body: Seq<char>, i: int, st: LineScan) -> bool
    decreases body.len() - i,
{
    if i >= body.len() {
        slice_fits(body, st)
    } else {
        &&& (reads_line_at(body[i], st) ==> slice_fits(body, st))
        &&& slices_fit_from(body, i + 1, scan_step(body[i], st))
    }
}

/// A robots.txt body the matcher reads without failing: every line the parser
/// slices out of it lies on character boundaries. (The parser counts each
/// character it skips on an over-long line as one byte, so after a wider one its
/// slices can start inside a character.)
pub open spec fn robots_body_readable(body: Seq<char>) -> bool {
    slices_fit_from(body, 0, LineScan { bom: 0, start: 0, end: 0, skip: 0, last_cr: false })
}

fn char_utf8_len(c: char) -> (r: u128)
    ensures
        r == utf8_len(c),
{
    let v = c as u32;
    if v < 0x80 {
        1
    } else if v < 0x800 {
        2
    } else if v < 0x10000 {
        3
    } else {
        4
    }
}

/// Byte offsets grow with every character.
proof fn lemma_byte_offset_grows(s: Seq<char>, i: int, j: int)
    requires
        0 <= i < j,
    ensures
        byte_offset(s, i) < byte_offset(s, j),
        byte_offset(s, j) <= 4 * j,
    decreases j,
{
    if j > i + 1 {
        lemma_byte_offset_grows(s, i, j - 1);
    } else if j > 1 {
        lemma_byte_offset_grows(s, 0, j - 1);
    }
}

/// The byte offsets of `s`, from 0 to its full length.
fn byte_offsets(cs: &Vec<char>) -> (r: Vec<u128>)
    ensures
        r.len() == cs.len() + 1,
        forall|i: int| 0 <= i <= cs.len() ==> r@[i] == byte_offset(cs@, i),
{
    let mut r: Vec<u128> = Vec::new();
    let mut acc: u128 = 0;
    r.push(0);
    let mut i: usize = 0;
    while i < cs.len()
        invariant
            i <= cs.len(),
            r.len() == i + 1,
            acc == byte_offset(cs@, i as int),
            acc <= 4 * i,
            forall|k: int| 0 <= k <= i ==> r@[k] == byte_offset(cs@, k),
        decreases cs.len() - i,
    {
        acc = acc + char_utf8_len(cs[i]);
        r.push(acc);
        i = i + 1;
    }
    r
}

/// Whether `pos` is one of the byte offsets of `cs` (binary search).
fn is_boundary(cs: &Vec<char>, offsets: &Vec<u128>, pos: u128) -> (r: bool)
    requires
        offsets.len() == cs.len() + 1,
        forall|i: int| 0 <= i <= cs.len() ==> offsets@[i] == byte_offset(cs@, i),
    ensures
        r == char_boundary(cs@, pos as int),
{
    let mut lo: usize = 0;
    let mut hi: usize = offsets.len();
    while lo < hi
        invariant
            offsets.len() == cs.len() + 1,
            forall|i: int| 0 <= i <= cs.len() ==> offsets@[i] == byte_offset(cs@, i),
            0 <= lo <= hi <= offsets.len(),
            forall|i: int| 0 <= i < lo ==> byte_offset(cs@, i) < pos,
            forall|i: int| hi <= i <= cs.len() ==> byte_offset(cs@, i) > pos,
        decreases hi - lo,
    {
        let mid = lo + (hi - lo) / 2;
        let v = offsets[mid];
        if v == pos {
            return true;
        } else if v < pos {
            proof {
                assert forall|i: int| 0 <= i < mid + 1 implies byte_offset(cs@, i) < pos by {
                    if i < mid {
                        lemma_byte_offset_grows(cs@, i, mid as int);
                    }
                }
            }
            lo = mid + 1;
        } else {
            proof {
                assert forall|i: int| mid <= i <= cs.len() implies byte_offset(cs@, i) > pos by {
                    if i > mid {
                        lemma_byte_offset_grows(cs@, mid as int, i);
                    }
                }
            }
            hi = mid;
        }
    }
    false
}

/// Whether the robots.txt matcher can read a body (see [`robots_body_readable`]).
pub fn robots_body_is_readable(body: &str) -> (r: bool)
    ensures
        r == robots_body_readable(body@),
{
    let cs = chars_of(body);
    let offsets = byte_offsets(&cs);
    let limit: u128 = 16663;
    let mut bom: u128 = 0;
    let mut start: u128 = 0;
    let mut end: u128 = 0;
    let mut skip: u128 = 0;
    let mut last_cr = false;
    let mut i: usize = 0;
    while i < cs.len()
        invariant
            i <= cs.len(),
            cs@ == body@,
            offsets.len() == cs.len() + 1,
            forall|k: int| 0 <= k <= cs.len() ==> offsets@[k] == byte_offset(cs@, k),
            limit == robots_line_limit(),
            bom <= 3,
            start <= end,
            end + skip <= 5 * i,
            robots_body_readable(body@) == slices_fit_from(
                cs@,
                i as int,
                LineScan { bom: bom as nat, start: start as nat, end: end as nat, skip: skip as nat, last_cr },
            ),
        decreases cs.len() - i,
    {
        let c = cs[i];
        let ghost st = LineScan { bom: bom as nat, start: start as nat, end: end as nat, skip: skip as nat, last_cr };
        let w = char_utf8_len(c);
        let bom_c: char = if bom == 0 { '\u{EF}' } else if bom == 1 { '\u{BB}' } else { '\u{BF}' };
        if bom < 3 && c == bom_c {
            assert(is_bom_step(c, st));
            bom = bom + 1;
            start = start + w;
            end = end + w;
        } else {
            assert(!is_bom_step(c, st));
            bom = 3;
            if c != '\n' && c != '\r' {
                if end - start < limit {
                    end = end + w;
                } else {
                    skip = skip + 1;
                }
            } else {
                let crlf = end == start && last_cr && c == '\n';
                if !crlf {
                    let ok = is_boundary(&cs, &offsets, start) && is_boundary(&cs, &offsets, end);
                    if !ok {
                        return false;
                    }
                }
                end = end + skip + w;
                start = end;
                skip = 0;
                last_cr = c == '\r';
            }
        }
        i = i + 1;
    }
    is_boundary(&cs, &offsets, start) && is_boundary(&cs, &offsets, end)
}

/// What `robotstxt::DefaultMatcher::allowed_by_robots` answers for a robots.txt
/// body, one user agent and a URL.
pub uninterp spec fn robots_allowed(body: Seq<char>, agent: Seq<char>, url: Seq<char>) -> bool;

/// Calls `robotstxt::DefaultMatcher::allowed_by_robots` with a fresh matcher and a
/// single user agent. Claims only that the answer is the one `robots_allowed` names;
/// it asks for a body whose every line slice falls on character boundaries, the
/// bodies on which the parser does not panic.
#[verifier::external_body]
fn matcher_allows(body: &str, agent: &str, url: &str) -> (r: bool)
    requires
        robots_body_readable(body@),
    ensures
        r == robots_allowed(body@, agent@, url@),
{
    let mut matcher = robotstxt::DefaultMatcher::default();
    matcher.allowed_by_robots(body, vec![agent], url)
}

/// Whether robots.txt lets the crawler fetch `url`: an empty robots.txt allows
/// everything, otherwise the matcher decides for the agent `rust-crawler`.
pub fn allowed_by_robots(robots_content: &str, url: &WebUrl) -> (r: bool)
    requires
        robots_body_readable(robots_content@),
    ensures
        r == (robots_content@.len() == 0 || robots_allowed(
            robots_content@,
            crawler_agent(),
            serialization(url@),
        )),
{
    if robots_content.is_empty() {
        return true;
    }
    let text = url.as_text();
    matcher_allows(robots_content, "rust-crawler", text.as_str())
}

/// Where a site's robots.txt lives.
pub open spec fn robots_location(root: UrlView) -> Option<UrlView> {
    match url_with_path(serialization(root), "/robots.txt"@) {
        Some(u) => Some(without_fragment(without_query(u))),
        None => None,
    }
}

/// The URL of the robots.txt for the site of `root`: its path set to
/// `/robots.txt`, without query and fragment.
pub fn robots_txt_url(root: &WebUrl) -> (r: Option<WebUrl>)
    ensures
        opt_url_view(r) == robots_location(root@),
{
    match root.with_path("/robots.txt") {
        Some(mut u) => {
            u.clear_query();
            u.clear_fragment();
            Some(u)
        },
        None => None,
    }
}

} // verus!
