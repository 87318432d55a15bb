//! Scanning text: Unicode whitespace, words, substring search and replacement.
use vstd::prelude::*;
use crate::split::{lemma_split_pieces_lack_separator, split_chars, split_on};
use crate::text::starts_with;

verus! {

/// The Unicode `White_Space` property (`char::is_whitespace`).
pub open spec fn is_space(c: char) -> bool {
    let v = c as u32;
    ||| 0x09 <= v <= 0x0D
    ||| v == 0x20
    ||| v == 0x85
    ||| v == 0xA0
    ||| v == 0x1680
    ||| 0x2000 <= v <= 0x200A
    ||| v == 0x2028
    ||| v == 0x2029
    ||| v == 0x202F
    ||| v == 0x205F
    ||| v == 0x3000
}

/// Whether a character is Unicode whitespace.
pub fn is_space_char(c: char) -> (r: bool)
    ensures
        r == is_space(c),
{
    let v = c as u32;
    (0x09 <= v && v <= 0x0D) || v == 0x20 || v == 0x85 || v == 0xA0 || v == 0x1680 || (0x2000
        <= v && v <= 0x200A) || v == 0x2028 || v == 0x2029 || v == 0x202F || v == 0x205F || v
        == 0x3000
}

/// The longest prefix of `s` without whitespace.
pub open spec fn word_prefix(s: Seq<char>) -> Seq<char>
    decreases s.len(),
{
    if s.len() == 0 || is_space(s[0]) {
        Seq::empty()
    } else {
        seq![s[0]] + word_prefix(s.drop_first())
    }
}

/// The first whitespace-separated word of `s`, if it has one
/// (`s.trim().split_whitespace().next()`).
pub open spec fn first_word(s: Seq<char>) -> Option<Seq<char>>
    decreases s.len(),
{
    if s.len() == 0 {
        None
    } else if is_space(s[0]) {
        first_word(s.drop_first())
    } else {
        Some(word_prefix(s))
    }
}

/// The first word of each part that has one, in order.
pub open spec fn first_words(parts: Seq<Seq<char>>) -> Seq<Seq<char>>
    decreases parts.len(),
{
    if parts.len() == 0 {
        Seq::empty()
    } else {
        match first_word(parts.last()) {
            Some(w) => first_words(parts.drop_last()).push(w),
            None => first_words(parts.drop_last()),
        }
    }
}

/// The image URLs of a `srcset` value: the first word of each comma-separated
/// candidate that has one.
pub open spec fn srcset_urls(value: Seq<char>) -> Seq<Seq<char>> {
    first_words(split_on(value, ','))
}

/// The first word of a text, if it has one.
pub fn first_word_of(s: &Vec<char>) -> (r: Option<Vec<char>>)
    ensures
        match r {
            Some(w) => first_word(s@) == Some(w@),
            None => first_word(s@) is None,
        },
{
    let mut i: usize = 0;
    assert(s@.skip(0) =~= s@);
    while i < s.len() && is_space_char(s[i])
        invariant
            i <= s.len(),
            first_word(s@.skip(i as int)) == first_word(s@),
        decreases s.len() - i,
    {
        assert(s@.skip(i as int).drop_first() =~= s@.skip(i + 1));
        i = i + 1;
    }
    if i == s.len() {
        assert(s@.skip(i as int).len() == 0);
        return None;
    }
    let start = i;
    assert(first_word(s@) == Some(word_prefix(s@.skip(start as int))));
    let mut w: Vec<char> = Vec::new();
    while i < s.len() && !is_space_char(s[i])
        invariant
            start <= i <= s.len(),
            w@ + word_prefix(s@.skip(i as int)) == word_prefix(s@.skip(start as int)),
        decreases s.len() - i,
    {
        assert(s@.skip(i as int).drop_first() =~= s@.skip(i + 1));
        let ghost old_w = w@;
        w.push(s[i]);
        assert(w@ + word_prefix(s@.skip(i + 1)) =~= old_w + word_prefix(s@.skip(i as int)));
        i = i + 1;
    }
    assert(word_prefix(s@.skip(i as int)) =~= Seq::<char>::empty());
    assert(w@ =~= word_prefix(s@.skip(start as int)));
    Some(w)
}

/// The image URLs of a `srcset` attribute value.
pub fn srcset_candidates(value: &Vec<char>) -> (r: Vec<Vec<char>>)
    ensures
        r@.map_values(|w: Vec<char>| w@) == srcset_urls(value@),
{
    let parts = split_chars(value, ',');
    let ghost all = parts@.map_values(|p: Vec<char>| p@);
    let mut out: Vec<Vec<char>> = Vec::new();
    let mut i: usize = 0;
    while i < parts.len()
        invariant
            i <= parts.len(),
            all == parts@.map_values(|p: Vec<char>| p@),
            out@.map_values(|w: Vec<char>| w@) =~= first_words(all.take(i as int)),
        decreases parts.len() - i,
    {
        assert(all.take(i + 1).drop_last() =~= all.take(i as int));
        assert(all.take(i + 1).last() == parts@[i as int]@);
        match first_word_of(&parts[i]) {
            Some(w) => {
                out.push(w);
            },
            None => {},
        }
        assert(out@.map_values(|w: Vec<char>| w@) =~= first_words(all.take(i + 1)));
        i = i + 1;
    }
    assert(all.take(parts.len() as int) =~= all);
    out
}

/// `needle` occurs in `s`.
pub open spec fn contains_seq(s: Seq<char>, needle: Seq<char>) -> bool {
    exists|i: int| 0 <= i <= s.len() - needle.len() && #[trigger] s.subrange(i, i + needle.len())
        == needle
}

/// `needle` occurs in `s` at index `at`.
pub open spec fn occurs_at(s: Seq<char>, needle: Seq<char>, at: int) -> bool {
    0 <= at && at + needle.len() <= s.len() && s.subrange(at, at + needle.len()) == needle
}

/// Whether `needle` occurs in `s` at index `at`.
pub fn matches_at(s: &Vec<char>, needle: &Vec<char>, at: usize) -> (r: bool)
    ensures
        r == occurs_at(s@, needle@, at as int),
{
    if at > s.len() || needle.len() > s.len() - at {
        return false;
    }
    let mut j: usize = 0;
    while j < needle.len()
        invariant
            at + needle.len() <= s.len(),
            j <= needle.len(),
            forall|k: int| 0 <= k < j ==> s@[at + k] == needle@[k],
        decreases needle.len() - j,
    {
        if s[at + j] != needle[j] {
            assert(s@.subrange(at as int, at + needle.len())[j as int] != needle@[j as int]);
            return false;
        }
        j = j + 1;
    }
    assert(s@.subrange(at as int, at + needle.len()) =~= needle@);
    true
}

/// Whether `needle` occurs in `s` (`str::contains`).
pub fn contains_chars(s: &Vec<char>, needle: &Vec<char>) -> (r: bool)
    ensures
        r == contains_seq(s@, needle@),
{
    if needle.len() > s.len() {
        return false;
    }
    if needle.len() == 0 {
        assert(s@.subrange(0int, 0int + needle@.len()) =~= needle@);
        assert(0 <= 0 <= s@.len() - needle@.len());
        return true;
    }
    let mut i: usize = 0;
    while i <= s.len() - needle.len()
        invariant
            0 < needle.len() <= s.len(),
            i <= s.len() - needle.len() + 1,
            forall|k: int| 0 <= k < i ==> !occurs_at(s@, needle@, k),
        decreases s.len() - needle.len() + 1 - i,
    {
        if matches_at(s, needle, i) {
            assert(s@.subrange(i as int, i + needle.len()) == needle@);
            return true;
        }
        i = i + 1;
    }
    assert forall|k: int| 0 <= k <= s@.len() - needle@.len() implies #[trigger] s@.subrange(
        k,
        k + needle@.len(),
    ) != needle@ by {
        assert(!occurs_at(s@, needle@, k));
    }
    false
}

/// `s` with every occurrence of `from` replaced by `to`, matching left to right
/// without overlap (`str::replace` for a non-empty pattern).
pub open spec fn replace_all(s: Seq<char>, from: Seq<char>, to: Seq<char>) -> Seq<char>
    decreases s.len(),
{
    if from.len() == 0 || s.len() < from.len() {
        s
    } else if starts_with(s, from) {
        to + replace_all(s.skip(from.len() as int), from, to)
    } else {
        seq![s[0]] + replace_all(s.drop_first(), from, to)
    }
}

/// Replaces every occurrence of a non-empty pattern.
pub fn replace_chars(s: &Vec<char>, from: &Vec<char>, to: &Vec<char>) -> (r: Vec<char>)
    requires
        from.len() > 0,
    ensures
        r@ == replace_all(s@, from@, to@),
{
    let mut out: Vec<char> = Vec::new();
    let mut i: usize = 0;
    assert(s@.skip(0) =~= s@);
    while i < s.len()
        invariant
            from.len() > 0,
            i <= s.len(),
            out@ + replace_all(s@.skip(i as int), from@, to@) == replace_all(s@, from@, to@),
        decreases s.len() - i,
    {
        let ghost rest = s@.skip(i as int);
        if matches_at(s, from, i) {
            assert(rest.subrange(0, from@.len() as int) =~= s@.subrange(i as int, i + from@.len()));
            assert(rest.skip(from@.len() as int) =~= s@.skip(i + from@.len()));
            let ghost old_out = out@;
            let mut k: usize = 0;
            while k < to.len()
                invariant
                    k <= to.len(),
                    out@ =~= old_out + to@.subrange(0, k as int),
                decreases to.len() - k,
            {
                out.push(to[k]);
                k = k + 1;
            }
            assert(to@.subrange(0, to@.len() as int) =~= to@);
            assert(out@ + replace_all(s@.skip(i + from@.len()), from@, to@) =~= old_out
                + replace_all(rest, from@, to@));
            i = i + from.len();
        } else {
            proof {
                if rest.len() >= from@.len() {
                    assert(rest.subrange(0, from@.len() as int) =~= s@.subrange(
                        i as int,
                        i + from@.len(),
                    ));
                }
            }
            if s.len() - i < from.len() {
                assert(replace_all(rest, from@, to@) == rest);
                let mut k = i;
                let ghost old_out = out@;
                while k < s.len()
                    invariant
                        i <= k <= s.len(),
                        out@ =~= old_out + s@.subrange(i as int, k as int),
                    decreases s.len() - k,
                {
                    out.push(s[k]);
                    k = k + 1;
                }
                assert(s@.subrange(i as int, s@.len() as int) =~= rest);
                assert(s@.skip(s@.len() as int) =~= Seq::<char>::empty());
                i = s.len();
            } else {
                assert(rest.drop_first() =~= s@.skip(i + 1));
                let ghost old_out = out@;
                out.push(s[i]);
                assert(out@ + replace_all(s@.skip(i + 1), from@, to@) =~= old_out + replace_all(
                    rest,
                    from@,
                    to@,
                ));
                i = i + 1;
            }
        }
    }
    assert(s@.skip(i as int) =~= Seq::<char>::empty());
    assert(out@ + Seq::<char>::empty() =~= out@);
    out
}

proof fn lemma_word_prefix_plain(s: Seq<char>)
    ensures
        forall|k: int| 0 <= k < word_prefix(s).len() ==> !is_space(#[trigger] word_prefix(s)[k]) && s.contains(word_prefix(s)[k]),
    decreases s.len(),
{
    if s.len() > 0 && !is_space(s[0]) {
        lemma_word_prefix_plain(s.drop_first());
        let w = word_prefix(s);
        let rest = word_prefix(s.drop_first());
        assert(w == seq![s[0]] + rest);
        assert forall|k: int| 0 <= k < w.len() implies !is_space(#[trigger] w[k]) && s.contains(w[k]) by {
            if k == 0 {
                assert(w[k] == s[0]);
            } else {
                assert(w[k] == rest[k - 1]);
                let j = choose|j: int| 0 <= j < s.drop_first().len() && s.drop_first()[j] == rest[k - 1];
                assert(s[j + 1] == w[k]);
            }
        }
    }
}

proof fn lemma_first_word_plain(s: Seq<char>)
    ensures
        first_word(s) matches Some(w) ==> w.len() > 0 && forall|k: int| 0 <= k < w.len() ==> !is_space(#[trigger] w[k]) && s.contains(w[k]),
    decreases s.len(),
{
    if s.len() > 0 {
        if is_space(s[0]) {
            lemma_first_word_plain(s.drop_first());
            if let Some(w) = first_word(s) {
                assert forall|k: int| 0 <= k < w.len() implies !is_space(#[trigger] w[k]) && s.contains(w[k]) by {
                    let j = choose|j: int| 0 <= j < s.drop_first().len() && s.drop_first()[j] == w[k];
                    assert(s[j + 1] == w[k]);
                }
            }
        } else {
            lemma_word_prefix_plain(s);
            assert(word_prefix(s)[0] == s[0]);
        }
    }
}

proof fn lemma_first_words_plain(parts: Seq<Seq<char>>, sep: char)
    requires
        forall|k: int| 0 <= k < parts.len() ==> !(#[trigger] parts[k]).contains(sep),
    ensures
        forall|k: int| 0 <= k < first_words(parts).len() ==> {
            let w = #[trigger] first_words(parts)[k];
            w.len() > 0 && !w.contains(sep) && forall|i: int| 0 <= i < w.len() ==> !is_space(#[trigger] w[i])
        },
    decreases parts.len(),
{
    if parts.len() > 0 {
        let init = parts.drop_last();
        assert forall|k: int| 0 <= k < init.len() implies !(#[trigger] init[k]).contains(sep) by {
            assert(init[k] == parts[k]);
        }
        lemma_first_words_plain(init, sep);
        lemma_first_word_plain(parts.last());
        assert(parts[parts.len() - 1] == parts.last());
        let r = first_words(parts);
        let pre = first_words(init);
        assert forall|k: int| 0 <= k < r.len() implies {
            let w = #[trigger] r[k];
            w.len() > 0 && !w.contains(sep) && forall|i: int| 0 <= i < w.len() ==> !is_space(#[trigger] w[i])
        } by {
            if k < pre.len() {
                assert(r[k] == pre[k]);
            } else {
                let w = first_word(parts.last()).unwrap();
                assert(r[k] == w);
                assert(!w.contains(sep)) by {
                    if w.contains(sep) {
                        let i = choose|i: int| 0 <= i < w.len() && w[i] == sep;
                        assert(parts.last().contains(w[i]));
                    }
                }
            }
        }
    }
}

/// Every image URL taken from a `srcset` value is non-empty and holds neither
/// whitespace nor a comma.
pub proof fn law_srcset_candidates_are_single_words(value: Seq<char>)
    ensures
        forall|k: int| 0 <= k < srcset_urls(value).len() ==> {
            let w = #[trigger] srcset_urls(value)[k];
            w.len() > 0 && !w.contains(',') && forall|i: int| 0 <= i < w.len() ==> !is_space(#[trigger] w[i])
        },
{
    assert(!Seq::<char>::empty().contains(','));
    lemma_split_pieces_lack_separator(value, ',', Seq::empty());
    lemma_first_words_plain(split_on(value, ','), ',');
}

/// `w` is the first word of `p`: after a run of whitespace at the start of `p`
/// comes `w`, a non-empty run of non-whitespace that ends at whitespace or at the
/// end of `p`.
pub open spec fn leading_word(p: Seq<char>, w: Seq<char>) -> bool {
    exists|n: int|
        #![trigger p.subrange(n, n + w.len())]
        0 <= n && n + w.len() <= p.len() && (forall|j: int| 0 <= j < n ==> is_space(#[trigger] p[j]))
            && p.subrange(n, n + w.len()) == w && (n + w.len() == p.len() || is_space(p[n + w.len()]))
            && w.len() > 0 && (forall|j: int| 0 <= j < w.len() ==> !is_space(#[trigger] w[j]))
}

proof fn lemma_word_prefix_shape(s: Seq<char>)
    ensures
        word_prefix(s).len() <= s.len(),
        s.subrange(0, word_prefix(s).len() as int) == word_prefix(s),
        word_prefix(s).len() == s.len() || is_space(s[word_prefix(s).len() as int]),
        forall|j: int| 0 <= j < word_prefix(s).len() ==> !is_space(#[trigger] word_prefix(s)[j]),
    decreases s.len(),
{
    if s.len() > 0 && !is_space(s[0]) {
        let rest = s.drop_first();
        lemma_word_prefix_shape(rest);
        let w = word_prefix(s);
        assert(w == seq![s[0]] + word_prefix(rest));
        assert(s.subrange(0, w.len() as int) =~= w);
        if w.len() < s.len() {
            assert(s[w.len() as int] == rest[word_prefix(rest).len() as int]);
        }
        assert forall|j: int| 0 <= j < w.len() implies !is_space(#[trigger] w[j]) by {
            if j > 0 {
                assert(w[j] == word_prefix(rest)[j - 1]);
            }
        }
    } else {
        assert(s.subrange(0, 0) =~= word_prefix(s));
    }
}

proof fn lemma_first_word_leads(p: Seq<char>)
    ensures
        first_word(p) matches Some(w) ==> leading_word(p, w),
        first_word(p) is None ==> forall|j: int| 0 <= j < p.len() ==> is_space(#[trigger] p[j]),
    decreases p.len(),
{
    if p.len() > 0 {
        if is_space(p[0]) {
            let rest = p.drop_first();
            lemma_first_word_leads(rest);
            if let Some(w) = first_word(p) {
                let n = choose|n: int|
                    #![trigger rest.subrange(n, n + w.len())]
                    0 <= n && n + w.len() <= rest.len() && (forall|j: int| 0 <= j < n ==> is_space(#[trigger] rest[j]))
                        && rest.subrange(n, n + w.len()) == w && (n + w.len() == rest.len() || is_space(
                        rest[n + w.len()],
                    )) && w.len() > 0 && (forall|j: int| 0 <= j < w.len() ==> !is_space(#[trigger] w[j]));
                assert(p.subrange(n + 1, n + 1 + w.len()) =~= rest.subrange(n, n + w.len()));
                assert forall|j: int| 0 <= j < n + 1 implies is_space(#[trigger] p[j]) by {
                    if j > 0 {
                        assert(p[j] == rest[j - 1]);
                    }
                }
                if n + w.len() < rest.len() {
                    assert(p[n + 1 + w.len()] == rest[n + w.len()]);
                }
            } else {
                assert forall|j: int| 0 <= j < p.len() implies is_space(#[trigger] p[j]) by {
                    if j > 0 {
                        assert(p[j] == rest[j - 1]);
                    }
                }
            }
        } else {
            lemma_word_prefix_shape(p);
            let w = word_prefix(p);
            assert(w.len() > 0) by {
                assert(w == seq![p[0]] + word_prefix(p.drop_first()));
            }
            assert(p.subrange(0int, 0int + w.len()) == w);
        }
    }
}

proof fn lemma_first_words_shape(parts: Seq<Seq<char>>)
    ensures
        forall|k: int| 0 <= k < first_words(parts).len() ==> exists|i: int|
            0 <= i < parts.len() && leading_word(parts[i], #[trigger] first_words(parts)[k]),
        forall|i: int|
            #![trigger parts[i]]
            0 <= i < parts.len() && (exists|j: int| 0 <= j < parts[i].len() && !is_space(#[trigger] parts[i][j]))
            ==> exists|k: int| 0 <= k < first_words(parts).len() && leading_word(parts[i], #[trigger] first_words(parts)[k]),
    decreases parts.len(),
{
    if parts.len() > 0 {
        let init = parts.drop_last();
        lemma_first_words_shape(init);
        lemma_first_word_leads(parts.last());
        let pre = first_words(init);
        let res = first_words(parts);
        assert forall|k: int| 0 <= k < res.len() implies exists|i: int|
            0 <= i < parts.len() && leading_word(parts[i], #[trigger] res[k]) by {
            if k < pre.len() {
                assert(res[k] == pre[k]);
                let i = choose|i: int| 0 <= i < init.len() && leading_word(init[i], pre[k]);
                assert(parts[i] == init[i]);
            } else {
                assert(parts[parts.len() - 1] == parts.last());
            }
        }
        assert forall|i: int|
            #![trigger parts[i]]
            0 <= i < parts.len() && (exists|j: int| 0 <= j < parts[i].len() && !is_space(#[trigger] parts[i][j]))
            implies exists|k: int| 0 <= k < res.len() && leading_word(parts[i], #[trigger] res[k]) by {
            if i < parts.len() - 1 {
                assert(init[i] == parts[i]);
                let j = choose|j: int| 0 <= j < parts[i].len() && !is_space(parts[i][j]);
                assert(!is_space(init[i][j]));
                let k = choose|k: int| 0 <= k < pre.len() && leading_word(init[i], pre[k]);
                assert(res[k] == pre[k]);
            } else {
                assert(parts[i] == parts.last());
                let j = choose|j: int| 0 <= j < parts[i].len() && !is_space(parts[i][j]);
                assert(first_word(parts.last()) is Some);
                assert(res[pre.len() as int] == first_word(parts.last())->0);
            }
        }
    }
}

/// The image URLs of a `srcset` value are the first words of its comma-separated
/// candidates: each URL is the leading word of a candidate, and every candidate
/// holding anything but whitespace gives its leading word.
pub proof fn law_srcset_urls_are_leading_words(value: Seq<char>)
    ensures
        forall|k: int| 0 <= k < srcset_urls(value).len() ==> exists|i: int|
            0 <= i < split_on(value, ',').len() && leading_word(
                split_on(value, ',')[i],
                #[trigger] srcset_urls(value)[k],
            ),
        forall|i: int|
            #![trigger split_on(value, ',')[i]]
            0 <= i < split_on(value, ',').len() && (exists|j: int|
                0 <= j < split_on(value, ',')[i].len() && !is_space(#[trigger] split_on(value, ',')[i][j]))
                ==> exists|k: int|
                0 <= k < srcset_urls(value).len() && leading_word(
                    split_on(value, ',')[i],
                    #[trigger] srcset_urls(value)[k],
                ),
{
    let parts = split_on(value, ',');
    lemma_first_words_shape(parts);
    assert(srcset_urls(value) == first_words(parts));
    assert forall|i: int|
        #![trigger parts[i]]
        0 <= i < parts.len() && (exists|j: int| 0 <= j < parts[i].len() && !is_space(#[trigger] parts[i][j]))
        implies exists|k: int| 0 <= k < srcset_urls(value).len() && leading_word(
            parts[i],
            #[trigger] srcset_urls(value)[k],
        ) by {
        let k = choose|k: int| 0 <= k < first_words(parts).len() && leading_word(parts[i], #[trigger] first_words(parts)[k]);
        assert(srcset_urls(value)[k] == first_words(parts)[k]);
    }
}

} // verus!
