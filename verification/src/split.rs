//! Splitting text on a separator character, as `str::split(char)` does.
use vstd::prelude::*;

verus! {

/// The pieces of `s` between occurrences of `sep`, the current piece starting as
/// `cur`; empty pieces are kept, and there is always one more piece than separators.
pub open spec fn split_from(s: Seq<char>, sep: char, cur: Seq<char>) -> Seq<Seq<char>>
    decreases s.len(),
{
    if s.len() == 0 {
        seq![cur]
    } else if s[0] == sep {
        seq![cur] + split_from(s.drop_first(), sep, Seq::empty())
    } else {
        split_from(s.drop_first(), sep, cur.push(s[0]))
    }
}

/// `str::split(sep)` on `s`.
pub open spec fn split_on(s: Seq<char>, sep: char) -> Seq<Seq<char>> {
    split_from(s, sep, Seq::empty())
}

/// Splits on a separator.
pub fn split_chars(s: &Vec<char>, sep: char) -> (r: Vec<Vec<char>>)
    ensures
        r@.map_values(|p: Vec<char>| p@) == split_on(s@, sep),
{
    let mut out: Vec<Vec<char>> = Vec::new();
    let mut cur: Vec<char> = Vec::new();
    let mut i: usize = 0;
    assert(s@.skip(0) =~= s@);
    assert(out@.map_values(|p: Vec<char>| p@) =~= Seq::<Seq<char>>::empty());
    assert(cur@ =~= Seq::<char>::empty());
    while i < s.len()
        invariant
            i <= s.len(),
            out@.map_values(|p: Vec<char>| p@) + split_from(s@.skip(i as int), sep, cur@)
                == split_on(s@, sep),
        decreases s.len() - i,
    {
        let ghost rest = s@.skip(i as int);
        assert(rest.drop_first() =~= s@.skip(i + 1));
        if s[i] == sep {
            let ghost old_out = out@;
            let ghost old_cur = cur@;
            out.push(cur);
            cur = Vec::new();
            assert(out@.map_values(|p: Vec<char>| p@) =~= old_out.map_values(|p: Vec<char>| p@)
                + seq![old_cur]);
            assert(cur@ =~= Seq::<char>::empty());
        } else {
            cur.push(s[i]);
        }
        i = i + 1;
    }
    assert(s@.skip(i as int) =~= Seq::<char>::empty());
    let ghost old_out = out@;
    let ghost old_cur = cur@;
    out.push(cur);
    assert(out@.map_values(|p: Vec<char>| p@) =~= old_out.map_values(|p: Vec<char>| p@) + seq![
        old_cur]);
    out
}

/// The non-empty strings of `s`, in order.
pub open spec fn nonempty_only(s: Seq<Seq<char>>) -> Seq<Seq<char>>
    decreases s.len(),
{
    if s.len() == 0 {
        s
    } else if s.last().len() > 0 {
        nonempty_only(s.drop_last()).push(s.last())
    } else {
        nonempty_only(s.drop_last())
    }
}

/// No piece of a split holds the separator.
pub proof fn lemma_split_pieces_lack_separator(s: Seq<char>, sep: char, cur: Seq<char>)
    requires
        !cur.contains(sep),
    ensures
        forall|k: int| 0 <= k < split_from(s, sep, cur).len() ==> !(#[trigger] split_from(s, sep, cur)[k]).contains(sep),
    decreases s.len(),
{
    let whole = split_from(s, sep, cur);
    if s.len() == 0 {
        assert(whole =~= seq![cur]);
        assert forall|k: int| 0 <= k < whole.len() implies !(#[trigger] whole[k]).contains(sep) by {
            assert(whole[k] == cur);
        }
    } else if s[0] == sep {
        assert(!Seq::<char>::empty().contains(sep));
        lemma_split_pieces_lack_separator(s.drop_first(), sep, Seq::empty());
        let rest = split_from(s.drop_first(), sep, Seq::empty());
        assert(whole == seq![cur] + rest);
        assert forall|k: int| 0 <= k < whole.len() implies !(#[trigger] whole[k]).contains(sep) by {
            if k > 0 {
                assert(whole[k] == rest[k - 1]);
            } else {
                assert(whole[k] == cur);
            }
        }
    } else {
        let next = cur.push(s[0]);
        assert(!next.contains(sep)) by {
            if next.contains(sep) {
                let j = choose|j: int| 0 <= j < next.len() && next[j] == sep;
                if j < cur.len() {
                    assert(cur[j] == sep);
                }
            }
        }
        lemma_split_pieces_lack_separator(s.drop_first(), sep, next);
        assert(whole == split_from(s.drop_first(), sep, next));
    }
}

} // verus!
