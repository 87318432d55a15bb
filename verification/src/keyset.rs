//! A set of text keys, kept as a sorted list without repeats.
use vstd::prelude::*;
use crate::paths::views;
use crate::text::chars_of;

verus! {

/// `a` comes strictly before `b` in lexicographic order of code points.
pub open spec fn lex_lt(a: Seq<char>, b: Seq<char>) -> bool
    decreases a.len(),
{
    if a.len() == 0 {
        b.len() > 0
    } else if b.len() == 0 {
        false
    } else if (a[0] as int) < (b[0] as int) {
        true
    } else if (a[0] as int) > (b[0] as int) {
        false
    } else {
        lex_lt(a.drop_first(), b.drop_first())
    }
}

/// No text comes before itself.
pub proof fn lemma_lex_irreflexive(a: Seq<char>)
    ensures
        !lex_lt(a, a),
    decreases a.len(),
{
    if a.len() > 0 {
        lemma_lex_irreflexive(a.drop_first());
    }
}

/// The order is transitive.
pub proof fn lemma_lex_transitive(a: Seq<char>, b: Seq<char>, c: Seq<char>)
    requires
        lex_lt(a, b),
        lex_lt(b, c),
    ensures
        lex_lt(a, c),
    decreases a.len(),
{
    if a.len() > 0 && b.len() > 0 && c.len() > 0 {
        if (a[0] as int) == (b[0] as int) && (b[0] as int) == (c[0] as int) {
            lemma_lex_transitive(a.drop_first(), b.drop_first(), c.drop_first());
        }
    }
}

/// Two different texts are ordered one way or the other.
pub proof fn lemma_lex_total(a: Seq<char>, b: Seq<char>)
    requires
        a != b,
    ensures
        lex_lt(a, b) || lex_lt(b, a),
    decreases a.len(),
{
    if a.len() > 0 && b.len() > 0 && (a[0] as int) == (b[0] as int) {
        assert(a[0] == b[0]);
        if a.drop_first() == b.drop_first() {
            assert(a =~= seq![a[0]] + a.drop_first());
            assert(b =~= seq![b[0]] + b.drop_first());
        }
        lemma_lex_total(a.drop_first(), b.drop_first());
    } else if a.len() == 0 && b.len() == 0 {
        assert(a =~= b);
    }
}

/// Compares two texts: `-1`, `0` or `1` as `a` comes before, equals or comes after `b`.
pub fn compare_keys(a: &Vec<char>, b: &Vec<char>) -> (r: i8)
    ensures
        r == -1 <==> lex_lt(a@, b@),
        r == 0 <==> a@ == b@,
        r == 1 <==> lex_lt(b@, a@),
        r == -1 || r == 0 || r == 1,
{
    let mut i: usize = 0;
    proof {
        assert(a@.skip(0) =~= a@);
        assert(b@.skip(0) =~= b@);
    }
    while i < a.len() && i < b.len() && a[i] == b[i]
        invariant
            i <= a.len(),
            i <= b.len(),
            a@.subrange(0, i as int) == b@.subrange(0, i as int),
            lex_lt(a@, b@) == lex_lt(a@.skip(i as int), b@.skip(i as int)),
            lex_lt(b@, a@) == lex_lt(b@.skip(i as int), a@.skip(i as int)),
        decreases a.len() - i,
    {
        assert(a@.skip(i as int).drop_first() =~= a@.skip(i + 1));
        assert(b@.skip(i as int).drop_first() =~= b@.skip(i + 1));
        assert(a@.subrange(0, i + 1) =~= a@.subrange(0, i as int).push(a@[i as int]));
        assert(b@.subrange(0, i + 1) =~= b@.subrange(0, i as int).push(b@[i as int]));
        i = i + 1;
    }
    proof {
        lemma_lex_irreflexive(a@);
    }
    if i == a.len() && i == b.len() {
        assert(a@ =~= a@.subrange(0, i as int));
        assert(b@ =~= b@.subrange(0, i as int));
        return 0;
    }
    if i == a.len() {
        assert(a@.skip(i as int).len() == 0);
        assert(a@ != b@);
        return -1;
    }
    if i == b.len() {
        assert(b@.skip(i as int).len() == 0);
        assert(a@ != b@);
        return 1;
    }
    assert(a@.skip(i as int)[0] == a@[i as int]);
    assert(b@.skip(i as int)[0] == b@[i as int]);
    assert(a@ != b@) by {
        if a@ == b@ {
            assert(a@[i as int] == b@[i as int]);
        }
    }
    if a[i] < b[i] {
        -1
    } else {
        1
    }
}

/// The keys are sorted and without repeats.
pub open spec fn strictly_sorted(s: Seq<Seq<char>>) -> bool {
    forall|i: int, j: int| 0 <= i < j < s.len() ==> lex_lt(#[trigger] s[i], #[trigger] s[j])
}

/// A set of text keys (a sorted list without repeats).
pub struct KeySet {
    keys: Vec<String>,
}

impl KeySet {
    /// The keys, in order.
    pub closed spec fn list(&self) -> Seq<Seq<char>> {
        views(self.keys@)
    }

    /// The keys as a set.
    pub closed spec fn set_view(&self) -> Set<Seq<char>> {
        self.list().to_set()
    }

    /// The list is sorted without repeats.
    pub closed spec fn wf(&self) -> bool {
        strictly_sorted(self.list())
    }

    /// An empty set.
    pub fn new() -> (r: KeySet)
        ensures
            r.wf(),
            r.set_view() == Set::<Seq<char>>::empty(),
    {
        let r = KeySet { keys: Vec::new() };
        assert(r.list() =~= Seq::<Seq<char>>::empty());
        assert(r.set_view() =~= Set::<Seq<char>>::empty());
        r
    }

    /// The number of keys.
    pub fn len(&self) -> (r: usize)
        requires
            self.wf(),
        ensures
            r == self.set_view().len(),
    {
        proof {
            self.lemma_no_repeats();
            self.list().unique_seq_to_set();
        }
        self.keys.len()
    }

    proof fn lemma_no_repeats(&self)
        requires
            self.wf(),
        ensures
            self.list().no_duplicates(),
    {
        assert forall|i: int, j: int|
            0 <= i < self.list().len() && 0 <= j < self.list().len() && i != j implies self.list()[i]
            != self.list()[j] by {
            if i < j {
                lemma_lex_irreflexive(self.list()[i]);
            } else {
                lemma_lex_irreflexive(self.list()[j]);
            }
        }
    }

    /// The first position whose key does not come before `key`.
    fn position(&self, key: &Vec<char>) -> (r: usize)
        requires
            self.wf(),
        ensures
            r <= self.list().len(),
            forall|i: int| 0 <= i < r ==> lex_lt(#[trigger] self.list()[i], key@),
            forall|i: int| r <= i < self.list().len() ==> !lex_lt(#[trigger] self.list()[i], key@),
    {
        let mut lo: usize = 0;
        let mut hi: usize = self.keys.len();
        while lo < hi
            invariant
                self.wf(),
                lo <= hi <= self.list().len(),
                hi == self.keys.len() || hi < self.keys.len(),
                self.list().len() == self.keys@.len(),
                forall|i: int| 0 <= i < lo ==> lex_lt(#[trigger] self.list()[i], key@),
                forall|i: int| hi <= i < self.list().len() ==> !lex_lt(#[trigger] self.list()[i], key@),
            decreases hi - lo,
        {
            let mid = lo + (hi - lo) / 2;
            let k = chars_of(self.keys[mid].as_str());
            assert(k@ == self.list()[mid as int]);
            if compare_keys(&k, key) == -1 {
                assert forall|i: int| 0 <= i < mid + 1 implies lex_lt(#[trigger] self.list()[i], key@) by {
                    if i < mid {
                        lemma_lex_transitive(self.list()[i], self.list()[mid as int], key@);
                    }
                }
                lo = mid + 1;
            } else {
                assert forall|i: int| mid <= i < self.list().len() implies !lex_lt(#[trigger] self.list()[i], key@) by {
                    if i > mid && lex_lt(self.list()[i], key@) {
                        lemma_lex_transitive(self.list()[mid as int], self.list()[i], key@);
                        if k@ == key@ {
                            lemma_lex_irreflexive(key@);
                        }
                    }
                    if i > mid && k@ == key@ && lex_lt(self.list()[i], key@) {
                        lemma_lex_transitive(key@, self.list()[i], key@);
                        lemma_lex_irreflexive(key@);
                    }
                }
                hi = mid;
            }
        }
        lo
    }

    /// Whether `key` is in the set.
    pub fn contains(&self, key: &String) -> (r: bool)
        requires
            self.wf(),
        ensures
            r == self.set_view().contains(key@),
    {
        let k = chars_of(key.as_str());
        let p = self.position(&k);
        if p < self.keys.len() {
            let at = chars_of(self.keys[p].as_str());
            if compare_keys(&at, &k) == 0 {
                assert(self.list()[p as int] == key@);
                return true;
            }
            proof {
                assert(at@ == self.list()[p as int]);
                lemma_lex_total(self.list()[p as int], key@);
            }
        }
        assert forall|i: int| 0 <= i < self.list().len() implies self.list()[i] != key@ by {
            if i < p {
                lemma_lex_irreflexive(key@);
            } else if i > p {
                lemma_lex_total(self.list()[p as int], key@);
                lemma_lex_transitive(key@, self.list()[p as int], self.list()[i]);
                lemma_lex_irreflexive(key@);
            }
        }
        false
    }

    /// Adds `key`; answers whether it was new (`HashSet::insert`).
    pub fn insert(&mut self, key: String) -> (r: bool)
        requires
            old(self).wf(),
        ensures
            final(self).wf(),
            r == !old(self).set_view().contains(key@),
            final(self).set_view() == old(self).set_view().insert(key@),
    {
        let k = chars_of(key.as_str());
        let p = self.position(&k);
        if p < self.keys.len() {
            let at = chars_of(self.keys[p].as_str());
            if compare_keys(&at, &k) == 0 {
                assert(self.list()[p as int] == key@);
                assert(self.set_view().insert(key@) =~= self.set_view());
                return false;
            }
            proof {
                lemma_lex_total(self.list()[p as int], key@);
            }
        }
        let ghost old_list = self.list();
        proof {
            assert forall|i: int| 0 <= i < old_list.len() implies old_list[i] != key@ by {
                if i < p {
                    lemma_lex_irreflexive(key@);
                } else if i > p {
                    lemma_lex_total(old_list[p as int], key@);
                    lemma_lex_transitive(key@, old_list[p as int], old_list[i]);
                    lemma_lex_irreflexive(key@);
                }
            }
        }
        self.keys.insert(p, key);
        let ghost new_list = self.list();
        assert(new_list =~= old_list.insert(p as int, key@));
        assert forall|i: int, j: int| 0 <= i < j < new_list.len() implies lex_lt(
            #[trigger] new_list[i],
            #[trigger] new_list[j],
        ) by {
            if j < p {
            } else if j == p {
            } else if i < p {
                lemma_lex_total(old_list[j - 1], key@);
                lemma_lex_transitive(old_list[i], key@, old_list[j - 1]);
            } else if i == p {
                lemma_lex_total(old_list[j - 1], key@);
            } else {
            }
        }
        assert(new_list.to_set() =~= old_list.to_set().insert(key@)) by {
            assert forall|x: Seq<char>| new_list.to_set().contains(x) implies old_list.to_set().insert(key@).contains(x) by {
                let i = choose|i: int| 0 <= i < new_list.len() && new_list[i] == x;
                if i < p {
                    assert(old_list[i] == x);
                } else if i > p {
                    assert(old_list[i - 1] == x);
                }
            }
            assert forall|x: Seq<char>| old_list.to_set().insert(key@).contains(x) implies new_list.to_set().contains(x) by {
                if x == key@ {
                    assert(new_list[p as int] == x);
                } else {
                    let i = choose|i: int| 0 <= i < old_list.len() && old_list[i] == x;
                    if i < p {
                        assert(new_list[i] == x);
                    } else {
                        assert(new_list[i + 1] == x);
                    }
                }
            }
        }
        true
    }
}

} // verus!
