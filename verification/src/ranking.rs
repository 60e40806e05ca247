//! Frequency ranking: ordering word/frequency pairs by frequency, highest
//! first. The sort is stable — pairs of equal frequency keep the order in
//! which they came in — so the ranking is deterministic.

use crate::dictionary::{entries_view, WordFreq};
use vstd::prelude::*;

verus! {

/// Pairs ordered by frequency, highest first.
pub open spec fn sorted_desc(s: Seq<(Seq<char>, u128)>) -> bool {
    forall|i: int, j: int| 0 <= i < j < s.len() ==> s[i].1 >= s[j].1
}

/// `x` placed into `s` behind every pair whose frequency is at least as
/// large, so that a pair of equal frequency already in `s` stays in front.
pub open spec fn place(x: (Seq<char>, u128), s: Seq<(Seq<char>, u128)>) -> Seq<(Seq<char>, u128)>
    decreases s.len(),
{
    if s.len() == 0 {
        seq![x]
    } else if s[0].1 >= x.1 {
        seq![s[0]] + place(x, s.drop_first())
    } else {
        seq![x] + s
    }
}

/// The pairs of `s` ordered by frequency, highest first; pairs of equal
/// frequency keep the order they have in `s`.
pub open spec fn sort_desc(s: Seq<(Seq<char>, u128)>) -> Seq<(Seq<char>, u128)>
    decreases s.len(),
{
    if s.len() == 0 {
        Seq::empty()
    } else {
        place(s.last(), sort_desc(s.drop_last()))
    }
}

/// Membership in a concatenation of pair sequences: in one part or the
/// other.
pub(crate) proof fn lemma_concat_contains(
    a: Seq<(Seq<char>, u128)>,
    b: Seq<(Seq<char>, u128)>,
    p: (Seq<char>, u128),
)
    ensures
        (a + b).contains(p) <==> (a.contains(p) || b.contains(p)),
{
    if a.contains(p) {
        let i = choose|i: int| 0 <= i < a.len() && a[i] == p;
        assert((a + b)[i] == p);
    }
    if b.contains(p) {
        let i = choose|i: int| 0 <= i < b.len() && b[i] == p;
        assert((a + b)[a.len() + i] == p);
    }
    if (a + b).contains(p) {
        let i = choose|i: int| 0 <= i < (a + b).len() && (a + b)[i] == p;
        if i < a.len() {
            assert(a[i] == p);
        } else {
            assert(b[i - a.len()] == p);
        }
    }
}

/// What `place` does: it keeps every pair of `s`, adds `x`, and keeps the
/// ranking sorted.
pub(crate) proof fn lemma_place(x: (Seq<char>, u128), s: Seq<(Seq<char>, u128)>)
    requires
        sorted_desc(s),
    ensures
        sorted_desc(place(x, s)),
        place(x, s).len() == s.len() + 1,
        forall|q: (Seq<char>, u128)| #[trigger] place(x, s).contains(q) <==> (s.contains(q) || q
            == x),
    decreases s.len(),
{
    if s.len() == 0 {
        assert forall|q: (Seq<char>, u128)| #[trigger]
            place(x, s).contains(q) <==> (s.contains(q) || q == x) by {
            assert(place(x, s)[0] == x);
        }
    } else if s[0].1 >= x.1 {
        let tail = s.drop_first();
        assert(sorted_desc(tail)) by {
            assert forall|i: int, j: int| 0 <= i < j < tail.len() implies tail[i].1 >= tail[j].1 by {
                assert(tail[i] == s[i + 1] && tail[j] == s[j + 1]);
            }
        }
        lemma_place(x, tail);
        let t = place(x, tail);
        let r = seq![s[0]] + t;
        assert(r == place(x, s));
        assert(sorted_desc(r)) by {
            assert forall|i: int, j: int| 0 <= i < j < r.len() implies r[i].1 >= r[j].1 by {
                if i == 0 {
                    assert(t.contains(t[j - 1]));
                    if t[j - 1] == x {
                        assert(r[j].1 == x.1);
                    } else {
                        assert(tail.contains(t[j - 1]));
                        let k = choose|k: int| 0 <= k < tail.len() && tail[k] == t[j - 1];
                        assert(tail[k] == s[k + 1]);
                        assert(s[0].1 >= s[k + 1].1);
                    }
                } else {
                    assert(r[i] == t[i - 1] && r[j] == t[j - 1]);
                }
            }
        }
        assert forall|q: (Seq<char>, u128)| #[trigger]
            r.contains(q) <==> (s.contains(q) || q == x) by {
            lemma_concat_contains(seq![s[0]], t, q);
            assert(seq![s[0]].contains(q) <==> q == s[0]) by {
                assert(seq![s[0]][0] == s[0]);
            }
            assert(s.contains(q) <==> (q == s[0] || tail.contains(q))) by {
                if s.contains(q) {
                    let k = choose|k: int| 0 <= k < s.len() && s[k] == q;
                    if k > 0 {
                        assert(tail[k - 1] == q);
                    }
                }
                if tail.contains(q) {
                    let k = choose|k: int| 0 <= k < tail.len() && tail[k] == q;
                    assert(s[k + 1] == q);
                }
            }
        }
    } else {
        let r = seq![x] + s;
        assert(r == place(x, s));
        assert(sorted_desc(r)) by {
            assert forall|i: int, j: int| 0 <= i < j < r.len() implies r[i].1 >= r[j].1 by {
                if i == 0 {
                    assert(r[j] == s[j - 1]);
                    if j - 1 > 0 {
                        assert(s[0].1 >= s[j - 1].1);
                    }
                } else {
                    assert(r[i] == s[i - 1] && r[j] == s[j - 1]);
                }
            }
        }
        assert forall|q: (Seq<char>, u128)| #[trigger]
            r.contains(q) <==> (s.contains(q) || q == x) by {
            lemma_concat_contains(seq![x], s, q);
            assert(seq![x].contains(q) <==> q == x) by {
                assert(seq![x][0] == x);
            }
        }
    }
}

/// What the sort does: the ranking holds exactly the pairs of `s`, ordered
/// by frequency, highest first.
pub proof fn lemma_sort_desc(s: Seq<(Seq<char>, u128)>)
    ensures
        sorted_desc(sort_desc(s)),
        sort_desc(s).len() == s.len(),
        forall|q: (Seq<char>, u128)| #[trigger] sort_desc(s).contains(q) <==> s.contains(q),
    decreases s.len(),
{
    if s.len() > 0 {
        let front = s.drop_last();
        lemma_sort_desc(front);
        lemma_place(s.last(), sort_desc(front));
        assert forall|q: (Seq<char>, u128)| #[trigger]
            sort_desc(s).contains(q) <==> s.contains(q) by {
            assert(s.contains(q) <==> (front.contains(q) || q == s.last())) by {
                if s.contains(q) {
                    let k = choose|k: int| 0 <= k < s.len() && s[k] == q;
                    if k < s.len() - 1 {
                        assert(front[k] == q);
                    }
                }
                if front.contains(q) {
                    let k = choose|k: int| 0 <= k < front.len() && front[k] == q;
                    assert(s[k] == q);
                }
            }
        }
    }
}

/// `place` keeps the multiset of pairs, adding the placed one.
proof fn lemma_place_multiset(x: (Seq<char>, u128), s: Seq<(Seq<char>, u128)>)
    ensures
        place(x, s).to_multiset() == s.to_multiset().insert(x),
    decreases s.len(),
{
    broadcast use vstd::seq_lib::group_to_multiset_ensures;
    broadcast use vstd::multiset::group_multiset_axioms;

    if s.len() == 0 {
        assert(place(x, s) =~= Seq::<(Seq<char>, u128)>::empty().push(x));
        assert(place(x, s).to_multiset() =~= s.to_multiset().insert(x));
    } else if s[0].1 >= x.1 {
        let tail = s.drop_first();
        lemma_place_multiset(x, tail);
        vstd::seq_lib::lemma_multiset_commutative(seq![s[0]], place(x, tail));
        vstd::seq_lib::lemma_multiset_commutative(seq![s[0]], tail);
        assert(seq![s[0]] + tail =~= s);
        assert(place(x, s).to_multiset() =~= s.to_multiset().insert(x));
    } else {
        vstd::seq_lib::lemma_multiset_commutative(seq![x], s);
        assert(seq![x] =~= Seq::<(Seq<char>, u128)>::empty().push(x));
        assert(place(x, s).to_multiset() =~= s.to_multiset().insert(x));
    }
}

/// The sort is a permutation: the multiset of pairs is kept.
proof fn lemma_sort_desc_multiset(s: Seq<(Seq<char>, u128)>)
    ensures
        sort_desc(s).to_multiset() == s.to_multiset(),
    decreases s.len(),
{
    broadcast use vstd::seq_lib::group_to_multiset_ensures;
    broadcast use vstd::multiset::group_multiset_axioms;

    if s.len() > 0 {
        lemma_sort_desc_multiset(s.drop_last());
        lemma_place_multiset(s.last(), sort_desc(s.drop_last()));
        assert(s.drop_last().push(s.last()) =~= s);
    }
}

/// Ranking pairwise-distinct pairs keeps them pairwise distinct.
pub(crate) proof fn lemma_sort_desc_no_duplicates(s: Seq<(Seq<char>, u128)>)
    requires
        s.no_duplicates(),
    ensures
        sort_desc(s).no_duplicates(),
{
    broadcast use vstd::multiset::group_multiset_axioms;

    lemma_sort_desc_multiset(s);
    s.lemma_multiset_has_no_duplicates();
    sort_desc(s).lemma_multiset_has_no_duplicates_conv();
}

/// Where `place` puts the new pair: right in front of the first pair whose
/// frequency is smaller.
proof fn lemma_place_at(x: (Seq<char>, u128), s: Seq<(Seq<char>, u128)>, j: int)
    requires
        0 <= j <= s.len(),
        forall|k: int| 0 <= k < j ==> (#[trigger] s[k]).1 >= x.1,
        j < s.len() ==> s[j].1 < x.1,
    ensures
        place(x, s) == s.subrange(0, j) + seq![x] + s.skip(j),
    decreases s.len(),
{
    if j == 0 {
        if s.len() == 0 {
            assert(place(x, s) =~= s.subrange(0, 0) + seq![x] + s.skip(0));
        } else {
            assert(place(x, s) =~= s.subrange(0, 0) + seq![x] + s.skip(0));
        }
    } else {
        let tail = s.drop_first();
        assert(forall|k: int| 0 <= k < j - 1 ==> (#[trigger] tail[k]).1 >= x.1) by {
            assert forall|k: int| 0 <= k < j - 1 implies (#[trigger] tail[k]).1 >= x.1 by {
                assert(tail[k] == s[k + 1]);
            }
        }
        assert(j - 1 < tail.len() ==> tail[j - 1].1 < x.1) by {
            if j - 1 < tail.len() {
                assert(tail[j - 1] == s[j]);
            }
        }
        lemma_place_at(x, tail, j - 1);
        assert(place(x, s) =~= s.subrange(0, j) + seq![x] + s.skip(j)) by {
            assert(place(x, s) == seq![s[0]] + (tail.subrange(0, j - 1) + seq![x] + tail.skip(j
                - 1)));
        }
    }
}

/// Insert one pair into an already ranked vector, behind every pair of
/// frequency at least as large.
fn place_ranked(res: &mut Vec<WordFreq>, x: WordFreq)
    ensures
        entries_view(final(res)@) == place(x@, entries_view(old(res)@)),
{
    let ghost s = entries_view(res@);
    let mut j: usize = 0;
    while j < res.len() && res[j].frequency >= x.frequency
        invariant
            j <= res@.len(),
            res@ == old(res)@,
            s == entries_view(res@),
            forall|k: int| 0 <= k < j ==> (#[trigger] s[k]).1 >= x@.1,
        decreases res@.len() - j,
    {
        proof {
            assert(s[j as int] == res@[j as int]@);
        }
        j += 1;
    }
    proof {
        if j < res@.len() {
            assert(s[j as int] == res@[j as int]@);
        }
        lemma_place_at(x@, s, j as int);
    }
    res.insert(j, x);
    proof {
        assert(entries_view(res@) =~= s.subrange(0, j as int) + seq![x@] + s.skip(j as int));
    }
}

/// Rank a batch of word/frequency pairs by frequency, highest first; pairs
/// of equal frequency keep the order in which they came in.
pub(crate) fn rank(items: Vec<WordFreq>) -> (r: Vec<WordFreq>)
    ensures
        entries_view(r@) == sort_desc(entries_view(items@)),
{
    let ghost orig = entries_view(items@);
    let mut rest = items;
    let mut out: Vec<WordFreq> = Vec::new();
    proof {
        assert(entries_view(rest@) =~= orig.skip(0));
        assert(orig.take(0) =~= Seq::<(Seq<char>, u128)>::empty());
        assert(entries_view(out@) =~= sort_desc(orig.take(0)));
    }
    while rest.len() > 0
        invariant
            rest@.len() <= orig.len(),
            entries_view(rest@) == orig.skip(orig.len() - rest@.len()),
            entries_view(out@) == sort_desc(orig.take(orig.len() - rest@.len())),
        decreases rest@.len(),
    {
        let ghost c = orig.len() - rest@.len();
        let ghost rest0 = rest@;
        let x = rest.remove(0);
        place_ranked(&mut out, x);
        proof {
            assert(entries_view(rest0)[0] == x@);
            assert(orig.skip(c)[0] == orig[c]);
            assert(x@ == orig[c]);
            assert(entries_view(rest@) =~= entries_view(rest0).drop_first());
            assert(entries_view(rest@) =~= orig.skip(c + 1));
            let t = orig.take(c + 1);
            assert(t.drop_last() =~= orig.take(c));
            assert(t.last() == orig[c]);
            assert(sort_desc(t) == place(orig[c], sort_desc(orig.take(c))));
        }
    }
    proof {
        assert(orig.take(orig.len() as int) =~= orig);
    }
    out
}

} // verus!
