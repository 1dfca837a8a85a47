//! Stable sorting by an integer rank.

use vstd::prelude::*;

verus! {

/// What has a rank under a key.
pub trait Ranked<K> {
    /// The rank under a key.
    spec fn rank(self, key: K) -> int;
}

/// What can be sorted by the rank of its view.
pub trait Sortable<K>: View + Sized where Self::V: Ranked<K> {
    /// The rank of the view under a key.
    fn rank_of(&self, key: K) -> (r: i128)
        ensures
            r == self@.rank(key),
    ;
}

/// The views of items.
pub open spec fn views<T: View>(s: Seq<T>) -> Seq<T::V> {
    s.map_values(|x: T| x@)
}

/// Whether the ranks fall, or stay the same, from each item to the next.
pub open spec fn is_descending<T: Ranked<K>, K>(s: Seq<T>, key: K) -> bool {
    forall|i: int, j: int| 0 <= i <= j < s.len() ==> s[i].rank(key) >= s[j].rank(key)
}

/// Whether an item has this rank.
pub open spec fn has_rank<T: Ranked<K>, K>(key: K, rank: int) -> spec_fn(T) -> bool {
    |x: T| x.rank(key) == rank
}

/// The items of one rank, in the order in which they stand.
pub open spec fn of_rank<T: Ranked<K>, K>(s: Seq<T>, key: K, rank: int) -> Seq<T> {
    s.filter(has_rank(key, rank))
}

/// Whether `r` holds the items of `s` in descending order of their ranks, and those of equal rank
/// in the order in which they stand in `s`.
pub open spec fn is_sort_of<T: Ranked<K>, K>(r: Seq<T>, s: Seq<T>, key: K) -> bool {
    &&& is_descending(r, key)
    &&& forall|rank: int| #[trigger] of_rank(r, key, rank) == of_rank(s, key, rank)
    &&& r.to_multiset() == s.to_multiset()
}

proof fn lemma_filter_insert<T>(s: Seq<T>, p: int, x: T, pred: spec_fn(T) -> bool)
    requires
        0 <= p <= s.len(),
        forall|i: int| 0 <= i < p ==> !pred(#[trigger] s[i]),
    ensures
        s.insert(p, x).filter(pred) == (if pred(x) {
            seq![x] + s.filter(pred)
        } else {
            s.filter(pred)
        }),
    decreases s.len(),
{
    let t = s.insert(p, x);
    reveal(Seq::filter);
    if p == s.len() {
        // Nothing in s passes.
        assert(t.drop_last() =~= s);
        assert(t.last() == x);
        lemma_filter_none(s, pred);
    } else {
        assert(t.drop_last() =~= s.drop_last().insert(p, x));
        assert(t.last() == s.last());
        lemma_filter_insert(s.drop_last(), p, x, pred);
        if pred(x) && pred(s.last()) {
            assert((seq![x] + s.drop_last().filter(pred)).push(s.last()) =~= seq![x]
                + s.drop_last().filter(pred).push(s.last()));
        }
    }
    if pred(x) {
        assert(t.filter(pred) =~= seq![x] + s.filter(pred));
    }
}

proof fn lemma_filter_none<T>(s: Seq<T>, pred: spec_fn(T) -> bool)
    requires
        forall|i: int| 0 <= i < s.len() ==> !pred(#[trigger] s[i]),
    ensures
        s.filter(pred) == Seq::<T>::empty(),
    decreases s.len(),
{
    reveal(Seq::filter);
    if s.len() > 0 {
        assert(s.last() == s[s.len() - 1]);
        assert forall|i: int| 0 <= i < s.drop_last().len() implies !pred(
            #[trigger] s.drop_last()[i],
        ) by {
            assert(s.drop_last()[i] == s[i]);
        }
        lemma_filter_none(s.drop_last(), pred);
    }
}

/// The items of one rank in `x` followed by `s`.
proof fn lemma_filter_front<T>(s: Seq<T>, x: T, pred: spec_fn(T) -> bool)
    ensures
        (seq![x] + s).filter(pred) == (if pred(x) {
            seq![x] + s.filter(pred)
        } else {
            s.filter(pred)
        }),
{
    assert(seq![x] + s =~= s.insert(0, x));
    lemma_filter_insert(s, 0, x, pred);
}

/// The items of `s` in descending order of their ranks; those of equal rank keep their order.
pub open spec fn sorted<T: Ranked<K>, K>(s: Seq<T>, key: K) -> Seq<T> {
    choose|r: Seq<T>| is_sort_of(r, s, key)
}

/// Whether the items before `p` have a greater rank than `x`, and those from `p` on have none.
spec fn is_place<T: Ranked<K>, K>(s: Seq<T>, p: int, x: T, key: K) -> bool {
    &&& 0 <= p <= s.len()
    &&& forall|i: int| 0 <= i < p ==> #[trigger] s[i].rank(key) > x.rank(key)
    &&& p < s.len() ==> s[p].rank(key) <= x.rank(key)
}

/// A sorted sequence stays sorted when an item that comes first is put in its place.
proof fn lemma_put_in_place<T: Ranked<K>, K>(before: Seq<T>, rest: Seq<T>, p: int, x: T, key: K)
    requires
        is_sort_of(before, rest, key),
        is_place(before, p, x, key),
    ensures
        is_sort_of(before.insert(p, x), seq![x] + rest, key),
{
    let out = before.insert(p, x);
    let now = seq![x] + rest;
    let rank = x.rank(key);
    assert forall|k: int| #[trigger] of_rank(out, key, k) == of_rank(now, key, k) by {
        let pred = has_rank::<T, K>(key, k);
        lemma_filter_front(rest, x, pred);
        assert(of_rank(before, key, k) == of_rank(rest, key, k));
        if k == rank {
            assert forall|i: int| 0 <= i < p implies !pred(#[trigger] before[i]) by {
                assert(before[i].rank(key) > rank);
            }
            lemma_filter_insert(before, p, x, pred);
        } else {
            lemma_filter_other(before, p, x, pred);
        }
    }
    assert(is_descending(out, key)) by {
        assert forall|i: int, j: int| 0 <= i <= j < out.len() implies out[i].rank(key)
            >= out[j].rank(key) by {
            if i < p {
                assert(out[i] == before[i]);
            } else if i > p {
                assert(out[i] == before[i - 1]);
            }
            if j < p {
                assert(out[j] == before[j]);
            } else if j > p {
                assert(out[j] == before[j - 1]);
                if i == p {
                    assert(before[p].rank(key) >= before[j - 1].rank(key));
                }
            }
        }
    }
    assert(out.to_multiset() == now.to_multiset()) by {
        vstd::seq_lib::to_multiset_insert(before, p, x);
        vstd::seq_lib::to_multiset_insert(rest, 0, x);
        assert(rest.insert(0, x) =~= now);
    }
}

/// Sorts the items in descending order of their ranks; items of equal rank keep their order.
pub fn sort_descending<T: Sortable<K>, K: Copy>(items: &mut Vec<T>, key: K) where T::V: Ranked<K>
    ensures
        views(final(items)@) == sorted(views(old(items)@), key),
        is_sort_of(views(final(items)@), views(old(items)@), key),
        final(items)@.len() == old(items)@.len(),
{
    let ghost all = views(items@);
    let mut out: Vec<T> = Vec::new();
    proof {
        assert(all.skip(all.len() as int) =~= Seq::<T::V>::empty());
        assert(views(out@) =~= Seq::<T::V>::empty());
    }
    while items.len() > 0
        invariant
            items@.len() <= all.len(),
            views(items@) == all.take(items@.len() as int),
            out@.len() == all.len() - items@.len(),
            is_sort_of(views(out@), all.skip(items@.len() as int), key),
        decreases items@.len(),
    {
        let ghost n = items@.len();
        let ghost before = views(out@);
        let last = items.len() - 1;
        assert(views(items@)[last as int] == items@[last as int]@);
        let x = items.remove(last);
        let rank = x.rank_of(key);
        let mut p: usize = 0;
        while p < out.len() && out[p].rank_of(key) > rank
            invariant
                p <= out@.len(),
                views(out@) == before,
                rank == x@.rank(key),
                forall|i: int| 0 <= i < p ==> #[trigger] before[i].rank(key) > rank,
            decreases out@.len() - p,
        {
            assert(before[p as int] == out@[p as int]@);
            p += 1;
        }
        proof {
            if p < out@.len() {
                assert(before[p as int] == out@[p as int]@);
            }
            lemma_put_in_place(before, all.skip(n as int), p as int, x@, key);
        }
        let ghost held = out@;
        out.insert(p, x);
        proof {
            assert(views(out@) =~= before.insert(p as int, x@));
            assert(all.skip(n - 1) =~= seq![x@] + all.skip(n as int));
            assert(views(items@) =~= all.take(n - 1));
        }
    }
    proof {
        assert(all.skip(0) =~= all);
        law_one_sort_only(views(out@), sorted(all, key), all, key);
    }
    *items = out;
}

/// An item that does not pass may be inserted anywhere.
proof fn lemma_filter_other<T>(s: Seq<T>, p: int, x: T, pred: spec_fn(T) -> bool)
    requires
        0 <= p <= s.len(),
        !pred(x),
    ensures
        s.insert(p, x).filter(pred) == s.filter(pred),
    decreases s.len(),
{
    let t = s.insert(p, x);
    reveal(Seq::filter);
    if p == s.len() {
        assert(t.drop_last() =~= s);
    } else {
        assert(t.drop_last() =~= s.drop_last().insert(p, x));
        assert(t.last() == s.last());
        lemma_filter_other(s.drop_last(), p, x, pred);
    }
}

// ---------------------------------------------------------------------------
// Laws

/// Every sequence can be sorted: it has one order by rank that keeps items of equal rank in place.
pub proof fn law_every_sequence_can_be_sorted<T: Ranked<K>, K>(s: Seq<T>, key: K)
    ensures
        is_sort_of(sorted(s, key), s, key),
        sorted(s, key).len() == s.len(),
    decreases s.len(),
{
    if s.len() == 0 {
        assert(is_sort_of(s, s, key));
    } else {
        let x = s[0];
        let rest = s.drop_first();
        law_every_sequence_can_be_sorted(rest, key);
        let before = sorted(rest, key);
        let p = lemma_has_place(before, x, key);
        lemma_put_in_place(before, rest, p, x, key);
        assert(seq![x] + rest =~= s);
        assert(is_sort_of(before.insert(p, x), s, key));
    }
    vstd::seq_lib::to_multiset_len(s);
    vstd::seq_lib::to_multiset_len(sorted(s, key));
}

proof fn lemma_has_place<T: Ranked<K>, K>(s: Seq<T>, x: T, key: K) -> (p: int)
    ensures
        is_place(s, p, x, key),
    decreases s.len(),
{
    if s.len() == 0 {
        0
    } else {
        let p = lemma_has_place(s.drop_last(), x, key);
        if p < s.len() - 1 {
            assert(s.drop_last()[p] == s[p]);
            assert forall|i: int| 0 <= i < p implies #[trigger] s[i].rank(key) > x.rank(key) by {
                assert(s.drop_last()[i] == s[i]);
            }
            p
        } else {
            assert forall|i: int| 0 <= i < p implies #[trigger] s[i].rank(key) > x.rank(key) by {
                assert(s.drop_last()[i] == s[i]);
            }
            if s[p].rank(key) <= x.rank(key) {
                p
            } else {
                p + 1
            }
        }
    }
}

/// The order of the items and of those of equal rank leaves one way only to sort them.
pub proof fn law_one_sort_only<T: Ranked<K>, K>(r1: Seq<T>, r2: Seq<T>, s: Seq<T>, key: K)
    requires
        is_sort_of(r1, s, key),
        is_sort_of(r2, s, key),
    ensures
        r1 == r2,
{
    assert forall|rank: int| #[trigger] of_rank(r1, key, rank) == of_rank(r2, key, rank) by {
        assert(of_rank(r1, key, rank) == of_rank(s, key, rank));
        assert(of_rank(r2, key, rank) == of_rank(s, key, rank));
    }
    lemma_same_sort(r1, r2, key);
}

/// Sorting again changes nothing.
pub proof fn law_sorting_again_changes_nothing<T: Ranked<K>, K>(
    once: Seq<T>,
    twice: Seq<T>,
    s: Seq<T>,
    key: K,
)
    requires
        is_sort_of(once, s, key),
        is_sort_of(twice, once, key),
    ensures
        twice == once,
{
    assert(is_sort_of(once, once, key));
    law_one_sort_only(twice, once, once, key);
}

/// An item that passes comes first among those that do, if no item stands before it.
proof fn lemma_first_passes<T>(s: Seq<T>, pred: spec_fn(T) -> bool)
    requires
        s.len() > 0,
    ensures
        s.filter(pred) == (if pred(s[0]) {
            seq![s[0]] + s.drop_first().filter(pred)
        } else {
            s.drop_first().filter(pred)
        }),
{
    assert(s =~= seq![s[0]] + s.drop_first());
    lemma_filter_front(s.drop_first(), s[0], pred);
}

/// What passes stands in the sequence.
proof fn lemma_filter_within<T>(s: Seq<T>, pred: spec_fn(T) -> bool)
    requires
        s.filter(pred).len() > 0,
    ensures
        exists|i: int| 0 <= i < s.len() && pred(#[trigger] s[i]),
{
    if forall|i: int| 0 <= i < s.len() ==> !pred(#[trigger] s[i]) {
        lemma_filter_none(s, pred);
    }
}

proof fn lemma_first_rank<T: Ranked<K>, K>(r1: Seq<T>, r2: Seq<T>, key: K)
    requires
        is_descending(r2, key),
        forall|rank: int| #[trigger] of_rank(r1, key, rank) == of_rank(r2, key, rank),
        r1.len() > 0,
    ensures
        r2.len() > 0,
        r2[0].rank(key) >= r1[0].rank(key),
{
    let k = r1[0].rank(key);
    let pred = has_rank::<T, K>(key, k);
    lemma_first_passes(r1, pred);
    assert(of_rank(r1, key, k) == of_rank(r2, key, k));
    assert(r2.filter(pred).len() > 0);
    lemma_filter_within(r2, pred);
}

proof fn lemma_same_sort<T: Ranked<K>, K>(r1: Seq<T>, r2: Seq<T>, key: K)
    requires
        is_descending(r1, key),
        is_descending(r2, key),
        forall|rank: int| #[trigger] of_rank(r1, key, rank) == of_rank(r2, key, rank),
    ensures
        r1 == r2,
    decreases r1.len(),
{
    assert forall|rank: int| #[trigger] of_rank(r2, key, rank) == of_rank(r1, key, rank) by {
        assert(of_rank(r1, key, rank) == of_rank(r2, key, rank));
    }
    if r1.len() > 0 {
        lemma_first_rank(r1, r2, key);
        lemma_first_rank(r2, r1, key);
        let k = r1[0].rank(key);
        let same = has_rank::<T, K>(key, k);
        lemma_first_passes(r1, same);
        lemma_first_passes(r2, same);
        assert(of_rank(r1, key, k) == of_rank(r2, key, k));
        assert(r1.filter(same)[0] == r1[0]);
        assert(r2.filter(same)[0] == r2[0]);
        let t1 = r1.drop_first();
        let t2 = r2.drop_first();
        assert forall|rank: int| #[trigger] of_rank(t1, key, rank) == of_rank(t2, key, rank) by {
            let pred = has_rank::<T, K>(key, rank);
            lemma_first_passes(r1, pred);
            lemma_first_passes(r2, pred);
            assert(of_rank(r1, key, rank) == of_rank(r2, key, rank));
            if rank == k {
                assert((seq![r1[0]] + t1.filter(pred)).drop_first() =~= t1.filter(pred));
                assert((seq![r2[0]] + t2.filter(pred)).drop_first() =~= t2.filter(pred));
            }
        }
        assert(is_descending(t1, key)) by {
            assert forall|i: int, j: int| 0 <= i <= j < t1.len() implies t1[i].rank(key)
                >= t1[j].rank(key) by {
                assert(r1[i + 1].rank(key) >= r1[j + 1].rank(key));
            }
        }
        assert(is_descending(t2, key)) by {
            assert forall|i: int, j: int| 0 <= i <= j < t2.len() implies t2[i].rank(key)
                >= t2[j].rank(key) by {
                assert(r2[i + 1].rank(key) >= r2[j + 1].rank(key));
            }
        }
        lemma_same_sort(t1, t2, key);
        assert(r1 =~= seq![r1[0]] + t1);
        assert(r2 =~= seq![r2[0]] + t2);
    } else {
        if r2.len() > 0 {
            lemma_first_rank(r2, r1, key);
        }
        assert(r1 =~= r2);
    }
}

} // verus!
