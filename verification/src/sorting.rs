//! Stable sorting by an integer key.
//!
//! The order of a stably sorted sequence is fully determined by its input:
//! keys ascend, and the items that share a key keep the order they had.

use vstd::prelude::*;

verus! {

/// An item that is ordered by an integer key.
pub trait SortKey: Copy {
    /// The key by which the item is ordered.
    spec fn sort_key(&self) -> int;

    /// Whether this item's key is at most the other item's key.
    fn key_le(&self, other: &Self) -> (b: bool)
        ensures
            b == (self.sort_key() <= other.sort_key()),
    ;
}

/// The keys of `s` never descend.
pub open spec fn sorted_by_key<T: SortKey>(s: Seq<T>) -> bool {
    forall|i: int, j: int| 0 <= i <= j < s.len() ==> s[i].sort_key() <= s[j].sort_key()
}

/// The test for an item of key `k`.
pub open spec fn key_is<T: SortKey>(k: int) -> spec_fn(T) -> bool {
    |e: T| e.sort_key() == k
}

/// The items of `s` whose key is `k`, in the order in which they stand in `s`.
pub open spec fn with_key<T: SortKey>(s: Seq<T>, k: int) -> Seq<T> {
    s.filter(key_is(k))
}

/// `r` holds the items of `s` in ascending order of their keys, and the items
/// of each key in the order they have in `s`.
pub open spec fn is_stable_sort_of<T: SortKey>(r: Seq<T>, s: Seq<T>) -> bool {
    &&& r.len() == s.len()
    &&& sorted_by_key(r)
    &&& forall|k: int| #[trigger] with_key(r, k) == with_key(s, k)
}

/// The one sequence that is a stable sort of `s`.
pub open spec fn stably_sorted<T: SortKey>(s: Seq<T>) -> Seq<T> {
    choose|r: Seq<T>| is_stable_sort_of(r, s)
}

/// Appending an item extends the items of its own key and no others.
pub proof fn lemma_with_key_push<T: SortKey>(s: Seq<T>, e: T, k: int)
    ensures
        with_key(s.push(e), k) == if e.sort_key() == k {
            with_key(s, k).push(e)
        } else {
            with_key(s, k)
        },
{
    s.lemma_filter_push(e, key_is(k));
}

/// A sequence without an item of key `k` has no items of key `k`.
pub proof fn lemma_with_key_none<T: SortKey>(s: Seq<T>, k: int)
    requires
        forall|i: int| 0 <= i < s.len() ==> s[i].sort_key() != k,
    ensures
        with_key(s, k) == Seq::<T>::empty(),
    decreases s.len(),
{
    if s.len() == 0 {
        reveal(Seq::filter);
        assert(with_key(s, k) =~= Seq::<T>::empty());
    } else {
        lemma_with_key_none(s.drop_last(), k);
        assert(s == s.drop_last().push(s.last()));
        lemma_with_key_push(s.drop_last(), s.last(), k);
    }
}

/// Every item of `with_key(s, k)` stands in `s` and has key `k`.
pub proof fn lemma_with_key_member<T: SortKey>(s: Seq<T>, k: int, e: T)
    requires
        with_key(s, k).contains(e),
    ensures
        s.contains(e),
        e.sort_key() == k,
{
    s.lemma_filter_contains_rev(key_is(k), e);
    let i = choose|i: int| 0 <= i < with_key(s, k).len() && with_key(s, k)[i] == e;
    s.lemma_filter_pred(key_is(k), i);
}

/// Two sorted sequences that agree on the items of every key are equal.
pub proof fn lemma_sorted_determined<T: SortKey>(r1: Seq<T>, r2: Seq<T>)
    requires
        r1.len() == r2.len(),
        sorted_by_key(r1),
        sorted_by_key(r2),
        forall|k: int| #[trigger] with_key(r1, k) == with_key(r2, k),
    ensures
        r1 == r2,
    decreases r1.len(),
{
    if r1.len() == 0 {
        assert(r1 =~= r2);
    } else {
        let head1 = r1.drop_last();
        let head2 = r2.drop_last();
        let e1 = r1.last();
        let e2 = r2.last();
        let k1 = e1.sort_key();
        let k2 = e2.sort_key();
        assert(r1 == head1.push(e1));
        assert(r2 == head2.push(e2));
        lemma_with_key_push(head1, e1, k1);
        lemma_with_key_push(head2, e2, k2);
        assert(with_key(r1, k1).last() == e1);
        assert(with_key(r2, k2).last() == e2);
        assert(with_key(r2, k1) == with_key(r1, k1));
        assert(with_key(r1, k2) == with_key(r2, k2));
        assert(with_key(r2, k1).contains(e1));
        assert(with_key(r1, k2).contains(e2));
        lemma_with_key_member(r2, k1, e1);
        lemma_with_key_member(r1, k2, e2);
        assert(k1 <= k2) by {
            let x = choose|x: int| 0 <= x < r2.len() && r2[x] == e1;
            assert(r2[x].sort_key() <= r2[r2.len() - 1].sort_key());
        }
        assert(k2 <= k1) by {
            let x = choose|x: int| 0 <= x < r1.len() && r1[x] == e2;
            assert(r1[x].sort_key() <= r1[r1.len() - 1].sort_key());
        }
        lemma_with_key_push(head2, e2, k1);
        assert(with_key(head1, k1).push(e1) == with_key(head2, k1).push(e2));
        assert(e1 == e2) by {
            assert(with_key(head1, k1).push(e1).last() == e1);
            assert(with_key(head2, k1).push(e2).last() == e2);
        }
        assert forall|k: int| #[trigger] with_key(head1, k) == with_key(head2, k) by {
            lemma_with_key_push(head1, e1, k);
            lemma_with_key_push(head2, e2, k);
            assert(with_key(r1, k) == with_key(r2, k));
            if k == k1 {
                assert(with_key(head1, k).push(e1).drop_last() == with_key(head1, k));
                assert(with_key(head2, k).push(e2).drop_last() == with_key(head2, k));
            }
        }
        assert(sorted_by_key(head1)) by {
            assert forall|i: int, j: int| 0 <= i <= j < head1.len() implies head1[i].sort_key()
                <= head1[j].sort_key() by {
                assert(r1[i].sort_key() <= r1[j].sort_key());
            }
        }
        assert(sorted_by_key(head2)) by {
            assert forall|i: int, j: int| 0 <= i <= j < head2.len() implies head2[i].sort_key()
                <= head2[j].sort_key() by {
                assert(r2[i].sort_key() <= r2[j].sort_key());
            }
        }
        lemma_sorted_determined(head1, head2);
        assert(r1 =~= r2);
    }
}

/// A sequence has at most one stable sort.
pub proof fn lemma_stable_sort_unique<T: SortKey>(r1: Seq<T>, r2: Seq<T>, s: Seq<T>)
    requires
        is_stable_sort_of(r1, s),
        is_stable_sort_of(r2, s),
    ensures
        r1 == r2,
{
    assert forall|k: int| #[trigger] with_key(r1, k) == with_key(r2, k) by {
        assert(with_key(r1, k) == with_key(s, k));
        assert(with_key(r2, k) == with_key(s, k));
    }
    lemma_sorted_determined(r1, r2);
}

/// Whatever is a stable sort of `s` is the stable sort of `s`.
pub proof fn lemma_stably_sorted_is<T: SortKey>(r: Seq<T>, s: Seq<T>)
    requires
        is_stable_sort_of(r, s),
    ensures
        stably_sorted(s) == r,
{
    lemma_stable_sort_unique(stably_sorted(s), r, s);
}

/// Sorting what is sorted changes nothing.
pub proof fn lemma_sorted_stays<T: SortKey>(s: Seq<T>)
    requires
        sorted_by_key(s),
    ensures
        stably_sorted(s) == s,
{
    lemma_stably_sorted_is(s, s);
}

/// Sorting keeps the items: the stable sort of a sequence is as long as the
/// sequence, in ascending order, and holds an item if and only if the
/// sequence holds it.
pub proof fn lemma_stably_sorted_keeps_items<T: SortKey>(s: Seq<T>, e: T)
    ensures
        stably_sorted(s).len() == s.len(),
        sorted_by_key(stably_sorted(s)),
        stably_sorted(s).contains(e) <==> s.contains(e),
{
    lemma_stable_sort_exists(s);
    let r = stably_sorted(s);
    let k = e.sort_key();
    assert(with_key(r, k) == with_key(s, k));
    if r.contains(e) {
        let i = choose|i: int| 0 <= i < r.len() && r[i] == e;
        r.lemma_filter_contains(key_is(k), i);
        lemma_with_key_member(s, k, e);
    }
    if s.contains(e) {
        let i = choose|i: int| 0 <= i < s.len() && s[i] == e;
        s.lemma_filter_contains(key_is(k), i);
        lemma_with_key_member(r, k, e);
    }
}

/// What is left of a sorted sequence after filtering is sorted.
pub proof fn lemma_filter_sorted<T: SortKey>(s: Seq<T>, p: spec_fn(T) -> bool)
    requires
        sorted_by_key(s),
    ensures
        sorted_by_key(s.filter(p)),
    decreases s.len(),
{
    reveal(Seq::filter);
    if s.len() > 0 {
        let front = s.drop_last();
        assert(sorted_by_key(front)) by {
            assert forall|i: int, j: int| 0 <= i <= j < front.len() implies front[i].sort_key()
                <= front[j].sort_key() by {
                assert(s[i].sort_key() <= s[j].sort_key());
            }
        }
        lemma_filter_sorted(front, p);
        let f = front.filter(p);
        let r = s.filter(p);
        assert forall|i: int, j: int| 0 <= i <= j < r.len() implies r[i].sort_key()
            <= r[j].sort_key() by {
            if j < f.len() {
                assert(f[i].sort_key() <= f[j].sort_key());
            } else if i < f.len() {
                front.lemma_filter_contains_rev(p, f[i]);
                let x = choose|x: int| 0 <= x < front.len() && front[x] == f[i];
                assert(s[x].sort_key() <= s[s.len() - 1].sort_key());
            }
        }
    }
}

/// Every sequence has a stable sort.
pub proof fn lemma_stable_sort_exists<T: SortKey>(s: Seq<T>)
    ensures
        is_stable_sort_of(stably_sorted(s), s),
    decreases s.len(),
{
    if s.len() == 0 {
        assert(is_stable_sort_of(s, s));
    } else {
        let p = s.drop_last();
        let e = s.last();
        lemma_stable_sort_exists(p);
        let q = stably_sorted(p);
        let at = place_after_equals(q, e.sort_key());
        lemma_place_after_equals(q, e.sort_key());
        let r = q.insert(at, e);
        assert(s == p.push(e));
        assert(sorted_by_key(r)) by {
            assert forall|i: int, j: int| 0 <= i <= j < r.len() implies r[i].sort_key()
                <= r[j].sort_key() by {
                let oi = if i < at { i } else { i - 1 };
                let oj = if j < at { j } else { j - 1 };
                if i != at && j != at {
                    assert(q[oi].sort_key() <= q[oj].sort_key());
                }
            }
        }
        assert forall|k: int| #[trigger] with_key(r, k) == with_key(s, k) by {
            let front = q.take(at);
            let back = q.skip(at);
            assert(q == front + back);
            assert(r == front.push(e) + back);
            Seq::filter_distributes_over_add(front, back, key_is(k));
            Seq::filter_distributes_over_add(front.push(e), back, key_is(k));
            lemma_with_key_push(front, e, k);
            lemma_with_key_push(p, e, k);
            assert(with_key(q, k) == with_key(p, k));
            if e.sort_key() == k {
                lemma_with_key_none(back, k);
                assert(with_key(front, k) + with_key(back, k) == with_key(front, k));
                assert(with_key(front, k).push(e) + with_key(back, k) == with_key(front, k).push(
                    e,
                ));
            }
        }
        assert(is_stable_sort_of(r, s));
    }
}

/// The first place of `q` whose item has a key above `k`.
pub open spec fn place_after_equals<T: SortKey>(q: Seq<T>, k: int) -> int
    decreases q.len(),
{
    if q.len() == 0 || q.last().sort_key() <= k {
        q.len() as int
    } else {
        place_after_equals(q.drop_last(), k)
    }
}

/// In a sorted sequence, the keys before `place_after_equals` are at most `k`
/// and the keys from it on are above `k`.
pub proof fn lemma_place_after_equals<T: SortKey>(q: Seq<T>, k: int)
    requires
        sorted_by_key(q),
    ensures
        0 <= place_after_equals(q, k) <= q.len(),
        forall|i: int| 0 <= i < place_after_equals(q, k) ==> q[i].sort_key() <= k,
        forall|i: int| place_after_equals(q, k) <= i < q.len() ==> q[i].sort_key() > k,
    decreases q.len(),
{
    if q.len() == 0 {
    } else if q.last().sort_key() <= k {
        assert forall|i: int| 0 <= i < q.len() implies q[i].sort_key() <= k by {
            assert(q[i].sort_key() <= q[q.len() - 1].sort_key());
        }
    } else {
        let p = q.drop_last();
        assert(sorted_by_key(p)) by {
            assert forall|i: int, j: int| 0 <= i <= j < p.len() implies p[i].sort_key()
                <= p[j].sort_key() by {
                assert(q[i].sort_key() <= q[j].sort_key());
            }
        }
        lemma_place_after_equals(p, k);
        let at = place_after_equals(p, k);
        assert forall|i: int| at <= i < q.len() implies q[i].sort_key() > k by {
            if i < p.len() {
                assert(p[i] == q[i]);
            }
        }
        assert forall|i: int| 0 <= i < at implies q[i].sort_key() <= k by {
            assert(p[i] == q[i]);
        }
    }
}

/// Merges two sorted vectors; of two items with one key, the one from `a`
/// comes first.
fn merge<T: SortKey>(a: &Vec<T>, b: &Vec<T>) -> (r: Vec<T>)
    requires
        sorted_by_key(a@),
        sorted_by_key(b@),
        a.len() + b.len() <= usize::MAX,
    ensures
        r@.len() == a@.len() + b@.len(),
        sorted_by_key(r@),
        forall|k: int| #[trigger] with_key(r@, k) == with_key(a@, k) + with_key(b@, k),
{
    let mut r: Vec<T> = Vec::with_capacity(a.len() + b.len());
    let mut i: usize = 0;
    let mut j: usize = 0;
    proof {
        assert forall|k: int| #[trigger]
            with_key(r@, k) == with_key(a@.take(0), k) + with_key(b@.take(0), k) by {
            lemma_with_key_none(r@, k);
            lemma_with_key_none(a@.take(0), k);
            lemma_with_key_none(b@.take(0), k);
        }
    }
    while i < a.len() || j < b.len()
        invariant
            i <= a.len(),
            j <= b.len(),
            r@.len() == i + j,
            sorted_by_key(a@),
            sorted_by_key(b@),
            sorted_by_key(r@),
            forall|x: int|
                0 <= x < r@.len() && i < a.len() ==> r@[x].sort_key() <= a@[i as int].sort_key(),
            forall|x: int|
                0 <= x < r@.len() && j < b.len() ==> r@[x].sort_key() <= b@[j as int].sort_key(),
            forall|y: int|
                0 <= y < j && i < a.len() ==> b@[y].sort_key() < a@[i as int].sort_key(),
            forall|k: int| #[trigger]
                with_key(r@, k) == with_key(a@.take(i as int), k) + with_key(
                    b@.take(j as int),
                    k,
                ),
        decreases a.len() - i + b.len() - j,
    {
        let take_left: bool = if i >= a.len() {
            false
        } else if j >= b.len() {
            true
        } else {
            a[i].key_le(&b[j])
        };
        let ghost before = r@;
        if take_left {
            let e: T = a[i];
            proof {
                assert(a@.take(i + 1) == a@.take(i as int).push(e));
                assert forall|k: int| #[trigger]
                    with_key(before.push(e), k) == with_key(a@.take(i + 1), k) + with_key(
                        b@.take(j as int),
                        k,
                    ) by {
                    lemma_with_key_push(before, e, k);
                    lemma_with_key_push(a@.take(i as int), e, k);
                    assert(with_key(before, k) == with_key(a@.take(i as int), k) + with_key(
                        b@.take(j as int),
                        k,
                    ));
                    if e.sort_key() == k {
                        lemma_with_key_none(b@.take(j as int), k);
                    }
                }
            }
            r.push(e);
            i += 1;
        } else {
            let e: T = b[j];
            proof {
                assert(b@.take(j + 1) == b@.take(j as int).push(e));
                assert forall|k: int| #[trigger]
                    with_key(before.push(e), k) == with_key(a@.take(i as int), k) + with_key(
                        b@.take(j + 1),
                        k,
                    ) by {
                    lemma_with_key_push(before, e, k);
                    lemma_with_key_push(b@.take(j as int), e, k);
                    assert(with_key(before, k) == with_key(a@.take(i as int), k) + with_key(
                        b@.take(j as int),
                        k,
                    ));
                }
            }
            r.push(e);
            j += 1;
        }
        proof {
            assert forall|x: int, y: int| 0 <= x <= y < r@.len() implies r@[x].sort_key()
                <= r@[y].sort_key() by {
                if y < before.len() {
                    assert(before[x].sort_key() <= before[y].sort_key());
                }
            }
        }
    }
    proof {
        assert(a@.take(a.len() as int) == a@);
        assert(b@.take(b.len() as int) == b@);
    }
    r
}

/// Sorts the items of `v` from `lo` up to `hi`.
fn sort_range<T: SortKey>(v: &Vec<T>, lo: usize, hi: usize) -> (r: Vec<T>)
    requires
        lo <= hi <= v.len(),
    ensures
        is_stable_sort_of(r@, v@.subrange(lo as int, hi as int)),
    decreases hi - lo,
{
    if hi - lo <= 1 {
        let mut r: Vec<T> = Vec::new();
        if hi > lo {
            r.push(v[lo]);
        }
        proof {
            assert(r@ =~= v@.subrange(lo as int, hi as int));
        }
        r
    } else {
        let mid: usize = lo + (hi - lo) / 2;
        let a = sort_range(v, lo, mid);
        let b = sort_range(v, mid, hi);
        let r = merge(&a, &b);
        proof {
            let s = v@.subrange(lo as int, hi as int);
            let s1 = v@.subrange(lo as int, mid as int);
            let s2 = v@.subrange(mid as int, hi as int);
            assert(s =~= s1 + s2);
            assert forall|k: int| #[trigger] with_key(r@, k) == with_key(s, k) by {
                Seq::filter_distributes_over_add(s1, s2, key_is(k));
                assert(with_key(a@, k) == with_key(s1, k));
                assert(with_key(b@, k) == with_key(s2, k));
            }
        }
        r
    }
}

/// Sorts by key, keeping the order of items that share a key.
pub fn stable_sort<T: SortKey>(v: &Vec<T>) -> (r: Vec<T>)
    ensures
        r@ == stably_sorted(v@),
        is_stable_sort_of(r@, v@),
{
    let r = sort_range(v, 0, v.len());
    proof {
        assert(v@.subrange(0, v.len() as int) =~= v@);
        lemma_stably_sorted_is(r@, v@);
    }
    r
}

} // verus!
