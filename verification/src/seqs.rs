//! Facts about filtered sequences.

use vstd::prelude::*;

verus! {

/// Filtering by a test that no item passes leaves nothing.
pub proof fn lemma_filter_none<A>(s: Seq<A>, p: spec_fn(A) -> bool)
    requires
        forall|i: int| 0 <= i < s.len() ==> !p(#[trigger] s[i]),
    ensures
        s.filter(p) == Seq::<A>::empty(),
    decreases s.len(),
{
    reveal(Seq::filter);
    if s.len() == 0 {
        assert(s.filter(p) =~= Seq::<A>::empty());
    } else {
        assert forall|i: int| 0 <= i < s.drop_last().len() implies !p(
            #[trigger] s.drop_last()[i],
        ) by {
            assert(s.drop_last()[i] == s[i]);
        }
        lemma_filter_none(s.drop_last(), p);
        assert(!p(s[s.len() - 1]));
    }
}

/// Filtering by a test that every item passes leaves everything.
pub proof fn lemma_filter_all<A>(s: Seq<A>, p: spec_fn(A) -> bool)
    requires
        forall|i: int| 0 <= i < s.len() ==> p(#[trigger] s[i]),
    ensures
        s.filter(p) == s,
    decreases s.len(),
{
    reveal(Seq::filter);
    if s.len() == 0 {
    } else {
        assert forall|i: int| 0 <= i < s.drop_last().len() implies p(
            #[trigger] s.drop_last()[i],
        ) by {
            assert(s.drop_last()[i] == s[i]);
        }
        lemma_filter_all(s.drop_last(), p);
        assert(p(s[s.len() - 1]));
        assert(s.drop_last().push(s.last()) =~= s);
    }
}

/// Two tests that agree on the items of a sequence filter it alike.
pub proof fn lemma_filter_agree<A>(s: Seq<A>, p: spec_fn(A) -> bool, q: spec_fn(A) -> bool)
    requires
        forall|i: int| 0 <= i < s.len() ==> p(#[trigger] s[i]) == q(s[i]),
    ensures
        s.filter(p) == s.filter(q),
    decreases s.len(),
{
    reveal(Seq::filter);
    if s.len() == 0 {
    } else {
        assert forall|i: int| 0 <= i < s.drop_last().len() implies p(#[trigger] s.drop_last()[i])
            == q(s.drop_last()[i]) by {
            assert(s.drop_last()[i] == s[i]);
        }
        lemma_filter_agree(s.drop_last(), p, q);
        assert(p(s[s.len() - 1]) == q(s[s.len() - 1]));
    }
}

/// Two items that pass the test make the filtered sequence at least two long.
pub proof fn lemma_two_matches<A>(s: Seq<A>, p: spec_fn(A) -> bool, k1: int, k2: int)
    requires
        0 <= k1 < k2 < s.len(),
        p(s[k1]),
        p(s[k2]),
    ensures
        s.filter(p).len() >= 2,
    decreases s.len(),
{
    let front = s.drop_last();
    assert(s == front.push(s.last()));
    front.lemma_filter_push(s.last(), p);
    if k2 == s.len() - 1 {
        assert(front[k1] == s[k1]);
        front.lemma_filter_contains(p, k1);
        assert(front.filter(p).len() >= 1);
    } else {
        assert(front[k1] == s[k1]);
        assert(front[k2] == s[k2]);
        lemma_two_matches(front, p, k1, k2);
    }
}

/// The test that both `p` and `q` hold.
pub open spec fn both<A>(p: spec_fn(A) -> bool, q: spec_fn(A) -> bool) -> spec_fn(A) -> bool {
    |x: A| p(x) && q(x)
}

/// The test that `p` holds and `q` does not.
pub open spec fn but_not<A>(p: spec_fn(A) -> bool, q: spec_fn(A) -> bool) -> spec_fn(A) -> bool {
    |x: A| p(x) && !q(x)
}

/// Of the items that pass `p`, some pass `q` and the others do not.
pub proof fn lemma_filter_split<A>(s: Seq<A>, p: spec_fn(A) -> bool, q: spec_fn(A) -> bool)
    ensures
        s.filter(p).len() == s.filter(both(p, q)).len() + s.filter(but_not(p, q)).len(),
    decreases s.len(),
{
    if s.len() == 0 {
        s.lemma_filter_len(p);
        s.lemma_filter_len(both(p, q));
        s.lemma_filter_len(but_not(p, q));
    } else {
        let front = s.drop_last();
        lemma_filter_split(front, p, q);
        assert(s == front.push(s.last()));
        front.lemma_filter_push(s.last(), p);
        front.lemma_filter_push(s.last(), both(p, q));
        front.lemma_filter_push(s.last(), but_not(p, q));
    }
}

/// A test that is at least as hard to pass lets at most as many items pass.
pub proof fn lemma_filter_stronger<A>(s: Seq<A>, p: spec_fn(A) -> bool, q: spec_fn(A) -> bool)
    requires
        forall|i: int| 0 <= i < s.len() && q(#[trigger] s[i]) ==> p(s[i]),
    ensures
        s.filter(q).len() <= s.filter(p).len(),
    decreases s.len(),
{
    if s.len() == 0 {
        s.lemma_filter_len(q);
    } else {
        let front = s.drop_last();
        assert forall|i: int| 0 <= i < front.len() && q(#[trigger] front[i]) implies p(
            front[i],
        ) by {
            assert(front[i] == s[i]);
        }
        lemma_filter_stronger(front, p, q);
        assert(s == front.push(s.last()));
        front.lemma_filter_push(s.last(), p);
        front.lemma_filter_push(s.last(), q);
        assert(s[s.len() - 1] == s.last());
    }
}

/// A harder test that an item of the sequence fails, though it passes the
/// easier one, lets fewer items pass.
pub proof fn lemma_filter_strictly_stronger<A>(
    s: Seq<A>,
    p: spec_fn(A) -> bool,
    q: spec_fn(A) -> bool,
    k: int,
)
    requires
        forall|i: int| 0 <= i < s.len() && q(#[trigger] s[i]) ==> p(s[i]),
        0 <= k < s.len(),
        p(s[k]),
        !q(s[k]),
    ensures
        s.filter(q).len() + 1 <= s.filter(p).len(),
    decreases s.len(),
{
    let front = s.drop_last();
    assert forall|i: int| 0 <= i < front.len() && q(#[trigger] front[i]) implies p(front[i]) by {
        assert(front[i] == s[i]);
    }
    assert(s == front.push(s.last()));
    front.lemma_filter_push(s.last(), p);
    front.lemma_filter_push(s.last(), q);
    assert(s[s.len() - 1] == s.last());
    if k == s.len() - 1 {
        lemma_filter_stronger(front, p, q);
    } else {
        assert(front[k] == s[k]);
        lemma_filter_strictly_stronger(front, p, q, k);
    }
}

/// Filtering a sequence in which nothing stands twice leaves such a sequence.
pub proof fn lemma_filter_distinct<A>(s: Seq<A>, p: spec_fn(A) -> bool)
    requires
        s.no_duplicates(),
    ensures
        s.filter(p).no_duplicates(),
    decreases s.len(),
{
    reveal(Seq::filter);
    if s.len() > 0 {
        let front = s.drop_last();
        assert(front.no_duplicates()) by {
            assert forall|i: int, j: int|
                0 <= i < front.len() && 0 <= j < front.len() && i != j implies front[i]
                != front[j] by {
                assert(s[i] != s[j]);
            }
        }
        lemma_filter_distinct(front, p);
        let f = front.filter(p);
        let r = s.filter(p);
        if p(s.last()) {
            assert(r == f.push(s.last()));
            assert forall|i: int, j: int| 0 <= i < r.len() && 0 <= j < r.len() && i != j implies r[i]
                != r[j] by {
                if i < f.len() && j < f.len() {
                    assert(f[i] != f[j]);
                } else {
                    let x = if i < f.len() { i } else { j };
                    assert(f.contains(f[x]));
                    front.lemma_filter_contains_rev(p, f[x]);
                    let y = choose|y: int| 0 <= y < front.len() && front[y] == f[x];
                    assert(s[y] != s[s.len() - 1]);
                }
            }
        }
    }
}

/// Where nothing stands twice in `b`, and every item of `b` that passes `q`
/// stands in `a` and passes `p`, as many items of `a` pass `p` as items of
/// `b` pass `q`, or more.
pub proof fn lemma_filter_within<A>(
    a: Seq<A>,
    b: Seq<A>,
    p: spec_fn(A) -> bool,
    q: spec_fn(A) -> bool,
)
    requires
        b.no_duplicates(),
        forall|i: int| 0 <= i < b.len() && q(#[trigger] b[i]) ==> a.contains(b[i]) && p(b[i]),
    ensures
        b.filter(q).len() <= a.filter(p).len(),
{
    let fb = b.filter(q);
    let fa = a.filter(p);
    lemma_filter_distinct(b, q);
    fb.unique_seq_to_set();
    assert(fb.to_set().subset_of(fa.to_set())) by {
        assert forall|x: A| fb.to_set().contains(x) implies fa.to_set().contains(x) by {
            let i = choose|i: int| 0 <= i < fb.len() && fb[i] == x;
            b.lemma_filter_pred(q, i);
            b.lemma_filter_contains_rev(q, x);
            let j = choose|j: int| 0 <= j < b.len() && b[j] == x;
            assert(a.contains(b[j]) && p(b[j]));
            let y = choose|y: int| 0 <= y < a.len() && a[y] == x;
            a.lemma_filter_contains(p, y);
        }
    }
    vstd::seq_lib::seq_to_set_is_finite(fa);
    vstd::set_lib::lemma_len_subset(fb.to_set(), fa.to_set());
    fa.lemma_cardinality_of_set();
}

/// The test that `p` or `q` holds.
pub open spec fn either<A>(p: spec_fn(A) -> bool, q: spec_fn(A) -> bool) -> spec_fn(A) -> bool {
    |x: A| p(x) || q(x)
}

/// Of two tests that no item passes both, as many items pass one or the
/// other as pass the one and pass the other together.
pub proof fn lemma_filter_either<A>(s: Seq<A>, p: spec_fn(A) -> bool, q: spec_fn(A) -> bool)
    requires
        forall|i: int| 0 <= i < s.len() ==> !(p(#[trigger] s[i]) && q(s[i])),
    ensures
        s.filter(either(p, q)).len() == s.filter(p).len() + s.filter(q).len(),
    decreases s.len(),
{
    if s.len() == 0 {
        s.lemma_filter_len(p);
        s.lemma_filter_len(q);
        s.lemma_filter_len(either(p, q));
    } else {
        let front = s.drop_last();
        assert forall|i: int| 0 <= i < front.len() implies !(p(#[trigger] front[i]) && q(
            front[i],
        )) by {
            assert(front[i] == s[i]);
        }
        lemma_filter_either(front, p, q);
        assert(s == front.push(s.last()));
        front.lemma_filter_push(s.last(), p);
        front.lemma_filter_push(s.last(), q);
        front.lemma_filter_push(s.last(), either(p, q));
        assert(s[s.len() - 1] == s.last());
    }
}

/// A filter that leaves as many items as there are lets every item pass.
pub proof fn lemma_filter_full<A>(s: Seq<A>, p: spec_fn(A) -> bool)
    requires
        s.filter(p).len() == s.len(),
    ensures
        forall|i: int| 0 <= i < s.len() ==> p(#[trigger] s[i]),
    decreases s.len(),
{
    if s.len() > 0 {
        let front = s.drop_last();
        assert(s == front.push(s.last()));
        front.lemma_filter_push(s.last(), p);
        front.lemma_filter_len(p);
        lemma_filter_full(front, p);
        assert forall|i: int| 0 <= i < s.len() implies p(#[trigger] s[i]) by {
            if i < front.len() {
                assert(front[i] == s[i]);
            }
        }
    }
}

} // verus!
