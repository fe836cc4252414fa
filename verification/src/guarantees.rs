//! What holds of the candidate destinations of every trace.
//!
//! The candidates of a source only ever get fewer, each of them has a
//! message within the delay bounds, and the true partner of a source is
//! never ruled out: where every message of a source goes to one destination
//! and arrives within the delay bounds, that destination is a candidate
//! after every message of the source. The result is determined by the trace
//! and the delay bounds.

use crate::containers::{
    added_count, ascending_destinations, lemma_ascending_distinct, lemma_distance_from_nothing,
    member_of, not_member_of, overlap_count, sent_to,
};
use crate::ids::{DestinationId, MessageId, SourceId};
use crate::metric::{
    all_ids, arrives_in_window, candidate_count, candidates, delta, in_window, is_result,
    is_source_result, merge_step, sent_by, source_messages, survives, window_ids, window_ids_to,
    OutputFull, OutputSizes,
};
use crate::seqs::{
    both, but_not, lemma_filter_all, lemma_filter_distinct, lemma_filter_split,
    lemma_filter_stronger, lemma_filter_strictly_stronger, lemma_filter_within,
};
use crate::trace::{destinations_of, sources_of, TraceEntry};
use vstd::prelude::*;

verus! {

/// Once dropped, a destination never becomes a candidate again.
pub proof fn lemma_step_narrows(
    prev: Map<DestinationId, nat>,
    delta: Map<DestinationId, (nat, nat)>,
)
    ensures
        merge_step(Some(prev), delta).dom().subset_of(prev.dom()),
        merge_step(Some(prev), delta).dom().subset_of(delta.dom()),
        merge_step(None, delta).dom().subset_of(delta.dom()),
{
}

/// The candidate destinations of a source only ever get fewer: those after a
/// message are among those after the message before it.
pub proof fn lemma_monotonic_narrowing(
    t: Seq<TraceEntry>,
    msgs: Seq<MessageId>,
    i: int,
    min_delay: int,
    max_delay: int,
)
    requires
        0 <= i,
    ensures
        candidates(t, msgs, i + 1, min_delay, max_delay).dom().subset_of(
            candidates(t, msgs, i, min_delay, max_delay).dom(),
        ),
{
    lemma_step_narrows(
        candidates(t, msgs, i, min_delay, max_delay),
        delta(t, Some(msgs[i].0 as int), msgs[i + 1].0 as int, min_delay, max_delay),
    );
}

/// A destination that is no candidate after a message is none after any
/// later message.
pub proof fn lemma_dropped_stays_dropped(
    t: Seq<TraceEntry>,
    msgs: Seq<MessageId>,
    i: int,
    j: int,
    min_delay: int,
    max_delay: int,
)
    requires
        0 <= i <= j,
    ensures
        candidates(t, msgs, j, min_delay, max_delay).dom().subset_of(
            candidates(t, msgs, i, min_delay, max_delay).dom(),
        ),
    decreases j - i,
{
    if i < j {
        lemma_dropped_stays_dropped(t, msgs, i, j - 1, min_delay, max_delay);
        lemma_monotonic_narrowing(t, msgs, j - 1, min_delay, max_delay);
    }
}

/// The anonymity set of a message holds exactly the messages of the trace
/// that arrive within its delay bounds.
pub proof fn lemma_window_members(
    t: Seq<TraceEntry>,
    m: int,
    min_delay: int,
    max_delay: int,
    d: int,
)
    requires
        t.len() <= u64::MAX,
        0 <= d < t.len(),
    ensures
        window_ids(t, m, min_delay, max_delay).contains(MessageId(d as u64)) <==> in_window(
            t,
            m,
            d,
            min_delay,
            max_delay,
        ),
{
    let ids = all_ids(t.len());
    let p = arrives_in_window(t, m, min_delay, max_delay);
    let id = MessageId(d as u64);
    if window_ids(t, m, min_delay, max_delay).contains(id) {
        let win = window_ids(t, m, min_delay, max_delay);
        let x = choose|x: int| 0 <= x < win.len() && win[x] == id;
        ids.lemma_filter_pred(p, x);
    }
    if in_window(t, m, d, min_delay, max_delay) {
        assert(ids[d] == id);
        ids.lemma_filter_contains(p, d);
    }
}

/// The part of an anonymity set that arrives at a destination holds exactly
/// the messages of the set that arrive there, and none of them twice.
pub proof fn lemma_window_to_members(
    t: Seq<TraceEntry>,
    m: int,
    min_delay: int,
    max_delay: int,
    dst: DestinationId,
    d: int,
)
    requires
        t.len() <= u64::MAX,
        0 <= d < t.len(),
    ensures
        window_ids_to(t, m, min_delay, max_delay, dst).contains(MessageId(d as u64)) <==> (
        in_window(t, m, d, min_delay, max_delay) && t[d].destination_id == dst),
        window_ids_to(t, m, min_delay, max_delay, dst).no_duplicates(),
        forall|i: int|
            0 <= i < window_ids_to(t, m, min_delay, max_delay, dst).len() ==> (
            #[trigger] window_ids_to(t, m, min_delay, max_delay, dst)[i]).0 < t.len(),
{
    let ids = all_ids(t.len());
    let win = window_ids(t, m, min_delay, max_delay);
    let to = window_ids_to(t, m, min_delay, max_delay, dst);
    let q = sent_to(destinations_of(t), dst);
    let id = MessageId(d as u64);
    lemma_window_members(t, m, min_delay, max_delay, d);
    if to.contains(id) {
        let x = choose|x: int| 0 <= x < to.len() && to[x] == id;
        win.lemma_filter_pred(q, x);
        win.lemma_filter_contains_rev(q, id);
    }
    if in_window(t, m, d, min_delay, max_delay) && t[d].destination_id == dst {
        let x = choose|x: int| 0 <= x < win.len() && win[x] == id;
        win.lemma_filter_contains(q, x);
    }
    assert(ids.no_duplicates());
    lemma_filter_distinct(ids, arrives_in_window(t, m, min_delay, max_delay));
    lemma_filter_distinct(win, q);
    assert forall|i: int| 0 <= i < to.len() implies (#[trigger] to[i]).0 < t.len() by {
        win.lemma_filter_pred(q, i);
    }
}

/// At every candidate destination arrives a message of the trace within the
/// delay bounds of the message after which it is a candidate.
pub proof fn lemma_candidate_has_message(
    t: Seq<TraceEntry>,
    msgs: Seq<MessageId>,
    i: int,
    min_delay: int,
    max_delay: int,
    d: DestinationId,
)
    requires
        0 <= i < msgs.len(),
        candidates(t, msgs, i, min_delay, max_delay).contains_key(d),
    ensures
        exists|k: int|
            0 <= k < t.len() && in_window(t, msgs[i].0 as int, k, min_delay, max_delay)
                && (#[trigger] t[k]).destination_id == d,
{
    let m = msgs[i].0 as int;
    let prev: Option<int> = if i == 0 {
        None
    } else {
        Some(msgs[i - 1].0 as int)
    };
    assert(delta(t, prev, m, min_delay, max_delay).contains_key(d));
    let win = window_ids(t, m, min_delay, max_delay);
    let to = window_ids_to(t, m, min_delay, max_delay, d);
    assert(to.len() > 0);
    let e = to[0];
    win.lemma_filter_pred(sent_to(destinations_of(t), d), 0);
    assert(to.contains(e));
    win.lemma_filter_contains_rev(sent_to(destinations_of(t), d), e);
    let x = choose|x: int| 0 <= x < win.len() && win[x] == e;
    all_ids(t.len()).lemma_filter_pred(arrives_in_window(t, m, min_delay, max_delay), x);
    let k = e.0 as int;
    assert(0 <= k < t.len() && in_window(t, m, k, min_delay, max_delay) && t[k].destination_id
        == d);
}

/// In a trace of a single source `s` of which every message goes to `dst`,
/// no other destination is ever a candidate.
pub proof fn lemma_single_source(
    t: Seq<TraceEntry>,
    s: SourceId,
    msgs: Seq<MessageId>,
    i: int,
    min_delay: int,
    max_delay: int,
    dst: DestinationId,
)
    requires
        0 <= i < msgs.len(),
        forall|k: int| 0 <= k < t.len() ==> (#[trigger] t[k]).source_id == s,
        forall|k: int|
            0 <= k < t.len() && (#[trigger] t[k]).source_id == s ==> t[k].destination_id == dst,
    ensures
        candidates(t, msgs, i, min_delay, max_delay).dom().subset_of(set![dst]),
{
    assert forall|d: DestinationId|
        candidates(t, msgs, i, min_delay, max_delay).dom().contains(d) implies set![dst].contains(
        d,
    ) by {
        lemma_candidate_has_message(t, msgs, i, min_delay, max_delay, d);
    }
}

/// Without a minimal delay, a message that arrives at the moment at which it
/// is sent is in its own anonymity set.
pub proof fn lemma_instant_message_in_own_window(t: Seq<TraceEntry>, m: int, max_delay: int)
    requires
        t.len() <= u64::MAX,
        0 <= m < t.len(),
        t[m].source_timestamp == t[m].destination_timestamp,
        0 <= max_delay,
    ensures
        in_window(t, m, m, 0, max_delay),
        window_ids(t, m, 0, max_delay).contains(MessageId(m as u64)),
{
    lemma_window_members(t, m, 0, max_delay, m);
}

/// With equal delay bounds, the messages within the bounds are those that
/// arrive exactly `delay` after the message is sent, that moment included.
pub proof fn lemma_point_window(t: Seq<TraceEntry>, m: int, d: int, delay: int)
    ensures
        in_window(t, m, d, delay, delay) <==> t[d].destination_timestamp == t[m].source_timestamp
            + delay,
{
}

/// The test for a message that stands in `msgs` behind place `i`.
pub open spec fn sent_later(msgs: Seq<MessageId>, i: int) -> spec_fn(MessageId) -> bool {
    |id: MessageId| exists|j: int| i < j < msgs.len() && #[trigger] msgs[j] == id
}

/// Every message of `msgs` is a message of the trace that goes to `dst` and
/// arrives within the delay bounds, and none stands twice in `msgs`.
pub open spec fn all_delivered_to(
    t: Seq<TraceEntry>,
    msgs: Seq<MessageId>,
    min_delay: int,
    max_delay: int,
    dst: DestinationId,
) -> bool {
    &&& msgs.no_duplicates()
    &&& forall|j: int|
        0 <= j < msgs.len() ==> {
            &&& (#[trigger] msgs[j]).0 < t.len()
            &&& t[msgs[j].0 as int].destination_id == dst
            &&& in_window(t, msgs[j].0 as int, msgs[j].0 as int, min_delay, max_delay)
        }
}

/// After message `i`, the true destination is a candidate, and it has at
/// least as many unassigned messages left as later messages of the source
/// arrive within the delay bounds of message `i`.
proof fn lemma_enough_left(
    t: Seq<TraceEntry>,
    msgs: Seq<MessageId>,
    i: int,
    min_delay: int,
    max_delay: int,
    dst: DestinationId,
)
    requires
        t.len() <= u64::MAX,
        all_delivered_to(t, msgs, min_delay, max_delay, dst),
        0 <= i < msgs.len(),
    ensures
        candidates(t, msgs, i, min_delay, max_delay).contains_key(dst),
        candidates(t, msgs, i, min_delay, max_delay)[dst] >= window_ids_to(
            t,
            msgs[i].0 as int,
            min_delay,
            max_delay,
            dst,
        ).filter(sent_later(msgs, i)).len(),
    decreases i,
{
    let m = msgs[i];
    let b = window_ids_to(t, m.0 as int, min_delay, max_delay, dst);
    let later = sent_later(msgs, i);
    lemma_window_to_members(t, m.0 as int, min_delay, max_delay, dst, m.0 as int);
    assert(b.contains(m));
    let at = choose|x: int| 0 <= x < b.len() && b[x] == m;
    assert(!later(m)) by {
        if later(m) {
            let j = choose|j: int| i < j < msgs.len() && #[trigger] msgs[j] == m;
            assert(msgs[i] != msgs[j]);
        }
    }
    if i == 0 {
        let dl = delta(t, None, m.0 as int, min_delay, max_delay);
        lemma_distance_from_nothing(b);
        assert(dl.contains_key(dst));
        assert(dl[dst] == (b.len(), 0nat));
        assert(candidate_count(None, dl, dst) == b.len());
        let all = |id: MessageId| true;
        lemma_filter_all(b, all);
        lemma_filter_strictly_stronger(b, all, later, at);
        assert(survives(None, dl, dst));
    } else {
        let pm = msgs[i - 1];
        let a = window_ids_to(t, pm.0 as int, min_delay, max_delay, dst);
        let before = sent_later(msgs, i - 1);
        lemma_enough_left(t, msgs, i - 1, min_delay, max_delay, dst);
        let prev = candidates(t, msgs, i - 1, min_delay, max_delay);
        let left = prev[dst];
        assert(left >= a.filter(before).len());
        let dl = delta(t, Some(pm.0 as int), m.0 as int, min_delay, max_delay);
        assert(dl.contains_key(dst));
        let added = added_count(a, b);
        let overlap = overlap_count(a, b);
        assert(dl[dst] == (added, overlap));
        let shared = both(before, member_of(a));
        let fresh = but_not(before, member_of(a));
        // the later messages of the source that are shared were left unassigned
        assert(b.filter(shared).len() <= a.filter(before).len()) by {
            lemma_filter_within(a, b, before, shared);
        }
        assert(b.filter(shared).len() <= overlap) by {
            lemma_filter_stronger(b, member_of(a), shared);
        }
        // the later messages of the source that are new are among the added
        assert(b.filter(fresh).len() <= added) by {
            lemma_filter_stronger(b, not_member_of(a), fresh);
        }
        lemma_filter_split(b, before, member_of(a));
        // the message itself is among them, and is not behind itself
        assert(before(m)) by {
            assert(i - 1 < i < msgs.len() && msgs[i] == m);
        }
        assert(b.filter(later).len() + 1 <= b.filter(before).len()) by {
            assert forall|x: int| 0 <= x < b.len() && later(#[trigger] b[x]) implies before(
                b[x],
            ) by {
                let j = choose|j: int| i < j < msgs.len() && #[trigger] msgs[j] == b[x];
                assert(i - 1 < j < msgs.len() && msgs[j] == b[x]);
            }
            lemma_filter_strictly_stronger(b, before, later, at);
        }
        let count = candidate_count(Some(prev), dl, dst);
        assert(count == added + if left <= overlap {
            left
        } else {
            overlap
        });
        assert(count >= b.filter(later).len() + 1);
        assert(survives(Some(prev), dl, dst));
    }
}

/// Where every message of `msgs` goes to `dst` and arrives within the delay
/// bounds, `dst` is a candidate after each of them.
pub proof fn lemma_true_destination_stays(
    t: Seq<TraceEntry>,
    msgs: Seq<MessageId>,
    i: int,
    min_delay: int,
    max_delay: int,
    dst: DestinationId,
)
    requires
        t.len() <= u64::MAX,
        all_delivered_to(t, msgs, min_delay, max_delay, dst),
        0 <= i < msgs.len(),
    ensures
        candidates(t, msgs, i, min_delay, max_delay).contains_key(dst),
{
    lemma_enough_left(t, msgs, i, min_delay, max_delay, dst);
}

/// Where every message of source `s` goes to `dst` and arrives within the
/// delay bounds, `dst` is a candidate after every message of `s`.
pub proof fn lemma_partner_stays_candidate(
    t: Seq<TraceEntry>,
    s: SourceId,
    i: int,
    min_delay: int,
    max_delay: int,
    dst: DestinationId,
)
    requires
        t.len() <= u64::MAX,
        forall|k: int|
            0 <= k < t.len() && (#[trigger] t[k]).source_id == s ==> t[k].destination_id == dst
                && in_window(t, k, k, min_delay, max_delay),
        0 <= i < source_messages(t, s).len(),
    ensures
        candidates(t, source_messages(t, s), i, min_delay, max_delay).contains_key(dst),
{
    let ids = all_ids(t.len());
    let msgs = source_messages(t, s);
    let p = sent_by(sources_of(t), s);
    assert(ids.no_duplicates());
    lemma_filter_distinct(ids, p);
    assert forall|j: int| 0 <= j < msgs.len() implies {
        &&& (#[trigger] msgs[j]).0 < t.len()
        &&& t[msgs[j].0 as int].destination_id == dst
        &&& in_window(t, msgs[j].0 as int, msgs[j].0 as int, min_delay, max_delay)
    } by {
        ids.lemma_filter_pred(p, j);
        let k = msgs[j].0 as int;
        assert(t[k].source_id == s);
    }
    lemma_true_destination_stays(t, msgs, i, min_delay, max_delay, dst);
}

/// A trace of a single message has one source with one message, after which
/// the destination of the message is the only candidate if the message
/// arrives within the delay bounds, and no destination is one if it does not.
pub proof fn lemma_single_message(t: Seq<TraceEntry>, min_delay: int, max_delay: int)
    requires
        t.len() == 1,
        t[0].source_id == SourceId(0),
    ensures
        source_messages(t, SourceId(0)) == seq![MessageId(0)],
        candidates(t, seq![MessageId(0)], 0, min_delay, max_delay).dom() == if in_window(
            t,
            0,
            0,
            min_delay,
            max_delay,
        ) {
            set![t[0].destination_id]
        } else {
            Set::<DestinationId>::empty()
        },
{
    let ids = all_ids(1);
    let one = seq![MessageId(0)];
    assert(ids =~= one);
    lemma_filter_all(ids, sent_by(sources_of(t), SourceId(0)));
    let msgs = one;
    let dl = delta(t, None, 0, min_delay, max_delay);
    let c = candidates(t, msgs, 0, min_delay, max_delay);
    assert(c == merge_step(None, dl));
    let dst = t[0].destination_id;
    assert forall|d: DestinationId| c.contains_key(d) <==> (in_window(
        t,
        0,
        0,
        min_delay,
        max_delay,
    ) && d == dst) by {
        lemma_window_to_members(t, 0, min_delay, max_delay, d, 0);
        let to = window_ids_to(t, 0, min_delay, max_delay, d);
        lemma_distance_from_nothing(to);
        if to.len() > 0 {
            assert(to[0].0 < 1);
            assert(to[0] == MessageId(0));
            assert(to.contains(MessageId(0)));
        }
        if in_window(t, 0, 0, min_delay, max_delay) && d == dst {
            assert(to.contains(MessageId(0)));
            assert(dl.contains_key(d));
            assert(candidate_count(None, dl, d) == to.len());
        }
    }
    if in_window(t, 0, 0, min_delay, max_delay) {
        assert(c.dom() =~= set![dst]);
    } else {
        assert(c.dom() =~= Set::<DestinationId>::empty());
    }
}

/// Two ascending sequences of the same destinations are equal.
pub proof fn lemma_ascending_unique(a: Seq<DestinationId>, b: Seq<DestinationId>)
    requires
        ascending_destinations(a),
        ascending_destinations(b),
        a.to_set() == b.to_set(),
    ensures
        a == b,
    decreases a.len(),
{
    if a.len() == 0 {
        if b.len() > 0 {
            assert(b.to_set().contains(b[0]));
            assert(a.contains(b[0]));
        }
        assert(a =~= b);
    } else {
        let x = a.last();
        assert(a.to_set().contains(x));
        assert(b.contains(x));
        let y = b.last();
        assert(b.to_set().contains(y));
        assert(a.contains(y));
        let ix = choose|i: int| 0 <= i < b.len() && b[i] == x;
        let iy = choose|i: int| 0 <= i < a.len() && a[i] == y;
        if ix < b.len() - 1 {
            assert(b[ix].0 < b[b.len() - 1].0);
        }
        if iy < a.len() - 1 {
            assert(a[iy].0 < a[a.len() - 1].0);
        }
        assert(x == y);
        let a0 = a.drop_last();
        let b0 = b.drop_last();
        assert forall|d: DestinationId| a0.to_set().contains(d) <==> b0.to_set().contains(d) by {
            if a0.contains(d) {
                let i = choose|i: int| 0 <= i < a0.len() && a0[i] == d;
                assert(a[i].0 < a[a.len() - 1].0);
                assert(a.to_set().contains(d));
                assert(b.contains(d));
                let j = choose|j: int| 0 <= j < b.len() && b[j] == d;
                assert(b0[j] == d);
            }
            if b0.contains(d) {
                let i = choose|i: int| 0 <= i < b0.len() && b0[i] == d;
                assert(b[i].0 < b[b.len() - 1].0);
                assert(b.to_set().contains(d));
                assert(a.contains(d));
                let j = choose|j: int| 0 <= j < a.len() && a[j] == d;
                assert(a0[j] == d);
            }
        }
        assert(a0.to_set() =~= b0.to_set());
        lemma_ascending_unique(a0, b0);
        assert(a =~= a0.push(x));
        assert(b =~= b0.push(y));
    }
}

/// The result is determined by the trace and the delay bounds: two results
/// for the same input hold the same messages and the same destinations in
/// the same order.
pub proof fn lemma_result_is_determined(
    t: Seq<TraceEntry>,
    min_delay: int,
    max_delay: int,
    r1: Seq<Vec<(MessageId, Vec<DestinationId>)>>,
    r2: Seq<Vec<(MessageId, Vec<DestinationId>)>>,
)
    requires
        is_result::<OutputFull>(t, min_delay, max_delay, r1),
        is_result::<OutputFull>(t, min_delay, max_delay, r2),
    ensures
        r1.len() == r2.len(),
        forall|s: int| 0 <= s < r1.len() ==> (#[trigger] r1[s])@.len() == r2[s]@.len(),
        forall|s: int, i: int|
            0 <= s < r1.len() && 0 <= i < r1[s]@.len() ==> (#[trigger] r1[s]@[i]).0 == r2[s]@[i].0
                && r1[s]@[i].1@ == r2[s]@[i].1@,
{
    assert forall|s: int, i: int| 0 <= s < r1.len() && 0 <= i < r1[s]@.len() implies (
    #[trigger] r1[s]@[i]).0 == r2[s]@[i].0 && r1[s]@[i].1@ == r2[s]@[i].1@ by {
        let msgs = source_messages(t, SourceId(s as u64));
        assert(is_source_result::<OutputFull>(t, msgs, min_delay, max_delay, r1[s]@));
        assert(is_source_result::<OutputFull>(t, msgs, min_delay, max_delay, r2[s]@));
        assert(r1[s]@[i].0 == msgs[i]);
        assert(r2[s]@[i].0 == msgs[i]);
        lemma_ascending_unique(r1[s]@[i].1@, r2[s]@[i].1@);
    }
    assert forall|s: int| 0 <= s < r1.len() implies (#[trigger] r1[s])@.len() == r2[s]@.len() by {
        let msgs = source_messages(t, SourceId(s as u64));
        assert(is_source_result::<OutputFull>(t, msgs, min_delay, max_delay, r1[s]@));
        assert(is_source_result::<OutputFull>(t, msgs, min_delay, max_delay, r2[s]@));
    }
}

/// The sizes that are put out are the numbers of the destinations that are
/// put out.
pub proof fn lemma_sizes_are_cardinalities(
    t: Seq<TraceEntry>,
    min_delay: int,
    max_delay: int,
    full: Seq<Vec<(MessageId, Vec<DestinationId>)>>,
    sizes: Seq<Vec<(MessageId, usize)>>,
)
    requires
        is_result::<OutputFull>(t, min_delay, max_delay, full),
        is_result::<OutputSizes>(t, min_delay, max_delay, sizes),
    ensures
        full.len() == sizes.len(),
        forall|s: int| 0 <= s < full.len() ==> (#[trigger] full[s])@.len() == sizes[s]@.len(),
        forall|s: int, i: int|
            0 <= s < full.len() && 0 <= i < full[s]@.len() ==> (#[trigger] full[s]@[i]).0
                == sizes[s]@[i].0 && full[s]@[i].1@.len() == sizes[s]@[i].1,
{
    assert forall|s: int, i: int| 0 <= s < full.len() && 0 <= i < full[s]@.len() implies (
    #[trigger] full[s]@[i]).0 == sizes[s]@[i].0 && full[s]@[i].1@.len() == sizes[s]@[i].1 by {
        let msgs = source_messages(t, SourceId(s as u64));
        assert(is_source_result::<OutputFull>(t, msgs, min_delay, max_delay, full[s]@));
        assert(is_source_result::<OutputSizes>(t, msgs, min_delay, max_delay, sizes[s]@));
        assert(full[s]@[i].0 == msgs[i]);
        assert(sizes[s]@[i].0 == msgs[i]);
        lemma_ascending_distinct(full[s]@[i].1@);
    }
    assert forall|s: int| 0 <= s < full.len() implies (#[trigger] full[s])@.len()
        == sizes[s]@.len() by {
        let msgs = source_messages(t, SourceId(s as u64));
        assert(is_source_result::<OutputFull>(t, msgs, min_delay, max_delay, full[s]@));
        assert(is_source_result::<OutputSizes>(t, msgs, min_delay, max_delay, sizes[s]@));
    }
}

} // verus!
