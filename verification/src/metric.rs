//! The relationship anonymity that a trace leaves to its sources.
//!
//! A message that a source sends at time `t` arrives at its destination no
//! earlier than `t + min_delay` and no later than `t + max_delay`. Every
//! message of the trace that arrives within these bounds may be the one that
//! was sent: together they are the anonymity set of the sent message. From the
//! anonymity sets of the messages of one source follows which destinations
//! can be the partner of that source.

use crate::containers::{
    added_count, ascending_destinations, has_message_to, lemma_ascending_distinct,
    lemma_distance_from_nothing, overlap_count, sent_to, DestinationTable, MessageSet,
};
use crate::ids::{DestinationId, MessageId, SourceId};
use crate::seqs::{lemma_filter_all, lemma_filter_none};
use crate::sorting::{lemma_filter_sorted, lemma_sorted_stays, sorted_by_key, SortKey};
use crate::trace::{
    destinations_of, source_count, sources_of, valid_trace, DestinationMapping, Trace, TraceEntry,
};
use vstd::prelude::*;

verus! {

/// The message IDs of a trace of `n` entries, in ascending order.
pub open spec fn all_ids(n: nat) -> Seq<MessageId> {
    Seq::new(n, |i: int| MessageId(i as u64))
}

/// Message `d` of the trace arrives within the delay bounds of message `m`:
/// no earlier than `min_delay` and no later than `max_delay` after `m` was
/// sent.
pub open spec fn in_window(
    t: Seq<TraceEntry>,
    m: int,
    d: int,
    min_delay: int,
    max_delay: int,
) -> bool {
    t[m].source_timestamp + min_delay <= t[d].destination_timestamp <= t[m].source_timestamp
        + max_delay
}

/// The test for a message that arrives within the delay bounds of message `m`.
pub open spec fn arrives_in_window(
    t: Seq<TraceEntry>,
    m: int,
    min_delay: int,
    max_delay: int,
) -> spec_fn(MessageId) -> bool {
    |id: MessageId| id.0 < t.len() && in_window(t, m, id.0 as int, min_delay, max_delay)
}

/// The anonymity set of message `m`: the messages that arrive within its
/// delay bounds, in ascending order.
pub open spec fn window_ids(t: Seq<TraceEntry>, m: int, min_delay: int, max_delay: int) -> Seq<
    MessageId,
> {
    all_ids(t.len()).filter(arrives_in_window(t, m, min_delay, max_delay))
}

/// The part of the anonymity set of message `m` that arrives at destination
/// `d`.
pub open spec fn window_ids_to(
    t: Seq<TraceEntry>,
    m: int,
    min_delay: int,
    max_delay: int,
    d: DestinationId,
) -> Seq<MessageId> {
    window_ids(t, m, min_delay, max_delay).filter(sent_to(destinations_of(t), d))
}

/// The part of the anonymity set of the previous message of the source that
/// arrives at destination `d`; nothing where there is no previous message.
pub open spec fn previous_ids_to(
    t: Seq<TraceEntry>,
    prev: Option<int>,
    min_delay: int,
    max_delay: int,
    d: DestinationId,
) -> Seq<MessageId> {
    match prev {
        Some(p) => window_ids_to(t, p, min_delay, max_delay, d),
        None => Seq::empty(),
    }
}

/// How the anonymity set of message `m` differs from that of the previous
/// message `prev` of the same source: for each destination at which a message
/// of the set arrives, how many of its messages there are new, and how many
/// it shares with the previous set.
pub open spec fn delta(
    t: Seq<TraceEntry>,
    prev: Option<int>,
    m: int,
    min_delay: int,
    max_delay: int,
) -> Map<DestinationId, (nat, nat)> {
    Map::new(
        |d: DestinationId| window_ids_to(t, m, min_delay, max_delay, d).len() > 0,
        |d: DestinationId|
            (
                added_count(
                    previous_ids_to(t, prev, min_delay, max_delay, d),
                    window_ids_to(t, m, min_delay, max_delay, d),
                ),
                overlap_count(
                    previous_ids_to(t, prev, min_delay, max_delay, d),
                    window_ids_to(t, m, min_delay, max_delay, d),
                ),
            ),
    )
}

/// The counts of a table, as natural numbers.
pub open spec fn as_counts(m: Map<DestinationId, usize>) -> Map<DestinationId, nat> {
    Map::new(|d: DestinationId| m.contains_key(d), |d: DestinationId| m[d] as nat)
}

/// The pairs of counts of a table, as natural numbers.
pub open spec fn as_deltas(m: Map<DestinationId, (usize, usize)>) -> Map<
    DestinationId,
    (nat, nat),
> {
    Map::new(
        |d: DestinationId| m.contains_key(d),
        |d: DestinationId| (m[d].0 as nat, m[d].1 as nat),
    )
}

/// How many messages at destination `d` were left unassigned after the
/// previous message of the source; none before its first message.
pub open spec fn remaining_before(
    prev: Option<Map<DestinationId, nat>>,
    d: DestinationId,
) -> nat {
    match prev {
        Some(p) => p[d],
        None => 0,
    }
}

/// How many messages at destination `d` can be the one that the source has
/// just sent: those that are new in the anonymity set, and of those that it
/// shares with the previous one as many as were left unassigned.
pub open spec fn candidate_count(
    prev: Option<Map<DestinationId, nat>>,
    delta: Map<DestinationId, (nat, nat)>,
    d: DestinationId,
) -> nat {
    let left = remaining_before(prev, d);
    let (added, overlap) = delta[d];
    if left <= overlap {
        added + left
    } else {
        added + overlap
    }
}

/// Destination `d` stays a candidate: it was one after the previous message,
/// if there was one, and it has a message that can be the one just sent.
pub open spec fn survives(
    prev: Option<Map<DestinationId, nat>>,
    delta: Map<DestinationId, (nat, nat)>,
    d: DestinationId,
) -> bool {
    &&& delta.contains_key(d)
    &&& match prev {
        Some(p) => p.contains_key(d),
        None => true,
    }
    &&& candidate_count(prev, delta, d) >= 1
}

/// The candidate destinations after a message with the anonymity set change
/// `delta`, each with the number of its messages that are left unassigned
/// once one of them is assigned to the message.
pub open spec fn merge_step(
    prev: Option<Map<DestinationId, nat>>,
    delta: Map<DestinationId, (nat, nat)>,
) -> Map<DestinationId, nat> {
    Map::new(
        |d: DestinationId| survives(prev, delta, d),
        |d: DestinationId| (candidate_count(prev, delta, d) - 1) as nat,
    )
}

/// The candidate destinations of a source after its message number `i`, each
/// with the number of its messages that are left unassigned. `msgs` are the
/// messages of the source in the order in which the trace holds them.
pub open spec fn candidates(
    t: Seq<TraceEntry>,
    msgs: Seq<MessageId>,
    i: int,
    min_delay: int,
    max_delay: int,
) -> Map<DestinationId, nat>
    decreases i,
{
    if i <= 0 {
        merge_step(None, delta(t, None, msgs[0].0 as int, min_delay, max_delay))
    } else {
        merge_step(
            Some(candidates(t, msgs, i - 1, min_delay, max_delay)),
            delta(t, Some(msgs[i - 1].0 as int), msgs[i].0 as int, min_delay, max_delay),
        )
    }
}

/// The test for a message that `sources` has sent by `s`.
pub open spec fn sent_by(sources: Seq<SourceId>, s: SourceId) -> spec_fn(MessageId) -> bool {
    |m: MessageId| m.0 < sources.len() && sources[m.0 as int] == s
}

/// The messages of source `s`, in ascending order.
pub open spec fn source_messages(t: Seq<TraceEntry>, s: SourceId) -> Seq<MessageId> {
    all_ids(t.len()).filter(sent_by(sources_of(t), s))
}

/// The messages of a table are in ascending order, and marked so.
pub open spec fn sorted_buckets(t: DestinationTable<MessageSet>) -> bool {
    &&& t.wf()
    &&& forall|d: DestinationId| #[trigger] t@.contains_key(d) ==> t@[d].wf() && t@[d].is_sorted()
}

/// The messages that `previous` holds for destination `d`.
pub open spec fn previous_bucket(
    previous: Option<DestinationTable<MessageSet>>,
    d: DestinationId,
) -> Seq<MessageId> {
    match previous {
        Some(p) => if p@.contains_key(d) {
            p@[d]@
        } else {
            Seq::empty()
        },
        None => Seq::empty(),
    }
}

/// The split of an anonymity set is that of message `m` of the trace.
pub open spec fn is_split_of(
    split: DestinationTable<MessageSet>,
    t: Seq<TraceEntry>,
    m: int,
    min_delay: int,
    max_delay: int,
) -> bool {
    &&& sorted_buckets(split)
    &&& forall|d: DestinationId|
        split@.contains_key(d) <==> window_ids_to(t, m, min_delay, max_delay, d).len() > 0
    &&& forall|d: DestinationId| #[trigger]
        split@.contains_key(d) ==> split@[d]@ == window_ids_to(t, m, min_delay, max_delay, d)
}

/// `r` holds, for each message of `msgs` in turn, the message and what is
/// put out for the candidate destinations after it.
pub open spec fn is_source_result<T: OutputMapper>(
    t: Seq<TraceEntry>,
    msgs: Seq<MessageId>,
    min_delay: int,
    max_delay: int,
    r: Seq<(MessageId, T::Item)>,
) -> bool {
    &&& r.len() == msgs.len()
    &&& forall|i: int|
        0 <= i < msgs.len() ==> (#[trigger] r[i]).0 == msgs[i] && T::maps_to(
            candidates(t, msgs, i, min_delay, max_delay).dom(),
            r[i].1,
        )
}

/// `r` holds, for each source in the order of the source IDs, the result for
/// the messages of that source.
pub open spec fn is_result<T: OutputMapper>(
    t: Seq<TraceEntry>,
    min_delay: int,
    max_delay: int,
    r: Seq<Vec<(MessageId, T::Item)>>,
) -> bool {
    &&& r.len() == source_count(t)
    &&& forall|s: int|
        0 <= s < r.len() ==> is_source_result::<T>(
            t,
            source_messages(t, SourceId(s as u64)),
            min_delay,
            max_delay,
            (#[trigger] r[s])@,
        )
}

/// Whether a message that arrives at `arrival` does so earlier than `delay`
/// after `sent`.
fn arrives_before(arrival: i128, sent: i128, delay: i128) -> (b: bool)
    ensures
        b == (arrival < sent + delay),
{
    match sent.checked_add(delay) {
        Some(bound) => arrival < bound,
        None => delay > 0,
    }
}

/// Whether a message that arrives at `arrival` does so later than `delay`
/// after `sent`.
fn arrives_after(arrival: i128, sent: i128, delay: i128) -> (b: bool)
    ensures
        b == (arrival > sent + delay),
{
    match sent.checked_add(delay) {
        Some(bound) => arrival > bound,
        None => delay < 0,
    }
}

/// The anonymity set of a message: the messages of the trace that arrive no
/// earlier than `min_delay` and no later than `max_delay` after it was sent.
pub fn message_anonymity_set(
    trace: &Trace,
    message: MessageId,
    min_delay: i128,
    max_delay: i128,
) -> (r: MessageSet)
    requires
        message.0 < trace@.len(),
    ensures
        r.wf(),
        r.is_sorted(),
        r@ == window_ids(trace@, message.0 as int, min_delay as int, max_delay as int),
{
    let entries = trace.entries_vec();
    let ghost t = trace@;
    let n: usize = entries.len();
    let sent: i128 = entries[message.0 as usize].source_timestamp;
    let ghost m = message.0 as int;
    // Find the first relevant index (whose timestamp is _not_ less than the
    // lower bound). The trace entries are sorted by time of arrival.
    let mut lo: usize = 0;
    let mut hi: usize = n;
    while lo < hi
        invariant
            t == entries@,
            sorted_by_key(t),
            n == t.len(),
            lo <= hi <= n,
            forall|i: int| 0 <= i < lo ==> (#[trigger] t[i]).destination_timestamp < sent + min_delay,
            forall|i: int|
                hi <= i < n ==> (#[trigger] t[i]).destination_timestamp >= sent + min_delay,
        decreases hi - lo,
    {
        let mid: usize = lo + (hi - lo) / 2;
        if arrives_before(entries[mid].destination_timestamp, sent, min_delay) {
            proof {
                assert forall|i: int| 0 <= i < mid + 1 implies (
                #[trigger] t[i]).destination_timestamp < sent + min_delay by {
                    assert(t[i].sort_key() <= t[mid as int].sort_key());
                }
            }
            lo = mid + 1;
        } else {
            proof {
                assert forall|i: int| mid <= i < n implies (#[trigger] t[i]).destination_timestamp
                    >= sent + min_delay by {
                    assert(t[mid as int].sort_key() <= t[i].sort_key());
                }
            }
            hi = mid;
        }
    }
    let mut this_msg_anonset = MessageSet::new();
    let mut k: usize = lo;
    while k < n && !arrives_after(entries[k].destination_timestamp, sent, max_delay)
        invariant
            t == entries@,
            n == t.len(),
            lo <= k <= n,
            this_msg_anonset.wf(),
            this_msg_anonset.is_sorted(),
            this_msg_anonset@ == all_ids(n as nat).subrange(lo as int, k as int),
            forall|i: int| lo <= i < k ==> (#[trigger] t[i]).destination_timestamp <= sent + max_delay,
        decreases n - k,
    {
        this_msg_anonset.insert(MessageId::new(k as u64));
        proof {
            assert(this_msg_anonset@ =~= all_ids(n as nat).subrange(lo as int, k + 1));
        }
        k += 1;
    }
    proof {
        let p = arrives_in_window(t, m, min_delay as int, max_delay as int);
        let s = all_ids(n as nat);
        assert forall|i: int| 0 <= i < lo implies !p(#[trigger] s[i]) by {
            assert(t[i].destination_timestamp < sent + min_delay);
        }
        assert forall|i: int| lo <= i < k implies p(#[trigger] s[i]) by {
            assert(t[i].destination_timestamp <= sent + max_delay);
            assert(t[i].destination_timestamp >= sent + min_delay);
        }
        assert forall|i: int| k <= i < n implies !p(#[trigger] s[i]) by {
            assert(t[k as int].sort_key() <= t[i].sort_key());
        }
        lemma_filter_range(n as nat, lo as int, k as int, p);
    }
    this_msg_anonset
}

/// Compute the relative difference between two message anonymity sets.
///
/// Returns a pair of `usize`s, with the following meaning:
/// 1. the number of _newly added_ messages from `set1` to `set2`
/// 2. the number of _shared_ messages (overlap) between the two sets
pub fn relative_set_distance(set1: &MessageSet, set2: &MessageSet) -> (r: (usize, usize))
    requires
        set1.wf(),
        set2.wf(),
        set1.is_sorted(),
        set2.is_sorted(),
    ensures
        r.0 == added_count(set1@, set2@),
        r.1 == overlap_count(set1@, set2@),
        r.0 + r.1 == set2@.len(),
{
    set1.distance(set2)
}

/// Split an anonymity set by the destination of its messages
pub fn split_by_destination(set: MessageSet, destination_mapping: &DestinationMapping) -> (r:
    DestinationTable<MessageSet>)
    requires
        set.wf(),
        forall|i: int| 0 <= i < set@.len() ==> (#[trigger] set@[i]).0 < destination_mapping@.len(),
    ensures
        sorted_buckets(r),
        forall|d: DestinationId|
            r@.contains_key(d) <==> has_message_to(set@, destination_mapping@, d),
        forall|d: DestinationId| #[trigger]
            r@.contains_key(d) ==> r@[d]@ == crate::sorting::stably_sorted(
                set@.filter(sent_to(destination_mapping@, d)),
            ),
{
    set.split_by(destination_mapping)
}

/// The anonymity set of a message, split by the destination of its messages.
pub fn split_anonymity_set(
    trace: &Trace,
    message: MessageId,
    min_delay: i128,
    max_delay: i128,
) -> (r: DestinationTable<MessageSet>)
    requires
        message.0 < trace@.len(),
    ensures
        is_split_of(r, trace@, message.0 as int, min_delay as int, max_delay as int),
{
    let this_msg_anonset = message_anonymity_set(trace, message, min_delay, max_delay);
    let destination_mapping = trace.get_destination_mapping();
    let entries = trace.entries_vec();
    let n: usize = entries.len();
    let ghost t = trace@;
    let ghost m = message.0 as int;
    proof {
        assert(t.len() == n);
        assert forall|d: DestinationId| true implies {
            &&& has_message_to(
                window_ids(t, m, min_delay as int, max_delay as int),
                destinations_of(t),
                d,
            ) <==> (#[trigger] window_ids_to(t, m, min_delay as int, max_delay as int, d)).len()
                > 0
            &&& crate::sorting::stably_sorted(
                window_ids_to(t, m, min_delay as int, max_delay as int, d),
            ) == window_ids_to(t, m, min_delay as int, max_delay as int, d)
        } by {
            lemma_split_of_window(t, m, min_delay as int, max_delay as int, d);
        }
        lemma_split_of_window(t, m, min_delay as int, max_delay as int, DestinationId(0));
    }
    let r = split_by_destination(this_msg_anonset, destination_mapping);
    proof {
        assert forall|d: DestinationId|
            r@.contains_key(d) <==> window_ids_to(
                t,
                m,
                min_delay as int,
                max_delay as int,
                d,
            ).len() > 0 by {
            assert(has_message_to(
                window_ids(t, m, min_delay as int, max_delay as int),
                destinations_of(t),
                d,
            ) <==> window_ids_to(t, m, min_delay as int, max_delay as int, d).len() > 0);
        }
    }
    r
}

/// The relative difference, per destination, of the anonymity set `this` from
/// the anonymity set `previous` of the message before it.
pub fn relative_difference(
    previous: &Option<DestinationTable<MessageSet>>,
    this: &DestinationTable<MessageSet>,
) -> (r: DestinationTable<(usize, usize)>)
    requires
        sorted_buckets(*this),
        match previous {
            Some(p) => sorted_buckets(*p),
            None => true,
        },
    ensures
        r.wf(),
        forall|d: DestinationId| r@.contains_key(d) <==> this@.contains_key(d),
        forall|d: DestinationId| #[trigger]
            r@.contains_key(d) ==> {
                &&& r@[d].0 == added_count(previous_bucket(*previous, d), this@[d]@)
                &&& r@[d].1 == overlap_count(previous_bucket(*previous, d), this@[d]@)
                &&& r@[d].0 + r@[d].1 == this@[d]@.len()
                &&& r@[d].0 + r@[d].1 <= usize::MAX
            },
{
    let ghost keys = this.key_seq();
    let n: usize = this.len();
    let mut r: DestinationTable<(usize, usize)> = DestinationTable::new();
    let mut x: usize = 0;
    while x < n
        invariant
            sorted_buckets(*this),
            match previous {
                Some(p) => sorted_buckets(*p),
                None => true,
            },
            keys == this.key_seq(),
            n == keys.len(),
            x <= n,
            r.wf(),
            forall|d: DestinationId| #[trigger]
                r@.contains_key(d) <==> keys.take(x as int).contains(d),
            forall|d: DestinationId| #[trigger]
                r@.contains_key(d) ==> {
                    &&& r@[d].0 == added_count(previous_bucket(*previous, d), this@[d]@)
                    &&& r@[d].1 == overlap_count(previous_bucket(*previous, d), this@[d]@)
                    &&& r@[d].0 + r@[d].1 == this@[d]@.len()
                    &&& r@[d].0 + r@[d].1 <= usize::MAX
                },
        decreases n - x,
    {
        let dest: DestinationId = this.key_at(x);
        let messages: &MessageSet = this.value_at(x);
        proof {
            this.lemma_entry(x as int);
            assert(this@.contains_key(dest));
            lemma_distance_from_nothing(messages@);
        }
        let size: usize = messages.len();
        let difference: (usize, usize) = match previous {
            // all messages are new
            None => (size, 0),
            Some(p) => match p.get(dest) {
                None => (size, 0),
                Some(previous_messages) => relative_set_distance(previous_messages, messages),
            },
        };
        let ghost before = r@;
        r.insert(dest, difference);
        proof {
            let t0 = keys.take(x as int);
            let t1 = keys.take(x + 1);
            assert(t1 == t0.push(dest));
            assert forall|d: DestinationId| #[trigger] r@.contains_key(d) <==> t1.contains(d) by {
                assert(before.contains_key(d) <==> t0.contains(d));
                if t1.contains(d) {
                    let i = choose|i: int| 0 <= i < t1.len() && t1[i] == d;
                    if i < x {
                        assert(t0[i] == d);
                    }
                }
                if t0.contains(d) {
                    let i = choose|i: int| 0 <= i < t0.len() && t0[i] == d;
                    assert(t1[i] == d);
                }
                assert(t1[x as int] == dest);
            }
        }
        x += 1;
    }
    proof {
        assert(keys.take(n as int) == keys);
    }
    r
}

/// Helper object to merge the "condensed" anonymity sets of a source into a
/// sequence of destination candidates (or the number thereof).
pub struct AnonymitySetMerger {
    // number of candidate messages per destination after the previous message
    prev_destination_candidates: Option<DestinationTable<usize>>,
}

impl AnonymitySetMerger {
    /// The table of the candidates is in order.
    pub closed spec fn wf(&self) -> bool {
        match self.prev_destination_candidates {
            Some(t) => t.wf(),
            None => true,
        }
    }

    /// The candidate destinations after the previous message, each with the
    /// number of its messages that are left unassigned; `None` before the
    /// first message.
    pub closed spec fn remaining(&self) -> Option<Map<DestinationId, nat>> {
        match self.prev_destination_candidates {
            Some(t) => Some(as_counts(t@)),
            None => None,
        }
    }

    /// A merger for a source of which no message was seen yet.
    pub fn new() -> (m: AnonymitySetMerger)
        ensures
            m.wf(),
            m.remaining() is None,
    {
        AnonymitySetMerger { prev_destination_candidates: None }
    }

    /// Takes the change of the anonymity set that the next message of the
    /// source brings, and gives the destinations that are candidates after
    /// it, in ascending order.
    pub fn next_anonymity_set(
        &mut self,
        source_message: MessageId,
        destination_anon_sets: &DestinationTable<(usize, usize)>,
    ) -> (r: Vec<DestinationId>)
        requires
            old(self).wf(),
            destination_anon_sets.wf(),
            forall|d: DestinationId| #[trigger]
                destination_anon_sets@.contains_key(d) ==> destination_anon_sets@[d].0
                    + destination_anon_sets@[d].1 <= usize::MAX,
        ensures
            final(self).wf(),
            final(self).remaining() == Some(
                merge_step(old(self).remaining(), as_deltas(destination_anon_sets@)),
            ),
            ascending_destinations(r@),
            r@.to_set() == merge_step(
                old(self).remaining(),
                as_deltas(destination_anon_sets@),
            ).dom(),
    {
        let ghost prev = self.remaining();
        let ghost delta = as_deltas(destination_anon_sets@);
        let ghost keys = destination_anon_sets.key_seq();
        // number of candidate messages per destination for this source message
        let mut destination_candidates: DestinationTable<usize> = DestinationTable::new();
        let n: usize = destination_anon_sets.len();
        let mut x: usize = 0;
        while x < n
            invariant
                self.wf(),
                prev == self.remaining(),
                delta == as_deltas(destination_anon_sets@),
                keys == destination_anon_sets.key_seq(),
                destination_anon_sets.wf(),
                forall|d: DestinationId| #[trigger]
                    destination_anon_sets@.contains_key(d) ==> destination_anon_sets@[d].0
                        + destination_anon_sets@[d].1 <= usize::MAX,
                n == keys.len(),
                x <= n,
                destination_candidates.wf(),
                forall|d: DestinationId| #[trigger]
                    destination_candidates@.contains_key(d) <==> (survives(prev, delta, d)
                        && keys.take(x as int).contains(d)),
                forall|d: DestinationId| #[trigger]
                    destination_candidates@.contains_key(d) ==> destination_candidates@[d]
                        == candidate_count(prev, delta, d) - 1,
            decreases n - x,
        {
            let destination: DestinationId = destination_anon_sets.key_at(x);
            let (added, overlap) = *destination_anon_sets.value_at(x);
            proof {
                destination_anon_sets.lemma_entry(x as int);
                assert(destination_anon_sets@.contains_key(destination));
                assert(keys.take(x + 1) == keys.take(x as int).push(destination));
            }
            // calculate the number of candidate messages for this destination
            let from_previous_message: Option<usize> = match &self.prev_destination_candidates {
                // For the very first message of this source, pretend all its
                // destinations were seen before, with no candidate message left.
                None => Some(0),
                Some(previous) => match previous.get(destination) {
                    // this destination wasn't a candidate previously, so we don't add it
                    None => None,
                    Some(previous_candidates) => Some(*previous_candidates),
                },
            };
            let ghost before = destination_candidates@;
            match from_previous_message {
                None => {},
                Some(left) => {
                    let candidates: usize = added + if left <= overlap {
                        left
                    } else {
                        overlap
                    };
                    // For this destination to remain a candidate, it must have at least one message
                    if candidates != 0 {
                        // For the next source message, reduce our candidate message
                        // count by one because we have "assigned" one of the messages
                        destination_candidates.insert(destination, candidates - 1);
                    }
                },
            }
            proof {
                let t0 = keys.take(x as int);
                let t1 = keys.take(x + 1);
                assert forall|d: DestinationId| #[trigger]
                    destination_candidates@.contains_key(d) <==> (survives(prev, delta, d)
                        && t1.contains(d)) by {
                    assert(before.contains_key(d) <==> (survives(prev, delta, d) && t0.contains(
                        d,
                    )));
                    if d != destination {
                        assert(destination_candidates@.contains_key(d) == before.contains_key(d));
                        if t1.contains(d) {
                            let i = choose|i: int| 0 <= i < t1.len() && t1[i] == d;
                            assert(t0[i] == d);
                        }
                        if t0.contains(d) {
                            let i = choose|i: int| 0 <= i < t0.len() && t0[i] == d;
                            assert(t1[i] == d);
                        }
                    } else {
                        assert(t1[x as int] == d);
                        if t0.contains(d) {
                            let i = choose|i: int| 0 <= i < t0.len() && t0[i] == d;
                            assert(keys[i] == d);
                            assert(keys[x as int] == d);
                            assert(keys[i].0 < keys[x as int].0);
                        }
                        assert(!t0.contains(d));
                        assert(!before.contains_key(d));
                        assert(delta.contains_key(d));
                        assert(delta[d] == (added as nat, overlap as nat));
                        match from_previous_message {
                            None => {
                                assert(!survives(prev, delta, d));
                            },
                            Some(left) => {
                                assert(remaining_before(prev, d) == left);
                                assert(candidate_count(prev, delta, d) == added + if left
                                    <= overlap {
                                    left
                                } else {
                                    overlap
                                });
                            },
                        }
                    }
                }
            }
            x += 1;
        }
        proof {
            assert(keys.take(n as int) == keys);
            assert forall|d: DestinationId|
                destination_candidates@.contains_key(d) <==> survives(prev, delta, d) by {
                if survives(prev, delta, d) {
                    assert(destination_anon_sets@.contains_key(d));
                }
            }
            assert(as_counts(destination_candidates@) =~= merge_step(prev, delta));
        }
        // The destination anonymity set after this message is now ready.
        let result = destination_candidates.keys();
        // remember the remaining number of message candidates for each destination
        self.prev_destination_candidates = Some(destination_candidates);
        result
    }
}

/// A filter to replace the returned anonymity set by something else
pub trait OutputMapper {
    /// What is put out for an anonymity set.
    type Item;

    /// `item` is what is put out for the anonymity set `set`.
    spec fn maps_to(set: Set<DestinationId>, item: Self::Item) -> bool;

    /// What is put out for the anonymity set with the destinations
    /// `anonymity_set`.
    fn map(anonymity_set: Vec<DestinationId>) -> (item: Self::Item)
        requires
            ascending_destinations(anonymity_set@),
        ensures
            Self::maps_to(anonymity_set@.to_set(), item),
    ;
}

/// Output the full anonymity sets
pub struct OutputFull;

impl OutputMapper for OutputFull {
    type Item = Vec<DestinationId>;

    open spec fn maps_to(set: Set<DestinationId>, item: Vec<DestinationId>) -> bool {
        ascending_destinations(item@) && item@.to_set() == set
    }

    fn map(anonymity_set: Vec<DestinationId>) -> (item: Vec<DestinationId>) {
        // change nothing
        anonymity_set
    }
}

/// Output only the anonymity set sizes
pub struct OutputSizes;

impl OutputMapper for OutputSizes {
    type Item = usize;

    open spec fn maps_to(set: Set<DestinationId>, item: usize) -> bool {
        set.finite() && item == set.len()
    }

    fn map(anonymity_set: Vec<DestinationId>) -> (item: usize) {
        proof {
            lemma_ascending_distinct(anonymity_set@);
        }
        anonymity_set.len()
    }
}

/// The candidate destinations of one source after each of its messages.
///
/// `messages` are the messages of the source, in the order in which the
/// trace holds them.
pub fn source_anonymity_sets<T: OutputMapper>(
    trace: &Trace,
    messages: &Vec<MessageId>,
    min_delay: i128,
    max_delay: i128,
) -> (r: Vec<(MessageId, T::Item)>)
    requires
        forall|i: int| 0 <= i < messages@.len() ==> (#[trigger] messages@[i]).0 < trace@.len(),
    ensures
        is_source_result::<T>(trace@, messages@, min_delay as int, max_delay as int, r@),
{
    let ghost t = trace@;
    let ghost msgs = messages@;
    let mut source_result: Vec<(MessageId, T::Item)> = Vec::new();
    let mut last_msg_anonset: Option<DestinationTable<MessageSet>> = None;
    // helper struct to merge/intersect the anonymity sets over time
    let mut anonset_intersector = AnonymitySetMerger::new();
    let mut i: usize = 0;
    while i < messages.len()
        invariant
            t == trace@,
            msgs == messages@,
            forall|j: int| 0 <= j < msgs.len() ==> (#[trigger] msgs[j]).0 < t.len(),
            i <= msgs.len(),
            source_result@.len() == i,
            forall|j: int|
                0 <= j < i ==> (#[trigger] source_result@[j]).0 == msgs[j] && T::maps_to(
                    candidates(t, msgs, j, min_delay as int, max_delay as int).dom(),
                    source_result@[j].1,
                ),
            anonset_intersector.wf(),
            anonset_intersector.remaining() == if i == 0 {
                None
            } else {
                Some(candidates(t, msgs, i - 1, min_delay as int, max_delay as int))
            },
            match last_msg_anonset {
                Some(p) => i > 0 && is_split_of(
                    p,
                    t,
                    msgs[i - 1].0 as int,
                    min_delay as int,
                    max_delay as int,
                ),
                None => i == 0,
            },
        decreases msgs.len() - i,
    {
        let message: MessageId = messages[i];
        assert(msgs[i as int].0 < t.len());
        let ghost prev: Option<int> = if i == 0 {
            None
        } else {
            Some(msgs[i - 1].0 as int)
        };
        let this_msg_anonset = split_anonymity_set(trace, message, min_delay, max_delay);
        // compute the relative difference (per destination) of the new anonymity set,
        // from the anonymity set of the last message of that source
        let relative_difference = relative_difference(&last_msg_anonset, &this_msg_anonset);
        proof {
            lemma_difference_is_delta(
                t,
                last_msg_anonset,
                prev,
                this_msg_anonset,
                message.0 as int,
                min_delay as int,
                max_delay as int,
                relative_difference,
            );
        }
        // use the aggregated anonymity set delta for computing the next anonymity set
        let anonymity_set = anonset_intersector.next_anonymity_set(message, &relative_difference);
        proof {
            assert(anonset_intersector.remaining() == Some(
                candidates(t, msgs, i as int, min_delay as int, max_delay as int),
            ));
        }
        // map the anonymity set to what we want to output
        let anonymity_set = T::map(anonymity_set);
        let ghost before = source_result@;
        // save it as the next result
        source_result.push((message, anonymity_set));
        proof {
            assert forall|j: int| 0 <= j < i + 1 implies (#[trigger] source_result@[j]).0
                == msgs[j] && T::maps_to(
                candidates(t, msgs, j, min_delay as int, max_delay as int).dom(),
                source_result@[j].1,
            ) by {
                if j < i {
                    assert(source_result@[j] == before[j]);
                }
            }
        }
        // remember the anonymity set, split by destination, for the next iteration
        last_msg_anonset = Some(this_msg_anonset);
        i += 1;
    }
    source_result
}

/// The messages of each source, in ascending order; the sources in the order
/// of their IDs.
pub fn messages_per_source(trace: &Trace) -> (r: Vec<Vec<MessageId>>)
    ensures
        r@.len() == source_count(trace@),
        forall|s: int|
            0 <= s < r@.len() ==> (#[trigger] r@[s])@ == source_messages(
                trace@,
                SourceId(s as u64),
            ),
{
    let entries = trace.entries_vec();
    let ghost t = trace@;
    let n: usize = entries.len();
    let max_source: SourceId = trace.max_source_id();
    let count: usize = max_source.0 as usize + 1;
    let ghost ids = all_ids(n as nat);
    let ghost sources = sources_of(t);
    let mut v: Vec<Vec<MessageId>> = Vec::with_capacity(count);
    let mut s: usize = 0;
    proof {
        assert forall|x: int| 0 <= x < count implies #[trigger] ids.take(0).filter(
            sent_by(sources, SourceId(x as u64)),
        ) == Seq::<MessageId>::empty() by {
            lemma_filter_none(ids.take(0), sent_by(sources, SourceId(x as u64)));
        }
    }
    while s < count
        invariant
            s <= count,
            v@.len() == s,
            forall|x: int| 0 <= x < s ==> (#[trigger] v@[x])@ == Seq::<MessageId>::empty(),
        decreases count - s,
    {
        v.push(Vec::new());
        s += 1;
    }
    let mut k: usize = 0;
    while k < n
        invariant
            t == entries@,
            n == t.len(),
            ids == all_ids(n as nat),
            sources == sources_of(t),
            count == max_source.0 + 1,
            crate::trace::is_max_source(t, max_source.0 as int),
            k <= n,
            v@.len() == count,
            forall|x: int|
                0 <= x < count ==> (#[trigger] v@[x])@ == ids.take(k as int).filter(
                    sent_by(sources, SourceId(x as u64)),
                ),
        decreases n - k,
    {
        let src: u64 = entries[k].source_id.0;
        assert(t[k as int].source_id.0 <= max_source.0);
        let ghost before = v@;
        v[src as usize].push(MessageId::new(k as u64));
        proof {
            assert(ids.take(k + 1) == ids.take(k as int).push(MessageId(k as u64)));
            assert forall|x: int| 0 <= x < count implies (#[trigger] v@[x])@ == ids.take(
                k + 1,
            ).filter(sent_by(sources, SourceId(x as u64))) by {
                ids.take(k as int).lemma_filter_push(
                    MessageId(k as u64),
                    sent_by(sources, SourceId(x as u64)),
                );
                assert(before[x]@ == ids.take(k as int).filter(
                    sent_by(sources, SourceId(x as u64)),
                ));
                if x != src {
                    assert(v@[x] == before[x]);
                }
            }
        }
        k += 1;
    }
    proof {
        assert(ids.take(n as int) == ids);
    }
    v
}

/// The candidate destinations of every source after each of its messages,
/// put out as `T` has it.
pub fn compute_message_anonymity_sets<T: OutputMapper>(
    trace: &Trace,
    min_delay: i128,
    max_delay: i128,
) -> (r: Vec<Vec<(MessageId, T::Item)>>)
    ensures
        is_result::<T>(trace@, min_delay as int, max_delay as int, r@),
{
    let ghost t = trace@;
    // split messages per source
    let messages_per_source = messages_per_source(trace);
    let count: usize = messages_per_source.len();
    let mut result: Vec<Vec<(MessageId, T::Item)>> = Vec::with_capacity(count);
    let mut source: usize = 0;
    while source < count
        invariant
            t == trace@,
            count == messages_per_source@.len(),
            count == source_count(t),
            forall|s: int|
                0 <= s < count ==> (#[trigger] messages_per_source@[s])@ == source_messages(
                    t,
                    SourceId(s as u64),
                ),
            source <= count,
            result@.len() == source,
            forall|s: int|
                0 <= s < source ==> is_source_result::<T>(
                    t,
                    source_messages(t, SourceId(s as u64)),
                    min_delay as int,
                    max_delay as int,
                    (#[trigger] result@[s])@,
                ),
        decreases count - source,
    {
        let messages = &messages_per_source[source];
        proof {
            let msgs = source_messages(t, SourceId(source as u64));
            assert(messages@ == msgs);
            assert forall|i: int| 0 <= i < msgs.len() implies (#[trigger] msgs[i]).0 < t.len() by {
                all_ids(t.len()).lemma_filter_pred(
                    sent_by(sources_of(t), SourceId(source as u64)),
                    i,
                );
            }
        }
        let source_result = source_anonymity_sets::<T>(trace, messages, min_delay, max_delay);
        let ghost before = result@;
        result.push(source_result);
        proof {
            assert forall|s: int| 0 <= s < source + 1 implies is_source_result::<T>(
                t,
                source_messages(t, SourceId(s as u64)),
                min_delay as int,
                max_delay as int,
                (#[trigger] result@[s])@,
            ) by {
                if s < source {
                    assert(result@[s] == before[s]);
                }
            }
        }
        source += 1;
    }
    result
}

/// For every source, in the order of the source IDs, and for each of its
/// messages, in the order of the trace: the destinations that can be the
/// partner of the source after that message, in ascending order.
///
/// The second result is for the same from the point of view of the
/// destinations. It is empty.
pub fn compute_relationship_anonymity(trace: &Trace, min_delay: i128, max_delay: i128) -> (r: (
    Vec<Vec<(MessageId, Vec<DestinationId>)>>,
    Vec<Vec<(MessageId, Vec<DestinationId>)>>,
))
    ensures
        is_result::<OutputFull>(trace@, min_delay as int, max_delay as int, r.0@),
        r.1@.len() == 0,
{
    compute_relationship_anonymity_inner::<OutputFull>(trace, min_delay, max_delay)
}

/// For every source, in the order of the source IDs, and for each of its
/// messages, in the order of the trace: the number of destinations that can
/// be the partner of the source after that message.
///
/// The second result is for the same from the point of view of the
/// destinations. It is empty.
pub fn compute_relationship_anonymity_sizes(
    trace: &Trace,
    min_delay: i128,
    max_delay: i128,
) -> (r: (Vec<Vec<(MessageId, usize)>>, Vec<Vec<(MessageId, usize)>>))
    ensures
        is_result::<OutputSizes>(trace@, min_delay as int, max_delay as int, r.0@),
        r.1@.len() == 0,
{
    compute_relationship_anonymity_inner::<OutputSizes>(trace, min_delay, max_delay)
}

fn compute_relationship_anonymity_inner<T: OutputMapper>(
    trace: &Trace,
    min_delay: i128,
    max_delay: i128,
) -> (r: (Vec<Vec<(MessageId, T::Item)>>, Vec<Vec<(MessageId, T::Item)>>))
    ensures
        is_result::<T>(trace@, min_delay as int, max_delay as int, r.0@),
        r.1@.len() == 0,
{
    let source_relationship_anonymity_sets = compute_message_anonymity_sets::<T>(
        trace,
        min_delay,
        max_delay,
    );
    /* Be wary that this yields only useful results if there is just one source per destination */
    let destination_relationship_anonymity_sets: Vec<Vec<(MessageId, T::Item)>> = Vec::new();
    (source_relationship_anonymity_sets, destination_relationship_anonymity_sets)
}

/// A test that fails below `lo`, holds from `lo` up to `hi` and fails from
/// `hi` on leaves the IDs from `lo` up to `hi`.
proof fn lemma_filter_range(n: nat, lo: int, hi: int, p: spec_fn(MessageId) -> bool)
    requires
        0 <= lo <= hi <= n,
        forall|i: int| 0 <= i < lo ==> !p(#[trigger] all_ids(n)[i]),
        forall|i: int| lo <= i < hi ==> p(#[trigger] all_ids(n)[i]),
        forall|i: int| hi <= i < n ==> !p(#[trigger] all_ids(n)[i]),
    ensures
        all_ids(n).filter(p) == all_ids(n).subrange(lo, hi),
{
    let s = all_ids(n);
    let a = s.subrange(0, lo);
    let b = s.subrange(lo, hi);
    let c = s.subrange(hi, n as int);
    assert(s == a + b + c);
    Seq::filter_distributes_over_add(a + b, c, p);
    Seq::filter_distributes_over_add(a, b, p);
    assert forall|i: int| 0 <= i < a.len() implies !p(#[trigger] a[i]) by {
        assert(a[i] == s[i]);
    }
    assert forall|i: int| 0 <= i < b.len() implies p(#[trigger] b[i]) by {
        assert(b[i] == s[lo + i]);
    }
    assert forall|i: int| 0 <= i < c.len() implies !p(#[trigger] c[i]) by {
        assert(c[i] == s[hi + i]);
    }
    lemma_filter_none(a, p);
    lemma_filter_all(b, p);
    lemma_filter_none(c, p);
    assert(a.filter(p) + b.filter(p) + c.filter(p) == b);
}

/// The part of the anonymity set of message `m` that arrives at destination
/// `d` is what a split of the set by destination holds for `d`.
proof fn lemma_split_of_window(
    t: Seq<TraceEntry>,
    m: int,
    min_delay: int,
    max_delay: int,
    d: DestinationId,
)
    requires
        valid_trace(t),
        t.len() <= u64::MAX,
    ensures
        has_message_to(window_ids(t, m, min_delay, max_delay), destinations_of(t), d)
            <==> window_ids_to(t, m, min_delay, max_delay, d).len() > 0,
        crate::sorting::stably_sorted(window_ids_to(t, m, min_delay, max_delay, d))
            == window_ids_to(t, m, min_delay, max_delay, d),
        forall|i: int|
            0 <= i < window_ids(t, m, min_delay, max_delay).len() ==> (#[trigger] window_ids(
                t,
                m,
                min_delay,
                max_delay,
            )[i]).0 < t.len(),
{
    let win = window_ids(t, m, min_delay, max_delay);
    let dm = destinations_of(t);
    let to = window_ids_to(t, m, min_delay, max_delay, d);
    let ids = all_ids(t.len());
    assert(sorted_by_key(ids));
    lemma_filter_sorted(ids, arrives_in_window(t, m, min_delay, max_delay));
    lemma_filter_sorted(win, sent_to(dm, d));
    lemma_sorted_stays(to);
    assert forall|i: int| 0 <= i < win.len() implies (#[trigger] win[i]).0 < t.len() by {
        ids.lemma_filter_pred(arrives_in_window(t, m, min_delay, max_delay), i);
    }
    if has_message_to(win, dm, d) {
        let i = choose|i: int| 0 <= i < win.len() && dm[(#[trigger] win[i]).0 as int] == d;
        assert(win[i].0 < t.len());
        win.lemma_filter_contains(sent_to(dm, d), i);
    }
    if to.len() > 0 {
        win.lemma_filter_pred(sent_to(dm, d), 0);
        assert(to.contains(to[0]));
        win.lemma_filter_contains_rev(sent_to(dm, d), to[0]);
        let i = choose|i: int| 0 <= i < win.len() && win[i] == to[0];
        assert(dm[win[i].0 as int] == d);
    }
}

/// What the table of differences holds is the change of the anonymity set
/// from the previous message to message `m`.
proof fn lemma_difference_is_delta(
    t: Seq<TraceEntry>,
    last: Option<DestinationTable<MessageSet>>,
    prev: Option<int>,
    this: DestinationTable<MessageSet>,
    m: int,
    min_delay: int,
    max_delay: int,
    relative: DestinationTable<(usize, usize)>,
)
    requires
        is_split_of(this, t, m, min_delay, max_delay),
        match last {
            Some(p) => prev is Some && is_split_of(p, t, prev.unwrap(), min_delay, max_delay),
            None => prev is None,
        },
        forall|d: DestinationId| relative@.contains_key(d) <==> this@.contains_key(d),
        forall|d: DestinationId| #[trigger]
            relative@.contains_key(d) ==> {
                &&& relative@[d].0 == added_count(previous_bucket(last, d), this@[d]@)
                &&& relative@[d].1 == overlap_count(previous_bucket(last, d), this@[d]@)
            },
    ensures
        as_deltas(relative@) == delta(t, prev, m, min_delay, max_delay),
{
    let a = as_deltas(relative@);
    let b = delta(t, prev, m, min_delay, max_delay);
    assert forall|d: DestinationId| a.contains_key(d) <==> b.contains_key(d) by {
        assert(relative@.contains_key(d) <==> this@.contains_key(d));
    }
    assert forall|d: DestinationId| a.contains_key(d) implies #[trigger] a[d] == b[d] by {
        assert(relative@.contains_key(d));
        assert(this@.contains_key(d));
        assert(this@[d]@ == window_ids_to(t, m, min_delay, max_delay, d));
        let before = previous_ids_to(t, prev, min_delay, max_delay, d);
        match last {
            Some(p) => {
                if p@.contains_key(d) {
                    assert(p@[d]@ == before);
                } else {
                    assert(before.len() == 0);
                    assert(before =~= Seq::<MessageId>::empty());
                }
            },
            None => {},
        }
        assert(previous_bucket(last, d) == before);
    }
    assert(a =~= b);
}

} // verus!
