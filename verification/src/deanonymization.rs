//! When a source is de-anonymized: from which of its messages on only one
//! destination is left as its possible partner.

use crate::ids::{DestinationId, MessageId, SourceId};
use crate::trace::{destinations_of, Trace, TraceEntry};
use vstd::prelude::*;

verus! {

/// What is known of the partner of a source after all of its messages.
#[derive(Copy, Clone, Debug, PartialEq, Eq)]
pub struct DeanomizationEntry {
    pub source: SourceId,
    /// The destination of the last message of the source.
    pub destination: DestinationId,
    /// The number of candidate destinations after the last message.
    pub remaining_anonymity_set: u64,
    /// The number of messages of the source.
    pub messages: u64,
    /// Where one candidate is left after the last message: the index of the
    /// first of the messages at the end after each of which one candidate is
    /// left.
    pub deanomized_at: Option<u64>,
}

/// The index at which the run of ones starts that ends just before `end`;
/// `end` itself if there is no one just before `end`.
pub open spec fn singleton_tail_start(sizes: Seq<int>, end: int) -> int
    decreases end,
{
    if 0 < end <= sizes.len() && sizes[end - 1] == 1 {
        singleton_tail_start(sizes, end - 1)
    } else {
        end
    }
}

/// The sizes of the anonymity sets of the messages of a source.
pub open spec fn set_sizes(sets: Seq<(MessageId, Vec<DestinationId>)>) -> Seq<int> {
    Seq::new(sets.len(), |i: int| sets[i].1@.len() as int)
}

/// The plain sizes of the messages of a source.
pub open spec fn plain_sizes(sizes: Seq<(MessageId, usize)>) -> Seq<int> {
    Seq::new(sizes.len(), |i: int| sizes[i].1 as int)
}

/// The entry for the source with the number `source` and the anonymity sets
/// `sets`: none for a source without a message, or whose last message the
/// trace does not hold.
pub open spec fn entry_for(
    source: int,
    sets: Seq<(MessageId, Vec<DestinationId>)>,
    destinations: Seq<DestinationId>,
) -> Option<DeanomizationEntry> {
    if sets.len() == 0 || sets.last().0.0 >= destinations.len() {
        None
    } else {
        Some(
            DeanomizationEntry {
                source: SourceId(source as u64),
                destination: destinations[sets.last().0.0 as int],
                remaining_anonymity_set: sets.last().1@.len() as u64,
                messages: sets.len() as u64,
                deanomized_at: if sets.last().1@.len() == 1 {
                    Some(singleton_tail_start(set_sizes(sets), sets.len() as int) as u64)
                } else {
                    None
                },
            },
        )
    }
}

/// The entries for the first `n` sources, in the order of the sources.
pub open spec fn entries_for(
    all: Seq<Vec<(MessageId, Vec<DestinationId>)>>,
    destinations: Seq<DestinationId>,
    n: int,
) -> Seq<DeanomizationEntry>
    decreases n,
{
    if n <= 0 {
        Seq::empty()
    } else {
        match entry_for(n - 1, all[n - 1]@, destinations) {
            Some(e) => entries_for(all, destinations, n - 1).push(e),
            None => entries_for(all, destinations, n - 1),
        }
    }
}

/// The index at which the run of ones at the end of the sizes starts.
fn tail_start_of_sets(sets: &Vec<(MessageId, Vec<DestinationId>)>) -> (k: usize)
    ensures
        k == singleton_tail_start(set_sizes(sets@), sets@.len() as int),
        k <= sets@.len(),
{
    let mut k: usize = sets.len();
    while k > 0 && sets[k - 1].1.len() == 1
        invariant
            k <= sets@.len(),
            singleton_tail_start(set_sizes(sets@), sets@.len() as int) == singleton_tail_start(
                set_sizes(sets@),
                k as int,
            ),
        decreases k,
    {
        k -= 1;
    }
    k
}

/// For every source that has sent a message: how many candidate
/// destinations are left after its last message, and, where only one is
/// left, from which message on. `source_relationship_anonymity_sets` holds
/// the anonymity sets of the sources in the order of the source IDs.
pub fn deanonymized_users_over_time(
    source_relationship_anonymity_sets: &Vec<Vec<(MessageId, Vec<DestinationId>)>>,
    net_trace: &Trace,
) -> (r: Vec<DeanomizationEntry>)
    ensures
        r@ == entries_for(
            source_relationship_anonymity_sets@,
            destinations_of(net_trace@),
            source_relationship_anonymity_sets@.len() as int,
        ),
{
    let ghost all = source_relationship_anonymity_sets@;
    let ghost destinations = destinations_of(net_trace@);
    let mut deanonymization_vec: Vec<DeanomizationEntry> = Vec::new();
    let mut source: usize = 0;
    while source < source_relationship_anonymity_sets.len()
        invariant
            all == source_relationship_anonymity_sets@,
            destinations == destinations_of(net_trace@),
            source <= all.len(),
            deanonymization_vec@ == entries_for(all, destinations, source as int),
        decreases all.len() - source,
    {
        let messages = &source_relationship_anonymity_sets[source];
        let num_messages: usize = messages.len();
        if num_messages > 0 {
            let last_message = &messages[num_messages - 1];
            let remaining_anonymity_set: usize = last_message.1.len();
            match net_trace.get_destination_mapping().get(&last_message.0) {
                Some(destination_id) => {
                    let deanomized_at: Option<u64> = if remaining_anonymity_set != 1 {
                        None
                    } else {
                        Some(tail_start_of_sets(messages) as u64)
                    };
                    deanonymization_vec.push(
                        DeanomizationEntry {
                            source: SourceId::new(source as u64),
                            destination: *destination_id,
                            remaining_anonymity_set: remaining_anonymity_set as u64,
                            messages: num_messages as u64,
                            deanomized_at,
                        },
                    );
                },
                None => {},
            }
        }
        source += 1;
    }
    deanonymization_vec
}

/// What is put out of one source beside its anonymity sets.
#[derive(Copy, Clone, Debug, PartialEq, Eq)]
pub struct SourceSummary {
    /// The size of the anonymity set after the last message; none for a
    /// source without a message.
    pub last_anonset_size: Option<usize>,
    /// The number, counted from 1, of the first message from which on the
    /// anonymity set has one member after every message.
    pub deanonymized_at_num: Option<usize>,
    /// The nanoseconds between the sending of the first message and the
    /// sending of the message that `deanonymized_at_num` counts.
    pub time_to_deanon: Option<i128>,
}

/// The time at which message `id` is sent.
pub open spec fn sent_at(t: Seq<TraceEntry>, id: MessageId) -> int {
    t[id.0 as int].source_timestamp as int
}

/// The summary of a source whose messages have anonymity sets of the given
/// sizes.
pub open spec fn summary_of(t: Seq<TraceEntry>, sizes: Seq<(MessageId, usize)>) -> SourceSummary {
    let start = singleton_tail_start(plain_sizes(sizes), sizes.len() as int);
    SourceSummary {
        last_anonset_size: if sizes.len() == 0 {
            None
        } else {
            Some(sizes.last().1)
        },
        deanonymized_at_num: if start < sizes.len() {
            Some((start + 1) as usize)
        } else {
            None
        },
        time_to_deanon: if start < sizes.len() {
            Some((sent_at(t, sizes[start].0) - sent_at(t, sizes[0].0)) as i128)
        } else {
            None
        },
    }
}

/// Sums up the anonymity of one source: how large its last anonymity set
/// is, from which message on it is de-anonymized, and how long that took.
pub fn summarize(sizes: &Vec<(MessageId, usize)>, trace: &Trace) -> (r: SourceSummary)
    requires
        forall|i: int| 0 <= i < sizes@.len() ==> (#[trigger] sizes@[i]).0.0 < trace@.len(),
        forall|i: int|
            0 <= i < sizes@.len() ==> i128::MIN <= sent_at(trace@, (#[trigger] sizes@[i]).0)
                - sent_at(trace@, sizes@[0].0) <= i128::MAX,
    ensures
        r == summary_of(trace@, sizes@),
{
    let n: usize = sizes.len();
    let last_anonset_size: Option<usize> = if n == 0 {
        None
    } else {
        Some(sizes[n - 1].1)
    };
    let mut k: usize = n;
    while k > 0 && sizes[k - 1].1 == 1
        invariant
            n == sizes@.len(),
            k <= n,
            singleton_tail_start(plain_sizes(sizes@), n as int) == singleton_tail_start(
                plain_sizes(sizes@),
                k as int,
            ),
        decreases k,
    {
        k -= 1;
    }
    if k < n {
        assert(sizes@[k as int].0.0 < trace@.len());
        assert(sizes@[0].0.0 < trace@.len());
        let at: i128 = trace.message_sent(&sizes[k].0).unwrap();
        let first: i128 = trace.message_sent(&sizes[0].0).unwrap();
        SourceSummary {
            last_anonset_size,
            deanonymized_at_num: Some(k + 1),
            time_to_deanon: Some(at - first),
        }
    } else {
        SourceSummary { last_anonset_size, deanonymized_at_num: None, time_to_deanon: None }
    }
}

} // verus!
