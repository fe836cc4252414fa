//! From the send times of the sources to a trace: the messages of all sources
//! in the order in which they are sent, and their delivery after a delay.

use crate::ids::{DestinationId, MessageId, SourceId};
use crate::metric::{all_ids, messages_per_source, sent_by, source_messages};
use crate::sorting::{stable_sort, stably_sorted, SortKey};
use crate::trace::{
    fixed, lemma_fixed_passes, source_count, sources_of, validation_error, Trace, TraceBuildError,
    TraceBuilder, TraceEntry,
};
use std::collections::HashMap;
use vstd::prelude::*;

verus! {

/// The times at which one source sends its messages.
pub struct SourceTrace {
    pub source_id: SourceId,
    pub timestamps: Vec<i128>,
}

/// A source and the destination that was chosen for it.
#[derive(Copy, Clone, Debug, PartialEq, Eq, Structural)]
pub struct SourceDestinationMapEntry {
    pub source: SourceId,
    pub destination: DestinationId,
}

/// A message before it passes the network: who sends it when, and to whom.
#[derive(Copy, Clone, Debug, PartialEq, Eq, Structural)]
pub struct PreNetworkTraceEntry {
    pub source_id: SourceId,
    pub source_timestamp: i128,
    pub destination_id: DestinationId,
}

/// Messages before the network are ordered by the time at which they are
/// sent.
impl SortKey for PreNetworkTraceEntry {
    open spec fn sort_key(&self) -> int {
        self.source_timestamp as int
    }

    fn key_le(&self, other: &Self) -> (b: bool) {
        self.source_timestamp <= other.source_timestamp
    }
}

/// The messages of one source, all sent to `destination`.
pub open spec fn messages_of(trace: SourceTrace, destination: DestinationId) -> Seq<
    PreNetworkTraceEntry,
> {
    Seq::new(
        trace.timestamps@.len(),
        |i: int|
            PreNetworkTraceEntry {
                source_id: trace.source_id,
                source_timestamp: trace.timestamps@[i],
                destination_id: destination,
            },
    )
}

/// The messages of all sources, one source after the other, each source with
/// the destination that `map` gives it.
pub open spec fn messages_of_all(traces: Seq<SourceTrace>, map: Map<u64, u64>) -> Seq<
    PreNetworkTraceEntry,
>
    decreases traces.len(),
{
    if traces.len() == 0 {
        Seq::empty()
    } else {
        messages_of_all(traces.drop_last(), map) + messages_of(
            traces.last(),
            DestinationId(map[traces.last().source_id.0]),
        )
    }
}

/// The messages of all sources in the order in which they are sent. Messages
/// that are sent at the same time keep the order of their sources, and those
/// of one source the order of its send times.
pub fn merge_traces(
    source_traces: Vec<SourceTrace>,
    source_destination_map: &HashMap<u64, u64>,
) -> (r: Vec<PreNetworkTraceEntry>)
    requires
        forall|i: int|
            0 <= i < source_traces@.len() ==> source_destination_map@.contains_key(
                (#[trigger] source_traces@[i]).source_id.0,
            ),
    ensures
        r@ == stably_sorted(messages_of_all(source_traces@, source_destination_map@)),
{
    let ghost traces = source_traces@;
    let ghost map = source_destination_map@;
    let mut pre_network_trace: Vec<PreNetworkTraceEntry> = Vec::new();
    let mut i: usize = 0;
    while i < source_traces.len()
        invariant
            traces == source_traces@,
            map == source_destination_map@,
            forall|x: int|
                0 <= x < traces.len() ==> map.contains_key((#[trigger] traces[x]).source_id.0),
            i <= traces.len(),
            pre_network_trace@ == messages_of_all(traces.take(i as int), map),
        decreases traces.len() - i,
    {
        let trace: &SourceTrace = &source_traces[i];
        assert(map.contains_key(traces[i as int].source_id.0));
        let destination_id: DestinationId = DestinationId::new(
            *source_destination_map.get(&trace.source_id.0).unwrap(),
        );
        let ghost before = pre_network_trace@;
        let mut k: usize = 0;
        while k < trace.timestamps.len()
            invariant
                *trace == traces[i as int],
                k <= trace.timestamps@.len(),
                pre_network_trace@ == before + messages_of(*trace, destination_id).take(k as int),
            decreases trace.timestamps@.len() - k,
        {
            pre_network_trace.push(
                PreNetworkTraceEntry {
                    source_id: trace.source_id,
                    source_timestamp: trace.timestamps[k],
                    destination_id,
                },
            );
            proof {
                assert(pre_network_trace@ =~= before + messages_of(*trace, destination_id).take(
                    k + 1,
                ));
            }
            k += 1;
        }
        proof {
            let all = messages_of(*trace, destination_id);
            assert(all.take(all.len() as int) == all);
            let t1 = traces.take(i + 1);
            assert(t1.drop_last() == traces.take(i as int));
            assert(t1.last() == traces[i as int]);
        }
        i += 1;
    }
    proof {
        assert(traces.take(traces.len() as int) == traces);
    }
    stable_sort(&pre_network_trace)
}

/// The rows of the table of the chosen destinations: each source of
/// `sources` that has a destination in `map`, in the order of `sources`, with
/// that destination.
pub open spec fn chosen_destinations(sources: Seq<SourceId>, map: Map<u64, u64>) -> Seq<
    SourceDestinationMapEntry,
>
    decreases sources.len(),
{
    if sources.len() == 0 {
        Seq::empty()
    } else if map.contains_key(sources.last().0) {
        chosen_destinations(sources.drop_last(), map).push(
            SourceDestinationMapEntry {
                source: sources.last(),
                destination: DestinationId(map[sources.last().0]),
            },
        )
    } else {
        chosen_destinations(sources.drop_last(), map)
    }
}

/// The rows of the table of the chosen destinations, for writing them down.
pub fn source_destination_entries(
    sources: &Vec<SourceId>,
    source_destination_map: &HashMap<u64, u64>,
) -> (r: Vec<SourceDestinationMapEntry>)
    ensures
        r@ == chosen_destinations(sources@, source_destination_map@),
{
    let mut rows: Vec<SourceDestinationMapEntry> = Vec::new();
    let mut i: usize = 0;
    while i < sources.len()
        invariant
            i <= sources@.len(),
            rows@ == chosen_destinations(sources@.take(i as int), source_destination_map@),
        decreases sources@.len() - i,
    {
        let source: SourceId = sources[i];
        proof {
            let t1 = sources@.take(i + 1);
            assert(t1.drop_last() == sources@.take(i as int));
            assert(t1.last() == source);
        }
        match source_destination_map.get(&source.0) {
            Some(destination) => {
                rows.push(
                    SourceDestinationMapEntry {
                        source,
                        destination: DestinationId::new(*destination),
                    },
                );
            },
            None => {},
        }
        i += 1;
    }
    proof {
        assert(sources@.take(sources@.len() as int) == sources@);
    }
    rows
}

/// The number of nanoseconds in a millisecond.
pub const NANOSECONDS_PER_MILLISECOND: i128 = 1_000_000;

/// The messages as they leave the network: each with its place as its
/// message ID, and arriving the given number of milliseconds after it is
/// sent.
pub open spec fn delayed(pre: Seq<PreNetworkTraceEntry>, delays: Seq<u64>) -> Seq<TraceEntry> {
    Seq::new(
        pre.len(),
        |i: int|
            TraceEntry {
                m_id: MessageId(i as u64),
                source_id: pre[i].source_id,
                source_timestamp: pre[i].source_timestamp,
                destination_id: pre[i].destination_id,
                destination_timestamp: (pre[i].source_timestamp + delays[i]
                    * NANOSECONDS_PER_MILLISECOND) as i128,
            },
    )
}

/// Sends the messages through the network: message `i` arrives `delays[i]`
/// milliseconds after it is sent. The trace holds the messages in the order
/// of their arrival and numbers them in that order.
///
/// The trace cannot be built where there is no message, or where the source
/// IDs have gaps.
pub fn generate_network_delay(
    delays: &Vec<u64>,
    pre_network_trace: Vec<PreNetworkTraceEntry>,
) -> (r: Result<Trace, TraceBuildError>)
    requires
        delays@.len() == pre_network_trace@.len(),
        forall|i: int|
            0 <= i < pre_network_trace@.len() ==> (#[trigger] pre_network_trace@[i]).source_timestamp
                + delays@[i] * NANOSECONDS_PER_MILLISECOND <= i128::MAX,
    ensures
        match r {
            Ok(t) => t@ == fixed(delayed(pre_network_trace@, delays@)),
            Err(e) => validation_error(fixed(delayed(pre_network_trace@, delays@))) == Some(e)
                && (e is EmptyTrace || e is SourceIdsHaveGaps),
        },
{
    let ghost pre = pre_network_trace@;
    let mut trace = TraceBuilder::new();
    let mut i: usize = 0;
    while i < pre_network_trace.len()
        invariant
            pre == pre_network_trace@,
            delays@.len() == pre.len(),
            forall|x: int|
                0 <= x < pre.len() ==> (#[trigger] pre[x]).source_timestamp + delays@[x]
                    * NANOSECONDS_PER_MILLISECOND <= i128::MAX,
            i <= pre.len(),
            trace@ == delayed(pre, delays@).take(i as int),
        decreases pre.len() - i,
    {
        let entry: PreNetworkTraceEntry = pre_network_trace[i];
        let delay: u64 = delays[i];
        assert(pre[i as int].source_timestamp + delays@[i as int] * NANOSECONDS_PER_MILLISECOND
            <= i128::MAX);
        let nanoseconds: i128 = (delay as i128) * NANOSECONDS_PER_MILLISECOND;
        trace.add_entry(
            TraceEntry {
                m_id: MessageId::new(i as u64),
                source_id: entry.source_id,
                source_timestamp: entry.source_timestamp,
                destination_id: entry.destination_id,
                destination_timestamp: entry.source_timestamp + nanoseconds,
            },
        );
        proof {
            assert(trace@ =~= delayed(pre, delays@).take(i + 1));
        }
        i += 1;
    }
    proof {
        assert(delayed(pre, delays@).take(pre.len() as int) == delayed(pre, delays@));
        lemma_fixed_passes(delayed(pre, delays@));
    }
    trace.fix();
    trace.build()
}

/// The times at which the messages `msgs` of the trace are sent.
pub open spec fn send_times(t: Seq<TraceEntry>, msgs: Seq<MessageId>) -> Seq<i128> {
    Seq::new(msgs.len(), |i: int| t[msgs[i].0 as int].source_timestamp)
}

/// Reconstruct sources and their behavior from a network trace
pub fn read_sources_from_trace(trace: &Trace) -> (r: Vec<SourceTrace>)
    ensures
        r@.len() == source_count(trace@),
        forall|s: int|
            0 <= s < r@.len() ==> (#[trigger] r@[s]).source_id == SourceId(s as u64)
                && r@[s].timestamps@ == send_times(
                trace@,
                source_messages(trace@, SourceId(s as u64)),
            ),
{
    let ghost t = trace@;
    let entries = trace.entries_vec();
    let n: usize = entries.len();
    let per_source = messages_per_source(trace);
    let mut result: Vec<SourceTrace> = Vec::with_capacity(per_source.len());
    let mut s: usize = 0;
    while s < per_source.len()
        invariant
            t == trace@,
            t == entries@,
            n == t.len(),
            per_source@.len() == source_count(t),
            forall|x: int|
                0 <= x < per_source@.len() ==> (#[trigger] per_source@[x])@ == source_messages(
                    t,
                    SourceId(x as u64),
                ),
            s <= per_source@.len(),
            result@.len() == s,
            forall|x: int|
                0 <= x < s ==> (#[trigger] result@[x]).source_id == SourceId(x as u64)
                    && result@[x].timestamps@ == send_times(
                    t,
                    source_messages(t, SourceId(x as u64)),
                ),
        decreases per_source@.len() - s,
    {
        let messages = &per_source[s];
        let ghost msgs = source_messages(t, SourceId(s as u64));
        let mut timestamps: Vec<i128> = Vec::with_capacity(messages.len());
        let mut i: usize = 0;
        while i < messages.len()
            invariant
                t == entries@,
                n == t.len(),
                messages@ == msgs,
                msgs == source_messages(t, SourceId(s as u64)),
                i <= msgs.len(),
                timestamps@ == send_times(t, msgs).take(i as int),
            decreases msgs.len() - i,
        {
            proof {
                all_ids(t.len()).lemma_filter_pred(
                    sent_by(sources_of(t), SourceId(s as u64)),
                    i as int,
                );
                assert(msgs[i as int].0 < t.len());
            }
            let id: MessageId = messages[i];
            let ghost before = timestamps@;
            timestamps.push(entries[id.0 as usize].source_timestamp);
            proof {
                assert(timestamps@ == before.push(t[id.0 as int].source_timestamp));
                assert(send_times(t, msgs)[i as int] == t[msgs[i as int].0 as int].source_timestamp);
                assert(timestamps@ =~= send_times(t, msgs).take(i + 1));
            }
            i += 1;
        }
        proof {
            assert(send_times(t, msgs).take(msgs.len() as int) == send_times(t, msgs));
        }
        let ghost before = result@;
        result.push(SourceTrace { source_id: SourceId::new(s as u64), timestamps });
        proof {
            assert forall|x: int| 0 <= x < s + 1 implies (#[trigger] result@[x]).source_id
                == SourceId(x as u64) && result@[x].timestamps@ == send_times(
                t,
                source_messages(t, SourceId(x as u64)),
            ) by {
                if x < s {
                    assert(result@[x] == before[x]);
                }
            }
        }
        s += 1;
    }
    result
}

} // verus!
