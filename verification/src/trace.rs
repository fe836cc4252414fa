//! Network traces: the ground truth of who sent which message to whom, and when.
//!
//! Timestamps are signed counts of nanoseconds since the Unix epoch.
//! Durations are signed counts of nanoseconds.

use crate::ids::{DestinationId, MessageId, SourceId};
use crate::seqs::lemma_two_matches;
use crate::sorting::{
    lemma_sorted_stays, lemma_stable_sort_exists, sorted_by_key, stable_sort, stably_sorted,
    SortKey,
};
use vstd::prelude::*;

verus! {

/// A single entry within a provided [Trace].
///
/// It contains the real information when a message was sent and received,
/// and by whom.
#[derive(Copy, Clone, Debug, PartialEq, Eq, Structural)]
pub struct TraceEntry {
    pub m_id: MessageId,
    pub source_id: SourceId,
    pub source_timestamp: i128,
    pub destination_id: DestinationId,
    pub destination_timestamp: i128,
}

/// Trace entries are ordered by their time of arrival.
impl SortKey for TraceEntry {
    open spec fn sort_key(&self) -> int {
        self.destination_timestamp as int
    }

    fn key_le(&self, other: &Self) -> (b: bool) {
        self.destination_timestamp <= other.destination_timestamp
    }
}

/// An error that can occur when building a trace
#[derive(Copy, Clone, Debug, PartialEq, Eq, Structural)]
pub enum TraceBuildError {
    /// There are no messages in the trace.
    EmptyTrace,
    /// Destination arrival times do not monotonically increase with message
    /// IDs. Holds the first message that arrives before its predecessor.
    NotSortedByArrival(MessageId),
    /// Message IDs have gaps, but need to be sequential. Holds the first ID
    /// that is missing.
    MessageIdsHaveGaps(MessageId),
    /// A message ID is used multiple times. Holds the first such ID.
    MessageIdsNotUnique(MessageId),
    /// Source IDs have gaps, but need to be sequential. Holds the first
    /// source ID that lies above a gap.
    SourceIdsHaveGaps(SourceId),
}

/// The test for an entry with message ID `id`.
pub open spec fn has_id(id: int) -> spec_fn(TraceEntry) -> bool {
    |e: TraceEntry| e.m_id.0 == id
}

/// How many entries of `s` have the message ID `id`.
pub open spec fn id_count(s: Seq<TraceEntry>, id: int) -> nat {
    s.filter(has_id(id)).len()
}

/// The first ID from `from` on that does not belong to exactly one entry of
/// `s`; the length of `s` if every ID below it does.
pub open spec fn first_bad_id(s: Seq<TraceEntry>, from: int) -> int
    decreases s.len() - from,
{
    if from >= s.len() || id_count(s, from) != 1 {
        from
    } else {
        first_bad_id(s, from + 1)
    }
}

/// A place in `s` at which the entry with message ID `id` stands.
pub open spec fn place_of_id(s: Seq<TraceEntry>, id: int) -> int {
    choose|k: int| 0 <= k < s.len() && s[k].m_id.0 == id
}

/// The entries of `s`, the entry with message ID `i` at place `i`.
pub open spec fn by_message_id(s: Seq<TraceEntry>) -> Seq<TraceEntry> {
    Seq::new(s.len(), |i: int| s[place_of_id(s, i)])
}

/// The first place from `from` on whose entry arrives before the entry in
/// front of it; the length of `t` if there is none.
pub open spec fn first_descent(t: Seq<TraceEntry>, from: int) -> int
    decreases t.len() - from,
{
    if from >= t.len() || (from >= 1 && t[from - 1].destination_timestamp
        > t[from].destination_timestamp) {
        from
    } else {
        first_descent(t, from + 1)
    }
}

/// Some entry of `t` has the source ID `x`.
pub open spec fn has_source(t: Seq<TraceEntry>, x: int) -> bool {
    exists|k: int| 0 <= k < t.len() && (#[trigger] t[k]).source_id.0 == x
}

/// The first number from `from` on that is no source ID of `t`; the length
/// of `t` if every number below it is one.
pub open spec fn first_missing_source(t: Seq<TraceEntry>, from: int) -> int
    decreases t.len() - from,
{
    if from >= t.len() || !has_source(t, from) {
        from
    } else {
        first_missing_source(t, from + 1)
    }
}

/// `x` is the least source ID of `t` that is not below `g`.
pub open spec fn is_least_source_from(t: Seq<TraceEntry>, g: int, x: int) -> bool {
    &&& has_source(t, x)
    &&& g <= x
    &&& forall|k: int| 0 <= k < t.len() && g <= (#[trigger] t[k]).source_id.0 ==> x <= t[k].source_id.0
}

/// The least source ID of `t` that is not below `g`.
pub open spec fn least_source_from(t: Seq<TraceEntry>, g: int) -> u64 {
    choose|x: u64| is_least_source_from(t, g, x as int)
}

/// `m` is the greatest source ID of `t`.
pub open spec fn is_max_source(t: Seq<TraceEntry>, m: int) -> bool {
    &&& has_source(t, m)
    &&& forall|k: int| 0 <= k < t.len() ==> (#[trigger] t[k]).source_id.0 <= m
}

/// The number of sources of `t`: one more than its greatest source ID.
pub open spec fn source_count(t: Seq<TraceEntry>) -> int {
    (choose|m: int| is_max_source(t, m)) + 1
}

/// What keeps the entries `s` from being a trace, if anything does.
///
/// The checks are made in this order: that there are entries; that the
/// message IDs are the numbers from 0 up to the number of entries, each used
/// once; that, in the order of the message IDs, no entry arrives before its
/// predecessor; that the source IDs are the numbers from 0 up to some bound.
pub open spec fn validation_error(s: Seq<TraceEntry>) -> Option<TraceBuildError> {
    let bad = first_bad_id(s, 0);
    let t = by_message_id(s);
    let down = first_descent(t, 1);
    let gap = first_missing_source(t, 0);
    if s.len() == 0 {
        Some(TraceBuildError::EmptyTrace)
    } else if bad < s.len() {
        if id_count(s, bad) == 0 {
            Some(TraceBuildError::MessageIdsHaveGaps(MessageId(bad as u64)))
        } else {
            Some(TraceBuildError::MessageIdsNotUnique(MessageId(bad as u64)))
        }
    } else if down < s.len() {
        Some(TraceBuildError::NotSortedByArrival(MessageId(down as u64)))
    } else if exists|k: int| 0 <= k < t.len() && gap <= (#[trigger] t[k]).source_id.0 {
        Some(TraceBuildError::SourceIdsHaveGaps(SourceId(least_source_from(t, gap))))
    } else {
        None
    }
}

/// The requirements that the entries of a trace fulfil: there is at least
/// one; the message ID of each is its place; they are in the order of their
/// arrival; every number below a source ID is a source ID too.
pub open spec fn valid_trace(t: Seq<TraceEntry>) -> bool {
    &&& t.len() > 0
    &&& forall|i: int| 0 <= i < t.len() ==> (#[trigger] t[i]).m_id.0 == i
    &&& sorted_by_key(t)
    &&& forall|i: int, x: int|
        0 <= i < t.len() && 0 <= x < (#[trigger] t[i]).source_id.0 ==> #[trigger] has_source(t, x)
}

/// The source of each message of `t`, by message ID.
pub open spec fn sources_of(t: Seq<TraceEntry>) -> Seq<SourceId> {
    Seq::new(t.len(), |i: int| t[i].source_id)
}

/// The destination of each message of `t`, by message ID.
pub open spec fn destinations_of(t: Seq<TraceEntry>) -> Seq<DestinationId> {
    Seq::new(t.len(), |i: int| t[i].destination_id)
}

/// The entries of `s`, each with its place in `s` as its message ID.
pub open spec fn renumbered(s: Seq<TraceEntry>) -> Seq<TraceEntry> {
    Seq::new(
        s.len(),
        |i: int|
            TraceEntry {
                m_id: MessageId(i as u64),
                source_id: s[i].source_id,
                source_timestamp: s[i].source_timestamp,
                destination_id: s[i].destination_id,
                destination_timestamp: s[i].destination_timestamp,
            },
    )
}

/// The entries of `s` in the order of their arrival, entries that arrive
/// together in the order they have in `s`, numbered in that order from 0.
pub open spec fn fixed(s: Seq<TraceEntry>) -> Seq<TraceEntry> {
    renumbered(stably_sorted(s))
}

/// Maps each message of a trace to its destination.
pub struct DestinationMapping {
    data: Vec<DestinationId>,
}

impl View for DestinationMapping {
    type V = Seq<DestinationId>;

    closed spec fn view(&self) -> Seq<DestinationId> {
        self.data@
    }
}

impl DestinationMapping {
    /// The destination of message `msg`, if the trace has such a message.
    pub fn get(&self, msg: &MessageId) -> (r: Option<&DestinationId>)
        ensures
            match r {
                Some(d) => msg.0 < self@.len() && *d == self@[msg.0 as int],
                None => msg.0 >= self@.len(),
            },
    {
        if msg.0 < self.data.len() as u64 {
            Some(&self.data[msg.0 as usize])
        } else {
            None
        }
    }

    /// The number of messages.
    pub fn len(&self) -> (n: usize)
        ensures
            n == self@.len(),
    {
        self.data.len()
    }
}

/// Maps each message of a trace to its source.
pub struct SourceMapping {
    data: Vec<SourceId>,
}

impl View for SourceMapping {
    type V = Seq<SourceId>;

    closed spec fn view(&self) -> Seq<SourceId> {
        self.data@
    }
}

impl SourceMapping {
    /// The source of message `msg`, if the trace has such a message.
    pub fn get(&self, msg: &MessageId) -> (r: Option<&SourceId>)
        ensures
            match r {
                Some(d) => msg.0 < self@.len() && *d == self@[msg.0 as int],
                None => msg.0 >= self@.len(),
            },
    {
        if msg.0 < self.data.len() as u64 {
            Some(&self.data[msg.0 as usize])
        } else {
            None
        }
    }

    /// The number of messages.
    pub fn len(&self) -> (n: usize)
        ensures
            n == self@.len(),
    {
        self.data.len()
    }
}

/// A network trace containing the ground truth of an ACN run.
///
/// [Trace]s are meant as the "ground truth" in the way that they contain the
/// real mapping of messages at the source and destination. They are usually
/// the product of some sort of simulation in a controlled environment.
pub struct Trace {
    entries: Vec<TraceEntry>,
    max_msgid: MessageId,
    source_mapping: SourceMapping,
    destination_mapping: DestinationMapping,
    max_sourceid: SourceId,
}

impl View for Trace {
    type V = Seq<TraceEntry>;

    closed spec fn view(&self) -> Seq<TraceEntry> {
        self.entries@
    }
}

impl Trace {
    /// What holds of every trace: its entries fulfil the requirements, and
    /// its mappings and bounds are those of its entries.
    #[verifier::type_invariant]
    spec fn inv(&self) -> bool {
        &&& valid_trace(self.entries@)
        &&& self.source_mapping@ == sources_of(self.entries@)
        &&& self.destination_mapping@ == destinations_of(self.entries@)
        &&& self.max_msgid.0 == self.entries@.len() - 1
        &&& is_max_source(self.entries@, self.max_sourceid.0 as int)
        &&& self.max_sourceid.0 < self.entries@.len()
    }

    /// The entries in this trace, by message ID
    pub fn entries(&self) -> (r: &Vec<TraceEntry>)
        ensures
            r@ == self@,
            valid_trace(self@),
    {
        proof {
            use_type_invariant(self);
        }
        &self.entries
    }

    /// Get the source mapping
    pub fn get_source_mapping(&self) -> (r: &SourceMapping)
        ensures
            r@ == sources_of(self@),
    {
        proof {
            use_type_invariant(self);
        }
        &self.source_mapping
    }

    /// Get the destination mapping
    pub fn get_destination_mapping(&self) -> (r: &DestinationMapping)
        ensures
            r@ == destinations_of(self@),
    {
        proof {
            use_type_invariant(self);
        }
        &self.destination_mapping
    }

    /// Get the maximum message ID
    pub fn max_message_id(&self) -> (r: MessageId)
        ensures
            r.0 == self@.len() - 1,
    {
        proof {
            use_type_invariant(self);
        }
        self.max_msgid
    }

    /// Get the maximum source ID
    pub fn max_source_id(&self) -> (r: SourceId)
        ensures
            is_max_source(self@, r.0 as int),
            r.0 + 1 == source_count(self@),
            r.0 < self@.len(),
    {
        proof {
            use_type_invariant(self);
            lemma_source_count(self.entries@, self.max_sourceid.0 as int);
        }
        self.max_sourceid
    }

    /// Get the "sent" timestamp of a message, if the provided message ID is present in the trace.
    pub fn message_sent(&self, message_id: &MessageId) -> (r: Option<i128>)
        ensures
            r == if message_id.0 < self@.len() {
                Some(self@[message_id.0 as int].source_timestamp)
            } else {
                None
            },
    {
        if message_id.0 < self.entries.len() as u64 {
            Some(self.entries[message_id.0 as usize].source_timestamp)
        } else {
            None
        }
    }

    /// The entries in this trace, by message ID
    pub fn entries_vec(&self) -> (r: &Vec<TraceEntry>)
        ensures
            r@ == self@,
            valid_trace(self@),
    {
        proof {
            use_type_invariant(self);
        }
        &self.entries
    }
}

/// A builder for a network trace.
pub struct TraceBuilder {
    entries: Vec<TraceEntry>,
}

impl View for TraceBuilder {
    type V = Seq<TraceEntry>;

    closed spec fn view(&self) -> Seq<TraceEntry> {
        self.entries@
    }
}

impl TraceBuilder {
    /// Construct a new trace builder
    pub fn new() -> (b: TraceBuilder)
        ensures
            b@ == Seq::<TraceEntry>::empty(),
    {
        TraceBuilder { entries: Vec::new() }
    }

    /// Add a new entry to the trace builder
    pub fn add_entry(&mut self, entry: TraceEntry)
        ensures
            final(self)@ == old(self)@.push(entry),
    {
        self.entries.push(entry);
    }

    /// Fix the contained entries so they fulfil the trace requirements.
    /// This primarily renames the message IDs.
    pub fn fix(&mut self)
        ensures
            final(self)@ == fixed(old(self)@),
    {
        let sorted = stable_sort(&self.entries);
        let mut renamed: Vec<TraceEntry> = Vec::with_capacity(sorted.len());
        let mut i: usize = 0;
        while i < sorted.len()
            invariant
                i <= sorted@.len(),
                renamed@ == renumbered(sorted@).take(i as int),
            decreases sorted@.len() - i,
        {
            let e: TraceEntry = sorted[i];
            renamed.push(
                TraceEntry {
                    m_id: MessageId::new(i as u64),
                    source_id: e.source_id,
                    source_timestamp: e.source_timestamp,
                    destination_id: e.destination_id,
                    destination_timestamp: e.destination_timestamp,
                },
            );
            proof {
                assert(renamed@ =~= renumbered(sorted@).take(i + 1));
            }
            i += 1;
        }
        proof {
            assert(renumbered(sorted@).take(sorted@.len() as int) =~= renumbered(sorted@));
        }
        self.entries = renamed;
    }

    /// Compute mappings (Vecs) that map each message ID to their respective
    /// source and destination.
    pub fn source_and_destination_mappings(&self) -> (r: (SourceMapping, DestinationMapping))
        ensures
            r.0@ == sources_of(self@),
            r.1@ == destinations_of(self@),
    {
        let n: usize = self.entries.len();
        let ghost t = self.entries@;
        let mut sources: Vec<SourceId> = Vec::with_capacity(n);
        let mut destinations: Vec<DestinationId> = Vec::with_capacity(n);
        let mut m: usize = 0;
        while m < n
            invariant
                n == t.len(),
                t == self.entries@,
                m <= n,
                sources@ == sources_of(t).take(m as int),
                destinations@ == destinations_of(t).take(m as int),
            decreases n - m,
        {
            sources.push(self.entries[m].source_id);
            destinations.push(self.entries[m].destination_id);
            proof {
                assert(sources@ =~= sources_of(t).take(m + 1));
                assert(destinations@ =~= destinations_of(t).take(m + 1));
            }
            m += 1;
        }
        proof {
            assert(sources_of(t).take(n as int) == sources_of(t));
            assert(destinations_of(t).take(n as int) == destinations_of(t));
        }
        (SourceMapping { data: sources }, DestinationMapping { data: destinations })
    }

    /// Construct a trace object from the loaded entries
    pub fn build(self) -> (r: Result<Trace, TraceBuildError>)
        ensures
            match r {
                Ok(t) => validation_error(self@) is None && t@ == by_message_id(self@)
                    && valid_trace(t@),
                Err(e) => validation_error(self@) == Some(e),
            },
    {
        let ghost s = self.entries@;
        let n: usize = self.entries.len();
        if n == 0 {
            return Err(TraceBuildError::EmptyTrace);
        }
        // check message IDs first
        let slots = match check_ids(&self.entries) {
            Ok(slots) => slots,
            Err(e) => {
                return Err(e);
            },
        };
        let mut ordered = TraceBuilder { entries: order_by_id(&self.entries, &slots) };
        let ghost t = ordered.entries@;
        // check arrival times
        let late: usize = first_late(&ordered.entries);
        if late < n {
            return Err(TraceBuildError::NotSortedByArrival(MessageId::new(late as u64)));
        }
        // check source IDs
        let gap: usize = first_gap(&ordered.entries);
        match least_source_at_least(&ordered.entries, gap) {
            Some(x) => {
                proof {
                    let c = least_source_from(t, gap as int);
                    assert(is_least_source_from(t, gap as int, x as int));
                    assert(is_least_source_from(t, gap as int, c as int));
                    let j = choose|j: int| 0 <= j < t.len() && (#[trigger] t[j]).source_id.0 == x;
                    let jc = choose|j: int| 0 <= j < t.len() && (#[trigger] t[j]).source_id.0 == c;
                    assert(c <= t[j].source_id.0);
                    assert(x <= t[jc].source_id.0);
                    assert(gap <= t[j].source_id.0);
                }
                return Err(TraceBuildError::SourceIdsHaveGaps(SourceId::new(x)));
            },
            None => {},
        }
        proof {
            assert(t[0].source_id.0 < gap);
            assert(has_source(t, gap - 1));
            assert forall|i: int, x: int|
                0 <= i < t.len() && 0 <= x < (#[trigger] t[i]).source_id.0 implies #[trigger] has_source(
                t,
                x,
            ) by {
                assert(t[i].source_id.0 < gap);
            }
        }
        let (source_mapping, destination_mapping) = ordered.source_and_destination_mappings();
        Ok(
            Trace {
                entries: ordered.entries,
                max_msgid: MessageId::new((n - 1) as u64),
                source_mapping,
                destination_mapping,
                max_sourceid: SourceId::new((gap - 1) as u64),
            },
        )
    }
}

/// A vector of `n` copies of `value`.
fn filled<T: Copy>(value: T, n: usize) -> (v: Vec<T>)
    ensures
        v@.len() == n,
        forall|i: int| 0 <= i < n ==> v@[i] == value,
{
    let mut v: Vec<T> = Vec::with_capacity(n);
    let mut i: usize = 0;
    while i < n
        invariant
            i <= n,
            v@.len() == i,
            forall|x: int| 0 <= x < i ==> v@[x] == value,
        decreases n - i,
    {
        v.push(value);
        i += 1;
    }
    v
}

/// Counts, for each ID below the number of entries, the entries that have
/// it, up to two, and notes the place of one of them.
fn count_ids(entries: &Vec<TraceEntry>) -> (r: (Vec<u8>, Vec<usize>))
    ensures
        r.0@.len() == entries@.len(),
        r.1@.len() == entries@.len(),
        forall|i: int|
            0 <= i < entries@.len() ==> (#[trigger] r.0@[i]) as int == if id_count(entries@, i)
                < 2 {
                id_count(entries@, i) as int
            } else {
                2
            },
        forall|i: int|
            0 <= i < entries@.len() && (#[trigger] r.0@[i]) >= 1 ==> r.1@[i] < entries@.len()
                && entries@[r.1@[i] as int].m_id.0 == i,
{
    let n: usize = entries.len();
    let ghost s = entries@;
    let mut counts: Vec<u8> = filled(0u8, n);
    let mut slots: Vec<usize> = filled(0usize, n);
    let mut k: usize = 0;
    proof {
        assert forall|i: int| 0 <= i < n implies id_count(s.take(0), i) == 0 by {
            s.take(0).lemma_filter_len(has_id(i));
        }
    }
    while k < n
        invariant
            n == s.len(),
            s == entries@,
            k <= n,
            counts@.len() == n,
            slots@.len() == n,
            forall|i: int|
                0 <= i < n ==> (#[trigger] counts@[i]) as int == if id_count(s.take(k as int), i)
                    < 2 {
                    id_count(s.take(k as int), i) as int
                } else {
                    2
                },
            forall|i: int|
                0 <= i < n && (#[trigger] counts@[i]) >= 1 ==> slots@[i] < k && s[slots@[i] as int].m_id.0
                    == i,
        decreases n - k,
    {
        let id: u64 = entries[k].m_id.0;
        let ghost before_counts = counts@;
        let ghost before_slots = slots@;
        if id < n as u64 {
            let i: usize = id as usize;
            if counts[i] < 2 {
                let c: u8 = counts[i];
                counts[i] = c + 1;
            }
            slots[i] = k;
        }
        proof {
            assert(s.take(k + 1) == s.take(k as int).push(s[k as int]));
            assert forall|i: int| 0 <= i < n implies (#[trigger] counts@[i]) as int == if id_count(
                s.take(k + 1),
                i,
            ) < 2 {
                id_count(s.take(k + 1), i) as int
            } else {
                2
            } by {
                s.take(k as int).lemma_filter_push(s[k as int], has_id(i));
                assert(before_counts[i] as int == if id_count(s.take(k as int), i) < 2 {
                    id_count(s.take(k as int), i) as int
                } else {
                    2
                });
            }
            assert forall|i: int| 0 <= i < n && (#[trigger] counts@[i]) >= 1 implies slots@[i] < k
                + 1 && s[slots@[i] as int].m_id.0 == i by {
                if i != id {
                    assert(before_counts[i] >= 1);
                }
            }
        }
        k += 1;
    }
    proof {
        assert(s.take(n as int) == s);
    }
    (counts, slots)
}

/// Checks that the message IDs are the numbers below the number of entries,
/// each used once, and finds the place of each.
fn check_ids(entries: &Vec<TraceEntry>) -> (r: Result<Vec<usize>, TraceBuildError>)
    requires
        entries@.len() > 0,
    ensures
        match r {
            Ok(slots) => {
                &&& first_bad_id(entries@, 0) == entries@.len()
                &&& slots@.len() == entries@.len()
                &&& forall|x: int|
                    0 <= x < entries@.len() ==> (#[trigger] slots@[x]) < entries@.len()
                        && entries@[slots@[x] as int].m_id.0 == x
                &&& forall|x: int| 0 <= x < entries@.len() ==> #[trigger] id_count(entries@, x) == 1
            },
            Err(e) => {
                let bad = first_bad_id(entries@, 0);
                &&& bad < entries@.len()
                &&& e == if id_count(entries@, bad) == 0 {
                    TraceBuildError::MessageIdsHaveGaps(MessageId(bad as u64))
                } else {
                    TraceBuildError::MessageIdsNotUnique(MessageId(bad as u64))
                }
            },
        },
{
    let ghost s = entries@;
    let n: usize = entries.len();
    let (counts, slots) = count_ids(entries);
    let mut b: usize = 0;
    while b < n
        invariant
            n == s.len(),
            s == entries@,
            b <= n,
            counts@.len() == n,
            forall|i: int|
                0 <= i < n ==> (#[trigger] counts@[i]) as int == if id_count(s, i) < 2 {
                    id_count(s, i) as int
                } else {
                    2
                },
            first_bad_id(s, 0) == first_bad_id(s, b as int),
            forall|i: int| 0 <= i < b ==> (#[trigger] counts@[i]) == 1,
        decreases n - b,
    {
        if counts[b] == 0 {
            return Err(TraceBuildError::MessageIdsHaveGaps(MessageId::new(b as u64)));
        }
        if counts[b] != 1 {
            return Err(TraceBuildError::MessageIdsNotUnique(MessageId::new(b as u64)));
        }
        b += 1;
    }
    proof {
        assert forall|x: int| 0 <= x < n implies (#[trigger] slots@[x]) < n && s[slots@[x] as int].m_id.0
            == x by {
            assert(counts@[x] >= 1);
        }
        assert forall|x: int| 0 <= x < n implies #[trigger] id_count(s, x) == 1 by {
            assert(counts@[x] == 1);
        }
    }
    Ok(slots)
}

/// The entries in the order of their message IDs.
fn order_by_id(entries: &Vec<TraceEntry>, slots: &Vec<usize>) -> (ordered: Vec<TraceEntry>)
    requires
        slots@.len() == entries@.len(),
        forall|x: int|
            0 <= x < entries@.len() ==> (#[trigger] slots@[x]) < entries@.len()
                && entries@[slots@[x] as int].m_id.0 == x,
        forall|x: int| 0 <= x < entries@.len() ==> #[trigger] id_count(entries@, x) == 1,
    ensures
        ordered@ == by_message_id(entries@),
        forall|x: int| 0 <= x < ordered@.len() ==> (#[trigger] ordered@[x]).m_id.0 == x,
{
    let ghost s = entries@;
    let n: usize = entries.len();
    let mut ordered: Vec<TraceEntry> = Vec::with_capacity(n);
    let mut i: usize = 0;
    while i < n
        invariant
            n == s.len(),
            s == entries@,
            i <= n,
            slots@.len() == n,
            forall|x: int|
                0 <= x < n ==> (#[trigger] slots@[x]) < n && s[slots@[x] as int].m_id.0 == x,
            forall|x: int| 0 <= x < n ==> #[trigger] id_count(s, x) == 1,
            ordered@ == by_message_id(s).take(i as int),
        decreases n - i,
    {
        proof {
            assert(slots@[i as int] < n);
            assert(id_count(s, i as int) == 1);
            lemma_one_place(s, i as int, slots@[i as int] as int);
        }
        ordered.push(entries[slots[i]]);
        proof {
            assert(ordered@ =~= by_message_id(s).take(i + 1));
        }
        i += 1;
    }
    proof {
        assert(by_message_id(s).take(n as int) == by_message_id(s));
        assert forall|x: int| 0 <= x < n implies (#[trigger] ordered@[x]).m_id.0 == x by {
            assert(slots@[x] < n);
            assert(id_count(s, x) == 1);
            lemma_one_place(s, x, slots@[x] as int);
        }
    }
    ordered
}

/// The first place whose entry arrives before the entry in front of it.
fn first_late(entries: &Vec<TraceEntry>) -> (k: usize)
    requires
        entries@.len() > 0,
    ensures
        k == first_descent(entries@, 1),
        1 <= k <= entries@.len(),
        k == entries@.len() ==> sorted_by_key(entries@),
{
    let ghost t = entries@;
    let n: usize = entries.len();
    let mut k: usize = 1;
    while k < n
        invariant
            n == t.len(),
            t == entries@,
            1 <= k <= n,
            first_descent(t, 1) == first_descent(t, k as int),
            forall|x: int|
                1 <= x < k ==> t[x - 1].destination_timestamp <= (
                #[trigger] t[x]).destination_timestamp,
        decreases n - k,
    {
        if entries[k - 1].destination_timestamp > entries[k].destination_timestamp {
            return k;
        }
        k += 1;
    }
    proof {
        lemma_steps_ascend(t);
    }
    k
}

/// The first number that is no source ID of the entries, or their number
/// where every number below it is one.
fn first_gap(entries: &Vec<TraceEntry>) -> (g: usize)
    ensures
        g == first_missing_source(entries@, 0),
        g <= entries@.len(),
        forall|x: int| 0 <= x < g ==> has_source(entries@, x),
{
    let n: usize = entries.len();
    let ghost t = entries@;
    let mut present: Vec<bool> = filled(false, n);
    let mut k: usize = 0;
    while k < n
        invariant
            n == t.len(),
            t == entries@,
            k <= n,
            present@.len() == n,
            forall|x: int|
                0 <= x < n ==> ((#[trigger] present@[x]) <==> exists|j: int|
                    0 <= j < k && (#[trigger] t[j]).source_id.0 == x),
        decreases n - k,
    {
        let src: u64 = entries[k].source_id.0;
        let ghost before = present@;
        if src < n as u64 {
            present[src as usize] = true;
        }
        proof {
            assert forall|x: int| 0 <= x < n implies ((#[trigger] present@[x]) <==> exists|j: int|
                0 <= j < k + 1 && (#[trigger] t[j]).source_id.0 == x) by {
                if present@[x] {
                    if x == src {
                        assert(t[k as int].source_id.0 == x);
                    } else {
                        assert(before[x]);
                        let j = choose|j: int| 0 <= j < k && (#[trigger] t[j]).source_id.0 == x;
                        assert(0 <= j < k + 1 && t[j].source_id.0 == x);
                    }
                } else {
                    assert(!before[x]);
                    assert(x != src);
                }
            }
        }
        k += 1;
    }
    let mut g: usize = 0;
    while g < n && present[g]
        invariant
            n == t.len(),
            g <= n,
            present@.len() == n,
            forall|x: int| 0 <= x < n ==> ((#[trigger] present@[x]) <==> has_source(t, x)),
            first_missing_source(t, 0) == first_missing_source(t, g as int),
            forall|x: int| 0 <= x < g ==> has_source(t, x),
        decreases n - g,
    {
        g += 1;
    }
    g
}

/// The least source ID of the entries that is not below `g`, if there is one.
fn least_source_at_least(entries: &Vec<TraceEntry>, g: usize) -> (r: Option<u64>)
    ensures
        match r {
            Some(x) => is_least_source_from(entries@, g as int, x as int),
            None => forall|k: int|
                0 <= k < entries@.len() ==> (#[trigger] entries@[k]).source_id.0 < g,
        },
{
    let n: usize = entries.len();
    let ghost t = entries@;
    let mut least: Option<u64> = None;
    let mut k: usize = 0;
    while k < n
        invariant
            n == t.len(),
            t == entries@,
            k <= n,
            match least {
                Some(x) => {
                    &&& g <= x
                    &&& exists|j: int| 0 <= j < k && (#[trigger] t[j]).source_id.0 == x
                    &&& forall|j: int|
                        0 <= j < k && g <= (#[trigger] t[j]).source_id.0 ==> x <= t[j].source_id.0
                },
                None => forall|j: int| 0 <= j < k ==> (#[trigger] t[j]).source_id.0 < g,
            },
        decreases n - k,
    {
        let src: u64 = entries[k].source_id.0;
        if g as u64 <= src {
            let smaller: bool = match least {
                Some(x) => src < x,
                None => true,
            };
            if smaller {
                least = Some(src);
                proof {
                    assert(t[k as int].source_id.0 == src);
                }
            } else {
                proof {
                    let x = least.unwrap();
                    let j = choose|j: int| 0 <= j < k && (#[trigger] t[j]).source_id.0 == x;
                    assert(0 <= j < k + 1 && t[j].source_id.0 == x);
                }
            }
        } else {
            proof {
                if least is Some {
                    let x = least.unwrap();
                    let j = choose|j: int| 0 <= j < k && (#[trigger] t[j]).source_id.0 == x;
                    assert(0 <= j < k + 1 && t[j].source_id.0 == x);
                }
            }
        }
        k += 1;
    }
    least
}

/// An ID that belongs to one entry stands at one place only.
proof fn lemma_one_place(s: Seq<TraceEntry>, id: int, k: int)
    requires
        id_count(s, id) == 1,
        0 <= k < s.len(),
        s[k].m_id.0 == id,
    ensures
        place_of_id(s, id) == k,
{
    let c = place_of_id(s, id);
    if c < k {
        lemma_two_matches(s, has_id(id), c, k);
    } else if k < c {
        lemma_two_matches(s, has_id(id), k, c);
    }
}

/// Entries of which none arrives before its predecessor are in the order of
/// their arrival.
proof fn lemma_steps_ascend(t: Seq<TraceEntry>)
    requires
        forall|x: int|
            1 <= x < t.len() ==> t[x - 1].destination_timestamp <= (
            #[trigger] t[x]).destination_timestamp,
    ensures
        sorted_by_key(t),
{
    assert forall|i: int, j: int| 0 <= i <= j < t.len() implies t[i].sort_key()
        <= t[j].sort_key() by {
        lemma_steps_ascend_to(t, i, j);
    }
}

proof fn lemma_steps_ascend_to(t: Seq<TraceEntry>, i: int, j: int)
    requires
        forall|x: int|
            1 <= x < t.len() ==> t[x - 1].destination_timestamp <= (
            #[trigger] t[x]).destination_timestamp,
        0 <= i <= j < t.len(),
    ensures
        t[i].destination_timestamp <= t[j].destination_timestamp,
    decreases j - i,
{
    if i < j {
        lemma_steps_ascend_to(t, i, j - 1);
        assert(t[j - 1].destination_timestamp <= t[j].destination_timestamp);
    }
}

/// The greatest source ID is one less than the number of sources.
pub proof fn lemma_source_count(t: Seq<TraceEntry>, m: int)
    requires
        is_max_source(t, m),
    ensures
        source_count(t) == m + 1,
{
    let c = source_count(t);
    assert(is_max_source(t, c - 1));
    let i = choose|k: int| 0 <= k < t.len() && (#[trigger] t[k]).source_id.0 == m;
    let j = choose|k: int| 0 <= k < t.len() && (#[trigger] t[k]).source_id.0 == c - 1;
    assert(t[i].source_id.0 <= c - 1);
    assert(t[j].source_id.0 <= m);
}

/// Fixing a second time changes nothing.
pub proof fn lemma_fix_idempotent(s: Seq<TraceEntry>)
    ensures
        fixed(fixed(s)) == fixed(s),
{
    let m = stably_sorted(s);
    lemma_stable_sort_exists(s);
    let f = renumbered(m);
    assert(sorted_by_key(f)) by {
        assert forall|i: int, j: int| 0 <= i <= j < f.len() implies f[i].sort_key()
            <= f[j].sort_key() by {
            assert(m[i].sort_key() <= m[j].sort_key());
        }
    }
    lemma_sorted_stays(f);
    assert(renumbered(f) =~= f);
}

/// A fixed trace is in the order of arrival and numbered from 0.
pub proof fn lemma_fixed_is_ordered(s: Seq<TraceEntry>)
    requires
        s.len() <= u64::MAX,
    ensures
        fixed(s).len() == s.len(),
        sorted_by_key(fixed(s)),
        forall|i: int| 0 <= i < s.len() ==> (#[trigger] fixed(s)[i]).m_id.0 == i,
{
    let m = stably_sorted(s);
    lemma_stable_sort_exists(s);
    let f = renumbered(m);
    assert forall|i: int, j: int| 0 <= i <= j < f.len() implies f[i].sort_key()
        <= f[j].sort_key() by {
        assert(m[i].sort_key() <= m[j].sort_key());
    }
}

/// Entries that are numbered by their places are already in the order of
/// their message IDs, and each of their IDs belongs to one entry.
pub proof fn lemma_numbered(f: Seq<TraceEntry>)
    requires
        forall|i: int| 0 <= i < f.len() ==> (#[trigger] f[i]).m_id.0 == i,
    ensures
        by_message_id(f) == f,
        first_bad_id(f, 0) == f.len(),
{
    assert(by_message_id(f) =~= f);
    assert forall|i: int| 0 <= i < f.len() implies id_count(f, i) == 1 by {
        let a = f.subrange(0, i);
        let b = f.subrange(i, i + 1);
        let c = f.subrange(i + 1, f.len() as int);
        assert(f == a + b + c);
        Seq::filter_distributes_over_add(a + b, c, has_id(i));
        Seq::filter_distributes_over_add(a, b, has_id(i));
        assert forall|x: int| 0 <= x < a.len() implies !has_id(i)(#[trigger] a[x]) by {
            assert(a[x] == f[x]);
        }
        assert forall|x: int| 0 <= x < b.len() implies has_id(i)(#[trigger] b[x]) by {
            assert(b[x] == f[i + x]);
        }
        assert forall|x: int| 0 <= x < c.len() implies !has_id(i)(#[trigger] c[x]) by {
            assert(c[x] == f[i + 1 + x]);
        }
        crate::seqs::lemma_filter_none(a, has_id(i));
        crate::seqs::lemma_filter_all(b, has_id(i));
        crate::seqs::lemma_filter_none(c, has_id(i));
    }
    lemma_no_bad_id(f, 0);
}

/// Where every ID from `from` on belongs to one entry, there is no bad ID.
proof fn lemma_no_bad_id(f: Seq<TraceEntry>, from: int)
    requires
        0 <= from <= f.len(),
        forall|i: int| from <= i < f.len() ==> id_count(f, i) == 1,
    ensures
        first_bad_id(f, from) == f.len(),
    decreases f.len() - from,
{
    if from < f.len() {
        lemma_no_bad_id(f, from + 1);
    }
}

/// In entries that are in the order of their arrival, none arrives before
/// its predecessor.
pub proof fn lemma_no_descent(t: Seq<TraceEntry>, from: int)
    requires
        sorted_by_key(t),
        1 <= from,
    ensures
        first_descent(t, from) >= t.len(),
    decreases t.len() - from,
{
    if from < t.len() {
        assert(t[from - 1].sort_key() <= t[from].sort_key());
        lemma_no_descent(t, from + 1);
    }
}

/// What is fixed has its message IDs and its order of arrival in order: if
/// it is no trace, then for want of entries or for a gap in the source IDs.
pub proof fn lemma_fixed_passes(s: Seq<TraceEntry>)
    requires
        s.len() <= u64::MAX,
    ensures
        by_message_id(fixed(s)) == fixed(s),
        match validation_error(fixed(s)) {
            None => true,
            Some(TraceBuildError::EmptyTrace) => s.len() == 0,
            Some(TraceBuildError::SourceIdsHaveGaps(_)) => true,
            _ => false,
        },
{
    let f = fixed(s);
    lemma_fixed_is_ordered(s);
    lemma_numbered(f);
    lemma_no_descent(f, 1);
}

/// The test for an entry with a message ID below `n`.
pub open spec fn has_id_below(n: int) -> spec_fn(TraceEntry) -> bool {
    |e: TraceEntry| e.m_id.0 < n
}

/// Where every ID below `n` belongs to one entry, `n` entries have an ID
/// below `n`.
proof fn lemma_count_below(s: Seq<TraceEntry>, n: int)
    requires
        0 <= n,
        forall|i: int| 0 <= i < n ==> id_count(s, i) == 1,
    ensures
        s.filter(has_id_below(n)).len() == n,
    decreases n,
{
    if n == 0 {
        crate::seqs::lemma_filter_none(s, has_id_below(0));
    } else {
        lemma_count_below(s, n - 1);
        let p = has_id_below(n - 1);
        let q = has_id(n - 1);
        assert(id_count(s, n - 1) == 1);
        assert(s.filter(q).len() == 1);
        assert(s.filter(p).len() == n - 1);
        crate::seqs::lemma_filter_either(s, p, q);
        crate::seqs::lemma_filter_agree(s, crate::seqs::either(p, q), has_id_below(n));
    }
}

/// Where there is no bad ID, every ID below the number of entries belongs to
/// one entry.
proof fn lemma_all_ids_once(s: Seq<TraceEntry>, from: int)
    requires
        0 <= from,
        first_bad_id(s, from) == s.len(),
    ensures
        forall|i: int| from <= i < s.len() ==> id_count(s, i) == 1,
    decreases s.len() - from,
{
    if from < s.len() {
        lemma_all_ids_once(s, from + 1);
    }
}

/// Building keeps the entries: where the message IDs are in order, the
/// entries by message ID are the given entries, each once.
pub proof fn lemma_build_keeps_entries(s: Seq<TraceEntry>)
    requires
        first_bad_id(s, 0) == s.len(),
    ensures
        by_message_id(s).len() == s.len(),
        forall|k: int|
            0 <= k < s.len() ==> (#[trigger] s[k]).m_id.0 < s.len() && by_message_id(
                s,
            )[s[k].m_id.0 as int] == s[k],
        forall|i: int| 0 <= i < s.len() ==> s.contains(#[trigger] by_message_id(s)[i]),
{
    lemma_all_ids_once(s, 0);
    lemma_count_below(s, s.len() as int);
    crate::seqs::lemma_filter_full(s, has_id_below(s.len() as int));
    assert forall|k: int| 0 <= k < s.len() implies (#[trigger] s[k]).m_id.0 < s.len()
        && by_message_id(s)[s[k].m_id.0 as int] == s[k] by {
        assert(has_id_below(s.len() as int)(s[k]));
        lemma_one_place(s, s[k].m_id.0 as int, k);
    }
    assert forall|i: int| 0 <= i < s.len() implies s.contains(#[trigger] by_message_id(s)[i]) by {
        assert(id_count(s, i) == 1);
        let f = s.filter(has_id(i));
        assert(f.contains(f[0]));
        s.lemma_filter_contains_rev(has_id(i), f[0]);
        s.lemma_filter_pred(has_id(i), 0);
        let k = choose|k: int| 0 <= k < s.len() && s[k] == f[0];
        lemma_one_place(s, i, k);
    }
}

/// Up to the first descent, no entry arrives before its predecessor.
proof fn lemma_before_descent(t: Seq<TraceEntry>, from: int)
    requires
        1 <= from,
    ensures
        forall|x: int|
            from <= x < first_descent(t, from) && x < t.len() ==> t[x - 1].destination_timestamp
                <= (#[trigger] t[x]).destination_timestamp,
        from <= first_descent(t, from),
    decreases t.len() - from,
{
    if from < t.len() && !(t[from - 1].destination_timestamp > t[from].destination_timestamp) {
        lemma_before_descent(t, from + 1);
    }
}

/// The first bad ID is at most the number of entries.
proof fn lemma_bad_id_bound(s: Seq<TraceEntry>, from: int)
    requires
        0 <= from <= s.len(),
    ensures
        from <= first_bad_id(s, from) <= s.len(),
    decreases s.len() - from,
{
    if from < s.len() && id_count(s, from) == 1 {
        lemma_bad_id_bound(s, from + 1);
    }
}

/// Every number from `from` up to the first missing source is a source.
proof fn lemma_before_gap(t: Seq<TraceEntry>, from: int)
    requires
        0 <= from,
    ensures
        forall|x: int| from <= x < first_missing_source(t, from) ==> has_source(t, x),
        from <= first_missing_source(t, from),
    decreases t.len() - from,
{
    if from < t.len() && has_source(t, from) {
        lemma_before_gap(t, from + 1);
    }
}

/// Entries that pass the validation make a trace: in the order of their
/// message IDs they fulfil the requirements on the entries of a trace. The
/// trace holds the given entries and no others, so that, where none of the
/// given entries arrives before it is sent, none of the trace does.
pub proof fn lemma_accepted_entries_are_valid(s: Seq<TraceEntry>)
    requires
        validation_error(s) is None,
    ensures
        valid_trace(by_message_id(s)),
        forall|i: int| 0 <= i < s.len() ==> s.contains(#[trigger] by_message_id(s)[i]),
        forall|k: int| 0 <= k < s.len() ==> by_message_id(s).contains(#[trigger] s[k]),
        (forall|k: int|
            0 <= k < s.len() ==> (#[trigger] s[k]).source_timestamp
                <= s[k].destination_timestamp) ==> (forall|i: int|
            0 <= i < s.len() ==> (#[trigger] by_message_id(s)[i]).source_timestamp
                <= by_message_id(s)[i].destination_timestamp),
{
    let t = by_message_id(s);
    lemma_bad_id_bound(s, 0);
    lemma_build_keeps_entries(s);
    lemma_all_ids_once(s, 0);
    assert forall|i: int| 0 <= i < t.len() implies (#[trigger] t[i]).m_id.0 == i by {
        assert(id_count(s, i) == 1);
        let f = s.filter(has_id(i));
        assert(f.contains(f[0]));
        s.lemma_filter_contains_rev(has_id(i), f[0]);
        s.lemma_filter_pred(has_id(i), 0);
        let k = choose|k: int| 0 <= k < s.len() && s[k] == f[0];
        lemma_one_place(s, i, k);
    }
    lemma_before_descent(t, 1);
    lemma_steps_ascend(t);
    lemma_before_gap(t, 0);
    assert forall|k: int| 0 <= k < s.len() implies t.contains(#[trigger] s[k]) by {
        assert(t[s[k].m_id.0 as int] == s[k]);
    }
    if forall|k: int|
        0 <= k < s.len() ==> (#[trigger] s[k]).source_timestamp <= s[k].destination_timestamp {
        assert forall|i: int| 0 <= i < s.len() implies (#[trigger] t[i]).source_timestamp
            <= t[i].destination_timestamp by {
            assert(s.contains(t[i]));
            let k = choose|k: int| 0 <= k < s.len() && s[k] == t[i];
            assert(s[k].source_timestamp <= s[k].destination_timestamp);
        }
    }
}

} // verus!
