use ppcalc_metric::containers::DestinationTable;
use ppcalc_metric::ids::{DestinationId, MessageId, SourceId};
use ppcalc_metric::metric::{
    compute_message_anonymity_sets, compute_relationship_anonymity,
    compute_relationship_anonymity_sizes, message_anonymity_set, messages_per_source,
    relative_difference, relative_set_distance, source_anonymity_sets, split_anonymity_set,
    split_by_destination, AnonymitySetMerger, OutputFull, OutputMapper, OutputSizes,
};
use ppcalc_metric::trace::{Trace, TraceBuilder, TraceEntry};
use ppcalc_metric::MessageSet;

const MS: i128 = 1_000_000;

/// A trace of the given messages: (source, sent [ms], destination, arrival [ms]).
fn trace_of(messages: &[(u64, i128, u64, i128)]) -> Trace {
    let mut builder = TraceBuilder::new();
    for (i, (source, sent, destination, arrival)) in messages.iter().enumerate() {
        builder.add_entry(TraceEntry {
            m_id: MessageId::new(i as u64),
            source_id: SourceId::new(*source),
            source_timestamp: sent * MS,
            destination_id: DestinationId::new(*destination),
            destination_timestamp: arrival * MS,
        });
    }
    builder.build().unwrap()
}

/// Two sources that send in turn, source 0 to destination 10 and source 1 to
/// destination 20.
fn simple_trace() -> Trace {
    let arrival = [93, 99, 112, 140, 146, 150, 160, 167, 197, 200, 204, 241, 243, 254, 269, 285];
    let sent = [67, 67, 97, 112, 140, 140, 141, 150, 167, 169, 185, 204, 204, 243, 254, 254];
    let of_first = [0, 2, 3, 5, 6, 9, 10, 12, 14];
    let mut messages = Vec::new();
    for i in 0..16 {
        if of_first.contains(&i) {
            messages.push((0, sent[i], 10, arrival[i]));
        } else {
            messages.push((1, sent[i], 20, arrival[i]));
        }
    }
    trace_of(&messages)
}

fn ids(set: &MessageSet) -> Vec<u64> {
    set.iter().iter().map(|m| m.to_num()).collect()
}

fn dests(v: &[u64]) -> Vec<DestinationId> {
    v.iter().map(|d| DestinationId::new(*d)).collect()
}

fn range(from: u64, to: u64) -> Vec<u64> {
    (from..=to).collect()
}

#[test]
fn simple_example_validation() {
    let network_trace = simple_trace();

    let expected_source_message_anonymity_set: Vec<Vec<u64>> = vec![
        vec![0, 1, 2, 3, 4, 5, 6, 7],
        vec![0, 1, 2, 3, 4, 5, 6, 7],
        vec![1, 2, 3, 4, 5, 6, 7, 8],
        vec![3, 4, 5, 6, 7, 8, 9, 10],
        vec![4, 5, 6, 7, 8, 9, 10],
        vec![4, 5, 6, 7, 8, 9, 10],
        vec![4, 5, 6, 7, 8, 9, 10, 11],
        vec![6, 7, 8, 9, 10, 11, 12],
        vec![8, 9, 10, 11, 12, 13],
        vec![8, 9, 10, 11, 12, 13, 14],
        vec![8, 9, 10, 11, 12, 13, 14, 15],
        vec![11, 12, 13, 14, 15],
        vec![11, 12, 13, 14, 15],
        vec![13, 14, 15],
        vec![14, 15],
        vec![14, 15],
    ];
    for id in 0..16 {
        let set = message_anonymity_set(&network_trace, MessageId::new(id), 1 * MS, 100 * MS);
        assert_eq!(
            ids(&set),
            expected_source_message_anonymity_set[id as usize],
            "Source message anonymity set differed from expectation at id: {}",
            id
        );
    }

    let (source_relationship_anonymity_sets, destination_relationship_anonymity_sets) =
        compute_relationship_anonymity(&network_trace, 1 * MS, 100 * MS);

    let d1 = 10;
    let d2 = 20;
    let source_relationship_anonymity_sets_s1 = vec![
        (0, vec![d1, d2]),
        (2, vec![d1, d2]),
        (3, vec![d1, d2]),
        (5, vec![d1, d2]),
        (6, vec![d1, d2]),
        (9, vec![d1, d2]),
        (10, vec![d1, d2]),
        (12, vec![d1]),
        (14, vec![d1]),
    ];
    let sras_s1 = source_relationship_anonymity_sets[0].clone();
    assert_eq!(
        sras_s1.len(),
        source_relationship_anonymity_sets_s1.len(),
        "The length of the anonymity sets for sender s1 differ"
    );
    for ((r_id, r_as), (e_id, e_as)) in
        sras_s1.into_iter().zip(source_relationship_anonymity_sets_s1.into_iter())
    {
        assert_eq!(r_id, MessageId::new(e_id), "Real id, was not the same as expected id");
        assert_eq!(r_as, dests(&e_as), "Anonymity sets differ at id: {}", e_id);
    }

    let source_relationship_anonymity_sets_s2 = vec![
        (1, vec![d1, d2]),
        (4, vec![d1, d2]),
        (7, vec![d1, d2]),
        (8, vec![d1, d2]),
        (11, vec![d1, d2]),
        (13, vec![d1, d2]),
        (15, vec![d2]),
    ];
    let sras_s2 = source_relationship_anonymity_sets[1].clone();
    assert_eq!(
        sras_s2.len(),
        source_relationship_anonymity_sets_s2.len(),
        "The length of the anonymity sets for sender s1 differ"
    );
    for ((r_id, r_as), (e_id, e_as)) in
        sras_s2.into_iter().zip(source_relationship_anonymity_sets_s2.into_iter())
    {
        assert_eq!(r_id, MessageId::new(e_id), "Real id, was not the same as expected id");
        assert_eq!(r_as, dests(&e_as), "Anonymity sets differ at id: {}", e_id);
    }

    assert_eq!(source_relationship_anonymity_sets.len(), 2);
    assert!(destination_relationship_anonymity_sets.is_empty());
}

#[test]
fn anonymity_sets_only_get_smaller() {
    let trace = simple_trace();
    for (min, max) in [(1, 100), (0, 30), (20, 60), (50, 50), (0, 0)] {
        let (sets, _) = compute_relationship_anonymity(&trace, min * MS, max * MS);
        for per_source in sets.iter() {
            for pair in per_source.windows(2) {
                for d in pair[1].1.iter() {
                    assert!(pair[0].1.contains(d));
                }
            }
        }
    }
}

#[test]
fn every_candidate_has_a_message_in_the_window() {
    let trace = simple_trace();
    let (min, max) = (20 * MS, 60 * MS);
    let (sets, _) = compute_relationship_anonymity(&trace, min, max);
    for per_source in sets.iter() {
        for (m, candidates) in per_source.iter() {
            let sent = trace.message_sent(m).unwrap();
            for d in candidates.iter() {
                assert!(trace.entries().iter().any(|e| e.destination_id == *d
                    && sent + min <= e.destination_timestamp
                    && e.destination_timestamp <= sent + max));
            }
        }
    }
}

#[test]
fn true_destination_is_always_a_candidate() {
    // every message of the simple trace is delivered within 1 ms to 100 ms
    let trace = simple_trace();
    let (sets, _) = compute_relationship_anonymity(&trace, 1 * MS, 100 * MS);
    for (source, per_source) in sets.iter().enumerate() {
        let partner = DestinationId::new(if source == 0 { 10 } else { 20 });
        assert!(!per_source.is_empty());
        for (_, candidates) in per_source.iter() {
            assert!(candidates.contains(&partner));
        }
    }
}

#[test]
fn results_are_the_same_on_every_run() {
    let trace = simple_trace();
    let first = compute_relationship_anonymity(&trace, 1 * MS, 100 * MS);
    let second = compute_relationship_anonymity(&trace, 1 * MS, 100 * MS);
    assert_eq!(first, second);
    let first = compute_relationship_anonymity_sizes(&trace, 1 * MS, 100 * MS);
    let second = compute_relationship_anonymity_sizes(&trace, 1 * MS, 100 * MS);
    assert_eq!(first, second);
}

#[test]
fn sizes_are_the_sizes_of_the_sets() {
    let trace = simple_trace();
    for (min, max) in [(1, 100), (0, 30), (20, 60), (50, 50)] {
        let (sets, _) = compute_relationship_anonymity(&trace, min * MS, max * MS);
        let (sizes, empty) = compute_relationship_anonymity_sizes(&trace, min * MS, max * MS);
        assert!(empty.is_empty());
        assert_eq!(sets.len(), sizes.len());
        for (a, b) in sets.iter().zip(sizes.iter()) {
            assert_eq!(a.len(), b.len());
            for ((m1, set), (m2, size)) in a.iter().zip(b.iter()) {
                assert_eq!(m1, m2);
                assert_eq!(set.len(), *size);
            }
        }
    }
    let (sizes, _) = compute_relationship_anonymity_sizes(&trace, 1 * MS, 100 * MS);
    let of_second: Vec<usize> = sizes[1].iter().map(|x| x.1).collect();
    assert_eq!(of_second, vec![2, 2, 2, 2, 2, 2, 1]);
}

#[test]
fn message_without_delay_is_in_its_own_window() {
    // message 1 arrives at the moment at which it is sent
    let trace = trace_of(&[(0, 5, 1, 10), (0, 20, 1, 20), (0, 25, 1, 40)]);
    let set = message_anonymity_set(&trace, MessageId::new(1), 0, 10 * MS);
    assert_eq!(ids(&set), vec![1]);
    let set = message_anonymity_set(&trace, MessageId::new(1), 0, 0);
    assert_eq!(ids(&set), vec![1]);
    let set = message_anonymity_set(&trace, MessageId::new(1), 1, 10 * MS);
    assert_eq!(ids(&set), Vec::<u64>::new());
}

#[test]
fn window_bounds_are_inclusive() {
    let trace = trace_of(&[(0, 0, 1, 10), (0, 0, 2, 20), (0, 0, 3, 20), (0, 0, 4, 30)]);
    // lower bound 10 ms and upper bound 20 ms are both met exactly
    let set = message_anonymity_set(&trace, MessageId::new(0), 10 * MS, 20 * MS);
    assert_eq!(ids(&set), vec![0, 1, 2]);
    // one nanosecond off at either end
    let set = message_anonymity_set(&trace, MessageId::new(0), 10 * MS + 1, 20 * MS - 1);
    assert_eq!(ids(&set), Vec::<u64>::new());
    // a point interval takes all messages that arrive at that moment
    let set = message_anonymity_set(&trace, MessageId::new(0), 20 * MS, 20 * MS);
    assert_eq!(ids(&set), vec![1, 2]);
    let (sets, _) = compute_relationship_anonymity(&trace, 20 * MS, 20 * MS);
    assert_eq!(sets[0][0], (MessageId::new(0), dests(&[2, 3])));
}

#[test]
fn window_with_bounds_the_wrong_way_round_is_empty() {
    let trace = trace_of(&[(0, 0, 1, 10), (0, 0, 2, 20)]);
    let set = message_anonymity_set(&trace, MessageId::new(0), 20 * MS, 10 * MS);
    assert_eq!(ids(&set), Vec::<u64>::new());
}

#[test]
fn window_bounds_that_leave_the_range_of_the_numbers() {
    let trace = trace_of(&[(0, 0, 1, 10), (0, 5, 2, 20)]);
    let set = message_anonymity_set(&trace, MessageId::new(1), i128::MIN, i128::MAX);
    assert_eq!(ids(&set), vec![0, 1]);
    let set = message_anonymity_set(&trace, MessageId::new(1), i128::MAX, i128::MAX);
    assert_eq!(ids(&set), Vec::<u64>::new());
    let set = message_anonymity_set(&trace, MessageId::new(1), 0, i128::MAX);
    assert_eq!(ids(&set), vec![0, 1]);
}

#[test]
fn single_source_has_only_its_destination() {
    let trace = trace_of(&[(0, 0, 7, 10), (0, 5, 7, 12), (0, 9, 7, 30), (0, 30, 7, 45)]);
    for (min, max) in [(0, 100), (5, 15), (10, 10), (40, 50)] {
        let (sets, _) = compute_relationship_anonymity(&trace, min * MS, max * MS);
        assert_eq!(sets.len(), 1);
        assert_eq!(sets[0].len(), 4);
        for (_, candidates) in sets[0].iter() {
            assert!(candidates.iter().all(|d| *d == DestinationId::new(7)));
        }
    }
    // with bounds that hold, the destination stays
    let (sets, _) = compute_relationship_anonymity(&trace, 3 * MS, 21 * MS);
    for (_, candidates) in sets[0].iter() {
        assert_eq!(candidates, &dests(&[7]));
    }
}

#[test]
fn single_message_trace_has_one_emission() {
    let trace = trace_of(&[(0, 0, 42, 10)]);
    let (sets, other) = compute_relationship_anonymity(&trace, 0, 10 * MS);
    assert_eq!(sets, vec![vec![(MessageId::new(0), dests(&[42]))]]);
    assert!(other.is_empty());
    let (sizes, _) = compute_relationship_anonymity_sizes(&trace, 0, 10 * MS);
    assert_eq!(sizes, vec![vec![(MessageId::new(0), 1)]]);
    // outside of the delay bounds nothing is left, and the message is still put out
    let (sets, _) = compute_relationship_anonymity(&trace, 0, 9 * MS);
    assert_eq!(sets, vec![vec![(MessageId::new(0), dests(&[]))]]);
    let (sizes, _) = compute_relationship_anonymity_sizes(&trace, 11 * MS, 20 * MS);
    assert_eq!(sizes, vec![vec![(MessageId::new(0), 0)]]);
}

#[test]
fn a_dropped_destination_does_not_come_back() {
    // source 0 sends three messages; destination 2 has no arrival in the window of the
    // second message, but one in the window of the third
    let trace = trace_of(&[
        (0, 0, 1, 5),
        (1, 0, 2, 6),
        (0, 10, 1, 15),
        (0, 20, 1, 25),
        (1, 20, 2, 26),
    ]);
    let (sets, _) = compute_relationship_anonymity(&trace, 0, 9 * MS);
    assert_eq!(
        sets[0],
        vec![
            (MessageId::new(0), dests(&[1, 2])),
            (MessageId::new(2), dests(&[1])),
            (MessageId::new(3), dests(&[1])),
        ]
    );
}

#[test]
fn a_destination_with_too_few_messages_is_dropped() {
    // source 0 sends three messages in quick succession; destination 2 receives only one
    // message, destination 1 three
    let trace = trace_of(&[
        (0, 0, 1, 10),
        (1, 0, 2, 11),
        (0, 1, 1, 12),
        (0, 2, 1, 13),
    ]);
    let (sets, _) = compute_relationship_anonymity(&trace, 0, 20 * MS);
    assert_eq!(
        sets[0],
        vec![
            // destination 1: 3 candidates, 2 left; destination 2: 1 candidate, 0 left
            (MessageId::new(0), dests(&[1, 2])),
            // nothing new; destination 1: min(2, 3) = 2 candidates; destination 2: min(0, 1) = 0
            (MessageId::new(2), dests(&[1])),
            (MessageId::new(3), dests(&[1])),
        ]
    );
    let (sizes, _) = compute_relationship_anonymity_sizes(&trace, 0, 20 * MS);
    assert_eq!(sizes[1], vec![(MessageId::new(1), 2)]);
}

fn delta_of(entries: &[(u64, (usize, usize))]) -> DestinationTable<(usize, usize)> {
    let mut table = DestinationTable::new();
    for (d, counts) in entries {
        table.insert(DestinationId::new(*d), *counts);
    }
    table
}

#[test]
fn merger_counts_the_messages_that_are_left() {
    let mut merger = AnonymitySetMerger::new();
    // first message: every destination with a message stays
    let first = merger.next_anonymity_set(
        MessageId::new(0),
        &delta_of(&[(3, (2, 0)), (1, (1, 0)), (2, (4, 0))]),
    );
    assert_eq!(first, dests(&[1, 2, 3]));
    // left: 1 -> 0, 2 -> 3, 3 -> 1
    let second = merger.next_anonymity_set(
        MessageId::new(1),
        // 1: 0 + min(0, 1) = 0, dropped; 2: 0 + min(3, 2) = 2; 3: 1 + min(1, 5) = 2;
        // 4 was no candidate before
        &delta_of(&[(1, (0, 1)), (2, (0, 2)), (3, (1, 5)), (4, (6, 0))]),
    );
    assert_eq!(second, dests(&[2, 3]));
    // left: 2 -> 1, 3 -> 1
    let third = merger.next_anonymity_set(
        MessageId::new(2),
        // 1 was dropped and stays dropped; 2: 0 + min(1, 1) = 1; 3 has no message
        &delta_of(&[(1, (5, 0)), (2, (0, 1))]),
    );
    assert_eq!(third, dests(&[2]));
    // left: 2 -> 0
    let fourth = merger.next_anonymity_set(MessageId::new(3), &delta_of(&[(2, (0, 3))]));
    assert_eq!(fourth, dests(&[]));
    let fifth = merger.next_anonymity_set(MessageId::new(4), &delta_of(&[(2, (3, 0))]));
    assert_eq!(fifth, dests(&[]));
}

#[test]
fn merger_starts_with_the_destinations_of_the_first_message() {
    let mut merger = AnonymitySetMerger::new();
    let first = merger.next_anonymity_set(MessageId::new(0), &delta_of(&[]));
    assert_eq!(first, dests(&[]));
    let second = merger.next_anonymity_set(MessageId::new(1), &delta_of(&[(1, (1, 0))]));
    assert_eq!(second, dests(&[]));
}

#[test]
fn split_and_difference_of_anonymity_sets() {
    let trace = simple_trace();
    let previous = split_anonymity_set(&trace, MessageId::new(0), 1 * MS, 100 * MS);
    assert_eq!(previous.keys(), dests(&[10, 20]));
    assert_eq!(ids(previous.get(DestinationId::new(10)).unwrap()), vec![0, 2, 3, 5, 6]);
    assert_eq!(ids(previous.get(DestinationId::new(20)).unwrap()), vec![1, 4, 7]);
    let this = split_anonymity_set(&trace, MessageId::new(2), 1 * MS, 100 * MS);
    assert_eq!(ids(this.get(DestinationId::new(10)).unwrap()), vec![2, 3, 5, 6]);
    assert_eq!(ids(this.get(DestinationId::new(20)).unwrap()), vec![1, 4, 7, 8]);

    let first = relative_difference(&None, &previous);
    assert_eq!(first.get(DestinationId::new(10)), Some(&(5, 0)));
    assert_eq!(first.get(DestinationId::new(20)), Some(&(3, 0)));
    let second = relative_difference(&Some(previous), &this);
    assert_eq!(second.keys(), dests(&[10, 20]));
    assert_eq!(second.get(DestinationId::new(10)), Some(&(0, 4)));
    assert_eq!(second.get(DestinationId::new(20)), Some(&(1, 3)));
}

#[test]
fn difference_to_a_set_without_the_destination() {
    let trace = trace_of(&[(0, 0, 1, 5), (0, 10, 2, 15), (0, 10, 2, 16)]);
    let previous = split_anonymity_set(&trace, MessageId::new(0), 0, 5 * MS);
    let this = split_anonymity_set(&trace, MessageId::new(1), 0, 6 * MS);
    assert_eq!(previous.keys(), dests(&[1]));
    assert_eq!(this.keys(), dests(&[2]));
    let difference = relative_difference(&Some(previous), &this);
    assert_eq!(difference.keys(), dests(&[2]));
    assert_eq!(difference.get(DestinationId::new(2)), Some(&(2, 0)));
}

#[test]
fn set_distance_and_split_by_destination() {
    let trace = simple_trace();
    let a = message_anonymity_set(&trace, MessageId::new(0), 1 * MS, 100 * MS);
    let b = message_anonymity_set(&trace, MessageId::new(3), 1 * MS, 100 * MS);
    // [0..7] against [3..10]
    assert_eq!(relative_set_distance(&a, &b), (3, 5));
    assert_eq!(relative_set_distance(&b, &a), (3, 5));
    let split = split_by_destination(b, trace.get_destination_mapping());
    assert_eq!(split.keys(), dests(&[10, 20]));
    assert_eq!(ids(split.get(DestinationId::new(10)).unwrap()), vec![3, 5, 6, 9, 10]);
    assert_eq!(ids(split.get(DestinationId::new(20)).unwrap()), vec![4, 7, 8]);
    assert_eq!(range(3, 10).len(), 8);
}

#[test]
fn messages_are_listed_per_source() {
    let trace = simple_trace();
    let per_source = messages_per_source(&trace);
    let numbers: Vec<Vec<u64>> =
        per_source.iter().map(|v| v.iter().map(|m| m.to_num()).collect()).collect();
    assert_eq!(
        numbers,
        vec![vec![0, 2, 3, 5, 6, 9, 10, 12, 14], vec![1, 4, 7, 8, 11, 13, 15]]
    );
}

#[test]
fn anonymity_sets_of_one_source() {
    let trace = simple_trace();
    let messages: Vec<MessageId> = [1u64, 4, 7].iter().map(|m| MessageId::new(*m)).collect();
    let sets = source_anonymity_sets::<OutputFull>(&trace, &messages, 1 * MS, 100 * MS);
    assert_eq!(
        sets,
        vec![
            (MessageId::new(1), dests(&[10, 20])),
            (MessageId::new(4), dests(&[10, 20])),
            (MessageId::new(7), dests(&[10, 20])),
        ]
    );
    let sizes = source_anonymity_sets::<OutputSizes>(&trace, &messages, 1 * MS, 100 * MS);
    assert_eq!(
        sizes,
        vec![(MessageId::new(1), 2), (MessageId::new(4), 2), (MessageId::new(7), 2)]
    );
    let none = source_anonymity_sets::<OutputFull>(&trace, &Vec::new(), 1 * MS, 100 * MS);
    assert!(none.is_empty());
}

#[test]
fn output_mappers_give_the_set_or_its_size() {
    assert_eq!(OutputFull::map(dests(&[1, 5, 9])), dests(&[1, 5, 9]));
    assert_eq!(OutputSizes::map(dests(&[1, 5, 9])), 3);
    assert_eq!(OutputSizes::map(dests(&[])), 0);
    let trace = simple_trace();
    let full = compute_message_anonymity_sets::<OutputFull>(&trace, 1 * MS, 100 * MS);
    assert_eq!(full, compute_relationship_anonymity(&trace, 1 * MS, 100 * MS).0);
    let sizes = compute_message_anonymity_sets::<OutputSizes>(&trace, 1 * MS, 100 * MS);
    assert_eq!(sizes, compute_relationship_anonymity_sizes(&trace, 1 * MS, 100 * MS).0);
}
