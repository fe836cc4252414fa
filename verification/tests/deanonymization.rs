use ppcalc_metric::deanonymization::{
    deanonymized_users_over_time, summarize, DeanomizationEntry, SourceSummary,
};
use ppcalc_metric::ids::{DestinationId, MessageId, SourceId};
use ppcalc_metric::metric::{compute_relationship_anonymity, compute_relationship_anonymity_sizes};
use ppcalc_metric::trace::{Trace, TraceBuilder, TraceEntry};

const MS: i128 = 1_000_000;

fn simple_trace() -> Trace {
    let arrival = [93, 99, 112, 140, 146, 150, 160, 167, 197, 200, 204, 241, 243, 254, 269, 285];
    let sent = [67, 67, 97, 112, 140, 140, 141, 150, 167, 169, 185, 204, 204, 243, 254, 254];
    let of_first = [0, 2, 3, 5, 6, 9, 10, 12, 14];
    let mut builder = TraceBuilder::new();
    for i in 0..16usize {
        let first = of_first.contains(&i);
        builder.add_entry(TraceEntry {
            m_id: MessageId::new(i as u64),
            source_id: SourceId::new(if first { 0 } else { 1 }),
            source_timestamp: sent[i] * MS,
            destination_id: DestinationId::new(if first { 10 } else { 20 }),
            destination_timestamp: arrival[i] * MS,
        });
    }
    builder.build().unwrap()
}

fn sets_of(sizes: &[usize]) -> Vec<(MessageId, Vec<DestinationId>)> {
    sizes
        .iter()
        .enumerate()
        .map(|(i, n)| {
            (MessageId::new(i as u64), (0..*n as u64).map(DestinationId::new).collect())
        })
        .collect()
}

#[test]
fn sources_of_the_simple_trace_are_deanonymized_at_the_end() {
    let trace = simple_trace();
    let (sets, _) = compute_relationship_anonymity(&trace, 1 * MS, 100 * MS);
    let entries = deanonymized_users_over_time(&sets, &trace);
    assert_eq!(
        entries,
        vec![
            DeanomizationEntry {
                source: SourceId::new(0),
                destination: DestinationId::new(10),
                remaining_anonymity_set: 1,
                messages: 9,
                deanomized_at: Some(7),
            },
            DeanomizationEntry {
                source: SourceId::new(1),
                destination: DestinationId::new(20),
                remaining_anonymity_set: 1,
                messages: 7,
                deanomized_at: Some(6),
            },
        ]
    );
}

#[test]
fn deanonymization_counts_the_singleton_tail() {
    let trace = simple_trace();
    let all = vec![
        // never a single candidate
        sets_of(&[3, 2, 2]),
        // a source without a message has no entry
        sets_of(&[]),
        // a single candidate from the start
        sets_of(&[1, 1, 1]),
        // a single candidate in between does not count
        sets_of(&[2, 1, 2, 1, 1]),
        // no candidate at the end
        sets_of(&[2, 1, 0]),
    ];
    let entries = deanonymized_users_over_time(&all, &trace);
    let at: Vec<(u64, u64, u64, Option<u64>)> = entries
        .iter()
        .map(|e| (e.source.to_num(), e.remaining_anonymity_set, e.messages, e.deanomized_at))
        .collect();
    assert_eq!(
        at,
        vec![(0, 2, 3, None), (2, 1, 3, Some(0)), (3, 1, 5, Some(3)), (4, 0, 3, None)]
    );
    // the destination is that of the last message of the source
    assert_eq!(entries[0].destination, DestinationId::new(10));
    assert_eq!(entries[2].destination, DestinationId::new(20));
}

#[test]
fn deanonymization_skips_messages_outside_of_the_trace() {
    let trace = simple_trace();
    let all = vec![vec![(MessageId::new(16), vec![DestinationId::new(1)])]];
    assert!(deanonymized_users_over_time(&all, &trace).is_empty());
}

#[test]
fn summary_of_the_simple_trace() {
    let trace = simple_trace();
    let (sizes, _) = compute_relationship_anonymity_sizes(&trace, 1 * MS, 100 * MS);
    assert_eq!(
        summarize(&sizes[0], &trace),
        SourceSummary {
            last_anonset_size: Some(1),
            // the eighth message of the source
            deanonymized_at_num: Some(8),
            // message 12 is sent at 204 ms, message 0 at 67 ms
            time_to_deanon: Some(137 * MS),
        }
    );
    assert_eq!(
        summarize(&sizes[1], &trace),
        SourceSummary {
            last_anonset_size: Some(1),
            deanonymized_at_num: Some(7),
            time_to_deanon: Some(187 * MS),
        }
    );
}

#[test]
fn summary_without_deanonymization() {
    let trace = simple_trace();
    let none = SourceSummary {
        last_anonset_size: None,
        deanonymized_at_num: None,
        time_to_deanon: None,
    };
    assert_eq!(summarize(&Vec::new(), &trace), none);
    let sizes = vec![(MessageId::new(0), 3), (MessageId::new(2), 1), (MessageId::new(3), 2)];
    assert_eq!(
        summarize(&sizes, &trace),
        SourceSummary { last_anonset_size: Some(2), deanonymized_at_num: None, time_to_deanon: None }
    );
    let sizes = vec![(MessageId::new(0), 1), (MessageId::new(2), 0)];
    assert_eq!(
        summarize(&sizes, &trace),
        SourceSummary { last_anonset_size: Some(0), deanonymized_at_num: None, time_to_deanon: None }
    );
    let sizes = vec![(MessageId::new(5), 1), (MessageId::new(6), 1)];
    assert_eq!(
        summarize(&sizes, &trace),
        SourceSummary {
            last_anonset_size: Some(1),
            deanonymized_at_num: Some(1),
            time_to_deanon: Some(0),
        }
    );
}
