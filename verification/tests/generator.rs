use ppcalc_metric::destination::{
    destination_selection, round_robin_destination_selection, uniform_destination_selection,
    DestinationSelectionType,
};
use ppcalc_metric::ids::{DestinationId, MessageId, SourceId};
use ppcalc_metric::network::{
    generate_network_delay, merge_traces, read_sources_from_trace, source_destination_entries,
    PreNetworkTraceEntry, SourceDestinationMapEntry, SourceTrace,
};
use ppcalc_metric::source::Source;
use ppcalc_metric::trace::{TraceBuildError, TraceEntry};
use std::collections::HashMap;

fn sources(v: &[u64]) -> Vec<SourceId> {
    v.iter().map(|s| SourceId::new(*s)).collect()
}

fn pre(source: u64, sent: i128, destination: u64) -> PreNetworkTraceEntry {
    PreNetworkTraceEntry {
        source_id: SourceId::new(source),
        source_timestamp: sent,
        destination_id: DestinationId::new(destination),
    }
}

#[test]
fn round_robin_gives_the_destinations_in_turn() {
    let map = round_robin_destination_selection(3, sources(&[10, 11, 12, 13, 14]));
    let expected: HashMap<u64, u64> =
        [(10, 0), (11, 1), (12, 2), (13, 0), (14, 1)].into_iter().collect();
    assert_eq!(map, expected);
}

#[test]
fn round_robin_keeps_the_last_place_of_a_source() {
    let map = round_robin_destination_selection(4, sources(&[7, 8, 7]));
    let expected: HashMap<u64, u64> = [(7, 2), (8, 1)].into_iter().collect();
    assert_eq!(map, expected);
}

#[test]
fn round_robin_without_sources_needs_no_destination() {
    assert!(round_robin_destination_selection(0, Vec::new()).is_empty());
    let map = destination_selection(&DestinationSelectionType::RoundRobin, 0, Vec::new());
    assert!(map.is_empty());
}

#[test]
fn uniform_selection_stays_below_the_number_of_destinations() {
    let list: Vec<u64> = (0..200).collect();
    let map = uniform_destination_selection(3, sources(&list));
    assert_eq!(map.len(), 200);
    for s in list.iter() {
        assert!(map[s] < 3);
    }
    // with one destination there is no choice
    let map = uniform_destination_selection(1, sources(&list));
    assert_eq!(map.len(), 200);
    assert!(map.values().all(|d| *d == 0));
    // over many draws every destination is chosen
    let map = uniform_destination_selection(2, sources(&list));
    assert!(map.values().any(|d| *d == 0));
    assert!(map.values().any(|d| *d == 1));
}

#[test]
fn selection_goes_by_its_type() {
    let map = destination_selection(&DestinationSelectionType::RoundRobin, 2, sources(&[5, 6, 9]));
    let expected: HashMap<u64, u64> = [(5, 0), (6, 1), (9, 0)].into_iter().collect();
    assert_eq!(map, expected);
    let map = destination_selection(&DestinationSelectionType::Uniform, 1, sources(&[5, 6, 9]));
    let expected: HashMap<u64, u64> = [(5, 0), (6, 0), (9, 0)].into_iter().collect();
    assert_eq!(map, expected);
}

#[test]
fn traces_are_merged_in_the_order_of_sending() {
    let traces = vec![
        SourceTrace { source_id: SourceId::new(0), timestamps: vec![10, 30, 50] },
        SourceTrace { source_id: SourceId::new(1), timestamps: vec![20, 30, 40] },
        SourceTrace { source_id: SourceId::new(2), timestamps: vec![] },
    ];
    let map: HashMap<u64, u64> = [(0, 8), (1, 9), (2, 7)].into_iter().collect();
    let merged = merge_traces(traces, &map);
    assert_eq!(
        merged,
        vec![
            pre(0, 10, 8),
            pre(1, 20, 9),
            // sent at the same time: the earlier source first
            pre(0, 30, 8),
            pre(1, 30, 9),
            pre(1, 40, 9),
            pre(0, 50, 8),
        ]
    );
}

#[test]
fn merging_sorts_the_send_times_of_a_source() {
    let traces = vec![SourceTrace { source_id: SourceId::new(3), timestamps: vec![5, 1, 5, 0] }];
    let map: HashMap<u64, u64> = [(3, 1)].into_iter().collect();
    let merged = merge_traces(traces, &map);
    assert_eq!(merged, vec![pre(3, 0, 1), pre(3, 1, 1), pre(3, 5, 1), pre(3, 5, 1)]);
}

#[test]
fn rows_of_the_chosen_destinations() {
    let map: HashMap<u64, u64> = [(0, 8), (1, 9)].into_iter().collect();
    let rows = source_destination_entries(&sources(&[1, 4, 0]), &map);
    assert_eq!(
        rows,
        vec![
            SourceDestinationMapEntry {
                source: SourceId::new(1),
                destination: DestinationId::new(9)
            },
            SourceDestinationMapEntry {
                source: SourceId::new(0),
                destination: DestinationId::new(8)
            },
        ]
    );
}

#[test]
fn network_delay_orders_the_messages_by_arrival() {
    let messages = vec![pre(0, 1_000_000, 5), pre(1, 2_000_000, 6), pre(0, 3_000_000, 5)];
    let trace = generate_network_delay(&vec![10, 1, 0], messages).unwrap();
    assert_eq!(
        trace.entries(),
        &vec![
            TraceEntry {
                m_id: MessageId::new(0),
                source_id: SourceId::new(1),
                source_timestamp: 2_000_000,
                destination_id: DestinationId::new(6),
                destination_timestamp: 3_000_000,
            },
            TraceEntry {
                m_id: MessageId::new(1),
                source_id: SourceId::new(0),
                source_timestamp: 3_000_000,
                destination_id: DestinationId::new(5),
                destination_timestamp: 3_000_000,
            },
            TraceEntry {
                m_id: MessageId::new(2),
                source_id: SourceId::new(0),
                source_timestamp: 1_000_000,
                destination_id: DestinationId::new(5),
                destination_timestamp: 11_000_000,
            },
        ]
    );
}

#[test]
fn network_delay_of_nothing_is_no_trace() {
    match generate_network_delay(&Vec::new(), Vec::new()) {
        Ok(_) => panic!("an empty trace was built"),
        Err(e) => assert_eq!(e, TraceBuildError::EmptyTrace),
    }
    match generate_network_delay(&vec![1], vec![pre(2, 0, 0)]) {
        Ok(_) => panic!("a trace with a gap in its sources was built"),
        Err(e) => assert_eq!(e, TraceBuildError::SourceIdsHaveGaps(SourceId::new(2))),
    }
}

#[test]
fn source_sends_at_a_steady_pace() {
    let mut source = Source::new(4, 250, 1_000);
    let trace = source.gen_source_trace(SourceId::new(6));
    assert_eq!(trace.source_id, SourceId::new(6));
    assert_eq!(trace.timestamps, vec![1_250, 1_500, 1_750, 2_000]);
    let mut silent = Source::new(0, 250, 1_000);
    assert!(silent.gen_source_trace(SourceId::new(0)).timestamps.is_empty());
}

#[test]
fn sources_are_read_back_from_a_trace() {
    let messages = vec![pre(0, 10, 5), pre(1, 20, 6), pre(0, 30, 5), pre(1, 40, 6), pre(1, 41, 6)];
    let trace = generate_network_delay(&vec![1, 1, 1, 1, 1], messages).unwrap();
    let read = read_sources_from_trace(&trace);
    assert_eq!(read.len(), 2);
    assert_eq!(read[0].source_id, SourceId::new(0));
    assert_eq!(read[0].timestamps, vec![10, 30]);
    assert_eq!(read[1].source_id, SourceId::new(1));
    assert_eq!(read[1].timestamps, vec![20, 40, 41]);
}

#[test]
fn destinations_are_assigned_by_place() {
    let map = ppcalc_metric::destination::assign_destinations(
        sources(&[4, 2, 9, 2]),
        &vec![7, 8, 7, 5],
    );
    let expected: HashMap<u64, u64> = [(4, 7), (2, 5), (9, 7)].into_iter().collect();
    assert_eq!(map, expected);
}
