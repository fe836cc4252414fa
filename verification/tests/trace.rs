use ppcalc_metric::ids::{DestinationId, MessageId, SourceId};
use ppcalc_metric::trace::{TraceBuildError, TraceBuilder, TraceEntry};

fn entry(m_id: u64, source: u64, sent: i128, destination: u64, arrival: i128) -> TraceEntry {
    TraceEntry {
        m_id: MessageId::new(m_id),
        source_id: SourceId::new(source),
        source_timestamp: sent,
        destination_id: DestinationId::new(destination),
        destination_timestamp: arrival,
    }
}

fn builder_of(entries: &[TraceEntry]) -> TraceBuilder {
    let mut builder = TraceBuilder::new();
    for e in entries {
        builder.add_entry(*e);
    }
    builder
}

fn error_of(entries: &[TraceEntry]) -> TraceBuildError {
    match builder_of(entries).build() {
        Ok(_) => panic!("the entries were accepted"),
        Err(e) => e,
    }
}

#[test]
fn empty_trace_is_rejected() {
    assert_eq!(error_of(&[]), TraceBuildError::EmptyTrace);
}

#[test]
fn gap_in_message_ids_is_rejected() {
    let entries = [entry(0, 0, 0, 0, 1), entry(1, 0, 1, 0, 2), entry(3, 0, 2, 0, 3)];
    assert_eq!(error_of(&entries), TraceBuildError::MessageIdsHaveGaps(MessageId::new(2)));
}

#[test]
fn missing_first_message_id_is_a_gap() {
    let entries = [entry(1, 0, 0, 0, 1), entry(2, 0, 1, 0, 2)];
    assert_eq!(error_of(&entries), TraceBuildError::MessageIdsHaveGaps(MessageId::new(0)));
}

#[test]
fn message_id_used_twice_is_rejected() {
    let entries = [entry(0, 0, 0, 0, 1), entry(1, 0, 1, 0, 2), entry(1, 0, 2, 0, 3)];
    assert_eq!(error_of(&entries), TraceBuildError::MessageIdsNotUnique(MessageId::new(1)));
}

#[test]
fn first_offending_message_id_is_named() {
    // 1 is missing and 2 is used twice: the gap comes first
    let entries = [entry(2, 0, 0, 0, 1), entry(0, 0, 1, 0, 2), entry(2, 0, 2, 0, 3)];
    assert_eq!(error_of(&entries), TraceBuildError::MessageIdsHaveGaps(MessageId::new(1)));
    // 0 is used twice and 2 is missing: the double use comes first
    let entries = [entry(0, 0, 0, 0, 1), entry(0, 0, 1, 0, 2), entry(1, 0, 2, 0, 3)];
    assert_eq!(error_of(&entries), TraceBuildError::MessageIdsNotUnique(MessageId::new(0)));
}

#[test]
fn arrival_out_of_order_is_rejected() {
    let mut entries = Vec::new();
    for i in 0..8u64 {
        let arrival = if i == 5 { 35 } else { 10 * i as i128 + 10 };
        entries.push(entry(i, 0, 10 * i as i128, 0, arrival));
    }
    assert_eq!(error_of(&entries), TraceBuildError::NotSortedByArrival(MessageId::new(5)));
}

#[test]
fn arrival_is_checked_in_the_order_of_the_message_ids() {
    // given in the order of arrival, but message 1 arrives before message 0
    let entries = [entry(1, 0, 0, 0, 1), entry(0, 0, 0, 0, 2)];
    assert_eq!(error_of(&entries), TraceBuildError::NotSortedByArrival(MessageId::new(1)));
}

#[test]
fn gap_in_source_ids_is_rejected() {
    let entries = [entry(0, 0, 0, 0, 1), entry(1, 3, 1, 0, 2), entry(2, 5, 2, 0, 3)];
    assert_eq!(error_of(&entries), TraceBuildError::SourceIdsHaveGaps(SourceId::new(3)));
    let entries = [entry(0, 1, 0, 0, 1)];
    assert_eq!(error_of(&entries), TraceBuildError::SourceIdsHaveGaps(SourceId::new(1)));
}

#[test]
fn message_ids_are_checked_before_arrival_and_sources() {
    let entries = [entry(0, 4, 0, 0, 9), entry(2, 0, 1, 0, 2)];
    assert_eq!(error_of(&entries), TraceBuildError::MessageIdsHaveGaps(MessageId::new(1)));
    let entries = [entry(0, 4, 0, 0, 9), entry(1, 0, 1, 0, 2)];
    assert_eq!(error_of(&entries), TraceBuildError::NotSortedByArrival(MessageId::new(1)));
}

#[test]
fn build_orders_the_entries_by_message_id() {
    let entries = [
        entry(2, 1, 20, 7, 30),
        entry(0, 0, 0, 9, 10),
        entry(3, 0, 25, 9, 30),
        entry(1, 1, 5, 7, 12),
    ];
    let trace = builder_of(&entries).build().unwrap();
    let ids: Vec<u64> = trace.entries().iter().map(|e| e.m_id.to_num()).collect();
    assert_eq!(ids, vec![0, 1, 2, 3]);
    assert_eq!(trace.entries_vec()[2], entries[0]);
    assert_eq!(trace.max_message_id(), MessageId::new(3));
    assert_eq!(trace.max_source_id(), SourceId::new(1));
    let sources = trace.get_source_mapping();
    let destinations = trace.get_destination_mapping();
    assert_eq!(sources.len(), 4);
    assert_eq!(destinations.len(), 4);
    for (i, e) in trace.entries().iter().enumerate() {
        let id = MessageId::new(i as u64);
        assert_eq!(sources.get(&id), Some(&e.source_id));
        assert_eq!(destinations.get(&id), Some(&e.destination_id));
    }
    assert_eq!(sources.get(&MessageId::new(4)), None);
    assert_eq!(destinations.get(&MessageId::new(4)), None);
    assert_eq!(trace.message_sent(&MessageId::new(3)), Some(25));
    assert_eq!(trace.message_sent(&MessageId::new(4)), None);
}

#[test]
fn mappings_of_a_builder_follow_its_entries() {
    let entries = [entry(0, 2, 0, 5, 1), entry(1, 0, 1, 6, 2)];
    let (sources, destinations) = builder_of(&entries).source_and_destination_mappings();
    assert_eq!(sources.get(&MessageId::new(0)), Some(&SourceId::new(2)));
    assert_eq!(sources.get(&MessageId::new(1)), Some(&SourceId::new(0)));
    assert_eq!(destinations.get(&MessageId::new(0)), Some(&DestinationId::new(5)));
    assert_eq!(destinations.get(&MessageId::new(1)), Some(&DestinationId::new(6)));
}

#[test]
fn fix_orders_by_arrival_and_renumbers() {
    let entries = [
        entry(7, 0, 0, 1, 50),
        entry(7, 1, 1, 2, 20),
        entry(3, 0, 2, 1, 50),
        entry(9, 1, 3, 2, 10),
    ];
    let mut builder = builder_of(&entries);
    builder.fix();
    let trace = builder.build().unwrap();
    let got: Vec<TraceEntry> = trace.entries().clone();
    assert_eq!(
        got,
        vec![
            entry(0, 1, 3, 2, 10),
            entry(1, 1, 1, 2, 20),
            // entries that arrive together keep their order
            entry(2, 0, 0, 1, 50),
            entry(3, 0, 2, 1, 50),
        ]
    );
}

#[test]
fn fix_twice_is_fix_once() {
    let entries = [
        entry(4, 0, 0, 1, 30),
        entry(4, 1, 1, 2, 10),
        entry(0, 0, 2, 1, 30),
        entry(1, 1, 3, 2, 10),
        entry(2, 1, 3, 2, 20),
    ];
    let mut once = builder_of(&entries);
    once.fix();
    let mut twice = builder_of(&entries);
    twice.fix();
    twice.fix();
    let once = once.build().unwrap();
    let twice = twice.build().unwrap();
    assert_eq!(once.entries(), twice.entries());
}

#[test]
fn fixed_entries_fail_only_for_their_sources() {
    let entries = [entry(5, 0, 0, 1, 30), entry(5, 2, 1, 2, 10)];
    let mut builder = builder_of(&entries);
    builder.fix();
    match builder.build() {
        Ok(_) => panic!("the entries were accepted"),
        Err(e) => assert_eq!(e, TraceBuildError::SourceIdsHaveGaps(SourceId::new(2))),
    }
}
