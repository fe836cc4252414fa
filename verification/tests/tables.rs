use ppcalc_metric::containers::{DestinationTable, MessageSet};
use ppcalc_metric::ids::{DestinationId, MessageId, SourceId};
use ppcalc_metric::trace::{TraceBuilder, TraceEntry};

fn nums(set: &MessageSet) -> Vec<u64> {
    set.iter().iter().map(|m| m.to_num()).collect()
}

#[test]
fn table_keeps_destinations_in_ascending_order() {
    let mut table: DestinationTable<usize> = DestinationTable::new();
    table.insert(DestinationId::new(7), 70);
    table.insert(DestinationId::new(2), 20);
    table.insert(DestinationId::new(9), 90);
    table.insert(DestinationId::new(5), 50);
    assert_eq!(table.len(), 4);
    assert_eq!(
        table.keys(),
        vec![
            DestinationId::new(2),
            DestinationId::new(5),
            DestinationId::new(7),
            DestinationId::new(9)
        ]
    );
    assert_eq!(table.key_at(1), DestinationId::new(5));
    assert_eq!(*table.value_at(1), 50);
    assert_eq!(table.get(DestinationId::new(7)), Some(&70));
    assert_eq!(table.get(DestinationId::new(3)), None);
}

#[test]
fn table_insert_replaces_the_value_of_a_destination() {
    let mut table: DestinationTable<usize> = DestinationTable::new();
    table.insert(DestinationId::new(4), 1);
    table.insert(DestinationId::new(4), 2);
    assert_eq!(table.len(), 1);
    assert_eq!(table.get(DestinationId::new(4)), Some(&2));
}

#[test]
fn split_by_groups_the_messages_by_destination() {
    // messages 0..6 go to the destinations 30, 10, 30, 20, 10, 30
    let destinations = [30u64, 10, 30, 20, 10, 30];
    let mut builder = TraceBuilder::new();
    for (i, d) in destinations.iter().enumerate() {
        builder.add_entry(TraceEntry {
            m_id: MessageId::new(i as u64),
            source_id: SourceId::new(0),
            source_timestamp: i as i128,
            destination_id: DestinationId::new(*d),
            destination_timestamp: i as i128 + 1,
        });
    }
    let trace = builder.build().unwrap();

    let mut set = MessageSet::new();
    for id in [5u64, 1, 0, 4, 2] {
        set.insert(MessageId::new(id));
    }
    let split = set.split_by(trace.get_destination_mapping());
    assert_eq!(split.keys(), vec![DestinationId::new(10), DestinationId::new(30)]);
    // every subset is sorted
    assert_eq!(nums(split.get(DestinationId::new(10)).unwrap()), vec![1, 4]);
    assert_eq!(nums(split.get(DestinationId::new(30)).unwrap()), vec![0, 2, 5]);
    assert!(split.get(DestinationId::new(20)).is_none());
}
