use ppcalc_metric::containers::MessageSet;
use ppcalc_metric::ids::MessageId;

fn set_of(ids: &[u64]) -> MessageSet {
    let mut set = MessageSet::new();
    for msg in ids {
        set.insert(MessageId::new(*msg));
    }
    set
}

fn test_case(set_1: &[u64], set_2: &[u64], result: (usize, usize)) {
    let set_1 = set_of(set_1);
    let set_2 = set_of(set_2);
    assert_eq!(set_1.distance(&set_2), result);
}

#[test]
fn messageset_distance_1() {
    test_case(&[1, 2, 3, 4, 5], &[2, 5, 6], (1, 2));
}

#[test]
fn messageset_distance_2() {
    test_case(&[1, 2, 3, 4, 5], &[6, 7], (2, 0));
}

#[test]
fn messageset_distance_3() {
    test_case(&[1, 2, 3, 4, 5], &[1, 2, 3, 4, 5], (0, 5));
}

#[test]
fn messageset_distance_4() {
    test_case(&[], &[2, 5, 6], (3, 0));
}

#[test]
fn messageset_distance_5() {
    test_case(&[], &[], (0, 0));
}

#[test]
fn messageset_distance_6() {
    test_case(&[2, 4, 5], &[], (0, 0));
}

#[test]
fn distance_finds_a_message_behind_a_new_one() {
    // 2 is new, 3 is shared although 3 comes behind the new message
    test_case(&[1, 3], &[2, 3], (1, 1));
    test_case(&[5, 6, 9], &[1, 5, 7, 9, 10], (3, 2));
}

#[test]
fn distance_counts_every_message_of_the_other_set() {
    // a message that stands twice in the other set is counted twice
    test_case(&[1], &[1, 1], (0, 2));
    test_case(&[1, 1], &[1], (0, 1));
    test_case(&[], &[4, 4], (2, 0));
}

#[test]
fn distance_adds_up_to_the_size_of_the_other_set() {
    let cases: [(&[u64], &[u64]); 4] =
        [(&[1, 2, 3], &[2, 3, 4, 5]), (&[], &[1]), (&[7], &[]), (&[1, 4, 9], &[0, 4, 8, 9, 12])];
    for (a, b) in cases {
        let (added, overlap) = set_of(a).distance(&set_of(b));
        assert_eq!(added + overlap, b.len());
        let shared = b.iter().filter(|x| a.contains(x)).count();
        assert_eq!(overlap, shared);
        assert_eq!(added, b.len() - shared);
    }
}

#[test]
fn insert_keeps_the_order_of_insertion() {
    let set = set_of(&[3, 1, 2]);
    assert_eq!(set.len(), 3);
    assert_eq!(set.iter(), &vec![MessageId::new(3), MessageId::new(1), MessageId::new(2)]);
    assert_eq!(set.into_vec(), vec![MessageId::new(3), MessageId::new(1), MessageId::new(2)]);
}

#[test]
fn sort_brings_the_messages_in_ascending_order() {
    let mut set = set_of(&[5, 3, 9, 3, 0, 7]);
    set.sort();
    let sorted: Vec<u64> = set.iter().iter().map(|m| m.to_num()).collect();
    assert_eq!(sorted, vec![0, 3, 3, 5, 7, 9]);
    // sorting again changes nothing
    set.sort();
    let again: Vec<u64> = set.into_vec().iter().map(|m| m.to_num()).collect();
    assert_eq!(again, vec![0, 3, 3, 5, 7, 9]);
}

#[test]
fn sorted_sets_can_be_compared_after_unordered_insertion() {
    let mut a = set_of(&[5, 1, 3]);
    let mut b = set_of(&[6, 5, 2]);
    a.sort();
    b.sort();
    assert_eq!(a.distance(&b), (2, 1));
}

#[test]
fn default_set_is_empty() {
    let set = MessageSet::default();
    assert_eq!(set.len(), 0);
    assert_eq!(set.distance(&MessageSet::new()), (0, 0));
}
