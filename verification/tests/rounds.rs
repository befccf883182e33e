use narwhal_subdag::levels::last_round;
use narwhal_subdag::rounds::is_sequential;
use std::collections::BTreeMap;

fn rounds(keys: &[u64]) -> BTreeMap<u64, ()> {
    let mut map = BTreeMap::new();
    for key in keys {
        map.insert(*key, ());
    }
    map
}

#[test]
fn empty_mapping_is_sequential() {
    assert!(is_sequential(&rounds(&[])));
}

#[test]
fn single_round_is_sequential() {
    assert!(is_sequential(&rounds(&[7])));
}

#[test]
fn consecutive_rounds_are_sequential() {
    assert!(is_sequential(&rounds(&[2, 3, 4])));
    assert!(is_sequential(&rounds(&[0, 1])));
    assert!(is_sequential(&rounds(&[10, 11, 12, 13, 14])));
}

#[test]
fn gap_is_not_sequential() {
    assert!(!is_sequential(&rounds(&[2, 3, 5])));
    assert!(!is_sequential(&rounds(&[2, 4])));
    assert!(!is_sequential(&rounds(&[0, 1, 2, 3, 9])));
}

#[test]
fn insertion_order_does_not_matter_for_sequentiality() {
    assert!(is_sequential(&rounds(&[4, 2, 3])));
    assert!(!is_sequential(&rounds(&[5, 2, 3])));
}

#[test]
fn rounds_up_to_the_maximum_are_sequential() {
    assert!(is_sequential(&rounds(&[u64::MAX - 2, u64::MAX - 1, u64::MAX])));
    assert!(!is_sequential(&rounds(&[0, u64::MAX])));
}

#[test]
fn last_round_of_empty_mapping_is_none() {
    assert_eq!(last_round(&rounds(&[])), None);
}

#[test]
fn last_round_is_the_greatest_key() {
    assert_eq!(last_round(&rounds(&[2, 3, 4])), Some(4));
    assert_eq!(last_round(&rounds(&[9, 1, 5])), Some(9));
    assert_eq!(last_round(&rounds(&[0])), Some(0));
    assert_eq!(last_round(&rounds(&[u64::MAX, 3])), Some(u64::MAX));
}
