use indexmap::IndexSet;
use narwhal_subdag::certificate::Certificate;
use narwhal_subdag::certificate_set::CertificateSet;

fn ids(values: &[u64]) -> IndexSet<u64> {
    let mut set = IndexSet::new();
    for value in values {
        set.insert(*value);
    }
    set
}

#[test]
fn certificate_accessors_return_the_parts() {
    let certificate = Certificate::new(11, 4, ids(&[7, 8, 9]), -25);
    assert_eq!(certificate.id(), 11);
    assert_eq!(certificate.round(), 4);
    assert_eq!(certificate.median_timestamp(), -25);
    let previous: Vec<u64> = certificate.previous_ids().iter().copied().collect();
    assert_eq!(previous, vec![7, 8, 9]);
}

#[test]
fn certificate_equality_ignores_order_of_previous_ids() {
    let first = Certificate::new(1, 3, ids(&[5, 6, 7]), 100);
    let second = Certificate::new(1, 3, ids(&[7, 5, 6]), 100);
    assert!(first == second);
    assert!(second == first);
}

#[test]
fn certificate_equality_compares_every_part() {
    let base = Certificate::new(1, 3, ids(&[5, 6]), 100);
    assert!(base == Certificate::new(1, 3, ids(&[5, 6]), 100));
    assert!(base != Certificate::new(2, 3, ids(&[5, 6]), 100));
    assert!(base != Certificate::new(1, 4, ids(&[5, 6]), 100));
    assert!(base != Certificate::new(1, 3, ids(&[5, 6]), 101));
    assert!(base != Certificate::new(1, 3, ids(&[5]), 100));
    assert!(base != Certificate::new(1, 3, ids(&[5, 6, 7]), 100));
    assert!(base != Certificate::new(1, 3, ids(&[5, 8]), 100));
    assert!(base != Certificate::new(1, 3, ids(&[]), 100));
}

#[test]
fn certificate_clone_says_the_same() {
    let certificate = Certificate::new(42, 6, ids(&[3, 1, 2]), i64::MIN);
    let copy = certificate.clone();
    assert!(copy == certificate);
    assert_eq!(copy.id(), 42);
    assert_eq!(copy.round(), 6);
    assert_eq!(copy.median_timestamp(), i64::MIN);
    let previous: Vec<u64> = copy.previous_ids().iter().copied().collect();
    assert_eq!(previous, vec![3, 1, 2]);
}

#[test]
fn new_certificate_set_is_empty() {
    let set = CertificateSet::new();
    assert_eq!(set.len(), 0);
    assert!(set.is_empty());
    assert!(set.get_index(0).is_none());
    assert!(set.get(1).is_none());
}

#[test]
fn certificate_set_keeps_insertion_order() {
    let mut set = CertificateSet::new();
    assert!(set.insert(Certificate::new(30, 2, ids(&[]), 1)));
    assert!(set.insert(Certificate::new(10, 2, ids(&[]), 2)));
    assert!(set.insert(Certificate::new(20, 2, ids(&[]), 3)));
    assert_eq!(set.len(), 3);
    assert!(!set.is_empty());
    assert_eq!(set.get_index(0).map(|c| c.id()), Some(30));
    assert_eq!(set.get_index(1).map(|c| c.id()), Some(10));
    assert_eq!(set.get_index(2).map(|c| c.id()), Some(20));
    assert!(set.get_index(3).is_none());
}

#[test]
fn certificate_set_rejects_a_second_certificate_with_the_same_id() {
    let mut set = CertificateSet::new();
    assert!(set.insert(Certificate::new(5, 2, ids(&[]), 1)));
    assert!(!set.insert(Certificate::new(5, 2, ids(&[9]), 77)));
    assert_eq!(set.len(), 1);
    let kept = set.get(5).unwrap();
    assert_eq!(kept.median_timestamp(), 1);
    assert_eq!(kept.previous_ids().len(), 0);
}

#[test]
fn certificate_set_finds_by_id() {
    let mut set = CertificateSet::new();
    set.insert(Certificate::new(5, 2, ids(&[]), 50));
    set.insert(Certificate::new(6, 2, ids(&[]), 60));
    set.insert(Certificate::new(7, 2, ids(&[]), 70));
    assert_eq!(set.get(6).map(|c| c.median_timestamp()), Some(60));
    assert_eq!(set.get(7).map(|c| c.median_timestamp()), Some(70));
    assert_eq!(set.get(5).map(|c| c.median_timestamp()), Some(50));
    assert!(set.get(8).is_none());
}

#[test]
fn certificate_set_contains_compares_the_whole_certificate() {
    let mut set = CertificateSet::new();
    set.insert(Certificate::new(5, 2, ids(&[1, 2]), 50));
    assert!(set.contains(&Certificate::new(5, 2, ids(&[2, 1]), 50)));
    assert!(!set.contains(&Certificate::new(5, 2, ids(&[1, 2]), 51)));
    assert!(!set.contains(&Certificate::new(5, 3, ids(&[1, 2]), 50)));
    assert!(!set.contains(&Certificate::new(6, 2, ids(&[1, 2]), 50)));
}

#[test]
fn certificate_sets_are_the_same_in_any_order() {
    let mut first = CertificateSet::new();
    first.insert(Certificate::new(1, 2, ids(&[]), 10));
    first.insert(Certificate::new(2, 2, ids(&[]), 20));
    let mut second = CertificateSet::new();
    second.insert(Certificate::new(2, 2, ids(&[]), 20));
    second.insert(Certificate::new(1, 2, ids(&[]), 10));
    assert!(first == second);
    assert!(second == first);
}

#[test]
fn certificate_sets_differ_by_size_or_content() {
    let mut first = CertificateSet::new();
    first.insert(Certificate::new(1, 2, ids(&[]), 10));
    first.insert(Certificate::new(2, 2, ids(&[]), 20));
    let mut smaller = CertificateSet::new();
    smaller.insert(Certificate::new(1, 2, ids(&[]), 10));
    let mut other = CertificateSet::new();
    other.insert(Certificate::new(1, 2, ids(&[]), 10));
    other.insert(Certificate::new(2, 2, ids(&[]), 21));
    assert!(first != smaller);
    assert!(smaller != first);
    assert!(first != other);
    assert!(CertificateSet::new() == CertificateSet::new());
    assert!(CertificateSet::new() != smaller);
}
