use indexmap::IndexSet;
use narwhal_subdag::certificate::Certificate;
use narwhal_subdag::certificate_set::CertificateSet;
use narwhal_subdag::dfs::sanity_check_subdag_with_dfs;
use narwhal_subdag::subdag::{Subdag, SubdagError};
use std::collections::BTreeMap;

fn ids(values: &[u64]) -> IndexSet<u64> {
    let mut set = IndexSet::new();
    for value in values {
        set.insert(*value);
    }
    set
}

fn put(map: &mut BTreeMap<u64, CertificateSet>, key: u64, certificate: Certificate) {
    map.entry(key).or_insert_with(CertificateSet::new).insert(certificate);
}

fn certificate(id: u64, round: u64, previous: &[u64]) -> Certificate {
    Certificate::new(id, round, ids(previous), 1_000 + id as i64)
}

/// Two certificates in the first round, three in the second that name both,
/// and one leader in the third that names all three.
fn sample(starting_round: u64) -> BTreeMap<u64, CertificateSet> {
    let mut map = BTreeMap::new();
    put(&mut map, starting_round, certificate(21, starting_round, &[11, 12]));
    put(&mut map, starting_round, certificate(22, starting_round, &[11, 12]));
    for id in [31, 32, 33] {
        put(&mut map, starting_round + 1, certificate(id, starting_round + 1, &[21, 22]));
    }
    put(&mut map, starting_round + 2, certificate(41, starting_round + 2, &[31, 32, 33]));
    map
}

fn count(map: &BTreeMap<u64, CertificateSet>) -> usize {
    map.values().map(|level| level.len()).sum()
}

#[test]
fn sample_subdag_is_accepted() {
    let subdag = Subdag::from(sample(2)).unwrap();
    assert_eq!(subdag.anchor_round(), 4);
    assert_eq!(subdag.timestamp(), 1_041);
    assert_eq!(subdag.len(), 3);
    assert_eq!(count(&*subdag), 6);
    assert!(sanity_check_subdag_with_dfs(&*subdag));
}

#[test]
fn sample_subdags_at_many_rounds_are_accepted() {
    for starting_round in [2, 4, 100, 1 << 40, u64::MAX - 3] {
        let subdag = Subdag::from(sample(starting_round)).unwrap();
        assert_eq!(subdag.anchor_round(), starting_round + 2);
        assert_eq!(count(&*subdag), 6);
    }
}

#[test]
fn closure_of_a_subdag_is_itself() {
    let subdag = Subdag::from(sample(6)).unwrap();
    assert!(sanity_check_subdag_with_dfs(&*subdag));
    let levels = &*subdag;
    assert_eq!(levels.get(&6).map(|level| level.len()), Some(2));
    assert_eq!(levels.get(&7).map(|level| level.len()), Some(3));
    assert_eq!(levels.get(&8).map(|level| level.len()), Some(1));
}

#[test]
fn two_rounds_are_insufficient() {
    let mut map = BTreeMap::new();
    put(&mut map, 3, certificate(31, 3, &[]));
    put(&mut map, 4, certificate(41, 4, &[31]));
    assert_eq!(Subdag::from(map).err(), Some(SubdagError::InsufficientRounds));
}

#[test]
fn empty_and_single_round_mappings_are_insufficient() {
    assert_eq!(Subdag::from(BTreeMap::new()).err(), Some(SubdagError::InsufficientRounds));
    let mut map = BTreeMap::new();
    put(&mut map, 4, certificate(41, 4, &[]));
    assert_eq!(Subdag::from(map).err(), Some(SubdagError::InsufficientRounds));
}

#[test]
fn three_rounds_with_all_else_right_succeed() {
    let mut map = BTreeMap::new();
    put(&mut map, 2, certificate(21, 2, &[]));
    put(&mut map, 3, certificate(31, 3, &[21]));
    put(&mut map, 4, certificate(41, 4, &[31]));
    assert!(Subdag::from(map).is_ok());
}

#[test]
fn odd_leader_round_is_rejected() {
    assert_eq!(Subdag::from(sample(3)).err(), Some(SubdagError::OddLeaderRound));
    assert_eq!(Subdag::from(sample(1)).err(), Some(SubdagError::OddLeaderRound));
}

#[test]
fn odd_leader_round_is_rejected_before_other_faults() {
    let mut map = sample(3);
    put(&mut map, 5, certificate(52, 5, &[31]));
    put(&mut map, 9, certificate(91, 9, &[]));
    assert_eq!(Subdag::from(map).err(), Some(SubdagError::OddLeaderRound));
}

#[test]
fn two_leaders_are_rejected() {
    let mut map = sample(2);
    put(&mut map, 4, certificate(42, 4, &[31, 32, 33]));
    assert_eq!(Subdag::from(map).err(), Some(SubdagError::MultipleLeaders));
}

#[test]
fn no_leader_is_rejected() {
    let mut map = sample(2);
    map.insert(4, CertificateSet::new());
    assert_eq!(Subdag::from(map).err(), Some(SubdagError::MultipleLeaders));
}

#[test]
fn gap_in_rounds_is_rejected() {
    let mut map = BTreeMap::new();
    put(&mut map, 2, certificate(21, 2, &[]));
    put(&mut map, 3, certificate(31, 3, &[21]));
    put(&mut map, 5, certificate(51, 5, &[31]));
    assert_eq!(Subdag::from(map).err(), Some(SubdagError::OddLeaderRound));
    let mut map = BTreeMap::new();
    put(&mut map, 2, certificate(21, 2, &[]));
    put(&mut map, 3, certificate(31, 3, &[21]));
    put(&mut map, 6, certificate(61, 6, &[31]));
    assert_eq!(Subdag::from(map).err(), Some(SubdagError::NonSequentialRounds));
}

#[test]
fn rounds_two_three_five_are_not_sequential() {
    let mut map = BTreeMap::new();
    put(&mut map, 2, certificate(21, 2, &[]));
    put(&mut map, 3, certificate(31, 3, &[21]));
    put(&mut map, 5, certificate(51, 5, &[31]));
    assert!(!narwhal_subdag::rounds::is_sequential(&map));
}

#[test]
fn extra_unreferenced_certificate_is_rejected() {
    let mut map = sample(2);
    put(&mut map, 3, certificate(34, 3, &[21, 22]));
    assert!(!sanity_check_subdag_with_dfs(&map));
    assert_eq!(Subdag::from(map).err(), Some(SubdagError::CausalClosureMismatch));
}

#[test]
fn extra_unreferenced_certificate_in_first_round_is_rejected() {
    let mut map = sample(2);
    put(&mut map, 2, certificate(23, 2, &[]));
    assert_eq!(Subdag::from(map).err(), Some(SubdagError::CausalClosureMismatch));
}

#[test]
fn removing_a_required_certificate_is_rejected() {
    // Certificate 21 is named by certificate 31 alone; without 31 no chain reaches 21.
    let mut map = BTreeMap::new();
    put(&mut map, 2, certificate(21, 2, &[]));
    put(&mut map, 2, certificate(22, 2, &[]));
    put(&mut map, 3, certificate(31, 3, &[21]));
    put(&mut map, 3, certificate(32, 3, &[22]));
    put(&mut map, 4, certificate(41, 4, &[31, 32]));
    assert!(Subdag::from(map).is_ok());
    let mut map = BTreeMap::new();
    put(&mut map, 2, certificate(21, 2, &[]));
    put(&mut map, 2, certificate(22, 2, &[]));
    put(&mut map, 3, certificate(32, 3, &[22]));
    put(&mut map, 4, certificate(41, 4, &[31, 32]));
    assert_eq!(Subdag::from(map).err(), Some(SubdagError::CausalClosureMismatch));
}

#[test]
fn removing_a_whole_middle_round_content_is_rejected() {
    let mut map = sample(2);
    map.insert(3, CertificateSet::new());
    assert_eq!(Subdag::from(map).err(), Some(SubdagError::CausalClosureMismatch));
}

#[test]
fn orphan_in_middle_round_is_rejected() {
    // The leader names two of the three certificates of the round below.
    let mut map = BTreeMap::new();
    put(&mut map, 2, certificate(21, 2, &[]));
    put(&mut map, 2, certificate(22, 2, &[]));
    for id in [31, 32, 33] {
        put(&mut map, 3, certificate(id, 3, &[21, 22]));
    }
    put(&mut map, 4, certificate(41, 4, &[31, 32]));
    assert!(!sanity_check_subdag_with_dfs(&map));
    assert_eq!(Subdag::from(map).err(), Some(SubdagError::CausalClosureMismatch));
}

#[test]
fn missing_predecessors_below_the_first_round_are_tolerated() {
    let mut map = BTreeMap::new();
    put(&mut map, 2, certificate(21, 2, &[11, 12, 13]));
    put(&mut map, 3, certificate(31, 3, &[21, 99]));
    put(&mut map, 4, certificate(41, 4, &[31, 98]));
    let subdag = Subdag::from(map).unwrap();
    assert_eq!(subdag.anchor_round(), 4);
    assert_eq!(count(&*subdag), 3);
}

#[test]
fn diamond_is_visited_once() {
    let mut map = BTreeMap::new();
    put(&mut map, 1, certificate(11, 1, &[]));
    put(&mut map, 2, certificate(21, 2, &[11]));
    put(&mut map, 2, certificate(22, 2, &[11]));
    put(&mut map, 3, certificate(31, 3, &[21, 22]));
    put(&mut map, 3, certificate(32, 3, &[21, 22]));
    put(&mut map, 4, certificate(41, 4, &[31, 32]));
    let subdag = Subdag::from(map).unwrap();
    assert_eq!(count(&*subdag), 6);
}

#[test]
fn accessors_of_a_subdag_with_rounds_two_to_four() {
    let mut map = BTreeMap::new();
    put(&mut map, 2, Certificate::new(21, 2, ids(&[]), 5));
    put(&mut map, 3, Certificate::new(31, 3, ids(&[21]), 6));
    put(&mut map, 4, Certificate::new(41, 4, ids(&[31]), -123_456_789));
    let subdag = Subdag::from(map).unwrap();
    assert_eq!(subdag.anchor_round(), 4);
    assert_eq!(subdag.timestamp(), -123_456_789);
}

#[test]
fn empty_mapping_matches_its_empty_commit() {
    assert!(sanity_check_subdag_with_dfs(&BTreeMap::new()));
}

#[test]
fn mapping_with_an_empty_round_does_not_match() {
    let mut map = BTreeMap::new();
    map.insert(4, CertificateSet::new());
    assert!(!sanity_check_subdag_with_dfs(&map));
}

#[test]
fn several_certificates_in_the_greatest_round_all_start_the_traversal() {
    let mut map = BTreeMap::new();
    put(&mut map, 3, certificate(31, 3, &[]));
    put(&mut map, 3, certificate(32, 3, &[]));
    put(&mut map, 4, certificate(41, 4, &[31]));
    put(&mut map, 4, certificate(42, 4, &[32]));
    assert!(sanity_check_subdag_with_dfs(&map));
}

#[test]
fn certificate_under_a_round_that_is_not_its_own_does_not_match() {
    let mut map = BTreeMap::new();
    put(&mut map, 2, certificate(21, 2, &[]));
    put(&mut map, 3, certificate(31, 7, &[21]));
    put(&mut map, 4, certificate(41, 4, &[31]));
    assert!(!sanity_check_subdag_with_dfs(&map));
    assert_eq!(Subdag::from(map).err(), Some(SubdagError::CausalClosureMismatch));
}

#[test]
fn leader_under_a_round_that_is_not_its_own_does_not_match() {
    let mut map = BTreeMap::new();
    put(&mut map, 2, certificate(21, 2, &[]));
    put(&mut map, 3, certificate(31, 3, &[21]));
    put(&mut map, 4, certificate(41, 5, &[31]));
    assert_eq!(Subdag::from(map).err(), Some(SubdagError::CausalClosureMismatch));
}

#[test]
fn certificate_of_round_zero_has_no_round_below() {
    let mut map = BTreeMap::new();
    put(&mut map, 0, certificate(1, 0, &[7, 8]));
    put(&mut map, 1, certificate(2, 1, &[1]));
    put(&mut map, 2, certificate(3, 2, &[2]));
    let subdag = Subdag::from(map).unwrap();
    assert_eq!(subdag.anchor_round(), 2);
    let mut map = BTreeMap::new();
    put(&mut map, 0, certificate(1, 0, &[1]));
    assert!(sanity_check_subdag_with_dfs(&map));
}

#[test]
fn identifier_shared_below_the_greatest_round_does_not_match() {
    // Certificates 50 of rounds 2 and 3 share an identifier: the second is never scheduled.
    let mut map = BTreeMap::new();
    put(&mut map, 2, certificate(50, 2, &[]));
    put(&mut map, 3, certificate(50, 3, &[50]));
    put(&mut map, 4, certificate(41, 4, &[50]));
    assert!(!sanity_check_subdag_with_dfs(&map));
    assert_eq!(Subdag::from(map).err(), Some(SubdagError::CausalClosureMismatch));
}

#[test]
fn identifier_shared_with_the_leader_matches() {
    // The leader is never marked, so a certificate below may carry its identifier.
    let mut map = BTreeMap::new();
    put(&mut map, 2, certificate(41, 2, &[]));
    put(&mut map, 3, certificate(31, 3, &[41]));
    put(&mut map, 4, certificate(41, 4, &[31]));
    assert!(sanity_check_subdag_with_dfs(&map));
    assert!(Subdag::from(map).is_ok());
}

#[test]
fn predecessor_is_looked_up_one_round_below_only() {
    // Certificate 21 stands two rounds below the leader that names it.
    let mut map = BTreeMap::new();
    put(&mut map, 2, certificate(21, 2, &[]));
    put(&mut map, 3, certificate(31, 3, &[]));
    put(&mut map, 4, certificate(41, 4, &[31, 21]));
    assert_eq!(Subdag::from(map).err(), Some(SubdagError::CausalClosureMismatch));
}

#[test]
fn longer_subdag_is_accepted() {
    let mut map = BTreeMap::new();
    put(&mut map, 1, certificate(11, 1, &[]));
    put(&mut map, 1, certificate(12, 1, &[]));
    put(&mut map, 2, certificate(21, 2, &[11]));
    put(&mut map, 2, certificate(22, 2, &[12, 11]));
    put(&mut map, 3, certificate(31, 3, &[21]));
    put(&mut map, 3, certificate(32, 3, &[22]));
    put(&mut map, 4, certificate(41, 4, &[31, 32]));
    put(&mut map, 5, certificate(51, 5, &[41]));
    put(&mut map, 6, certificate(61, 6, &[51]));
    let subdag = Subdag::from(map).unwrap();
    assert_eq!(subdag.anchor_round(), 6);
    assert_eq!(subdag.timestamp(), 1_061);
    assert_eq!(count(&*subdag), 9);
}

#[test]
fn each_error_says_which_check_failed() {
    assert_eq!(
        SubdagError::InsufficientRounds.message(),
        "There must be more than 2 rounds of certificates in the subdag"
    );
    assert_eq!(SubdagError::OddLeaderRound.message(), "Leader round must be even");
    assert_eq!(SubdagError::MultipleLeaders.message(), "Subdag cannot have multiple leaders");
    assert_eq!(SubdagError::NonSequentialRounds.message(), "Subdag rounds must be sequential");
    assert_eq!(
        SubdagError::CausalClosureMismatch.message(),
        "Subdag structure does not match commit"
    );
}

#[test]
fn rejected_mapping_reports_the_message_of_its_first_fault() {
    let mut map = sample(2);
    put(&mut map, 4, certificate(42, 4, &[31]));
    put(&mut map, 9, certificate(91, 8, &[]));
    let error = Subdag::from(map).err().unwrap();
    assert_eq!(error, SubdagError::OddLeaderRound);
    assert_eq!(error.message(), "Leader round must be even");
}
