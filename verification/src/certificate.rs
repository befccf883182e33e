use crate::index_set::{
    index_set_clone, index_set_get_index, index_set_get_index_of, index_set_items, index_set_len,
};
use indexmap::IndexSet;
use vstd::prelude::*;
use vstd::std_specs::cmp::PartialEqSpecImpl;

verus! {

/// What a certificate says, as plain values.
pub ghost struct CertificateView {
    /// The identifier of the certificate.
    pub id: u64,
    /// The round in which the certificate was issued.
    pub round: u64,
    /// The identifiers of the certificates that its author acknowledged.
    pub previous_ids: Set<u64>,
    /// The median of the timestamps of its signers.
    pub median_timestamp: i64,
}

/// A certificate of one round: its identifier, its round, the identifiers of
/// the certificates of the round before that it acknowledges, and its median
/// timestamp.
#[derive(Debug)]
pub struct Certificate {
    id: u64,
    round: u64,
    previous_ids: IndexSet<u64>,
    median_timestamp: i64,
}

impl View for Certificate {
    type V = CertificateView;

    closed spec fn view(&self) -> CertificateView {
        CertificateView {
            id: self.id,
            round: self.round,
            previous_ids: index_set_items(self.previous_ids).to_set(),
            median_timestamp: self.median_timestamp,
        }
    }
}

impl Certificate {
    /// The identifiers of the acknowledged certificates, in the order in
    /// which the certificate lists them.
    pub closed spec fn listed_ids(&self) -> Seq<u64> {
        index_set_items(self.previous_ids)
    }

    /// The acknowledged identifiers are those that the certificate lists.
    pub proof fn lemma_listed_ids(&self)
        ensures
            self@.previous_ids == self.listed_ids().to_set(),
    {
    }

    /// Initializes a certificate from its parts.
    pub fn new(id: u64, round: u64, previous_ids: IndexSet<u64>, median_timestamp: i64) -> (certificate:
        Self)
        ensures
            certificate@ == (CertificateView {
                id,
                round,
                previous_ids: index_set_items(previous_ids).to_set(),
                median_timestamp,
            }),
            certificate.listed_ids() == index_set_items(previous_ids),
    {
        Certificate { id, round, previous_ids, median_timestamp }
    }

    /// Returns the identifier of the certificate.
    pub fn id(&self) -> (id: u64)
        ensures
            id == self@.id,
    {
        self.id
    }

    /// Returns the round of the certificate.
    pub fn round(&self) -> (round: u64)
        ensures
            round == self@.round,
    {
        self.round
    }

    /// Returns the identifiers of the acknowledged certificates, in the order
    /// in which they were given.
    pub fn previous_ids(&self) -> (previous_ids: &IndexSet<u64>)
        ensures
            index_set_items(*previous_ids) == self.listed_ids(),
            index_set_items(*previous_ids).to_set() == self@.previous_ids,
    {
        &self.previous_ids
    }

    /// Returns the median timestamp of the certificate.
    pub fn median_timestamp(&self) -> (median_timestamp: i64)
        ensures
            median_timestamp == self@.median_timestamp,
    {
        self.median_timestamp
    }
}

impl PartialEq for Certificate {
    /// Two certificates are equal where they say the same: the same
    /// identifier, round and timestamp, and the same acknowledged
    /// identifiers in whatever order.
    fn eq(&self, other: &Certificate) -> (same: bool) {
        if self.id != other.id || self.round != other.round || self.median_timestamp
            != other.median_timestamp {
            return false;
        }
        let same = holds_all(&self.previous_ids, &other.previous_ids) && holds_all(
            &other.previous_ids,
            &self.previous_ids,
        );
        assert(same == (self@.previous_ids =~= other@.previous_ids));
        same
    }
}

impl PartialEqSpecImpl for Certificate {
    open spec fn obeys_eq_spec() -> bool {
        true
    }

    open spec fn eq_spec(&self, other: &Certificate) -> bool {
        self@ == other@
    }
}

impl Eq for Certificate {

}

impl Clone for Certificate {
    fn clone(&self) -> (copy: Self)
        ensures
            copy@ == self@,
            copy.listed_ids() == self.listed_ids(),
    {
        Certificate {
            id: self.id,
            round: self.round,
            previous_ids: index_set_clone(&self.previous_ids),
            median_timestamp: self.median_timestamp,
        }
    }
}

/// Returns `true` if `outer` holds every identifier of `inner`.
fn holds_all(outer: &IndexSet<u64>, inner: &IndexSet<u64>) -> (all: bool)
    ensures
        all == index_set_items(*inner).to_set().subset_of(index_set_items(*outer).to_set()),
{
    let count = index_set_len(inner);
    let mut index: usize = 0;
    while index < count
        invariant
            count == index_set_items(*inner).len(),
            index <= count,
            forall|i: int|
                0 <= i < index ==> index_set_items(*outer).contains(
                    #[trigger] index_set_items(*inner)[i],
                ),
        decreases count - index,
    {
        match index_set_get_index(inner, index) {
            Some(id) => {
                if index_set_get_index_of(outer, id).is_none() {
                    assert(index_set_items(*inner).to_set().contains(id));
                    return false;
                }
            },
            None => {},
        }
        index += 1;
    }
    true
}

} // verus!
