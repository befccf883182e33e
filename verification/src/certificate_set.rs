use crate::certificate::{Certificate, CertificateView};
use crate::index_set::{
    index_set_clone, index_set_get_index_of, index_set_insert, index_set_items, index_set_new,
};
use indexmap::IndexSet;
use vstd::prelude::*;
use vstd::std_specs::cmp::PartialEqSpecImpl;

verus! {

/// One of the certificates has the identifier `id`.
pub open spec fn holds_id(certificates: Seq<CertificateView>, id: u64) -> bool {
    exists|i: int| 0 <= i < certificates.len() && #[trigger] certificates[i].id == id
}

/// No two of the certificates have the same identifier.
pub open spec fn distinct_ids(certificates: Seq<CertificateView>) -> bool {
    forall|i: int, j: int|
        0 <= i < j < certificates.len() ==> #[trigger] certificates[i].id
            != #[trigger] certificates[j].id
}

/// The certificates after one more is inserted: it goes to the end, unless
/// one of them has its identifier already.
pub open spec fn inserted(
    certificates: Seq<CertificateView>,
    certificate: CertificateView,
) -> Seq<CertificateView> {
    if holds_id(certificates, certificate.id) {
        certificates
    } else {
        certificates.push(certificate)
    }
}

/// What a list of certificates says, in order.
spec fn views(certificates: Seq<Certificate>) -> Seq<CertificateView> {
    certificates.map_values(|certificate: Certificate| certificate@)
}

/// The index lists the identifiers of the certificates, in order, and none
/// occurs twice.
spec fn listed(ids: IndexSet<u64>, certificates: Seq<Certificate>) -> bool {
    &&& index_set_items(ids) == views(certificates).map_values(
        |certificate: CertificateView| certificate.id,
    )
    &&& distinct_ids(views(certificates))
}

/// The certificates of one round: no identifier occurs twice, and they are
/// kept in the order in which they were inserted.
#[derive(Debug)]
pub struct CertificateSet {
    ids: IndexSet<u64>,
    certificates: Vec<Certificate>,
}

impl View for CertificateSet {
    type V = Seq<CertificateView>;

    closed spec fn view(&self) -> Seq<CertificateView> {
        views(self.certificates@)
    }
}

/// Appends the certificate and lists its identifier, unless the identifier
/// is listed already.
fn insert_listed(
    ids: &mut IndexSet<u64>,
    certificates: &mut Vec<Certificate>,
    certificate: Certificate,
) -> (fresh: bool)
    requires
        listed(*old(ids), old(certificates)@),
    ensures
        listed(*final(ids), final(certificates)@),
        fresh == !holds_id(views(old(certificates)@), certificate@.id),
        views(final(certificates)@) == inserted(views(old(certificates)@), certificate@),
{
    let ghost before = views(certificates@);
    let ghost ids_before = index_set_items(*ids);
    let id = certificate.id();
    let fresh = index_set_insert(ids, id);
    proof {
        if ids_before.contains(id) {
            let i = choose|i: int| 0 <= i < ids_before.len() && ids_before[i] == id;
            assert(before[i].id == id);
        }
        if holds_id(before, id) {
            let i = choose|i: int| 0 <= i < before.len() && #[trigger] before[i].id == id;
            assert(ids_before[i] == id);
        }
    }
    if fresh {
        certificates.push(certificate);
        proof {
            assert(views(certificates@) =~= before.push(certificate@));
            assert(index_set_items(*ids) =~= views(certificates@).map_values(
                |certificate: CertificateView| certificate.id,
            ));
        }
    }
    fresh
}

impl CertificateSet {
    /// The set is well formed: its index of identifiers lists the
    /// identifiers of its certificates, in order, and none occurs twice.
    /// This holds of every set at all times.
    #[verifier::type_invariant]
    pub closed spec fn wf(&self) -> bool {
        listed(self.ids, self.certificates@)
    }

    /// A well-formed set holds no identifier twice.
    pub proof fn lemma_distinct_ids(&self)
        requires
            self.wf(),
        ensures
            distinct_ids(self@),
            self@.no_duplicates(),
    {
        let certificates = self@;
        assert forall|i: int, j: int|
            0 <= i < certificates.len() && 0 <= j < certificates.len() && i != j implies certificates[i]
            != certificates[j] by {
            if i < j {
                assert(certificates[i].id != certificates[j].id);
            } else {
                assert(certificates[j].id != certificates[i].id);
            }
        }
    }

    /// Initializes an empty set.
    pub fn new() -> (set: Self)
        ensures
            set@ == Seq::<CertificateView>::empty(),
    {
        let ids = index_set_new();
        let certificates: Vec<Certificate> = Vec::new();
        assert(views(certificates@) =~= Seq::<CertificateView>::empty());
        assert(index_set_items(ids) =~= views(certificates@).map_values(
            |certificate: CertificateView| certificate.id,
        ));
        CertificateSet { ids, certificates }
    }

    /// Returns the number of certificates in the set.
    pub fn len(&self) -> (len: usize)
        ensures
            len == self@.len(),
    {
        self.certificates.len()
    }

    /// Returns `true` if the set holds no certificate.
    pub fn is_empty(&self) -> (empty: bool)
        ensures
            empty == (self@.len() == 0),
    {
        self.certificates.len() == 0
    }

    /// Inserts the certificate at the end, unless the set already holds one
    /// with its identifier: then the set stays as it was. Returns `true` if
    /// the certificate was inserted.
    pub fn insert(&mut self, certificate: Certificate) -> (fresh: bool)
        ensures
            fresh == !holds_id(old(self)@, certificate@.id),
            final(self)@ == inserted(old(self)@, certificate@),
    {
        // Both parts change before the set is whole again: take it apart, and put it together
        // once the certificate is in.
        let mut taken = CertificateSet::new();
        std::mem::swap(self, &mut taken);
        proof {
            use_type_invariant(&taken);
        }
        let CertificateSet { mut ids, mut certificates } = taken;
        let fresh = insert_listed(&mut ids, &mut certificates, certificate);
        *self = CertificateSet { ids, certificates };
        fresh
    }

    /// Returns the certificate at a position, and nothing for a position at
    /// or past the length.
    pub fn get_index(&self, index: usize) -> (found: Option<&Certificate>)
        ensures
            match found {
                Some(certificate) => index < self@.len() && certificate@ == self@[index as int],
                None => index >= self@.len(),
            },
    {
        if index < self.certificates.len() {
            Some(&self.certificates[index])
        } else {
            None
        }
    }

    /// Returns the certificate with the given identifier, and nothing where
    /// the set holds none.
    pub fn get(&self, id: u64) -> (found: Option<&Certificate>)
        ensures
            match found {
                Some(certificate) => self@.contains(certificate@) && certificate@.id == id,
                None => !holds_id(self@, id),
            },
    {
        proof {
            use_type_invariant(self);
        }
        match index_set_get_index_of(&self.ids, id) {
            Some(index) => {
                assert(self@[index as int].id == id);
                Some(&self.certificates[index])
            },
            None => {
                proof {
                    if holds_id(self@, id) {
                        let i = choose|i: int| 0 <= i < self@.len() && #[trigger] self@[i].id == id;
                        assert(index_set_items(self.ids)[i] == id);
                    }
                }
                None
            },
        }
    }

    /// Returns `true` if the set holds this certificate: one with its
    /// identifier that says the same.
    pub fn contains(&self, certificate: &Certificate) -> (held: bool)
        ensures
            held == self@.contains(certificate@),
    {
        proof {
            use_type_invariant(self);
        }
        match self.get(certificate.id()) {
            Some(own) => {
                let held = *own == *certificate;
                proof {
                    if self@.contains(certificate@) && !held {
                        let i = choose|i: int| 0 <= i < self@.len() && self@[i] == certificate@;
                        let j = choose|j: int| 0 <= j < self@.len() && self@[j] == own@;
                        assert(self@[i].id == self@[j].id);
                    }
                }
                held
            },
            None => {
                proof {
                    if self@.contains(certificate@) {
                        let i = choose|i: int| 0 <= i < self@.len() && self@[i] == certificate@;
                        assert(self@[i].id == certificate@.id);
                    }
                }
                false
            },
        }
    }
}

impl PartialEq for CertificateSet {
    /// Two sets are equal where they hold the same certificates, in
    /// whatever order.
    fn eq(&self, other: &CertificateSet) -> (same: bool) {
        proof {
            use_type_invariant(self);
            use_type_invariant(other);
            self.lemma_distinct_ids();
            other.lemma_distinct_ids();
            self@.unique_seq_to_set();
            other@.unique_seq_to_set();
        }
        if self.len() != other.len() {
            return false;
        }
        let mut index: usize = 0;
        while index < self.certificates.len()
            invariant
                index <= self@.len(),
                self@.len() == self.certificates.len(),
                forall|i: int| 0 <= i < index ==> other@.contains(#[trigger] self@[i]),
            decreases self@.len() - index,
        {
            if !other.contains(&self.certificates[index]) {
                assert(self@.to_set().contains(self@[index as int]));
                return false;
            }
            index += 1;
        }
        proof {
            assert(self@.to_set().subset_of(other@.to_set()));
            vstd::set_lib::lemma_subset_equality(self@.to_set(), other@.to_set());
        }
        true
    }
}

impl PartialEqSpecImpl for CertificateSet {
    open spec fn obeys_eq_spec() -> bool {
        true
    }

    open spec fn eq_spec(&self, other: &CertificateSet) -> bool {
        self@.to_set() == other@.to_set()
    }
}

impl Eq for CertificateSet {

}

impl Clone for CertificateSet {
    fn clone(&self) -> (copy: Self)
        ensures
            copy@ == self@,
    {
        proof {
            use_type_invariant(self);
        }
        let mut certificates: Vec<Certificate> = Vec::new();
        let mut index: usize = 0;
        while index < self.certificates.len()
            invariant
                index <= self.certificates.len(),
                certificates@.len() == index,
                forall|i: int| 0 <= i < index ==> (#[trigger] certificates@[i])@ == self.certificates@[i]@,
            decreases self.certificates.len() - index,
        {
            certificates.push(self.certificates[index].clone());
            index += 1;
        }
        let ids = index_set_clone(&self.ids);
        assert(views(certificates@) =~= self@);
        CertificateSet { ids, certificates }
    }
}

} // verus!
