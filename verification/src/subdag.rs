use crate::certificate::CertificateView;
use crate::certificate_set::CertificateSet;
use crate::closure::{
    causal_closure, causally_closed, lemma_unreached_certificate_breaks_closure, reachable,
};
use crate::dfs::sanity_check_subdag_with_dfs;
use crate::levels::{
    as_sets, last_round, lemma_top_round_is_unique, level_at, levels_view, present, same_levels,
};
use crate::rounds::{is_sequential, sequential, top_round};
use std::collections::BTreeMap;
use vstd::prelude::*;
use vstd::std_specs::btree::axiom_spec_keys_iter;
use vstd::std_specs::cmp::PartialEqSpecImpl;
use vstd::std_specs::iter::IteratorSpec;

verus! {

/// Why a mapping is not a subdag.
#[derive(Clone, Copy, Debug, PartialEq, Eq, Structural)]
pub enum SubdagError {
    /// The mapping has fewer than three rounds.
    InsufficientRounds,
    /// The greatest round of the mapping is odd.
    OddLeaderRound,
    /// The greatest round does not hold exactly one certificate.
    MultipleLeaders,
    /// The rounds are not consecutive.
    NonSequentialRounds,
    /// The mapping is not the causal closure of its leader certificate.
    CausalClosureMismatch,
}

/// What an error says in words.
pub open spec fn message_of(error: SubdagError) -> Seq<char> {
    match error {
        SubdagError::InsufficientRounds => "There must be more than 2 rounds of certificates in the subdag"@,
        SubdagError::OddLeaderRound => "Leader round must be even"@,
        SubdagError::MultipleLeaders => "Subdag cannot have multiple leaders"@,
        SubdagError::NonSequentialRounds => "Subdag rounds must be sequential"@,
        SubdagError::CausalClosureMismatch => "Subdag structure does not match commit"@,
    }
}

impl SubdagError {
    /// Returns what the error says in words.
    pub fn message(&self) -> (message: &'static str)
        ensures
            message@ == message_of(*self),
    {
        match self {
            SubdagError::InsufficientRounds => "There must be more than 2 rounds of certificates in the subdag",
            SubdagError::OddLeaderRound => "Leader round must be even",
            SubdagError::MultipleLeaders => "Subdag cannot have multiple leaders",
            SubdagError::NonSequentialRounds => "Subdag rounds must be sequential",
            SubdagError::CausalClosureMismatch => "Subdag structure does not match commit",
        }
    }
}

/// The first of the five checks that the mapping fails, and nothing where
/// it passes them all: more than two rounds, an even greatest round, one
/// certificate in it, consecutive rounds, causal closure.
pub open spec fn verdict(levels: Map<u64, Seq<CertificateView>>) -> Option<SubdagError> {
    let leader_round = top_round(levels.dom());
    if levels.dom().len() <= 2 {
        Some(SubdagError::InsufficientRounds)
    } else if leader_round % 2 != 0 {
        Some(SubdagError::OddLeaderRound)
    } else if level_at(levels, leader_round).len() != 1 {
        Some(SubdagError::MultipleLeaders)
    } else if !sequential(levels.dom()) {
        Some(SubdagError::NonSequentialRounds)
    } else if !causally_closed(levels) {
        Some(SubdagError::CausalClosureMismatch)
    } else {
        None
    }
}

/// The mapping is a subdag: it passes the five checks.
pub open spec fn valid(levels: Map<u64, Seq<CertificateView>>) -> bool {
    &&& levels.dom().len() > 2
    &&& top_round(levels.dom()) % 2 == 0
    &&& level_at(levels, top_round(levels.dom())).len() == 1
    &&& sequential(levels.dom())
    &&& causally_closed(levels)
}

/// The leader certificate of a subdag: the one of its greatest round.
pub open spec fn leader(levels: Map<u64, Seq<CertificateView>>) -> CertificateView {
    levels[top_round(levels.dom())][0]
}

/// A commit of the DAG: the certificates of consecutive rounds that the
/// leader certificate of the last round causally reaches, and no others.
#[derive(Debug)]
pub struct Subdag {
    /// The subdag of round certificates.
    subdag: BTreeMap<u64, CertificateSet>,
}

impl View for Subdag {
    type V = Map<u64, Seq<CertificateView>>;

    closed spec fn view(&self) -> Map<u64, Seq<CertificateView>> {
        levels_view(self.subdag)
    }
}

impl Subdag {
    /// The subdag is well formed: its mapping passes the five checks. This
    /// holds of every subdag at all times.
    #[verifier::type_invariant]
    pub closed spec fn wf(&self) -> bool {
        valid(levels_view(self.subdag))
    }

    /// Initializes a new subdag.
    ///
    /// The mapping becomes a subdag where it passes the five checks;
    /// otherwise the first check that fails says why not.
    pub fn from(subdag: BTreeMap<u64, CertificateSet>) -> (result: Result<Subdag, SubdagError>)
        ensures
            match verdict(levels_view(subdag)) {
                None => result matches Ok(made) && made@ == levels_view(subdag) && made.wf(),
                Some(error) => result == Err::<Subdag, SubdagError>(error),
            },
            result is Ok <==> valid(levels_view(subdag)),
    {
        let ghost levels = levels_view(subdag);
        assert(levels.dom() =~= subdag@.dom());
        // Ensure there are more than 2 rounds of certificates in the subdag.
        if subdag.len() <= 2 {
            return Err(SubdagError::InsufficientRounds);
        }
        let leader_round = match last_round(&subdag) {
            Some(round) => round,
            None => 0,
        };
        proof {
            if subdag@.dom() == Set::<u64>::empty() {
                assert(subdag@.dom().len() == 0);
            } else {
                lemma_top_round_is_unique(subdag@.dom(), leader_round);
            }
        }
        // Ensure the leader round is even.
        if leader_round % 2 != 0 {
            return Err(SubdagError::OddLeaderRound);
        }
        // Ensure there is only one leader certificate.
        let leaders = match subdag.get(&leader_round) {
            Some(certificates) => certificates.len(),
            None => 0,
        };
        if leaders != 1 {
            return Err(SubdagError::MultipleLeaders);
        }
        // Ensure the rounds are sequential.
        if !is_sequential(&subdag) {
            return Err(SubdagError::NonSequentialRounds);
        }
        // Ensure the subdag structure matches the commit.
        if !sanity_check_subdag_with_dfs(&subdag) {
            return Err(SubdagError::CausalClosureMismatch);
        }
        Ok(Subdag { subdag })
    }

    /// Returns the anchor round: the greatest round of the subdag.
    pub fn anchor_round(&self) -> (round: u64)
        ensures
            round == top_round(self@.dom()),
            self@.contains_key(round),
            valid(self@),
    {
        proof {
            use_type_invariant(self);
            assert(self@.dom() =~= self.subdag@.dom());
        }
        match last_round(&self.subdag) {
            Some(round) => {
                proof {
                    lemma_top_round_is_unique(self.subdag@.dom(), round);
                }
                round
            },
            None => {
                assert(self.subdag@.dom().len() == 0);
                0
            },
        }
    }

    /// Returns the timestamp of the anchor round, defined as the median
    /// timestamp of the leader certificate.
    pub fn timestamp(&self) -> (timestamp: i64)
        ensures
            timestamp == leader(self@).median_timestamp,
            valid(self@),
    {
        proof {
            use_type_invariant(self);
        }
        let round = self.anchor_round();
        match self.subdag.get(&round) {
            Some(certificates) => match certificates.get_index(0) {
                Some(certificate) => certificate.median_timestamp(),
                None => 0,
            },
            None => 0,
        }
    }
}

impl std::ops::Deref for Subdag {
    type Target = BTreeMap<u64, CertificateSet>;

    /// Returns the batch certificates, round by round.
    fn deref(&self) -> (levels: &BTreeMap<u64, CertificateSet>)
        ensures
            levels_view(*levels) == self@,
            valid(self@),
    {
        proof {
            use_type_invariant(self);
        }
        &self.subdag
    }
}

impl PartialEq for Subdag {
    /// Two subdags are equal where they have the same rounds and, under
    /// each round, the same certificates in whatever order.
    fn eq(&self, other: &Subdag) -> (same: bool) {
        proof {
            use_type_invariant(self);
            use_type_invariant(other);
        }
        same_levels(&self.subdag, &other.subdag)
    }
}

impl PartialEqSpecImpl for Subdag {
    open spec fn obeys_eq_spec() -> bool {
        true
    }

    open spec fn eq_spec(&self, other: &Subdag) -> bool {
        as_sets(self@) == as_sets(other@)
    }
}

impl Eq for Subdag {

}

impl Clone for Subdag {
    fn clone(&self) -> (copy: Self)
        ensures
            copy@ == self@,
            copy.wf(),
    {
        proof {
            use_type_invariant(self);
        }
        let mut subdag: BTreeMap<u64, CertificateSet> = BTreeMap::new();
        let keys = self.subdag.keys();
        let ghost rounds = keys.remaining().unref();
        proof {
            axiom_spec_keys_iter(&self.subdag);
        }
        for round in it: keys
            invariant
                it.seq().unref() == rounds,
                rounds.to_set() == self.subdag@.dom(),
                forall|at: u64|
                    subdag@.contains_key(at) <==> exists|i: int|
                        0 <= i < it.index() && #[trigger] rounds[i] == at,
                forall|at: u64|
                    subdag@.contains_key(at) ==> (#[trigger] subdag@[at])@ == self.subdag@[at]@,
        {
            assert(*round == rounds[it.index()]);
            assert(rounds.to_set().contains(rounds[it.index()]));
            let ghost before = subdag@;
            match self.subdag.get(round) {
                Some(certificates) => {
                    subdag.insert(*round, certificates.clone());
                },
                None => {},
            }
            proof {
                assert forall|at: u64| subdag@.contains_key(at) implies exists|i: int|
                    0 <= i < it.index() + 1 && #[trigger] rounds[i] == at by {
                    if at == *round {
                        assert(rounds[it.index()] == at);
                    } else {
                        assert(before.contains_key(at));
                        let i = choose|i: int| 0 <= i < it.index() && #[trigger] rounds[i] == at;
                        assert(rounds[i] == at);
                    }
                }
            }
        }
        proof {
            assert(subdag@.dom() =~= self.subdag@.dom()) by {
                assert forall|at: u64| self.subdag@.dom().contains(at) implies subdag@.dom().contains(
                    at,
                ) by {
                    let i = choose|i: int| 0 <= i < rounds.len() && rounds[i] == at;
                    assert(rounds[i] == at);
                }
            }
            assert(levels_view(subdag) =~= levels_view(self.subdag));
        }
        Subdag { subdag }
    }
}

/// A mapping passes the five checks exactly where none of them fails.
pub proof fn lemma_valid_has_no_verdict(levels: Map<u64, Seq<CertificateView>>)
    ensures
        valid(levels) <==> verdict(levels) is None,
{
}

/// A mapping with two rounds, or fewer, is rejected for its number of
/// rounds, whatever else holds of it.
pub proof fn lemma_few_rounds_are_insufficient(levels: Map<u64, Seq<CertificateView>>)
    requires
        levels.dom().len() <= 2,
    ensures
        verdict(levels) == Some(SubdagError::InsufficientRounds),
{
}

/// A mapping with more than two rounds whose greatest round is odd is
/// rejected for its leader round, whatever else holds of it.
pub proof fn lemma_odd_leader_round_is_rejected(levels: Map<u64, Seq<CertificateView>>)
    requires
        levels.dom().len() > 2,
        top_round(levels.dom()) % 2 == 1,
    ensures
        verdict(levels) == Some(SubdagError::OddLeaderRound),
{
}

/// A mapping with more than two rounds and an even greatest round that
/// holds no certificate, or more than one, is rejected for its leaders.
pub proof fn lemma_leader_must_be_alone(levels: Map<u64, Seq<CertificateView>>)
    requires
        levels.dom().len() > 2,
        top_round(levels.dom()) % 2 == 0,
        level_at(levels, top_round(levels.dom())).len() != 1,
    ensures
        verdict(levels) == Some(SubdagError::MultipleLeaders),
{
}

/// A mapping that passes the first three checks and whose rounds leave a
/// gap is rejected for its rounds.
pub proof fn lemma_gap_is_rejected(levels: Map<u64, Seq<CertificateView>>, missing: u64)
    requires
        levels.dom().len() > 2,
        top_round(levels.dom()) % 2 == 0,
        level_at(levels, top_round(levels.dom())).len() == 1,
        !levels.contains_key(missing),
        exists|low: u64, high: u64|
            levels.contains_key(low) && levels.contains_key(high) && low < missing && missing
                < high,
    ensures
        verdict(levels) == Some(SubdagError::NonSequentialRounds),
{
    let (low, high) = choose|low: u64, high: u64|
        levels.contains_key(low) && levels.contains_key(high) && low < missing && missing < high;
    assert(levels.dom().contains(low) && levels.dom().contains(high) && !levels.dom().contains(
        missing,
    ));
}

/// A mapping that passes the first four checks and holds a certificate
/// which no chain of acknowledgements reaches from the leader is rejected
/// for its closure.
pub proof fn lemma_unreached_certificate_is_rejected(
    levels: Map<u64, Seq<CertificateView>>,
    round: u64,
    certificate: CertificateView,
)
    requires
        levels.dom().len() > 2,
        top_round(levels.dom()) % 2 == 0,
        level_at(levels, top_round(levels.dom())).len() == 1,
        sequential(levels.dom()),
        present(levels, round, certificate),
        !reachable(levels, certificate),
    ensures
        verdict(levels) == Some(SubdagError::CausalClosureMismatch),
{
    lemma_unreached_certificate_breaks_closure(levels, round, certificate);
}

/// Reconstructing the causal closure of a subdag from its own mapping gives
/// that mapping back.
pub proof fn lemma_closure_is_idempotent(subdag: Subdag)
    requires
        subdag.wf(),
    ensures
        causal_closure(subdag@) == as_sets(subdag@),
        causally_closed(subdag@),
        valid(subdag@),
{
}

} // verus!
