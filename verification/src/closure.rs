use crate::certificate::CertificateView;
use crate::levels::{as_sets, present};
use crate::rounds::top_round;
use vstd::prelude::*;

verus! {

/// The certificate stands under the greatest round of the mapping.
pub open spec fn leads(levels: Map<u64, Seq<CertificateView>>, certificate: CertificateView) -> bool {
    present(levels, top_round(levels.dom()), certificate)
}

/// `certificate` names `previous` among its predecessors, and `previous`
/// stands in the mapping under the round before that of `certificate`.
pub open spec fn acknowledges(
    levels: Map<u64, Seq<CertificateView>>,
    certificate: CertificateView,
    previous: CertificateView,
) -> bool {
    &&& certificate.round >= 1
    &&& present(levels, (certificate.round - 1) as u64, previous)
    &&& certificate.previous_ids.contains(previous.id)
}

/// A chain of `steps` acknowledgements leads from a certificate of the
/// greatest round to `certificate`.
pub open spec fn reachable_in(
    levels: Map<u64, Seq<CertificateView>>,
    certificate: CertificateView,
    steps: nat,
) -> bool
    decreases steps,
{
    if steps == 0 {
        leads(levels, certificate)
    } else {
        exists|via: CertificateView|
            reachable_in(levels, via, (steps - 1) as nat) && #[trigger] acknowledges(
                levels,
                via,
                certificate,
            )
    }
}

/// A chain of acknowledgements leads from a certificate of the greatest
/// round to `certificate`.
pub open spec fn reachable(
    levels: Map<u64, Seq<CertificateView>>,
    certificate: CertificateView,
) -> bool {
    exists|steps: nat| #[trigger] reachable_in(levels, certificate, steps)
}

/// The causal closure of the greatest round: each certificate that a chain
/// of acknowledgements reaches, under its own round.
pub open spec fn causal_closure(levels: Map<u64, Seq<CertificateView>>) -> Map<
    u64,
    Set<CertificateView>,
> {
    Map::new(
        |round: u64|
            exists|certificate: CertificateView|
                #[trigger] reachable(levels, certificate) && certificate.round == round,
        |round: u64|
            Set::new(
                |certificate: CertificateView|
                    reachable(levels, certificate) && certificate.round == round,
            ),
    )
}

/// Below the greatest round no identifier stands for two certificates.
pub open spec fn unambiguous(levels: Map<u64, Seq<CertificateView>>) -> bool {
    forall|first_round: u64, first: CertificateView, second_round: u64, second: CertificateView|
        #![trigger present(levels, first_round, first), present(levels, second_round, second)]
        present(levels, first_round, first) && present(levels, second_round, second) && first_round
            < top_round(levels.dom()) && second_round < top_round(levels.dom()) && first.id
            == second.id ==> first == second
}

/// The mapping is the causal closure of its greatest round, and each
/// identifier below that round names one certificate.
pub open spec fn causally_closed(levels: Map<u64, Seq<CertificateView>>) -> bool {
    &&& causal_closure(levels) == as_sets(levels)
    &&& unambiguous(levels)
}

/// The certificate stands somewhere in the mapping.
pub open spec fn occurs(levels: Map<u64, Seq<CertificateView>>, certificate: CertificateView) -> bool {
    exists|round: u64| #[trigger] present(levels, round, certificate)
}

/// Some certificate of the mapping acknowledges `previous`.
pub open spec fn acknowledged(
    levels: Map<u64, Seq<CertificateView>>,
    previous: CertificateView,
) -> bool {
    exists|certificate: CertificateView|
        occurs(levels, certificate) && #[trigger] acknowledges(levels, certificate, previous)
}

/// What a chain reaches stands in the mapping.
pub proof fn lemma_reachable_occurs(
    levels: Map<u64, Seq<CertificateView>>,
    certificate: CertificateView,
)
    requires
        reachable(levels, certificate),
    ensures
        occurs(levels, certificate),
{
    let steps = choose|steps: nat| #[trigger] reachable_in(levels, certificate, steps);
    if steps == 0 {
        assert(present(levels, top_round(levels.dom()), certificate));
    } else {
        let via = choose|via: CertificateView|
            reachable_in(levels, via, (steps - 1) as nat) && #[trigger] acknowledges(
                levels,
                via,
                certificate,
            );
        assert(present(levels, (via.round - 1) as u64, certificate));
    }
}

/// What a reached certificate acknowledges is reached too.
pub proof fn lemma_reachable_extends(
    levels: Map<u64, Seq<CertificateView>>,
    certificate: CertificateView,
    previous: CertificateView,
)
    requires
        reachable(levels, certificate),
        acknowledges(levels, certificate, previous),
    ensures
        reachable(levels, previous),
{
    let steps = choose|steps: nat| #[trigger] reachable_in(levels, certificate, steps);
    assert(reachable_in(levels, previous, steps + 1));
}

/// Each certificate of the mapping stands under its own round and is
/// reached by a chain of acknowledgements, and no round is empty.
pub open spec fn grounded(levels: Map<u64, Seq<CertificateView>>) -> bool {
    &&& forall|round: u64, certificate: CertificateView| #[trigger]
        present(levels, round, certificate) ==> certificate.round == round && reachable(
            levels,
            certificate,
        )
    &&& forall|round: u64| levels.contains_key(round) ==> (#[trigger] levels[round]).len() > 0
}

/// A mapping equals the causal closure of its greatest round exactly where
/// each of its certificates stands under its own round and is reached by a
/// chain of acknowledgements, and none of its rounds is empty.
pub proof fn lemma_closure_is_groundedness(levels: Map<u64, Seq<CertificateView>>)
    ensures
        (causal_closure(levels) == as_sets(levels)) == grounded(levels),
{
    let closure = causal_closure(levels);
    let sets = as_sets(levels);
    if closure == sets {
        assert forall|round: u64, certificate: CertificateView| #[trigger]
            present(levels, round, certificate) implies certificate.round == round && reachable(
            levels,
            certificate,
        ) by {
            assert(sets.contains_key(round));
            assert(sets[round].contains(certificate));
            assert(closure.contains_key(round));
            assert(closure[round].contains(certificate));
        }
        assert forall|round: u64| levels.contains_key(round) implies (#[trigger] levels[round]).len()
            > 0 by {
            assert(sets.contains_key(round));
            assert(closure.contains_key(round));
            let certificate = choose|certificate: CertificateView|
                #[trigger] reachable(levels, certificate) && certificate.round == round;
            assert(closure[round].contains(certificate));
            assert(sets[round].contains(certificate));
            assert(levels[round].contains(certificate));
        }
    }
    if grounded(levels) {
        assert forall|round: u64| closure.contains_key(round) == sets.contains_key(round) by {
            if closure.contains_key(round) {
                let certificate = choose|certificate: CertificateView|
                    #[trigger] reachable(levels, certificate) && certificate.round == round;
                lemma_reachable_occurs(levels, certificate);
                let at = choose|at: u64| #[trigger] present(levels, at, certificate);
                assert(at == round);
            }
            if sets.contains_key(round) {
                let certificate = levels[round][0];
                assert(present(levels, round, certificate));
                assert(reachable(levels, certificate));
            }
        }
        assert forall|round: u64| closure.contains_key(round) implies closure[round]
            =~= sets[round] by {
            assert forall|certificate: CertificateView|
                closure[round].contains(certificate) == sets[round].contains(certificate) by {
                if closure[round].contains(certificate) {
                    lemma_reachable_occurs(levels, certificate);
                    let at = choose|at: u64| #[trigger] present(levels, at, certificate);
                    assert(at == round);
                }
                if sets[round].contains(certificate) {
                    assert(present(levels, round, certificate));
                }
            }
        }
        assert(closure =~= sets);
    }
}

/// In a causally closed mapping each certificate below the greatest round is
/// acknowledged by a certificate of the round above it.
pub proof fn lemma_closed_certificate_is_acknowledged(
    levels: Map<u64, Seq<CertificateView>>,
    round: u64,
    certificate: CertificateView,
)
    requires
        causally_closed(levels),
        present(levels, round, certificate),
        round != top_round(levels.dom()),
    ensures
        round < u64::MAX,
        exists|above: CertificateView|
            present(levels, (round + 1) as u64, above) && #[trigger] acknowledges(
                levels,
                above,
                certificate,
            ),
{
    lemma_closure_is_groundedness(levels);
    let steps = choose|steps: nat| #[trigger] reachable_in(levels, certificate, steps);
    assert(steps > 0) by {
        if steps == 0 {
            assert(present(levels, top_round(levels.dom()), certificate));
        }
    }
    let via = choose|via: CertificateView|
        reachable_in(levels, via, (steps - 1) as nat) && #[trigger] acknowledges(
            levels,
            via,
            certificate,
        );
    assert(present(levels, (via.round - 1) as u64, certificate));
    assert(reachable(levels, via));
    lemma_reachable_occurs(levels, via);
    let at = choose|at: u64| #[trigger] present(levels, at, via);
    assert(at == via.round);
}

/// A mapping that holds a certificate which no chain of acknowledgements
/// reaches from its greatest round is not causally closed.
pub proof fn lemma_unreached_certificate_breaks_closure(
    levels: Map<u64, Seq<CertificateView>>,
    round: u64,
    certificate: CertificateView,
)
    requires
        present(levels, round, certificate),
        !reachable(levels, certificate),
    ensures
        !causally_closed(levels),
{
    if causally_closed(levels) {
        assert(as_sets(levels).contains_key(round));
        assert(as_sets(levels)[round].contains(certificate));
        assert(causal_closure(levels).contains_key(round));
        assert(causal_closure(levels)[round].contains(certificate));
        assert(reachable(levels, certificate));
    }
}

} // verus!
