use crate::certificate::CertificateView;
use crate::certificate_set::CertificateSet;
use crate::rounds::{ascending, is_top_round, lemma_keys_ascend, top_round};
use std::collections::BTreeMap;
use vstd::prelude::*;
use vstd::std_specs::btree::axiom_spec_keys_iter;
use vstd::std_specs::iter::IteratorSpec;

verus! {

/// What a mapping from rounds to certificates holds: for each round, its
/// certificates in order.
pub open spec fn levels_view(map: BTreeMap<u64, CertificateSet>) -> Map<
    u64,
    Seq<CertificateView>,
> {
    map@.map_values(|set: CertificateSet| set@)
}

/// The certificate stands in the mapping under `round`.
pub open spec fn present(
    levels: Map<u64, Seq<CertificateView>>,
    round: u64,
    certificate: CertificateView,
) -> bool {
    levels.contains_key(round) && levels[round].contains(certificate)
}

/// The certificates that a mapping holds under a round, and none where it
/// has no such round.
pub open spec fn level_at(levels: Map<u64, Seq<CertificateView>>, round: u64) -> Seq<
    CertificateView,
> {
    if levels.contains_key(round) {
        levels[round]
    } else {
        Seq::<CertificateView>::empty()
    }
}

/// The mapping without the order of the certificates within a round.
pub open spec fn as_sets(levels: Map<u64, Seq<CertificateView>>) -> Map<
    u64,
    Set<CertificateView>,
> {
    levels.map_values(|certificates: Seq<CertificateView>| certificates.to_set())
}

/// A set of rounds has at most one greatest round, and `top_round` names it.
pub proof fn lemma_top_round_is_unique(rounds: Set<u64>, round: u64)
    requires
        is_top_round(rounds, round),
    ensures
        top_round(rounds) == round,
{
    let chosen = top_round(rounds);
    assert(is_top_round(rounds, chosen));
    assert(rounds.contains(chosen));
    assert(rounds.contains(round));
}

/// Returns the greatest round of the mapping, and nothing for an empty
/// mapping.
pub fn last_round<T>(map: &BTreeMap<u64, T>) -> (last: Option<u64>)
    ensures
        match last {
            Some(round) => is_top_round(map@.dom(), round),
            None => map@.dom() == Set::<u64>::empty(),
        },
{
    let mut last: Option<u64> = None;
    let keys = map.keys();
    let ghost rounds = keys.remaining().unref();
    proof {
        axiom_spec_keys_iter(map);
        lemma_keys_ascend(keys.remaining());
    }
    for round in it: keys
        invariant
            it.seq().unref() == rounds,
            ascending(rounds),
            rounds.to_set() == map@.dom(),
            last == if it.index() == 0 {
                None
            } else {
                Some(rounds[it.index() - 1])
            },
    {
        last = Some(*round);
    }
    proof {
        match last {
            Some(round) => {
                assert(rounds.to_set().contains(rounds[rounds.len() - 1]));
                assert forall|other: u64| map@.dom().contains(other) implies other <= round by {
                    let k = choose|k: int| 0 <= k < rounds.len() && rounds[k] == other;
                    if k < rounds.len() - 1 {
                        assert(rounds[k] < rounds[rounds.len() - 1]);
                    }
                }
            },
            None => {
                assert(rounds.to_set() =~= Set::<u64>::empty());
            },
        }
    }
    last
}

/// Returns `true` if both mappings have the same rounds and, under each
/// round, the same certificates in whatever order.
pub fn same_levels(
    first: &BTreeMap<u64, CertificateSet>,
    second: &BTreeMap<u64, CertificateSet>,
) -> (same: bool)
    ensures
        same == (as_sets(levels_view(*first)) == as_sets(levels_view(*second))),
{
    let ghost left = as_sets(levels_view(*first));
    let ghost right = as_sets(levels_view(*second));
    assert(left.dom() =~= first@.dom());
    assert(right.dom() =~= second@.dom());
    if first.len() != second.len() {
        return false;
    }
    let keys = first.keys();
    let ghost rounds = keys.remaining().unref();
    proof {
        axiom_spec_keys_iter(first);
    }
    for round in it: keys
        invariant
            it.seq().unref() == rounds,
            rounds.to_set() == first@.dom(),
            left == as_sets(levels_view(*first)),
            right == as_sets(levels_view(*second)),
            left.dom() == first@.dom(),
            right.dom() == second@.dom(),
            forall|i: int|
                0 <= i < it.index() ==> right.contains_key(#[trigger] rounds[i]) && left[rounds[i]]
                    == right[rounds[i]],
    {
        assert(*round == rounds[it.index()]);
        assert(rounds.to_set().contains(rounds[it.index()]));
        match (first.get(round), second.get(round)) {
            (Some(own), Some(other)) => {
                if *own != *other {
                    assert(left[*round] != right[*round]);
                    return false;
                }
            },
            _ => {
                assert(!right.contains_key(*round));
                assert(left.contains_key(*round));
                return false;
            },
        }
    }
    proof {
        assert(first@.dom().subset_of(second@.dom())) by {
            assert forall|round: u64| first@.dom().contains(round) implies second@.dom().contains(
                round,
            ) by {
                let k = choose|k: int| 0 <= k < rounds.len() && rounds[k] == round;
                assert(right.contains_key(rounds[k]));
            }
        }
        vstd::set_lib::lemma_subset_equality(first@.dom(), second@.dom());
        assert forall|round: u64| left.contains_key(round) implies left[round] == right[round] by {
            let k = choose|k: int| 0 <= k < rounds.len() && rounds[k] == round;
            assert(left[rounds[k]] == right[rounds[k]]);
        }
        assert(left =~= right);
    }
    true
}

} // verus!
