use std::collections::BTreeMap;
use vstd::prelude::*;
use vstd::std_specs::btree::*;
use vstd::std_specs::cmp::OrdSpec;
use vstd::std_specs::iter::IteratorSpec;

verus! {

/// The rounds form a run of consecutive integers: whatever lies between two
/// of them is one of them.
pub open spec fn sequential(rounds: Set<u64>) -> bool {
    forall|low: u64, mid: u64, high: u64|
        #![trigger rounds.contains(low), rounds.contains(mid), rounds.contains(high)]
        rounds.contains(low) && rounds.contains(high) && low <= mid && mid <= high
            ==> rounds.contains(mid)
}

/// `round` is the greatest of `rounds`.
pub open spec fn is_top_round(rounds: Set<u64>, round: u64) -> bool {
    &&& rounds.contains(round)
    &&& forall|other: u64| #[trigger] rounds.contains(other) ==> other <= round
}

/// The greatest of `rounds`; zero where there is none.
pub open spec fn top_round(rounds: Set<u64>) -> u64 {
    if exists|round: u64| is_top_round(rounds, round) {
        choose|round: u64| is_top_round(rounds, round)
    } else {
        0
    }
}

/// Each entry is smaller than every later one.
pub open spec fn ascending(rounds: Seq<u64>) -> bool {
    forall|i: int, j: int| 0 <= i < j < rounds.len() ==> rounds[i] < rounds[j]
}

/// `first` is ordered before `second`.
spec fn ordered_before<K: Ord>(first: K, second: K) -> bool {
    first.cmp_spec(&second) is Less
}

/// The keys of an ordered map, as its iterator yields them, ascend.
pub(crate) proof fn lemma_keys_ascend(keys: Seq<&u64>)
    requires
        increasing_seq(keys),
    ensures
        ascending(keys.unref()),
{
    assert(vstd::laws_cmp::obeys_cmp::<u64>());
    assert(vstd::laws_cmp::obeys_cmp::<&u64>());
    axiom_increasing_seq_meaning::<&u64>(keys);
    assert forall|i: int, j: int| 0 <= i < j < keys.len() implies *keys[i] < *keys[j] by {
        assert(ordered_before::<&u64>(keys[i], keys[j]));
    }
}

/// In an ascending run with steps of one, each entry is the first plus its
/// index.
proof fn lemma_run_offsets(rounds: Seq<u64>, upto: int)
    requires
        0 <= upto < rounds.len(),
        forall|j: int| 0 < j <= upto ==> #[trigger] rounds[j] == rounds[j - 1] + 1,
    ensures
        rounds[upto] == rounds[0] + upto,
    decreases upto,
{
    if upto > 0 {
        lemma_run_offsets(rounds, upto - 1);
    }
}

/// Ascending rounds with steps of one are sequential.
proof fn lemma_run_is_sequential(rounds: Seq<u64>)
    requires
        ascending(rounds),
        forall|j: int| 0 < j < rounds.len() ==> #[trigger] rounds[j] == rounds[j - 1] + 1,
    ensures
        sequential(rounds.to_set()),
{
    let dom = rounds.to_set();
    assert forall|low: u64, mid: u64, high: u64|
        dom.contains(low) && dom.contains(high) && low <= mid && mid <= high implies dom.contains(
        mid,
    ) by {
        let a = choose|a: int| 0 <= a < rounds.len() && rounds[a] == low;
        let b = choose|b: int| 0 <= b < rounds.len() && rounds[b] == high;
        lemma_run_offsets(rounds, a);
        lemma_run_offsets(rounds, b);
        let m = mid - rounds[0];
        assert(a <= m <= b);
        lemma_run_offsets(rounds, m);
        assert(rounds[m] == mid);
    }
}

/// Ascending rounds with a step of more than one are not sequential.
proof fn lemma_gap_is_not_sequential(rounds: Seq<u64>, at: int)
    requires
        ascending(rounds),
        0 < at < rounds.len(),
        rounds[at] != rounds[at - 1] + 1,
    ensures
        !sequential(rounds.to_set()),
{
    let dom = rounds.to_set();
    let low = rounds[at - 1];
    let high = rounds[at];
    let mid: u64 = (low + 1) as u64;
    assert(dom.contains(low));
    assert(dom.contains(high));
    assert(low < high);
    if dom.contains(mid) {
        let k = choose|k: int| 0 <= k < rounds.len() && rounds[k] == mid;
        if k < at - 1 {
            assert(rounds[k] < rounds[at - 1]);
        } else if k > at {
            assert(rounds[at] < rounds[k]);
        }
        assert(false);
    }
}

/// Returns `true` if the rounds are sequential.
pub fn is_sequential<T>(map: &BTreeMap<u64, T>) -> (sequential_rounds: bool)
    ensures
        sequential_rounds == sequential(map@.dom()),
{
    let mut previous_round: Option<u64> = None;
    let keys = map.keys();
    let ghost rounds = keys.remaining().unref();
    proof {
        axiom_spec_keys_iter(map);
        lemma_keys_ascend(keys.remaining());
    }
    for round in it: keys
        invariant
            it.seq().unref() == rounds,
            ascending(rounds),
            rounds.to_set() == map@.dom(),
            previous_round == if it.index() == 0 {
                None
            } else {
                Some(rounds[it.index() - 1])
            },
            forall|j: int| 0 < j < it.index() ==> #[trigger] rounds[j] == rounds[j - 1] + 1,
    {
        let round: u64 = *round;
        assert(round == rounds[it.index()]);
        match previous_round {
            Some(previous) => {
                assert(previous < round);
                if previous + 1 != round {
                    proof {
                        lemma_gap_is_not_sequential(rounds, it.index());
                    }
                    return false;
                }
                previous_round = Some(round);
            },
            None => {
                previous_round = Some(round);
            },
        }
    }
    proof {
        lemma_run_is_sequential(rounds);
    }
    true
}

} // verus!
