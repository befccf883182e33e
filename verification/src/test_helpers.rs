use crate::certificate::{Certificate, CertificateView};
use crate::certificate_set::{inserted, CertificateSet};
use crate::index_set::{index_set_clone, index_set_insert, index_set_items, index_set_new};
use crate::closure::{
    acknowledges, grounded, lemma_closure_is_groundedness, reachable_in, unambiguous,
};
use crate::levels::{lemma_top_round_is_unique, levels_view, present};
use crate::rounds::{is_top_round, sequential, top_round};
use crate::subdag::{leader, valid, verdict, Subdag, SubdagError};
use indexmap::IndexSet;
use std::collections::BTreeMap;
use vstd::prelude::*;

verus! {

/// What a sample certificate says.
pub open spec fn sample_certificate(
    id: u64,
    round: u64,
    previous_ids: Set<u64>,
    median_timestamp: i64,
) -> CertificateView {
    CertificateView { id, round, previous_ids, median_timestamp }
}

/// The certificates of the sample under its earliest round: the first two,
/// which acknowledge nothing.
pub open spec fn sample_earliest(round: u64, ids: Seq<u64>, timestamps: Seq<i64>) -> Seq<
    CertificateView,
> {
    inserted(
        inserted(
            Seq::<CertificateView>::empty(),
            sample_certificate(ids[0], round, Set::<u64>::empty(), timestamps[0]),
        ),
        sample_certificate(ids[1], round, Set::<u64>::empty(), timestamps[1]),
    )
}

/// The certificates of the sample under its middle round: the next three,
/// each of which acknowledges the two of the earliest round.
pub open spec fn sample_middle(round: u64, ids: Seq<u64>, timestamps: Seq<i64>) -> Seq<
    CertificateView,
> {
    let previous_ids = set![ids[0], ids[1]];
    inserted(
        inserted(
            inserted(
                Seq::<CertificateView>::empty(),
                sample_certificate(ids[2], round, previous_ids, timestamps[2]),
            ),
            sample_certificate(ids[3], round, previous_ids, timestamps[3]),
        ),
        sample_certificate(ids[4], round, previous_ids, timestamps[4]),
    )
}

/// The leader certificate of the sample: the last, which acknowledges the
/// three of the middle round.
pub open spec fn sample_leader(round: u64, ids: Seq<u64>, timestamps: Seq<i64>) -> CertificateView {
    sample_certificate(ids[5], round, set![ids[2], ids[3], ids[4]], timestamps[5])
}

/// The sample mapping: three consecutive rounds with two certificates,
/// three certificates and the leader certificate.
pub open spec fn sample_levels(starting_round: u64, ids: Seq<u64>, timestamps: Seq<i64>) -> Map<
    u64,
    Seq<CertificateView>,
> {
    map![
        starting_round => sample_earliest(starting_round, ids, timestamps),
        (starting_round + 1) as u64 => sample_middle((starting_round + 1) as u64, ids, timestamps),
        (starting_round + 2) as u64 => seq![
            sample_leader((starting_round + 2) as u64, ids, timestamps),
        ],
    ]
}

/// The sample mapping is a subdag where its starting round is even and
/// its certificates below the leader have five different identifiers: its
/// three rounds then hold two, three and one certificate, and the last of
/// them is its leader.
pub proof fn lemma_sample_is_valid(starting_round: u64, ids: Seq<u64>, timestamps: Seq<i64>)
    requires
        starting_round % 2 == 0,
        starting_round + 2 <= u64::MAX,
        ids.len() == 6,
        timestamps.len() == 6,
        forall|i: int, j: int| 0 <= i < j < 5 ==> ids[i] != ids[j],
    ensures
        valid(sample_levels(starting_round, ids, timestamps)),
        top_round(sample_levels(starting_round, ids, timestamps).dom()) == starting_round + 2,
        leader(sample_levels(starting_round, ids, timestamps)) == sample_leader(
            (starting_round + 2) as u64,
            ids,
            timestamps,
        ),
        sample_levels(starting_round, ids, timestamps)[starting_round].len() == 2,
        sample_levels(starting_round, ids, timestamps)[(starting_round + 1) as u64].len() == 3,
{
    let levels = sample_levels(starting_round, ids, timestamps);
    let low = starting_round;
    let mid = (starting_round + 1) as u64;
    let top = (starting_round + 2) as u64;
    let nothing = Set::<u64>::empty();
    let pair = set![ids[0], ids[1]];
    let triple = set![ids[2], ids[3], ids[4]];
    let c0 = sample_certificate(ids[0], low, nothing, timestamps[0]);
    let c1 = sample_certificate(ids[1], low, nothing, timestamps[1]);
    let c2 = sample_certificate(ids[2], mid, pair, timestamps[2]);
    let c3 = sample_certificate(ids[3], mid, pair, timestamps[3]);
    let c4 = sample_certificate(ids[4], mid, pair, timestamps[4]);
    let c5 = sample_leader(top, ids, timestamps);
    let earliest = seq![c0, c1];
    let middle = seq![c2, c3, c4];
    let latest = seq![c5];
    assert(sample_earliest(low, ids, timestamps) =~= earliest) by {
        let one = inserted(Seq::<CertificateView>::empty(), c0);
        assert(one =~= seq![c0]);
        assert(ids[0] != ids[1]);
    }
    assert(sample_middle(mid, ids, timestamps) =~= middle) by {
        let one = inserted(Seq::<CertificateView>::empty(), c2);
        assert(one =~= seq![c2]);
        assert(ids[2] != ids[3]);
        let two = inserted(one, c3);
        assert(two =~= seq![c2, c3]);
        assert(ids[2] != ids[4] && ids[3] != ids[4]);
    }
    assert(levels =~= map![low => earliest, mid => middle, top => latest]);
    assert(levels[low] == earliest && levels[mid] == middle && levels[top] == latest);
    let dom = levels.dom();
    assert(dom =~= Set::<u64>::empty().insert(low).insert(mid).insert(top));
    assert(dom.len() == 3);
    assert(is_top_round(dom, top));
    lemma_top_round_is_unique(dom, top);
    assert(sequential(dom));
    assert forall|round: u64, certificate: CertificateView|
        present(levels, round, certificate) implies (round == low && (certificate == c0
        || certificate == c1)) || (round == mid && (certificate == c2 || certificate == c3
        || certificate == c4)) || (round == top && certificate == c5) by {
        let level = levels[round];
        let i = choose|i: int| 0 <= i < level.len() && level[i] == certificate;
        assert(level[i] == certificate);
    }
    assert(earliest[0] == c0 && earliest[1] == c1);
    assert(middle[0] == c2 && middle[1] == c3 && middle[2] == c4);
    assert(latest[0] == c5);
    assert(present(levels, top, c5));
    assert(present(levels, mid, c2) && present(levels, mid, c3) && present(levels, mid, c4));
    assert(present(levels, low, c0) && present(levels, low, c1));
    assert(reachable_in(levels, c5, 0));
    assert(triple.contains(ids[2]) && triple.contains(ids[3]) && triple.contains(ids[4]));
    assert(pair.contains(ids[0]) && pair.contains(ids[1]));
    assert(acknowledges(levels, c5, c2) && acknowledges(levels, c5, c3) && acknowledges(
        levels,
        c5,
        c4,
    ));
    assert(reachable_in(levels, c2, 1) && reachable_in(levels, c3, 1) && reachable_in(
        levels,
        c4,
        1,
    ));
    assert(acknowledges(levels, c2, c0) && acknowledges(levels, c2, c1));
    assert(reachable_in(levels, c0, 2) && reachable_in(levels, c1, 2));
    assert(grounded(levels));
    lemma_closure_is_groundedness(levels);
    assert(unambiguous(levels));
}

/// What making a sample gives: the sample mapping as a subdag, or the
/// first check that the mapping fails.
pub open spec fn sampled(
    result: Result<Subdag, SubdagError>,
    starting_round: u64,
    ids: Seq<u64>,
    timestamps: Seq<i64>,
) -> bool {
    match verdict(sample_levels(starting_round, ids, timestamps)) {
        None => result matches Ok(subdag) && subdag@ == sample_levels(
            starting_round,
            ids,
            timestamps,
        ),
        Some(error) => result == Err::<Subdag, SubdagError>(error),
    }
}

/// Inserts a sample certificate into the set of its round, and its
/// identifier into the list for the round above.
fn sample_into(
    level: &mut CertificateSet,
    listed: &mut IndexSet<u64>,
    id: u64,
    round: u64,
    previous_ids: &IndexSet<u64>,
    median_timestamp: i64,
)
    ensures
        final(level)@ == inserted(
            old(level)@,
            sample_certificate(
                id,
                round,
                index_set_items(*previous_ids).to_set(),
                median_timestamp,
            ),
        ),
        index_set_items(*final(listed)).to_set() == index_set_items(*old(listed)).to_set().insert(
            id,
        ),
{
    let ghost before = index_set_items(*listed);
    let certificate = Certificate::new(id, round, index_set_clone(previous_ids), median_timestamp);
    index_set_insert(listed, certificate.id());
    level.insert(certificate);
    assert(index_set_items(*listed).to_set() =~= before.to_set().insert(id)) by {
        assert forall|other: u64| before.push(id).contains(other) == (before.contains(other)
            || other == id) by {
            if before.contains(other) {
                let i = choose|i: int| 0 <= i < before.len() && before[i] == other;
                assert(before.push(id)[i] == other);
            }
            if other == id {
                assert(before.push(id)[before.len() as int] == id);
            }
        }
    }
}

/// Returns a sample subdag: two certificates in the starting round, three
/// in the next, each of which acknowledges those two, and a leader
/// certificate in the round after, which acknowledges those three. The
/// identifiers and the timestamps are those given, in this order.
pub fn sample_subdag(starting_round: u64, ids: [u64; 6], timestamps: [i64; 6]) -> (result: Result<
    Subdag,
    SubdagError,
>)
    requires
        starting_round + 2 <= u64::MAX,
    ensures
        sampled(result, starting_round, ids@, timestamps@),
{
    // Initialize the map for the subdag.
    let mut subdag: BTreeMap<u64, CertificateSet> = BTreeMap::new();
    let nothing = index_set_new();
    assert(index_set_items(nothing).to_set() =~= Set::<u64>::empty());

    // Process the earliest round.
    let mut earliest = CertificateSet::new();
    let mut previous_certificate_ids = index_set_new();
    sample_into(
        &mut earliest,
        &mut previous_certificate_ids,
        ids[0],
        starting_round,
        &nothing,
        timestamps[0],
    );
    sample_into(
        &mut earliest,
        &mut previous_certificate_ids,
        ids[1],
        starting_round,
        &nothing,
        timestamps[1],
    );
    assert(index_set_items(previous_certificate_ids).to_set() =~= set![ids@[0], ids@[1]]);

    // Process the middle round.
    let mut middle = CertificateSet::new();
    let mut previous_certificate_ids_2 = index_set_new();
    sample_into(
        &mut middle,
        &mut previous_certificate_ids_2,
        ids[2],
        starting_round + 1,
        &previous_certificate_ids,
        timestamps[2],
    );
    sample_into(
        &mut middle,
        &mut previous_certificate_ids_2,
        ids[3],
        starting_round + 1,
        &previous_certificate_ids,
        timestamps[3],
    );
    sample_into(
        &mut middle,
        &mut previous_certificate_ids_2,
        ids[4],
        starting_round + 1,
        &previous_certificate_ids,
        timestamps[4],
    );
    assert(index_set_items(previous_certificate_ids_2).to_set() =~= set![
        ids@[2],
        ids@[3],
        ids@[4],
    ]);

    // Process the latest round.
    let mut latest = CertificateSet::new();
    let mut unlisted = index_set_new();
    sample_into(
        &mut latest,
        &mut unlisted,
        ids[5],
        starting_round + 2,
        &previous_certificate_ids_2,
        timestamps[5],
    );
    assert(latest@ =~= seq![
        sample_leader((starting_round + 2) as u64, ids@, timestamps@),
    ]);

    let ghost first = earliest;
    let ghost second = middle;
    let ghost third = latest;
    subdag.insert(starting_round, earliest);
    subdag.insert(starting_round + 1, middle);
    subdag.insert(starting_round + 2, latest);
    proof {
        assert(subdag@ =~= map![
            starting_round => first,
            (starting_round + 1) as u64 => second,
            (starting_round + 2) as u64 => third,
        ]);
        assert(levels_view(subdag) =~= sample_levels(starting_round, ids@, timestamps@));
    }

    // Return the subdag.
    Subdag::from(subdag)
}

/// Returns a list of sample subdags, one for each starting round with its
/// identifiers and timestamps, in the order given.
pub fn sample_subdags(draws: &Vec<(u64, [u64; 6], [i64; 6])>) -> (sample: Vec<
    Result<Subdag, SubdagError>,
>)
    requires
        forall|i: int| 0 <= i < draws@.len() ==> (#[trigger] draws@[i]).0 + 2 <= u64::MAX,
    ensures
        sample@.len() == draws@.len(),
        forall|i: int|
            0 <= i < draws@.len() ==> sampled(
                #[trigger] sample@[i],
                draws@[i].0,
                draws@[i].1@,
                draws@[i].2@,
            ),
{
    // Initialize a sample vector.
    let mut sample: Vec<Result<Subdag, SubdagError>> = Vec::with_capacity(draws.len());
    // Append sample subdags.
    let mut index: usize = 0;
    while index < draws.len()
        invariant
            index <= draws@.len(),
            sample@.len() == index,
            forall|i: int| 0 <= i < draws@.len() ==> (#[trigger] draws@[i]).0 + 2 <= u64::MAX,
            forall|i: int|
                0 <= i < index ==> sampled(
                    #[trigger] sample@[i],
                    draws@[i].0,
                    draws@[i].1@,
                    draws@[i].2@,
                ),
        decreases draws@.len() - index,
    {
        let draw = &draws[index];
        sample.push(sample_subdag(draw.0, draw.1, draw.2));
        index += 1;
    }
    // Return the sample vector.
    sample
}

} // verus!
