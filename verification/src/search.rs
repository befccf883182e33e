use crate::certificate::CertificateView;
use crate::certificate_set::{distinct_ids, holds_id, inserted};
use crate::closure::{
    acknowledged, acknowledges, causal_closure, causally_closed, leads, lemma_reachable_extends,
    lemma_reachable_occurs, occurs, reachable, reachable_in,
};
use crate::levels::{as_sets, level_at, present};
use crate::rounds::{is_top_round, top_round};
use vstd::prelude::*;

verus! {

/// The state of a backward search through a mapping.
pub ghost struct Search {
    /// The certificates committed so far, under their own rounds.
    pub commit: Map<u64, Seq<CertificateView>>,
    /// The certificates that wait to be committed.
    pub buffer: Seq<CertificateView>,
    /// The identifiers of the certificates that the search has scheduled.
    pub visited: Set<u64>,
    /// The certificates taken from the buffer so far.
    pub done: Set<CertificateView>,
    /// The certificates scheduled as predecessors so far.
    pub pushed: Set<CertificateView>,
}

/// The search has met the certificate: it waits in the buffer or was taken
/// from it.
pub open spec fn seen(search: Search, certificate: CertificateView) -> bool {
    search.done.contains(certificate) || search.buffer.contains(certificate)
}

/// A mapping with a round has a greatest round.
pub open spec fn rooted(levels: Map<u64, Seq<CertificateView>>) -> bool {
    forall|round: u64| #[trigger]
        levels.contains_key(round) ==> is_top_round(levels.dom(), top_round(levels.dom()))
}

/// What stands in the commit was taken from the buffer and stands under
/// its own round.
pub open spec fn commit_sound(search: Search) -> bool {
    forall|round: u64, certificate: CertificateView| #[trigger]
        present(search.commit, round, certificate) ==> certificate.round == round
            && search.done.contains(certificate)
}

/// No round of the commit is empty.
pub open spec fn commit_nonempty(search: Search) -> bool {
    forall|round: u64|
        search.commit.contains_key(round) ==> (#[trigger] search.commit[round]).len() > 0
}

/// For what was taken from the buffer, the commit holds a certificate with
/// its identifier under its round.
pub open spec fn commit_covers(search: Search) -> bool {
    forall|certificate: CertificateView| #[trigger]
        search.done.contains(certificate) ==> search.commit.contains_key(certificate.round)
            && holds_id(search.commit[certificate.round], certificate.id)
}

/// What the search has met is reached by a chain, and is of the greatest
/// round or was scheduled as a predecessor.
pub open spec fn seen_fairly(levels: Map<u64, Seq<CertificateView>>, search: Search) -> bool {
    forall|certificate: CertificateView| #[trigger]
        seen(search, certificate) ==> reachable(levels, certificate) && (leads(levels, certificate)
            || search.pushed.contains(certificate))
}

/// What was scheduled as a predecessor is marked by its identifier, has
/// been met, and is acknowledged by a certificate of the mapping.
pub open spec fn pushed_fairly(levels: Map<u64, Seq<CertificateView>>, search: Search) -> bool {
    forall|previous: CertificateView| #[trigger]
        search.pushed.contains(previous) ==> search.visited.contains(previous.id) && seen(
            search,
            previous,
        ) && acknowledged(levels, previous)
}

/// The certificates of the greatest round have been met.
pub open spec fn leaders_seen(levels: Map<u64, Seq<CertificateView>>, search: Search) -> bool {
    forall|certificate: CertificateView| #[trigger]
        leads(levels, certificate) ==> seen(search, certificate)
}

/// Each marked identifier is that of a scheduled predecessor.
pub open spec fn visited_pushed(search: Search) -> bool {
    forall|id: u64| #[trigger]
        search.visited.contains(id) ==> exists|previous: CertificateView| #[trigger]
            search.pushed.contains(previous) && previous.id == id
}

/// No two scheduled predecessors share an identifier.
pub open spec fn pushed_distinct(search: Search) -> bool {
    forall|first: CertificateView, second: CertificateView|
        #![trigger search.pushed.contains(first), search.pushed.contains(second)]
        search.pushed.contains(first) && search.pushed.contains(second) && first.id == second.id
            ==> first == second
}

/// What holds of a search between any two of its steps.
pub open spec fn consistent(levels: Map<u64, Seq<CertificateView>>, search: Search) -> bool {
    &&& commit_sound(search)
    &&& commit_nonempty(search)
    &&& commit_covers(search)
    &&& seen_fairly(levels, search)
    &&& pushed_fairly(levels, search)
    &&& leaders_seen(levels, search)
    &&& visited_pushed(search)
    &&& pushed_distinct(search)
}

/// The predecessors of what was taken from the buffer are marked, but for
/// those of `current` that are not `handled` yet.
pub open spec fn settled_but(
    levels: Map<u64, Seq<CertificateView>>,
    search: Search,
    current: CertificateView,
    handled: Set<u64>,
) -> bool {
    forall|certificate: CertificateView, previous: CertificateView|
        search.done.contains(certificate) && #[trigger] acknowledges(levels, certificate, previous)
            ==> search.visited.contains(previous.id) || (certificate == current
            && !handled.contains(previous.id))
}

/// The predecessors of what was taken from the buffer are marked.
pub open spec fn settled(levels: Map<u64, Seq<CertificateView>>, search: Search) -> bool {
    forall|certificate: CertificateView, previous: CertificateView|
        search.done.contains(certificate) && #[trigger] acknowledges(levels, certificate, previous)
            ==> search.visited.contains(previous.id)
}

/// A search that starts with the certificates of the greatest round in its
/// buffer, and with nothing else, is consistent and settled.
pub proof fn lemma_start(levels: Map<u64, Seq<CertificateView>>, search: Search)
    requires
        search.commit == Map::<u64, Seq<CertificateView>>::empty(),
        search.visited == Set::<u64>::empty(),
        search.done == Set::<CertificateView>::empty(),
        search.pushed == Set::<CertificateView>::empty(),
        search.buffer == if levels.contains_key(top_round(levels.dom())) {
            levels[top_round(levels.dom())]
        } else {
            Seq::<CertificateView>::empty()
        },
    ensures
        consistent(levels, search),
        settled(levels, search),
{
    assert forall|certificate: CertificateView| #[trigger]
        seen(search, certificate) implies reachable(levels, certificate) && leads(
        levels,
        certificate,
    ) by {
        assert(reachable_in(levels, certificate, 0));
    }
}

/// Taking the last certificate from the buffer and committing it under its
/// round keeps the search consistent; its own predecessors are yet to be
/// handled.
pub proof fn lemma_take(
    levels: Map<u64, Seq<CertificateView>>,
    before: Search,
    after: Search,
    certificate: CertificateView,
    level: Seq<CertificateView>,
)
    requires
        consistent(levels, before),
        settled(levels, before),
        before.buffer.len() > 0,
        certificate == before.buffer.last(),
        after.buffer == before.buffer.drop_last(),
        after.visited == before.visited,
        after.pushed == before.pushed,
        after.done == before.done.insert(certificate),
        level == if before.commit.contains_key(certificate.round) {
            before.commit[certificate.round]
        } else {
            Seq::<CertificateView>::empty()
        },
        after.commit == before.commit.insert(certificate.round, inserted(level, certificate)),
    ensures
        consistent(levels, after),
        settled_but(levels, after, certificate, Set::<u64>::empty()),
{
    let round = certificate.round;
    let grown = after.commit[round];
    assert(before.buffer.contains(certificate));
    assert(seen(before, certificate));
    assert forall|other: CertificateView| seen(before, other) == seen(after, other) || other
        == certificate by {
        if before.buffer.contains(other) && other != certificate {
            let i = choose|i: int| 0 <= i < before.buffer.len() && before.buffer[i] == other;
            assert(after.buffer[i] == other);
        }
        if after.buffer.contains(other) {
            let i = choose|i: int| 0 <= i < after.buffer.len() && after.buffer[i] == other;
            assert(before.buffer[i] == other);
        }
    }
    assert(seen(after, certificate));
    assert forall|other: CertificateView| level.contains(other) implies grown.contains(other) by {
        let i = choose|i: int| 0 <= i < level.len() && level[i] == other;
        assert(grown[i] == other);
    }
    assert forall|other: CertificateView| grown.contains(other) implies level.contains(other)
        || other == certificate by {
        let i = choose|i: int| 0 <= i < grown.len() && grown[i] == other;
        if i < level.len() {
            assert(level[i] == other);
        }
    }
    assert(commit_sound(after)) by {
        assert forall|at: u64, other: CertificateView| #[trigger]
            present(after.commit, at, other) implies other.round == at && after.done.contains(
            other,
        ) by {
            if at == round {
                if level.contains(other) {
                    assert(present(before.commit, at, other));
                }
            } else {
                assert(present(before.commit, at, other));
            }
        }
    }
    assert(commit_nonempty(after)) by {
        assert forall|at: u64| after.commit.contains_key(at) implies (#[trigger] after.commit[at]).len()
            > 0 by {
            if at != round {
                assert(before.commit.contains_key(at));
            }
        }
    }
    assert(commit_covers(after)) by {
        assert forall|other: CertificateView| #[trigger]
            after.done.contains(other) implies after.commit.contains_key(other.round) && holds_id(
            after.commit[other.round],
            other.id,
        ) by {
            if other == certificate {
                if holds_id(level, certificate.id) {
                } else {
                    assert(grown[level.len() as int].id == certificate.id);
                }
            } else {
                assert(before.done.contains(other));
                if other.round == round {
                    let i = choose|i: int| 0 <= i < level.len() && #[trigger] level[i].id == other.id;
                    assert(grown[i].id == other.id);
                }
            }
        }
    }
    assert(seen_fairly(levels, after)) by {
        assert forall|other: CertificateView| #[trigger] seen(after, other) implies reachable(
            levels,
            other,
        ) && (leads(levels, other) || after.pushed.contains(other)) by {
            assert(seen(before, other));
        }
    }
    assert(pushed_fairly(levels, after)) by {
        assert forall|previous: CertificateView| #[trigger]
            after.pushed.contains(previous) implies after.visited.contains(previous.id) && seen(
            after,
            previous,
        ) && acknowledged(levels, previous) by {
            assert(seen(before, previous));
        }
    }
    assert(leaders_seen(levels, after)) by {
        assert forall|other: CertificateView| #[trigger] leads(levels, other) implies seen(
            after,
            other,
        ) by {
            assert(seen(before, other));
        }
    }
}

/// Scheduling a predecessor of the current certificate whose identifier is
/// not marked yet keeps the search consistent, and handles that identifier.
pub proof fn lemma_schedule(
    levels: Map<u64, Seq<CertificateView>>,
    before: Search,
    after: Search,
    current: CertificateView,
    handled: Set<u64>,
    previous: CertificateView,
)
    requires
        consistent(levels, before),
        settled_but(levels, before, current, handled),
        before.done.contains(current),
        acknowledges(levels, current, previous),
        !before.visited.contains(previous.id),
        after.commit == before.commit,
        after.done == before.done,
        after.buffer == before.buffer.push(previous),
        after.visited == before.visited.insert(previous.id),
        after.pushed == before.pushed.insert(previous),
    ensures
        consistent(levels, after),
        settled_but(levels, after, current, handled.insert(previous.id)),
{
    assert(seen(before, current));
    lemma_reachable_occurs(levels, current);
    lemma_reachable_extends(levels, current, previous);
    assert(after.buffer[before.buffer.len() as int] == previous);
    assert(seen(after, previous));
    assert forall|other: CertificateView| seen(before, other) implies seen(after, other) by {
        if before.buffer.contains(other) {
            let i = choose|i: int| 0 <= i < before.buffer.len() && before.buffer[i] == other;
            assert(after.buffer[i] == other);
        }
    }
    assert forall|other: CertificateView| seen(after, other) implies seen(before, other) || other
        == previous by {
        if after.buffer.contains(other) {
            let i = choose|i: int| 0 <= i < after.buffer.len() && after.buffer[i] == other;
            if i < before.buffer.len() {
                assert(before.buffer[i] == other);
            }
        }
    }
    assert(commit_sound(after));
    assert(commit_nonempty(after));
    assert(commit_covers(after));
    assert(seen_fairly(levels, after)) by {
        assert forall|other: CertificateView| #[trigger] seen(after, other) implies reachable(
            levels,
            other,
        ) && (leads(levels, other) || after.pushed.contains(other)) by {
            if other != previous {
                assert(seen(before, other));
            }
        }
    }
    assert(pushed_fairly(levels, after)) by {
        assert forall|other: CertificateView| #[trigger]
            after.pushed.contains(other) implies after.visited.contains(other.id) && seen(
            after,
            other,
        ) && acknowledged(levels, other) by {
            if other != previous {
                assert(before.pushed.contains(other));
                assert(seen(before, other));
            }
        }
    }
    assert(leaders_seen(levels, after)) by {
        assert forall|other: CertificateView| #[trigger] leads(levels, other) implies seen(
            after,
            other,
        ) by {
            assert(seen(before, other));
        }
    }
    assert(visited_pushed(after)) by {
        assert forall|id: u64| #[trigger] after.visited.contains(id) implies exists|
            other: CertificateView,
        | #[trigger]
            after.pushed.contains(other) && other.id == id by {
            if id == previous.id {
                assert(after.pushed.contains(previous));
            } else {
                let other = choose|other: CertificateView| #[trigger]
                    before.pushed.contains(other) && other.id == id;
                assert(after.pushed.contains(other));
            }
        }
    }
    assert(pushed_distinct(after)) by {
        assert forall|first: CertificateView, second: CertificateView|
            after.pushed.contains(first) && after.pushed.contains(second) && first.id
                == second.id implies first == second by {
            if first != previous {
                assert(before.pushed.contains(first));
            }
            if second != previous {
                assert(before.pushed.contains(second));
            }
        }
    }
}

/// An identifier that is marked already, or that no certificate of the
/// round below the current one has, is handled as the search stands.
pub proof fn lemma_pass(
    levels: Map<u64, Seq<CertificateView>>,
    search: Search,
    current: CertificateView,
    handled: Set<u64>,
    id: u64,
)
    requires
        settled_but(levels, search, current, handled),
        search.visited.contains(id) || current.round == 0 || !levels.contains_key(
            (current.round - 1) as u64,
        ) || !holds_id(levels[(current.round - 1) as u64], id),
    ensures
        settled_but(levels, search, current, handled.insert(id)),
{
    assert forall|certificate: CertificateView, previous: CertificateView|
        search.done.contains(certificate) && #[trigger] acknowledges(
            levels,
            certificate,
            previous,
        ) implies search.visited.contains(previous.id) || (certificate == current
        && !handled.insert(id).contains(previous.id)) by {
        if certificate == current && previous.id == id && !search.visited.contains(id) {
            let below = levels[(current.round - 1) as u64];
            let i = choose|i: int| 0 <= i < below.len() && below[i] == previous;
            assert(below[i].id == id);
        }
    }
}

/// Once all the identifiers that the current certificate names are
/// handled, or where no round stands below it, the search is settled.
pub proof fn lemma_settle(
    levels: Map<u64, Seq<CertificateView>>,
    search: Search,
    current: CertificateView,
    handled: Set<u64>,
)
    requires
        settled_but(levels, search, current, handled),
        current.previous_ids.subset_of(handled) || current.round == 0 || !levels.contains_key(
            (current.round - 1) as u64,
        ),
    ensures
        settled(levels, search),
{
}

/// Where the commit of a finished search equals the mapping, the mapping is
/// causally closed.
proof fn lemma_equal_commit_is_closed(levels: Map<u64, Seq<CertificateView>>, search: Search)
    requires
        consistent(levels, search),
        as_sets(search.commit) == as_sets(levels),
    ensures
        causally_closed(levels),
{
    let commit = search.commit;
    let top = top_round(levels.dom());
    assert forall|round: u64, certificate: CertificateView|
        present(levels, round, certificate) == present(commit, round, certificate) by {
        assert(as_sets(commit).contains_key(round) == as_sets(levels).contains_key(round));
        if levels.contains_key(round) {
            assert(as_sets(commit)[round] == as_sets(levels)[round]);
            assert(commit[round].to_set().contains(certificate) == levels[round].to_set().contains(
                certificate,
            ));
        }
    }
    let closure = causal_closure(levels);
    let sets = as_sets(levels);
    assert forall|round: u64| closure.contains_key(round) == sets.contains_key(round) by {
        if closure.contains_key(round) {
            let certificate = choose|certificate: CertificateView|
                #[trigger] reachable(levels, certificate) && certificate.round == round;
            lemma_reachable_occurs(levels, certificate);
            let at = choose|at: u64| #[trigger] present(levels, at, certificate);
            assert(present(commit, at, certificate));
        }
        if sets.contains_key(round) {
            assert(commit.contains_key(round));
            let certificate = commit[round][0];
            assert(present(commit, round, certificate));
            assert(seen(search, certificate));
            assert(reachable(levels, certificate));
        }
    }
    assert forall|round: u64| closure.contains_key(round) implies closure[round] =~= sets[round] by {
        assert forall|certificate: CertificateView|
            closure[round].contains(certificate) == sets[round].contains(certificate) by {
            if closure[round].contains(certificate) {
                lemma_reachable_occurs(levels, certificate);
                let at = choose|at: u64| #[trigger] present(levels, at, certificate);
                assert(present(commit, at, certificate));
                assert(present(levels, round, certificate));
            }
            if sets[round].contains(certificate) {
                assert(present(levels, round, certificate));
                assert(present(commit, round, certificate));
                assert(seen(search, certificate));
            }
        }
    }
    assert(closure =~= sets);
    assert forall|
        first_round: u64,
        first: CertificateView,
        second_round: u64,
        second: CertificateView,
    |
        present(levels, first_round, first) && present(levels, second_round, second) && first_round
            < top && second_round < top && first.id == second.id implies first == second by {
        assert(present(commit, first_round, first));
        assert(present(commit, second_round, second));
        assert(seen(search, first));
        assert(seen(search, second));
        if leads(levels, first) {
            assert(present(commit, top, first));
        }
        if leads(levels, second) {
            assert(present(commit, top, second));
        }
        assert(search.pushed.contains(first));
        assert(search.pushed.contains(second));
    }
}

/// In a causally closed mapping each certificate stands under its own
/// round, and that round is at most the greatest.
proof fn lemma_closed_rounds(
    levels: Map<u64, Seq<CertificateView>>,
    round: u64,
    certificate: CertificateView,
)
    requires
        rooted(levels),
        causally_closed(levels),
        present(levels, round, certificate),
    ensures
        certificate.round == round,
        round <= top_round(levels.dom()),
        reachable(levels, certificate),
{
    assert(as_sets(levels).contains_key(round));
    assert(as_sets(levels)[round].contains(certificate));
    assert(causal_closure(levels).contains_key(round));
    assert(causal_closure(levels)[round].contains(certificate));
    assert(levels.dom().contains(round));
}

/// A finished search through a causally closed mapping has taken from the
/// buffer whatever a chain of acknowledgements reaches.
proof fn lemma_reached_is_done(
    levels: Map<u64, Seq<CertificateView>>,
    search: Search,
    certificate: CertificateView,
    steps: nat,
)
    requires
        rooted(levels),
        causally_closed(levels),
        consistent(levels, search),
        settled(levels, search),
        search.buffer.len() == 0,
        reachable_in(levels, certificate, steps),
    ensures
        search.done.contains(certificate),
    decreases steps,
{
    if steps == 0 {
        assert(seen(search, certificate));
    } else {
        let via = choose|via: CertificateView|
            reachable_in(levels, via, (steps - 1) as nat) && #[trigger] acknowledges(
                levels,
                via,
                certificate,
            );
        lemma_reached_is_done(levels, search, via, (steps - 1) as nat);
        assert(search.visited.contains(certificate.id));
        let previous = choose|previous: CertificateView| #[trigger]
            search.pushed.contains(previous) && previous.id == certificate.id;
        assert(seen(search, previous));
        assert(acknowledged(levels, previous));
        let other = choose|other: CertificateView|
            occurs(levels, other) && #[trigger] acknowledges(levels, other, previous);
        let other_round = choose|round: u64| #[trigger] present(levels, round, other);
        lemma_closed_rounds(levels, other_round, other);
        assert(reachable(levels, via));
        lemma_reachable_occurs(levels, via);
        let via_round = choose|round: u64| #[trigger] present(levels, round, via);
        lemma_closed_rounds(levels, via_round, via);
        assert(present(levels, (other.round - 1) as u64, previous));
        assert(present(levels, (via.round - 1) as u64, certificate));
        assert(previous == certificate);
    }
}

/// The commit of a finished search through a causally closed mapping equals
/// the mapping.
proof fn lemma_closed_commit_is_equal(levels: Map<u64, Seq<CertificateView>>, search: Search)
    requires
        rooted(levels),
        distinct_ids(level_at(levels, top_round(levels.dom()))),
        causally_closed(levels),
        consistent(levels, search),
        settled(levels, search),
        search.buffer.len() == 0,
    ensures
        as_sets(search.commit) == as_sets(levels),
{
    let commit = search.commit;
    assert forall|round: u64, certificate: CertificateView|
        present(commit, round, certificate) implies present(levels, round, certificate) by {
        assert(seen(search, certificate));
        lemma_reachable_occurs(levels, certificate);
        let at = choose|at: u64| #[trigger] present(levels, at, certificate);
        lemma_closed_rounds(levels, at, certificate);
    }
    assert forall|round: u64, certificate: CertificateView|
        present(levels, round, certificate) implies present(commit, round, certificate) by {
        lemma_closed_rounds(levels, round, certificate);
        let steps = choose|steps: nat| #[trigger] reachable_in(levels, certificate, steps);
        lemma_reached_is_done(levels, search, certificate, steps);
        assert(holds_id(commit[round], certificate.id));
        let i = choose|i: int| 0 <= i < commit[round].len() && #[trigger] commit[round][i].id
            == certificate.id;
        let own = commit[round][i];
        assert(present(commit, round, own));
        assert(present(levels, round, own));
        if round == top_round(levels.dom()) {
            let j = choose|j: int| 0 <= j < levels[round].len() && levels[round][j] == own;
            let k = choose|k: int| 0 <= k < levels[round].len() && levels[round][k] == certificate;
            if j < k {
                assert(levels[round][j].id != levels[round][k].id);
            } else if k < j {
                assert(levels[round][k].id != levels[round][j].id);
            }
        }
        assert(own == certificate);
    }
    let left = as_sets(commit);
    let right = as_sets(levels);
    assert forall|round: u64| left.contains_key(round) == right.contains_key(round) by {
        if commit.contains_key(round) {
            let certificate = commit[round][0];
            assert(present(commit, round, certificate));
            assert(present(levels, round, certificate));
        }
        if levels.contains_key(round) {
            assert(right.contains_key(round));
            assert(causal_closure(levels).contains_key(round));
            let certificate = choose|certificate: CertificateView|
                #[trigger] reachable(levels, certificate) && certificate.round == round;
            assert(causal_closure(levels)[round].contains(certificate));
            assert(right[round].contains(certificate));
            assert(present(levels, round, certificate));
            assert(present(commit, round, certificate));
        }
    }
    assert forall|round: u64| left.contains_key(round) implies left[round] =~= right[round] by {
        assert forall|certificate: CertificateView|
            left[round].contains(certificate) == right[round].contains(certificate) by {
            assert(left[round].contains(certificate) == present(commit, round, certificate));
            assert(right[round].contains(certificate) == present(levels, round, certificate));
        }
    }
    assert(left =~= right);
}

/// The commit of a finished search equals the mapping exactly where the
/// mapping is causally closed.
pub proof fn lemma_search_decides(levels: Map<u64, Seq<CertificateView>>, search: Search)
    requires
        rooted(levels),
        distinct_ids(level_at(levels, top_round(levels.dom()))),
        consistent(levels, search),
        settled(levels, search),
        search.buffer.len() == 0,
    ensures
        (as_sets(search.commit) == as_sets(levels)) == causally_closed(levels),
{
    if as_sets(search.commit) == as_sets(levels) {
        lemma_equal_commit_is_closed(levels, search);
    }
    if causally_closed(levels) {
        lemma_closed_commit_is_equal(levels, search);
    }
}

} // verus!
