use crate::certificate::{Certificate, CertificateView};
use crate::certificate_set::{distinct_ids, inserted, CertificateSet};
use crate::closure::causally_closed;
use crate::index_set::{index_set_get_index, index_set_items, index_set_len};
use crate::levels::{
    last_round, lemma_top_round_is_unique, level_at, levels_view, present, same_levels,
};
use crate::rounds::top_round;
use crate::search::{
    consistent, lemma_pass, lemma_schedule, lemma_search_decides, lemma_settle, lemma_start,
    lemma_take, rooted, settled, settled_but, Search,
};
use std::collections::{BTreeMap, HashSet};
use vstd::prelude::*;

verus! {

/// What the certificates of a buffer say, in the order of the buffer.
spec fn buffer_view(buffer: Seq<&Certificate>) -> Seq<CertificateView> {
    buffer.map_values(|certificate: &Certificate| certificate@)
}

/// The state of a search, from what the traversal holds.
spec fn search_of(
    commit: BTreeMap<u64, CertificateSet>,
    buffer: Seq<&Certificate>,
    visited: Set<u64>,
    done: Set<CertificateView>,
    pushed: Set<CertificateView>,
) -> Search {
    Search { commit: levels_view(commit), buffer: buffer_view(buffer), visited, done, pushed }
}

/// A buffer with one more certificate says what it said before, and then
/// what that certificate says.
proof fn lemma_buffer_push(buffer: Seq<&Certificate>, certificate: &Certificate)
    ensures
        buffer_view(buffer.push(certificate)) == buffer_view(buffer).push(certificate@),
{
    assert(buffer_view(buffer.push(certificate)) =~= buffer_view(buffer).push(certificate@));
}

/// A buffer without its last certificate says what it said before, but for
/// the last.
proof fn lemma_buffer_pop(buffer: Seq<&Certificate>)
    requires
        buffer.len() > 0,
    ensures
        buffer_view(buffer.drop_last()) == buffer_view(buffer).drop_last(),
        buffer_view(buffer).last() == buffer.last()@,
{
    assert(buffer_view(buffer.drop_last()) =~= buffer_view(buffer).drop_last());
}

/// Returns the certificates of the greatest round, in their order, and
/// nothing for an empty mapping.
fn leaders<'a>(subdag: &'a BTreeMap<u64, CertificateSet>) -> (buffer: Vec<&'a Certificate>)
    ensures
        rooted(levels_view(*subdag)),
        distinct_ids(level_at(levels_view(*subdag), top_round(levels_view(*subdag).dom()))),
        buffer_view(buffer@) == if levels_view(*subdag).contains_key(
            top_round(levels_view(*subdag).dom()),
        ) {
            levels_view(*subdag)[top_round(levels_view(*subdag).dom())]
        } else {
            Seq::<CertificateView>::empty()
        },
{
    let ghost levels = levels_view(*subdag);
    assert(levels.dom() =~= subdag@.dom());
    let mut buffer: Vec<&'a Certificate> = Vec::new();
    match last_round(subdag) {
        Some(round) => {
            proof {
                lemma_top_round_is_unique(subdag@.dom(), round);
            }
            match subdag.get(&round) {
                Some(level) => {
                    proof {
                        use_type_invariant(level);
                        level.lemma_distinct_ids();
                    }
                    let mut index: usize = 0;
                    while index < level.len()
                        invariant
                            index <= level@.len(),
                            buffer_view(buffer@) == level@.take(index as int),
                        decreases level@.len() - index,
                    {
                        match level.get_index(index) {
                            Some(certificate) => {
                                let ghost before = buffer@;
                                buffer.push(certificate);
                                proof {
                                    lemma_buffer_push(before, certificate);
                                    assert(level@.take(index as int).push(level@[index as int])
                                        =~= level@.take(index + 1));
                                }
                            },
                            None => {},
                        }
                        index += 1;
                    }
                    assert(level@.take(index as int) =~= level@);
                },
                None => {},
            }
        },
        None => {
            assert(buffer_view(buffer@) =~= Seq::<CertificateView>::empty());
        },
    }
    buffer
}

/// Inserts a copy of the certificate under its own round, which the commit
/// gets where it had none; the certificate is not inserted where that round
/// holds its identifier already.
fn commit_certificate(commit: &mut BTreeMap<u64, CertificateSet>, certificate: &Certificate)
    ensures
        levels_view(*final(commit)) == levels_view(*old(commit)).insert(
            certificate@.round,
            inserted(level_at(levels_view(*old(commit)), certificate@.round), certificate@),
        ),
{
    let ghost before = *commit;
    let round = certificate.round();
    let mut level = match commit.remove(&round) {
        Some(level) => level,
        None => CertificateSet::new(),
    };
    assert(level@ == level_at(levels_view(before), round));
    assert(commit@ == before@.remove(round));
    level.insert(certificate.clone());
    let ghost grown = level;
    commit.insert(round, level);
    proof {
        assert(commit@ =~= before@.insert(round, grown));
        assert(levels_view(*commit) =~= levels_view(before).insert(round, grown@));
    }
}

/// Returns `true` if the DFS traversal using the given subdag structure
/// matches the commit.
///
/// The traversal starts from the certificates of the greatest round and
/// follows the identifiers of predecessors into the round below, scheduling
/// each identifier once. What it commits equals the mapping exactly where
/// the mapping is causally closed.
pub fn sanity_check_subdag_with_dfs(subdag: &BTreeMap<u64, CertificateSet>) -> (matches: bool)
    ensures
        matches == causally_closed(levels_view(*subdag)),
{
    let ghost levels = levels_view(*subdag);
    // Initialize a map for the certificates to commit.
    let mut commit: BTreeMap<u64, CertificateSet> = BTreeMap::new();
    // Initialize a set for the already ordered certificates.
    let mut already_ordered: HashSet<u64> = HashSet::new();
    // Initialize a buffer for the certificates to order, starting with the leader certificate.
    let mut buffer: Vec<&Certificate> = leaders(subdag);
    let ghost mut done: Set<CertificateView> = Set::empty();
    let ghost mut pushed: Set<CertificateView> = Set::empty();
    proof {
        assert(levels_view(commit) =~= Map::<u64, Seq<CertificateView>>::empty());
        lemma_start(levels, search_of(commit, buffer@, already_ordered@, done, pushed));
    }
    // Iterate over the certificates to order. Each step takes one from the buffer, and each one
    // put into the buffer marks an identifier that was not marked before: so the steps end.
    while buffer.len() > 0
        invariant
            levels == levels_view(*subdag),
            consistent(levels, search_of(commit, buffer@, already_ordered@, done, pushed)),
            settled(levels, search_of(commit, buffer@, already_ordered@, done, pushed)),
            already_ordered@.finite(),
            already_ordered@.len() <= usize::MAX,
        decreases usize::MAX - already_ordered@.len() + buffer@.len(),
    {
        let ghost before = search_of(commit, buffer@, already_ordered@, done, pushed);
        let ghost waiting = buffer@;
        let certificate = buffer.pop().unwrap();
        // Insert the certificate into the map.
        commit_certificate(&mut commit, certificate);
        proof {
            done = done.insert(certificate@);
            lemma_buffer_pop(waiting);
            lemma_take(
                levels,
                before,
                search_of(commit, buffer@, already_ordered@, done, pushed),
                certificate@,
                level_at(before.commit, certificate@.round),
            );
        }
        let ghost mut handled: Set<u64> = Set::empty();
        let round = certificate.round();
        let previous_level = if round >= 1 {
            subdag.get(&(round - 1))
        } else {
            None
        };
        match previous_level {
            Some(previous_level) => {
                let previous_ids = certificate.previous_ids();
                let count = index_set_len(previous_ids);
                let ghost base = already_ordered@.len() - buffer@.len();
                let mut index: usize = 0;
                // Iterate over the previous certificate IDs.
                while index < count
                    invariant
                        levels == levels_view(*subdag),
                        round == certificate@.round,
                        round >= 1,
                        subdag@.contains_key((round - 1) as u64),
                        *previous_level == subdag@[(round - 1) as u64],
                        index_set_items(*previous_ids).to_set() == certificate@.previous_ids,
                        count == index_set_items(*previous_ids).len(),
                        index <= count,
                        done.contains(certificate@),
                        consistent(
                            levels,
                            search_of(commit, buffer@, already_ordered@, done, pushed),
                        ),
                        settled_but(
                            levels,
                            search_of(commit, buffer@, already_ordered@, done, pushed),
                            certificate@,
                            handled,
                        ),
                        forall|i: int|
                            0 <= i < index ==> handled.contains(
                                #[trigger] index_set_items(*previous_ids)[i],
                            ),
                        already_ordered@.finite(),
                        already_ordered@.len() <= usize::MAX,
                        already_ordered@.len() - buffer@.len() == base,
                    decreases count - index,
                {
                    let ghost search = search_of(commit, buffer@, already_ordered@, done, pushed);
                    match index_set_get_index(previous_ids, index) {
                        Some(previous_certificate_id) => {
                            match previous_level.get(previous_certificate_id) {
                                Some(previous_certificate) => {
                                    // Insert the previous certificate into the set of already ordered certificates.
                                    let ghost marked = already_ordered@;
                                    let ghost waiting = buffer@;
                                    if already_ordered.insert(previous_certificate_id) {
                                        // Insert the previous certificate into the buffer.
                                        buffer.push(previous_certificate);
                                        proof {
                                            assert(already_ordered@.len() == already_ordered.len());
                                            assert(marked.finite());
                                            assert(!marked.contains(previous_certificate_id));
                                            assert(already_ordered@ == marked.insert(
                                                previous_certificate_id,
                                            ));
                                            assert(already_ordered@.len() == marked.len() + 1);
                                            pushed = pushed.insert(previous_certificate@);
                                            lemma_buffer_push(waiting, previous_certificate);
                                            assert(present(
                                                levels,
                                                (round - 1) as u64,
                                                previous_certificate@,
                                            ));
                                            assert(certificate@.previous_ids.contains(
                                                previous_certificate_id,
                                            ));
                                            lemma_schedule(
                                                levels,
                                                search,
                                                search_of(
                                                    commit,
                                                    buffer@,
                                                    already_ordered@,
                                                    done,
                                                    pushed,
                                                ),
                                                certificate@,
                                                handled,
                                                previous_certificate@,
                                            );
                                            handled = handled.insert(previous_certificate_id);
                                        }
                                    } else {
                                        // If the previous certificate is already ordered, continue.
                                        proof {
                                            assert(already_ordered@ =~= marked);
                                            lemma_pass(
                                                levels,
                                                search,
                                                certificate@,
                                                handled,
                                                previous_certificate_id,
                                            );
                                            handled = handled.insert(previous_certificate_id);
                                        }
                                    }
                                },
                                None => {
                                    // It is either ordered or below the GC round.
                                    proof {
                                        lemma_pass(
                                            levels,
                                            search,
                                            certificate@,
                                            handled,
                                            previous_certificate_id,
                                        );
                                        handled = handled.insert(previous_certificate_id);
                                    }
                                },
                            }
                        },
                        None => {},
                    }
                    index += 1;
                }
                proof {
                    assert(certificate@.previous_ids.subset_of(handled));
                    lemma_settle(
                        levels,
                        search_of(commit, buffer@, already_ordered@, done, pushed),
                        certificate@,
                        handled,
                    );
                }
            },
            None => {
                proof {
                    lemma_settle(
                        levels,
                        search_of(commit, buffer@, already_ordered@, done, pushed),
                        certificate@,
                        handled,
                    );
                }
            },
        }
    }
    proof {
        assert(buffer_view(buffer@).len() == 0);
        lemma_search_decides(levels, search_of(commit, buffer@, already_ordered@, done, pushed));
    }
    // Return `true` if the subdag matches the commit.
    same_levels(&commit, subdag)
}

} // verus!
