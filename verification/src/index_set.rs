use indexmap::IndexSet;
use vstd::prelude::*;

verus! {

/// `indexmap::IndexSet`, an insertion-ordered hash set. Its inside is not
/// visible to the verifier; what it holds is named by [`index_set_items`].
#[verifier::external_type_specification]
#[verifier::external_body]
#[verifier::reject_recursive_types(T)]
#[verifier::reject_recursive_types(S)]
pub struct ExIndexSet<T, S>(IndexSet<T, S>);

/// The identifiers that a set holds, in insertion order.
pub uninterp spec fn index_set_items(set: IndexSet<u64>) -> Seq<u64>;

/// `IndexSet::new`: a set that holds nothing.
#[verifier::external_body]
pub(crate) fn index_set_new() -> (set: IndexSet<u64>)
    ensures
        index_set_items(set) == Seq::<u64>::empty(),
{
    IndexSet::new()
}

/// `IndexSet::len`: the number of items held.
#[verifier::external_body]
pub(crate) fn index_set_len(set: &IndexSet<u64>) -> (len: usize)
    ensures
        len == index_set_items(*set).len(),
{
    set.len()
}

/// `IndexSet::insert`: an item that the set does not hold yet is appended
/// and `true` comes back; for one that it holds, the set stays as it was
/// and `false` comes back.
#[verifier::external_body]
pub(crate) fn index_set_insert(set: &mut IndexSet<u64>, value: u64) -> (fresh: bool)
    ensures
        fresh == !index_set_items(*old(set)).contains(value),
        index_set_items(*final(set)) == if fresh {
            index_set_items(*old(set)).push(value)
        } else {
            index_set_items(*old(set))
        },
{
    set.insert(value)
}

/// `IndexSet::get_index`: the item at a position that the set has, and
/// nothing for one at or past its length.
#[verifier::external_body]
pub(crate) fn index_set_get_index(set: &IndexSet<u64>, index: usize) -> (item: Option<u64>)
    ensures
        match item {
            Some(value) => index < index_set_items(*set).len() && value == index_set_items(
                *set,
            )[index as int],
            None => index >= index_set_items(*set).len(),
        },
{
    set.get_index(index).copied()
}

/// `IndexSet::get_index_of`: a position at which the set holds the item,
/// and nothing where it does not hold it.
#[verifier::external_body]
pub(crate) fn index_set_get_index_of(set: &IndexSet<u64>, value: u64) -> (position: Option<usize>)
    ensures
        match position {
            Some(index) => index < index_set_items(*set).len() && index_set_items(
                *set,
            )[index as int] == value,
            None => !index_set_items(*set).contains(value),
        },
{
    set.get_index_of(&value)
}

/// `IndexSet::clone`: a set with the same items in the same order.
#[verifier::external_body]
pub(crate) fn index_set_clone(set: &IndexSet<u64>) -> (copy: IndexSet<u64>)
    ensures
        index_set_items(copy) == index_set_items(*set),
{
    set.clone()
}

} // verus!
