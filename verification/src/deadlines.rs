//! The deadlines by which acknowledgements are broadcast again.
//!
//! Deadlines are kept in a `commonware_utils::PrioritySet` whose items are positions and whose
//! priorities are points in time, in nanoseconds.
use commonware_utils::PrioritySet;
use core::hash::Hash;
use vstd::prelude::*;

verus! {

/// The type `commonware_utils::PrioritySet`.
#[verifier::external_type_specification]
#[verifier::external_body]
#[verifier::reject_recursive_types(I)]
#[verifier::reject_recursive_types(P)]
pub struct ExPrioritySet<I: Ord + Hash + Clone, P: Ord + Copy>(PrioritySet<I, P>);

/// The contents of a `PrioritySet`: the priority of each item it holds.
pub uninterp spec fn priorities(queue: PrioritySet<u64, u128>) -> Map<u64, u128>;

/// Whether `item` comes first: no item has a lower priority, and those that have the same one are
/// not below it.
pub open spec fn comes_first(contents: Map<u64, u128>, item: u64) -> bool {
    &&& contents.contains_key(item)
    &&& forall|other: u64| #[trigger]
        contents.contains_key(other) ==> contents[item] < contents[other] || (contents[item]
            == contents[other] && item <= other)
}

/// The item that comes first.
pub open spec fn first_item(contents: Map<u64, u128>) -> u64 {
    choose|item: u64| comes_first(contents, item)
}

/// At most one item comes first.
pub proof fn lemma_first_item(contents: Map<u64, u128>, item: u64)
    requires
        comes_first(contents, item),
    ensures
        first_item(contents) == item,
{
    let chosen = first_item(contents);
    assert(comes_first(contents, chosen));
    assert(contents.contains_key(item) && contents.contains_key(chosen));
}

/// Calls `PrioritySet::new`, which makes a set that holds nothing.
#[verifier::external_body]
pub(crate) fn empty() -> (queue: PrioritySet<u64, u128>)
    ensures
        (priorities(queue) == Map::<u64, u128>::empty()),
{
    PrioritySet::new()
}

/// Calls `PrioritySet::put`, which adds an item, or replaces the priority of one that is held.
#[verifier::external_body]
pub(crate) fn put(queue: &mut PrioritySet<u64, u128>, item: u64, priority: u128)
    ensures
        priorities(*final(queue)) == priorities(*old(queue)).insert(item, priority),
{
    queue.put(item, priority);
}

/// Calls `PrioritySet::remove`, which takes an item out and says whether it was held.
#[verifier::external_body]
pub(crate) fn remove(queue: &mut PrioritySet<u64, u128>, item: u64) -> (held: bool)
    ensures
        held == priorities(*old(queue)).contains_key(item),
        priorities(*final(queue)) == priorities(*old(queue)).remove(item),
{
    queue.remove(&item)
}

/// Calls `PrioritySet::peek`, which reads the item with the lowest priority, the lowest item among
/// equals, and finds none only in an empty set.
#[verifier::external_body]
pub(crate) fn peek(queue: &PrioritySet<u64, u128>) -> (first: Option<(u64, u128)>)
    ensures
        match first {
            Some((item, priority)) => comes_first(priorities(*queue), item) && priority
                == priorities(*queue)[item],
            None => priorities(*queue).is_empty(),
        },
{
    queue.peek().map(|(item, priority)| (*item, *priority))
}

/// Calls `PrioritySet::pop`, which takes out the item that `PrioritySet::peek` reads.
#[verifier::external_body]
pub(crate) fn pop(queue: &mut PrioritySet<u64, u128>) -> (first: Option<(u64, u128)>)
    ensures
        match first {
            Some((item, priority)) => comes_first(priorities(*old(queue)), item) && priority
                == priorities(*old(queue))[item] && priorities(*final(queue)) == priorities(
                *old(queue),
            ).remove(item),
            None => priorities(*old(queue)).is_empty() && priorities(*final(queue)) == priorities(
                *old(queue),
            ),
        },
{
    queue.pop()
}

} // verus!
