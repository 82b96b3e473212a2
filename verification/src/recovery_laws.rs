//! What holds of a recovery coordinator whatever it is told and whatever the resolver answers.
use crate::recovery::{
    lemma_cancelled, lemma_fetched, lemma_filled, lemma_heard, lemma_push, lemma_remove,
    lemma_stopped, CommandView, CoordinatorView, KeyView, Message,
};
use vstd::prelude::*;

verus! {

/// In every state, the keys that are active and the one on its way to the resolver are no more than
/// may be.
pub proof fn law_cap_in_every_state(
    coordinator: CoordinatorView,
    message: Message,
    accepted: bool,
)
    requires
        coordinator.well_formed(),
    ensures
        coordinator.active.len() + coordinator.in_flight() <= coordinator.cap,
        coordinator.asked is None ==> coordinator.told(message).well_formed()
            && coordinator.stopped().well_formed(),
        coordinator.asked is Some ==> coordinator.heard(accepted).well_formed(),
        coordinator.told(message).cap == coordinator.cap,
        coordinator.heard(accepted).cap == coordinator.cap,
        coordinator.stopped().cap == coordinator.cap,
{
    if coordinator.asked is None {
        match message {
            Message::Fetch(key) => {
                lemma_fetched(coordinator, key@);
            },
            Message::Cancel(key) => {
                lemma_cancelled(coordinator, key@);
            },
        }
        lemma_stopped(coordinator);
    } else {
        lemma_heard(coordinator, accepted);
    }
}

/// A key that is requested already is not requested again: nothing changes, and the resolver is
/// asked for nothing. A new key is asked for once, whatever the answer, or waits without the resolver
/// being asked.
pub proof fn law_fetched_once(coordinator: CoordinatorView, key: KeyView, accepted: bool)
    requires
        coordinator.well_formed(),
        coordinator.asked is None,
    ensures
        coordinator.requested(key) ==> coordinator.fetched(key) == coordinator,
        coordinator.fetched(key).requested(key),
        !coordinator.requested(key) && coordinator.active.len() < coordinator.cap
            ==> coordinator.fetched(key).asked == Some(CommandView::Fetch(key))
            && coordinator.fetched(key).queued == coordinator.queued && coordinator.fetched(
            key,
        ).heard(accepted).asked is None,
        !coordinator.requested(key) && coordinator.active.len() == coordinator.cap
            ==> coordinator.fetched(key).asked is None && coordinator.fetched(key).queued
            == coordinator.queued.push(key),
{
    lemma_push(coordinator.queued, key);
}

/// The answer to a fetch decides: a key that the resolver takes is active, and one that it refuses is
/// requested no longer. What was active stays so.
pub proof fn law_answer_decides(coordinator: CoordinatorView, key: KeyView, accepted: bool)
    requires
        coordinator.well_formed(),
        coordinator.asked == Some(CommandView::Fetch(key)),
    ensures
        coordinator.heard(accepted).active == if accepted {
            coordinator.active.insert(key)
        } else {
            coordinator.active
        },
        !accepted ==> !coordinator.heard(accepted).requested(key),
{
    lemma_heard(coordinator, accepted);
    if coordinator.queued.len() > 0 {
        assert(coordinator.queued.contains(coordinator.queued[0]));
        let rest = coordinator.queued.skip(1);
        if rest.contains(key) {
            let i = choose|i: int| 0 <= i < rest.len() && rest[i] == key;
            assert(coordinator.queued[i + 1] == key);
        }
    }
}

/// A discard is answered before a fetch is asked for: canceling an active key asks for nothing but to
/// give it up, and only the answer to that asks for the first key that waits.
pub proof fn law_discard_answered_before_fetch(
    coordinator: CoordinatorView,
    key: KeyView,
    accepted: bool,
)
    requires
        coordinator.well_formed(),
        coordinator.asked is None,
        coordinator.active.contains(key),
    ensures
        coordinator.cancelled(key).asked == Some(CommandView::Discard(set![key])),
        coordinator.cancelled(key).queued == coordinator.queued,
        coordinator.cancelled(key).heard(accepted).asked == if coordinator.queued.len() > 0 {
            Some(CommandView::Fetch(coordinator.queued[0]))
        } else {
            None
        },
{
    assert(!coordinator.queued.contains(key));
}

/// Keys leave the queue in the order in which they came: what an answer asks for next is the first
/// that waits, and the others wait on as before.
pub proof fn law_fifo(coordinator: CoordinatorView, accepted: bool)
    requires
        coordinator.well_formed(),
        coordinator.asked is Some,
    ensures
        match coordinator.heard(accepted).asked {
            Some(CommandView::Fetch(key)) => coordinator.queued.len() > 0 && key
                == coordinator.queued[0] && coordinator.heard(accepted).queued
                == coordinator.queued.skip(1),
            Some(CommandView::Discard(_)) => false,
            None => coordinator.heard(accepted).queued == coordinator.queued,
        },
{
}

/// No slot stays free while a key waits, whatever is requested, canceled or answered.
pub proof fn law_no_idle_slot(coordinator: CoordinatorView, message: Message, accepted: bool)
    requires
        coordinator.well_formed(),
        coordinator.busy(),
    ensures
        coordinator.asked is None ==> coordinator.told(message).busy(),
        coordinator.asked is Some ==> coordinator.heard(accepted).busy(),
{
    law_cap_in_every_state(coordinator, message, accepted);
}

/// Canceling cancels the one key exactly: it is requested no longer, and what else was active or
/// waited still is or does.
pub proof fn law_cancel_exact(coordinator: CoordinatorView, key: KeyView, other: KeyView)
    requires
        coordinator.well_formed(),
        coordinator.asked is None,
        other != key,
    ensures
        !coordinator.cancelled(key).requested(key),
        coordinator.cancelled(key).active.contains(other) == coordinator.active.contains(other),
        coordinator.cancelled(key).queued.contains(other) == coordinator.queued.contains(other),
        !coordinator.requested(key) ==> coordinator.cancelled(key) == coordinator,
{
    if coordinator.queued.contains(key) {
        let index = coordinator.queued.index_of(key);
        assert(coordinator.queued[index] == key);
        lemma_remove(coordinator.queued, index);
    }
}

/// In the end, the resolver is asked once to give up all that is active, and for nothing if nothing
/// is; its answer asks for nothing more.
pub proof fn law_stop_asks_once(coordinator: CoordinatorView, accepted: bool)
    requires
        coordinator.well_formed(),
        coordinator.asked is None,
    ensures
        coordinator.stopped().active == Set::<KeyView>::empty(),
        coordinator.stopped().queued == coordinator.queued,
        coordinator.stopped().asked == if coordinator.active == Set::<KeyView>::empty() {
            None
        } else {
            Some(CommandView::Discard(coordinator.active))
        },
        coordinator.stopped().asked is Some ==> coordinator.stopped().heard(accepted).asked is None,
{
    if coordinator.active.is_empty() {
        assert(coordinator.active =~= Set::empty());
    } else {
        assert(coordinator.active != Set::<KeyView>::empty());
    }
}

/// What a resolver holds once it did what it was asked for, where `accepted` says whether it took it.
pub open spec fn obeyed(held: Set<KeyView>, command: CommandView, accepted: bool) -> Set<KeyView> {
    match command {
        CommandView::Fetch(key) => if accepted {
            held.insert(key)
        } else {
            held
        },
        CommandView::Discard(keys) => held.difference(keys),
    }
}

/// Whether a resolver holds what a coordinator believes: what is active, and what it was asked to
/// give up and has not yet.
pub open spec fn in_step(coordinator: CoordinatorView, held: Set<KeyView>) -> bool {
    match coordinator.asked {
        Some(CommandView::Discard(keys)) => held == coordinator.active.union(keys),
        _ => held == coordinator.active,
    }
}

/// A resolver that does one thing after the other as it is asked holds at no time more keys than may
/// be active, and just those that are whenever nothing is left to answer.
pub proof fn law_resolver_capped(
    coordinator: CoordinatorView,
    held: Set<KeyView>,
    message: Message,
    accepted: bool,
)
    requires
        coordinator.well_formed(),
        in_step(coordinator, held),
    ensures
        held.len() <= coordinator.cap,
        coordinator.asked is None ==> in_step(coordinator.told(message), held) && in_step(
            coordinator.stopped(),
            held,
        ),
        coordinator.asked is Some ==> {
            let next = obeyed(held, coordinator.asked->0, accepted);
            next.len() <= coordinator.cap && in_step(coordinator.heard(accepted), next)
        },
{
    match coordinator.asked {
        None => {
            match message {
                Message::Fetch(_) => {},
                Message::Cancel(key) => {
                    if coordinator.active.contains(key@) {
                        assert(coordinator.active.remove(key@).union(set![key@])
                            =~= coordinator.active);
                    }
                },
            }
            assert(Set::<KeyView>::empty().union(coordinator.active) =~= coordinator.active);
        },
        Some(CommandView::Fetch(_)) => {
            lemma_heard(coordinator, accepted);
        },
        Some(CommandView::Discard(keys)) => {
            lemma_heard(coordinator, accepted);
            vstd::set_lib::lemma_set_disjoint_lens(coordinator.active, keys);
            assert(coordinator.active.union(keys).difference(keys) =~= coordinator.active);
        },
    }
}

/// A coordinator after one answer after the other.
pub open spec fn hears(coordinator: CoordinatorView, answers: Seq<bool>) -> CoordinatorView
    decreases answers.len(),
{
    if answers.len() == 0 {
        coordinator
    } else {
        hears(coordinator, answers.drop_last()).heard(answers.last())
    }
}

/// Whether each of `answers` was asked for.
pub open spec fn answers_all(coordinator: CoordinatorView, answers: Seq<bool>) -> bool
    decreases answers.len(),
{
    answers.len() > 0 ==> answers_all(coordinator, answers.drop_last()) && hears(
        coordinator,
        answers.drop_last(),
    ).asked is Some
}

/// The whole exchange that canceling an active key begins. The discard comes first, and then the keys
/// that waited, from the first on and each once, until no slot is free or none waits; the key that
/// was canceled does not come back.
pub proof fn law_cancel_exchange(coordinator: CoordinatorView, key: KeyView, answers: Seq<bool>)
    requires
        coordinator.well_formed(),
        coordinator.asked is None,
        coordinator.active.contains(key),
        answers_all(coordinator.cancelled(key), answers),
    ensures
        ({
            let after = hears(coordinator.cancelled(key), answers);
            let n = answers.len() as int;
            &&& after.well_formed()
            &&& after.cap == coordinator.cap
            &&& !after.requested(key)
            &&& n <= coordinator.queued.len() + 1
            &&& match after.asked {
                Some(CommandView::Discard(keys)) => n == 0 && keys == set![key] && after.queued
                    == coordinator.queued,
                Some(CommandView::Fetch(next)) => 1 <= n <= coordinator.queued.len() && next
                    == coordinator.queued[n - 1] && after.queued == coordinator.queued.skip(n),
                None => n >= 1 && after.queued == coordinator.queued.skip(n - 1) && (
                after.active.len() == after.cap || after.queued.len() == 0),
            }
            &&& after.asked is Some ==> after.filling
        }),
    decreases answers.len(),
{
    let begun = coordinator.cancelled(key);
    lemma_cancelled(coordinator, key);
    if answers.len() > 0 {
        let before = hears(begun, answers.drop_last());
        law_cancel_exchange(coordinator, key, answers.drop_last());
        lemma_heard(before, answers.last());
        let settled = before.settled(answers.last());
        lemma_filled(settled);
        let n = answers.len() as int;
        assert(settled.queued == coordinator.queued.skip(n - 1)) by {
            assert(coordinator.queued.skip(0) =~= coordinator.queued);
        }
        if settled.queued.len() > 0 {
            assert(settled.queued.skip(1) =~= coordinator.queued.skip(n));
            assert(before.queued.contains(settled.queued[0]));
            let rest = settled.queued.skip(1);
            if rest.contains(key) {
                let i = choose|i: int| 0 <= i < rest.len() && rest[i] == key;
                assert(before.queued[i + 1] == key);
            }
        }
    }
}

/// A list without a key that it has once is all the rest, in its order.
proof fn lemma_remove_is_filter(
    keys: Seq<KeyView>,
    index: int,
    differs: spec_fn(KeyView) -> bool,
)
    requires
        keys.no_duplicates(),
        0 <= index < keys.len(),
        forall|other: KeyView| #[trigger] differs(other) <==> other != keys[index],
    ensures
        keys.remove(index) == keys.filter(differs),
    decreases keys.len(),
{
    let rest = keys.drop_last();
    reveal(Seq::filter);
    if index == keys.len() - 1 {
        assert(keys.remove(index) =~= rest);
        assert forall|i: int| 0 <= i < rest.len() implies differs(#[trigger] rest[i]) by {
            assert(rest[i] == keys[i]);
        }
        lemma_filter_all(rest, differs);
        assert(!differs(keys.last()));
    } else {
        assert(rest.no_duplicates());
        assert(rest[index] == keys[index]);
        lemma_remove_is_filter(rest, index, differs);
        assert(keys.remove(index) =~= rest.remove(index).push(keys.last()));
        assert(differs(keys.last()));
    }
}

/// A filter that all pass leaves all.
proof fn lemma_filter_all(keys: Seq<KeyView>, passes: spec_fn(KeyView) -> bool)
    requires
        forall|i: int| 0 <= i < keys.len() ==> passes(#[trigger] keys[i]),
    ensures
        keys.filter(passes) == keys,
    decreases keys.len(),
{
    reveal(Seq::filter);
    if keys.len() > 0 {
        let rest = keys.drop_last();
        assert forall|i: int| 0 <= i < rest.len() implies passes(#[trigger] rest[i]) by {
            assert(rest[i] == keys[i]);
        }
        lemma_filter_all(rest, passes);
        assert(keys =~= rest.push(keys.last()));
    } else {
        assert(keys.filter(passes) =~= keys);
    }
}

/// Canceling a key that waits takes it out of the queue and leaves all others in their order; nothing
/// else changes, and the resolver is asked for nothing. Canceling one that is active frees its slot,
/// asks the resolver to give up just that, and leaves the queue as it is. Canceling any other changes
/// nothing.
pub proof fn law_cancel_keeps_the_order(coordinator: CoordinatorView, key: KeyView)
    requires
        coordinator.well_formed(),
        coordinator.asked is None,
    ensures
        ({
            let after = coordinator.cancelled(key);
            &&& after.cap == coordinator.cap
            &&& after.queued == coordinator.queued.filter(|other: KeyView| other != key)
            &&& after.active == coordinator.active.remove(key)
            &&& coordinator.active.contains(key) ==> after.asked == Some(
                CommandView::Discard(set![key]),
            ) && after.filling
            &&& !coordinator.active.contains(key) ==> after.asked is None && !after.filling
        }),
{
    let differs = |other: KeyView| other != key;
    if coordinator.queued.contains(key) {
        let index = coordinator.queued.index_of(key);
        assert(coordinator.queued[index] == key);
        lemma_remove_is_filter(coordinator.queued, index, differs);
        assert(coordinator.active.remove(key) =~= coordinator.active);
    } else {
        assert forall|i: int| 0 <= i < coordinator.queued.len() implies differs(
            #[trigger] coordinator.queued[i],
        ) by {
            assert(coordinator.queued.contains(coordinator.queued[i]));
        }
        lemma_filter_all(coordinator.queued, differs);
        if !coordinator.active.contains(key) {
            assert(coordinator.active.remove(key) =~= coordinator.active);
        }
    }
}

/// Of two keys that wait, the one that came first stays first whatever else is canceled.
pub proof fn law_canceling_reorders_nothing(
    coordinator: CoordinatorView,
    key: KeyView,
    i: int,
    j: int,
)
    requires
        coordinator.well_formed(),
        coordinator.asked is None,
        0 <= i < j < coordinator.queued.len(),
        coordinator.queued[i] != key,
        coordinator.queued[j] != key,
    ensures
        exists|k: int, l: int|
            0 <= k < l < coordinator.cancelled(key).queued.len() && #[trigger] coordinator.cancelled(
                key,
            ).queued[k] == coordinator.queued[i] && #[trigger] coordinator.cancelled(key).queued[l]
                == coordinator.queued[j],
{
    let after = coordinator.cancelled(key).queued;
    if coordinator.queued.contains(key) {
        let index = coordinator.queued.index_of(key);
        assert(coordinator.queued[index] == key);
        let k = if i < index {
            i
        } else {
            i - 1
        };
        let l = if j < index {
            j
        } else {
            j - 1
        };
        assert(after[k] == coordinator.queued[i] && after[l] == coordinator.queued[j]);
    } else {
        assert(after[i] == coordinator.queued[i] && after[j] == coordinator.queued[j]);
    }
}

/// A key that is active or waits is not requested again. Any other is asked for if a slot is free, and
/// otherwise waits behind all that wait. Nothing else changes.
pub proof fn law_fetch_asks_or_waits(coordinator: CoordinatorView, key: KeyView)
    requires
        coordinator.well_formed(),
        coordinator.asked is None,
    ensures
        ({
            let known = coordinator.active.contains(key) || coordinator.queued.contains(key);
            let room = coordinator.active.len() < coordinator.cap;
            let after = coordinator.fetched(key);
            &&& after.cap == coordinator.cap
            &&& after.active == coordinator.active
            &&& after.queued == if known || room {
                coordinator.queued
            } else {
                coordinator.queued.push(key)
            }
            &&& after.asked == if !known && room {
                Some(CommandView::Fetch(key))
            } else {
                None
            }
            &&& !after.filling
        }),
{
}

/// A slot that is free is filled with the first key that waits, if one does: it leaves the queue, and
/// the resolver is asked for it. Nothing else changes.
pub proof fn law_fill_takes_the_first(coordinator: CoordinatorView)
    requires
        coordinator.well_formed(),
        coordinator.asked is None,
    ensures
        ({
            let takes = coordinator.active.len() < coordinator.cap && coordinator.queued.len() > 0;
            let after = coordinator.filled();
            &&& after.cap == coordinator.cap
            &&& after.active == coordinator.active
            &&& !takes ==> after == coordinator
            &&& takes ==> {
                &&& after.asked == Some(CommandView::Fetch(coordinator.queued[0]))
                &&& after.filling
                &&& seq![coordinator.queued[0]] + after.queued == coordinator.queued
            }
        }),
{
    if coordinator.queued.len() > 0 {
        assert(seq![coordinator.queued[0]] + coordinator.queued.skip(1) =~= coordinator.queued);
    }
}

/// What an answer does. A key that the resolver took is active, one that it refused is not, and what
/// it says to a discard is ignored. Where slots are being filled, the first key that waits is asked
/// for next as long as a slot is free; otherwise nothing is asked for.
pub proof fn law_answers_settle_and_fill(coordinator: CoordinatorView, accepted: bool)
    requires
        coordinator.well_formed(),
        coordinator.asked is Some,
    ensures
        ({
            let after = coordinator.heard(accepted);
            let active = match coordinator.asked {
                Some(CommandView::Fetch(key)) => if accepted {
                    coordinator.active.insert(key)
                } else {
                    coordinator.active
                },
                _ => coordinator.active,
            };
            let takes = coordinator.filling && active.len() < coordinator.cap
                && coordinator.queued.len() > 0;
            &&& after.cap == coordinator.cap
            &&& after.active == active
            &&& after.filling == takes
            &&& after.asked == if takes {
                Some(CommandView::Fetch(coordinator.queued[0]))
            } else {
                None
            }
            &&& after.queued == if takes {
                coordinator.queued.subrange(1, coordinator.queued.len() as int)
            } else {
                coordinator.queued
            }
        }),
{
    if coordinator.queued.len() > 0 {
        assert(coordinator.queued.skip(1) =~= coordinator.queued.subrange(
            1,
            coordinator.queued.len() as int,
        ));
    }
}

/// A message to fetch fetches its key, and one to cancel cancels it.
pub proof fn law_messages_do_what_they_say(coordinator: CoordinatorView, message: Message)
    ensures
        message matches Message::Fetch(key) ==> coordinator.told(message) == coordinator.fetched(
            key@,
        ),
        message matches Message::Cancel(key) ==> coordinator.told(message)
            == coordinator.cancelled(key@),
{
}

} // verus!
