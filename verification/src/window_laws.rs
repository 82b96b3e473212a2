//! What taking in a certificate is for: the frontier moves over what is certified, and every position
//! that enters the window is made live and asked for.
use crate::action::{requests, ActionView, EngineOutcome};
use crate::journal::JournalError;
use crate::model::{
    held_from, lemma_advanced, lemma_closed, lemma_filled, lemma_next_gap, EngineView, PendingView,
};
use crate::types::{AckView, CertificateView, Height};
use vstd::prelude::*;

verus! {

/// Whether a position of `before` is certified ahead of the frontier, once the one of `certificate`
/// is.
pub open spec fn certified_with(
    before: EngineView,
    certificate: CertificateView,
    position: u64,
) -> bool {
    position == certificate.item.position.0 || before.confirmed.contains_key(position)
}

/// Whether `after` lives where a full window of `before` does: at every position from the frontier
/// on, as many as the window has and none past the range, that is not certified. What was live there
/// stays as it is, and what is new has no digest and no acknowledgement, and is asked for.
pub open spec fn fills(before: EngineView, after: EngineView) -> bool {
    &&& forall|position: u64| #[trigger]
        after.pending.contains_key(position) <==> {
            &&& !after.complete
            &&& after.frontier <= position <= after.config.last.0
            &&& position < after.frontier + after.config.window
            &&& !after.confirmed.contains_key(position)
        }
    &&& forall|position: u64| #[trigger]
        after.pending.contains_key(position) ==> after.pending[position]
            == if before.pending.contains_key(position) {
            before.pending[position]
        } else {
            PendingView::Unverified(Map::empty())
        }
    &&& forall|position: u64| #[trigger]
        after.requested.contains(position) <==> after.pending.contains_key(position) && (
        before.requested.contains(position) || !before.pending.contains_key(position))
}

/// Whether `after` has made the progress that a certificate brings `before`: the frontier passes just
/// what is certified from it on, and what is certified beyond it is held.
pub open spec fn advances(
    before: EngineView,
    certificate: CertificateView,
    after: EngineView,
) -> bool {
    let last = before.config.last.0;
    &&& after.config == before.config
    &&& before.frontier <= after.frontier <= last
    &&& forall|position: u64|
        before.frontier <= position < after.frontier ==> #[trigger] certified_with(
            before,
            certificate,
            position,
        )
    &&& after.frontier < last ==> !certified_with(before, certificate, after.frontier)
    &&& after.complete <==> before.complete || (after.frontier == last && certified_with(
        before,
        certificate,
        last,
    ))
    &&& forall|position: u64| #[trigger]
        after.confirmed.contains_key(position) <==> after.frontier < position && certified_with(
            before,
            certificate,
            position,
        )
    &&& forall|position: u64| #[trigger]
        after.confirmed.contains_key(position) ==> after.confirmed[position] == if position
            == certificate.item.position.0 {
            certificate
        } else {
            before.confirmed[position]
        }
}

/// Whether `after` is what `before` turns into with a certificate: it has made progress, its window
/// is filled, and the position of the certificate is not due for a broadcast.
pub open spec fn moved_on(
    before: EngineView,
    certificate: CertificateView,
    after: EngineView,
) -> bool {
    &&& advances(before, certificate, after)
    &&& fills(before, after)
    &&& after.deadlines == before.deadlines.remove(certificate.item.position.0)
}

/// Whether `actions` are what is to be done about a certificate: it is appended to the section of its
/// position, that section is synced, and then it is reported; if the digest of its position was asked
/// for, that is given up; and each position that becomes live is asked for once, the lowest first.
pub open spec fn carries_out(
    before: EngineView,
    certificate: CertificateView,
    after: EngineView,
    actions: Seq<ActionView>,
) -> bool {
    let position = certificate.item.position;
    let section = (position.0 / before.config.journal_heights_per_section) as u64;
    let asked = if before.requested.contains(position.0) {
        4int
    } else {
        3
    };
    &&& actions.len() >= asked
    &&& actions[0] == (ActionView::Append { section, certificate })
    &&& actions[1] == (ActionView::Sync { section })
    &&& actions[2] == ActionView::Report(certificate)
    &&& before.requested.contains(position.0) ==> actions[3] == ActionView::AbortDigest(position)
    &&& asks_for_new(before, after, actions.skip(asked))
}

/// Whether `actions` ask for the digest of each position that is live in `after` and was not in
/// `before`: each once, the lowest first, and for nothing else.
pub open spec fn asks_for_new(
    before: EngineView,
    after: EngineView,
    actions: Seq<ActionView>,
) -> bool {
    &&& forall|i: int| 0 <= i < actions.len() ==> #[trigger] actions[i] is RequestDigest
    &&& forall|i: int, j: int|
        0 <= i < j < actions.len() ==> asked_height(#[trigger] actions[i]) < asked_height(
            #[trigger] actions[j],
        )
    &&& forall|height: Height| #[trigger]
        actions.contains(ActionView::RequestDigest(height)) <==> after.pending.contains_key(
            height.0,
        ) && !before.pending.contains_key(height.0)
}

/// The position whose digest an action asks for, if it asks for one.
pub open spec fn asked_height(action: ActionView) -> u64 {
    match action {
        ActionView::RequestDigest(height) => height.0,
        _ => 0,
    }
}

/// What is vacant, from the lowest on.
proof fn lemma_vacant_exact(engine: EngineView, from: int, to: int)
    requires
        0 <= from,
        to <= u64::MAX,
    ensures
        ({
            let vacant = engine.vacant(from, to);
            &&& forall|i: int, j: int|
                0 <= i < j < vacant.len() ==> (#[trigger] vacant[i]).0 < (#[trigger] vacant[j]).0
            &&& forall|i: int|
                0 <= i < vacant.len() ==> from <= (#[trigger] vacant[i]).0 <= to
                    && !engine.pending.contains_key(vacant[i].0) && !engine.confirmed.contains_key(
                    vacant[i].0,
                )
            &&& forall|height: Height|
                from <= height.0 <= to && !engine.pending.contains_key(height.0)
                    && !engine.confirmed.contains_key(height.0) ==> #[trigger] vacant.contains(height)
        }),
    decreases to - from + 1,
{
    let vacant = engine.vacant(from, to);
    if from <= to {
        lemma_vacant_exact(engine, from + 1, to);
        let rest = engine.vacant(from + 1, to);
        let occupied = engine.occupied(from as u64);
        assert forall|height: Height|
            from <= height.0 <= to && !engine.pending.contains_key(height.0)
                && !engine.confirmed.contains_key(height.0) implies #[trigger] vacant.contains(
            height,
        ) by {
            if height.0 == from {
                assert(!occupied);
                assert(vacant[0] == height);
            } else {
                assert(rest.contains(height));
                let i = choose|i: int| 0 <= i < rest.len() && rest[i] == height;
                if occupied {
                    assert(vacant[i] == height);
                } else {
                    assert(vacant[i + 1] == height);
                }
            }
        }
        if !occupied {
            assert forall|i: int| 0 < i < vacant.len() implies vacant[i] == rest[i - 1] by {}
        }
    }
}

/// Asking for what is vacant asks for what becomes live.
proof fn lemma_asks(before: EngineView, after: EngineView, openings: Seq<Height>)
    requires
        forall|i: int, j: int|
            0 <= i < j < openings.len() ==> (#[trigger] openings[i]).0 < (#[trigger] openings[j]).0,
        forall|height: Height| #[trigger]
            openings.contains(height) <==> after.pending.contains_key(height.0)
                && !before.pending.contains_key(height.0),
    ensures
        asks_for_new(before, after, requests(openings)),
{
    let actions = requests(openings);
    assert forall|height: Height| #[trigger]
        actions.contains(ActionView::RequestDigest(height)) <==> openings.contains(height) by {
        if actions.contains(ActionView::RequestDigest(height)) {
            let i = choose|i: int|
                0 <= i < actions.len() && actions[i] == ActionView::RequestDigest(height);
            assert(openings[i] == height);
        }
        if openings.contains(height) {
            let i = choose|i: int| 0 <= i < openings.len() && openings[i] == height;
            assert(actions[i] == ActionView::RequestDigest(height));
        }
    }
    assert forall|i: int, j: int| 0 <= i < j < actions.len() implies asked_height(
        #[trigger] actions[i],
    ) < asked_height(#[trigger] actions[j]) by {
        assert(openings[i].0 < openings[j].0);
    }
}

/// A window is filled completely: every position in it that is neither live nor certified becomes
/// live, and is among the openings, once and in order. Nothing else changes.
pub proof fn law_every_vacancy_is_opened(engine: EngineView)
    requires
        engine.well_formed(),
    ensures
        engine.filled().config == engine.config,
        engine.filled().frontier == engine.frontier,
        engine.filled().complete == engine.complete,
        engine.filled().confirmed == engine.confirmed,
        engine.filled().deadlines == engine.deadlines,
        fills(engine, engine.filled()),
        forall|i: int, j: int|
            0 <= i < j < engine.openings().len() ==> (#[trigger] engine.openings()[i]).0 < (
            #[trigger] engine.openings()[j]).0,
        forall|height: Height| #[trigger]
            engine.openings().contains(height) <==> engine.filled().pending.contains_key(height.0)
                && !engine.pending.contains_key(height.0),
        asks_for_new(engine, engine.filled(), requests(engine.openings())),
{
    let filled = engine.filled();
    let openings = engine.openings();
    lemma_filled(engine);
    lemma_vacant_exact(engine, engine.frontier as int, engine.window_end());
    if engine.complete {
        assert(engine.pending.dom() =~= Set::<u64>::empty());
        assert forall|position: u64| !(#[trigger] engine.pending.contains_key(position)) by {
            assert(!engine.pending.dom().contains(position));
        }
    } else {
        assert forall|position: u64| #[trigger] engine.pending.contains_key(position) implies
            engine.in_window(position) by {}
    }
    assert forall|height: Height| #[trigger] openings.contains(height)
        <==> filled.pending.contains_key(height.0) && !engine.pending.contains_key(height.0) by {
        if openings.contains(height) {
            let i = choose|i: int| 0 <= i < openings.len() && openings[i] == height;
            assert(!engine.occupied(openings[i].0));
        }
    }
    lemma_asks(engine, filled, openings);
}

/// What an engine does when it begins: it asks for the digest of each position that becomes live, and
/// if everything is certified already it syncs its journal and stops as completed.
pub proof fn law_beginning_asks_for_the_window(engine: EngineView)
    requires
        engine.well_formed(),
    ensures
        engine.complete ==> requests(engine.openings()) + engine.closing() == seq![
            ActionView::SyncAll,
            ActionView::Stop(EngineOutcome::Completed),
        ],
        !engine.complete ==> asks_for_new(
            engine,
            engine.filled(),
            requests(engine.openings()) + engine.closing(),
        ),
{
    law_every_vacancy_is_opened(engine);
    if engine.complete {
        assert(requests(engine.openings()) + engine.closing() =~= seq![
            ActionView::SyncAll,
            ActionView::Stop(EngineOutcome::Completed),
        ]);
    } else {
        assert(requests(engine.openings()) + engine.closing() =~= requests(engine.openings()));
    }
}

/// A new engine has all of its range before it, and nothing else.
pub proof fn law_new_engine_has_all_before_it(config: crate::config::Config)
    ensures
        EngineView::fresh(config).config == config,
        EngineView::fresh(config).frontier == config.first.0,
        !EngineView::fresh(config).complete,
        EngineView::fresh(config).requested == Set::<u64>::empty(),
        EngineView::fresh(config).pending == Map::<u64, PendingView>::empty(),
        EngineView::fresh(config).confirmed == Map::<u64, CertificateView>::empty(),
        EngineView::fresh(config).deadlines == Map::<u64, u128>::empty(),
{
}

/// A certificate is taken in just where it is of the engine's epoch, of a position from the frontier
/// to the end of the range, and no certificate of that position is held. The frontier then passes all
/// that is certified, the window is filled behind it, the certificate is made durable and reported,
/// and each position that enters the window is asked for. Any other certificate changes nothing.
#[verifier::spinoff_prover]
#[verifier::rlimit(60)]
pub proof fn law_certificate_moves_the_window(engine: EngineView, certificate: CertificateView)
    requires
        engine.well_formed(),
    ensures
        engine.accepts(certificate) <==> {
            &&& certificate.epoch == engine.config.epoch
            &&& engine.frontier <= certificate.item.position.0 <= engine.config.last.0
            &&& !engine.confirmed.contains_key(certificate.item.position.0)
        },
        engine.accepts(certificate) ==> moved_on(
            engine,
            certificate,
            engine.accepted(certificate),
        ) && carries_out(
            engine,
            certificate,
            engine.accepted(certificate),
            engine.accept_actions(certificate),
        ),
        !engine.accepts(certificate) ==> engine.accepted(certificate) == engine
            && engine.accept_actions(certificate) == Seq::<ActionView>::empty(),
{
    if engine.accepts(certificate) {
        lemma_moved_on(engine, certificate);
        let position = certificate.item.position.0;
        let closed = engine.closed(position);
        let advanced = closed.advanced(certificate);
        let after = advanced.filled();
        let actions = engine.accept_actions(certificate);
        lemma_closed(engine, position);
        lemma_advanced(closed, certificate);
        law_every_vacancy_is_opened(advanced);
        let asked = if engine.requested.contains(position) {
            4int
        } else {
            3
        };
        assert(actions.skip(asked) =~= requests(advanced.openings()));
        assert forall|height: Height| #[trigger] advanced.openings().contains(height)
            <==> after.pending.contains_key(height.0) && !engine.pending.contains_key(
            height.0,
        ) by {
            if height.0 == position {
                assert(!after.pending.contains_key(position));
            } else {
                assert(advanced.pending.contains_key(height.0) == engine.pending.contains_key(
                    height.0,
                ));
            }
        }
        lemma_asks(engine, after, advanced.openings());
    }
}

/// What an engine turns into with a certificate.
#[verifier::spinoff_prover]
#[verifier::rlimit(60)]
proof fn lemma_moved_on(engine: EngineView, certificate: CertificateView)
    requires
        engine.well_formed(),
        engine.accepts(certificate),
    ensures
        moved_on(engine, certificate, engine.accepted(certificate)),
        !engine.accepted(certificate).pending.contains_key(certificate.item.position.0),
{
    let position = certificate.item.position.0;
    let closed = engine.closed(position);
    let held = closed.confirmed.insert(position, certificate);
    let advanced = closed.advanced(certificate);
    let after = engine.accepted(certificate);
    let last = engine.config.last.0;
    lemma_closed(engine, position);
    lemma_advanced(closed, certificate);
    lemma_next_gap(held, engine.frontier, last);
    law_every_vacancy_is_opened(advanced);
    assert(after == advanced.filled());
    assert forall|other: u64| held.contains_key(other) == #[trigger] certified_with(
        engine,
        certificate,
        other,
    ) by {}
    assert forall|other: u64| #[trigger] after.confirmed.contains_key(other) <==> after.frontier
        < other && certified_with(engine, certificate, other) by {
        assert(held_from(held, after.frontier + 1).contains_key(other) == (held.contains_key(other)
            && after.frontier + 1 <= other));
    }
    assert(certified_with(engine, certificate, last) == held.contains_key(last));
    assert(certified_with(engine, certificate, after.frontier) == held.contains_key(after.frontier));
    assert(!after.pending.contains_key(position)) by {
        if after.pending.contains_key(position) {
            assert(after.frontier <= position);
            assert(!after.confirmed.contains_key(position));
            assert(certified_with(engine, certificate, position));
            assert(after.frontier == position);
            assert(held.contains_key(after.frontier));
            assert(after.complete);
        }
    }
    assert forall|other: u64| #[trigger] after.pending.contains_key(other) implies
        after.pending[other] == if engine.pending.contains_key(other) {
        engine.pending[other]
    } else {
        PendingView::Unverified(Map::<u32, AckView>::empty())
    } by {
        assert(other != position);
        assert(advanced.pending.contains_key(other) == engine.pending.contains_key(other));
    }
    assert forall|other: u64| #[trigger] after.requested.contains(other)
        <==> after.pending.contains_key(other) && (engine.requested.contains(other)
        || !engine.pending.contains_key(other)) by {
        if other != position {
            assert(advanced.pending.contains_key(other) == engine.pending.contains_key(other));
            assert(advanced.requested.contains(other) == engine.requested.contains(other));
        }
    }
}

/// Why a certificate from the journal is refused: for its epoch, for its range, for its proof, or
/// because one of another digest is held, in this order and for nothing else. One that is not refused
/// brings the progress that it stands for, unless the frontier is past it; nothing else changes.
#[verifier::spinoff_prover]
pub proof fn law_replay_restores_progress(
    engine: EngineView,
    certificate: CertificateView,
    verified: bool,
)
    requires
        engine.well_formed(),
    ensures
        ({
            let position = certificate.item.position.0;
            let epoch = certificate.epoch == engine.config.epoch;
            let range = engine.config.first.0 <= position <= engine.config.last.0;
            let conflict = engine.confirmed.contains_key(position)
                && engine.confirmed[position].item.digest != certificate.item.digest;
            let error = engine.replay_error(certificate, verified);
            let after = engine.after_replay(certificate, verified);
            &&& error == Some(JournalError::CertificateEpoch) <==> !epoch
            &&& error == Some(JournalError::CertificateRange) <==> epoch && !range
            &&& error == Some(JournalError::CertificateSignature) <==> epoch && range && !verified
            &&& error == Some(JournalError::CertificateConflict) <==> epoch && range && verified
                && conflict
            &&& error is None <==> epoch && range && verified && !conflict
            &&& engine.replay_refusal(certificate) is None <==> epoch && range
            &&& engine.replay_refusal(certificate) is Some ==> engine.replay_refusal(certificate)
                == error
            &&& engine.conflicts(certificate) <==> epoch && range && conflict
            &&& after.pending == engine.pending
            &&& after.requested == engine.requested
            &&& after.deadlines == engine.deadlines
            &&& error is Some || position < engine.frontier ==> after == engine
            &&& error is None && position >= engine.frontier ==> advances(
                engine,
                certificate,
                after,
            )
        }),
{
    let position = certificate.item.position.0;
    let after = engine.after_replay(certificate, verified);
    let last = engine.config.last.0;
    let held = engine.confirmed.insert(position, certificate);
    if engine.replay_error(certificate, verified) is None && position >= engine.frontier {
        lemma_next_gap(held, engine.frontier, last);
        assert forall|other: u64| held.contains_key(other) == #[trigger] certified_with(
            engine,
            certificate,
            other,
        ) by {}
        assert forall|other: u64| #[trigger] after.confirmed.contains_key(other) <==> after.frontier
            < other && certified_with(engine, certificate, other) by {
            assert(held_from(held, after.frontier + 1).contains_key(other) == (held.contains_key(
                other,
            ) && after.frontier + 1 <= other));
        }
        assert(certified_with(engine, certificate, last) == held.contains_key(last));
        assert(certified_with(engine, certificate, after.frontier) == held.contains_key(
            after.frontier,
        ));
    }
}

} // verus!
