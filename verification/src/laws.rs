//! What holds of an aggregation engine whatever happens to it.
use crate::action::{ActionView, CertificateOutcome, EngineOutcome};
use crate::config::Config;
use crate::deadlines::{comes_first, first_item};
use crate::event::{Answers, EventView};
use crate::model::{
    lemma_accepted, lemma_advanced, lemma_closed, lemma_completes, lemma_next_gap, lemma_proposed,
    lemma_scheduled, lemma_with_ack, with_share, EngineView,
};
use crate::shares::{shares_of, signers_of};
use crate::types::{AckView, CertificateView, Height, ItemView, Participant};
use vstd::prelude::*;

verus! {

impl EngineView {
    /// The certificate that an event leads to, if it leads to one.
    pub open spec fn gained(self, event: EventView, answers: Answers) -> Option<CertificateView> {
        match event {
            EventView::Ack { ack, peer, signer } if self.ack_error(
                ack,
                peer,
                signer,
                answers.verified,
            ) is None && self.completes(ack) => Some(self.certificate(ack.item, answers.proof)),
            EventView::DigestReady { position, digest, now } if answers.signed is Some
                && self.awaits(position.0) && self.signing(position, digest, now).completes(
                Self::own_ack(position, digest, answers.signed->0),
            ) => Some(self.certificate(ItemView { position, digest }, answers.proof)),
            EventView::Certificate(certificate) if self.outcome(certificate, answers.verified)
                == CertificateOutcome::Accepted => Some(certificate),
            _ => None,
        }
    }

    /// With a digest proposed at a position, and its acknowledgement scheduled.
    pub open spec fn signing(self, position: Height, digest: Seq<u8>, now: u128) -> EngineView {
        self.answered(position.0).proposed(position.0, digest).scheduled(position.0, now)
    }

    /// After an event, but before the certificate that it leads to.
    pub open spec fn before_gain(self, event: EventView, answers: Answers) -> EngineView {
        match event {
            EventView::Ack { ack, peer, signer } => if self.ack_error(
                ack,
                peer,
                signer,
                answers.verified,
            ) is None {
                self.with_ack(ack)
            } else {
                self
            },
            EventView::DigestDeclined { position } => self.answered(position.0),
            EventView::DigestReady { position, digest, now } => if answers.signed is Some
                && self.awaits(position.0) {
                self.signing(position, digest, now).with_ack(
                    Self::own_ack(position, digest, answers.signed->0),
                )
            } else {
                self.answered(position.0).proposed(position.0, digest)
            },
            EventView::Deadline { now } => self.popped().after_rebroadcast(
                first_item(self.deadlines),
                now,
            ),
            _ => self,
        }
    }

    /// Whether two engines agree on what is certified and which positions are live.
    pub open spec fn alike(self, other: EngineView) -> bool {
        &&& self.config == other.config
        &&& self.frontier == other.frontier
        &&& self.complete == other.complete
        &&& self.confirmed == other.confirmed
        &&& self.pending.dom() == other.pending.dom()
    }
}

/// An event does its part, and then takes in the certificate that it leads to. Only certificates of
/// live positions are taken in.
pub proof fn lemma_step(engine: EngineView, event: EventView, answers: Answers)
    requires
        engine.well_formed(),
        engine.possible(event),
    ensures
        engine.before_gain(event, answers).well_formed(),
        engine.before_gain(event, answers).alike(engine),
        match engine.gained(event, answers) {
            Some(certificate) => engine.before_gain(event, answers).accepts(certificate)
                && engine.pending.contains_key(certificate.position()) && engine.step(
                event,
                answers,
            ) == engine.before_gain(event, answers).accepted(certificate),
            None => engine.step(event, answers) == engine.before_gain(event, answers),
        },
        engine.step(event, answers).well_formed(),
{
    let base = engine.before_gain(event, answers);
    match event {
        EventView::Ack { ack, peer, signer } => {
            lemma_with_ack(engine, ack);
            if engine.ack_error(ack, peer, signer, answers.verified) is None {
                assert(engine.counts(ack));
                lemma_completes(engine, ack, answers.proof);
                assert(engine.with_ack(ack).pending.dom() =~= engine.pending.dom());
            }
        },
        EventView::DigestReady { position, digest, now } => {
            let answered = engine.answered(position.0);
            lemma_proposed(answered, position.0, digest);
            let proposed = answered.proposed(position.0, digest);
            assert(proposed.pending.dom() =~= engine.pending.dom());
            if answers.signed is Some && engine.awaits(position.0) {
                let ack = EngineView::own_ack(position, digest, answers.signed->0);
                let scheduled = proposed.scheduled(position.0, now);
                lemma_scheduled(proposed, position.0, now);
                assert(scheduled.counts(ack));
                lemma_with_ack(scheduled, ack);
                lemma_completes(scheduled, ack, answers.proof);
                assert(scheduled.with_ack(ack).pending.dom() =~= engine.pending.dom());
            }
        },
        EventView::Deadline { now } => {
            let position = first_item(engine.deadlines);
            assert(engine.popped().well_formed());
            if engine.popped().local_ack(position) is Some {
                lemma_scheduled(engine.popped(), position, now);
            }
        },
        EventView::Certificate(certificate) => {
            if engine.gained(event, answers) is Some {
                assert(engine.in_window(certificate.position()));
            }
        },
        _ => {},
    }
    if engine.gained(event, answers) is Some {
        lemma_accepted(base, engine.gained(event, answers)->0);
    }
}

/// Whatever happens, an engine stays well formed and keeps its configuration, and what is certified
/// stays so. An event certifies at most the position of the certificate that it leads to.
pub proof fn law_progress_is_kept(engine: EngineView, event: EventView, answers: Answers)
    requires
        engine.well_formed(),
        engine.possible(event),
    ensures
        engine.step(event, answers).well_formed(),
        engine.step(event, answers).config == engine.config,
        engine.step(event, answers).certified() == match engine.gained(event, answers) {
            Some(certificate) => engine.certified().insert(certificate.position()),
            None => engine.certified(),
        },
        engine.step(event, answers).frontier >= engine.frontier,
        engine.complete ==> engine.step(event, answers).complete,
{
    lemma_step(engine, event, answers);
    let base = engine.before_gain(event, answers);
    assert(base.certified() =~= engine.certified());
    if engine.gained(event, answers) is Some {
        let certificate = engine.gained(event, answers)->0;
        lemma_accepted(base, certificate);
        lemma_closed(base, certificate.position());
        lemma_advanced(base.closed(certificate.position()), certificate);
    }
}

/// The frontier is the lowest position that is not certified, as long as there is one.
pub proof fn law_frontier_is_lowest_uncertified(engine: EngineView, position: u64)
    requires
        engine.well_formed(),
    ensures
        engine.certified().contains(position) ==> engine.config.first.0 <= position
            <= engine.config.last.0,
        engine.config.first.0 <= position < engine.frontier ==> engine.certified().contains(
            position,
        ),
        !engine.complete ==> !engine.certified().contains(engine.frontier),
{
}

/// An engine is complete if and only if every position of its range is certified.
pub proof fn law_complete_iff_all_certified(engine: EngineView)
    requires
        engine.well_formed(),
    ensures
        engine.complete <==> forall|position: u64|
            engine.config.first.0 <= position <= engine.config.last.0 ==> #[trigger]
                engine.certified().contains(position),
{
    if !engine.complete {
        assert(!engine.certified().contains(engine.frontier));
    }
}

/// The positions from `from` to `to`.
pub open spec fn span(from: u64, to: int) -> Set<u64> {
    Set::new(|position: u64| from <= position <= to)
}

/// How many positions there are from `from` to `to`.
proof fn lemma_span(from: u64, to: int)
    requires
        from <= to + 1,
        to <= u64::MAX,
    ensures
        span(from, to).finite(),
        span(from, to).len() == to - from + 1,
    decreases to - from + 1,
{
    if to < from {
        assert(span(from, to) =~= Set::empty());
    } else {
        lemma_span(from, to - 1);
        assert(span(from, to) =~= span(from, to - 1).insert(to as u64));
    }
}

impl EngineView {
    /// Every certificate held is of a position in the window.
    pub open spec fn bounded(self) -> bool {
        forall|position: u64| #[trigger]
            self.confirmed.contains_key(position) ==> self.in_window(position)
    }

    /// Every position in the window is live or certified.
    pub open spec fn covered(self) -> bool {
        !self.complete ==> forall|position: u64|
            self.in_window(position) ==> #[trigger] self.occupied(position)
    }
}

/// An engine whose certificates lie in its window holds no more positions than the window has: those
/// that are live and those that are certified ahead of the frontier together.
pub proof fn law_window_limits_positions(engine: EngineView)
    requires
        engine.well_formed(),
        engine.bounded(),
    ensures
        engine.pending.dom().finite(),
        engine.confirmed.dom().finite(),
        engine.pending.dom().len() + engine.confirmed.dom().len() <= engine.config.window,
{
    let live = engine.pending.dom();
    let held = engine.confirmed.dom();
    let window = span(engine.frontier, engine.window_end());
    lemma_span(engine.frontier, engine.window_end());
    assert(live.subset_of(window));
    assert(held.subset_of(window));
    vstd::set_lib::lemma_set_subset_finite(window, live);
    vstd::set_lib::lemma_set_subset_finite(window, held);
    assert(live.disjoint(held));
    vstd::set_lib::lemma_set_disjoint_lens(live, held);
    assert((live + held).subset_of(window));
    vstd::set_lib::lemma_len_subset(live + held, window);
}

/// The window of an engine that has begun is live or certified, and stays so whatever happens. An
/// engine that holds no certificate beyond its window never does.
pub proof fn law_window_follows_frontier(engine: EngineView, event: EventView, answers: Answers)
    requires
        engine.well_formed(),
        engine.possible(event),
    ensures
        engine.filled().covered(),
        engine.covered() ==> engine.step(event, answers).covered(),
        engine.bounded() ==> engine.filled().bounded(),
        engine.bounded() ==> engine.step(event, answers).bounded(),
{
    lemma_step(engine, event, answers);
    lemma_covered(engine);
    let base = engine.before_gain(event, answers);
    match engine.gained(event, answers) {
        Some(certificate) => {
            let position = certificate.position();
            let closed = base.closed(position);
            lemma_closed(base, position);
            lemma_advanced(closed, certificate);
            let advanced = closed.advanced(certificate);
            lemma_covered(advanced);
            if engine.bounded() {
                assert forall|other: u64| #[trigger] advanced.confirmed.contains_key(other) implies
                    advanced.in_window(other) by {
                    let held = closed.confirmed.insert(position, certificate);
                    assert(held.contains_key(other));
                    assert(engine.in_window(position));
                    if other != position {
                        assert(engine.confirmed.contains_key(other));
                    }
                }
            }
        },
        None => {
            assert forall|position: u64| engine.occupied(position) implies base.occupied(
                position,
            ) by {
                assert(base.pending.dom().contains(position) == engine.pending.dom().contains(
                    position,
                ));
            }
            assert forall|position: u64| base.occupied(position) implies engine.occupied(
                position,
            ) by {
                assert(base.pending.dom().contains(position) == engine.pending.dom().contains(
                    position,
                ));
            }
        },
    }
}

/// Filling a window covers it.
proof fn lemma_covered(engine: EngineView)
    requires
        engine.well_formed(),
    ensures
        engine.filled().covered(),
        engine.bounded() ==> engine.filled().bounded(),
{
    if !engine.complete {
        let filled = engine.filled();
        assert forall|position: u64| filled.in_window(position) implies filled.occupied(
            position,
        ) by {
            assert(filled.pending.contains_key(position) || engine.occupied(position));
        }
    }
}

impl EngineView {
    /// What is to be done about an event before the certificate that it leads to is taken in.
    pub open spec fn prologue(self, event: EventView, answers: Answers) -> Seq<ActionView> {
        match event {
            EventView::Undecodable => seq![ActionView::Block],
            EventView::Ack { ack, peer, signer } => match self.ack_error(
                ack,
                peer,
                signer,
                answers.verified,
            ) {
                Some(error) if error.blockable() => seq![ActionView::Block],
                _ => Seq::empty(),
            },
            EventView::DigestReady { position, digest, .. } => if answers.signed is Some
                && self.awaits(position.0) {
                seq![self.broadcast(Self::own_ack(position, digest, answers.signed->0))]
            } else {
                Seq::empty()
            },
            EventView::Deadline { .. } => self.popped().rebroadcast_actions(
                first_item(self.deadlines),
            ),
            _ => Seq::empty(),
        }
    }

    /// What is to be done about the certificate that an event leads to.
    pub open spec fn gain_actions(self, event: EventView, answers: Answers) -> Seq<ActionView> {
        match self.gained(event, answers) {
            Some(certificate) => self.before_gain(event, answers).accept_actions(certificate),
            None => Seq::empty(),
        }
    }

    /// What is to be done about an event in the end.
    pub open spec fn epilogue(self, event: EventView, answers: Answers) -> Seq<ActionView> {
        match event {
            EventView::Certificate(certificate) => seq![
                ActionView::Reply(self.outcome(certificate, answers.verified)),
            ],
            _ => Seq::empty(),
        }
    }
}

/// The order of what is to be done about an event.
pub proof fn lemma_reactions(engine: EngineView, event: EventView, answers: Answers)
    requires
        engine.well_formed(),
        engine.possible(event),
    ensures
        engine.reactions(event, answers) == engine.prologue(event, answers) + engine.gain_actions(
            event,
            answers,
        ) + engine.epilogue(event, answers),
{
    lemma_step(engine, event, answers);
    assert(engine.reactions(event, answers) =~= engine.prologue(event, answers)
        + engine.gain_actions(event, answers) + engine.epilogue(event, answers));
}

/// Where an action stands among what is to be done about an event: what a certificate leads to comes
/// in one piece.
proof fn lemma_action_place(engine: EngineView, event: EventView, answers: Answers, i: int)
    requires
        engine.well_formed(),
        engine.possible(event),
        0 <= i < engine.step_actions(event, answers).len(),
        !(event is Shutdown || event is ReceiverFailed),
    ensures
        ({
            let actions = engine.step_actions(event, answers);
            let pre = engine.prologue(event, answers);
            let gain = engine.gain_actions(event, answers);
            let post = engine.epilogue(event, answers);
            let end = engine.step(event, answers).closing();
            let g = pre.len() as int;
            let h = g + gain.len();
            let e = h + post.len();
            &&& i < g ==> actions[i] == pre[i]
            &&& forall|j: int|
                #![trigger actions[j]]
                g <= j < h ==> actions[j] == gain[j - g]
            &&& h <= i < e ==> actions[i] == post[i - h]
            &&& e <= i ==> actions[i] == end[i - e] && i - e < end.len()
        }),
{
    lemma_reactions(engine, event, answers);
}

/// A certificate is reported only after it was appended to the journal and synced there. It is of
/// the engine's epoch, and of a position that was not certified before and is now.
pub proof fn law_reported_after_sync(
    engine: EngineView,
    event: EventView,
    answers: Answers,
    certificate: CertificateView,
    i: int,
)
    requires
        engine.well_formed(),
        engine.possible(event),
        0 <= i < engine.step_actions(event, answers).len(),
        engine.step_actions(event, answers)[i] == ActionView::Report(certificate),
    ensures
        i >= 2,
        engine.step_actions(event, answers)[i - 2] == (ActionView::Append {
            section: engine.section(certificate.position()),
            certificate,
        }),
        engine.step_actions(event, answers)[i - 1] == (ActionView::Sync {
            section: engine.section(certificate.position()),
        }),
        certificate.epoch == engine.config.epoch,
        engine.pending.contains_key(certificate.position()),
        !engine.certified().contains(certificate.position()),
        engine.step(event, answers).certified().contains(certificate.position()),
{
    lemma_action_place(engine, event, answers, i);
    lemma_step(engine, event, answers);
    law_progress_is_kept(engine, event, answers);
    let actions = engine.step_actions(event, answers);
    let g = engine.prologue(event, answers).len() as int;
    let gain = engine.gain_actions(event, answers);
    assert(g <= i < g + gain.len());
    let gained = engine.gained(event, answers)->0;
    let opened = engine.before_gain(event, answers).closed(gained.position()).advanced(
        gained,
    ).openings();
    assert(gain[i - g] == ActionView::Report(certificate));
    assert(gain[0] is Append && gain[1] is Sync);
    assert(i - g == 2) by {
        if i - g > 2 {
            let tail = i - g - 3;
            assert(gain[i - g] is AbortDigest || gain[i - g] is RequestDigest);
        }
    }
    assert(actions[i - 2] == gain[0]);
    assert(actions[i - 1] == gain[1]);
    assert(engine.in_window(gained.position()));
}

/// What an event appends to the journal is what it certifies.
pub proof fn law_journal_covers_certified(engine: EngineView, event: EventView, answers: Answers)
    requires
        engine.well_formed(),
        engine.possible(event),
    ensures
        forall|position: u64| #[trigger]
            engine.step(event, answers).certified().contains(position)
                <==> engine.certified().contains(position) || exists|i: int|
                0 <= i < engine.step_actions(event, answers).len() && #[trigger] appends(
                    engine.step_actions(event, answers)[i],
                    position,
                ),
{
    law_progress_is_kept(engine, event, answers);
    let actions = engine.step_actions(event, answers);
    assert forall|position: u64| #[trigger]
        engine.step(event, answers).certified().contains(position) implies
        engine.certified().contains(position) || exists|i: int|
        0 <= i < actions.len() && #[trigger] appends(actions[i], position) by {
        if !engine.certified().contains(position) {
            let g = engine.prologue(event, answers).len() as int;
            let gain = engine.gain_actions(event, answers);
            lemma_step(engine, event, answers);
            lemma_reactions(engine, event, answers);
            assert(gain[0] is Append);
            assert(actions[g] == gain[0]);
            assert(appends(actions[g], position));
        }
    }
    assert forall|position: u64|
        (exists|i: int| 0 <= i < actions.len() && #[trigger] appends(actions[i], position)) implies
        #[trigger] engine.step(event, answers).certified().contains(position) by {
        let i = choose|i: int| 0 <= i < actions.len() && #[trigger] appends(actions[i], position);
        lemma_action_place(engine, event, answers, i);
        lemma_step(engine, event, answers);
        let g = engine.prologue(event, answers).len() as int;
        let gain = engine.gain_actions(event, answers);
        assert(g <= i < g + gain.len());
        assert(gain[i - g] is Append);
        assert(i - g == 0) by {
            if i - g > 2 {
                assert(gain[i - g] is AbortDigest || gain[i - g] is RequestDigest);
            }
        }
    }
}

/// Whether an action appends the certificate of a position to the journal.
pub open spec fn appends(action: ActionView, position: u64) -> bool {
    action matches ActionView::Append { certificate, .. } && certificate.position() == position
}

/// An engine stops as completed if every position is certified, and as stopped only if not all are
/// and it is told to shut down or can receive no more. All of the journal is synced before.
pub proof fn law_stops_when_complete(
    engine: EngineView,
    event: EventView,
    answers: Answers,
    outcome: EngineOutcome,
    i: int,
)
    requires
        engine.well_formed(),
        engine.possible(event),
        0 <= i < engine.step_actions(event, answers).len(),
        engine.step_actions(event, answers)[i] == ActionView::Stop(outcome),
    ensures
        i + 1 == engine.step_actions(event, answers).len(),
        i >= 1,
        engine.step_actions(event, answers)[i - 1] is SyncAll,
        outcome == EngineOutcome::Completed <==> engine.step(event, answers).complete,
        outcome == EngineOutcome::Stopped ==> event is Shutdown || event is ReceiverFailed,
{
    if !(event is Shutdown || event is ReceiverFailed) {
        lemma_action_place(engine, event, answers, i);
        lemma_reactions(engine, event, answers);
        lemma_step(engine, event, answers);
        let g = engine.prologue(event, answers).len() as int;
        let gain = engine.gain_actions(event, answers);
        let h = g + gain.len();
        if g <= i < h {
            if i - g > 2 {
                assert(gain[i - g] is AbortDigest || gain[i - g] is RequestDigest);
            }
        }
        let e = h + engine.epilogue(event, answers).len();
        assert(i - e == 1);
        assert(engine.step_actions(event, answers)[i - 1] == engine.step(
            event,
            answers,
        ).closing()[0]);
    }
}

/// The positions that are vacant.
proof fn lemma_vacant(engine: EngineView, from: int, to: int, i: int)
    requires
        0 <= from,
        to <= u64::MAX,
        0 <= i < engine.vacant(from, to).len(),
    ensures
        from <= engine.vacant(from, to)[i].0 <= to,
        !engine.occupied(engine.vacant(from, to)[i].0),
    decreases to - from + 1,
{
    if from <= to {
        if engine.occupied(from as u64) {
            lemma_vacant(engine, from + 1, to, i);
        } else if i > 0 {
            lemma_vacant(engine, from + 1, to, i - 1);
        }
    }
}

/// A digest is requested only for a position that was neither live nor certified. The position is
/// live from then on, so none is requested twice.
pub proof fn law_requested_once(
    engine: EngineView,
    event: EventView,
    answers: Answers,
    position: Height,
    i: int,
)
    requires
        engine.well_formed(),
        engine.possible(event),
        0 <= i < engine.step_actions(event, answers).len(),
        engine.step_actions(event, answers)[i] == ActionView::RequestDigest(position),
    ensures
        !engine.occupied(position.0),
        !engine.certified().contains(position.0),
        engine.step(event, answers).requested.contains(position.0),
        engine.step(event, answers).awaits(position.0),
{
    lemma_action_place(engine, event, answers, i);
    lemma_step(engine, event, answers);
    let g = engine.prologue(event, answers).len() as int;
    let gain = engine.gain_actions(event, answers);
    assert(g <= i < g + gain.len());
    let base = engine.before_gain(event, answers);
    let certificate = engine.gained(event, answers)->0;
    let closed = base.closed(certificate.position());
    let advanced = closed.advanced(certificate);
    lemma_closed(base, certificate.position());
    lemma_advanced(closed, certificate);
    let openings = advanced.openings();
    let k = i - g - (if base.requested.contains(certificate.position()) {
        4int
    } else {
        3
    });
    assert(0 <= k < openings.len() && openings[k] == position) by {
        assert(gain[i - g] == ActionView::RequestDigest(position));
    }
    lemma_vacant(advanced, advanced.frontier as int, advanced.window_end(), k);
    let held = closed.confirmed.insert(certificate.position(), certificate);
    lemma_next_gap(held, closed.frontier, closed.config.last.0);
    assert(!held.contains_key(position.0)) by {
        if held.contains_key(position.0) {
            assert(advanced.confirmed.contains_key(position.0) == (advanced.frontier < position.0));
        }
    }
    assert(!closed.pending.contains_key(position.0));
    assert(!engine.pending.dom().contains(position.0));
}

/// A position that the application declined is not acknowledged by this engine, and its digest is
/// not requested again: it stays as it is until a certificate of it comes.
pub proof fn law_declined_stays_unsigned(
    engine: EngineView,
    event: EventView,
    answers: Answers,
    position: Height,
)
    requires
        engine.well_formed(),
        engine.possible(event),
        engine.declined(position.0),
        !(event matches EventView::DigestReady { position: other, .. } && other == position),
    ensures
        engine.step(event, answers).declined(position.0) || engine.step(
            event,
            answers,
        ).certified().contains(position.0),
        forall|i: int|
            0 <= i < engine.step_actions(event, answers).len() ==> !speaks_of(
                #[trigger] engine.step_actions(event, answers)[i],
                position,
            ),
{
    lemma_step(engine, event, answers);
    law_progress_is_kept(engine, event, answers);
    let base = engine.before_gain(event, answers);
    assert(base.declined(position.0));
    let actions = engine.step_actions(event, answers);
    assert forall|i: int| 0 <= i < actions.len() implies !speaks_of(
        #[trigger] actions[i],
        position,
    ) by {
        if speaks_of(actions[i], position) {
            lemma_action_place(engine, event, answers, i);
            if actions[i] is RequestDigest {
                law_requested_once(engine, event, answers, position, i);
            } else {
                let g = engine.prologue(event, answers).len() as int;
                let gain = engine.gain_actions(event, answers);
                if g <= i < g + gain.len() {
                    if i - g > 2 {
                        assert(gain[i - g] is AbortDigest || gain[i - g] is RequestDigest);
                    }
                }
                assert(i < g);
                if event is Deadline {
                    let due = first_item(engine.deadlines);
                    assert(engine.pending[due].consistent(due));
                }
            }
        }
    }
}

impl EngineView {
    /// Whether a position is live, has no digest, and none was asked for.
    pub open spec fn declined(self, position: u64) -> bool {
        self.awaits(position) && !self.requested.contains(position)
    }
}

/// Whether an action requests the digest at a position or acknowledges one there.
pub open spec fn speaks_of(action: ActionView, position: Height) -> bool {
    match action {
        ActionView::RequestDigest(other) => other == position,
        ActionView::Broadcast { ack, .. } => ack.item.position == position,
        _ => false,
    }
}

/// What was certified once is not certified again: after a certificate of a position was accepted,
/// no other of that position is, and one of the same epoch is ignored.
pub proof fn law_certificate_accepted_once(
    engine: EngineView,
    certificate: CertificateView,
    other: CertificateView,
    verified: bool,
)
    requires
        engine.well_formed(),
        engine.outcome(certificate, true) == CertificateOutcome::Accepted,
        other.epoch == certificate.epoch,
        other.position() == certificate.position(),
    ensures
        engine.after_certificate(certificate, true).outcome(other, verified)
            == CertificateOutcome::Ignored,
{
    let position = certificate.position();
    let after = engine.accepted(certificate);
    assert(engine.in_window(position));
    lemma_accepted(engine, certificate);
    assert(after.certified().contains(position));
    if after.pending.contains_key(position) {
        assert(after.in_window(position));
    }
}

/// An acknowledgement is held only if it came from the participant that signed it, its signature
/// verifies, and nothing is held of that participant at the position.
pub proof fn law_acks_come_from_their_signers(
    engine: EngineView,
    ack: AckView,
    peer: Seq<char>,
    signer: Option<Participant>,
    answers: Answers,
)
    requires
        engine.step(EventView::Ack { ack, peer, signer }, answers) != engine,
    ensures
        signer == Some(ack.attestation.signer),
        answers.verified,
        engine.counts(ack),
        !engine.pending[ack.item.position.0].shares().contains_key(ack.attestation.signer.0),
{
}

impl EngineView {
    /// At a position, no item has a quorum of the acknowledgements held.
    pub open spec fn settled_at(self, position: u64) -> bool {
        &&& self.pending[position].shares().dom().finite()
        &&& forall|digest: Seq<u8>|
            (#[trigger] signers_of(self.pending[position].shares(), digest)).len()
                < self.config.quorum()
    }

    /// No live position has a quorum of the acknowledgements held.
    pub open spec fn settled(self) -> bool {
        forall|position: u64| #[trigger]
            self.pending.contains_key(position) ==> self.settled_at(position)
    }

    /// No other live position has a quorum of the acknowledgements held.
    pub open spec fn settled_but(self, except: u64) -> bool {
        forall|position: u64| #[trigger]
            self.pending.contains_key(position) && position != except ==> self.settled_at(position)
    }
}

/// Positions that are made live have no quorum.
proof fn lemma_settled_filled(engine: EngineView)
    requires
        engine.well_formed(),
        engine.settled(),
    ensures
        engine.filled().settled(),
{
    let filled = engine.filled();
    assert forall|position: u64| #[trigger] filled.pending.contains_key(position) implies
        filled.settled_at(position) by {
        if engine.pending.contains_key(position) {
            assert(engine.settled_at(position));
        } else {
            let shares = filled.pending[position].shares();
            assert forall|digest: Seq<u8>|
                (#[trigger] signers_of(shares, digest)).len() < filled.config.quorum() by {
                assert(signers_of(shares, digest) =~= Set::empty());
            }
        }
    }
}

/// Accepting the certificate of a position leaves no quorum elsewhere.
proof fn lemma_settled_accepted(engine: EngineView, certificate: CertificateView)
    requires
        engine.well_formed(),
        engine.accepts(certificate),
        engine.settled_but(certificate.position()),
    ensures
        engine.accepted(certificate).settled(),
{
    let closed = engine.closed(certificate.position());
    lemma_closed(engine, certificate.position());
    lemma_advanced(closed, certificate);
    let advanced = closed.advanced(certificate);
    assert forall|position: u64| #[trigger] advanced.pending.contains_key(position) implies
        advanced.settled_at(position) by {
        assert(engine.settled_at(position));
    }
    lemma_settled_filled(advanced);
}

/// An acknowledgement that completes no quorum leaves none, and one that does leaves none elsewhere.
proof fn lemma_settled_ack(engine: EngineView, ack: AckView)
    requires
        engine.well_formed(),
        engine.settled(),
    ensures
        engine.with_ack(ack).settled_but(ack.item.position.0),
        !engine.completes(ack) ==> engine.with_ack(ack).settled(),
{
    let position = ack.item.position.0;
    let after = engine.with_ack(ack);
    if engine.counts(ack) {
        let before = engine.pending[position].shares();
        let shares = with_share(before, ack);
        assert(engine.settled_at(position));
        assert(after.pending[position].shares() == shares);
        assert forall|other: u64| #[trigger] after.pending.contains_key(other) && other
            != position implies after.settled_at(other) by {
            assert(engine.settled_at(other));
        }
        if !engine.completes(ack) {
            assert forall|digest: Seq<u8>|
                (#[trigger] signers_of(shares, digest)).len() < engine.config.quorum() by {
                if digest != ack.item.digest {
                    assert(signers_of(shares, digest) =~= signers_of(before, digest));
                }
            }
            assert(after.settled_at(position));
        }
    }
}

/// Dropping acknowledgements makes no quorum.
proof fn lemma_settled_proposed(engine: EngineView, position: u64, digest: Seq<u8>)
    requires
        engine.well_formed(),
        engine.settled(),
    ensures
        engine.proposed(position, digest).settled(),
{
    let after = engine.proposed(position, digest);
    assert forall|other: u64| #[trigger] after.pending.contains_key(other) implies after.settled_at(
        other,
    ) by {
        assert(engine.settled_at(other));
        if other == position && engine.awaits(position) {
            let before = engine.pending[position].shares();
            let shares = shares_of(before, digest);
            assert(shares.dom().subset_of(before.dom()));
            vstd::set_lib::lemma_set_subset_finite(before.dom(), shares.dom());
            assert forall|value: Seq<u8>|
                (#[trigger] signers_of(shares, value)).len() < engine.config.quorum() by {
                assert(signers_of(shares, value).subset_of(signers_of(before, value)));
                assert(signers_of(before, value).subset_of(before.dom()));
                vstd::set_lib::lemma_set_subset_finite(before.dom(), signers_of(before, value));
                vstd::set_lib::lemma_len_subset(
                    signers_of(shares, value),
                    signers_of(before, value),
                );
            }
        }
    }
}

/// A quorum never waits: once a quorum acknowledged an item, its position is certified by the same
/// event. In an engine that began without one, no live position ever has a quorum.
pub proof fn law_no_quorum_waits(engine: EngineView, event: EventView, answers: Answers)
    requires
        engine.well_formed(),
        engine.possible(event),
        engine.settled(),
    ensures
        engine.filled().settled(),
        engine.step(event, answers).settled(),
{
    lemma_settled_filled(engine);
    lemma_step(engine, event, answers);
    let base = engine.before_gain(event, answers);
    match event {
        EventView::Ack { ack, .. } => {
            lemma_settled_ack(engine, ack);
        },
        EventView::DigestReady { position, digest, now } => {
            let answered = engine.answered(position.0);
            assert forall|other: u64| #[trigger] answered.pending.contains_key(other) implies
                answered.settled_at(other) by {
                assert(engine.settled_at(other));
            }
            lemma_proposed(answered, position.0, digest);
            lemma_settled_proposed(answered, position.0, digest);
            if answers.signed is Some && engine.awaits(position.0) {
                let proposed = answered.proposed(position.0, digest);
                let scheduled = proposed.scheduled(position.0, now);
                lemma_scheduled(proposed, position.0, now);
                assert forall|other: u64| #[trigger] scheduled.pending.contains_key(other) implies
                    scheduled.settled_at(other) by {
                    assert(proposed.settled_at(other));
                }
                lemma_settled_ack(
                    scheduled,
                    EngineView::own_ack(position, digest, answers.signed->0),
                );
            }
        },
        _ => {
            assert forall|other: u64| #[trigger] base.pending.contains_key(other) implies
                base.settled_at(other) by {
                assert(engine.settled_at(other));
            }
        },
    }
    if engine.gained(event, answers) is Some {
        lemma_settled_accepted(base, engine.gained(event, answers)->0);
    }
}

impl EngineView {
    /// Whether the signing scheme signs as the participant that this node is configured to be.
    pub open spec fn signs_as_configured(self, event: EventView, answers: Answers) -> bool {
        event is DigestReady && self.config.me is Some ==> answers.signed is Some
            && answers.signed->0.signer == self.config.me->0
    }

    /// Where this node signs, every position with a digest has its acknowledgement, and a time at
    /// which that is broadcast again.
    pub open spec fn timed(self) -> bool {
        self.config.me is Some ==> forall|position: u64| #[trigger]
            self.pending.contains_key(position) && self.pending[position] is Verified
                ==> self.deadlines.contains_key(position) && self.local_ack(position) is Some
    }
}

/// Every acknowledgement of this node is broadcast again and again until its position is certified:
/// as long as the position is live, there is a time for the next broadcast, and when the time of the
/// first has come it is broadcast.
pub proof fn law_rebroadcast_until_certified(
    engine: EngineView,
    event: EventView,
    answers: Answers,
)
    requires
        engine.well_formed(),
        engine.possible(event),
        engine.signs_as_configured(event, answers),
        engine.timed(),
    ensures
        engine.filled().timed(),
        engine.step(event, answers).timed(),
        event is Deadline && engine.config.me is Some ==> ({
            let position = first_item(engine.deadlines);
            &&& engine.local_ack(position) is Some
            &&& engine.step_actions(event, answers) == seq![
                engine.broadcast(engine.local_ack(position)->0),
            ]
        }),
{
    lemma_step(engine, event, answers);
    let base = engine.before_gain(event, answers);
    if engine.config.me is Some {
        let me = engine.config.me.unwrap().0;
        if event is Deadline {
            let due = first_item(engine.deadlines);
            lemma_first_deadline(engine);
            assert(engine.local_ack(due) is Some);
            assert(engine.popped().local_ack(due) == engine.local_ack(due));
            assert(engine.step_actions(event, answers) =~= seq![
                engine.broadcast(engine.local_ack(due)->0),
            ]);
        }
        assert forall|position: u64| #[trigger]
            base.pending.contains_key(position) && base.pending[position] is Verified implies
            base.deadlines.contains_key(position) && base.local_ack(position) is Some by {
            assert(engine.pending.dom().contains(position));
            match event {
                EventView::DigestReady { position: ready, .. } => {
                    if ready.0 == position {
                        assert(base.pending[position].shares().contains_key(me));
                    }
                },
                _ => {},
            }
        }
        assert(base.timed());
    }
    if engine.gained(event, answers) is Some {
        let certificate = engine.gained(event, answers)->0;
        let closed = base.closed(certificate.position());
        lemma_closed(base, certificate.position());
        lemma_advanced(closed, certificate);
        assert(closed.timed());
        assert(closed.advanced(certificate).timed());
        lemma_timed_filled(closed.advanced(certificate));
    }
    lemma_timed_filled(engine);
}

/// Positions that are made live have no digest.
proof fn lemma_timed_filled(engine: EngineView)
    requires
        engine.timed(),
    ensures
        engine.filled().timed(),
{
    let filled = engine.filled();
    assert forall|position: u64| #[trigger]
        filled.pending.contains_key(position) && filled.pending[position] is Verified implies
        filled.local_ack(position) == engine.local_ack(position) by {
        assert(engine.pending.contains_key(position));
    }
}

/// Where there are deadlines, one comes first.
pub proof fn lemma_first_deadline(engine: EngineView)
    requires
        engine.well_formed(),
        !engine.deadlines.is_empty(),
    ensures
        comes_first(engine.deadlines, first_item(engine.deadlines)),
{
    let window = span(engine.frontier, engine.window_end());
    lemma_span(engine.frontier, engine.window_end());
    assert forall|position: u64| engine.deadlines.contains_key(position) implies window.contains(
        position,
    ) by {}
    assert(engine.deadlines.dom().subset_of(window));
    vstd::set_lib::lemma_set_subset_finite(window, engine.deadlines.dom());
    lemma_some_first(engine.deadlines, engine.deadlines.dom());
}

/// Among finitely many items, one comes first.
proof fn lemma_some_first(contents: Map<u64, u128>, among: Set<u64>) -> (first: u64)
    requires
        among.finite(),
        !among.is_empty(),
        among.subset_of(contents.dom()),
    ensures
        among.contains(first),
        forall|other: u64| #[trigger]
            among.contains(other) ==> contents[first] < contents[other] || (contents[first]
                == contents[other] && first <= other),
        among == contents.dom() ==> comes_first(contents, first),
    decreases among.len(),
{
    let item = among.choose();
    assert(among.contains(item));
    let rest = among.remove(item);
    if rest.is_empty() {
        assert forall|other: u64| among.contains(other) implies other == item by {
            if other != item {
                assert(rest.contains(other));
            }
        }
        item
    } else {
        let first = lemma_some_first(contents, rest);
        if contents[item] < contents[first] || (contents[item] == contents[first] && item
            <= first) {
            assert forall|other: u64| among.contains(other) implies contents[item]
                < contents[other] || (contents[item] == contents[other] && item <= other) by {
                if other != item {
                    assert(rest.contains(other));
                }
            }
            item
        } else {
            assert forall|other: u64| among.contains(other) implies contents[first]
                < contents[other] || (contents[first] == contents[other] && first <= other) by {
                if other != item {
                    assert(rest.contains(other));
                }
            }
            first
        }
    }
}

} // verus!
