//! What each event is for: what an engine makes of acknowledgements, digests, deadlines and recovered
//! certificates, said of what it holds before and after, and of what is to be done.
use crate::action::{ActionView, CertificateOutcome, EngineOutcome};
use crate::deadlines::first_item;
use crate::engine::{assembled, checked};
use crate::event::{step_answers, step_calls, Answers, Event, EventView, Signing};
use crate::laws::lemma_first_deadline;
use crate::model::{
    lemma_completes, lemma_proposed, lemma_scheduled, lemma_with_ack, EngineView, PendingView,
};
use crate::shares::{acks_view, lists, shares_of, signers_of};
use crate::types::{
    Ack, AckView, Attestation, AttestationView, Certificate, CertificateView, ErrorView, Height,
    Item, ItemView, Participant,
};
use crate::window_laws::{
    asked_height, carries_out, certified_with, law_certificate_moves_the_window, moved_on,
};
use vstd::prelude::*;

verus! {

/// The acknowledgements held at a live position, by signer.
pub open spec fn held_acks(pending: PendingView) -> Map<u32, AckView> {
    match pending {
        PendingView::Unverified(acks) => acks,
        PendingView::Verified(_, acks) => acks,
    }
}

/// The digest that was proposed locally at a live position, if one was.
pub open spec fn local_digest(pending: PendingView) -> Option<Seq<u8>> {
    match pending {
        PendingView::Unverified(_) => None,
        PendingView::Verified(digest, _) => Some(digest),
    }
}

/// A live position with these acknowledgements in place of those that it has.
pub open spec fn holding(pending: PendingView, acks: Map<u32, AckView>) -> PendingView {
    match pending {
        PendingView::Unverified(_) => PendingView::Unverified(acks),
        PendingView::Verified(digest, _) => PendingView::Verified(digest, acks),
    }
}

/// Whether an acknowledgement speaks of a live position, and not against what was proposed there.
pub open spec fn of_use(engine: EngineView, ack: AckView) -> bool {
    let position = ack.item.position.0;
    &&& engine.pending.contains_key(position)
    &&& match local_digest(engine.pending[position]) {
        Some(digest) => digest == ack.item.digest,
        None => true,
    }
}

/// Whether an acknowledgement that came from `signer` is good: it is of use, its signer sent it, and
/// nothing of its signer is held at its position.
pub open spec fn good(engine: EngineView, ack: AckView, signer: Option<Participant>) -> bool {
    &&& of_use(engine, ack)
    &&& signer == Some(ack.attestation.signer)
    &&& !held_acks(engine.pending[ack.item.position.0]).contains_key(ack.attestation.signer.0)
}

/// An engine that holds an acknowledgement of use besides all else, unless it holds one of its signer
/// there.
pub open spec fn joined(engine: EngineView, ack: AckView) -> EngineView {
    let position = ack.item.position.0;
    let signer = ack.attestation.signer.0;
    let acks = held_acks(engine.pending[position]);
    EngineView {
        pending: engine.pending.insert(
            position,
            holding(
                engine.pending[position],
                if acks.contains_key(signer) {
                    acks
                } else {
                    acks.insert(signer, ack)
                },
            ),
        ),
        ..engine
    }
}

/// Who, of the acknowledgements held at a position, acknowledged a digest.
pub open spec fn supporters(engine: EngineView, item: ItemView) -> Set<u32> {
    Set::new(
        |signer: u32|
            held_acks(engine.pending[item.position.0]).contains_key(signer) && held_acks(
                engine.pending[item.position.0],
            )[signer].item.digest == item.digest,
    )
}

/// Whether a quorum of the committee acknowledged an item, of the acknowledgements held.
pub open spec fn supported(engine: EngineView, item: ItemView) -> bool {
    supporters(engine, item).len() >= engine.config.quorum()
}

/// Whether `acks` are all of the acknowledgements held of an item, each once and in the order of
/// their signers.
pub open spec fn all_supporters(engine: EngineView, item: ItemView, acks: Seq<AckView>) -> bool {
    let held = held_acks(engine.pending[item.position.0]);
    &&& forall|i: int, j: int|
        0 <= i < j < acks.len() ==> (#[trigger] acks[i]).attestation.signer.0 < (
        #[trigger] acks[j]).attestation.signer.0
    &&& forall|ack: AckView| #[trigger]
        acks.contains(ack) <==> held.contains_key(ack.attestation.signer.0)
            && held[ack.attestation.signer.0] == ack && ack.item.digest == item.digest
}

/// What an engine that holds all that it holds now is to do in the end: nothing, or to stop once
/// everything is certified.
pub open spec fn in_the_end(engine: EngineView) -> Seq<ActionView> {
    if engine.complete {
        seq![ActionView::SyncAll, ActionView::Stop(EngineOutcome::Completed)]
    } else {
        Seq::empty()
    }
}

/// An acknowledgement is refused for the first reason there is, and only for one of these: its
/// position is not live, it was not sent by its signer, another digest was proposed there, its signer
/// has one there, or its signature does not verify. All others are taken.
pub proof fn law_acknowledgements_are_refused_for_a_reason(
    engine: EngineView,
    ack: AckView,
    peer: Seq<char>,
    signer: Option<Participant>,
    verified: bool,
)
    requires
        engine.well_formed(),
    ensures
        ({
            let position = ack.item.position;
            let live = engine.pending.contains_key(position.0);
            let sent = signer == Some(ack.attestation.signer);
            let agrees = of_use(engine, ack);
            let known = held_acks(engine.pending[position.0]).contains_key(
                ack.attestation.signer.0,
            );
            let error = engine.ack_error(ack, peer, signer, verified);
            &&& error is None <==> good(engine, ack, signer) && verified
            &&& error == Some(ErrorView::AckPosition(position)) <==> !live
            &&& error == Some(ErrorView::PeerMismatch) <==> live && !sent
            &&& error == Some(ErrorView::AckDigest(position)) <==> live && sent && !agrees
            &&& error == Some(ErrorView::AckDuplicate(peer, position)) <==> live && sent && agrees
                && known
            &&& error == Some(ErrorView::InvalidAckSignature) <==> good(engine, ack, signer)
                && !verified
            &&& engine.refusal(ack, peer, signer) is None <==> good(engine, ack, signer)
            &&& engine.refusal(ack, peer, signer) is Some ==> engine.refusal(ack, peer, signer)
                == error
        }),
{
    if engine.pending.contains_key(ack.item.position.0) {
        assert(engine.in_window(ack.item.position.0));
    }
}

/// A peer is blocked only for what no honest peer does: to send what another signed, or what does not
/// verify.
pub proof fn law_only_misbehaviour_blocks(error: ErrorView)
    ensures
        error.blockable() <==> error == ErrorView::PeerMismatch || error
            == ErrorView::InvalidAckSignature,
{
}

/// The signers of a digest are its supporters.
proof fn lemma_supporters(engine: EngineView, item: ItemView)
    ensures
        signers_of(engine.pending[item.position.0].shares(), item.digest) == supporters(
            engine,
            item,
        ),
{
    assert(signers_of(engine.pending[item.position.0].shares(), item.digest) =~= supporters(
        engine,
        item,
    ));
}

/// An acknowledgement of use is held besides all that is held, and nothing else changes. It completes
/// a quorum just where a quorum then acknowledged its item. A certificate is assembled from all of
/// the acknowledgements of that item, each once and in the order of their signers.
pub proof fn law_acknowledgements_are_held(engine: EngineView, ack: AckView, acks: Seq<AckView>)
    requires
        engine.well_formed(),
    ensures
        engine.counts(ack) <==> of_use(engine, ack),
        of_use(engine, ack) ==> engine.with_ack(ack) == joined(engine, ack),
        !of_use(engine, ack) ==> engine.with_ack(ack) == engine,
        engine.completes(ack) <==> of_use(engine, ack) && supported(joined(engine, ack), ack.item),
        engine.assembles(ack, acks) <==> of_use(engine, ack) && supported(
            joined(engine, ack),
            ack.item,
        ) && all_supporters(joined(engine, ack), ack.item, acks),
        engine.assembles(ack, acks) ==> acks.len() >= engine.config.quorum(),
{
    let position = ack.item.position.0;
    lemma_with_ack(engine, ack);
    if of_use(engine, ack) {
        assert(engine.with_ack(ack) =~= joined(engine, ack));
        let with = engine.with_ack(ack);
        lemma_supporters(with, ack.item);
        assert(with.pending[position].consistent(position));
        let held = with.pending[position].shares();
        assert(held == held_acks(joined(engine, ack).pending[position]));
        if lists(acks, held, ack.item.digest) {
            assert forall|signer: u32| #[trigger] held.contains_key(signer) implies
                held[signer].attestation.signer.0 == signer by {}
            crate::shares::lemma_lists(acks, held, ack.item.digest);
            assert forall|other: AckView| #[trigger] acks.contains(other) <==> held.contains_key(
                other.attestation.signer.0,
            ) && held[other.attestation.signer.0] == other && other.item.digest
                == ack.item.digest by {
                if acks.contains(other) {
                    let i = choose|i: int| 0 <= i < acks.len() && acks[i] == other;
                    assert(signers_of(held, ack.item.digest).contains(
                        acks[i].attestation.signer.0,
                    ));
                }
                if held.contains_key(other.attestation.signer.0)
                    && held[other.attestation.signer.0] == other && other.item.digest
                    == ack.item.digest {
                    assert(signers_of(held, ack.item.digest).contains(other.attestation.signer.0));
                }
            }
        }
        if all_supporters(with, ack.item, acks) {
            assert forall|i: int| 0 <= i < acks.len() implies signers_of(
                held,
                ack.item.digest,
            ).contains((#[trigger] acks[i]).attestation.signer.0) && acks[i]
                == held[acks[i].attestation.signer.0] by {
                assert(acks.contains(acks[i]));
            }
            assert forall|signer: u32| #[trigger]
                signers_of(held, ack.item.digest).contains(signer) implies acks.contains(
                held[signer],
            ) by {
                assert(held.contains_key(signer));
            }
            assert(lists(acks, held, ack.item.digest));
        }
    }
}

/// What an acknowledgement of use leads to: it is held, and once a quorum acknowledged its item the
/// certificate of it is taken in, with the engine's epoch and the proof that was assembled. Until
/// then there is nothing to do.
pub proof fn law_quorums_are_certified(engine: EngineView, ack: AckView, proof: Seq<u8>)
    requires
        engine.well_formed(),
    ensures
        ({
            let with = joined(engine, ack);
            let certificate = CertificateView {
                epoch: engine.config.epoch,
                item: ack.item,
                certificate: proof,
            };
            let after = engine.after_ack(ack, proof);
            let actions = engine.ack_actions(ack, proof);
            if of_use(engine, ack) && supported(with, ack.item) {
                moved_on(with, certificate, after) && carries_out(with, certificate, after, actions)
            } else if of_use(engine, ack) {
                after == with && actions == Seq::<ActionView>::empty()
            } else {
                after == engine && actions == Seq::<ActionView>::empty()
            }
        }),
{
    law_acknowledgements_are_held(engine, ack, Seq::empty());
    if of_use(engine, ack) {
        lemma_with_ack(engine, ack);
        lemma_completes(engine, ack, proof);
        law_certificate_moves_the_window(
            engine.with_ack(ack),
            engine.certificate(ack.item, proof),
        );
    }
}

/// An acknowledgement from a peer that is good and verifies is taken: it is held, or its position is
/// certified because a quorum has now acknowledged it. Any other changes nothing, and the peer is
/// blocked just where it is not the signer, or its signature does not verify.
pub proof fn law_good_acknowledgements_are_taken(
    engine: EngineView,
    ack: AckView,
    peer: Seq<char>,
    signer: Option<Participant>,
    answers: Answers,
)
    requires
        engine.well_formed(),
    ensures
        ({
            let event = EventView::Ack { ack, peer, signer };
            let after = engine.step(event, answers);
            let actions = engine.step_actions(event, answers);
            let live = engine.pending.contains_key(ack.item.position.0);
            let blocked = live && (signer != Some(ack.attestation.signer) || (good(
                engine,
                ack,
                signer,
            ) && !answers.verified));
            let with = joined(engine, ack);
            let certificate = CertificateView {
                epoch: engine.config.epoch,
                item: ack.item,
                certificate: answers.proof,
            };
            if !good(engine, ack, signer) || !answers.verified {
                &&& after == engine
                &&& actions == (if blocked {
                    seq![ActionView::Block]
                } else {
                    Seq::empty()
                }) + in_the_end(after)
            } else if supported(with, ack.item) {
                &&& moved_on(with, certificate, after)
                &&& exists|gain: Seq<ActionView>| #[trigger]
                    carries_out(with, certificate, after, gain) && actions == gain + in_the_end(
                        after,
                    )
            } else {
                &&& after == with
                &&& actions == in_the_end(after)
            }
        }),
{
    let event = EventView::Ack { ack, peer, signer };
    let after = engine.step(event, answers);
    law_acknowledgements_are_refused_for_a_reason(engine, ack, peer, signer, answers.verified);
    law_quorums_are_certified(engine, ack, answers.proof);
    let actions = engine.step_actions(event, answers);
    assert(in_the_end(after) =~= after.closing());
    if !good(engine, ack, signer) || !answers.verified {
        let error = engine.ack_error(ack, peer, signer, answers.verified)->0;
        law_only_misbehaviour_blocks(error);
    } else if supported(joined(engine, ack), ack.item) {
        let gain = engine.ack_actions(ack, answers.proof);
        assert(actions =~= gain + in_the_end(after));
    } else {
        assert(actions =~= in_the_end(after));
    }
}

/// An acknowledgement that is taken counts from then on: another one of its signer at that position
/// is refused as a duplicate, as long as the position is live.
pub proof fn law_acknowledgements_are_taken_once(
    engine: EngineView,
    ack: AckView,
    peer: Seq<char>,
    answers: Answers,
    other: AckView,
    verified: bool,
)
    requires
        engine.well_formed(),
        good(engine, ack, Some(ack.attestation.signer)),
        answers.verified,
        other.attestation.signer == ack.attestation.signer,
        other.item == ack.item,
    ensures
        ({
            let signer = Some(ack.attestation.signer);
            let after = engine.step(EventView::Ack { ack, peer, signer }, answers);
            let position = ack.item.position;
            if after.pending.contains_key(position.0) {
                after.ack_error(other, peer, signer, verified) == Some(
                    ErrorView::AckDuplicate(peer, position),
                )
            } else {
                after.ack_error(other, peer, signer, verified) == Some(
                    ErrorView::AckPosition(position),
                )
            }
        }),
{
    let signer = Some(ack.attestation.signer);
    let event = EventView::Ack { ack, peer, signer };
    let after = engine.step(event, answers);
    crate::laws::lemma_step(engine, event, answers);
    law_good_acknowledgements_are_taken(engine, ack, peer, signer, answers);
    law_acknowledgements_are_refused_for_a_reason(after, other, peer, signer, verified);
    let with = joined(engine, ack);
    if after.pending.contains_key(ack.item.position.0) {
        assert(after.pending[ack.item.position.0] == with.pending[ack.item.position.0]);
    }
}

/// A live position at which a digest was proposed: what disagrees is dropped, and all that agrees is
/// kept.
pub open spec fn adopted(engine: EngineView, position: u64, digest: Seq<u8>) -> EngineView {
    let acks = held_acks(engine.pending[position]);
    EngineView {
        pending: engine.pending.insert(
            position,
            PendingView::Verified(
                digest,
                Map::new(
                    |signer: u32| acks.contains_key(signer) && acks[signer].item.digest == digest,
                    |signer: u32| acks[signer],
                ),
            ),
        ),
        ..engine
    }
}

/// A digest is adopted just where the position is live and has none. The acknowledgements of that
/// digest stay, all others go, and nothing else changes.
pub proof fn law_digests_are_adopted(engine: EngineView, position: u64, digest: Seq<u8>)
    ensures
        engine.awaits(position) <==> engine.pending.contains_key(position) && local_digest(
            engine.pending[position],
        ) is None,
        engine.awaits(position) ==> engine.proposed(position, digest) == adopted(
            engine,
            position,
            digest,
        ),
        !engine.awaits(position) ==> engine.proposed(position, digest) == engine,
{
    if engine.awaits(position) {
        let acks = engine.pending[position].shares();
        assert(shares_of(acks, digest) =~= Map::new(
            |signer: u32| acks.contains_key(signer) && acks[signer].item.digest == digest,
            |signer: u32| acks[signer],
        ));
        assert(engine.proposed(position, digest) =~= adopted(engine, position, digest));
    }
}

/// The acknowledgement of a position is due again when the configured time is over, and goes out as
/// the configuration says. Nothing else changes.
pub proof fn law_broadcasts_are_scheduled(
    engine: EngineView,
    position: u64,
    now: u128,
    ack: AckView,
)
    requires
        now + engine.config.rebroadcast_timeout <= u128::MAX,
    ensures
        engine.scheduled(position, now).deadlines.contains_key(position),
        engine.scheduled(position, now).deadlines[position] == now
            + engine.config.rebroadcast_timeout,
        engine.scheduled(position, now).deadlines.remove(position) == engine.deadlines.remove(
            position,
        ),
        engine.scheduled(position, now) == (EngineView {
            deadlines: engine.scheduled(position, now).deadlines,
            ..engine
        }),
        engine.broadcast(ack) == (ActionView::Broadcast {
            ack,
            priority: engine.config.priority_acks,
        }),
{
    assert(engine.scheduled(position, now).deadlines.remove(position)
        =~= engine.deadlines.remove(position));
}

/// An engine that adopted a digest and set the time of the next broadcast.
pub open spec fn announced(
    engine: EngineView,
    position: u64,
    digest: Seq<u8>,
    now: u128,
) -> EngineView {
    EngineView {
        deadlines: engine.deadlines.insert(
            position,
            (now + engine.config.rebroadcast_timeout) as u128,
        ),
        ..adopted(engine, position, digest)
    }
}

/// What a digest leads to at a position that awaits it, once this node has signed it: its
/// acknowledgement is broadcast first, and set to be broadcast again; and it is held like any other,
/// so that the position is certified if that makes a quorum.
pub proof fn law_digests_are_acknowledged(
    engine: EngineView,
    position: Height,
    digest: Seq<u8>,
    signed: Option<AttestationView>,
    proof: Seq<u8>,
    now: u128,
)
    requires
        engine.well_formed(),
        !engine.requested.contains(position.0),
        now + engine.config.rebroadcast_timeout <= u128::MAX,
    ensures
        ({
            let item = ItemView { position, digest };
            let awaits = engine.pending.contains_key(position.0) && local_digest(
                engine.pending[position.0],
            ) is None;
            let after = engine.after_digest(position, digest, signed, proof, now);
            let actions = engine.digest_actions(position, digest, signed, proof, now);
            if !awaits {
                after == engine && actions == Seq::<ActionView>::empty()
            } else if signed is None {
                after == adopted(engine, position.0, digest) && actions == Seq::<
                    ActionView,
                >::empty()
            } else {
                let ack = AckView { item, attestation: signed->0 };
                let with = joined(announced(engine, position.0, digest, now), ack);
                let certificate = CertificateView {
                    epoch: engine.config.epoch,
                    item,
                    certificate: proof,
                };
                let broadcast = ActionView::Broadcast {
                    ack,
                    priority: engine.config.priority_acks,
                };
                if supported(with, item) {
                    &&& moved_on(with, certificate, after)
                    &&& exists|gain: Seq<ActionView>| #[trigger]
                        carries_out(with, certificate, after, gain) && actions == seq![broadcast]
                            + gain
                } else {
                    &&& after == with
                    &&& actions == seq![broadcast]
                }
            }
        }),
{
    law_digests_are_adopted(engine, position.0, digest);
    if engine.awaits(position.0) && signed is Some {
        let ack = EngineView::own_ack(position, digest, signed->0);
        let proposed = engine.proposed(position.0, digest);
        let scheduled = proposed.scheduled(position.0, now);
        lemma_proposed(engine, position.0, digest);
        lemma_scheduled(proposed, position.0, now);
        assert(scheduled =~= announced(engine, position.0, digest, now));
        assert(of_use(scheduled, ack));
        law_quorums_are_certified(scheduled, ack, proof);
        let actions = engine.digest_actions(position, digest, signed, proof, now);
        let gain = scheduled.ack_actions(ack, proof);
        assert(actions =~= seq![engine.broadcast(ack)] + gain);
        if !supported(joined(scheduled, ack), ack.item) {
            assert(actions =~= seq![engine.broadcast(ack)]);
        }
    }
}

/// When the application proposes a digest, the request for it is over. Where the position awaits the
/// digest, it is adopted, and if this node signs, its acknowledgement goes out and counts.
pub proof fn law_proposed_digests_are_signed(
    engine: EngineView,
    position: Height,
    digest: Seq<u8>,
    now: u128,
    answers: Answers,
)
    requires
        engine.well_formed(),
        engine.possible(EventView::DigestReady { position, digest, now }),
    ensures
        ({
            let event = EventView::DigestReady { position, digest, now };
            let after = engine.step(event, answers);
            let actions = engine.step_actions(event, answers);
            let idle = EngineView { requested: engine.requested.remove(position.0), ..engine };
            let item = ItemView { position, digest };
            if !engine.pending.contains_key(position.0) {
                after == engine && actions == in_the_end(after)
            } else if answers.signed is None {
                after == adopted(idle, position.0, digest) && actions == in_the_end(after)
            } else {
                let ack = AckView { item, attestation: answers.signed->0 };
                let with = joined(announced(idle, position.0, digest, now), ack);
                let certificate = CertificateView {
                    epoch: engine.config.epoch,
                    item,
                    certificate: answers.proof,
                };
                let broadcast = ActionView::Broadcast {
                    ack,
                    priority: engine.config.priority_acks,
                };
                if supported(with, item) {
                    &&& moved_on(with, certificate, after)
                    &&& exists|gain: Seq<ActionView>| #[trigger]
                        carries_out(with, certificate, after, gain) && actions == seq![broadcast]
                            + gain + in_the_end(after)
                } else {
                    &&& after == with
                    &&& actions == seq![broadcast] + in_the_end(after)
                }
            }
        }),
{
    let event = EventView::DigestReady { position, digest, now };
    let idle = engine.answered(position.0);
    assert(idle == (EngineView { requested: engine.requested.remove(position.0), ..engine }));
    law_digests_are_acknowledged(idle, position, digest, answers.signed, answers.proof, now);
    let after = engine.step(event, answers);
    let actions = engine.step_actions(event, answers);
    assert(in_the_end(after) =~= after.closing());
    if !engine.pending.contains_key(position.0) {
        assert(!engine.requested.contains(position.0));
        assert(engine.requested.remove(position.0) =~= engine.requested);
        assert(actions =~= in_the_end(after));
    } else if answers.signed is None {
        assert(actions =~= in_the_end(after));
    }
}

/// What else happens: a position that the application declines is no longer asked for, and nothing
/// else changes; a peer that sends what is no acknowledgement is blocked; a request that was given up
/// means nothing; and to be shut down or to receive no more makes an engine sync its journal and stop.
pub proof fn law_other_events(engine: EngineView, event: EventView, answers: Answers)
    requires
        engine.well_formed(),
        event is Shutdown || event is ReceiverFailed || event is Undecodable
            || event is DigestAborted || event is DigestDeclined,
    ensures
        match event {
            EventView::DigestDeclined { position } => engine.step(event, answers) == (EngineView {
                requested: engine.requested.remove(position.0),
                ..engine
            }),
            _ => engine.step(event, answers) == engine,
        },
        engine.step_actions(event, answers) == match event {
            EventView::Undecodable => seq![ActionView::Block] + in_the_end(engine),
            EventView::Shutdown | EventView::ReceiverFailed => seq![
                ActionView::SyncAll,
                ActionView::Stop(
                    if engine.complete {
                        EngineOutcome::Completed
                    } else {
                        EngineOutcome::Stopped
                    },
                ),
            ],
            _ => in_the_end(engine),
        },
{
    let after = engine.step(event, answers);
    assert(in_the_end(engine) =~= after.closing());
    if event is DigestAborted || event is DigestDeclined {
        assert(engine.step_actions(event, answers) =~= in_the_end(engine));
    }
}

/// Whether `position` is the one whose time comes first: no other is earlier, and of those that are
/// as early none is lower.
pub open spec fn is_due_first(engine: EngineView, position: u64) -> bool {
    &&& engine.deadlines.contains_key(position)
    &&& forall|other: u64| #[trigger]
        engine.deadlines.contains_key(other) ==> engine.deadlines[position]
            <= engine.deadlines[other]
    &&& forall|other: u64| #[trigger]
        engine.deadlines.contains_key(other) && engine.deadlines[other]
            == engine.deadlines[position] ==> position <= other
}

/// The deadline that an engine waits for is the first of all.
pub proof fn law_first_deadline_comes_first(engine: EngineView, position: u64)
    requires
        engine.well_formed(),
        !engine.deadlines.is_empty(),
    ensures
        is_due_first(engine, first_item(engine.deadlines)),
        is_due_first(engine, position) ==> position == first_item(engine.deadlines),
{
    lemma_first_deadline(engine);
    if is_due_first(engine, position) {
        let first = first_item(engine.deadlines);
        assert(engine.deadlines.contains_key(first) && engine.deadlines.contains_key(position));
    }
}

/// The acknowledgement of this node at a position with a digest, if it holds one.
pub open spec fn own_acknowledgement(engine: EngineView, position: u64) -> Option<AckView> {
    if engine.config.me is Some && engine.pending.contains_key(position) && local_digest(
        engine.pending[position],
    ) is Some && held_acks(engine.pending[position]).contains_key(engine.config.me.unwrap().0) {
        Some(held_acks(engine.pending[position])[engine.config.me.unwrap().0])
    } else {
        None
    }
}

/// Where this node holds its acknowledgement of a position, that is broadcast again, and due again
/// after the configured time. Where it holds none there is nothing to do. Nothing else changes.
pub proof fn law_acknowledgements_are_repeated(engine: EngineView, position: u64, now: u128)
    requires
        engine.well_formed(),
        now + engine.config.rebroadcast_timeout <= u128::MAX,
    ensures
        ({
            let after = engine.after_rebroadcast(position, now);
            let actions = engine.rebroadcast_actions(position);
            match own_acknowledgement(engine, position) {
                Some(ack) => {
                    &&& after == (EngineView {
                        deadlines: engine.deadlines.insert(
                            position,
                            (now + engine.config.rebroadcast_timeout) as u128,
                        ),
                        ..engine
                    })
                    &&& actions == seq![
                        ActionView::Broadcast { ack, priority: engine.config.priority_acks },
                    ]
                },
                None => after == engine && actions == Seq::<ActionView>::empty(),
            }
        }),
{
    assert(engine.local_ack(position) == own_acknowledgement(engine, position));
}

/// When a deadline comes, it is that of the position whose time comes first. The acknowledgement of
/// this node there is broadcast, and is due again after the configured time; where there is none, the
/// deadline is over. Nothing else changes.
pub proof fn law_deadlines_repeat_the_first(
    engine: EngineView,
    position: u64,
    now: u128,
    answers: Answers,
)
    requires
        engine.well_formed(),
        engine.possible(EventView::Deadline { now }),
        is_due_first(engine, position),
    ensures
        ({
            let event = EventView::Deadline { now };
            let after = engine.step(event, answers);
            let actions = engine.step_actions(event, answers);
            match own_acknowledgement(engine, position) {
                Some(ack) => {
                    &&& after == (EngineView {
                        deadlines: engine.deadlines.insert(
                            position,
                            (now + engine.config.rebroadcast_timeout) as u128,
                        ),
                        ..engine
                    })
                    &&& actions == seq![
                        ActionView::Broadcast { ack, priority: engine.config.priority_acks },
                    ] + in_the_end(after)
                },
                None => after == (EngineView {
                    deadlines: engine.deadlines.remove(position),
                    ..engine
                }) && actions == in_the_end(after),
            }
        }),
{
    let event = EventView::Deadline { now };
    law_first_deadline_comes_first(engine, position);
    let popped = engine.popped();
    assert(popped.well_formed());
    law_acknowledgements_are_repeated(popped, position, now);
    assert(own_acknowledgement(popped, position) == own_acknowledgement(engine, position));
    let after = engine.step(event, answers);
    let actions = engine.step_actions(event, answers);
    assert(in_the_end(after) =~= after.closing());
    if own_acknowledgement(engine, position) is Some {
        let time = (now + engine.config.rebroadcast_timeout) as u128;
        assert(engine.deadlines.remove(position).insert(position, time)
            =~= engine.deadlines.insert(position, time));
    } else {
        assert(actions =~= in_the_end(after));
    }
}

/// A recovered certificate is accepted just where it is of the engine's epoch, its position is live
/// and its proof verifies. It is ignored only where epoch and range are right and the position is not
/// live, and invalid otherwise. Its proof is looked at only where nothing else decides.
pub proof fn law_recovered_certificates_are_accepted(
    engine: EngineView,
    certificate: CertificateView,
    verified: bool,
)
    requires
        engine.well_formed(),
    ensures
        ({
            let position = certificate.item.position.0;
            let fits = certificate.epoch == engine.config.epoch && engine.config.first.0
                <= position <= engine.config.last.0;
            let live = engine.pending.contains_key(position);
            let outcome = engine.outcome(certificate, verified);
            &&& outcome == CertificateOutcome::Accepted <==> fits && live && verified
            &&& outcome == CertificateOutcome::Ignored <==> fits && !live
            &&& outcome == CertificateOutcome::Invalid <==> !fits || (live && !verified)
            &&& engine.screened(certificate) is None <==> fits && live
            &&& engine.screened(certificate) is Some ==> engine.screened(certificate)->0 == outcome
        }),
{
    let position = certificate.item.position.0;
    if engine.pending.contains_key(position) {
        assert(engine.in_window(position));
        assert(!engine.complete) by {
            assert(engine.pending.dom().contains(position));
        }
    }
}

/// A recovered certificate that is accepted is taken in, and any other changes nothing and leads to
/// nothing.
pub proof fn law_accepted_certificates_are_taken_in(
    engine: EngineView,
    certificate: CertificateView,
    verified: bool,
)
    requires
        engine.well_formed(),
    ensures
        ({
            let after = engine.after_certificate(certificate, verified);
            let actions = engine.certificate_actions(certificate, verified);
            if certificate.epoch == engine.config.epoch && engine.pending.contains_key(
                certificate.item.position.0,
            ) && verified {
                moved_on(engine, certificate, after) && carries_out(
                    engine,
                    certificate,
                    after,
                    actions,
                )
            } else {
                after == engine && actions == Seq::<ActionView>::empty()
            }
        }),
{
    law_recovered_certificates_are_accepted(engine, certificate, verified);
    law_certificate_moves_the_window(engine, certificate);
    if engine.pending.contains_key(certificate.item.position.0) {
        assert(engine.in_window(certificate.item.position.0));
    }
}

/// Who submits a certificate is answered once, after all that the certificate leads to is done.
pub proof fn law_submitters_are_answered(
    engine: EngineView,
    certificate: CertificateView,
    answers: Answers,
)
    requires
        engine.well_formed(),
    ensures
        ({
            let event = EventView::Certificate(certificate);
            let after = engine.step(event, answers);
            let actions = engine.step_actions(event, answers);
            let position = certificate.item.position.0;
            let fits = certificate.epoch == engine.config.epoch && engine.config.first.0
                <= position <= engine.config.last.0;
            let live = engine.pending.contains_key(position);
            if fits && live && answers.verified {
                &&& moved_on(engine, certificate, after)
                &&& exists|gain: Seq<ActionView>| #[trigger]
                    carries_out(engine, certificate, after, gain) && actions == gain + seq![
                        ActionView::Reply(CertificateOutcome::Accepted),
                    ] + in_the_end(after)
            } else {
                &&& after == engine
                &&& actions == seq![
                    ActionView::Reply(
                        if fits && !live {
                            CertificateOutcome::Ignored
                        } else {
                            CertificateOutcome::Invalid
                        },
                    ),
                ] + in_the_end(after)
            }
        }),
{
    let event = EventView::Certificate(certificate);
    let after = engine.step(event, answers);
    let actions = engine.step_actions(event, answers);
    law_recovered_certificates_are_accepted(engine, certificate, answers.verified);
    law_accepted_certificates_are_taken_in(engine, certificate, answers.verified);
    assert(in_the_end(after) =~= after.closing());
    let gain = engine.certificate_actions(certificate, answers.verified);
    let reply = ActionView::Reply(engine.outcome(certificate, answers.verified));
    assert(actions =~= gain + seq![reply] + in_the_end(after));
    if gain.len() == 0 {
        assert(actions =~= seq![reply] + in_the_end(after));
    }
}

/// Whether `actions` ask for the digest of just those positions that are asked for in `after` and
/// were not in `before`, each once.
pub open spec fn asks_for_each_once(
    before: EngineView,
    after: EngineView,
    actions: Seq<ActionView>,
) -> bool {
    &&& forall|height: Height| #[trigger]
        actions.contains(ActionView::RequestDigest(height)) <==> after.requested.contains(height.0)
            && !before.requested.contains(height.0)
    &&& forall|i: int, j: int|
        0 <= i < actions.len() && 0 <= j < actions.len() && #[trigger] actions[i] is RequestDigest
            && actions[i] == #[trigger] actions[j] ==> i == j
}

/// Where a certificate is taken in, what becomes live is asked for, whatever else is done before and
/// after.
proof fn lemma_asks_for_each(
    engine: EngineView,
    with: EngineView,
    certificate: CertificateView,
    after: EngineView,
    pre: Seq<ActionView>,
    gain: Seq<ActionView>,
    post: Seq<ActionView>,
)
    requires
        engine.well_formed(),
        moved_on(with, certificate, after),
        carries_out(with, certificate, after, gain),
        forall|position: u64| #[trigger]
            with.pending.contains_key(position) == engine.pending.contains_key(position),
        forall|position: u64| #[trigger]
            with.requested.contains(position) ==> engine.requested.contains(position),
        forall|position: u64|
            engine.requested.contains(position) && !with.requested.contains(position)
                ==> !#[trigger] after.pending.contains_key(position),
        forall|i: int| 0 <= i < pre.len() ==> !(#[trigger] pre[i] is RequestDigest),
        forall|i: int| 0 <= i < post.len() ==> !(#[trigger] post[i] is RequestDigest),
    ensures
        asks_for_each_once(engine, after, pre + gain + post),
{
    let actions = pre + gain + post;
    let asked = if with.requested.contains(certificate.item.position.0) {
        4int
    } else {
        3
    };
    let asks = gain.skip(asked);
    let start = pre.len() + asked;
    assert forall|i: int| 0 <= i < actions.len() && #[trigger] actions[i] is RequestDigest implies
        start <= i < start + asks.len() && actions[i] == asks[i - start] by {
        if i < pre.len() {
            assert(actions[i] == pre[i]);
        } else if i < pre.len() + gain.len() {
            assert(actions[i] == gain[i - pre.len()]);
        } else {
            assert(actions[i] == post[i - pre.len() - gain.len()]);
        }
    }
    assert forall|height: Height| #[trigger]
        actions.contains(ActionView::RequestDigest(height)) <==> asks.contains(
            ActionView::RequestDigest(height),
        ) by {
        let action = ActionView::RequestDigest(height);
        if actions.contains(action) {
            let i = choose|i: int| 0 <= i < actions.len() && actions[i] == action;
            assert(asks[i - start] == action);
        }
        if asks.contains(action) {
            let i = choose|i: int| 0 <= i < asks.len() && asks[i] == action;
            assert(actions[start + i] == action);
        }
    }
    assert forall|i: int, j: int|
        0 <= i < actions.len() && 0 <= j < actions.len() && #[trigger] actions[i] is RequestDigest
            && actions[i] == #[trigger] actions[j] implies i == j by {
        assert(actions[i] == asks[i - start] && actions[j] == asks[j - start]);
        if i < j {
            assert(asked_height(asks[i - start]) < asked_height(asks[j - start]));
        }
        if j < i {
            assert(asked_height(asks[j - start]) < asked_height(asks[i - start]));
        }
    }
    assert forall|height: Height| #[trigger]
        actions.contains(ActionView::RequestDigest(height)) <==> after.requested.contains(height.0)
            && !engine.requested.contains(height.0) by {
        assert(asks.contains(ActionView::RequestDigest(height)) <==> after.pending.contains_key(
            height.0,
        ) && !with.pending.contains_key(height.0));
        if engine.requested.contains(height.0) {
            assert(engine.pending.contains_key(height.0));
        }
    }
}

/// Whatever happens, the application is asked for the digest of every position that is asked for from
/// then on, once, and for no other. So nothing is marked as asked for that was not.
pub proof fn law_what_becomes_live_is_asked_for(
    engine: EngineView,
    event: EventView,
    answers: Answers,
)
    requires
        engine.well_formed(),
        engine.possible(event),
    ensures
        asks_for_each_once(
            engine,
            engine.step(event, answers),
            engine.step_actions(event, answers),
        ),
        forall|position: u64|
            engine.step(event, answers).pending.contains_key(position)
                && !engine.pending.contains_key(position) ==> #[trigger] engine.step(
                event,
                answers,
            ).requested.contains(position),
{
    let after = engine.step(event, answers);
    let actions = engine.step_actions(event, answers);
    let end = in_the_end(after);
    let none = Seq::<ActionView>::empty();
    match event {
        EventView::Ack { ack, peer, signer } => {
            law_good_acknowledgements_are_taken(engine, ack, peer, signer, answers);
            let with = joined(engine, ack);
            let certificate = CertificateView {
                epoch: engine.config.epoch,
                item: ack.item,
                certificate: answers.proof,
            };
            if good(engine, ack, signer) && answers.verified && supported(with, ack.item) {
                let gain = choose|gain: Seq<ActionView>| #[trigger]
                    carries_out(with, certificate, after, gain) && actions == gain + end;
                lemma_asks_for_each(engine, with, certificate, after, none, gain, end);
                assert(actions =~= none + gain + end);
            }
        },
        EventView::DigestReady { position, digest, now } => {
            law_proposed_digests_are_signed(engine, position, digest, now, answers);
            let idle = EngineView { requested: engine.requested.remove(position.0), ..engine };
            let item = ItemView { position, digest };
            if engine.pending.contains_key(position.0) && answers.signed is Some {
                let ack = AckView { item, attestation: answers.signed->0 };
                let with = joined(announced(idle, position.0, digest, now), ack);
                let certificate = CertificateView {
                    epoch: engine.config.epoch,
                    item,
                    certificate: answers.proof,
                };
                let broadcast = ActionView::Broadcast {
                    ack,
                    priority: engine.config.priority_acks,
                };
                if supported(with, item) {
                    let gain = choose|gain: Seq<ActionView>| #[trigger]
                        carries_out(with, certificate, after, gain) && actions == seq![broadcast]
                            + gain + end;
                    crate::laws::law_progress_is_kept(engine, event, answers);
                    assert(!after.pending.contains_key(position.0)) by {
                        lemma_certified_is_not_live(with, certificate, after);
                    }
                    lemma_asks_for_each(
                        engine,
                        with,
                        certificate,
                        after,
                        seq![broadcast],
                        gain,
                        end,
                    );
                }
            }
        },
        EventView::Certificate(certificate) => {
            law_submitters_are_answered(engine, certificate, answers);
            let reply = seq![ActionView::Reply(CertificateOutcome::Accepted)];
            if certificate.epoch == engine.config.epoch && engine.config.first.0
                <= certificate.item.position.0 <= engine.config.last.0
                && engine.pending.contains_key(certificate.item.position.0) && answers.verified {
                let gain = choose|gain: Seq<ActionView>| #[trigger]
                    carries_out(engine, certificate, after, gain) && actions == gain + reply + end;
                lemma_asks_for_each(engine, engine, certificate, after, none, gain, reply + end);
                assert(actions =~= none + gain + (reply + end));
            }
        },
        EventView::Deadline { now } => {
            let position = first_item(engine.deadlines);
            law_first_deadline_comes_first(engine, position);
            law_deadlines_repeat_the_first(engine, position, now, answers);
        },
        _ => {
            law_other_events(engine, event, answers);
        },
    }
}

/// A position that is certified is not live.
proof fn lemma_certified_is_not_live(
    with: EngineView,
    certificate: CertificateView,
    after: EngineView,
)
    requires
        moved_on(with, certificate, after),
        with.frontier <= certificate.item.position.0 <= with.config.last.0,
    ensures
        !after.pending.contains_key(certificate.item.position.0),
{
    let position = certificate.item.position.0;
    assert(certified_with(with, certificate, position));
    if after.pending.contains_key(position) {
        assert(!after.confirmed.contains_key(position));
        assert(after.frontier == position);
    }
}

/// What a signing scheme was asked to verify it was really asked, and what it said is what counts.
pub proof fn law_verdicts_are_those_of_the_scheme<T, V: FnOnce(&T) -> bool>(
    verify: V,
    subject: &T,
    verified: bool,
)
    ensures
        checked(true, verify, subject, verified) <==> call_ensures(verify, (subject,), verified),
{
}

/// Where an acknowledgement completes a quorum, the proof is what the signing scheme assembled from
/// all of the acknowledgements of the item.
pub proof fn law_proofs_are_assembled_from_all<A: FnOnce(&Vec<Ack>) -> Vec<u8>>(
    engine: EngineView,
    ack: AckView,
    assemble: A,
    proof: Seq<u8>,
)
    requires
        engine.well_formed(),
        of_use(engine, ack),
        supported(joined(engine, ack), ack.item),
        assembled(engine, ack, assemble, proof),
    ensures
        exists|acks: Vec<Ack>, bytes: Vec<u8>| #[trigger]
            call_ensures(assemble, (&acks,), bytes) && all_supporters(
                joined(engine, ack),
                ack.item,
                acks_view(acks@),
            ) && bytes@ == proof,
{
    law_acknowledgements_are_held(engine, ack, Seq::empty());
    let (acks, bytes) = choose|acks: Vec<Ack>, bytes: Vec<u8>| #[trigger]
        call_ensures(assemble, (&acks,), bytes) && engine.assembles(ack, acks_view(acks@)) && bytes@
            == proof;
    law_acknowledgements_are_held(engine, ack, acks_view(acks@));
}

/// The answers that an event rests on are those of the signing scheme: the signature of an
/// acknowledgement and the proof of a recovered certificate are verified wherever that matters, a
/// digest is signed as it was proposed, and a quorum is assembled from all that support it.
pub proof fn law_answers_are_those_of_the_scheme<
    V: FnOnce(&Ack) -> bool,
    S: FnOnce(&Item) -> Option<Attestation>,
    A: FnOnce(&Vec<Ack>) -> Vec<u8>,
    C: FnOnce(&Certificate) -> bool,
>(engine: EngineView, event: Event, signing: Signing<V, S, A, C>, answers: Answers)
    requires
        engine.well_formed(),
        engine.possible(event@),
        step_answers(engine, event, signing, answers),
    ensures
        match event {
            Event::Ack { ack, peer, signer } => good(engine, ack@, signer) ==> {
                &&& call_ensures(signing.verify_ack, (&ack,), answers.verified)
                &&& answers.verified && supported(joined(engine, ack@), ack@.item) ==> exists|
                    acks: Vec<Ack>,
                    bytes: Vec<u8>,
                | #[trigger]
                    call_ensures(signing.assemble, (&acks,), bytes) && all_supporters(
                        joined(engine, ack@),
                        ack@.item,
                        acks_view(acks@),
                    ) && bytes@ == answers.proof
            },
            Event::DigestReady { position, digest, now } => engine.pending.contains_key(
                position.0,
            ) ==> {
                let idle = EngineView { requested: engine.requested.remove(position.0), ..engine };
                let item = ItemView { position, digest: digest@ };
                &&& exists|signed: Item, attestation: Option<Attestation>| #[trigger]
                    call_ensures(signing.sign, (&signed,), attestation) && signed@ == item && match (
                    attestation,
                    answers.signed) {
                        (Some(made), Some(counted)) => made@ == counted,
                        (None, None) => true,
                        _ => false,
                    }
                &&& answers.signed is Some ==> {
                    let ack = AckView { item, attestation: answers.signed->0 };
                    let before = announced(idle, position.0, digest@, now);
                    supported(joined(before, ack), item) ==> exists|acks: Vec<Ack>, bytes: Vec<u8>|
                        #[trigger]
                        call_ensures(signing.assemble, (&acks,), bytes) && all_supporters(
                            joined(before, ack),
                            item,
                            acks_view(acks@),
                        ) && bytes@ == answers.proof
                }
            },
            Event::Certificate(certificate) => certificate@.epoch == engine.config.epoch
                && engine.pending.contains_key(certificate@.item.position.0) ==> call_ensures(
                signing.verify_certificate,
                (&certificate,),
                answers.verified,
            ),
            _ => true,
        },
{
    match event {
        Event::Ack { ack, peer, signer } => {
            law_acknowledgements_are_refused_for_a_reason(
                engine,
                ack@,
                peer@,
                signer,
                answers.verified,
            );
            if good(engine, ack@, signer) && answers.verified && supported(
                joined(engine, ack@),
                ack@.item,
            ) {
                law_proofs_are_assembled_from_all(
                    engine,
                    ack@,
                    signing.assemble,
                    answers.proof,
                );
            }
        },
        Event::DigestReady { position, digest, now } => {
            let idle = engine.answered(position.0);
            assert(idle == (EngineView {
                requested: engine.requested.remove(position.0),
                ..engine
            }));
            law_digests_are_adopted(idle, position.0, digest@);
            if engine.pending.contains_key(position.0) && answers.signed is Some {
                let ack = AckView {
                    item: ItemView { position, digest: digest@ },
                    attestation: answers.signed->0,
                };
                let proposed = idle.proposed(position.0, digest@);
                let scheduled = proposed.scheduled(position.0, now);
                lemma_proposed(idle, position.0, digest@);
                lemma_scheduled(proposed, position.0, now);
                assert(scheduled =~= announced(idle, position.0, digest@, now));
                assert(of_use(scheduled, ack));
                if supported(joined(scheduled, ack), ack.item) {
                    law_proofs_are_assembled_from_all(
                        scheduled,
                        ack,
                        signing.assemble,
                        answers.proof,
                    );
                }
            }
        },
        Event::Certificate(certificate) => {
            law_recovered_certificates_are_accepted(engine, certificate@, answers.verified);
            if engine.pending.contains_key(certificate@.item.position.0) {
                assert(engine.in_window(certificate@.item.position.0));
            }
        },
        _ => {},
    }
}

/// A signing scheme that takes whatever it is given can be asked about any event.
pub proof fn law_any_scheme_can_be_asked<
    V: FnOnce(&Ack) -> bool,
    S: FnOnce(&Item) -> Option<Attestation>,
    A: FnOnce(&Vec<Ack>) -> Vec<u8>,
    C: FnOnce(&Certificate) -> bool,
>(engine: EngineView, event: Event, signing: Signing<V, S, A, C>)
    requires
        forall|ack: Ack| #[trigger] call_requires(signing.verify_ack, (&ack,)),
        forall|item: Item| #[trigger] call_requires(signing.sign, (&item,)),
        forall|acks: Vec<Ack>| #[trigger] call_requires(signing.assemble, (&acks,)),
        forall|certificate: Certificate| #[trigger]
            call_requires(signing.verify_certificate, (&certificate,)),
    ensures
        step_calls(engine, event, signing),
{
}

/// Every event can happen to every engine, but for these: a digest comes for no position that has
/// one, no deadline comes where there is none, and time can be counted.
pub proof fn law_possible_events(engine: EngineView, event: EventView)
    ensures
        engine.possible(event) <==> match event {
            EventView::DigestReady { position, digest, now } => {
                &&& engine.pending.contains_key(position.0) ==> local_digest(
                    engine.pending[position.0],
                ) is None
                &&& now + engine.config.rebroadcast_timeout <= u128::MAX
            },
            EventView::Deadline { now } => {
                &&& exists|position: u64| engine.deadlines.contains_key(position)
                &&& now + engine.config.rebroadcast_timeout <= u128::MAX
            },
            _ => true,
        },
{
    if exists|position: u64| engine.deadlines.contains_key(position) {
        let position = choose|position: u64| engine.deadlines.contains_key(position);
        assert(engine.deadlines.dom().contains(position));
    } else {
        assert(engine.deadlines.dom() =~= Set::empty());
    }
}

} // verus!
