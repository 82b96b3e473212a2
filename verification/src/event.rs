//! What happens to a running aggregation engine, and what it makes of that.
use crate::action::{ActionView, EngineOutcome};
use crate::deadlines::first_item;
use crate::engine::{assembled, checked, digest_answers, digest_calls};
use crate::model::EngineView;
use crate::shares::acks_view;
use crate::types::{
    Ack, AckView, Attestation, AttestationView, Certificate, CertificateView, Digest, Height, Item,
    Participant,
};
use vstd::prelude::*;

verus! {

/// Something that happens to a running engine.
#[derive(Debug, PartialEq, Eq)]
pub enum Event {
    /// The node shuts down.
    Shutdown,
    /// Acknowledgements can no longer be received.
    ReceiverFailed,
    /// A peer sent something that is not an acknowledgement.
    Undecodable,
    /// A peer sent an acknowledgement.
    Ack {
        /// What it sent.
        ack: Ack,
        /// The name of the peer.
        peer: String,
        /// The participant that the peer is, if it is one.
        signer: Option<Participant>,
    },
    /// A request for a digest ended because it was given up.
    DigestAborted,
    /// The application declined to propose a digest.
    DigestDeclined {
        /// The position.
        position: Height,
    },
    /// The application proposed a digest.
    DigestReady {
        /// The position.
        position: Height,
        /// What was proposed.
        digest: Digest,
        /// The time.
        now: u128,
    },
    /// The first deadline has come.
    Deadline {
        /// The time.
        now: u128,
    },
    /// A recovered certificate was submitted.
    Certificate(Certificate),
}

/// The model of an [`Event`].
pub enum EventView {
    Shutdown,
    ReceiverFailed,
    Undecodable,
    Ack { ack: AckView, peer: Seq<char>, signer: Option<Participant> },
    DigestAborted,
    DigestDeclined { position: Height },
    DigestReady { position: Height, digest: Seq<u8>, now: u128 },
    Deadline { now: u128 },
    Certificate(CertificateView),
}

impl View for Event {
    type V = EventView;

    open spec fn view(&self) -> EventView {
        match self {
            Event::Shutdown => EventView::Shutdown,
            Event::ReceiverFailed => EventView::ReceiverFailed,
            Event::Undecodable => EventView::Undecodable,
            Event::Ack { ack, peer, signer } => EventView::Ack {
                ack: ack@,
                peer: peer@,
                signer: *signer,
            },
            Event::DigestAborted => EventView::DigestAborted,
            Event::DigestDeclined { position } => EventView::DigestDeclined { position: *position },
            Event::DigestReady { position, digest, now } => EventView::DigestReady {
                position: *position,
                digest: digest@,
                now: *now,
            },
            Event::Deadline { now } => EventView::Deadline { now: *now },
            Event::Certificate(certificate) => EventView::Certificate(certificate@),
        }
    }
}

/// What an engine needs of a signing scheme while it handles one event. Each is called at most once.
pub struct Signing<V, S, A, C> {
    /// Verifies the signature of an acknowledgement.
    pub verify_ack: V,
    /// Makes the local signature over an item, if this node signs.
    pub sign: S,
    /// Assembles a quorum of acknowledgements of one item into a proof.
    pub assemble: A,
    /// Verifies the proof of a certificate.
    pub verify_certificate: C,
}

/// What a signing scheme answered.
pub struct Answers {
    /// Whether the signature or the proof verifies.
    pub verified: bool,
    /// The local signature.
    pub signed: Option<AttestationView>,
    /// The proof that a quorum was assembled to.
    pub proof: Seq<u8>,
}

impl EngineView {
    /// Whether an event can happen: a digest comes for no position that has one, a deadline only
    /// comes if there is one, and deadlines can be counted.
    pub open spec fn possible(self, event: EventView) -> bool {
        match event {
            EventView::DigestReady { position, now, .. } => {
                &&& self.pending.contains_key(position.0) ==> self.awaits(position.0)
                &&& now + self.config.rebroadcast_timeout <= u128::MAX
            },
            EventView::Deadline { now } => {
                &&& !self.deadlines.is_empty()
                &&& now + self.config.rebroadcast_timeout <= u128::MAX
            },
            _ => true,
        }
    }

    /// Without the first deadline.
    pub open spec fn popped(self) -> EngineView {
        EngineView { deadlines: self.deadlines.remove(first_item(self.deadlines)), ..self }
    }

    /// After an event.
    pub open spec fn step(self, event: EventView, answers: Answers) -> EngineView {
        match event {
            EventView::Ack { ack, peer, signer } => if self.ack_error(
                ack,
                peer,
                signer,
                answers.verified,
            ) is None {
                self.after_ack(ack, answers.proof)
            } else {
                self
            },
            EventView::DigestDeclined { position } => self.answered(position.0),
            EventView::DigestReady { position, digest, now } => self.answered(
                position.0,
            ).after_digest(position, digest, answers.signed, answers.proof, now),
            EventView::Deadline { now } => self.popped().after_rebroadcast(
                first_item(self.deadlines),
                now,
            ),
            EventView::Certificate(certificate) => self.after_certificate(
                certificate,
                answers.verified,
            ),
            _ => self,
        }
    }

    /// What is to be done once an engine holds this: it stops when it is complete.
    pub open spec fn closing(self) -> Seq<ActionView> {
        if self.complete {
            seq![ActionView::SyncAll, ActionView::Stop(EngineOutcome::Completed)]
        } else {
            Seq::empty()
        }
    }

    /// What is to be done about an event, before it is asked whether the engine is complete.
    pub open spec fn reactions(self, event: EventView, answers: Answers) -> Seq<ActionView> {
        match event {
            EventView::Undecodable => seq![ActionView::Block],
            EventView::Ack { ack, peer, signer } => match self.ack_error(
                ack,
                peer,
                signer,
                answers.verified,
            ) {
                Some(error) => if error.blockable() {
                    seq![ActionView::Block]
                } else {
                    Seq::empty()
                },
                None => self.ack_actions(ack, answers.proof),
            },
            EventView::DigestReady { position, digest, now } => self.answered(
                position.0,
            ).digest_actions(position, digest, answers.signed, answers.proof, now),
            EventView::Deadline { .. } => self.popped().rebroadcast_actions(
                first_item(self.deadlines),
            ),
            EventView::Certificate(certificate) => self.certificate_actions(
                certificate,
                answers.verified,
            ).push(ActionView::Reply(self.outcome(certificate, answers.verified))),
            _ => Seq::empty(),
        }
    }

    /// How an engine that is made to stop has ended.
    pub open spec fn ending(self) -> EngineOutcome {
        if self.complete {
            EngineOutcome::Completed
        } else {
            EngineOutcome::Stopped
        }
    }

    /// What is to be done about an event.
    pub open spec fn step_actions(self, event: EventView, answers: Answers) -> Seq<ActionView> {
        if event is Shutdown || event is ReceiverFailed {
            seq![ActionView::SyncAll, ActionView::Stop(self.ending())]
        } else {
            self.reactions(event, answers) + self.step(event, answers).closing()
        }
    }
}

/// Whether the signing scheme can be called as an event may need.
pub open spec fn step_calls<
    V: FnOnce(&Ack) -> bool,
    S: FnOnce(&Item) -> Option<Attestation>,
    A: FnOnce(&Vec<Ack>) -> Vec<u8>,
    C: FnOnce(&Certificate) -> bool,
>(engine: EngineView, event: Event, signing: Signing<V, S, A, C>) -> bool {
    match event {
        Event::Ack { ack, peer, signer } => {
            &&& engine.refusal(ack@, peer@, signer) is None ==> call_requires(
                signing.verify_ack,
                (&ack,),
            )
            &&& forall|acks: Vec<Ack>|
                engine.refusal(ack@, peer@, signer) is None && engine.assembles(
                    ack@,
                    acks_view(acks@),
                ) ==> #[trigger] call_requires(signing.assemble, (&acks,))
        },
        Event::DigestReady { position, digest, now } => digest_calls(
            engine.answered(position.0),
            position,
            digest@,
            now,
            signing.sign,
            signing.assemble,
        ),
        Event::Certificate(certificate) => engine.screened(certificate@) is None ==> call_requires(
            signing.verify_certificate,
            (&certificate,),
        ),
        _ => true,
    }
}

/// Whether `answers` can be what the signing scheme answers to what an event makes the engine ask.
pub open spec fn step_answers<
    V: FnOnce(&Ack) -> bool,
    S: FnOnce(&Item) -> Option<Attestation>,
    A: FnOnce(&Vec<Ack>) -> Vec<u8>,
    C: FnOnce(&Certificate) -> bool,
>(engine: EngineView, event: Event, signing: Signing<V, S, A, C>, answers: Answers) -> bool {
    match event {
        Event::Ack { ack, peer, signer } => {
            &&& checked(
                engine.refusal(ack@, peer@, signer) is None,
                signing.verify_ack,
                &ack,
                answers.verified,
            )
            &&& engine.ack_error(ack@, peer@, signer, answers.verified) is None ==> assembled(
                engine,
                ack@,
                signing.assemble,
                answers.proof,
            )
        },
        Event::DigestReady { position, digest, now } => digest_answers(
            engine.answered(position.0),
            position,
            digest@,
            now,
            signing.sign,
            signing.assemble,
            answers.signed,
            answers.proof,
        ),
        Event::Certificate(certificate) => checked(
            engine.screened(certificate@) is None,
            signing.verify_certificate,
            &certificate,
            answers.verified,
        ),
        _ => true,
    }
}

} // verus!
