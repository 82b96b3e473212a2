//! The model of an aggregation engine: what it holds, and what each input turns that into.
use crate::action::{requests, ActionView};
use crate::config::Config;
use crate::action::CertificateOutcome;
use crate::shares::{lists, shares_of, signers_of};
use crate::types::{
    AckView, AttestationView, CertificateView, ErrorView, Height, ItemView, Participant,
};
use vstd::prelude::*;

verus! {

/// A position that is live but not certified.
pub enum PendingView {
    /// No digest was proposed locally yet. Acknowledgements are kept by signer.
    Unverified(Map<u32, AckView>),
    /// The digest that was proposed locally, and the acknowledgements of it by signer.
    Verified(Seq<u8>, Map<u32, AckView>),
}

impl PendingView {
    /// The acknowledgements held.
    pub open spec fn shares(self) -> Map<u32, AckView> {
        match self {
            PendingView::Unverified(shares) => shares,
            PendingView::Verified(_, shares) => shares,
        }
    }

    /// The same state with other acknowledgements.
    pub open spec fn with_shares(self, shares: Map<u32, AckView>) -> PendingView {
        match self {
            PendingView::Unverified(_) => PendingView::Unverified(shares),
            PendingView::Verified(digest, _) => PendingView::Verified(digest, shares),
        }
    }

    /// Whether an acknowledgement of `digest` is of use: nothing else was proposed locally.
    pub open spec fn admits(self, digest: Seq<u8>) -> bool {
        match self {
            PendingView::Unverified(_) => true,
            PendingView::Verified(own, _) => own == digest,
        }
    }

    /// Every acknowledgement held is of this position, and stands under its signer; once a digest
    /// was proposed locally, it is of that digest.
    pub open spec fn consistent(self, position: u64) -> bool {
        forall|signer: u32| #[trigger]
            self.shares().contains_key(signer) ==> {
                let ack = self.shares()[signer];
                &&& ack.attestation.signer.0 == signer
                &&& ack.item.position.0 == position
                &&& self.admits(ack.item.digest)
            }
    }
}

/// What an engine holds.
#[verifier::ext_equal]
pub struct EngineView {
    /// The configuration, which never changes.
    pub config: Config,
    /// The lowest position that is not certified, or the last position once all are.
    pub frontier: u64,
    /// Whether every position is certified.
    pub complete: bool,
    /// The positions whose digest was asked for and has not come.
    pub requested: Set<u64>,
    /// The live positions.
    pub pending: Map<u64, PendingView>,
    /// The certificates of positions beyond the frontier.
    pub confirmed: Map<u64, CertificateView>,
    /// When to broadcast the local acknowledgement of a position again.
    pub deadlines: Map<u64, u128>,
}

/// The first position from `from` on that `confirmed` leaves out, or `last` if there is none
/// before it.
pub open spec fn next_gap(confirmed: Map<u64, CertificateView>, from: u64, last: u64) -> u64
    decreases last - from,
{
    if from < last && confirmed.contains_key(from) {
        next_gap(confirmed, (from + 1) as u64, last)
    } else {
        from
    }
}

/// The certificates among `confirmed` of positions from `from` on.
pub open spec fn held_from(confirmed: Map<u64, CertificateView>, from: int) -> Map<
    u64,
    CertificateView,
> {
    confirmed.filter_keys(|position: u64| from <= position)
}

impl EngineView {
    /// The last position of the window: `window` positions from the frontier on, but none past the
    /// end of the range.
    pub open spec fn window_end(self) -> int {
        if self.frontier + self.config.window - 1 <= self.config.last.0 {
            self.frontier + self.config.window - 1
        } else {
            self.config.last.0 as int
        }
    }

    /// Whether a position lies in the window.
    pub open spec fn in_window(self, position: u64) -> bool {
        self.frontier <= position <= self.window_end()
    }

    /// Whether a position is live or certified ahead of the frontier.
    pub open spec fn occupied(self, position: u64) -> bool {
        self.pending.contains_key(position) || self.confirmed.contains_key(position)
    }

    /// What every engine satisfies.
    pub open spec fn well_formed(self) -> bool {
        &&& self.config.valid()
        &&& self.config.first.0 <= self.frontier <= self.config.last.0
        &&& self.complete ==> self.frontier == self.config.last.0 && self.pending.dom()
            == Set::<u64>::empty()
        &&& forall|position: u64| #[trigger]
            self.pending.contains_key(position) ==> self.in_window(position)
                && !self.confirmed.contains_key(position) && self.pending[position].consistent(
                position,
            )
        &&& forall|position: u64| #[trigger]
            self.confirmed.contains_key(position) ==> self.frontier < position
                <= self.config.last.0 && self.confirmed[position].position() == position
        &&& forall|position: u64| #[trigger]
            self.requested.contains(position) ==> self.pending.contains_key(position)
                && self.pending[position] is Unverified
        &&& forall|position: u64| #[trigger]
            self.deadlines.contains_key(position) ==> self.pending.contains_key(position)
                && self.pending[position] is Verified
    }

    /// The positions known to be certified.
    pub open spec fn certified(self) -> Set<u64> {
        Set::new(
            |position: u64|
                {
                    ||| self.config.first.0 <= position < self.frontier
                    ||| self.complete && position == self.config.last.0
                    ||| self.confirmed.contains_key(position)
                },
        )
    }

    /// A new engine.
    pub open spec fn fresh(config: Config) -> EngineView {
        EngineView {
            config,
            frontier: config.first.0,
            complete: false,
            requested: Set::empty(),
            pending: Map::empty(),
            confirmed: Map::empty(),
            deadlines: Map::empty(),
        }
    }

    /// The positions from `from` to `to` that are neither live nor certified, in order.
    pub open spec fn vacant(self, from: int, to: int) -> Seq<Height>
        decreases to - from + 1,
    {
        if from > to {
            Seq::empty()
        } else if self.occupied(from as u64) {
            self.vacant(from + 1, to)
        } else {
            seq![Height(from as u64)] + self.vacant(from + 1, to)
        }
    }

    /// The positions that filling the window makes live.
    pub open spec fn openings(self) -> Seq<Height> {
        if self.complete {
            Seq::empty()
        } else {
            self.vacant(self.frontier as int, self.window_end())
        }
    }

    /// With every position up to `to` live that was neither live nor certified.
    pub open spec fn opened_up_to(self, to: int) -> EngineView {
        let opened = |position: u64| self.frontier <= position <= to && !self.occupied(position);
        EngineView {
            pending: Map::new(
                |position: u64| self.pending.contains_key(position) || opened(position),
                |position: u64|
                    if self.pending.contains_key(position) {
                        self.pending[position]
                    } else {
                        PendingView::Unverified(Map::empty())
                    },
            ),
            requested: Set::new(
                |position: u64| self.requested.contains(position) || opened(position),
            ),
            ..self
        }
    }

    /// With the window full.
    pub open spec fn filled(self) -> EngineView {
        if self.complete {
            self
        } else {
            self.opened_up_to(self.window_end())
        }
    }

    /// With `certificate` held, and the frontier moved past what is certified.
    pub open spec fn advanced(self, certificate: CertificateView) -> EngineView {
        let held = self.confirmed.insert(certificate.position(), certificate);
        let last = self.config.last.0;
        let frontier = next_gap(held, self.frontier, last);
        EngineView {
            frontier,
            complete: self.complete || held.contains_key(frontier),
            confirmed: held_from(held, frontier + 1),
            ..self
        }
    }

    /// Whether `certificate` is news.
    pub open spec fn accepts(self, certificate: CertificateView) -> bool {
        &&& certificate.epoch == self.config.epoch
        &&& self.frontier <= certificate.position() <= self.config.last.0
        &&& !self.confirmed.contains_key(certificate.position())
    }

    /// Whether `certificate` contradicts one that is held.
    pub open spec fn conflicts(self, certificate: CertificateView) -> bool {
        &&& certificate.epoch == self.config.epoch
        &&& self.frontier <= certificate.position() <= self.config.last.0
        &&& self.confirmed.contains_key(certificate.position())
        &&& self.confirmed[certificate.position()].item.digest != certificate.item.digest
    }

    /// The journal section of a position.
    pub open spec fn section(self, position: u64) -> u64 {
        position / self.config.journal_heights_per_section
    }

    /// What is to be done about a certificate: it is made durable, then reported, and only then do
    /// requests for further digests go out.
    pub open spec fn accept_actions(self, certificate: CertificateView) -> Seq<ActionView> {
        let position = certificate.position();
        let section = self.section(position);
        if self.accepts(certificate) {
            seq![
                ActionView::Append { section, certificate },
                ActionView::Sync { section },
                ActionView::Report(certificate),
            ] + (if self.requested.contains(position) {
                seq![ActionView::AbortDigest(certificate.item.position)]
            } else {
                Seq::empty()
            }) + requests(self.closed(position).advanced(certificate).openings())
        } else {
            Seq::empty()
        }
    }

    /// With a position no longer live.
    pub open spec fn closed(self, position: u64) -> EngineView {
        EngineView {
            requested: self.requested.remove(position),
            pending: self.pending.remove(position),
            deadlines: self.deadlines.remove(position),
            ..self
        }
    }

    /// After a certificate.
    pub open spec fn accepted(self, certificate: CertificateView) -> EngineView {
        if self.accepts(certificate) {
            self.closed(certificate.position()).advanced(certificate).filled()
        } else {
            self
        }
    }
}

/// With an acknowledgement added to `shares`, unless its signer has one there.
pub open spec fn with_share(shares: Map<u32, AckView>, ack: AckView) -> Map<u32, AckView> {
    let signer = ack.attestation.signer.0;
    if shares.contains_key(signer) {
        shares
    } else {
        shares.insert(signer, ack)
    }
}

/// Acknowledgements.
impl EngineView {
    /// Whether an acknowledgement is of use: its position is live, and nothing else was proposed
    /// there locally.
    pub open spec fn counts(self, ack: AckView) -> bool {
        let position = ack.item.position.0;
        self.pending.contains_key(position) && self.pending[position].admits(ack.item.digest)
    }

    /// With an acknowledgement held, if it is of use.
    pub open spec fn with_ack(self, ack: AckView) -> EngineView {
        let position = ack.item.position.0;
        if self.counts(ack) {
            let pending = self.pending[position];
            EngineView {
                pending: self.pending.insert(
                    position,
                    pending.with_shares(with_share(pending.shares(), ack)),
                ),
                ..self
            }
        } else {
            self
        }
    }

    /// Whether a quorum acknowledged `item`, of the acknowledgements held.
    pub open spec fn has_quorum(self, item: ItemView) -> bool {
        &&& self.pending.contains_key(item.position.0)
        &&& signers_of(self.pending[item.position.0].shares(), item.digest).len()
            >= self.config.quorum()
    }

    /// Whether an acknowledgement completes a quorum.
    pub open spec fn completes(self, ack: AckView) -> bool {
        self.counts(ack) && self.with_ack(ack).has_quorum(ack.item)
    }

    /// Whether `acks` are what a certificate is made of once `ack` completes a quorum.
    pub open spec fn assembles(self, ack: AckView, acks: Seq<AckView>) -> bool {
        &&& self.completes(ack)
        &&& lists(
            acks,
            self.with_ack(ack).pending[ack.item.position.0].shares(),
            ack.item.digest,
        )
    }

    /// The certificate of `item` with the given proof.
    pub open spec fn certificate(self, item: ItemView, proof: Seq<u8>) -> CertificateView {
        CertificateView { epoch: self.config.epoch, item, certificate: proof }
    }

    /// After an acknowledgement, where `proof` is what a quorum of them is assembled to.
    pub open spec fn after_ack(self, ack: AckView, proof: Seq<u8>) -> EngineView {
        if self.completes(ack) {
            self.with_ack(ack).accepted(self.certificate(ack.item, proof))
        } else {
            self.with_ack(ack)
        }
    }

    /// What is to be done about an acknowledgement.
    pub open spec fn ack_actions(self, ack: AckView, proof: Seq<u8>) -> Seq<ActionView> {
        if self.completes(ack) {
            self.with_ack(ack).accept_actions(self.certificate(ack.item, proof))
        } else {
            Seq::empty()
        }
    }

    /// Why an acknowledgement from `peer` is refused before its signature is looked at. The peer is
    /// the participant `signer`, if it is one.
    pub open spec fn refusal(
        self,
        ack: AckView,
        peer: Seq<char>,
        signer: Option<Participant>,
    ) -> Option<ErrorView> {
        let position = ack.item.position;
        if position.0 < self.config.first.0 || position.0 > self.config.last.0
            || !self.pending.contains_key(position.0) {
            Some(ErrorView::AckPosition(position))
        } else if signer != Some(ack.attestation.signer) {
            Some(ErrorView::PeerMismatch)
        } else if !self.pending[position.0].admits(ack.item.digest) {
            Some(ErrorView::AckDigest(position))
        } else if self.pending[position.0].shares().contains_key(ack.attestation.signer.0) {
            Some(ErrorView::AckDuplicate(peer, position))
        } else {
            None
        }
    }

    /// Why an acknowledgement is refused, where `verified` says whether its signature verifies.
    pub open spec fn ack_error(
        self,
        ack: AckView,
        peer: Seq<char>,
        signer: Option<Participant>,
        verified: bool,
    ) -> Option<ErrorView> {
        if self.refusal(ack, peer, signer) is Some {
            self.refusal(ack, peer, signer)
        } else if !verified {
            Some(ErrorView::InvalidAckSignature)
        } else {
            None
        }
    }
}

/// Local digests.
impl EngineView {
    /// Whether a position is live and no digest was proposed there yet.
    pub open spec fn awaits(self, position: u64) -> bool {
        self.pending.contains_key(position) && self.pending[position] is Unverified
    }

    /// Without a request for the digest at a position.
    pub open spec fn answered(self, position: u64) -> EngineView {
        EngineView { requested: self.requested.remove(position), ..self }
    }

    /// With `digest` proposed at a position that awaits one. Acknowledgements of anything else are
    /// dropped.
    pub open spec fn proposed(self, position: u64, digest: Seq<u8>) -> EngineView {
        if self.awaits(position) {
            EngineView {
                pending: self.pending.insert(
                    position,
                    PendingView::Verified(
                        digest,
                        shares_of(self.pending[position].shares(), digest),
                    ),
                ),
                ..self
            }
        } else {
            self
        }
    }

    /// With the acknowledgement of a position due again after the configured time.
    pub open spec fn scheduled(self, position: u64, now: u128) -> EngineView {
        EngineView {
            deadlines: self.deadlines.insert(
                position,
                (now + self.config.rebroadcast_timeout) as u128,
            ),
            ..self
        }
    }

    /// The broadcast of an acknowledgement.
    pub open spec fn broadcast(self, ack: AckView) -> ActionView {
        ActionView::Broadcast { ack, priority: self.config.priority_acks }
    }

    /// The acknowledgement to sign once `digest` was proposed at a position that awaits one.
    pub open spec fn own_ack(
        position: Height,
        digest: Seq<u8>,
        attestation: AttestationView,
    ) -> AckView {
        AckView { item: ItemView { position, digest }, attestation }
    }

    /// After a digest, where `signed` is the local signature over it, if this node signs, and
    /// `proof` is what a quorum of acknowledgements is assembled to.
    pub open spec fn after_digest(
        self,
        position: Height,
        digest: Seq<u8>,
        signed: Option<AttestationView>,
        proof: Seq<u8>,
        now: u128,
    ) -> EngineView {
        let proposed = self.proposed(position.0, digest);
        match signed {
            Some(attestation) if self.awaits(position.0) => proposed.scheduled(
                position.0,
                now,
            ).after_ack(Self::own_ack(position, digest, attestation), proof),
            _ => proposed,
        }
    }

    /// What is to be done about a digest.
    pub open spec fn digest_actions(
        self,
        position: Height,
        digest: Seq<u8>,
        signed: Option<AttestationView>,
        proof: Seq<u8>,
        now: u128,
    ) -> Seq<ActionView> {
        let proposed = self.proposed(position.0, digest);
        match signed {
            Some(attestation) if self.awaits(position.0) => {
                let ack = Self::own_ack(position, digest, attestation);
                seq![self.broadcast(ack)] + proposed.scheduled(position.0, now).ack_actions(
                    ack,
                    proof,
                )
            },
            _ => Seq::empty(),
        }
    }

    /// The acknowledgement of a position that this node broadcasts.
    pub open spec fn local_ack(self, position: u64) -> Option<AckView> {
        match self.config.me {
            Some(me) if self.pending.contains_key(position) && self.pending[position] is Verified
                && self.pending[position].shares().contains_key(me.0) => Some(
                self.pending[position].shares()[me.0],
            ),
            _ => None,
        }
    }

    /// After the deadline of a position.
    pub open spec fn after_rebroadcast(self, position: u64, now: u128) -> EngineView {
        if self.local_ack(position) is Some {
            self.scheduled(position, now)
        } else {
            self
        }
    }

    /// What is to be done at the deadline of a position.
    pub open spec fn rebroadcast_actions(self, position: u64) -> Seq<ActionView> {
        match self.local_ack(position) {
            Some(ack) => seq![self.broadcast(ack)],
            None => Seq::empty(),
        }
    }
}

/// Recovered certificates.
impl EngineView {
    /// What becomes of a recovered certificate without a look at its proof.
    pub open spec fn screened(self, certificate: CertificateView) -> Option<CertificateOutcome> {
        let position = certificate.position();
        if certificate.epoch != self.config.epoch || position < self.config.first.0 || position
            > self.config.last.0 {
            Some(CertificateOutcome::Invalid)
        } else if self.complete || position < self.frontier || self.confirmed.contains_key(position)
            || !self.pending.contains_key(position) {
            Some(CertificateOutcome::Ignored)
        } else {
            None
        }
    }

    /// What becomes of a recovered certificate, where `verified` says whether its proof verifies.
    pub open spec fn outcome(
        self,
        certificate: CertificateView,
        verified: bool,
    ) -> CertificateOutcome {
        match self.screened(certificate) {
            Some(outcome) => outcome,
            None => if verified {
                CertificateOutcome::Accepted
            } else {
                CertificateOutcome::Invalid
            },
        }
    }

    /// After a recovered certificate.
    pub open spec fn after_certificate(
        self,
        certificate: CertificateView,
        verified: bool,
    ) -> EngineView {
        if self.outcome(certificate, verified) == CertificateOutcome::Accepted {
            self.accepted(certificate)
        } else {
            self
        }
    }

    /// What is to be done about a recovered certificate.
    pub open spec fn certificate_actions(
        self,
        certificate: CertificateView,
        verified: bool,
    ) -> Seq<ActionView> {
        if self.outcome(certificate, verified) == CertificateOutcome::Accepted {
            self.accept_actions(certificate)
        } else {
            Seq::empty()
        }
    }
}

/// What [`next_gap`] finds.
pub proof fn lemma_next_gap(confirmed: Map<u64, CertificateView>, from: u64, last: u64)
    requires
        from <= last,
    ensures
        from <= next_gap(confirmed, from, last) <= last,
        forall|position: u64|
            from <= position < next_gap(confirmed, from, last) ==> #[trigger]
                confirmed.contains_key(position),
        next_gap(confirmed, from, last) < last ==> !confirmed.contains_key(
            next_gap(confirmed, from, last),
        ),
    decreases last - from,
{
    if from < last && confirmed.contains_key(from) {
        lemma_next_gap(confirmed, (from + 1) as u64, last);
    }
}

/// Filling the window keeps an engine well formed, and certifies nothing.
pub proof fn lemma_filled(engine: EngineView)
    requires
        engine.well_formed(),
    ensures
        engine.filled().well_formed(),
        engine.filled().certified() == engine.certified(),
{
    assert(engine.filled().certified() =~= engine.certified());
}

/// Closing a position keeps an engine well formed, and certifies nothing.
pub proof fn lemma_closed(engine: EngineView, position: u64)
    requires
        engine.well_formed(),
    ensures
        engine.closed(position).well_formed(),
        engine.closed(position).certified() == engine.certified(),
{
    assert(engine.complete ==> engine.closed(position).pending.dom() =~= Set::<u64>::empty());
    assert(engine.closed(position).certified() =~= engine.certified());
}

/// Taking a certificate of a position that is not live keeps an engine well formed, and certifies
/// that position.
pub proof fn lemma_advanced(engine: EngineView, certificate: CertificateView)
    requires
        engine.well_formed(),
        engine.frontier <= certificate.position() <= engine.config.last.0,
        !engine.pending.contains_key(certificate.position()),
    ensures
        engine.advanced(certificate).well_formed(),
        engine.advanced(certificate).certified() == engine.certified().insert(
            certificate.position(),
        ),
        engine.frontier <= engine.advanced(certificate).frontier,
{
    let held = engine.confirmed.insert(certificate.position(), certificate);
    let last = engine.config.last.0;
    let after = engine.advanced(certificate);
    lemma_next_gap(held, engine.frontier, last);
    assert forall|position: u64| #[trigger] after.pending.contains_key(position) implies
        after.in_window(position) by {
        assert(!held.contains_key(position));
    }
    if after.complete {
        assert forall|position: u64| !after.pending.contains_key(position) by {
            if after.pending.contains_key(position) {
                assert(after.in_window(position));
                assert(held.contains_key(position));
            }
        }
        assert(after.pending.dom() =~= Set::<u64>::empty());
    }
    assert(after.certified() =~= engine.certified().insert(certificate.position())) by {
        assert forall|position: u64|
            after.certified().contains(position) == engine.certified().insert(
                certificate.position(),
            ).contains(position) by {
            assert(held.contains_key(position) == (engine.confirmed.contains_key(position)
                || position == certificate.position()));
            assert(after.confirmed.contains_key(position) == (held.contains_key(position)
                && after.frontier < position));
        }
    }
}

/// Accepting a certificate keeps an engine well formed.
pub proof fn lemma_accepted(engine: EngineView, certificate: CertificateView)
    requires
        engine.well_formed(),
    ensures
        engine.accepted(certificate).well_formed(),
        engine.accepts(certificate) ==> engine.accepted(certificate).certified()
            == engine.certified().insert(certificate.position()),
{
    if engine.accepts(certificate) {
        let position = certificate.position();
        lemma_closed(engine, position);
        lemma_advanced(engine.closed(position), certificate);
        lemma_filled(engine.closed(position).advanced(certificate));
    }
}

/// Holding an acknowledgement keeps an engine well formed, and certifies nothing.
pub proof fn lemma_with_ack(engine: EngineView, ack: AckView)
    requires
        engine.well_formed(),
    ensures
        engine.with_ack(ack).well_formed(),
        engine.with_ack(ack).certified() == engine.certified(),
{
    let position = ack.item.position.0;
    if engine.counts(ack) {
        assert(engine.with_ack(ack).pending[position].consistent(position)) by {
            assert(engine.pending[position].consistent(position));
        }
    }
    assert(engine.with_ack(ack).certified() =~= engine.certified());
}

/// An acknowledgement that completes a quorum leads to a certificate that is news.
pub proof fn lemma_completes(engine: EngineView, ack: AckView, proof: Seq<u8>)
    requires
        engine.well_formed(),
        engine.counts(ack),
    ensures
        engine.with_ack(ack).accepts(engine.certificate(ack.item, proof)),
{
    assert(engine.in_window(ack.item.position.0));
}

/// Proposing a digest keeps an engine well formed, and certifies nothing.
pub proof fn lemma_proposed(engine: EngineView, position: u64, digest: Seq<u8>)
    requires
        engine.well_formed(),
        !engine.requested.contains(position),
    ensures
        engine.proposed(position, digest).well_formed(),
        engine.proposed(position, digest).certified() == engine.certified(),
{
    if engine.awaits(position) {
        assert(engine.proposed(position, digest).pending[position].consistent(position)) by {
            assert(engine.pending[position].consistent(position));
        }
    }
    assert(engine.proposed(position, digest).certified() =~= engine.certified());
}

/// Scheduling a position with a digest keeps an engine well formed, and certifies nothing.
pub proof fn lemma_scheduled(engine: EngineView, position: u64, now: u128)
    requires
        engine.well_formed(),
        engine.pending.contains_key(position),
        engine.pending[position] is Verified,
    ensures
        engine.scheduled(position, now).well_formed(),
        engine.scheduled(position, now).certified() == engine.certified(),
{
    assert(engine.scheduled(position, now).certified() =~= engine.certified());
}

} // verus!
