//! Fixed per-epoch aggregation engine.
use crate::action::{
    actions_view, append_actions, no_actions, push_action, push_requests, requests, Action,
    ActionView, CertificateOutcome, EngineOutcome,
};
use crate::config::Config;
use crate::deadlines::{self, first_item, lemma_first_item};
use crate::event::{step_answers, step_calls, Answers, Event, Signing};
use crate::journal::JournalError;
use crate::model::{
    held_from, lemma_accepted, lemma_advanced, lemma_closed, lemma_completes, lemma_filled,
    lemma_proposed, lemma_scheduled, lemma_with_ack, next_gap, with_share, EngineView, PendingView,
};
use crate::shares::{acks_view, keep_matching, lemma_lists, matching, shares_view};
use crate::types::{
    Ack, AckView, Attestation, AttestationView, Certificate, Digest, Error, Height, Item, ItemView,
    Participant,
};
use commonware_utils::PrioritySet;
use std::collections::{BTreeMap, BTreeSet};
use vstd::prelude::*;

verus! {

broadcast use {vstd::std_specs::btree::group_btree_axioms, vstd::laws_cmp::group_laws_cmp};

/// A position that is live but not certified.
pub(crate) enum Pending {
    Unverified(BTreeMap<u32, Ack>),
    Verified(Digest, BTreeMap<u32, Ack>),
}

impl View for Pending {
    type V = PendingView;

    closed spec fn view(&self) -> PendingView {
        match self {
            Pending::Unverified(shares) => PendingView::Unverified(shares_view(shares@)),
            Pending::Verified(digest, shares) => PendingView::Verified(
                digest@,
                shares_view(shares@),
            ),
        }
    }
}

/// What became of an acknowledgement.
#[derive(Debug, PartialEq, Eq)]
pub enum AckOutcome {
    /// Its position is not live, or another digest was proposed there locally.
    Refused,
    /// It is held, and a quorum is missing.
    Held,
    /// It is held, and these acknowledgements of the same item make a quorum.
    Quorum(Vec<Ack>),
}

/// Aggregates every position in one immutable epoch and inclusive global range.
pub struct Engine {
    config: Config,
    frontier: u64,
    complete: bool,
    requested: BTreeSet<u64>,
    pending: BTreeMap<u64, Pending>,
    confirmed: BTreeMap<u64, Certificate>,
    deadlines: PrioritySet<u64, u128>,
}

impl View for Engine {
    type V = EngineView;

    closed spec fn view(&self) -> EngineView {
        EngineView {
            config: self.config,
            frontier: self.frontier,
            complete: self.complete,
            requested: self.requested@,
            pending: self.pending@.map_values(|pending: Pending| pending@),
            confirmed: self.confirmed@.map_values(|certificate: Certificate| certificate@),
            deadlines: deadlines::priorities(self.deadlines),
        }
    }
}

impl Engine {
    /// Creates an engine.
    pub fn new(config: Config) -> (engine: Engine)
        requires
            config.valid(),
        ensures
            engine@ == EngineView::fresh(config),
            engine@.well_formed(),
    {
        let engine = Engine {
            config,
            frontier: config.first.0,
            complete: false,
            requested: BTreeSet::new(),
            pending: BTreeMap::new(),
            confirmed: BTreeMap::new(),
            deadlines: deadlines::empty(),
        };
        assert(engine@ =~= EngineView::fresh(config));
        engine
    }

    /// What the engine was made from.
    pub fn config(&self) -> (config: Config)
        ensures
            config == self@.config,
    {
        self.config
    }

    /// The lowest position that is not certified, or the last position once all are.
    pub fn frontier(&self) -> (frontier: Height)
        ensures
            frontier.0 == self@.frontier,
    {
        Height(self.frontier)
    }

    /// Whether every position is certified.
    pub fn is_complete(&self) -> (complete: bool)
        ensures
            complete == self@.complete,
    {
        self.complete
    }

    /// Whether a position is live.
    pub fn is_pending(&self, position: u64) -> (held: bool)
        ensures
            held == self@.pending.contains_key(position),
    {
        self.pending.contains_key(&position)
    }

    /// Whether a position is live and no digest was proposed there yet.
    pub fn awaits(&self, position: Height) -> (awaits: bool)
        ensures
            awaits == self@.awaits(position.0),
    {
        match self.pending.get(&position.0) {
            Some(Pending::Unverified(_)) => true,
            _ => false,
        }
    }

    /// Whether a position is certified ahead of the frontier.
    pub fn is_confirmed(&self, position: u64) -> (held: bool)
        ensures
            held == self@.confirmed.contains_key(position),
    {
        self.confirmed.contains_key(&position)
    }

    /// Sets the state of a live position.
    fn put_pending(&mut self, position: u64, pending: Pending)
        ensures
            final(self)@ == (EngineView {
                pending: old(self)@.pending.insert(position, pending@),
                ..old(self)@
            }),
    {
        self.pending.insert(position, pending);
        assert(self@.pending =~= old(self)@.pending.insert(position, pending@));
    }

    /// Takes the state of a position out.
    fn take_pending(&mut self, position: u64) -> (taken: Option<Pending>)
        ensures
            final(self)@ == (EngineView {
                pending: old(self)@.pending.remove(position),
                ..old(self)@
            }),
            match taken {
                Some(pending) => old(self)@.pending.contains_key(position)
                    && old(self)@.pending[position] == pending@,
                None => !old(self)@.pending.contains_key(position),
            },
    {
        let taken = self.pending.remove(&position);
        assert(self@.pending =~= old(self)@.pending.remove(position));
        taken
    }

    /// Drops the certificate of a position, and returns whether there was one.
    fn drop_confirmed(&mut self, position: u64) -> (held: bool)
        ensures
            final(self)@ == (EngineView {
                confirmed: old(self)@.confirmed.remove(position),
                ..old(self)@
            }),
            held == old(self)@.confirmed.contains_key(position),
    {
        let held = self.confirmed.remove(&position).is_some();
        assert(self@.confirmed =~= old(self)@.confirmed.remove(position));
        held
    }

    /// Makes every vacant position of the window live, and returns those positions in order: their
    /// digests are to be requested.
    pub fn fill_window(&mut self) -> (openings: Vec<Height>)
        requires
            old(self)@.well_formed(),
        ensures
            final(self)@ == old(self)@.filled(),
            final(self)@.well_formed(),
            openings@ == old(self)@.openings(),
    {
        proof {
            lemma_filled(self@);
        }
        let mut openings: Vec<Height> = Vec::new();
        if self.complete {
            return openings;
        }
        let end = {
            let end = self.frontier.saturating_add(self.config.window - 1);
            if end < self.config.last.0 {
                end
            } else {
                self.config.last.0
            }
        };
        let ghost start = self@;
        assert(end == start.window_end());
        let mut raw = self.frontier;
        assert(start.opened_up_to(raw - 1) =~= start);
        loop
            invariant_except_break
                start.frontier <= raw <= end,
                self@ == start.opened_up_to(raw - 1),
                openings@ + start.vacant(raw as int, end as int) == start.vacant(
                    start.frontier as int,
                    end as int,
                ),
            ensures
                self@ == start.opened_up_to(end as int),
                openings@ == start.vacant(start.frontier as int, end as int),
            decreases end - raw,
        {
            let ghost before = self@;
            assert(before.occupied(raw) == start.occupied(raw));
            if !self.is_pending(raw) && !self.is_confirmed(raw) {
                self.put_pending(raw, Pending::Unverified(BTreeMap::new()));
                self.requested.insert(raw);
                openings.push(Height(raw));
                assert(shares_view(Map::empty()) =~= Map::empty());
            }
            assert(self@ =~= start.opened_up_to(raw as int));
            if raw == end {
                assert(start.vacant(raw + 1, end as int) =~= Seq::empty());
                break;
            }
            raw += 1;
        }
        openings
    }

    /// Holds a certificate, and moves the frontier past what is certified.
    fn advance(&mut self, certificate: Certificate)
        requires
            old(self)@.well_formed(),
            old(self)@.frontier <= certificate@.position() <= old(self)@.config.last.0,
        ensures
            final(self)@ == old(self)@.advanced(certificate@),
    {
        let ghost start = self@;
        let ghost held = start.confirmed.insert(certificate@.position(), certificate@);
        let ghost last = start.config.last.0;
        self.confirmed.insert(certificate.item.position.0, certificate);
        assert(self@.confirmed =~= held);
        assert(held_from(held, start.frontier as int) =~= held);
        loop
            invariant_except_break
                last == start.config.last.0,
                held == start.confirmed.insert(certificate@.position(), certificate@),
                !start.complete || start.frontier == last,
                start.frontier <= self@.frontier <= last,
                self@ == (EngineView {
                    frontier: self@.frontier,
                    confirmed: held_from(held, self@.frontier as int),
                    ..start
                }),
                next_gap(held, start.frontier, last) == next_gap(held, self@.frontier, last),
            ensures
                self@ == start.advanced(certificate@),
            decreases last - self@.frontier,
        {
            let frontier = self.frontier;
            if !self.drop_confirmed(frontier) {
                assert(self@ =~= start.advanced(certificate@));
                break;
            }
            if frontier == self.config.last.0 {
                self.complete = true;
                assert(self@ =~= start.advanced(certificate@));
                break;
            }
            self.frontier = frontier + 1;
            assert(self@.confirmed =~= held_from(held, frontier + 1));
        }
    }

    /// Takes in a certificate.
    ///
    /// One of another epoch, of a position that is not in the range or behind the frontier, or of a
    /// position that is certified already, changes nothing. Any other is journaled, made durable
    /// and then reported; its position is live no longer, and the window moves on.
    pub fn accept_certificate(&mut self, certificate: Certificate) -> (actions: Vec<Action>)
        requires
            old(self)@.well_formed(),
            !old(self)@.conflicts(certificate@),
        ensures
            final(self)@ == old(self)@.accepted(certificate@),
            final(self)@.well_formed(),
            actions_view(actions@) == old(self)@.accept_actions(certificate@),
    {
        proof {
            lemma_accepted(self@, certificate@);
        }
        let mut actions = no_actions();
        let position = certificate.item.position.0;
        if certificate.epoch != self.config.epoch || position < self.frontier || position
            > self.config.last.0 || self.is_confirmed(position) {
            return actions;
        }
        let section = position / self.config.journal_heights_per_section;
        push_action(&mut actions, Action::Append { section, certificate: certificate.clone() });
        push_action(&mut actions, Action::Sync { section });
        push_action(&mut actions, Action::Report(certificate.clone()));
        let ghost start = self@;
        self.take_pending(position);
        if self.requested.remove(&position) {
            push_action(&mut actions, Action::AbortDigest(Height(position)));
        }
        deadlines::remove(&mut self.deadlines, position);
        assert(self@ =~= start.closed(position));
        proof {
            lemma_closed(start, position);
            lemma_advanced(start.closed(position), certificate@);
        }
        self.advance(certificate);
        let openings = self.fill_window();
        push_requests(&mut actions, &openings);
        assert(actions_view(actions@) =~= start.accept_actions(certificate@));
        actions
    }

    /// Holds an acknowledgement, unless its signer has one already, and says whether it was of use
    /// and whether a quorum now acknowledged the same item.
    pub fn add_ack(&mut self, ack: &Ack) -> (outcome: AckOutcome)
        requires
            old(self)@.well_formed(),
        ensures
            final(self)@ == old(self)@.with_ack(ack@),
            final(self)@.well_formed(),
            match outcome {
                AckOutcome::Refused => !old(self)@.counts(ack@),
                AckOutcome::Held => old(self)@.counts(ack@) && !old(self)@.completes(ack@),
                AckOutcome::Quorum(acks) => old(self)@.assembles(ack@, acks_view(acks@)),
            },
    {
        proof {
            lemma_with_ack(self@, ack@);
        }
        let ghost start = self@;
        let position = ack.item.position.0;
        let signer = ack.attestation.signer.0;
        let (digest, mut shares) = match self.take_pending(position) {
            None => {
                assert(self@ =~= start);
                return AckOutcome::Refused;
            },
            Some(Pending::Unverified(shares)) => (None, shares),
            Some(Pending::Verified(digest, shares)) => {
                if !digest.same(&ack.item.digest) {
                    self.put_pending(position, Pending::Verified(digest, shares));
                    assert(self@ =~= start);
                    return AckOutcome::Refused;
                }
                (Some(digest), shares)
            },
        };
        let ghost before = shares_view(shares@);
        assert(before == start.pending[position].shares());
        if !shares.contains_key(&signer) {
            shares.insert(signer, ack.clone());
        }
        assert(shares_view(shares@) =~= with_share(before, ack@));
        assert(start.with_ack(ack@).pending[position].consistent(position));
        assert forall|other: u32| #[trigger] shares@.contains_key(other) implies
            shares@[other]@.attestation.signer.0 == other by {
            assert(with_share(before, ack@).contains_key(other));
        }
        let matching = matching(&shares, &ack.item.digest);
        proof {
            lemma_lists(acks_view(matching@), shares_view(shares@), ack@.item.digest);
        }
        let pending = match digest {
            None => Pending::Unverified(shares),
            Some(digest) => Pending::Verified(digest, shares),
        };
        self.put_pending(position, pending);
        assert(self@ =~= start.with_ack(ack@));
        let quorum = self.config.faults.quorum(self.config.participants);
        if matching.len() < quorum as usize {
            AckOutcome::Held
        } else {
            AckOutcome::Quorum(matching)
        }
    }

    /// Takes in the certificate that a quorum of acknowledgements of `item` was assembled to.
    pub fn certify(&mut self, item: Item, proof: Vec<u8>) -> (actions: Vec<Action>)
        requires
            old(self)@.well_formed(),
            !old(self)@.conflicts(old(self)@.certificate(item@, proof@)),
        ensures
            final(self)@ == old(self)@.accepted(old(self)@.certificate(item@, proof@)),
            final(self)@.well_formed(),
            actions_view(actions@) == old(self)@.accept_actions(
                old(self)@.certificate(item@, proof@),
            ),
    {
        let certificate = Certificate { epoch: self.config.epoch, item, certificate: proof };
        assert(certificate@ == self@.certificate(item@, proof@));
        self.accept_certificate(certificate)
    }

    /// Holds an acknowledgement. Once a quorum acknowledged the same item, `assemble` turns their
    /// acknowledgements, in the order of their signers, into the proof of a certificate, which is
    /// then taken in. Returns whether the acknowledgement was of use, and what is to be done.
    pub fn insert_ack<A: FnOnce(&Vec<Ack>) -> Vec<u8>>(&mut self, ack: Ack, assemble: A) -> (result:
        (bool, Vec<Action>))
        requires
            old(self)@.well_formed(),
            forall|acks: Vec<Ack>|
                old(self)@.assembles(ack@, acks_view(acks@)) ==> #[trigger] call_requires(
                    assemble,
                    (&acks,),
                ),
        ensures
            final(self)@.well_formed(),
            result.0 == old(self)@.counts(ack@),
            exists|proof: Seq<u8>| #[trigger]
                assembled(old(self)@, ack@, assemble, proof) && final(self)@ == old(self)@.after_ack(
                    ack@,
                    proof,
                ) && actions_view(result.1@) == old(self)@.ack_actions(ack@, proof),
    {
        let ghost start = self@;
        match self.add_ack(&ack) {
            AckOutcome::Refused => {
                assert(assembled(start, ack@, assemble, Seq::empty()));
                (false, no_actions())
            },
            AckOutcome::Held => {
                assert(assembled(start, ack@, assemble, Seq::empty()));
                (true, no_actions())
            },
            AckOutcome::Quorum(acks) => {
                let proof = assemble(&acks);
                proof {
                    lemma_completes(start, ack@, proof@);
                    assert(assembled(start, ack@, assemble, proof@));
                }
                (true, self.certify(ack.item, proof))
            },
        }
    }

    /// Proposes a digest at a position that awaits one, drops the acknowledgements there of anything
    /// else, and returns whether the position awaited a digest.
    pub fn adopt_digest(&mut self, position: Height, digest: &Digest) -> (adopted: bool)
        requires
            old(self)@.well_formed(),
            !old(self)@.requested.contains(position.0),
        ensures
            adopted == old(self)@.awaits(position.0),
            final(self)@ == old(self)@.proposed(position.0, digest@),
            final(self)@.well_formed(),
    {
        proof {
            lemma_proposed(self@, position.0, digest@);
        }
        let ghost start = self@;
        match self.take_pending(position.0) {
            None => {
                assert(self@ =~= start);
                false
            },
            Some(Pending::Unverified(shares)) => {
                let kept = keep_matching(&shares, digest);
                self.put_pending(position.0, Pending::Verified(digest.clone(), kept));
                assert(self@ =~= start.proposed(position.0, digest@));
                true
            },
            Some(pending) => {
                self.put_pending(position.0, pending);
                assert(self@ =~= start);
                false
            },
        }
    }

    /// Sets the time at which the acknowledgement of a position is due again, and returns its
    /// broadcast.
    pub fn announce(&mut self, ack: &Ack, now: u128) -> (action: Action)
        requires
            old(self)@.well_formed(),
            old(self)@.pending.contains_key(ack@.item.position.0),
            old(self)@.pending[ack@.item.position.0] is Verified,
            now + old(self)@.config.rebroadcast_timeout <= u128::MAX,
        ensures
            final(self)@ == old(self)@.scheduled(ack@.item.position.0, now),
            final(self)@.well_formed(),
            action@ == old(self)@.broadcast(ack@),
    {
        proof {
            lemma_scheduled(self@, ack@.item.position.0, now);
        }
        deadlines::put(
            &mut self.deadlines,
            ack.item.position.0,
            now + self.config.rebroadcast_timeout,
        );
        Action::Broadcast { ack: ack.clone(), priority: self.config.priority_acks }
    }

    /// Takes in the digest that was proposed locally at a position.
    ///
    /// If the position awaited it, `sign` makes the local signature over it, where this node signs.
    /// The acknowledgement is then broadcast, set to be broadcast again after the configured time,
    /// and held like any other.
    pub fn handle_digest<
        S: FnOnce(&Item) -> Option<Attestation>,
        A: FnOnce(&Vec<Ack>) -> Vec<u8>,
    >(&mut self, position: Height, digest: Digest, now: u128, sign: S, assemble: A) -> (actions: Vec<
        Action,
    >)
        requires
            old(self)@.well_formed(),
            !old(self)@.requested.contains(position.0),
            old(self)@.pending.contains_key(position.0) ==> old(self)@.awaits(position.0),
            now + old(self)@.config.rebroadcast_timeout <= u128::MAX,
            digest_calls(old(self)@, position, digest@, now, sign, assemble),
        ensures
            final(self)@.well_formed(),
            exists|signed: Option<AttestationView>, proof: Seq<u8>| #[trigger]
                digest_answers(
                    old(self)@,
                    position,
                    digest@,
                    now,
                    sign,
                    assemble,
                    signed,
                    proof,
                ) && final(self)@ == old(self)@.after_digest(position, digest@, signed, proof, now)
                    && actions_view(actions@) == old(self)@.digest_actions(
                    position,
                    digest@,
                    signed,
                    proof,
                    now,
                ),
    {
        let ghost start = self@;
        if !self.adopt_digest(position, &digest) {
            assert(digest_answers(
                start,
                position,
                digest@,
                now,
                sign,
                assemble,
                None,
                Seq::empty(),
            ));
            return no_actions();
        }
        let item = Item { position, digest };
        let attestation = match sign(&item) {
            Some(attestation) => attestation,
            None => {
                assert(digest_answers(
                    start,
                    position,
                    digest@,
                    now,
                    sign,
                    assemble,
                    None,
                    Seq::empty(),
                ));
                return no_actions();
            },
        };
        let ack = Ack { item, attestation };
        let mut actions = no_actions();
        let broadcast = self.announce(&ack, now);
        push_action(&mut actions, broadcast);
        let ghost middle = self@;
        assert(ack@ == EngineView::own_ack(position, digest@, attestation@));
        let (_, more) = self.insert_ack(ack, assemble);
        append_actions(&mut actions, more);
        proof {
            let proof_bytes = choose|proof_bytes: Seq<u8>| #[trigger]
                assembled(middle, ack@, assemble, proof_bytes) && self@ == middle.after_ack(
                    ack@,
                    proof_bytes,
                ) && actions_view(more@) == middle.ack_actions(ack@, proof_bytes);
            assert(digest_answers(
                start,
                position,
                digest@,
                now,
                sign,
                assemble,
                Some(attestation@),
                proof_bytes,
            ));
            assert(actions_view(actions@) =~= start.digest_actions(
                position,
                digest@,
                Some(attestation@),
                proof_bytes,
                now,
            ));
        }
        actions
    }

    /// Looks at an acknowledgement from a peer, but not at its signature. The peer goes by the name
    /// `peer`, and is the participant `signer` if it is one.
    pub fn screen_ack(&self, ack: &Ack, peer: &str, signer: Option<Participant>) -> (result: Result<
        (),
        Error,
    >)
        requires
            self@.well_formed(),
        ensures
            match result {
                Ok(()) => self@.refusal(ack@, peer@, signer) is None,
                Err(error) => self@.refusal(ack@, peer@, signer) == Some(error@),
            },
    {
        let position = ack.item.position;
        if position.0 < self.config.first.0 || position.0 > self.config.last.0 {
            return Err(Error::AckPosition(position));
        }
        let pending = match self.pending.get(&position.0) {
            Some(pending) => pending,
            None => return Err(Error::AckPosition(position)),
        };
        assert(self@.pending[position.0] == pending@);
        let signer = match signer {
            Some(signer) => signer,
            None => return Err(Error::PeerMismatch),
        };
        if signer.0 != ack.attestation.signer.0 {
            return Err(Error::PeerMismatch);
        }
        let shares = match pending {
            Pending::Unverified(shares) => shares,
            Pending::Verified(digest, shares) => {
                if !digest.same(&ack.item.digest) {
                    return Err(Error::AckDigest(position));
                }
                shares
            },
        };
        if shares.contains_key(&signer.0) {
            return Err(Error::AckDuplicate(peer.to_owned(), position));
        }
        Ok(())
    }

    /// Checks an acknowledgement from a peer. Its signature is verified last, and only if nothing
    /// else speaks against it.
    pub fn validate_ack<V: FnOnce(&Ack) -> bool>(
        &self,
        ack: &Ack,
        peer: &str,
        signer: Option<Participant>,
        verify: V,
    ) -> (result: Result<(), Error>)
        requires
            self@.well_formed(),
            self@.refusal(ack@, peer@, signer) is None ==> call_requires(verify, (ack,)),
        ensures
            exists|verified: bool| #[trigger]
                checked(self@.refusal(ack@, peer@, signer) is None, verify, ack, verified)
                    && match result {
                    Ok(()) => self@.ack_error(ack@, peer@, signer, verified) is None,
                    Err(error) => self@.ack_error(ack@, peer@, signer, verified) == Some(error@),
                },
    {
        match self.screen_ack(ack, peer, signer) {
            Err(error) => {
                assert(checked(false, verify, ack, true));
                Err(error)
            },
            Ok(()) => {
                let verified = verify(ack);
                assert(checked(true, verify, ack, verified));
                if verified {
                    Ok(())
                } else {
                    Err(Error::InvalidAckSignature)
                }
            },
        }
    }

    /// What becomes of a recovered certificate without a look at its proof.
    pub fn screen_certificate(&self, certificate: &Certificate) -> (outcome: Option<
        CertificateOutcome,
    >)
        ensures
            outcome == self@.screened(certificate@),
    {
        let position = certificate.item.position.0;
        if certificate.epoch != self.config.epoch || position < self.config.first.0 || position
            > self.config.last.0 {
            return Some(CertificateOutcome::Invalid);
        }
        if self.complete || position < self.frontier || self.is_confirmed(position) {
            return Some(CertificateOutcome::Ignored);
        }
        if !self.is_pending(position) {
            return Some(CertificateOutcome::Ignored);
        }
        None
    }

    /// Takes in a recovered certificate, where `verified` says whether its proof verifies.
    pub fn settle_certificate(&mut self, certificate: Certificate, verified: bool) -> (result: (
        CertificateOutcome,
        Vec<Action>,
    ))
        requires
            old(self)@.well_formed(),
        ensures
            result.0 == old(self)@.outcome(certificate@, verified),
            final(self)@ == old(self)@.after_certificate(certificate@, verified),
            final(self)@.well_formed(),
            actions_view(result.1@) == old(self)@.certificate_actions(certificate@, verified),
    {
        match self.screen_certificate(&certificate) {
            Some(outcome) => (outcome, no_actions()),
            None => if verified {
                let actions = self.accept_certificate(certificate);
                (CertificateOutcome::Accepted, actions)
            } else {
                (CertificateOutcome::Invalid, no_actions())
            },
        }
    }

    /// Takes in a recovered certificate. Its proof is verified only if nothing else decides what
    /// becomes of it.
    pub fn handle_external_certificate<C: FnOnce(&Certificate) -> bool>(
        &mut self,
        certificate: Certificate,
        verify: C,
    ) -> (result: (CertificateOutcome, Vec<Action>))
        requires
            old(self)@.well_formed(),
            old(self)@.screened(certificate@) is None ==> call_requires(verify, (&certificate,)),
        ensures
            final(self)@.well_formed(),
            exists|verified: bool| #[trigger]
                checked(
                    old(self)@.screened(certificate@) is None,
                    verify,
                    &certificate,
                    verified,
                ) && result.0 == old(self)@.outcome(certificate@, verified) && final(self)@ == old(
                    self,
                )@.after_certificate(certificate@, verified) && actions_view(result.1@) == old(
                    self,
                )@.certificate_actions(certificate@, verified),
    {
        if let Some(outcome) = self.screen_certificate(&certificate) {
            assert(checked(false, verify, &certificate, false));
            return (outcome, no_actions());
        }
        let verified = verify(&certificate);
        assert(checked(true, verify, &certificate, verified));
        self.settle_certificate(certificate, verified)
    }

    /// Broadcasts the local acknowledgement of a position again, if there is one, and sets the time
    /// of the next broadcast.
    pub fn rebroadcast(&mut self, position: Height, now: u128) -> (actions: Vec<Action>)
        requires
            old(self)@.well_formed(),
            now + old(self)@.config.rebroadcast_timeout <= u128::MAX,
        ensures
            final(self)@ == old(self)@.after_rebroadcast(position.0, now),
            final(self)@.well_formed(),
            actions_view(actions@) == old(self)@.rebroadcast_actions(position.0),
    {
        let mut actions = no_actions();
        let me = match self.config.me {
            Some(me) => me,
            None => return actions,
        };
        let shares = match self.pending.get(&position.0) {
            Some(Pending::Verified(_, shares)) => shares,
            _ => return actions,
        };
        let ack = match shares.get(&me.0) {
            Some(ack) => ack.clone(),
            None => return actions,
        };
        assert(self@.pending[position.0].shares()[me.0] == ack@);
        assert(self@.pending[position.0].consistent(position.0));
        let broadcast = self.announce(&ack, now);
        push_action(&mut actions, broadcast);
        actions
    }

    /// Looks at a certificate from the journal, but not at its proof.
    pub fn screen_replayed(&self, certificate: &Certificate) -> (result: Result<(), JournalError>)
        ensures
            match result {
                Ok(()) => self@.replay_refusal(certificate@) is None,
                Err(error) => self@.replay_refusal(certificate@) == Some(error),
            },
    {
        let position = certificate.item.position.0;
        if certificate.epoch != self.config.epoch {
            return Err(JournalError::CertificateEpoch);
        }
        if position < self.config.first.0 || position > self.config.last.0 {
            return Err(JournalError::CertificateRange);
        }
        Ok(())
    }

    /// Whether a certificate contradicts one that is held.
    fn contradicts(&self, certificate: &Certificate) -> (conflict: bool)
        ensures
            conflict == self@.conflicts(certificate@),
    {
        let position = certificate.item.position.0;
        if certificate.epoch != self.config.epoch || position < self.frontier || position
            > self.config.last.0 {
            return false;
        }
        match self.confirmed.get(&position) {
            Some(existing) => !existing.item.digest.same(&certificate.item.digest),
            None => false,
        }
    }

    /// Takes in a certificate from the journal, where `verified` says whether its proof verifies.
    /// One that is not refused is reported.
    pub fn settle_replayed(&mut self, certificate: Certificate, verified: bool) -> (result: Result<
        Vec<Action>,
        JournalError,
    >)
        requires
            old(self)@.well_formed(),
            !old(self)@.pending.contains_key(certificate@.position()),
        ensures
            final(self)@ == old(self)@.after_replay(certificate@, verified),
            final(self)@.well_formed(),
            match result {
                Ok(actions) => old(self)@.replay_error(certificate@, verified) is None
                    && actions_view(actions@) == seq![ActionView::Report(certificate@)],
                Err(error) => old(self)@.replay_error(certificate@, verified) == Some(error),
            },
    {
        match self.screen_replayed(&certificate) {
            Ok(()) => {},
            Err(error) => return Err(error),
        }
        if !verified {
            return Err(JournalError::CertificateSignature);
        }
        if self.contradicts(&certificate) {
            return Err(JournalError::CertificateConflict);
        }
        let mut actions = no_actions();
        push_action(&mut actions, Action::Report(certificate.clone()));
        assert(actions_view(actions@) =~= seq![ActionView::Report(certificate@)]);
        if certificate.item.position.0 >= self.frontier {
            proof {
                lemma_advanced(self@, certificate@);
            }
            self.advance(certificate);
        }
        Ok(actions)
    }

    /// Takes in a certificate from the journal.
    pub fn replay_certificate<C: FnOnce(&Certificate) -> bool>(
        &mut self,
        certificate: Certificate,
        verify: C,
    ) -> (result: Result<Vec<Action>, JournalError>)
        requires
            old(self)@.well_formed(),
            !old(self)@.pending.contains_key(certificate@.position()),
            old(self)@.replay_refusal(certificate@) is None ==> call_requires(
                verify,
                (&certificate,),
            ),
        ensures
            final(self)@.well_formed(),
            exists|verified: bool| #[trigger]
                checked(
                    old(self)@.replay_refusal(certificate@) is None,
                    verify,
                    &certificate,
                    verified,
                ) && final(self)@ == old(self)@.after_replay(certificate@, verified)
                    && match result {
                    Ok(actions) => old(self)@.replay_error(certificate@, verified) is None
                        && actions_view(actions@) == seq![ActionView::Report(certificate@)],
                    Err(error) => old(self)@.replay_error(certificate@, verified) == Some(error),
                },
    {
        match self.screen_replayed(&certificate) {
            Ok(()) => {},
            Err(error) => {
                assert(checked(false, verify, &certificate, true));
                return Err(error);
            },
        }
        let verified = verify(&certificate);
        assert(checked(true, verify, &certificate, verified));
        self.settle_replayed(certificate, verified)
    }

    /// Forgets a request for the digest at a position.
    fn answer_request(&mut self, position: Height)
        requires
            old(self)@.well_formed(),
        ensures
            final(self)@ == old(self)@.answered(position.0),
            final(self)@.well_formed(),
    {
        self.requested.remove(&position.0);
        assert(self@ =~= old(self)@.answered(position.0));
    }

    /// Stops the engine if it is complete.
    fn close(&self, actions: &mut Vec<Action>)
        ensures
            actions_view(final(actions)@) == actions_view(old(actions)@) + self@.closing(),
    {
        if self.complete {
            push_action(actions, Action::SyncAll);
            push_action(actions, Action::Stop(EngineOutcome::Completed));
        }
        assert(actions_view(actions@) =~= actions_view(old(actions)@) + self@.closing());
    }

    /// Begins: makes the window live, or stops if everything is certified already.
    pub fn begin(&mut self) -> (actions: Vec<Action>)
        requires
            old(self)@.well_formed(),
        ensures
            final(self)@ == old(self)@.filled(),
            final(self)@.well_formed(),
            actions_view(actions@) == requests(old(self)@.openings()) + old(self)@.closing(),
    {
        proof {
            lemma_filled(self@);
        }
        let mut actions = no_actions();
        let openings = self.fill_window();
        push_requests(&mut actions, &openings);
        self.close(&mut actions);
        assert(actions_view(actions@) =~= requests(old(self)@.openings()) + old(self)@.closing());
        actions
    }

    /// The first deadline.
    pub fn next_deadline(&self) -> (deadline: Option<u128>)
        ensures
            match deadline {
                Some(time) => !self@.deadlines.is_empty() && time == self@.deadlines[first_item(
                    self@.deadlines,
                )],
                None => self@.deadlines.is_empty(),
            },
    {
        match deadlines::peek(&self.deadlines) {
            Some((position, time)) => {
                proof {
                    lemma_first_item(self@.deadlines, position);
                }
                Some(time)
            },
            None => None,
        }
    }

    /// Handles an event, and returns what is to be done about it.
    pub fn step<
        V: FnOnce(&Ack) -> bool,
        S: FnOnce(&Item) -> Option<Attestation>,
        A: FnOnce(&Vec<Ack>) -> Vec<u8>,
        C: FnOnce(&Certificate) -> bool,
    >(&mut self, event: Event, signing: Signing<V, S, A, C>) -> (actions: Vec<Action>)
        requires
            old(self)@.well_formed(),
            old(self)@.possible(event@),
            step_calls(old(self)@, event, signing),
        ensures
            final(self)@.well_formed(),
            exists|answers: Answers| #[trigger]
                step_answers(old(self)@, event, signing, answers) && final(self)@ == old(
                    self,
                )@.step(event@, answers) && actions_view(actions@) == old(self)@.step_actions(
                    event@,
                    answers,
                ),
    {
        let ghost start = self@;
        let ghost happened = event@;
        let ghost mut answers = Answers { verified: true, signed: None, proof: Seq::empty() };
        let mut actions = no_actions();
        match event {
            Event::Shutdown | Event::ReceiverFailed => {
                push_action(&mut actions, Action::SyncAll);
                let outcome = if self.complete {
                    EngineOutcome::Completed
                } else {
                    EngineOutcome::Stopped
                };
                push_action(&mut actions, Action::Stop(outcome));
                assert(step_answers(start, event, signing, answers));
                assert(actions_view(actions@) =~= start.step_actions(happened, answers));
                return actions;
            },
            Event::Undecodable => {
                push_action(&mut actions, Action::Block);
                assert(step_answers(start, event, signing, answers));
            },
            Event::Ack { ack, peer, signer } => match self.validate_ack(
                &ack,
                peer.as_str(),
                signer,
                signing.verify_ack,
            ) {
                Err(error) => {
                    if error.blockable() {
                        push_action(&mut actions, Action::Block);
                    }
                    proof {
                        let verified = choose|verified: bool| #[trigger]
                            checked(
                                start.refusal(ack@, peer@, signer) is None,
                                signing.verify_ack,
                                &ack,
                                verified,
                            ) && start.ack_error(ack@, peer@, signer, verified) == Some(error@);
                        answers = Answers { verified, ..answers };
                        assert(step_answers(start, event, signing, answers));
                    }
                },
                Ok(()) => {
                    let (_, more) = self.insert_ack(ack, signing.assemble);
                    append_actions(&mut actions, more);
                    proof {
                        let verified = choose|verified: bool| #[trigger]
                            checked(
                                start.refusal(ack@, peer@, signer) is None,
                                signing.verify_ack,
                                &ack,
                                verified,
                            ) && start.ack_error(ack@, peer@, signer, verified) is None;
                        let bytes = choose|bytes: Seq<u8>| #[trigger]
                            assembled(start, ack@, signing.assemble, bytes) && self@
                                == start.after_ack(ack@, bytes) && actions_view(more@)
                                == start.ack_actions(ack@, bytes);
                        answers = Answers { verified, signed: None, proof: bytes };
                        assert(step_answers(start, event, signing, answers));
                    }
                },
            },
            Event::DigestAborted => {
                assert(step_answers(start, event, signing, answers));
            },
            Event::DigestDeclined { position } => {
                self.answer_request(position);
                assert(step_answers(start, event, signing, answers));
            },
            Event::DigestReady { position, digest, now } => {
                self.answer_request(position);
                let ghost middle = self@;
                let ghost value = digest@;
                let more = self.handle_digest(
                    position,
                    digest,
                    now,
                    signing.sign,
                    signing.assemble,
                );
                append_actions(&mut actions, more);
                proof {
                    let (signed, bytes) = choose|signed: Option<AttestationView>, bytes: Seq<u8>|
                        #[trigger]
                        digest_answers(
                            middle,
                            position,
                            value,
                            now,
                            signing.sign,
                            signing.assemble,
                            signed,
                            bytes,
                        ) && self@ == middle.after_digest(position, value, signed, bytes, now)
                            && actions_view(more@) == middle.digest_actions(
                            position,
                            value,
                            signed,
                            bytes,
                            now,
                        );
                    answers = Answers { verified: true, signed, proof: bytes };
                    assert(step_answers(start, event, signing, answers));
                }
            },
            Event::Deadline { now } => {
                if let Some((position, _)) = deadlines::pop(&mut self.deadlines) {
                    proof {
                        lemma_first_item(start.deadlines, position);
                    }
                    assert(self@ =~= start.popped());
                    let more = self.rebroadcast(Height(position), now);
                    append_actions(&mut actions, more);
                }
                assert(step_answers(start, event, signing, answers));
            },
            Event::Certificate(certificate) => {
                let (outcome, more) = self.handle_external_certificate(
                    certificate,
                    signing.verify_certificate,
                );
                append_actions(&mut actions, more);
                push_action(&mut actions, Action::Reply(outcome));
                proof {
                    let verified = choose|verified: bool| #[trigger]
                        checked(
                            start.screened(certificate@) is None,
                            signing.verify_certificate,
                            &certificate,
                            verified,
                        ) && outcome == start.outcome(certificate@, verified) && self@
                            == start.after_certificate(certificate@, verified) && actions_view(
                            more@,
                        ) == start.certificate_actions(certificate@, verified);
                    answers = Answers { verified, ..answers };
                    assert(step_answers(start, event, signing, answers));
                }
            },
        }
        assert(actions_view(actions@) =~= start.reactions(happened, answers));
        self.close(&mut actions);
        actions
    }
}

/// Whether `verified` can be what `verify` says of `subject`, if it was asked at all.
pub open spec fn checked<T, V: FnOnce(&T) -> bool>(
    asked: bool,
    verify: V,
    subject: &T,
    verified: bool,
) -> bool {
    asked ==> call_ensures(verify, (subject,), verified)
}

/// Whether `sign` and `assemble` can be called as a digest may need.
pub open spec fn digest_calls<
    S: FnOnce(&Item) -> Option<Attestation>,
    A: FnOnce(&Vec<Ack>) -> Vec<u8>,
>(
    engine: EngineView,
    position: Height,
    digest: Seq<u8>,
    now: u128,
    sign: S,
    assemble: A,
) -> bool {
    let scheduled = engine.proposed(position.0, digest).scheduled(position.0, now);
    &&& forall|item: Item|
        engine.awaits(position.0) && item@ == (ItemView { position, digest }) ==> #[trigger]
            call_requires(sign, (&item,))
    &&& forall|attestation: Attestation, acks: Vec<Ack>|
        #![trigger attestation@, call_requires(assemble, (&acks,))]
        engine.awaits(position.0) && scheduled.assembles(
            EngineView::own_ack(position, digest, attestation@),
            acks_view(acks@),
        ) ==> call_requires(assemble, (&acks,))
}

/// Whether `signed` can be what `sign` makes of the item that a digest leads to, and `proof` what
/// `assemble` makes of the quorum that it then completes, where it does.
pub open spec fn digest_answers<
    S: FnOnce(&Item) -> Option<Attestation>,
    A: FnOnce(&Vec<Ack>) -> Vec<u8>,
>(
    engine: EngineView,
    position: Height,
    digest: Seq<u8>,
    now: u128,
    sign: S,
    assemble: A,
    signed: Option<AttestationView>,
    proof: Seq<u8>,
) -> bool {
    let scheduled = engine.proposed(position.0, digest).scheduled(position.0, now);
    engine.awaits(position.0) ==> {
        &&& exists|item: Item, attestation: Option<Attestation>| #[trigger]
            call_ensures(sign, (&item,), attestation) && item@ == (ItemView { position, digest })
                && signed == option_view(attestation)
        &&& signed is Some ==> assembled(
            scheduled,
            EngineView::own_ack(position, digest, signed->0),
            assemble,
            proof,
        )
    }
}

/// The model of an optional signature.
pub open spec fn option_view(attestation: Option<Attestation>) -> Option<AttestationView> {
    match attestation {
        Some(attestation) => Some(attestation@),
        None => None,
    }
}

/// Whether `assemble`, if `ack` completes a quorum, can turn the acknowledgements into `proof`.
pub open spec fn assembled<A: FnOnce(&Vec<Ack>) -> Vec<u8>>(
    engine: EngineView,
    ack: AckView,
    assemble: A,
    proof: Seq<u8>,
) -> bool {
    engine.completes(ack) ==> exists|acks: Vec<Ack>, bytes: Vec<u8>| #[trigger]
        call_ensures(assemble, (&acks,), bytes) && engine.assembles(ack, acks_view(acks@)) && bytes@
            == proof
}

} // verus!
