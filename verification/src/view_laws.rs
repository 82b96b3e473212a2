//! A model says all that the value says: nothing is left out, exchanged or moved.
use crate::action::{actions_view, Action, ActionView};
use crate::checkpoints::{
    effects_view, requests_view, stored_view, Effect, EffectView, Reply, ReplyView, Request,
    RequestView,
};
use crate::engine::option_view;
use crate::event::{Event, EventView};
use crate::header::Header;
use crate::journal::{
    Entry, EntryView, Record, RecordStart, RecordStartView, RecordView,
};
use crate::recovery::{command_view, keys_view, Command, CommandView, KeyView, RecoveryKey};
use crate::shares::{acks_view, shares_view};
use crate::types::{Ack, Attestation, Certificate, Digest, Error, ErrorView, Item};
use vstd::prelude::*;

verus! {

/// Items, acknowledgements and certificates are modelled field by field.
pub proof fn law_items_are_modelled_whole(
    item: Item,
    attestation: Attestation,
    ack: Ack,
    certificate: Certificate,
)
    ensures
        item@.position == item.position,
        item@.digest == item.digest.bytes@,
        attestation@.signer == attestation.signer,
        attestation@.signature == attestation.signature@,
        ack@.item == ack.item@,
        ack@.attestation == ack.attestation@,
        certificate@.epoch == certificate.epoch,
        certificate@.item == certificate.item@,
        certificate@.certificate == certificate.certificate@,
        certificate@.position() == certificate.item.position.0,
{
}

/// Lists of acknowledgements are modelled one by one, and those kept by signer under their signer.
pub proof fn law_acknowledgements_are_modelled_whole(
    acks: Seq<Ack>,
    shares: Map<u32, Ack>,
    signed: Option<Attestation>,
    i: int,
    signer: u32,
)
    ensures
        acks_view(acks).len() == acks.len(),
        0 <= i < acks.len() ==> acks_view(acks)[i] == acks[i]@,
        shares_view(shares).contains_key(signer) == shares.contains_key(signer),
        shares.contains_key(signer) ==> shares_view(shares)[signer] == shares[signer]@,
        option_view(signed) is Some == signed is Some,
        signed is Some ==> option_view(signed)->0 == signed->0@,
{
}

/// Refusals are modelled whole.
pub proof fn law_errors_are_modelled_whole(error: Error)
    ensures
        match error {
            Error::AckPosition(position) => error@ == ErrorView::AckPosition(position),
            Error::PeerMismatch => error@ == ErrorView::PeerMismatch,
            Error::AckDigest(position) => error@ == ErrorView::AckDigest(position),
            Error::AckDuplicate(peer, position) => error@ == ErrorView::AckDuplicate(
                peer@,
                position,
            ),
            Error::InvalidAckSignature => error@ == ErrorView::InvalidAckSignature,
        },
{
}

/// Actions are modelled whole, and lists of them one by one.
pub proof fn law_actions_are_modelled_whole(action: Action, actions: Seq<Action>, i: int)
    ensures
        actions_view(actions).len() == actions.len(),
        0 <= i < actions.len() ==> actions_view(actions)[i] == actions[i]@,
        match action {
            Action::RequestDigest(position) => action@ == ActionView::RequestDigest(position),
            Action::AbortDigest(position) => action@ == ActionView::AbortDigest(position),
            Action::AppendHeader { section, header } => action@ == (ActionView::AppendHeader {
                section,
                header: header@,
            }),
            Action::Append { section, certificate } => action@ == (ActionView::Append {
                section,
                certificate: certificate@,
            }),
            Action::Sync { section } => action@ == (ActionView::Sync { section }),
            Action::SyncAll => action@ == ActionView::SyncAll,
            Action::Report(certificate) => action@ == ActionView::Report(certificate@),
            Action::Broadcast { ack, priority } => action@ == (ActionView::Broadcast {
                ack: ack@,
                priority,
            }),
            Action::Block => action@ == ActionView::Block,
            Action::Reply(outcome) => action@ == ActionView::Reply(outcome),
            Action::Stop(outcome) => action@ == ActionView::Stop(outcome),
        },
{
}

/// Events are modelled whole.
pub proof fn law_events_are_modelled_whole(event: Event)
    ensures
        match event {
            Event::Shutdown => event@ == EventView::Shutdown,
            Event::ReceiverFailed => event@ == EventView::ReceiverFailed,
            Event::Undecodable => event@ == EventView::Undecodable,
            Event::Ack { ack, peer, signer } => event@ == (EventView::Ack {
                ack: ack@,
                peer: peer@,
                signer,
            }),
            Event::DigestAborted => event@ == EventView::DigestAborted,
            Event::DigestDeclined { position } => event@ == (EventView::DigestDeclined {
                position,
            }),
            Event::DigestReady { position, digest, now } => event@ == (EventView::DigestReady {
                position,
                digest: digest.bytes@,
                now,
            }),
            Event::Deadline { now } => event@ == (EventView::Deadline { now }),
            Event::Certificate(certificate) => event@ == EventView::Certificate(certificate@),
        },
{
}

/// Headers and records are modelled whole.
pub proof fn law_records_are_modelled_whole(
    header: Header,
    record: Record,
    start: RecordStart,
    entry: Entry,
)
    ensures
        header@.version == header.version,
        header@.committee == header.committee@,
        header@.epoch == header.epoch,
        header@.first == header.first,
        header@.last == header.last,
        header@.window == header.window,
        match record {
            Record::Header(first) => record@ == RecordView::Header(first@),
            Record::Certificate(bytes) => record@ == RecordView::Certificate(bytes@),
        },
        match start {
            RecordStart::Header(first) => start@ == RecordStartView::Header(first@),
            RecordStart::Certificate => start@ == RecordStartView::Certificate,
        },
        match entry {
            Entry::Header(first) => entry@ == EntryView::Header(first@),
            Entry::Certificate(certificate) => entry@ == EntryView::Certificate(certificate@),
        },
{
}

/// Two recovery keys are the same just where namespace, epoch and position are. Lists of them are
/// modelled one by one, and commands whole.
pub proof fn law_keys_are_modelled_whole(
    a: RecoveryKey,
    b: RecoveryKey,
    keys: Seq<RecoveryKey>,
    i: int,
    command: Command,
    key: KeyView,
)
    ensures
        a@ == b@ <==> a.namespace.0@ == b.namespace.0@ && a.epoch == b.epoch && a.position
            == b.position,
        keys_view(keys).len() == keys.len(),
        0 <= i < keys.len() ==> keys_view(keys)[i] == keys[i]@,
        command_view(None) is None,
        command_view(Some(command)) == Some(command@),
        match command {
            Command::Fetch(wanted) => command@ == CommandView::Fetch(wanted@),
            Command::Discard(given_up) => {
                &&& command@ is Discard
                &&& command@->Discard_0.contains(key) <==> exists|i: int|
                    0 <= i < given_up@.len() && #[trigger] given_up@[i]@ == key
            },
        },
{
    if let Command::Discard(given_up) = command {
        let all = keys_view(given_up@);
        if all.to_set().contains(key) {
            let j = choose|j: int| 0 <= j < all.len() && all[j] == key;
            assert(given_up@[j]@ == key);
        }
        if exists|i: int| 0 <= i < given_up@.len() && #[trigger] given_up@[i]@ == key {
            let j = choose|j: int| 0 <= j < given_up@.len() && #[trigger] given_up@[j]@ == key;
            assert(all[j] == key);
        }
    }
}

/// Requests, replies and effects are modelled whole, and lists of them one by one.
pub proof fn law_effects_are_modelled_whole<P, V>(
    request: Request<P, V>,
    reply: Reply<P, V>,
    effect: Effect<P, V>,
    waiting: Seq<Request<P, V>>,
    effects: Seq<Effect<P, V>>,
    stored: Option<Digest>,
    i: int,
)
    ensures
        match request {
            Request::Propose(asked) => request@ == RequestView::<P, V>::Propose(asked),
            Request::Verify(digest, asked) => request@ == RequestView::<P, V>::Verify(
                digest.bytes@,
                asked,
            ),
        },
        match reply {
            Reply::Proposed(asked, digest) => reply@ == ReplyView::<P, V>::Proposed(
                asked,
                digest.bytes@,
            ),
            Reply::Verified(asked, same) => reply@ == ReplyView::<P, V>::Verified(asked, same),
        },
        match effect {
            Effect::Persist { height, digest } => effect@ == (EffectView::<P, V>::Persist {
                height,
                digest: digest.bytes@,
            }),
            Effect::Reply(sent) => effect@ == EffectView::<P, V>::Reply(sent@),
            Effect::Acknowledge => effect@ == EffectView::<P, V>::Acknowledge,
        },
        requests_view(waiting).len() == waiting.len(),
        0 <= i < waiting.len() ==> requests_view(waiting)[i] == waiting[i]@,
        effects_view(effects).len() == effects.len(),
        0 <= i < effects.len() ==> effects_view(effects)[i] == effects[i]@,
        stored_view(stored) is Some == stored is Some,
        stored is Some ==> stored_view(stored)->0 == stored->0.bytes@,
{
}

} // verus!
