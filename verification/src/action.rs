//! What an aggregation engine asks its surroundings to do.
use crate::header::{Header, HeaderView};
use crate::types::{Ack, AckView, Certificate, CertificateView, Height};
use vstd::prelude::*;

verus! {

/// Result of submitting a recovered certificate to an active engine.
#[derive(Clone, Copy, Debug, PartialEq, Eq, Structural)]
pub enum CertificateOutcome {
    /// The certificate was valid and advanced local state.
    Accepted,
    /// The position was already certified or is no longer active.
    Ignored,
    /// The epoch, range, or signature was invalid.
    Invalid,
    /// The bounded ingress queue was full; the caller should retry later.
    Backpressured,
}

/// What became of a certificate on its way into an engine's bounded ingress queue.
#[derive(Clone, Copy, Debug, PartialEq, Eq, Structural)]
pub enum Enqueued {
    /// The queue took it.
    Taken,
    /// The queue was full.
    Full,
    /// The queue is closed: the engine has ended.
    Closed,
}

impl CertificateOutcome {
    /// What the submitter of a certificate learns, where `enqueued` says what the ingress queue did
    /// with it, and `reply` is the engine's answer, if one came. Only a full queue is worth another
    /// try; where the engine has ended, no position is active any longer.
    pub fn submitted(enqueued: Enqueued, reply: Option<CertificateOutcome>) -> (outcome:
        CertificateOutcome)
        ensures
            outcome == match enqueued {
                Enqueued::Full => CertificateOutcome::Backpressured,
                Enqueued::Closed => CertificateOutcome::Ignored,
                Enqueued::Taken => if reply is Some {
                    reply->0
                } else {
                    CertificateOutcome::Ignored
                },
            },
    {
        match enqueued {
            Enqueued::Full => CertificateOutcome::Backpressured,
            Enqueued::Closed => CertificateOutcome::Ignored,
            Enqueued::Taken => match reply {
                Some(outcome) => outcome,
                None => CertificateOutcome::Ignored,
            },
        }
    }
}

/// Reason an aggregation engine stopped.
#[derive(Clone, Copy, Debug, PartialEq, Eq, Structural)]
pub enum EngineOutcome {
    /// Every position in the configured range has a certificate.
    Completed,
    /// The engine stopped before certifying the full range.
    Stopped,
}

/// Something to be done outside the engine. Actions are done in the order in which they come, each
/// completely before the next begins.
#[derive(Debug, PartialEq, Eq)]
pub enum Action {
    /// Ask the application for the digest at a position.
    RequestDigest(Height),
    /// Stop waiting for the digest at a position.
    AbortDigest(Height),
    /// Append a header to a section of the journal.
    AppendHeader {
        /// The section.
        section: u64,
        /// What to append.
        header: Header,
    },
    /// Append a certificate to a section of the journal.
    Append {
        /// The section.
        section: u64,
        /// What to append.
        certificate: Certificate,
    },
    /// Make a section of the journal durable.
    Sync {
        /// The section.
        section: u64,
    },
    /// Make every section of the journal durable.
    SyncAll,
    /// Report a certificate.
    Report(Certificate),
    /// Send an acknowledgement to everyone.
    Broadcast {
        /// What to send.
        ack: Ack,
        /// Whether it goes as a priority message.
        priority: bool,
    },
    /// Block the peer that sent the message being handled.
    Block,
    /// Answer the submitter of the certificate being handled.
    Reply(CertificateOutcome),
    /// Stop the engine.
    Stop(EngineOutcome),
}

/// The model of an [`Action`].
pub enum ActionView {
    RequestDigest(Height),
    AbortDigest(Height),
    AppendHeader { section: u64, header: HeaderView },
    Append { section: u64, certificate: CertificateView },
    Sync { section: u64 },
    SyncAll,
    Report(CertificateView),
    Broadcast { ack: AckView, priority: bool },
    Block,
    Reply(CertificateOutcome),
    Stop(EngineOutcome),
}

impl View for Action {
    type V = ActionView;

    open spec fn view(&self) -> ActionView {
        match self {
            Action::RequestDigest(position) => ActionView::RequestDigest(*position),
            Action::AbortDigest(position) => ActionView::AbortDigest(*position),
            Action::AppendHeader { section, header } => ActionView::AppendHeader {
                section: *section,
                header: header@,
            },
            Action::Append { section, certificate } => ActionView::Append {
                section: *section,
                certificate: certificate@,
            },
            Action::Sync { section } => ActionView::Sync { section: *section },
            Action::SyncAll => ActionView::SyncAll,
            Action::Report(certificate) => ActionView::Report(certificate@),
            Action::Broadcast { ack, priority } => ActionView::Broadcast {
                ack: ack@,
                priority: *priority,
            },
            Action::Block => ActionView::Block,
            Action::Reply(outcome) => ActionView::Reply(*outcome),
            Action::Stop(outcome) => ActionView::Stop(*outcome),
        }
    }
}

/// The model of a list of actions.
pub open spec fn actions_view(actions: Seq<Action>) -> Seq<ActionView> {
    actions.map_values(|action: Action| action@)
}

/// The requests for the digests at `positions`.
pub open spec fn requests(positions: Seq<Height>) -> Seq<ActionView> {
    positions.map_values(|position: Height| ActionView::RequestDigest(position))
}

/// A list without actions.
pub(crate) fn no_actions() -> (actions: Vec<Action>)
    ensures
        actions_view(actions@) == Seq::<ActionView>::empty(),
{
    let actions: Vec<Action> = Vec::new();
    assert(actions_view(actions@) =~= Seq::empty());
    actions
}

/// Adds an action at the end.
pub(crate) fn push_action(actions: &mut Vec<Action>, action: Action)
    ensures
        actions_view(final(actions)@) == actions_view(old(actions)@).push(action@),
{
    actions.push(action);
    assert(actions_view(actions@) =~= actions_view(old(actions)@).push(action@));
}

/// Adds requests for the digests at `positions` at the end.
pub(crate) fn push_requests(actions: &mut Vec<Action>, positions: &Vec<Height>)
    ensures
        actions_view(final(actions)@) == actions_view(old(actions)@) + requests(positions@),
{
    let mut i: usize = 0;
    assert(requests(positions@.take(0)) =~= Seq::empty());
    while i < positions.len()
        invariant
            i <= positions.len(),
            actions_view(actions@) == actions_view(old(actions)@) + requests(
                positions@.take(i as int),
            ),
        decreases positions.len() - i,
    {
        push_action(actions, Action::RequestDigest(positions[i]));
        assert(requests(positions@.take(i + 1)) =~= requests(positions@.take(i as int)).push(
            ActionView::RequestDigest(positions@[i as int]),
        ));
        i += 1;
    }
    assert(positions@.take(i as int) =~= positions@);
}

/// Adds further actions at the end.
pub(crate) fn append_actions(actions: &mut Vec<Action>, more: Vec<Action>)
    ensures
        actions_view(final(actions)@) == actions_view(old(actions)@) + actions_view(more@),
{
    let mut more = more;
    let ghost whole = more@;
    actions.append(&mut more);
    assert(actions_view(actions@) =~= actions_view(old(actions)@) + actions_view(whole));
}

} // verus!
