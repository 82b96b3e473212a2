//! Durable finalized checkpoints for aggregation.
//!
//! Finalized blocks and aggregation proposals share one owner of the storage. A block
//! acknowledgement is released only after its checkpoint is synced.
use crate::types::{Digest, Height};
use std::collections::BTreeMap;
use vstd::prelude::*;

verus! {

broadcast use {vstd::std_specs::btree::group_btree_axioms, vstd::laws_cmp::group_laws_cmp};

/// Why a finalized block is refused for good.
#[derive(Clone, Copy, Debug, PartialEq, Eq, Structural)]
pub enum Error {
    /// A height was finalized with a digest other than its durable canonical digest.
    Conflict {
        /// Conflicting global height.
        height: Height,
    },
    /// The finalized-checkpoint height disagreed with the block height.
    HeightMismatch {
        /// Height that the block gives for its checkpoint.
        checkpoint: Height,
        /// Height of the block.
        block: Height,
    },
}

/// A question about the checkpoint at a height. Who asks for a digest is answered through a `P`,
/// and who asks about one through a `V`.
#[derive(Debug, PartialEq, Eq)]
pub enum Request<P, V> {
    /// What is the digest?
    Propose(P),
    /// Is this the digest?
    Verify(Digest, V),
}

/// The model of a [`Request`].
pub enum RequestView<P, V> {
    Propose(P),
    Verify(Seq<u8>, V),
}

impl<P, V> View for Request<P, V> {
    type V = RequestView<P, V>;

    open spec fn view(&self) -> RequestView<P, V> {
        match self {
            Request::Propose(response) => RequestView::Propose(*response),
            Request::Verify(digest, response) => RequestView::Verify(digest@, *response),
        }
    }
}

/// The answer to a [`Request`].
#[derive(Debug, PartialEq, Eq)]
pub enum Reply<P, V> {
    /// This is the digest.
    Proposed(P, Digest),
    /// Whether that is the digest.
    Verified(V, bool),
}

/// The model of a [`Reply`].
pub enum ReplyView<P, V> {
    Proposed(P, Seq<u8>),
    Verified(V, bool),
}

impl<P, V> View for Reply<P, V> {
    type V = ReplyView<P, V>;

    open spec fn view(&self) -> ReplyView<P, V> {
        match self {
            Reply::Proposed(response, digest) => ReplyView::Proposed(*response, digest@),
            Reply::Verified(response, same) => ReplyView::Verified(*response, *same),
        }
    }
}

impl<P, V> RequestView<P, V> {
    /// The answer where the checkpoint is `digest`.
    pub open spec fn reply(self, digest: Seq<u8>) -> ReplyView<P, V> {
        match self {
            RequestView::Propose(response) => ReplyView::Proposed(response, digest),
            RequestView::Verify(candidate, response) => ReplyView::Verified(
                response,
                candidate == digest,
            ),
        }
    }
}

/// What becomes of a request.
#[derive(Debug, PartialEq, Eq)]
pub enum Answer<P, V> {
    /// It is answered.
    Resolved(Reply<P, V>),
    /// It waits for the height to be finalized.
    Waiting,
    /// Too many wait already: it is dropped without an answer.
    Declined,
}

/// Something to be done about a finalized block. Effects are done in the order in which they come,
/// each completely before the next begins.
#[derive(Debug, PartialEq, Eq)]
pub enum Effect<P, V> {
    /// Put a checkpoint into the archive, and sync the archive.
    Persist {
        /// The height.
        height: Height,
        /// The checkpoint.
        digest: Digest,
    },
    /// Send an answer.
    Reply(Reply<P, V>),
    /// Acknowledge the block.
    Acknowledge,
}

/// The model of an [`Effect`].
pub enum EffectView<P, V> {
    Persist { height: Height, digest: Seq<u8> },
    Reply(ReplyView<P, V>),
    Acknowledge,
}

impl<P, V> View for Effect<P, V> {
    type V = EffectView<P, V>;

    open spec fn view(&self) -> EffectView<P, V> {
        match self {
            Effect::Persist { height, digest } => EffectView::Persist {
                height: *height,
                digest: digest@,
            },
            Effect::Reply(reply) => EffectView::Reply(reply@),
            Effect::Acknowledge => EffectView::Acknowledge,
        }
    }
}

/// The model of a list of requests.
pub open spec fn requests_view<P, V>(requests: Seq<Request<P, V>>) -> Seq<RequestView<P, V>> {
    requests.map_values(|request: Request<P, V>| request@)
}

/// The model of a list of effects.
pub open spec fn effects_view<P, V>(effects: Seq<Effect<P, V>>) -> Seq<EffectView<P, V>> {
    effects.map_values(|effect: Effect<P, V>| effect@)
}

/// The answers to `requests` where the checkpoint is `digest`.
pub open spec fn replies<P, V>(requests: Seq<RequestView<P, V>>, digest: Seq<u8>) -> Seq<
    EffectView<P, V>,
> {
    requests.map_values(|request: RequestView<P, V>| EffectView::Reply(request.reply(digest)))
}

/// How many requests wait in all.
pub open spec fn total<T>(waiters: Map<u64, Seq<T>>) -> nat
    decreases waiters.dom().len(),
{
    if waiters.dom().finite() && !waiters.dom().is_empty() {
        let height = waiters.dom().choose();
        waiters[height].len() + total(waiters.remove(height))
    } else {
        0
    }
}

/// The requests at one height count for the total.
pub proof fn lemma_total<T>(waiters: Map<u64, Seq<T>>, height: u64)
    requires
        waiters.dom().finite(),
        waiters.contains_key(height),
    ensures
        total(waiters) == waiters[height].len() + total(waiters.remove(height)),
    decreases waiters.dom().len(),
{
    let chosen = waiters.dom().choose();
    assert(waiters.dom().contains(height));
    assert(!waiters.dom().is_empty());
    if chosen != height {
        lemma_total(waiters.remove(chosen), height);
        lemma_total(waiters.remove(height), chosen);
        assert(waiters.remove(chosen).remove(height) =~= waiters.remove(height).remove(chosen));
    }
}

/// The rules of the actor that owns the checkpoint storage: who waits for which height, and what a
/// finalized block leads to.
pub struct Actor<P, V> {
    waiters: BTreeMap<u64, Vec<Request<P, V>>>,
    pending_requests: usize,
    max_pending_requests: usize,
}

/// The model of an [`Actor`].
#[verifier::ext_equal]
pub struct ActorView<P, V> {
    /// The requests that wait for each height, in the order in which they came.
    pub waiters: Map<u64, Seq<RequestView<P, V>>>,
    /// How many may wait in all.
    pub max_pending_requests: nat,
}

impl<P, V> ActorView<P, V> {
    /// What always holds: no more wait than may.
    pub open spec fn well_formed(self) -> bool {
        &&& self.waiters.dom().finite()
        &&& total(self.waiters) <= self.max_pending_requests
    }

    /// The requests that wait for a height.
    pub open spec fn waiting(self, height: Height) -> Seq<RequestView<P, V>> {
        if self.waiters.contains_key(height.0) {
            self.waiters[height.0]
        } else {
            Seq::empty()
        }
    }

    /// Whether no further request may wait.
    pub open spec fn full(self) -> bool {
        total(self.waiters) == self.max_pending_requests
    }

    /// With a request that waits for a height.
    pub open spec fn queued(self, height: Height, request: RequestView<P, V>) -> ActorView<
        P,
        V,
    > {
        ActorView {
            waiters: self.waiters.insert(height.0, self.waiting(height).push(request)),
            ..self
        }
    }

    /// With none that waits for a height.
    pub open spec fn released(self, height: Height) -> ActorView<P, V> {
        ActorView { waiters: self.waiters.remove(height.0), ..self }
    }

    /// What is to be done once `digest` is finalized at a height, where `stored` is what the archive
    /// holds there: a new checkpoint is made durable first, then those that wait are answered in
    /// order, and in the end the block is acknowledged.
    pub open spec fn effects(
        self,
        height: Height,
        digest: Seq<u8>,
        stored: Option<Seq<u8>>,
    ) -> Seq<EffectView<P, V>> {
        (if stored is None {
            seq![EffectView::<P, V>::Persist { height, digest }]
        } else {
            Seq::empty()
        }) + replies(self.waiting(height), digest) + seq![EffectView::Acknowledge]
    }
}

impl<P, V> View for Actor<P, V> {
    type V = ActorView<P, V>;

    closed spec fn view(&self) -> ActorView<P, V> {
        ActorView {
            waiters: self.waiters@.map_values(
                |requests: Vec<Request<P, V>>| requests_view(requests@),
            ),
            max_pending_requests: self.max_pending_requests as nat,
        }
    }
}

/// The model of a digest that may be stored.
pub open spec fn stored_view(stored: Option<Digest>) -> Option<Seq<u8>> {
    match stored {
        Some(digest) => Some(digest@),
        None => None,
    }
}

/// A block gives its own height for its checkpoint, or it is refused.
pub fn check_height(checkpoint: Height, block: Height) -> (result: Result<(), Error>)
    ensures
        result == if checkpoint == block {
            Ok::<(), Error>(())
        } else {
            Err::<(), Error>(Error::HeightMismatch { checkpoint, block })
        },
{
    if checkpoint != block {
        return Err(Error::HeightMismatch { checkpoint, block });
    }
    Ok(())
}

impl<P, V> Actor<P, V> {
    /// What always holds. The count kept is that of the requests that wait.
    pub closed spec fn well_formed(self) -> bool {
        self.pending_requests == total(self@.waiters) && self@.well_formed()
    }

    /// The model is well formed.
    pub proof fn lemma_well_formed(self)
        requires
            self.well_formed(),
        ensures
            self@.well_formed(),
    {
    }

    /// With no request that waits, and room for as many as may.
    pub fn new(max_pending_requests: usize) -> (actor: Actor<P, V>)
        ensures
            actor.well_formed(),
            actor@ == (ActorView::<P, V> {
                waiters: Map::empty(),
                max_pending_requests: max_pending_requests as nat,
            }),
    {
        let actor: Actor<P, V> = Actor {
            waiters: BTreeMap::new(),
            pending_requests: 0,
            max_pending_requests,
        };
        assert(actor@.waiters =~= Map::empty());
        actor
    }

    /// How many requests wait.
    pub fn pending_requests(&self) -> (count: usize)
        requires
            self.well_formed(),
        ensures
            count == total(self@.waiters),
    {
        self.pending_requests
    }

    /// Takes the requests that wait for a height out.
    fn take_waiters(&mut self, height: Height) -> (taken: Option<Vec<Request<P, V>>>)
        ensures
            final(self)@ == old(self)@.released(height),
            final(self).pending_requests == old(self).pending_requests,
            match taken {
                Some(requests) => old(self)@.waiters.contains_key(height.0) && requests_view(
                    requests@,
                ) == old(self)@.waiters[height.0],
                None => !old(self)@.waiters.contains_key(height.0),
            },
    {
        let taken = self.waiters.remove(&height.0);
        assert(self@ =~= old(self)@.released(height));
        taken
    }

    /// Sets the requests that wait for a height.
    fn put_waiters(&mut self, height: Height, requests: Vec<Request<P, V>>)
        ensures
            final(self)@ == (ActorView {
                waiters: old(self)@.waiters.insert(height.0, requests_view(requests@)),
                ..old(self)@
            }),
            final(self).pending_requests == old(self).pending_requests,
    {
        self.waiters.insert(height.0, requests);
        assert(self@.waiters =~= old(self)@.waiters.insert(height.0, requests_view(requests@)));
    }

    /// Answers a request where the checkpoint is `digest`.
    pub fn resolve(request: Request<P, V>, digest: &Digest) -> (reply: Reply<P, V>)
        ensures
            reply@ == request@.reply(digest@),
    {
        match request {
            Request::Propose(response) => Reply::Proposed(response, digest.clone()),
            Request::Verify(candidate, response) => Reply::Verified(
                response,
                candidate.same(digest),
            ),
        }
    }

    /// Takes a request, where `stored` is the checkpoint that the archive holds at its height.
    pub fn request(&mut self, height: Height, request: Request<P, V>, stored: Option<Digest>) -> (
        answer: Answer<P, V>)
        requires
            old(self).well_formed(),
        ensures
            final(self).well_formed(),
            match answer {
                Answer::Resolved(reply) => stored is Some && reply@ == request@.reply(stored->0@)
                    && final(self)@ == old(self)@,
                Answer::Declined => stored is None && old(self)@.full() && final(self)@ == old(
                    self,
                )@,
                Answer::Waiting => stored is None && !old(self)@.full() && final(self)@ == old(
                    self,
                )@.queued(height, request@),
            },
    {
        let ghost start = self@;
        if let Some(digest) = stored {
            return Answer::Resolved(Self::resolve(request, &digest));
        }
        if self.pending_requests == self.max_pending_requests {
            return Answer::Declined;
        }
        let mut requests = match self.take_waiters(height) {
            Some(requests) => requests,
            None => Vec::new(),
        };
        proof {
            if start.waiters.contains_key(height.0) {
                lemma_total(start.waiters, height.0);
            } else {
                assert(start.waiters.remove(height.0) =~= start.waiters);
            }
            assert(requests_view(requests@) =~= start.waiting(height));
        }
        requests.push(request);
        assert(requests_view(requests@) =~= start.waiting(height).push(request@));
        self.put_waiters(height, requests);
        self.pending_requests = self.pending_requests + 1;
        assert(self@ =~= start.queued(height, request@));
        proof {
            lemma_total(self@.waiters, height.0);
            assert(self@.waiters.remove(height.0) =~= start.waiters.remove(height.0));
        }
        Answer::Waiting
    }

    /// Takes a finalized checkpoint, where `stored` is what the archive holds at its height.
    pub fn finalized(&mut self, height: Height, digest: Digest, stored: Option<Digest>) -> (result:
        Result<Vec<Effect<P, V>>, Error>)
        requires
            old(self).well_formed(),
        ensures
            final(self).well_formed(),
            match result {
                Ok(effects) => (stored is None || stored->0@ == digest@) && final(self)@ == old(
                    self,
                )@.released(height) && effects_view(effects@) == old(self)@.effects(
                    height,
                    digest@,
                    stored_view(stored),
                ),
                Err(error) => stored is Some && stored->0@ != digest@ && error == (Error::Conflict {
                    height,
                }) && final(self)@ == old(self)@,
            },
    {
        let ghost start = self@;
        let mut effects: Vec<Effect<P, V>> = Vec::new();
        match &stored {
            Some(existing) => {
                if !existing.same(&digest) {
                    return Err(Error::Conflict { height });
                }
            },
            None => {
                effects.push(Effect::Persist { height, digest: digest.clone() });
            },
        }
        let ghost first = effects_view(effects@);
        assert(first =~= if stored is None {
            seq![EffectView::<P, V>::Persist { height, digest: digest@ }]
        } else {
            Seq::empty()
        });
        let mut requests = match self.take_waiters(height) {
            Some(requests) => requests,
            None => Vec::new(),
        };
        let ghost waiting = requests_view(requests@);
        assert(waiting =~= start.waiting(height));
        proof {
            if start.waiters.contains_key(height.0) {
                lemma_total(start.waiters, height.0);
            } else {
                assert(start.waiters.remove(height.0) =~= start.waiters);
            }
        }
        self.pending_requests = self.pending_requests - requests.len();
        assert(replies(waiting.take(0), digest@) =~= Seq::empty());
        for request in it: requests
            invariant
                requests_view(it.seq()) == waiting,
                effects_view(effects@) == first + replies(
                    waiting.take(it.index() as int),
                    digest@,
                ),
        {
            let ghost n = it.index() as int;
            let ghost before = effects_view(effects@);
            assert(waiting[n] == request@);
            let reply = Self::resolve(request, &digest);
            effects.push(Effect::Reply(reply));
            assert(effects_view(effects@) =~= before.push(EffectView::Reply(reply@)));
            assert(replies(waiting.take(n + 1), digest@) =~= replies(
                waiting.take(n),
                digest@,
            ).push(EffectView::Reply(waiting[n].reply(digest@))));
        }
        assert(waiting.take(waiting.len() as int) =~= waiting);
        let ghost before = effects_view(effects@);
        effects.push(Effect::Acknowledge);
        assert(effects_view(effects@) =~= before.push(EffectView::Acknowledge));
        assert(effects_view(effects@) =~= start.effects(height, digest@, stored_view(stored)));
        Ok(effects)
    }
}

/// A block is acknowledged once, last of all, and only after its checkpoint is durable: it was stored
/// already, or the first thing done is to persist it. All else is answers.
pub proof fn law_acknowledged_after_sync<P, V>(
    actor: ActorView<P, V>,
    height: Height,
    digest: Seq<u8>,
    stored: Option<Seq<u8>>,
    i: int,
)
    requires
        0 <= i < actor.effects(height, digest, stored).len(),
    ensures
        actor.effects(height, digest, stored)[i] is Acknowledge <==> i + 1
            == actor.effects(height, digest, stored).len(),
        actor.effects(height, digest, stored)[i] is Persist <==> i == 0 && stored is None,
        stored is None ==> actor.effects(height, digest, stored)[0]
            == (EffectView::<P, V>::Persist { height, digest }),
{
    let first = if stored is None {
        seq![EffectView::<P, V>::Persist { height, digest }]
    } else {
        Seq::empty()
    };
    let answers = replies(actor.waiting(height), digest);
    let effects = actor.effects(height, digest, stored);
    assert(effects.len() == first.len() + answers.len() + 1);
    if first.len() <= i < first.len() + answers.len() {
        assert(effects[i] == answers[i - first.len()]);
        assert(answers[i - first.len()] is Reply);
    }
}

/// Whether a question comes before a height is finalized or after, it gets the same answer: once the
/// height is finalized, the answer to one that waits is among what is to be done, and it is what one
/// that comes later is told.
pub proof fn law_early_and_late_answers_agree<P, V>(
    actor: ActorView<P, V>,
    height: Height,
    request: RequestView<P, V>,
    digest: Seq<u8>,
    stored: Option<Seq<u8>>,
)
    ensures
        actor.queued(height, request).effects(height, digest, stored).contains(
            EffectView::Reply(request.reply(digest)),
        ),
{
    let after = actor.queued(height, request);
    let answers = replies(after.waiting(height), digest);
    let first: int = if stored is None {
        1
    } else {
        0
    };
    let n = after.waiting(height).len() - 1;
    assert(answers[n] == EffectView::<P, V>::Reply(request.reply(digest)));
    assert(after.effects(height, digest, stored)[first + n] == answers[n]);
}

/// No more requests wait than may, and finalizing a height makes room for as many as waited there.
pub proof fn law_waiters_bounded<P, V>(
    actor: ActorView<P, V>,
    height: Height,
    request: RequestView<P, V>,
)
    requires
        actor.well_formed(),
    ensures
        !actor.full() ==> actor.queued(height, request).well_formed() && total(
            actor.queued(height, request).waiters,
        ) == total(actor.waiters) + 1,
        actor.released(height).well_formed(),
        total(actor.released(height).waiters) + actor.waiting(height).len() == total(
            actor.waiters,
        ),
{
    let after = actor.queued(height, request);
    lemma_total(after.waiters, height.0);
    assert(after.waiters.remove(height.0) =~= actor.waiters.remove(height.0));
    if actor.waiters.contains_key(height.0) {
        lemma_total(actor.waiters, height.0);
    } else {
        assert(actor.waiters.remove(height.0) =~= actor.waiters);
    }
}

impl<P, V> ActorView<P, V> {
    /// Whether none waits for a height that the archive holds.
    pub open spec fn up_to_date(self, archive: Map<u64, Seq<u8>>) -> bool {
        forall|height: u64| #[trigger]
            self.waiters.contains_key(height) ==> !archive.contains_key(height)
    }
}

/// None waits for a height that the archive holds, whatever is asked and whatever is finalized. So a
/// block that is delivered again, once its checkpoint is stored, is acknowledged and nothing else.
pub proof fn law_none_waits_for_what_is_stored<P, V>(
    actor: ActorView<P, V>,
    archive: Map<u64, Seq<u8>>,
    height: Height,
    request: RequestView<P, V>,
    digest: Seq<u8>,
)
    requires
        actor.up_to_date(archive),
    ensures
        !archive.contains_key(height.0) ==> actor.queued(height, request).up_to_date(archive),
        actor.released(height).up_to_date(archive.insert(height.0, digest)),
        archive.contains_key(height.0) ==> actor.released(height) == actor && actor.effects(
            height,
            archive[height.0],
            Some(archive[height.0]),
        ) == seq![EffectView::<P, V>::Acknowledge],
{
    if archive.contains_key(height.0) {
        assert(!actor.waiters.contains_key(height.0));
        assert(actor.released(height).waiters =~= actor.waiters);
        assert(actor.effects(height, archive[height.0], Some(archive[height.0])) =~= seq![
            EffectView::<P, V>::Acknowledge,
        ]);
    }
}

/// An actor that begins is up to date, whatever the archive holds.
pub proof fn law_new_actor_is_up_to_date<P, V>(
    max_pending_requests: nat,
    archive: Map<u64, Seq<u8>>,
)
    ensures
        (ActorView::<P, V> { waiters: Map::empty(), max_pending_requests }).up_to_date(archive),
{
}

/// The requests that wait for a height, from the first that came to the last.
pub open spec fn queue_at<P, V>(actor: ActorView<P, V>, height: u64) -> Seq<RequestView<P, V>> {
    if actor.waiters.contains_key(height) {
        actor.waiters[height]
    } else {
        Seq::empty()
    }
}

/// Whether `reply` answers `request` where the checkpoint is `digest`: who asks for the digest is
/// told it, and who asks about one is told whether it is that.
pub open spec fn answers<P, V>(
    reply: ReplyView<P, V>,
    request: RequestView<P, V>,
    digest: Seq<u8>,
) -> bool {
    match (request, reply) {
        (RequestView::Propose(asked), ReplyView::Proposed(told, given)) => told == asked && given
            == digest,
        (RequestView::Verify(candidate, asked), ReplyView::Verified(told, same)) => told == asked
            && (same <==> candidate == digest),
        _ => false,
    }
}

/// Who asks is answered, and told the truth.
pub proof fn law_replies_are_true<P, V>(request: RequestView<P, V>, digest: Seq<u8>)
    ensures
        answers(request.reply(digest), request, digest),
{
}

/// Once a height is finalized, every request that waits for it is answered, once and in the order in
/// which they came. Before that a new checkpoint is made durable, after it the block is acknowledged,
/// and nothing else is done.
pub proof fn law_every_waiter_is_answered<P, V>(
    actor: ActorView<P, V>,
    height: Height,
    digest: Seq<u8>,
    stored: Option<Seq<u8>>,
)
    ensures
        ({
            let effects = actor.effects(height, digest, stored);
            let queue = queue_at(actor, height.0);
            let first = if stored is None {
                1int
            } else {
                0
            };
            &&& effects.len() == first + queue.len() + 1
            &&& stored is None ==> effects[0] == (EffectView::<P, V>::Persist { height, digest })
            &&& forall|i: int|
                #![trigger queue[i]]
                0 <= i < queue.len() ==> {
                    &&& effects[first + i] is Reply
                    &&& answers(effects[first + i]->Reply_0, queue[i], digest)
                }
            &&& effects[effects.len() - 1] is Acknowledge
        }),
{
    let effects = actor.effects(height, digest, stored);
    let queue = actor.waiting(height);
    assert(queue == queue_at(actor, height.0));
    let first = if stored is None {
        1int
    } else {
        0
    };
    assert forall|i: int|
        #![trigger queue[i]]
        0 <= i < queue.len() implies effects[first + i] is Reply && answers(
        effects[first + i]->Reply_0,
        queue[i],
        digest,
    ) by {
        assert(replies(queue, digest)[i] == EffectView::<P, V>::Reply(queue[i].reply(digest)));
        assert(effects[first + i] == replies(queue, digest)[i]);
        law_replies_are_true(queue[i], digest);
    }
}

/// A request that waits goes behind all that wait for its height, and none is moved or lost. Once a
/// height is finalized none waits for it, and all that wait for another still do.
pub proof fn law_waiters_keep_their_place<P, V>(
    actor: ActorView<P, V>,
    height: Height,
    request: RequestView<P, V>,
    other: u64,
)
    ensures
        actor.waiting(height) == queue_at(actor, height.0),
        queue_at(actor.queued(height, request), height.0) == queue_at(actor, height.0).push(request),
        actor.queued(height, request).max_pending_requests == actor.max_pending_requests,
        actor.released(height).max_pending_requests == actor.max_pending_requests,
        !actor.released(height).waiters.contains_key(height.0),
        other != height.0 ==> {
            &&& actor.queued(height, request).waiters.contains_key(other)
                == actor.waiters.contains_key(other)
            &&& queue_at(actor.queued(height, request), other) == queue_at(actor, other)
            &&& actor.released(height).waiters.contains_key(other) == actor.waiters.contains_key(
                other,
            )
            &&& queue_at(actor.released(height), other) == queue_at(actor, other)
        },
{
}

/// A request is declined only where as many wait as may, all heights together.
pub proof fn law_declined_only_when_full<P, V>(actor: ActorView<P, V>)
    requires
        actor.well_formed(),
    ensures
        actor.full() <==> total(actor.waiters) == actor.max_pending_requests,
        !actor.full() <==> total(actor.waiters) < actor.max_pending_requests,
        total(Map::<u64, Seq<RequestView<P, V>>>::empty()) == 0,
{
}

} // verus!
