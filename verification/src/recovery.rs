//! Shared scheduling for active aggregation recovery.
use crate::types::{same_bytes, Epoch, Height};
use std::collections::VecDeque;
use vstd::prelude::*;

verus! {

/// Tells applications apart.
#[derive(Clone, Copy, Debug, PartialEq, Eq, PartialOrd, Ord, Hash)]
pub struct RecoveryNamespace(pub [u8; 32]);

/// The certificate that is to be recovered.
#[derive(Clone, Copy, Debug, PartialEq, Eq, PartialOrd, Ord, Hash)]
pub struct RecoveryKey {
    /// The application.
    pub namespace: RecoveryNamespace,
    /// The epoch.
    pub epoch: Epoch,
    /// The position.
    pub position: Height,
}

/// The model of a [`RecoveryKey`].
#[verifier::ext_equal]
pub struct KeyView {
    pub namespace: Seq<u8>,
    pub epoch: Epoch,
    pub position: Height,
}

impl View for RecoveryKey {
    type V = KeyView;

    open spec fn view(&self) -> KeyView {
        KeyView { namespace: self.namespace.0@, epoch: self.epoch, position: self.position }
    }
}

impl RecoveryKey {
    /// Whether two keys are the same.
    pub fn same(&self, other: &RecoveryKey) -> (same: bool)
        ensures
            same == (self@ == other@),
    {
        self.epoch == other.epoch && self.position == other.position && same_bytes(
            &self.namespace.0,
            &other.namespace.0,
        )
    }
}

/// The model of a list of keys.
pub open spec fn keys_view(keys: Seq<RecoveryKey>) -> Seq<KeyView> {
    keys.map_values(|key: RecoveryKey| key@)
}

/// What a coordinator is told.
#[derive(Clone, Copy, Debug, PartialEq, Eq)]
pub enum Message {
    /// Recover a certificate.
    Fetch(RecoveryKey),
    /// Recover it no longer.
    Cancel(RecoveryKey),
}

impl Message {
    /// Keeps a message that found the mailbox full. None is lost.
    pub fn handle(overflow: &mut VecDeque<Message>, message: Message)
        ensures
            final(overflow)@ == old(overflow)@.push(message),
    {
        overflow.push_back(message);
    }
}

/// What a coordinator asks of the resolver.
#[derive(Debug, PartialEq, Eq)]
pub enum Command {
    /// Fetch a certificate.
    Fetch(RecoveryKey),
    /// Give up on these, and keep all others.
    Discard(Vec<RecoveryKey>),
}

/// The model of a [`Command`].
pub enum CommandView {
    Fetch(KeyView),
    Discard(Set<KeyView>),
}

impl View for Command {
    type V = CommandView;

    open spec fn view(&self) -> CommandView {
        match self {
            Command::Fetch(key) => CommandView::Fetch(key@),
            Command::Discard(keys) => CommandView::Discard(keys_view(keys@).to_set()),
        }
    }
}

/// The model of a command that may be there.
pub open spec fn command_view(command: Option<Command>) -> Option<CommandView> {
    match command {
        Some(command) => Some(command@),
        None => None,
    }
}

/// A copy of a list of keys.
fn copy_keys(keys: &Vec<RecoveryKey>) -> (copy: Vec<RecoveryKey>)
    ensures
        copy@ == keys@,
{
    let mut copy: Vec<RecoveryKey> = Vec::new();
    let mut i: usize = 0;
    while i < keys.len()
        invariant
            i <= keys.len(),
            copy@ == keys@.take(i as int),
        decreases keys.len() - i,
    {
        copy.push(keys[i]);
        i += 1;
        assert(copy@ =~= keys@.take(i as int));
    }
    assert(keys@.take(i as int) =~= keys@);
    copy
}

impl Clone for Command {
    fn clone(&self) -> (copy: Self)
        ensures
            copy@ == self@,
    {
        match self {
            Command::Fetch(key) => Command::Fetch(*key),
            Command::Discard(keys) => Command::Discard(copy_keys(keys)),
        }
    }
}

/// Shares one logical outstanding recovery cap across engine scopes.
///
/// Requests beyond the cap are deduplicated and queued in FIFO order. Canceling an active key
/// asks the resolver to give it up before asking for the next queued fetch, so a released slot
/// cannot transiently represent two logical requests in resolver mailbox order.
///
/// A coordinator asks for one [`Command`] at a time. Whoever runs it hands the command to the
/// resolver, and the resolver's answer to [`RecoveryCoordinator::answer`], which may ask for the
/// next one.
pub struct RecoveryCoordinator {
    cap: usize,
    active: Vec<RecoveryKey>,
    queued: VecDeque<RecoveryKey>,
    asked: Option<Command>,
    filling: bool,
}

/// The model of a [`RecoveryCoordinator`].
#[verifier::ext_equal]
pub struct CoordinatorView {
    /// How many keys may be active.
    pub cap: nat,
    /// The keys that the resolver has taken and was not asked to give up.
    pub active: Set<KeyView>,
    /// The keys that wait, in the order in which they came.
    pub queued: Seq<KeyView>,
    /// What the resolver was asked for and has not answered.
    pub asked: Option<CommandView>,
    /// Whether free slots are filled from the queue once it has answered.
    pub filling: bool,
}

impl CoordinatorView {
    /// How many keys the resolver is asked to fetch: one or none.
    pub open spec fn in_flight(self) -> nat {
        if self.asked matches Some(CommandView::Fetch(_)) {
            1
        } else {
            0
        }
    }

    /// What every coordinator satisfies: no more keys are active or on their way than may be, and no
    /// key is requested twice.
    pub open spec fn well_formed(self) -> bool {
        &&& self.cap > 0
        &&& self.active.finite()
        &&& self.active.len() + self.in_flight() <= self.cap
        &&& self.queued.no_duplicates()
        &&& forall|key: KeyView| #[trigger]
            self.queued.contains(key) ==> !self.active.contains(key)
        &&& match self.asked {
            None => !self.filling,
            Some(CommandView::Fetch(key)) => !self.active.contains(key) && !self.queued.contains(
                key,
            ),
            Some(CommandView::Discard(keys)) => {
                &&& keys.finite()
                &&& keys.disjoint(self.active)
                &&& self.active.len() + keys.len() <= self.cap
                &&& forall|key: KeyView| #[trigger]
                    self.queued.contains(key) ==> !keys.contains(key)
            },
        }
    }

    /// Whether a key is active, waits, or is on its way to the resolver.
    pub open spec fn requested(self, key: KeyView) -> bool {
        ||| self.active.contains(key)
        ||| self.queued.contains(key)
        ||| self.asked == Some(CommandView::Fetch(key))
    }

    /// No slot is free while a key waits, unless slots are being filled.
    pub open spec fn busy(self) -> bool {
        self.queued.len() > 0 ==> self.filling || self.active.len() == self.cap
    }

    /// After a request for a key. One that is requested already changes nothing. A new one is asked
    /// for if a slot is free, and waits behind all others if none is.
    pub open spec fn fetched(self, key: KeyView) -> CoordinatorView {
        if self.requested(key) {
            self
        } else if self.active.len() < self.cap {
            CoordinatorView { asked: Some(CommandView::Fetch(key)), filling: false, ..self }
        } else {
            CoordinatorView { queued: self.queued.push(key), ..self }
        }
    }

    /// With the first key that waits asked for, if a slot is free and a key waits.
    pub open spec fn filled(self) -> CoordinatorView {
        if self.active.len() < self.cap && self.queued.len() > 0 {
            CoordinatorView {
                queued: self.queued.skip(1),
                asked: Some(CommandView::Fetch(self.queued[0])),
                filling: true,
                ..self
            }
        } else {
            self
        }
    }

    /// After a key is canceled. One that waits leaves the queue. One that is active gives its slot
    /// up: the resolver is asked to discard it, and the slot is filled once it has answered.
    pub open spec fn cancelled(self, key: KeyView) -> CoordinatorView {
        if self.queued.contains(key) {
            CoordinatorView { queued: self.queued.remove(self.queued.index_of(key)), ..self }
        } else if self.active.contains(key) {
            CoordinatorView {
                active: self.active.remove(key),
                asked: Some(CommandView::Discard(set![key])),
                filling: true,
                ..self
            }
        } else {
            self
        }
    }

    /// After a message.
    pub open spec fn told(self, message: Message) -> CoordinatorView {
        match message {
            Message::Fetch(key) => self.fetched(key@),
            Message::Cancel(key) => self.cancelled(key@),
        }
    }

    /// After the answer to what was asked, before free slots are filled. A key that the resolver
    /// takes is active, and one that it refuses is forgotten. What it says to a discard is ignored.
    pub open spec fn settled(self, accepted: bool) -> CoordinatorView {
        CoordinatorView {
            active: match self.asked {
                Some(CommandView::Fetch(key)) if accepted => self.active.insert(key),
                _ => self.active,
            },
            asked: None,
            filling: false,
            ..self
        }
    }

    /// After the answer to what was asked.
    pub open spec fn heard(self, accepted: bool) -> CoordinatorView {
        if self.filling {
            self.settled(accepted).filled()
        } else {
            self.settled(accepted)
        }
    }

    /// With nothing active: the resolver is asked to discard all that was, if anything was.
    pub open spec fn stopped(self) -> CoordinatorView {
        if self.active.is_empty() {
            self
        } else {
            CoordinatorView {
                active: Set::empty(),
                asked: Some(CommandView::Discard(self.active)),
                filling: false,
                ..self
            }
        }
    }
}

impl View for RecoveryCoordinator {
    type V = CoordinatorView;

    closed spec fn view(&self) -> CoordinatorView {
        CoordinatorView {
            cap: self.cap as nat,
            active: keys_view(self.active@).to_set(),
            queued: keys_view(self.queued@),
            asked: command_view(self.asked),
            filling: self.filling,
        }
    }
}

/// A key that is added at the end is added to the set, and makes no duplicate if it is new.
pub proof fn lemma_push(keys: Seq<KeyView>, key: KeyView)
    ensures
        keys.push(key).to_set() == keys.to_set().insert(key),
        keys.no_duplicates() && !keys.contains(key) ==> keys.push(key).no_duplicates(),
        forall|other: KeyView| #[trigger]
            keys.push(key).contains(other) <==> keys.contains(other) || other == key,
{
    assert forall|other: KeyView| #[trigger] keys.push(key).contains(other) <==> keys.contains(
        other,
    ) || other == key by {
        if keys.contains(other) {
            let i = choose|i: int| 0 <= i < keys.len() && keys[i] == other;
            assert(keys.push(key)[i] == other);
        }
        if other == key {
            assert(keys.push(key)[keys.len() as int] == other);
        }
    }
    assert(keys.push(key).to_set() =~= keys.to_set().insert(key));
}

/// Finds a key in a list.
fn find(keys: &Vec<RecoveryKey>, key: &RecoveryKey) -> (index: Option<usize>)
    ensures
        match index {
            Some(index) => index < keys.len() && keys_view(keys@)[index as int] == key@,
            None => !keys_view(keys@).contains(key@),
        },
{
    let mut i: usize = 0;
    while i < keys.len()
        invariant
            i <= keys.len(),
            forall|j: int| 0 <= j < i ==> (#[trigger] keys@[j])@ != key@,
        decreases keys.len() - i,
    {
        if keys[i].same(key) {
            return Some(i);
        }
        i += 1;
    }
    None
}

/// Finds a key in a queue.
fn find_queued(keys: &VecDeque<RecoveryKey>, key: &RecoveryKey) -> (index: Option<usize>)
    ensures
        match index {
            Some(index) => index < keys@.len() && keys_view(keys@)[index as int] == key@,
            None => !keys_view(keys@).contains(key@),
        },
{
    let mut i: usize = 0;
    while i < keys.len()
        invariant
            i <= keys@.len(),
            forall|j: int| 0 <= j < i ==> (#[trigger] keys@[j])@ != key@,
        decreases keys@.len() - i,
    {
        if keys[i].same(key) {
            return Some(i);
        }
        i += 1;
    }
    None
}

/// A key that leaves a list without duplicates leaves the set.
pub proof fn lemma_remove(keys: Seq<KeyView>, index: int)
    requires
        keys.no_duplicates(),
        0 <= index < keys.len(),
    ensures
        keys.remove(index).no_duplicates(),
        keys.remove(index).to_set() == keys.to_set().remove(keys[index]),
        keys.index_of(keys[index]) == index,
        forall|other: KeyView| #[trigger]
            keys.remove(index).contains(other) <==> keys.contains(other) && other != keys[index],
{
    let rest = keys.remove(index);
    assert forall|other: KeyView| #[trigger] rest.contains(other) <==> keys.contains(other)
        && other != keys[index] by {
        if rest.contains(other) {
            let i = choose|i: int| 0 <= i < rest.len() && rest[i] == other;
            assert(keys[if i < index {
                i
            } else {
                i + 1
            }] == other);
        }
        if keys.contains(other) && other != keys[index] {
            let i = choose|i: int| 0 <= i < keys.len() && keys[i] == other;
            assert(rest[if i < index {
                i
            } else {
                i - 1
            }] == other);
        }
    }
    assert(rest.to_set() =~= keys.to_set().remove(keys[index]));
    assert(keys.contains(keys[index]));
}

/// A request for a key keeps a coordinator well formed.
pub proof fn lemma_fetched(coordinator: CoordinatorView, key: KeyView)
    requires
        coordinator.well_formed(),
        coordinator.asked is None,
    ensures
        coordinator.fetched(key).well_formed(),
{
    lemma_push(coordinator.queued, key);
}

/// Filling a slot keeps a coordinator well formed.
pub proof fn lemma_filled(coordinator: CoordinatorView)
    requires
        coordinator.well_formed(),
        coordinator.asked is None,
    ensures
        coordinator.filled().well_formed(),
        coordinator.filled().asked is None ==> coordinator.filled() == coordinator,
{
    if coordinator.active.len() < coordinator.cap && coordinator.queued.len() > 0 {
        let first = coordinator.queued[0];
        let rest = coordinator.queued.skip(1);
        assert(coordinator.queued.contains(first));
        assert forall|key: KeyView| #[trigger] rest.contains(key) implies
            coordinator.queued.contains(key) && key != first by {
            let i = choose|i: int| 0 <= i < rest.len() && rest[i] == key;
            assert(coordinator.queued[i + 1] == key);
        }
    }
}

/// Canceling a key keeps a coordinator well formed, and the key is requested no longer.
pub proof fn lemma_cancelled(coordinator: CoordinatorView, key: KeyView)
    requires
        coordinator.well_formed(),
        coordinator.asked is None,
    ensures
        coordinator.cancelled(key).well_formed(),
        !coordinator.cancelled(key).requested(key),
{
    if coordinator.queued.contains(key) {
        let index = coordinator.queued.index_of(key);
        assert(coordinator.queued[index] == key);
        lemma_remove(coordinator.queued, index);
    }
}

/// An answer keeps a coordinator well formed.
pub proof fn lemma_heard(coordinator: CoordinatorView, accepted: bool)
    requires
        coordinator.well_formed(),
        coordinator.asked is Some,
    ensures
        coordinator.settled(accepted).well_formed(),
        coordinator.heard(accepted).well_formed(),
{
    lemma_filled(coordinator.settled(accepted));
}

/// Stopping keeps a coordinator well formed.
pub proof fn lemma_stopped(coordinator: CoordinatorView)
    requires
        coordinator.well_formed(),
        coordinator.asked is None,
    ensures
        coordinator.stopped().well_formed(),
{
}

impl RecoveryCoordinator {
    /// What every coordinator satisfies. The list of active keys names each once.
    pub closed spec fn well_formed(self) -> bool {
        keys_view(self.active@).no_duplicates() && self@.well_formed()
    }

    /// A coordinator's model is well formed.
    pub proof fn lemma_well_formed(self)
        requires
            self.well_formed(),
        ensures
            self@.well_formed(),
    {
    }

    /// Creates a coordinator that lets `outstanding` keys be active.
    pub fn new(outstanding: usize) -> (coordinator: RecoveryCoordinator)
        requires
            outstanding > 0,
        ensures
            coordinator.well_formed(),
            coordinator@ == (CoordinatorView {
                cap: outstanding as nat,
                active: Set::empty(),
                queued: Seq::empty(),
                asked: None,
                filling: false,
            }),
    {
        let coordinator = RecoveryCoordinator {
            cap: outstanding,
            active: Vec::new(),
            queued: VecDeque::new(),
            asked: None,
            filling: false,
        };
        assert(keys_view(coordinator.active@) =~= Seq::empty());
        assert(coordinator@.active =~= Set::empty());
        assert(coordinator@.queued =~= Seq::empty());
        coordinator
    }

    /// Asks the resolver for a command, and remembers it until it is answered.
    fn ask(&mut self, command: Command, filling: bool) -> (asked: Option<Command>)
        ensures
            final(self)@ == (CoordinatorView { asked: Some(command@), filling, ..old(self)@ }),
            final(self).active == old(self).active,
            command_view(asked) == Some(command@),
    {
        self.asked = Some(command.clone());
        self.filling = filling;
        Some(command)
    }

    /// Requests a key, unless it is requested already.
    pub fn fetch(&mut self, key: RecoveryKey) -> (command: Option<Command>)
        requires
            old(self).well_formed(),
            old(self)@.asked is None,
        ensures
            final(self).well_formed(),
            final(self)@ == old(self)@.fetched(key@),
            command_view(command) == final(self)@.asked,
    {
        let ghost start = self@;
        proof {
            lemma_fetched(start, key@);
            keys_view(self.active@).unique_seq_to_set();
        }
        if find(&self.active, &key).is_some() || find_queued(&self.queued, &key).is_some() {
            assert(start.requested(key@));
            return None;
        }
        if self.active.len() < self.cap {
            return self.ask(Command::Fetch(key), false);
        }
        self.queued.push_back(key);
        assert(self@.queued =~= start.queued.push(key@));
        assert(self@ =~= start.fetched(key@));
        None
    }

    /// Asks for the first key that waits, if a slot is free.
    pub fn fill(&mut self) -> (command: Option<Command>)
        requires
            old(self).well_formed(),
            old(self)@.asked is None,
        ensures
            final(self).well_formed(),
            final(self)@ == old(self)@.filled(),
            command_view(command) == final(self)@.asked,
    {
        let ghost start = self@;
        let ghost waiting = self.queued@;
        proof {
            lemma_filled(start);
            keys_view(self.active@).unique_seq_to_set();
        }
        if self.active.len() >= self.cap {
            return None;
        }
        match self.queued.pop_front() {
            None => {
                assert(self@ =~= start);
                None
            },
            Some(key) => {
                assert(keys_view(waiting)[0] == key@);
                assert(self@.queued =~= start.queued.skip(1));
                self.ask(Command::Fetch(key), true)
            },
        }
    }

    /// Cancels a key. One that waits just leaves the queue. For one that is active, the resolver is
    /// asked to give it up.
    pub fn cancel(&mut self, key: RecoveryKey) -> (command: Option<Command>)
        requires
            old(self).well_formed(),
            old(self)@.asked is None,
        ensures
            final(self).well_formed(),
            final(self)@ == old(self)@.cancelled(key@),
            command_view(command) == final(self)@.asked,
    {
        let ghost start = self@;
        proof {
            lemma_cancelled(start, key@);
        }
        if let Some(index) = find_queued(&self.queued, &key) {
            let ghost waiting = keys_view(self.queued@);
            proof {
                lemma_remove(waiting, index as int);
            }
            self.queued.remove(index);
            assert(self@.queued =~= waiting.remove(index as int));
            assert(self@ =~= start.cancelled(key@));
            return None;
        }
        let index = match find(&self.active, &key) {
            Some(index) => index,
            None => return None,
        };
        let ghost held = keys_view(self.active@);
        proof {
            lemma_remove(held, index as int);
        }
        self.active.remove(index);
        assert(keys_view(self.active@) =~= held.remove(index as int));
        let mut keys: Vec<RecoveryKey> = Vec::new();
        keys.push(key);
        assert(keys_view(keys@) =~= seq![key@]);
        assert(seq![key@].to_set() =~= set![key@]) by {
            assert(seq![key@][0] == key@);
        }
        let command = self.ask(Command::Discard(keys), true);
        assert(self@ =~= start.cancelled(key@));
        command
    }

    /// Does what a message asks for. What is returned goes to the resolver, and its answer to
    /// [`RecoveryCoordinator::answer`].
    pub fn apply(&mut self, message: Message) -> (command: Option<Command>)
        requires
            old(self).well_formed(),
            old(self)@.asked is None,
        ensures
            final(self).well_formed(),
            final(self)@ == old(self)@.told(message),
            command_view(command) == final(self)@.asked,
    {
        match message {
            Message::Fetch(key) => self.fetch(key),
            Message::Cancel(key) => self.cancel(key),
        }
    }

    /// Takes the resolver's answer to what it was asked for. What is returned is the next thing to
    /// ask it for.
    pub fn answer(&mut self, accepted: bool) -> (command: Option<Command>)
        requires
            old(self).well_formed(),
            old(self)@.asked is Some,
        ensures
            final(self).well_formed(),
            final(self)@ == old(self)@.heard(accepted),
            command_view(command) == final(self)@.asked,
    {
        let ghost start = self@;
        let ghost held = keys_view(self.active@);
        proof {
            lemma_heard(start, accepted);
        }
        let fetched = match &self.asked {
            Some(Command::Fetch(key)) => Some(*key),
            _ => None,
        };
        let filling = self.filling;
        self.asked = None;
        self.filling = false;
        if let Some(key) = fetched {
            if accepted {
                proof {
                    lemma_push(held, key@);
                }
                self.active.push(key);
                assert(keys_view(self.active@) =~= held.push(key@));
            }
        }
        assert(self@ =~= start.settled(accepted));
        if filling {
            self.fill()
        } else {
            None
        }
    }

    /// Asks the resolver to give up all that is active. Keys that wait do not take the slots.
    pub fn cancel_active(&mut self) -> (command: Option<Command>)
        requires
            old(self).well_formed(),
            old(self)@.asked is None,
        ensures
            final(self).well_formed(),
            final(self)@ == old(self)@.stopped(),
            command_view(command) == final(self)@.asked,
    {
        let ghost start = self@;
        proof {
            lemma_stopped(start);
        }
        if self.active.len() == 0 {
            assert(keys_view(self.active@) =~= Seq::empty());
            assert(start.active =~= Set::empty());
            return None;
        }
        assert(start.active.contains(keys_view(self.active@)[0]));
        let mut active: Vec<RecoveryKey> = Vec::new();
        std::mem::swap(&mut active, &mut self.active);
        assert(keys_view(self.active@) =~= Seq::empty());
        assert(self@.active =~= Set::empty());
        let command = self.ask(Command::Discard(active), false);
        assert(self@ =~= start.stopped());
        command
    }
}

} // verus!
