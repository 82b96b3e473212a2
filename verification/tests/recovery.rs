use aggregation::recovery::{
    Command, Message, RecoveryCoordinator, RecoveryKey, RecoveryNamespace,
};
use aggregation::types::{Epoch, Height};
use std::collections::{BTreeSet, VecDeque};

#[derive(Default)]
struct ResolverState {
    active: BTreeSet<RecoveryKey>,
    events: Vec<(bool, RecoveryKey)>,
    high_water: usize,
}

impl ResolverState {
    fn tell(&mut self, command: &Command) -> bool {
        match command {
            Command::Fetch(key) => {
                self.active.insert(*key);
                self.events.push((true, *key));
                self.high_water = self.high_water.max(self.active.len());
            }
            Command::Discard(keys) => {
                let removed: Vec<RecoveryKey> = self
                    .active
                    .iter()
                    .copied()
                    .filter(|key| keys.contains(key))
                    .collect();
                for key in removed {
                    self.active.remove(&key);
                    self.events.push((false, key));
                }
            }
        }
        true
    }
}

fn key(epoch: u64, position: u64) -> RecoveryKey {
    let mut namespace = [0; 32];
    namespace[..16].copy_from_slice(b"coordinator-test");
    RecoveryKey {
        namespace: RecoveryNamespace(namespace),
        epoch: Epoch::new(epoch),
        position: Height::new(position),
    }
}

fn converse(
    coordinator: &mut RecoveryCoordinator,
    first: Option<Command>,
    mut resolver: impl FnMut(&Command) -> bool,
) -> Vec<Command> {
    let mut commands = Vec::new();
    let mut next = first;
    while let Some(command) = next {
        let accepted = resolver(&command);
        commands.push(command);
        next = coordinator.answer(accepted);
    }
    commands
}

fn fetch(
    coordinator: &mut RecoveryCoordinator,
    key: RecoveryKey,
    resolver: impl FnMut(&Command) -> bool,
) -> Vec<Command> {
    let first = coordinator.fetch(key);
    converse(coordinator, first, resolver)
}

fn cancel(
    coordinator: &mut RecoveryCoordinator,
    key: RecoveryKey,
    resolver: impl FnMut(&Command) -> bool,
) -> Vec<Command> {
    let first = coordinator.cancel(key);
    converse(coordinator, first, resolver)
}

#[test]
fn cap_dedup_exact_cancel_and_fifo_across_scopes() {
    let mut state = ResolverState::default();
    let mut coordinator = RecoveryCoordinator::new(2);
    let keys = [key(1, 0), key(2, 0), key(1, 1), key(2, 1)];

    fetch(&mut coordinator, keys[0], |command| state.tell(command));
    fetch(&mut coordinator, keys[1], |command| state.tell(command));
    fetch(&mut coordinator, keys[2], |command| state.tell(command));
    fetch(&mut coordinator, keys[3], |command| state.tell(command));
    fetch(&mut coordinator, keys[2], |command| state.tell(command));
    cancel(&mut coordinator, keys[3], |command| state.tell(command));
    cancel(&mut coordinator, keys[0], |command| state.tell(command));
    cancel(&mut coordinator, keys[1], |command| state.tell(command));

    assert_eq!(state.high_water, 2);
    assert_eq!(
        state.events,
        vec![
            (true, keys[0]),
            (true, keys[1]),
            (false, keys[0]),
            (true, keys[2]),
            (false, keys[1]),
        ]
    );
    assert_eq!(state.active, BTreeSet::from([keys[2]]));
}

#[test]
fn runtime_shutdown_cancels_active_requests_with_live_handle() {
    let mut state = ResolverState::default();
    let mut coordinator = RecoveryCoordinator::new(1);
    let requested = key(1, 0);
    let mut mailbox: VecDeque<Message> = VecDeque::new();
    Message::handle(&mut mailbox, Message::Fetch(requested));
    while let Some(message) = mailbox.pop_front() {
        let first = coordinator.apply(message);
        converse(&mut coordinator, first, |command| state.tell(command));
    }
    assert!(!state.active.is_empty());

    let first = coordinator.cancel_active();
    converse(&mut coordinator, first, |command| state.tell(command));

    assert!(state.active.is_empty());
    assert_eq!(state.events, vec![(true, requested), (false, requested)]);
    drop(mailbox);
}

#[test]
fn a_request_that_the_resolver_refuses_is_forgotten() {
    let mut coordinator = RecoveryCoordinator::new(1);
    assert_eq!(
        coordinator.fetch(key(1, 0)),
        Some(Command::Fetch(key(1, 0)))
    );
    assert_eq!(coordinator.answer(false), None);
    assert_eq!(
        coordinator.fetch(key(1, 0)),
        Some(Command::Fetch(key(1, 0)))
    );
    assert_eq!(coordinator.answer(true), None);
    assert_eq!(coordinator.fetch(key(1, 0)), None);
}

#[test]
fn a_freed_slot_is_given_up_before_it_is_filled() {
    let mut coordinator = RecoveryCoordinator::new(1);
    for position in 0..4 {
        let first = coordinator.apply(Message::Fetch(key(1, position)));
        converse(&mut coordinator, first, |_| true);
    }
    assert_eq!(
        coordinator.apply(Message::Cancel(key(1, 0))),
        Some(Command::Discard(vec![key(1, 0)]))
    );
    assert_eq!(coordinator.answer(true), Some(Command::Fetch(key(1, 1))));
    assert_eq!(coordinator.answer(false), Some(Command::Fetch(key(1, 2))));
    assert_eq!(coordinator.answer(true), None);
    assert_eq!(coordinator.fill(), None);
    assert_eq!(
        cancel(&mut coordinator, key(1, 2), |_| true),
        vec![Command::Discard(vec![key(1, 2)]), Command::Fetch(key(1, 3))]
    );
}

#[test]
fn what_the_resolver_says_to_a_discard_is_ignored() {
    for accepted in [true, false] {
        let mut coordinator = RecoveryCoordinator::new(1);
        fetch(&mut coordinator, key(1, 0), |_| true);
        fetch(&mut coordinator, key(1, 1), |_| true);
        assert_eq!(
            coordinator.cancel(key(1, 0)),
            Some(Command::Discard(vec![key(1, 0)]))
        );
        assert_eq!(
            coordinator.answer(accepted),
            Some(Command::Fetch(key(1, 1)))
        );
    }
}

#[test]
fn slots_that_a_stop_frees_are_filled_on_request_only() {
    let mut coordinator = RecoveryCoordinator::new(1);
    fetch(&mut coordinator, key(1, 0), |_| true);
    fetch(&mut coordinator, key(1, 1), |_| true);
    assert_eq!(
        coordinator.cancel_active(),
        Some(Command::Discard(vec![key(1, 0)]))
    );
    assert_eq!(coordinator.answer(true), None);
    assert_eq!(coordinator.fill(), Some(Command::Fetch(key(1, 1))));
    assert_eq!(coordinator.answer(true), None);
    assert_eq!(coordinator.fetch(key(1, 1)), None);
}

#[test]
fn canceling_what_was_not_requested_does_nothing() {
    let mut coordinator = RecoveryCoordinator::new(1);
    assert_eq!(coordinator.cancel(key(1, 0)), None);
    fetch(&mut coordinator, key(1, 0), |_| true);
    assert_eq!(coordinator.cancel(key(1, 1)), None);
    assert_eq!(coordinator.cancel(key(2, 0)), None);
    let other = RecoveryKey {
        namespace: RecoveryNamespace([9; 32]),
        ..key(1, 0)
    };
    assert!(!other.same(&key(1, 0)));
    assert_eq!(coordinator.cancel(other), None);
}

#[test]
fn stopping_gives_up_all_that_is_active() {
    let mut coordinator = RecoveryCoordinator::new(2);
    assert_eq!(coordinator.cancel_active(), None);
    for position in 0..3 {
        fetch(&mut coordinator, key(1, position), |_| true);
    }
    assert_eq!(
        coordinator.cancel_active(),
        Some(Command::Discard(vec![key(1, 0), key(1, 1)]))
    );
    assert_eq!(coordinator.answer(true), None);
    assert_eq!(coordinator.cancel_active(), None);
}
