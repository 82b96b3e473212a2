use aggregation::checkpoints::{check_height, Actor, Answer, Effect, Error, Reply, Request};
use aggregation::overflow::{Message, Pending};
use aggregation::types::{Digest, Height};
use std::collections::{BTreeMap, VecDeque};
use std::sync::mpsc::{channel, Receiver, Sender};

type Archive = BTreeMap<u64, Digest>;
type TestActor = Actor<Sender<Digest>, Sender<bool>>;
type TestMessage = Message<(Block, Sender<()>), Sender<Digest>, Sender<bool>>;

struct Block {
    height: Height,
    digest: Digest,
}

fn block(height: u64, timestamp: u64) -> Block {
    let mut bytes = vec![0; 32];
    bytes[..8].copy_from_slice(&height.to_be_bytes());
    bytes[8..16].copy_from_slice(&timestamp.to_be_bytes());
    Block {
        height: Height::new(height),
        digest: Digest::new(bytes),
    }
}

fn send(reply: Reply<Sender<Digest>, Sender<bool>>) {
    match reply {
        Reply::Proposed(response, digest) => {
            let _ = response.send(digest);
        }
        Reply::Verified(response, same) => {
            let _ = response.send(same);
        }
    }
}

fn deliver(
    actor: &mut TestActor,
    archive: &mut Archive,
    message: TestMessage,
) -> Result<(), Error> {
    match message {
        Message::Finalized((block, acknowledgement)) => {
            check_height(block.height, block.height)?;
            let stored = archive.get(&block.height.get()).cloned();
            for effect in actor.finalized(block.height, block.digest, stored)? {
                match effect {
                    Effect::Persist { height, digest } => {
                        archive.insert(height.get(), digest);
                    }
                    Effect::Reply(reply) => send(reply),
                    Effect::Acknowledge => acknowledgement.send(()).unwrap(),
                }
            }
        }
        Message::Request {
            height, request, ..
        } => {
            let stored = archive.get(&height.get()).cloned();
            if let Answer::Resolved(reply) = actor.request(height, request, stored) {
                send(reply);
            }
        }
    }
    Ok(())
}

fn propose(height: u64, maximum: usize) -> (TestMessage, Receiver<Digest>) {
    let (response, receiver) = channel();
    let message = Message::Request {
        height: Height::new(height),
        request: Request::Propose(response),
        maximum,
    };
    (message, receiver)
}

fn verify(height: u64, digest: Digest, maximum: usize) -> (TestMessage, Receiver<bool>) {
    let (response, receiver) = channel();
    let message = Message::Request {
        height: Height::new(height),
        request: Request::Verify(digest, response),
        maximum,
    };
    (message, receiver)
}

fn finalize(block: Block) -> (TestMessage, Receiver<()>) {
    let (acknowledgement, acknowledged) = channel();
    (Message::Finalized((block, acknowledgement)), acknowledged)
}

#[test]
fn recovery_and_report_propose_race() {
    let mut archive = Archive::new();
    let finalized = block(7, 1);
    let expected = finalized.digest.clone();
    let mut actor = TestActor::new(8);

    let (message, proposal) = propose(7, 8);
    deliver(&mut actor, &mut archive, message).unwrap();
    let (message, verification) = verify(7, expected.clone(), 8);
    deliver(&mut actor, &mut archive, message).unwrap();
    assert_eq!(actor.pending_requests(), 2);
    let (message, acknowledged) = finalize(finalized);
    deliver(&mut actor, &mut archive, message).unwrap();
    assert_eq!(proposal.recv().unwrap(), expected);
    assert!(verification.recv().unwrap());
    acknowledged.recv().unwrap();

    drop(actor);
    let mut recovered = TestActor::new(8);
    let (message, proposal) = propose(7, 8);
    deliver(&mut recovered, &mut archive, message).unwrap();
    assert_eq!(proposal.recv().unwrap(), expected);
}

#[test]
fn conflicting_finalization_is_fatal_and_unacknowledged() {
    let mut archive = Archive::new();
    let mut actor = TestActor::new(8);

    let (message, first_waiter) = finalize(block(3, 1));
    deliver(&mut actor, &mut archive, message).unwrap();
    first_waiter.recv().unwrap();

    let (message, conflict_waiter) = finalize(block(3, 2));
    assert!(matches!(
        deliver(&mut actor, &mut archive, message),
        Err(Error::Conflict { height }) if height == Height::new(3)
    ));
    assert!(conflict_waiter.recv().is_err());
}

#[test]
fn pending_requests_are_bounded() {
    let mut archive = Archive::new();
    let mut actor = TestActor::new(1);
    let mut mailbox: VecDeque<TestMessage> = VecDeque::new();
    let mut overflow = Pending::new();
    let mut enqueue = |mailbox: &mut VecDeque<TestMessage>, message| {
        if mailbox.is_empty() {
            mailbox.push_back(message);
        } else {
            overflow.handle(message);
        }
    };

    let (message, first) = propose(1, 1);
    enqueue(&mut mailbox, message);
    let (message, second) = propose(2, 1);
    enqueue(&mut mailbox, message);
    let (message, third) = propose(3, 1);
    enqueue(&mut mailbox, message);
    let (message, acknowledged) = finalize(block(1, 1));
    enqueue(&mut mailbox, message);
    assert_eq!(overflow.requests(), 1);

    while let Some(message) = mailbox.pop_front() {
        overflow.drain(|message| {
            if mailbox.is_empty() {
                mailbox.push_back(message);
                None
            } else {
                Some(message)
            }
        });
        deliver(&mut actor, &mut archive, message).unwrap();
    }
    assert!(overflow.is_empty());

    assert!(first.recv().is_ok());
    assert!(second.recv().is_err());
    assert!(third.recv().is_err());
    acknowledged.recv().unwrap();
}

#[test]
fn a_block_gives_its_own_height() {
    assert_eq!(check_height(Height::new(4), Height::new(4)), Ok(()));
    assert_eq!(
        check_height(Height::new(4), Height::new(5)),
        Err(Error::HeightMismatch {
            checkpoint: Height::new(4),
            block: Height::new(5),
        })
    );
}

#[test]
fn effects_come_in_order() {
    let mut actor: Actor<u8, u8> = Actor::new(3);
    let digest = Digest::new(vec![1]);
    let height = Height::new(9);
    let other = Request::Verify(Digest::new(vec![2]), 1);
    assert_eq!(actor.request(height, Request::Propose(0), None), Answer::Waiting);
    assert_eq!(actor.request(height, other, None), Answer::Waiting);
    assert_eq!(
        actor.request(Height::new(1), Request::Propose(2), None),
        Answer::Waiting
    );
    assert_eq!(
        actor.request(Height::new(1), Request::Propose(3), None),
        Answer::Declined
    );
    assert_eq!(
        actor.finalized(height, digest.clone(), None),
        Ok(vec![
            Effect::Persist {
                height,
                digest: digest.clone(),
            },
            Effect::Reply(Reply::Proposed(0, digest.clone())),
            Effect::Reply(Reply::Verified(1, false)),
            Effect::Acknowledge,
        ])
    );
    assert_eq!(actor.pending_requests(), 1);
    assert_eq!(
        actor.finalized(height, digest.clone(), Some(digest.clone())),
        Ok(vec![Effect::Acknowledge])
    );
    assert_eq!(
        actor.request(height, Request::Verify(digest.clone(), 5), Some(digest.clone())),
        Answer::Resolved(Reply::Verified(5, true))
    );
    assert_eq!(
        actor.request(height, Request::Propose(6), Some(digest.clone())),
        Answer::Resolved(Reply::Proposed(6, digest))
    );
}

#[test]
fn overflow_keeps_blocks_and_order() {
    let mut overflow: Pending<u8, u8, u8> = Pending::new();
    let request = |id: u8| Message::Request {
        height: Height::new(0),
        request: Request::Propose(id),
        maximum: 2,
    };
    overflow.handle(request(1));
    overflow.handle(Message::Finalized(2));
    overflow.handle(request(3));
    overflow.handle(request(4));
    overflow.handle(Message::Finalized(5));
    assert_eq!(overflow.requests(), 2);

    let mut taken = Vec::new();
    overflow.drain(|message| {
        if taken.len() < 2 {
            taken.push(message);
            None
        } else {
            Some(message)
        }
    });
    assert_eq!(taken, vec![request(1), Message::Finalized(2)]);
    assert_eq!(overflow.requests(), 1);
    overflow.handle(request(6));

    let mut rest = Vec::new();
    overflow.drain(|message| {
        rest.push(message);
        None
    });
    assert_eq!(rest, vec![request(3), Message::Finalized(5), request(6)]);
    assert!(overflow.is_empty());
    assert_eq!(overflow.requests(), 0);
}

#[test]
fn none_waits_for_what_is_stored() {
    let mut actor: Actor<u8, u8> = Actor::new(2);
    let Block { height, digest } = block(3, 1);
    assert_eq!(actor.request(height, Request::Propose(1), None), Answer::Waiting);
    assert_eq!(
        actor.finalized(height, digest.clone(), None),
        Ok(vec![
            Effect::Persist {
                height,
                digest: digest.clone()
            },
            Effect::Reply(Reply::Proposed(1, digest.clone())),
            Effect::Acknowledge,
        ])
    );
    assert_eq!(
        actor.request(height, Request::Verify(digest.clone(), 2), Some(digest.clone())),
        Answer::Resolved(Reply::Verified(2, true))
    );
    assert_eq!(actor.pending_requests(), 0);
    assert_eq!(
        actor.finalized(height, digest.clone(), Some(digest)),
        Ok(vec![Effect::Acknowledge])
    );
}
