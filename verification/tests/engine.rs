use aggregation::action::{Action, CertificateOutcome, EngineOutcome, Enqueued};
use aggregation::config::Config;
use aggregation::engine::{AckOutcome, Engine};
use aggregation::event::{Event, Signing};
use aggregation::faults::FaultModel;
use aggregation::turns::{Source, Turns};
use aggregation::types::{
    Ack, Attestation, Certificate, Digest, Epoch, Error, Height, Item, Participant,
};

fn config(first: u64, last: u64, window: u64) -> Config {
    Config {
        epoch: Epoch::new(111),
        first: Height::new(first),
        last: Height::new(last),
        window,
        participants: 4,
        faults: FaultModel::N3f1,
        me: Some(Participant::new(0)),
        rebroadcast_timeout: 1000,
        priority_acks: true,
        journal_heights_per_section: 4,
    }
}

fn digest(byte: u8) -> Digest {
    Digest::new(vec![byte; 32])
}

fn item(position: u64, byte: u8) -> Item {
    Item {
        position: Height::new(position),
        digest: digest(byte),
    }
}

fn attestation(signer: u32) -> Attestation {
    Attestation {
        signer: Participant::new(signer),
        signature: vec![signer as u8, 0xee],
    }
}

fn ack(position: u64, byte: u8, signer: u32) -> Ack {
    Ack {
        item: item(position, byte),
        attestation: attestation(signer),
    }
}

fn certificate(position: u64, byte: u8, proof: Vec<u8>) -> Certificate {
    Certificate {
        epoch: Epoch::new(111),
        item: item(position, byte),
        certificate: proof,
    }
}

/// A proof that names its signers.
fn assemble(acks: &Vec<Ack>) -> Vec<u8> {
    acks.iter().map(|ack| ack.attestation.signer.get() as u8).collect()
}

fn begun(config: Config) -> Engine {
    let mut engine = Engine::new(config);
    engine.begin();
    engine
}

fn step(engine: &mut Engine, event: Event, verified: bool) -> Vec<Action> {
    engine.step(
        event,
        Signing {
            verify_ack: |_: &Ack| verified,
            sign: |_: &Item| Some(attestation(0)),
            assemble,
            verify_certificate: |_: &Certificate| verified,
        },
    )
}

fn from_peer(position: u64, byte: u8, signer: u32) -> Event {
    Event::Ack {
        ack: ack(position, byte, signer),
        peer: format!("peer-{signer}"),
        signer: Some(Participant::new(signer)),
    }
}

#[test]
#[should_panic(expected = "verified signer-unique quorum must assemble")]
fn assembly_failure_panics() {
    let mut engine = begun(Config {
        window: 1,
        ..config(0, 0, 1)
    });
    let mut settled = engine.step(
        Event::DigestReady {
            position: Height::new(0),
            digest: digest(7),
            now: 0,
        },
        Signing {
            verify_ack: |_: &Ack| true,
            sign: |_: &Item| None,
            assemble,
            verify_certificate: |_: &Certificate| true,
        },
    );
    assert!(settled.pop().is_none());
    for signer in 0..3 {
        let recovery_failure = |_: &Vec<Ack>| -> Vec<u8> {
            None.expect("verified signer-unique quorum must assemble")
        };
        assert!(engine.insert_ack(ack(0, 7, signer), recovery_failure).0);
    }
}

#[test]
fn beginning_requests_the_window() {
    let mut engine = Engine::new(config(5, 20, 3));
    assert_eq!(
        engine.begin(),
        vec![
            Action::RequestDigest(Height::new(5)),
            Action::RequestDigest(Height::new(6)),
            Action::RequestDigest(Height::new(7)),
        ]
    );
    assert_eq!(engine.begin(), vec![]);
    assert_eq!(engine.frontier(), Height::new(5));
    assert!(!engine.is_complete());
    assert!(engine.is_pending(7) && !engine.is_pending(8));
    assert_eq!(engine.config(), config(5, 20, 3));
    assert_eq!(engine.config().mailbox_capacity(), 3);
}

#[test]
fn the_window_ends_with_the_range() {
    let mut engine = Engine::new(config(u64::MAX - 1, u64::MAX, 10));
    assert_eq!(
        engine.fill_window(),
        vec![Height::new(u64::MAX - 1), Height::new(u64::MAX)]
    );
}

#[test]
fn a_quorum_certifies_and_moves_the_window() {
    let mut engine = begun(config(5, 20, 3));
    assert_eq!(step(&mut engine, from_peer(5, 1, 3), true), vec![]);
    assert_eq!(step(&mut engine, from_peer(5, 2, 0), true), vec![]);
    assert_eq!(step(&mut engine, from_peer(5, 1, 1), true), vec![]);
    let expected = certificate(5, 1, vec![1, 2, 3]);
    assert_eq!(
        step(&mut engine, from_peer(5, 1, 2), true),
        vec![
            Action::Append {
                section: 1,
                certificate: expected.clone(),
            },
            Action::Sync { section: 1 },
            Action::Report(expected),
            Action::AbortDigest(Height::new(5)),
            Action::RequestDigest(Height::new(8)),
        ]
    );
    assert_eq!(engine.frontier(), Height::new(6));
    assert!(!engine.is_pending(5));
}

#[test]
fn certificates_ahead_of_the_frontier_wait() {
    let mut engine = begun(config(5, 7, 3));
    let accept = |engine: &mut Engine, position: u64| {
        engine
            .settle_certificate(certificate(position, 9, vec![1]), true)
            .0
    };
    assert_eq!(accept(&mut engine, 6), CertificateOutcome::Accepted);
    assert_eq!(engine.frontier(), Height::new(5));
    assert!(engine.is_confirmed(6));
    assert_eq!(accept(&mut engine, 7), CertificateOutcome::Accepted);
    assert_eq!(accept(&mut engine, 7), CertificateOutcome::Ignored);
    assert_eq!(accept(&mut engine, 5), CertificateOutcome::Accepted);
    assert_eq!(engine.frontier(), Height::new(7));
    assert!(engine.is_complete());
    assert_eq!(accept(&mut engine, 5), CertificateOutcome::Ignored);
}

#[test]
fn the_last_certificate_completes_the_engine() {
    let mut engine = begun(config(0, 0, 1));
    let expected = certificate(0, 4, vec![8]);
    assert_eq!(
        step(&mut engine, Event::Certificate(expected.clone()), true),
        vec![
            Action::Append {
                section: 0,
                certificate: expected.clone(),
            },
            Action::Sync { section: 0 },
            Action::Report(expected),
            Action::AbortDigest(Height::new(0)),
            Action::Reply(CertificateOutcome::Accepted),
            Action::SyncAll,
            Action::Stop(EngineOutcome::Completed),
        ]
    );
    assert_eq!(engine.fill_window(), vec![]);
}

#[test]
fn shutdown_and_a_failed_receiver_stop_the_engine() {
    for event in [Event::Shutdown, Event::ReceiverFailed] {
        let mut engine = begun(config(0, 9, 2));
        assert_eq!(
            step(&mut engine, event, true),
            vec![Action::SyncAll, Action::Stop(EngineOutcome::Stopped)]
        );
    }
}

#[test]
fn a_complete_engine_ends_as_completed() {
    let mut engine = begun(config(0, 0, 1));
    engine.settle_certificate(certificate(0, 4, vec![8]), true);
    assert_eq!(
        step(&mut engine, Event::Shutdown, true),
        vec![Action::SyncAll, Action::Stop(EngineOutcome::Completed)]
    );
}

#[test]
fn another_fault_model_gives_its_own_quorum() {
    assert_eq!(FaultModel::Quorum(2).quorum(4), 2);
    assert_eq!(FaultModel::Quorum(2).quorum(0), 2);
    let mut engine = begun(Config {
        faults: FaultModel::Quorum(2),
        ..config(5, 20, 3)
    });
    assert_eq!(engine.add_ack(&ack(5, 1, 3)), AckOutcome::Held);
    assert_eq!(
        engine.add_ack(&ack(5, 1, 1)),
        AckOutcome::Quorum(vec![ack(5, 1, 1), ack(5, 1, 3)])
    );
}

#[test]
fn acknowledgements_are_refused_in_order() {
    let mut engine = begun(config(5, 20, 3));
    let check = |engine: &Engine, ack: &Ack, signer: Option<u32>, verified: bool| {
        engine.validate_ack(ack, "peer", signer.map(Participant::new), |_: &Ack| verified)
    };
    for position in [4, 8, 21] {
        assert_eq!(
            check(&engine, &ack(position, 1, 2), None, false),
            Err(Error::AckPosition(Height::new(position)))
        );
    }
    assert_eq!(check(&engine, &ack(5, 1, 2), None, true), Err(Error::PeerMismatch));
    assert_eq!(check(&engine, &ack(5, 1, 2), Some(3), true), Err(Error::PeerMismatch));
    assert_eq!(
        check(&engine, &ack(5, 1, 2), Some(2), false),
        Err(Error::InvalidAckSignature)
    );
    assert_eq!(check(&engine, &ack(5, 1, 2), Some(2), true), Ok(()));
    assert_eq!(engine.add_ack(&ack(5, 1, 2)), AckOutcome::Held);
    assert_eq!(
        check(&engine, &ack(5, 3, 2), Some(2), false),
        Err(Error::AckDuplicate("peer".to_string(), Height::new(5)))
    );
    step(
        &mut engine,
        Event::DigestReady {
            position: Height::new(6),
            digest: digest(1),
            now: 0,
        },
        true,
    );
    assert_eq!(
        check(&engine, &ack(6, 2, 0), Some(0), false),
        Err(Error::AckDigest(Height::new(6)))
    );
    assert_eq!(
        check(&engine, &ack(6, 1, 0), Some(0), false),
        Err(Error::AckDuplicate("peer".to_string(), Height::new(6)))
    );
}

#[test]
fn only_what_honest_peers_never_send_blocks() {
    let mut engine = begun(config(5, 20, 3));
    assert_eq!(step(&mut engine, Event::Undecodable, true), vec![Action::Block]);
    assert_eq!(step(&mut engine, from_peer(5, 1, 1), false), vec![Action::Block]);
    assert_eq!(step(&mut engine, from_peer(9, 1, 1), true), vec![]);
    let mismatch = Event::Ack {
        ack: ack(5, 1, 1),
        peer: "peer-2".to_string(),
        signer: Some(Participant::new(2)),
    };
    assert_eq!(step(&mut engine, mismatch, true), vec![Action::Block]);
    assert!(Error::PeerMismatch.blockable());
    assert!(Error::InvalidAckSignature.blockable());
    assert!(!Error::AckPosition(Height::new(1)).blockable());
    assert!(!Error::AckDigest(Height::new(1)).blockable());
    assert!(!Error::AckDuplicate("peer".to_string(), Height::new(1)).blockable());
}

#[test]
fn signatures_are_verified_last() {
    let engine = begun(config(5, 20, 3));
    let asked = std::cell::Cell::new(0);
    let verify = |_: &Ack| {
        asked.set(asked.get() + 1);
        true
    };
    assert!(engine.validate_ack(&ack(4, 1, 2), "peer", None, verify).is_err());
    assert_eq!(asked.get(), 0);
    let signer = Some(Participant::new(2));
    assert!(engine.validate_ack(&ack(5, 1, 2), "peer", signer, verify).is_ok());
    assert_eq!(asked.get(), 1);
}

#[test]
fn a_digest_is_signed_broadcast_and_counted() {
    let mut engine = begun(config(5, 20, 3));
    for signer in [1, 2] {
        step(&mut engine, from_peer(5, 1, signer), true);
    }
    step(&mut engine, from_peer(5, 2, 3), true);
    let ready = Event::DigestReady {
        position: Height::new(5),
        digest: digest(1),
        now: 50,
    };
    let expected = certificate(5, 1, vec![0, 1, 2]);
    assert_eq!(
        step(&mut engine, ready, true),
        vec![
            Action::Broadcast {
                ack: ack(5, 1, 0),
                priority: true,
            },
            Action::Append {
                section: 1,
                certificate: expected.clone(),
            },
            Action::Sync { section: 1 },
            Action::Report(expected),
            Action::RequestDigest(Height::new(8)),
        ]
    );
    assert_eq!(engine.next_deadline(), None);
}

#[test]
fn a_local_digest_drops_what_disagrees() {
    let mut engine = begun(config(5, 20, 3));
    step(&mut engine, from_peer(5, 2, 3), true);
    assert!(engine.validate_ack(&ack(5, 1, 3), "p", Some(Participant::new(3)), |_: &Ack| true).is_err());
    let ready = Event::DigestReady {
        position: Height::new(5),
        digest: digest(1),
        now: 50,
    };
    step(&mut engine, ready, true);
    assert!(engine.validate_ack(&ack(5, 1, 3), "p", Some(Participant::new(3)), |_: &Ack| true).is_ok());
    assert_eq!(engine.add_ack(&ack(5, 2, 3)), AckOutcome::Refused);
    assert_eq!(engine.add_ack(&ack(9, 2, 3)), AckOutcome::Refused);
    assert_eq!(engine.add_ack(&ack(5, 1, 3)), AckOutcome::Held);
    assert_eq!(
        engine.add_ack(&ack(5, 1, 2)),
        AckOutcome::Quorum(vec![ack(5, 1, 0), ack(5, 1, 2), ack(5, 1, 3)])
    );
    assert_eq!(
        engine.certify(item(5, 1), vec![7]).len(),
        4,
    );
    assert_eq!(engine.frontier(), Height::new(6));
}

#[test]
fn a_declined_position_is_not_asked_for_again() {
    let mut engine = begun(config(5, 20, 3));
    let declined = Event::DigestDeclined {
        position: Height::new(5),
    };
    assert_eq!(step(&mut engine, declined, true), vec![]);
    assert_eq!(step(&mut engine, Event::DigestAborted, true), vec![]);
    assert_eq!(engine.begin(), vec![]);
    assert!(engine.is_pending(5));
    let actions = step(
        &mut engine,
        Event::Certificate(certificate(5, 1, vec![1])),
        true,
    );
    assert!(!actions.contains(&Action::AbortDigest(Height::new(5))));
    assert!(actions.contains(&Action::RequestDigest(Height::new(8))));
}

#[test]
fn acknowledgements_are_broadcast_again_until_certified() {
    let mut engine = begun(config(5, 20, 3));
    for (position, now) in [(7, 10), (6, 10), (5, 30)] {
        let ready = Event::DigestReady {
            position: Height::new(position),
            digest: digest(1),
            now,
        };
        assert_eq!(step(&mut engine, ready, true).len(), 1);
    }
    assert_eq!(engine.next_deadline(), Some(1010));
    let again = |position| {
        vec![Action::Broadcast {
            ack: ack(position, 1, 0),
            priority: true,
        }]
    };
    assert_eq!(step(&mut engine, Event::Deadline { now: 1010 }, true), again(6));
    assert_eq!(step(&mut engine, Event::Deadline { now: 1015 }, true), again(7));
    assert_eq!(engine.next_deadline(), Some(1030));
    engine.settle_certificate(certificate(5, 1, vec![1]), true);
    assert_eq!(engine.next_deadline(), Some(2010));
    assert_eq!(engine.rebroadcast(Height::new(5), 3000), vec![]);
}

#[test]
fn an_observer_signs_nothing() {
    let mut engine = begun(Config {
        me: None,
        ..config(5, 20, 3)
    });
    let actions = engine.step(
        Event::DigestReady {
            position: Height::new(5),
            digest: digest(1),
            now: 0,
        },
        Signing {
            verify_ack: |_: &Ack| true,
            sign: |_: &Item| None,
            assemble,
            verify_certificate: |_: &Certificate| true,
        },
    );
    assert_eq!(actions, vec![]);
    assert_eq!(engine.next_deadline(), None);
    assert_eq!(engine.rebroadcast(Height::new(5), 0), vec![]);
}

#[test]
fn recovered_certificates_are_screened() {
    let mut engine = begun(config(5, 20, 3));
    let wrong_epoch = Certificate {
        epoch: Epoch::new(112),
        ..certificate(5, 1, vec![1])
    };
    let outcome = |engine: &mut Engine, certificate: Certificate, verified: bool| {
        engine
            .handle_external_certificate(certificate, |_: &Certificate| verified)
            .0
    };
    assert_eq!(outcome(&mut engine, wrong_epoch, true), CertificateOutcome::Invalid);
    for position in [4, 21] {
        assert_eq!(
            outcome(&mut engine, certificate(position, 1, vec![]), true),
            CertificateOutcome::Invalid
        );
    }
    assert_eq!(
        outcome(&mut engine, certificate(8, 1, vec![]), true),
        CertificateOutcome::Ignored
    );
    assert_eq!(
        outcome(&mut engine, certificate(5, 1, vec![]), false),
        CertificateOutcome::Invalid
    );
    assert_eq!(
        outcome(&mut engine, certificate(5, 1, vec![]), true),
        CertificateOutcome::Accepted
    );
    assert_eq!(
        outcome(&mut engine, certificate(5, 1, vec![]), true),
        CertificateOutcome::Ignored
    );
    assert_eq!(
        step(&mut engine, Event::Certificate(certificate(5, 1, vec![])), true),
        vec![Action::Reply(CertificateOutcome::Ignored)]
    );
}

#[test]
fn submitters_learn_of_a_full_queue() {
    assert_eq!(
        CertificateOutcome::submitted(Enqueued::Full, None),
        CertificateOutcome::Backpressured
    );
    assert_eq!(
        CertificateOutcome::submitted(Enqueued::Taken, None),
        CertificateOutcome::Ignored
    );
    assert_eq!(
        CertificateOutcome::submitted(Enqueued::Taken, Some(CertificateOutcome::Accepted)),
        CertificateOutcome::Accepted
    );
}

#[test]
fn submitters_do_not_retry_against_an_engine_that_has_ended() {
    assert_eq!(
        CertificateOutcome::submitted(Enqueued::Closed, None),
        CertificateOutcome::Ignored
    );
}

#[test]
fn a_certificate_of_another_epoch_changes_nothing() {
    let mut engine = begun(config(5, 20, 3));
    let foreign = Certificate {
        epoch: Epoch::new(1),
        ..certificate(5, 1, vec![])
    };
    assert_eq!(engine.accept_certificate(foreign), vec![]);
    assert_eq!(engine.accept_certificate(certificate(4, 1, vec![])), vec![]);
    assert_eq!(engine.frontier(), Height::new(5));
}

#[test]
fn quorums() {
    for (participants, quorum) in [(1, 1), (3, 3), (4, 3), (7, 5), (10, 7)] {
        assert_eq!(FaultModel::N3f1.quorum(participants), quorum);
    }
    for (participants, quorum) in [(1, 1), (5, 5), (6, 5), (11, 9)] {
        assert_eq!(FaultModel::N5f1.quorum(participants), quorum);
    }
}

#[test]
fn network_and_maintenance_take_turns() {
    let mut turns = Turns::new();
    assert!(turns.network_first());
    assert_eq!(
        turns.order(),
        [Source::Shutdown, Source::Network, Source::Maintenance]
    );
    turns.pass();
    assert!(!turns.network_first());
    assert_eq!(
        turns.order(),
        [Source::Shutdown, Source::Maintenance, Source::Network]
    );
    turns.pass();
    assert!(turns.network_first());
}

#[test]
fn quorums_share_more_than_can_be_faulty() {
    for model in [FaultModel::N3f1, FaultModel::N5f1] {
        for participants in 1..200 {
            let quorum = model.quorum(participants);
            let faults = participants - quorum;
            assert!(2 * quorum > participants + faults);
        }
    }
}

#[test]
fn no_more_positions_are_held_than_the_window_has() {
    let mut engine = begun(config(5, 30, 4));
    let held = |engine: &Engine| {
        (0..40)
            .filter(|position| engine.is_pending(*position) || engine.is_confirmed(*position))
            .count()
    };
    assert_eq!(held(&engine), 4);
    for position in [8, 7, 6, 9, 5, 11, 10, 12, 9] {
        engine.settle_certificate(certificate(position, 1, vec![]), true);
        assert_eq!(held(&engine), 4);
    }
    assert_eq!(engine.frontier(), Height::new(13));
}

#[test]
fn what_is_recovered_is_checked_like_what_is_replayed() {
    let foreign = Certificate {
        epoch: Epoch::new(112),
        ..certificate(5, 1, vec![])
    };
    let cases = [
        (certificate(5, 1, vec![]), true),
        (certificate(5, 1, vec![]), false),
        (certificate(4, 1, vec![]), true),
        (certificate(21, 1, vec![]), true),
        (foreign, true),
    ];
    for (certificate, verified) in cases {
        let mut live = begun(config(5, 20, 3));
        let mut replaying = Engine::new(config(5, 20, 3));
        let (outcome, _) = live.settle_certificate(certificate.clone(), verified);
        assert_eq!(
            outcome == CertificateOutcome::Accepted,
            replaying.settle_replayed(certificate, verified).is_ok()
        );
    }
}
