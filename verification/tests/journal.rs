use aggregation::action::Action;
use aggregation::bigendian::{read_u64, write_u64};
use aggregation::committee::committee_identity;
use aggregation::config::Config;
use aggregation::engine::Engine;
use aggregation::event::{Event, Signing};
use aggregation::faults::FaultModel;
use aggregation::header::{expected_header, Header, JOURNAL_VERSION};
use aggregation::journal::{
    check_header, Entry, JournalError, Record, RecordStart, Replay,
};
use aggregation::types::{Ack, Certificate, Digest, Epoch, Height, Item};
use aggregation::varint::CodecError;

const IDENTITY: [u8; 32] = [
    0x13, 0xea, 0x1b, 0x92, 0x40, 0x33, 0x49, 0x51, 0xc9, 0x2e, 0x68, 0x23, 0x3e, 0x22, 0x93, 0x47,
    0x30, 0x0f, 0x00, 0x57, 0x41, 0x11, 0x97, 0xf5, 0xe3, 0xd8, 0x1a, 0x42, 0x83, 0xea, 0x59, 0x15,
];

fn config() -> Config {
    Config {
        epoch: Epoch::new(3),
        first: Height::new(300),
        last: Height::new(u64::MAX),
        window: 0x0102,
        participants: 4,
        faults: FaultModel::N3f1,
        me: None,
        rebroadcast_timeout: 1,
        priority_acks: false,
        journal_heights_per_section: 4,
    }
}

fn header() -> Header {
    expected_header(&config(), &[1, 2, 3])
}

fn certificate(position: u64, byte: u8) -> Certificate {
    Certificate {
        epoch: Epoch::new(3),
        item: Item {
            position: Height::new(position),
            digest: Digest::new(vec![byte]),
        },
        certificate: vec![byte, byte],
    }
}

fn encoded() -> Vec<u8> {
    let mut bytes = vec![2];
    bytes.extend(IDENTITY);
    bytes.push(3);
    bytes.extend([0xac, 0x02]);
    bytes.extend([0xff, 0xff, 0xff, 0xff, 0xff, 0xff, 0xff, 0xff, 0xff, 0x01]);
    bytes.extend([0, 0, 0, 0, 0, 0, 1, 2]);
    bytes
}

#[test]
fn the_committee_has_an_identity() {
    assert_eq!(committee_identity(&[1, 2, 3]), IDENTITY);
    assert_ne!(committee_identity(&[1, 2, 4]), IDENTITY);
}

#[test]
fn the_expected_header_names_the_engine() {
    assert_eq!(
        header(),
        Header {
            version: JOURNAL_VERSION,
            committee: IDENTITY,
            epoch: Epoch::new(3),
            first: Height::new(300),
            last: Height::new(u64::MAX),
            window: 0x0102,
        }
    );
}

#[test]
fn headers_are_written_and_read() {
    assert_eq!(header().write(), encoded());
    assert_eq!(header().encode_size(), encoded().len());
    let mut bytes = encoded();
    bytes.extend([7, 8]);
    assert_eq!(Header::read(&bytes), Ok((header(), &[7u8, 8][..])));
}

#[test]
fn headers_that_are_cut_short_are_refused() {
    for length in 0..encoded().len() {
        assert_eq!(
            Header::read(&encoded()[..length]),
            Err(CodecError::EndOfBuffer)
        );
    }
}

#[test]
fn malformed_integers_are_refused() {
    for at in [33, 34, 36] {
        let mut bytes = encoded()[..at].to_vec();
        bytes.extend([0x80, 0x00]);
        bytes.extend([0; 40]);
        assert_eq!(Header::read(&bytes), Err(CodecError::InvalidVarint));
        let mut bytes = encoded()[..at].to_vec();
        bytes.extend([0xff; 9]);
        bytes.extend([0x02]);
        bytes.extend([0; 40]);
        assert_eq!(Header::read(&bytes), Err(CodecError::InvalidVarint));
    }
}

#[test]
fn records_are_told_apart() {
    let record = Record::Header(header());
    let bytes = record.write();
    assert_eq!(bytes[0], 0);
    assert_eq!(&bytes[1..], &encoded()[..]);
    assert_eq!(record.encode_size(), bytes.len());
    assert_eq!(
        Record::read(&bytes),
        Ok((RecordStart::Header(header()), &[][..]))
    );

    let record = Record::Certificate(vec![5, 6]);
    assert_eq!(record.write(), vec![1, 5, 6]);
    assert_eq!(record.encode_size(), 3);
    assert_eq!(
        Record::read(&[1, 5, 6]),
        Ok((RecordStart::Certificate, &[5u8, 6][..]))
    );
    assert_eq!(Record::read(&[]), Err(CodecError::EndOfBuffer));
    assert_eq!(Record::read(&[0, 2]), Err(CodecError::EndOfBuffer));
    assert_eq!(Record::read(&[2, 5, 6]), Err(CodecError::InvalidType));
}

#[test]
fn integers_of_fixed_length() {
    assert_eq!(write_u64(0x0102030405060708), vec![1, 2, 3, 4, 5, 6, 7, 8]);
    assert_eq!(
        read_u64(&[1, 2, 3, 4, 5, 6, 7, 8, 9]),
        Some((0x0102030405060708, &[9u8][..]))
    );
    assert_eq!(read_u64(&[255; 8]), Some((u64::MAX, &[][..])));
    assert_eq!(read_u64(&[0; 7]), None);
}

#[test]
fn only_the_expected_header_passes() {
    let expected = header();
    assert_eq!(check_header(&expected, &expected), Ok(()));
    let changed = [
        (
            Header {
                version: 1,
                committee: [0; 32],
                ..expected
            },
            JournalError::Version,
        ),
        (
            Header {
                committee: [0; 32],
                epoch: Epoch::new(4),
                ..expected
            },
            JournalError::Committee,
        ),
        (
            Header {
                epoch: Epoch::new(4),
                first: Height::new(0),
                ..expected
            },
            JournalError::Epoch,
        ),
        (
            Header {
                first: Height::new(0),
                last: Height::new(0),
                ..expected
            },
            JournalError::First,
        ),
        (
            Header {
                last: Height::new(0),
                window: 1,
                ..expected
            },
            JournalError::Last,
        ),
        (
            Header {
                window: 1,
                ..expected
            },
            JournalError::Window,
        ),
    ];
    for (header, error) in changed {
        assert_eq!(check_header(&header, &expected), Err(error));
    }
}

#[test]
fn errors_have_words() {
    let words = [
        (JournalError::Version, "aggregation journal version mismatch"),
        (JournalError::Committee, "aggregation journal committee mismatch"),
        (JournalError::Epoch, "aggregation journal epoch mismatch"),
        (JournalError::First, "aggregation journal first-position mismatch"),
        (JournalError::Last, "aggregation journal last-position mismatch"),
        (
            JournalError::Window,
            "aggregation journal window mismatch; durably archive the complete range before replacing the journal",
        ),
        (JournalError::HeaderMissing, "aggregation journal header missing"),
        (JournalError::DuplicateHeader, "duplicate aggregation journal header"),
        (JournalError::CertificateEpoch, "journal certificate epoch mismatch"),
        (JournalError::CertificateRange, "journal certificate outside range"),
        (JournalError::CertificateSignature, "journal certificate signature mismatch"),
        (JournalError::CertificateConflict, "conflicting journal certificates"),
    ];
    for (error, message) in words {
        assert_eq!(error.message(), message);
    }
}

fn replay(
    replay: &mut Replay,
    engine: &mut Engine,
    entry: Entry,
    verified: bool,
) -> Result<Vec<Action>, JournalError> {
    replay.apply(engine, entry, |_: &Certificate| verified)
}

#[test]
fn a_new_journal_begins_with_the_header() {
    assert_eq!(
        Replay::new(header()).finish(true),
        Ok(vec![
            Action::AppendHeader {
                section: 0,
                header: header(),
            },
            Action::Sync { section: 0 },
        ])
    );
    assert_eq!(
        Replay::new(header()).finish(false),
        Err(JournalError::HeaderMissing)
    );
}

#[test]
fn a_journal_is_replayed_under_its_header() {
    let mut engine = Engine::new(config());
    let mut journal = Replay::new(header());
    let first = Entry::Certificate(certificate(300, 1));
    assert_eq!(
        replay(&mut journal, &mut engine, first, true),
        Err(JournalError::HeaderMissing)
    );
    let other = Header {
        window: 1,
        ..header()
    };
    assert_eq!(
        replay(&mut journal, &mut engine, Entry::Header(other), true),
        Err(JournalError::Window)
    );
    assert_eq!(
        replay(&mut journal, &mut engine, Entry::Header(header()), true),
        Ok(vec![])
    );
    assert_eq!(
        replay(&mut journal, &mut engine, Entry::Header(header()), true),
        Err(JournalError::DuplicateHeader)
    );
    for position in [301, 300, 303] {
        let certificate = certificate(position, 1);
        assert_eq!(
            replay(
                &mut journal,
                &mut engine,
                Entry::Certificate(certificate.clone()),
                true
            ),
            Ok(vec![Action::Report(certificate)])
        );
    }
    assert_eq!(engine.frontier(), Height::new(302));
    assert!(engine.is_confirmed(303));
    assert_eq!(journal.finish(false), Ok(vec![]));
    assert_eq!(engine.begin().len(), 0x0102 - 1);
}

#[test]
fn certificates_are_checked_again() {
    let mut engine = Engine::new(Config {
        last: Height::new(310),
        ..config()
    });
    let foreign = Certificate {
        epoch: Epoch::new(4),
        ..certificate(0, 1)
    };
    assert_eq!(
        engine.settle_replayed(foreign, false),
        Err(JournalError::CertificateEpoch)
    );
    for position in [299, 311] {
        assert_eq!(
            engine.settle_replayed(certificate(position, 1), false),
            Err(JournalError::CertificateRange)
        );
    }
    assert_eq!(
        engine.replay_certificate(certificate(305, 1), |_: &Certificate| false),
        Err(JournalError::CertificateSignature)
    );
    assert!(engine.settle_replayed(certificate(305, 1), true).is_ok());
    assert!(engine.settle_replayed(certificate(305, 1), true).is_ok());
    assert_eq!(
        engine.settle_replayed(certificate(305, 2), true),
        Err(JournalError::CertificateConflict)
    );
    assert!(engine.settle_replayed(certificate(300, 1), true).is_ok());
    assert!(engine.settle_replayed(certificate(300, 2), true).is_ok());
    assert_eq!(engine.frontier(), Height::new(301));
}

#[test]
fn a_restart_recovers_progress() {
    let config = Config {
        last: Height::new(305),
        window: 4,
        ..config()
    };
    let header = expected_header(&config, &[1, 2, 3]);
    let mut live = Engine::new(config);
    live.begin();
    let mut log = Vec::new();
    for position in [302, 300, 301, 304, 305] {
        let (_, actions) = live.settle_certificate(certificate(position, 1), true);
        for action in actions {
            if let Action::Append {
                section,
                certificate,
            } = action
            {
                assert_eq!(section, position / 4);
                log.push(certificate);
            }
        }
    }
    assert_eq!(log.len(), 5);

    let mut restarted = Engine::new(config);
    let mut journal = Replay::new(header);
    replay(&mut journal, &mut restarted, Entry::Header(header), true).unwrap();
    for certificate in log {
        replay(&mut journal, &mut restarted, Entry::Certificate(certificate), true).unwrap();
    }
    assert_eq!(restarted.frontier(), live.frontier());
    assert_eq!(restarted.frontier(), Height::new(303));
    assert!(restarted.is_confirmed(304) && restarted.is_confirmed(305));
    assert_eq!(
        restarted.begin(),
        vec![Action::RequestDigest(Height::new(303))]
    );
    restarted.settle_certificate(certificate(303, 1), true);
    assert!(restarted.is_complete());
}

#[test]
fn a_complete_journal_stops_the_engine_at_once() {
    let mut engine = Engine::new(Config {
        first: Height::new(u64::MAX),
        ..config()
    });
    assert!(engine.settle_replayed(certificate(u64::MAX, 1), true).is_ok());
    assert!(engine.is_complete());
    assert_eq!(engine.begin().len(), 2);
}

#[test]
fn replay_order_does_not_matter() {
    let config = Config {
        last: Height::new(303),
        ..config()
    };
    let replayed = |order: &[u64]| {
        let mut engine = Engine::new(config);
        for position in order {
            let certificate = certificate(*position, 1);
            assert_eq!(
                engine.settle_replayed(certificate.clone(), true),
                Ok(vec![Action::Report(certificate)])
            );
        }
        let confirmed: Vec<bool> = (300..304).map(|at| engine.is_confirmed(at)).collect();
        (engine.frontier(), engine.is_complete(), confirmed)
    };
    let ahead = vec![false, false, false, true];
    assert_eq!(replayed(&[300, 303]), (Height::new(301), false, ahead.clone()));
    assert_eq!(replayed(&[303, 300]), (Height::new(301), false, ahead.clone()));
    assert_eq!(replayed(&[303, 300, 303, 300]), (Height::new(301), false, ahead));
    let all = (Height::new(303), true, vec![false; 4]);
    assert_eq!(replayed(&[300, 301, 302, 303]), all);
    assert_eq!(replayed(&[303, 302, 301, 300, 303]), all);
}

#[test]
fn a_restarted_engine_asks_again_for_what_was_declined() {
    let config = Config {
        window: 2,
        ..config()
    };
    let mut live = Engine::new(config);
    live.begin();
    live.settle_certificate(certificate(300, 1), true);
    let declined = Event::DigestDeclined {
        position: Height::new(301),
    };
    live.step(
        declined,
        Signing {
            verify_ack: |_: &Ack| true,
            sign: |_: &Item| None,
            assemble: |_: &Vec<Ack>| Vec::new(),
            verify_certificate: |_: &Certificate| true,
        },
    );
    assert_eq!(live.begin(), vec![]);

    let mut restarted = Engine::new(config);
    restarted.settle_replayed(certificate(300, 1), true).unwrap();
    assert_eq!(
        restarted.begin(),
        vec![
            Action::RequestDigest(Height::new(301)),
            Action::RequestDigest(Height::new(302)),
        ]
    );
}

#[test]
fn a_restart_may_read_its_journal_in_any_order() {
    let config = Config {
        window: 4,
        last: Height::new(310),
        ..config()
    };
    let mut live = Engine::new(config);
    live.begin();
    let mut journal = Vec::new();
    for position in [301, 300, 304, 303] {
        let (_, actions) = live.settle_certificate(certificate(position, 1), true);
        for action in actions {
            if let Action::Append { certificate, .. } = action {
                journal.push(certificate);
            }
        }
    }
    assert_eq!(journal.len(), 4);
    for _ in 0..4 {
        journal.rotate_left(1);
        let mut restarted = Engine::new(config);
        for certificate in &journal {
            assert_eq!(
                restarted.settle_replayed(certificate.clone(), true),
                Ok(vec![Action::Report(certificate.clone())])
            );
        }
        assert_eq!(restarted.frontier(), Height::new(302));
        assert_eq!(restarted.frontier(), live.frontier());
        for position in 300..=310 {
            assert_eq!(
                restarted.is_confirmed(position),
                live.is_confirmed(position)
            );
        }
    }
}

#[test]
fn a_completed_engine_has_reported_every_position() {
    let config = Config {
        window: 2,
        last: Height::new(303),
        ..config()
    };
    let mut engine = Engine::new(config);
    let mut actions = Vec::new();
    for position in [302, 300] {
        actions.extend(
            engine
                .settle_replayed(certificate(position, 1), true)
                .unwrap(),
        );
    }
    actions.extend(engine.begin());
    for position in [301, 303] {
        assert!(!engine.is_complete());
        actions.extend(engine.settle_certificate(certificate(position, 1), true).1);
    }
    assert!(engine.is_complete());
    let reported: Vec<u64> = actions
        .iter()
        .filter_map(|action| match action {
            Action::Report(certificate) => Some(certificate.item.position.get()),
            _ => None,
        })
        .collect();
    assert_eq!(reported, vec![302, 300, 301, 303]);
}
