//! Records of a journal, and the rules by which a journal is replayed.
use crate::action::{
    actions_view, no_actions, push_action, Action, ActionView, CertificateOutcome,
};
use crate::committee::identity_of;
use crate::config::Config;
use crate::engine::{checked, Engine};
use crate::header::{push_bytes, reads_header, Header, HeaderView};
use crate::model::EngineView;
use crate::types::{same_bytes, Certificate, CertificateView};
use crate::varint::CodecError;
use vstd::prelude::*;
use vstd::slice::slice_subrange;

verus! {

/// A record as it is written: a header, or a certificate that the signing scheme has encoded.
#[derive(Debug, PartialEq, Eq)]
pub enum Record {
    /// The header.
    Header(Header),
    /// The encoding of a certificate.
    Certificate(Vec<u8>),
}

/// The model of a [`Record`].
pub enum RecordView {
    Header(HeaderView),
    Certificate(Seq<u8>),
}

impl View for Record {
    type V = RecordView;

    open spec fn view(&self) -> RecordView {
        match self {
            Record::Header(header) => RecordView::Header(header@),
            Record::Certificate(certificate) => RecordView::Certificate(certificate@),
        }
    }
}

impl RecordView {
    /// The encoding: a byte that tells the two apart, and what is recorded.
    pub open spec fn encoded(self) -> Seq<u8> {
        match self {
            RecordView::Header(header) => seq![0u8] + header.encoded(),
            RecordView::Certificate(certificate) => seq![1u8] + certificate,
        }
    }
}

/// What a record turns out to be. The encoding of a certificate is what follows.
#[derive(Clone, Copy, Debug, PartialEq, Eq)]
pub enum RecordStart {
    /// The header.
    Header(Header),
    /// A certificate.
    Certificate,
}

/// The model of a [`RecordStart`].
pub enum RecordStartView {
    Header(HeaderView),
    Certificate,
}

impl View for RecordStart {
    type V = RecordStartView;

    open spec fn view(&self) -> RecordStartView {
        match self {
            RecordStart::Header(header) => RecordStartView::Header(header@),
            RecordStart::Certificate => RecordStartView::Certificate,
        }
    }
}

/// What reading the start of a record off the front of `bytes` gives.
pub open spec fn reads_record(
    bytes: Seq<u8>,
    result: Result<(RecordStartView, Seq<u8>), CodecError>,
) -> bool {
    if bytes.len() == 0 {
        result == Err::<(RecordStartView, Seq<u8>), CodecError>(CodecError::EndOfBuffer)
    } else if bytes[0] == 0 {
        match result {
            Ok((RecordStartView::Header(header), rest)) => reads_header(
                bytes.skip(1),
                Ok((header, rest)),
            ),
            Ok((RecordStartView::Certificate, _)) => false,
            Err(error) => reads_header(bytes.skip(1), Err(error)),
        }
    } else if bytes[0] == 1 {
        result == Ok::<(RecordStartView, Seq<u8>), CodecError>(
            (RecordStartView::Certificate, bytes.skip(1)),
        )
    } else {
        result == Err::<(RecordStartView, Seq<u8>), CodecError>(CodecError::InvalidType)
    }
}

/// The model of what was read.
pub open spec fn record_read_view(result: Result<(RecordStart, &[u8]), CodecError>) -> Result<
    (RecordStartView, Seq<u8>),
    CodecError,
> {
    match result {
        Ok((start, rest)) => Ok((start@, rest@)),
        Err(error) => Err(error),
    }
}

impl Record {
    /// Writes the record.
    pub fn write(&self) -> (bytes: Vec<u8>)
        ensures
            bytes@ == self@.encoded(),
    {
        let mut bytes: Vec<u8> = Vec::new();
        match self {
            Record::Header(header) => {
                bytes.push(0);
                push_bytes(&mut bytes, header.write().as_slice());
            },
            Record::Certificate(certificate) => {
                bytes.push(1);
                push_bytes(&mut bytes, certificate.as_slice());
            },
        }
        assert(bytes@ =~= self@.encoded());
        bytes
    }

    /// How many bytes the record is written as.
    pub fn encode_size(&self) -> (size: usize)
        requires
            self@.encoded().len() <= usize::MAX,
        ensures
            size == self@.encoded().len(),
    {
        match self {
            Record::Header(header) => 1 + header.encode_size(),
            Record::Certificate(certificate) => 1 + certificate.len(),
        }
    }

    /// Reads a record off the front of `bytes` as far as it does not belong to the signing scheme,
    /// and returns what it is with what follows.
    pub fn read<'a>(bytes: &'a [u8]) -> (result: Result<(RecordStart, &'a [u8]), CodecError>)
        ensures
            reads_record(bytes@, record_read_view(result)),
    {
        if bytes.len() == 0 {
            return Err(CodecError::EndOfBuffer);
        }
        let rest = slice_subrange(bytes, 1, bytes.len());
        assert(rest@ =~= bytes@.skip(1));
        match bytes[0] {
            0 => match Header::read(rest) {
                Ok((header, rest)) => Ok((RecordStart::Header(header), rest)),
                Err(error) => Err(error),
            },
            1 => Ok((RecordStart::Certificate, rest)),
            _ => Err(CodecError::InvalidType),
        }
    }
}

/// Reading what was written gives the record back.
pub proof fn law_record_round_trip(
    record: RecordView,
    rest: Seq<u8>,
    result: Result<(RecordStartView, Seq<u8>), CodecError>,
)
    requires
        record matches RecordView::Header(header) ==> header.valid(),
        reads_record(record.encoded() + rest, result),
    ensures
        result == match record {
            RecordView::Header(header) => Ok::<(RecordStartView, Seq<u8>), CodecError>(
                (RecordStartView::Header(header), rest),
            ),
            RecordView::Certificate(certificate) => Ok::<(RecordStartView, Seq<u8>), CodecError>(
                (RecordStartView::Certificate, certificate + rest),
            ),
        },
{
    let bytes = record.encoded() + rest;
    match record {
        RecordView::Header(header) => {
            assert(bytes.skip(1) =~= header.encoded() + rest);
            match result {
                Ok((RecordStartView::Header(read), end)) => {
                    crate::header::law_header_round_trip(header, rest, Ok((read, end)));
                },
                Ok((RecordStartView::Certificate, _)) => {},
                Err(error) => {
                    crate::header::law_header_round_trip(header, rest, Err(error));
                },
            }
        },
        RecordView::Certificate(certificate) => {
            assert(bytes.skip(1) =~= certificate + rest);
        },
    }
}

/// Why a journal is not that of an engine.
#[derive(Clone, Copy, Debug, PartialEq, Eq, Structural)]
pub enum JournalError {
    /// The header is of another version.
    Version,
    /// The header is of another committee.
    Committee,
    /// The header is of another epoch.
    Epoch,
    /// The header is of a range that begins elsewhere.
    First,
    /// The header is of a range that ends elsewhere.
    Last,
    /// The header is of another window.
    Window,
    /// The first record is not a header.
    HeaderMissing,
    /// A later record is a header.
    DuplicateHeader,
    /// A certificate is of another epoch.
    CertificateEpoch,
    /// A certificate is of a position outside the range.
    CertificateRange,
    /// The proof of a certificate does not verify.
    CertificateSignature,
    /// Two certificates of one position are of different digests.
    CertificateConflict,
}

impl JournalError {
    /// The words for the error.
    pub open spec fn text(self) -> Seq<char> {
        match self {
            JournalError::Version => "aggregation journal version mismatch"@,
            JournalError::Committee => "aggregation journal committee mismatch"@,
            JournalError::Epoch => "aggregation journal epoch mismatch"@,
            JournalError::First => "aggregation journal first-position mismatch"@,
            JournalError::Last => "aggregation journal last-position mismatch"@,
            JournalError::Window => "aggregation journal window mismatch; durably archive the complete range before replacing the journal"@,
            JournalError::HeaderMissing => "aggregation journal header missing"@,
            JournalError::DuplicateHeader => "duplicate aggregation journal header"@,
            JournalError::CertificateEpoch => "journal certificate epoch mismatch"@,
            JournalError::CertificateRange => "journal certificate outside range"@,
            JournalError::CertificateSignature => "journal certificate signature mismatch"@,
            JournalError::CertificateConflict => "conflicting journal certificates"@,
        }
    }

    /// The words for the error.
    pub fn message(self) -> (message: &'static str)
        ensures
            message@ == self.text(),
    {
        match self {
            JournalError::Version => "aggregation journal version mismatch",
            JournalError::Committee => "aggregation journal committee mismatch",
            JournalError::Epoch => "aggregation journal epoch mismatch",
            JournalError::First => "aggregation journal first-position mismatch",
            JournalError::Last => "aggregation journal last-position mismatch",
            JournalError::Window => "aggregation journal window mismatch; durably archive the complete range before replacing the journal",
            JournalError::HeaderMissing => "aggregation journal header missing",
            JournalError::DuplicateHeader => "duplicate aggregation journal header",
            JournalError::CertificateEpoch => "journal certificate epoch mismatch",
            JournalError::CertificateRange => "journal certificate outside range",
            JournalError::CertificateSignature => "journal certificate signature mismatch",
            JournalError::CertificateConflict => "conflicting journal certificates",
        }
    }
}

/// Why a header is not the expected one: the first field that differs.
pub open spec fn header_error(header: HeaderView, expected: HeaderView) -> Option<JournalError> {
    if header.version != expected.version {
        Some(JournalError::Version)
    } else if header.committee != expected.committee {
        Some(JournalError::Committee)
    } else if header.epoch != expected.epoch {
        Some(JournalError::Epoch)
    } else if header.first != expected.first {
        Some(JournalError::First)
    } else if header.last != expected.last {
        Some(JournalError::Last)
    } else if header.window != expected.window {
        Some(JournalError::Window)
    } else {
        None
    }
}

/// A journal is replayed under no other configuration: only the expected header passes.
pub proof fn law_only_expected_header_passes(header: HeaderView, expected: HeaderView)
    ensures
        header_error(header, expected) is None <==> header == expected,
{
}

/// A journal of one engine passes as that of another only where epoch, range and window are the same
/// and the committees have the same identity.
pub proof fn law_header_binds_configuration(
    a: Config,
    participants: Seq<u8>,
    b: Config,
    others: Seq<u8>,
)
    ensures
        header_error(HeaderView::expected(a, participants), HeaderView::expected(b, others)) is None
            <==> a.epoch == b.epoch && a.first == b.first && a.last == b.last && a.window
            == b.window && identity_of(participants) == identity_of(others),
{
}

/// What is recovered is checked like what is replayed: a certificate that replay refuses for its
/// epoch, its range or its proof is never accepted, and one that is accepted would replay.
pub proof fn law_recovery_and_replay_check_alike(
    engine: EngineView,
    certificate: CertificateView,
    verified: bool,
)
    ensures
        engine.replay_refusal(certificate) is Some ==> engine.outcome(certificate, verified)
            == CertificateOutcome::Invalid,
        engine.outcome(certificate, verified) == CertificateOutcome::Accepted
            ==> engine.replay_error(certificate, verified) is None,
        engine.outcome(certificate, verified) == CertificateOutcome::Invalid
            ==> engine.replay_error(certificate, verified) is Some,
{
}

/// Compares a header with the expected one.
pub fn check_header(header: &Header, expected: &Header) -> (result: Result<(), JournalError>)
    ensures
        match result {
            Ok(()) => header_error(header@, expected@) is None,
            Err(error) => header_error(header@, expected@) == Some(error),
        },
{
    if header.version != expected.version {
        return Err(JournalError::Version);
    }
    if !same_bytes(&header.committee, &expected.committee) {
        return Err(JournalError::Committee);
    }
    if header.epoch != expected.epoch {
        return Err(JournalError::Epoch);
    }
    if header.first != expected.first {
        return Err(JournalError::First);
    }
    if header.last != expected.last {
        return Err(JournalError::Last);
    }
    if header.window != expected.window {
        return Err(JournalError::Window);
    }
    Ok(())
}

impl EngineView {
    /// Why a certificate from the journal is refused without a look at its proof.
    pub open spec fn replay_refusal(self, certificate: CertificateView) -> Option<JournalError> {
        if certificate.epoch != self.config.epoch {
            Some(JournalError::CertificateEpoch)
        } else if certificate.position() < self.config.first.0 || certificate.position()
            > self.config.last.0 {
            Some(JournalError::CertificateRange)
        } else {
            None
        }
    }

    /// Why a certificate from the journal is refused, where `verified` says whether its proof
    /// verifies.
    pub open spec fn replay_error(
        self,
        certificate: CertificateView,
        verified: bool,
    ) -> Option<JournalError> {
        if self.replay_refusal(certificate) is Some {
            self.replay_refusal(certificate)
        } else if !verified {
            Some(JournalError::CertificateSignature)
        } else if self.conflicts(certificate) {
            Some(JournalError::CertificateConflict)
        } else {
            None
        }
    }

    /// With a certificate from the journal held. One of a position behind the frontier adds
    /// nothing.
    pub open spec fn replayed(self, certificate: CertificateView) -> EngineView {
        if certificate.position() >= self.frontier {
            self.advanced(certificate)
        } else {
            self
        }
    }

    /// After a certificate from the journal.
    pub open spec fn after_replay(self, certificate: CertificateView, verified: bool) -> EngineView {
        if self.replay_error(certificate, verified) is None {
            self.replayed(certificate)
        } else {
            self
        }
    }
}

/// A record as it is replayed.
#[derive(Debug, PartialEq, Eq)]
pub enum Entry {
    /// The header.
    Header(Header),
    /// A certificate.
    Certificate(Certificate),
}

/// The model of an [`Entry`].
pub enum EntryView {
    Header(HeaderView),
    Certificate(CertificateView),
}

impl View for Entry {
    type V = EntryView;

    open spec fn view(&self) -> EntryView {
        match self {
            Entry::Header(header) => EntryView::Header(header@),
            Entry::Certificate(certificate) => EntryView::Certificate(certificate@),
        }
    }
}

/// The replay of a journal.
pub struct Replay {
    expected: Header,
    started: bool,
}

/// The model of a [`Replay`].
pub struct ReplayView {
    /// The header that the journal must have.
    pub expected: HeaderView,
    /// Whether it was seen.
    pub started: bool,
}

impl View for Replay {
    type V = ReplayView;

    closed spec fn view(&self) -> ReplayView {
        ReplayView { expected: self.expected@, started: self.started }
    }
}

impl ReplayView {
    /// Why a record is refused before the proof of a certificate is looked at.
    pub open spec fn refusal(self, engine: EngineView, entry: EntryView) -> Option<JournalError> {
        match entry {
            EntryView::Header(header) => if self.started {
                Some(JournalError::DuplicateHeader)
            } else {
                header_error(header, self.expected)
            },
            EntryView::Certificate(certificate) => if self.started {
                engine.replay_refusal(certificate)
            } else {
                Some(JournalError::HeaderMissing)
            },
        }
    }

    /// Whether the proof of a certificate is looked at.
    pub open spec fn asks(self, engine: EngineView, entry: EntryView) -> bool {
        entry is Certificate && self.refusal(engine, entry) is None
    }

    /// Why a record is refused, where `verified` says whether the proof of a certificate verifies.
    pub open spec fn error(
        self,
        engine: EngineView,
        entry: EntryView,
        verified: bool,
    ) -> Option<JournalError> {
        match entry {
            EntryView::Certificate(certificate) if self.started => engine.replay_error(
                certificate,
                verified,
            ),
            _ => self.refusal(engine, entry),
        }
    }

    /// The engine after a record.
    pub open spec fn engine_after(
        self,
        engine: EngineView,
        entry: EntryView,
        verified: bool,
    ) -> EngineView {
        match entry {
            EntryView::Certificate(certificate) if self.started => engine.after_replay(
                certificate,
                verified,
            ),
            _ => engine,
        }
    }

    /// What is to be done about a record that is not refused: a certificate is reported.
    pub open spec fn actions(entry: EntryView) -> Seq<ActionView> {
        match entry {
            EntryView::Header(_) => Seq::empty(),
            EntryView::Certificate(certificate) => seq![ActionView::Report(certificate)],
        }
    }
}

/// The first record binds all others: only the expected header is taken first, and only after it
/// are certificates taken, each of the engine's epoch and range and with a proof that verifies.
pub proof fn law_header_comes_first(
    replay: ReplayView,
    engine: EngineView,
    entry: EntryView,
    verified: bool,
)
    requires
        replay.error(engine, entry, verified) is None,
    ensures
        match entry {
            EntryView::Header(header) => !replay.started && header == replay.expected,
            EntryView::Certificate(certificate) => replay.started && verified && certificate.epoch
                == engine.config.epoch && engine.config.first.0 <= certificate.position()
                <= engine.config.last.0,
        },
{
}

impl Replay {
    /// Begins to replay a journal that must have the given header.
    pub fn new(expected: Header) -> (replay: Replay)
        ensures
            replay@ == (ReplayView { expected: expected@, started: false }),
    {
        Replay { expected, started: false }
    }

    /// Replays a record into an engine that has not begun. The proof of each certificate is
    /// verified again: the header does not bind all that a proof depends on.
    pub fn apply<C: FnOnce(&Certificate) -> bool>(
        &mut self,
        engine: &mut Engine,
        entry: Entry,
        verify: C,
    ) -> (result: Result<Vec<Action>, JournalError>)
        requires
            old(engine)@.well_formed(),
            old(engine)@.pending.is_empty(),
            entry matches Entry::Certificate(certificate) ==> (old(self)@.asks(
                old(engine)@,
                entry@,
            ) ==> call_requires(verify, (&certificate,))),
        ensures
            final(engine)@.well_formed(),
            final(engine)@.pending.is_empty(),
            final(self)@.expected == old(self)@.expected,
            final(self)@.started == (old(self)@.started || result is Ok),
            exists|verified: bool| #[trigger]
                replay_answer(old(self)@, old(engine)@, entry, verify, verified) && final(engine)@
                    == old(self)@.engine_after(old(engine)@, entry@, verified) && match result {
                    Ok(actions) => old(self)@.error(old(engine)@, entry@, verified) is None
                        && actions_view(actions@) == ReplayView::actions(entry@),
                    Err(error) => old(self)@.error(old(engine)@, entry@, verified) == Some(error),
                },
    {
        let ghost start = self@;
        let ghost held = engine@;
        match entry {
            Entry::Header(header) => {
                assert(replay_answer(start, held, entry, verify, true));
                if self.started {
                    return Err(JournalError::DuplicateHeader);
                }
                match check_header(&header, &self.expected) {
                    Ok(()) => {
                        self.started = true;
                        Ok(no_actions())
                    },
                    Err(error) => Err(error),
                }
            },
            Entry::Certificate(certificate) => {
                if !self.started {
                    assert(replay_answer(start, held, entry, verify, true));
                    return Err(JournalError::HeaderMissing);
                }
                let result = engine.replay_certificate(certificate, verify);
                proof {
                    let verified = choose|verified: bool| #[trigger]
                        checked(
                            held.replay_refusal(certificate@) is None,
                            verify,
                            &certificate,
                            verified,
                        ) && engine@ == held.after_replay(certificate@, verified) && match result {
                            Ok(actions) => held.replay_error(certificate@, verified) is None
                                && actions_view(actions@) == seq![
                                ActionView::Report(certificate@),
                            ],
                            Err(error) => held.replay_error(certificate@, verified) == Some(error),
                        };
                    assert(replay_answer(start, held, entry, verify, verified));
                }
                result
            },
        }
    }

    /// Ends the replay of a journal that was read to its end. A new journal begins with the header;
    /// any other must have had it.
    pub fn finish(self, empty: bool) -> (result: Result<Vec<Action>, JournalError>)
        requires
            empty ==> !self@.started,
        ensures
            match result {
                Ok(actions) => if empty {
                    actions_view(actions@) == seq![
                        ActionView::AppendHeader { section: 0, header: self@.expected },
                        ActionView::Sync { section: 0 },
                    ]
                } else {
                    self@.started && actions_view(actions@) == Seq::<ActionView>::empty()
                },
                Err(error) => !empty && !self@.started && error == JournalError::HeaderMissing,
            },
    {
        let mut actions = no_actions();
        if empty {
            push_action(&mut actions, Action::AppendHeader { section: 0, header: self.expected });
            push_action(&mut actions, Action::Sync { section: 0 });
            assert(actions_view(actions@) =~= seq![
                ActionView::AppendHeader { section: 0, header: self@.expected },
                ActionView::Sync { section: 0 },
            ]);
            return Ok(actions);
        }
        if !self.started {
            return Err(JournalError::HeaderMissing);
        }
        Ok(actions)
    }
}

/// Whether `verified` can be what `verify` says of the certificate in a record, if it is asked.
pub open spec fn replay_answer<C: FnOnce(&Certificate) -> bool>(
    replay: ReplayView,
    engine: EngineView,
    entry: Entry,
    verify: C,
    verified: bool,
) -> bool {
    entry matches Entry::Certificate(certificate) ==> checked(
        replay.asks(engine, entry@),
        verify,
        &certificate,
        verified,
    )
}

/// A header is refused for the first thing in which it differs, and only for that.
pub proof fn law_first_difference_is_named(header: HeaderView, expected: HeaderView)
    ensures
        ({
            let error = header_error(header, expected);
            let version = header.version == expected.version;
            let committee = header.committee == expected.committee;
            let epoch = header.epoch == expected.epoch;
            let first = header.first == expected.first;
            let last = header.last == expected.last;
            let window = header.window == expected.window;
            &&& error == Some(JournalError::Version) <==> !version
            &&& error == Some(JournalError::Committee) <==> version && !committee
            &&& error == Some(JournalError::Epoch) <==> version && committee && !epoch
            &&& error == Some(JournalError::First) <==> version && committee && epoch && !first
            &&& error == Some(JournalError::Last) <==> version && committee && epoch && first
                && !last
            &&& error == Some(JournalError::Window) <==> version && committee && epoch && first
                && last && !window
            &&& error is None <==> version && committee && epoch && first && last && window
        }),
{
}

/// A journal is its header and then certificates. The header is taken once, before all else and only
/// if it is the expected one; it changes nothing and there is nothing to do about it. Every certificate
/// after it is checked and, if it is not refused, reported.
pub proof fn law_journal_is_header_then_certificates(
    replay: ReplayView,
    engine: EngineView,
    entry: EntryView,
    verified: bool,
)
    ensures
        match entry {
            EntryView::Header(header) => {
                &&& replay.error(engine, entry, verified) is None <==> !replay.started && header
                    == replay.expected
                &&& replay.error(engine, entry, verified) == Some(JournalError::DuplicateHeader)
                    <==> replay.started
                &&& !replay.asks(engine, entry)
                &&& replay.engine_after(engine, entry, verified) == engine
                &&& ReplayView::actions(entry) == Seq::<ActionView>::empty()
            },
            EntryView::Certificate(certificate) => {
                &&& replay.error(engine, entry, verified) == Some(JournalError::HeaderMissing)
                    <==> !replay.started
                &&& replay.started ==> replay.error(engine, entry, verified)
                    == engine.replay_error(certificate, verified)
                &&& replay.asks(engine, entry) <==> replay.started && certificate.epoch
                    == engine.config.epoch && engine.config.first.0
                    <= certificate.item.position.0 <= engine.config.last.0
                &&& replay.engine_after(engine, entry, verified) == if replay.started {
                    engine.after_replay(certificate, verified)
                } else {
                    engine
                }
                &&& ReplayView::actions(entry) == seq![ActionView::Report(certificate)]
            },
        },
{
    match entry {
        EntryView::Header(header) => {
            law_only_expected_header_passes(header, replay.expected);
        },
        EntryView::Certificate(certificate) => {},
    }
}

/// The proof of a replayed certificate is verified by the signing scheme.
pub proof fn law_replayed_proofs_are_verified<C: FnOnce(&Certificate) -> bool>(
    replay: ReplayView,
    engine: EngineView,
    certificate: Certificate,
    verify: C,
    verified: bool,
)
    requires
        replay.started,
        certificate@.epoch == engine.config.epoch,
        engine.config.first.0 <= certificate@.item.position.0 <= engine.config.last.0,
        replay_answer(replay, engine, Entry::Certificate(certificate), verify, verified),
    ensures
        call_ensures(verify, (&certificate,), verified),
{
}

/// The first byte tells records apart. A header comes behind a zero and a certificate behind a one;
/// nothing else is a record, and where there is no byte the buffer has ended.
pub proof fn law_first_byte_tells_records_apart(
    record: RecordView,
    bytes: Seq<u8>,
    result: Result<(RecordStartView, Seq<u8>), CodecError>,
)
    requires
        reads_record(bytes, result),
    ensures
        record.encoded().len() > 0,
        record.encoded()[0] == match record {
            RecordView::Header(_) => 0u8,
            RecordView::Certificate(_) => 1u8,
        },
        record.encoded().skip(1) == match record {
            RecordView::Header(header) => header.encoded(),
            RecordView::Certificate(certificate) => certificate,
        },
        bytes.len() == 0 ==> result == Err::<(RecordStartView, Seq<u8>), CodecError>(
            CodecError::EndOfBuffer,
        ),
        bytes.len() > 0 && bytes[0] > 1 ==> result == Err::<(RecordStartView, Seq<u8>), CodecError>(
            CodecError::InvalidType,
        ),
        bytes.len() > 0 && bytes[0] == 1 ==> result == Ok::<(RecordStartView, Seq<u8>), CodecError>(
            (RecordStartView::Certificate, bytes.skip(1)),
        ),
        bytes.len() > 0 && bytes[0] == 0 ==> match result {
            Ok((RecordStartView::Header(header), rest)) => header.valid() && bytes == seq![0u8]
                + header.encoded() + rest,
            Ok((RecordStartView::Certificate, _)) => false,
            Err(error) => error == CodecError::EndOfBuffer || error == CodecError::InvalidVarint,
        },
{
    match record {
        RecordView::Header(header) => {
            assert(record.encoded().skip(1) =~= header.encoded());
        },
        RecordView::Certificate(certificate) => {
            assert(record.encoded().skip(1) =~= certificate);
        },
    }
    if bytes.len() > 0 && bytes[0] == 0 {
        if let Ok((RecordStartView::Header(header), rest)) = result {
            assert(bytes =~= seq![0u8] + bytes.skip(1));
            assert(bytes =~= seq![0u8] + header.encoded() + rest);
        }
    }
}

} // verus!
