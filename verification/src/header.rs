//! The first record of a journal.
use crate::bigendian::{be_bytes, lemma_be_limit_u64, lemma_be_value_of_bytes, read_u64, write_u64};
use crate::committee::{committee_identity, identity_of};
use crate::config::Config;
use crate::types::{Epoch, Height};
use crate::varint::{
    begins_with, compatible, cut_short, encode_varint, lemma_compatible_cancel,
    lemma_compatible_starts, lemma_cut_short, lemma_varint_len, lemma_varint_prefix_free,
    read_varint, varint, CodecError,
};
use vstd::prelude::*;
use vstd::slice::slice_subrange;

verus! {

/// The version of the journal format.
pub const JOURNAL_VERSION: u8 = 2;

/// The first record binds all subsequent trusted records to one engine identity.
#[derive(Clone, Copy, Debug, PartialEq, Eq)]
pub struct Header {
    /// The version of the journal format.
    pub version: u8,
    /// The identity of the committee.
    pub committee: [u8; 32],
    /// The epoch.
    pub epoch: Epoch,
    /// The first position.
    pub first: Height,
    /// The last position.
    pub last: Height,
    /// The window.
    pub window: u64,
}

/// The model of a [`Header`].
#[verifier::ext_equal]
pub struct HeaderView {
    pub version: u8,
    pub committee: Seq<u8>,
    pub epoch: Epoch,
    pub first: Height,
    pub last: Height,
    pub window: u64,
}

impl View for Header {
    type V = HeaderView;

    open spec fn view(&self) -> HeaderView {
        HeaderView {
            version: self.version,
            committee: self.committee@,
            epoch: self.epoch,
            first: self.first,
            last: self.last,
            window: self.window,
        }
    }
}

impl HeaderView {
    /// A committee's identity has 32 bytes.
    pub open spec fn valid(self) -> bool {
        self.committee.len() == 32
    }

    /// The part of the encoding that has a fixed length.
    pub open spec fn start(self) -> Seq<u8> {
        seq![self.version] + self.committee
    }

    /// The encoding: the version, the committee's identity, the epoch and the two positions as
    /// integers of variable length, and the window as eight bytes.
    pub open spec fn encoded(self) -> Seq<u8> {
        self.start() + (varint(self.epoch.0 as nat) + (varint(self.first.0 as nat) + (varint(
            self.last.0 as nat,
        ) + be_bytes(self.window as nat, 8))))
    }

    /// The header of an engine's journal, where `participants` is the encoding of its committee.
    pub open spec fn expected(config: Config, participants: Seq<u8>) -> HeaderView {
        HeaderView {
            version: JOURNAL_VERSION,
            committee: identity_of(participants),
            epoch: config.epoch,
            first: config.first,
            last: config.last,
            window: config.window,
        }
    }
}

/// The header of an engine's journal, where `participants` is the encoding of its committee.
pub fn expected_header(config: &Config, participants: &[u8]) -> (header: Header)
    ensures
        header@ == HeaderView::expected(*config, participants@),
        header@.valid(),
{
    let header = Header {
        version: JOURNAL_VERSION,
        committee: committee_identity(participants),
        epoch: config.epoch,
        first: config.first,
        last: config.last,
        window: config.window,
    };
    header
}

/// What reading a header off the front of `bytes` gives: the header and what follows it, if there
/// is one; the end of the buffer, where more bytes could make a header of it; and otherwise a
/// malformed integer.
pub open spec fn reads_header(
    bytes: Seq<u8>,
    result: Result<(HeaderView, Seq<u8>), CodecError>,
) -> bool {
    match result {
        Ok((header, rest)) => header.valid() && bytes == header.encoded() + rest,
        Err(CodecError::EndOfBuffer) => exists|header: HeaderView|
            header.valid() && cut_short(bytes, #[trigger] header.encoded()),
        Err(CodecError::InvalidVarint) => forall|header: HeaderView|
            header.valid() ==> !compatible(bytes, #[trigger] header.encoded()),
        Err(CodecError::InvalidType) => false,
    }
}

/// The model of what was read.
pub open spec fn read_view(result: Result<(Header, &[u8]), CodecError>) -> Result<
    (HeaderView, Seq<u8>),
    CodecError,
> {
    match result {
        Ok((header, rest)) => Ok((header@, rest@)),
        Err(error) => Err(error),
    }
}

/// Adds bytes at the end.
pub(crate) fn push_bytes(bytes: &mut Vec<u8>, more: &[u8])
    ensures
        final(bytes)@ == old(bytes)@ + more@,
{
    let mut i: usize = 0;
    while i < more.len()
        invariant
            i <= more.len(),
            bytes@ == old(bytes)@ + more@.take(i as int),
        decreases more.len() - i,
    {
        bytes.push(more[i]);
        i += 1;
        assert(bytes@ =~= old(bytes)@ + more@.take(i as int));
    }
    assert(more@.take(i as int) =~= more@);
}

impl Header {
    /// Writes the header.
    pub fn write(&self) -> (bytes: Vec<u8>)
        ensures
            bytes@ == self@.encoded(),
    {
        let mut bytes: Vec<u8> = Vec::new();
        bytes.push(self.version);
        push_bytes(&mut bytes, &self.committee);
        push_bytes(&mut bytes, encode_varint(self.epoch.0).as_slice());
        push_bytes(&mut bytes, encode_varint(self.first.0).as_slice());
        push_bytes(&mut bytes, encode_varint(self.last.0).as_slice());
        push_bytes(&mut bytes, write_u64(self.window).as_slice());
        assert(bytes@ =~= self@.encoded());
        bytes
    }

    /// How many bytes the header is written as.
    pub fn encode_size(&self) -> (size: usize)
        ensures
            size == self@.encoded().len(),
    {
        proof {
            lemma_varint_len(self.epoch.0 as nat);
            lemma_varint_len(self.first.0 as nat);
            lemma_varint_len(self.last.0 as nat);
            lemma_be_limit_u64();
            lemma_be_value_of_bytes(self.window as nat, 8);
        }
        1 + 32 + encode_varint(self.epoch.0).len() + encode_varint(self.first.0).len()
            + encode_varint(self.last.0).len() + 8
    }

    /// Reads a header off the front of `bytes`, and returns it with what follows it.
    ///
    /// The buffer is reported to end where more bytes could make a header of it.
    pub fn read<'a>(bytes: &'a [u8]) -> (result: Result<(Header, &'a [u8]), CodecError>)
        ensures
            reads_header(bytes@, read_view(result)),
    {
        if bytes.len() < 33 {
            proof {
                lemma_short_start(bytes@);
            }
            return Err(CodecError::EndOfBuffer);
        }
        let version = bytes[0];
        let mut committee: [u8; 32] = [0; 32];
        let mut i: usize = 0;
        while i < 32
            invariant
                i <= 32,
                bytes.len() >= 33,
                forall|j: int| 0 <= j < i ==> committee@[j] == bytes@[j + 1],
            decreases 32 - i,
        {
            committee[i] = bytes[i + 1];
            i += 1;
        }
        let rest = slice_subrange(bytes, 33, bytes.len());
        let ghost sketch = HeaderView {
            version,
            committee: committee@,
            epoch: Epoch(0),
            first: Height(0),
            last: Height(0),
            window: 0,
        };
        assert(bytes@ =~= sketch.start() + rest@);
        let (epoch, after_epoch) = match read_varint(rest) {
            Ok(read) => read,
            Err(error) => {
                proof {
                    lemma_epoch_fails(sketch, rest@, error);
                }
                return Err(error);
            },
        };
        let ghost sketch = HeaderView { epoch: Epoch(epoch), ..sketch };
        let (first, after_first) = match read_varint(after_epoch) {
            Ok(read) => read,
            Err(error) => {
                proof {
                    lemma_first_fails(sketch, after_epoch@, error);
                }
                return Err(error);
            },
        };
        let ghost sketch = HeaderView { first: Height(first), ..sketch };
        let (last, after_last) = match read_varint(after_first) {
            Ok(read) => read,
            Err(error) => {
                proof {
                    lemma_last_fails(sketch, after_first@, error);
                }
                return Err(error);
            },
        };
        let ghost sketch = HeaderView { last: Height(last), ..sketch };
        let (window, after_window) = match read_u64(after_last) {
            Some(read) => read,
            None => {
                proof {
                    lemma_window_fails(sketch, after_last@);
                }
                return Err(CodecError::EndOfBuffer);
            },
        };
        let header = Header {
            version,
            committee,
            epoch: Epoch(epoch),
            first: Height(first),
            last: Height(last),
            window,
        };
        assert(bytes@ =~= header@.encoded() + after_window@);
        Ok((header, after_window))
    }
}

/// What a failure to read one integer says.
spec fn fails(bytes: Seq<u8>, error: CodecError) -> bool {
    match error {
        CodecError::EndOfBuffer => exists|value: u64|
            cut_short(bytes, #[trigger] varint(value as nat)),
        CodecError::InvalidVarint => forall|value: u64|
            !begins_with(bytes, #[trigger] varint(value as nat)) && !cut_short(
                bytes,
                varint(value as nat),
            ),
        CodecError::InvalidType => false,
    }
}

/// Few bytes can become a header.
proof fn lemma_short_start(bytes: Seq<u8>)
    requires
        bytes.len() < 33,
    ensures
        reads_header(bytes, Err(CodecError::EndOfBuffer)),
{
    let padded = bytes + Seq::new((33 - bytes.len()) as nat, |i: int| 0u8);
    let header = HeaderView {
        version: padded[0],
        committee: padded.skip(1),
        epoch: Epoch(0),
        first: Height(0),
        last: Height(0),
        window: 0,
    };
    assert(header.start() =~= padded);
    assert(header.encoded().take(bytes.len() as int) =~= bytes);
    assert(header.valid() && cut_short(bytes, header.encoded()));
}

/// Two starts of a fixed length that go together are the same.
proof fn lemma_same_start(a: HeaderView, x: Seq<u8>, b: HeaderView, y: Seq<u8>)
    requires
        a.valid(),
        b.valid(),
        compatible(a.start() + x, b.start() + y),
    ensures
        a.version == b.version,
        a.committee == b.committee,
        a.start() == b.start(),
{
    lemma_compatible_starts(a.start(), x, b.start(), y);
    assert(a.start().take(33) =~= a.start());
    assert(b.start().take(33) =~= b.start());
    assert(a.start()[0] == b.start()[0]);
    assert(a.committee =~= a.start().skip(1));
    assert(b.committee =~= b.start().skip(1));
}

/// Two integers at the start that go together are the same.
proof fn lemma_same_varint(a: u64, x: Seq<u8>, b: u64, y: Seq<u8>)
    requires
        compatible(varint(a as nat) + x, varint(b as nat) + y),
    ensures
        a == b,
        compatible(x, y),
{
    lemma_compatible_starts(varint(a as nat), x, varint(b as nat), y);
    lemma_varint_prefix_free(a as nat, b as nat);
    lemma_compatible_cancel(varint(a as nat), x, y);
}

/// Nothing that cannot become an integer goes together with what starts with one.
proof fn lemma_no_varint(bytes: Seq<u8>, value: u64, end: Seq<u8>)
    requires
        fails(bytes, CodecError::InvalidVarint),
    ensures
        !compatible(bytes, varint(value as nat) + end),
{
    if compatible(bytes, varint(value as nat) + end) {
        assert(bytes + Seq::<u8>::empty() =~= bytes);
        lemma_compatible_starts(bytes, Seq::empty(), varint(value as nat), end);
        let whole = varint(value as nat);
        assert(!begins_with(bytes, whole) && !cut_short(bytes, whole));
        assert(bytes.len() == whole.len() && whole.take(bytes.len() as int) =~= whole);
        assert(bytes.take(whole.len() as int) =~= bytes);
    }
}

/// Where the epoch cannot be read, no header can.
proof fn lemma_epoch_fails(sketch: HeaderView, rest: Seq<u8>, error: CodecError)
    requires
        sketch.valid(),
        fails(rest, error),
    ensures
        reads_header(sketch.start() + rest, Err(error)),
{
    let bytes = sketch.start() + rest;
    if error == CodecError::EndOfBuffer {
        let value = choose|value: u64| cut_short(rest, #[trigger] varint(value as nat));
        let header = HeaderView { epoch: Epoch(value), ..sketch };
        lemma_cut_short(
            sketch.start(),
            rest,
            varint(value as nat),
            varint(header.first.0 as nat) + (varint(header.last.0 as nat) + be_bytes(
                header.window as nat,
                8,
            )),
        );
        assert(header.valid() && cut_short(bytes, header.encoded()));
    } else {
        assert forall|header: HeaderView| header.valid() implies !compatible(
            bytes,
            #[trigger] header.encoded(),
        ) by {
            let end = varint(header.first.0 as nat) + (varint(header.last.0 as nat) + be_bytes(
                header.window as nat,
                8,
            ));
            if compatible(bytes, header.encoded()) {
                lemma_same_start(sketch, rest, header, varint(header.epoch.0 as nat) + end);
                lemma_compatible_cancel(
                    sketch.start(),
                    rest,
                    varint(header.epoch.0 as nat) + end,
                );
                lemma_no_varint(rest, header.epoch.0, end);
            }
        }
    }
}

/// Where the first position cannot be read, no header can.
proof fn lemma_first_fails(sketch: HeaderView, rest: Seq<u8>, error: CodecError)
    requires
        sketch.valid(),
        fails(rest, error),
    ensures
        reads_header(sketch.start() + (varint(sketch.epoch.0 as nat) + rest), Err(error)),
{
    let read = sketch.start() + varint(sketch.epoch.0 as nat);
    let bytes = sketch.start() + (varint(sketch.epoch.0 as nat) + rest);
    assert(bytes =~= read + rest);
    if error == CodecError::EndOfBuffer {
        let value = choose|value: u64| cut_short(rest, #[trigger] varint(value as nat));
        let header = HeaderView { first: Height(value), ..sketch };
        let end = varint(header.last.0 as nat) + be_bytes(header.window as nat, 8);
        lemma_cut_short(read, rest, varint(value as nat), end);
        assert(header.encoded() =~= read + (varint(value as nat) + end));
        assert(header.valid() && cut_short(bytes, header.encoded()));
    } else {
        assert forall|header: HeaderView| header.valid() implies !compatible(
            bytes,
            #[trigger] header.encoded(),
        ) by {
            let end = varint(header.last.0 as nat) + be_bytes(header.window as nat, 8);
            let tail = varint(header.first.0 as nat) + end;
            if compatible(bytes, header.encoded()) {
                lemma_same_start(
                    sketch,
                    varint(sketch.epoch.0 as nat) + rest,
                    header,
                    varint(header.epoch.0 as nat) + tail,
                );
                lemma_compatible_cancel(
                    sketch.start(),
                    varint(sketch.epoch.0 as nat) + rest,
                    varint(header.epoch.0 as nat) + tail,
                );
                lemma_same_varint(sketch.epoch.0, rest, header.epoch.0, tail);
                lemma_no_varint(rest, header.first.0, end);
            }
        }
    }
}

/// Where the last position cannot be read, no header can.
proof fn lemma_last_fails(sketch: HeaderView, rest: Seq<u8>, error: CodecError)
    requires
        sketch.valid(),
        fails(rest, error),
    ensures
        reads_header(sketch.start() + (varint(sketch.epoch.0 as nat) + (varint(sketch.first.0 as nat)
                + rest)), Err(error)),
{
    let read = sketch.start() + varint(sketch.epoch.0 as nat) + varint(sketch.first.0 as nat);
    let bytes = sketch.start() + (varint(sketch.epoch.0 as nat) + (varint(sketch.first.0 as nat)
        + rest));
    assert(bytes =~= read + rest);
    if error == CodecError::EndOfBuffer {
        let value = choose|value: u64| cut_short(rest, #[trigger] varint(value as nat));
        let header = HeaderView { last: Height(value), ..sketch };
        let end = be_bytes(header.window as nat, 8);
        lemma_cut_short(read, rest, varint(value as nat), end);
        assert(header.encoded() =~= read + (varint(value as nat) + end));
        assert(header.valid() && cut_short(bytes, header.encoded()));
    } else {
        assert forall|header: HeaderView| header.valid() implies !compatible(
            bytes,
            #[trigger] header.encoded(),
        ) by {
            let end = be_bytes(header.window as nat, 8);
            let tail = varint(header.last.0 as nat) + end;
            if compatible(bytes, header.encoded()) {
                lemma_same_positions(sketch, rest, header, tail);
                lemma_no_varint(rest, header.last.0, end);
            }
        }
    }
}

/// Two headers that go together have the same start, epoch and first position.
proof fn lemma_same_positions(a: HeaderView, x: Seq<u8>, b: HeaderView, y: Seq<u8>)
    requires
        a.valid(),
        b.valid(),
        compatible(
            a.start() + (varint(a.epoch.0 as nat) + (varint(a.first.0 as nat) + x)),
            b.start() + (varint(b.epoch.0 as nat) + (varint(b.first.0 as nat) + y)),
        ),
    ensures
        a.version == b.version,
        a.committee == b.committee,
        a.epoch == b.epoch,
        a.first == b.first,
        compatible(x, y),
{
    let p = varint(a.first.0 as nat) + x;
    let q = varint(b.first.0 as nat) + y;
    lemma_same_start(a, varint(a.epoch.0 as nat) + p, b, varint(b.epoch.0 as nat) + q);
    lemma_compatible_cancel(
        a.start(),
        varint(a.epoch.0 as nat) + p,
        varint(b.epoch.0 as nat) + q,
    );
    lemma_same_varint(a.epoch.0, p, b.epoch.0, q);
    lemma_same_varint(a.first.0, x, b.first.0, y);
}

/// Where the window is cut short, so is the header.
proof fn lemma_window_fails(sketch: HeaderView, rest: Seq<u8>)
    requires
        sketch.valid(),
        rest.len() < 8,
    ensures
        reads_header(sketch.start() + (varint(sketch.epoch.0 as nat) + (varint(sketch.first.0 as nat) + (
            varint(sketch.last.0 as nat) + rest))), Err(CodecError::EndOfBuffer)),
{
    let read = sketch.start() + varint(sketch.epoch.0 as nat) + varint(sketch.first.0 as nat)
        + varint(sketch.last.0 as nat);
    let bytes = sketch.start() + (varint(sketch.epoch.0 as nat) + (varint(sketch.first.0 as nat) + (
    varint(sketch.last.0 as nat) + rest)));
    let padded = rest + Seq::new((8 - rest.len()) as nat, |i: int| 0u8);
    crate::bigendian::lemma_be_bytes_of_value(padded);
    lemma_be_limit_u64();
    let window = crate::bigendian::be_value(padded) as u64;
    let header = HeaderView { window, ..sketch };
    assert(bytes =~= read + rest);
    assert(header.encoded() =~= read + padded);
    assert(header.encoded().take(bytes.len() as int) =~= bytes);
    assert(header.valid() && cut_short(bytes, header.encoded()));
}

/// A header is found again in its encoding, whatever follows: two encodings that go together are
/// those of one header.
pub proof fn law_header_encoding_unique(a: HeaderView, x: Seq<u8>, b: HeaderView, y: Seq<u8>)
    requires
        a.valid(),
        b.valid(),
        compatible(a.encoded() + x, b.encoded() + y),
    ensures
        a == b,
        compatible(x, y),
{
    let p = varint(a.last.0 as nat) + (be_bytes(a.window as nat, 8) + x);
    let q = varint(b.last.0 as nat) + (be_bytes(b.window as nat, 8) + y);
    assert(a.encoded() + x =~= a.start() + (varint(a.epoch.0 as nat) + (varint(a.first.0 as nat)
        + p)));
    assert(b.encoded() + y =~= b.start() + (varint(b.epoch.0 as nat) + (varint(b.first.0 as nat)
        + q)));
    lemma_same_positions(a, p, b, q);
    let v = be_bytes(a.window as nat, 8);
    let w = be_bytes(b.window as nat, 8);
    lemma_same_varint(a.last.0, v + x, b.last.0, w + y);
    lemma_be_limit_u64();
    lemma_be_value_of_bytes(a.window as nat, 8);
    lemma_be_value_of_bytes(b.window as nat, 8);
    lemma_compatible_starts(v, x, w, y);
    assert(v.take(8) =~= v && w.take(8) =~= w);
    assert(v == w);
    lemma_compatible_cancel(v, x, y);
}

/// Reading what was written gives the header back, and leaves what follows it.
pub proof fn law_header_round_trip(
    header: HeaderView,
    rest: Seq<u8>,
    result: Result<(HeaderView, Seq<u8>), CodecError>,
)
    requires
        header.valid(),
        reads_header(header.encoded() + rest, result),
    ensures
        result == Ok::<(HeaderView, Seq<u8>), CodecError>((header, rest)),
{
    let bytes = header.encoded() + rest;
    assert(bytes.take(header.encoded().len() as int) =~= header.encoded());
    match result {
        Ok((other, end)) => {
            assert(bytes.take(bytes.len() as int) =~= bytes);
            law_header_encoding_unique(header, rest, other, end);
            assert(rest =~= bytes.skip(header.encoded().len() as int));
            assert(end =~= bytes.skip(header.encoded().len() as int));
        },
        Err(CodecError::EndOfBuffer) => {
            let other = choose|other: HeaderView|
                other.valid() && cut_short(bytes, #[trigger] other.encoded());
            assert(other.encoded() + Seq::<u8>::empty() =~= other.encoded());
            law_header_encoding_unique(header, rest, other, Seq::empty());
        },
        Err(CodecError::InvalidVarint) => {
            assert(!compatible(bytes, header.encoded()));
        },
        Err(CodecError::InvalidType) => {},
    }
}

/// What is reported where no header can be read: the buffer has ended just where more bytes would make
/// a header of it, and otherwise an integer is malformed.
pub proof fn law_read_errors_tell_what_is_missing(
    bytes: Seq<u8>,
    result: Result<(HeaderView, Seq<u8>), CodecError>,
)
    requires
        reads_header(bytes, result),
    ensures
        result == Err::<(HeaderView, Seq<u8>), CodecError>(CodecError::EndOfBuffer) ==> exists|
            header: HeaderView,
            more: Seq<u8>,
        | header.valid() && more.len() > 0 && #[trigger] (bytes + more) == #[trigger] header.encoded(),
        result == Err::<(HeaderView, Seq<u8>), CodecError>(CodecError::InvalidVarint) ==> forall|
            header: HeaderView,
            more: Seq<u8>,
            rest: Seq<u8>,
        | header.valid() ==> #[trigger] (bytes + more) != #[trigger] (header.encoded() + rest),
        result != Err::<(HeaderView, Seq<u8>), CodecError>(CodecError::InvalidType),
        result matches Ok((header, rest)) ==> header.committee.len() == 32 && bytes
            == header.encoded() + rest,
{
    match result {
        Err(CodecError::EndOfBuffer) => {
            let header = choose|header: HeaderView|
                header.valid() && cut_short(bytes, #[trigger] header.encoded());
            let more = header.encoded().skip(bytes.len() as int);
            assert(bytes + more =~= header.encoded());
        },
        Err(CodecError::InvalidVarint) => {
            assert forall|header: HeaderView, more: Seq<u8>, rest: Seq<u8>|
                header.valid() implies #[trigger] (bytes + more) != #[trigger] (header.encoded()
                + rest) by {
                if bytes + more == header.encoded() + rest {
                    let whole = bytes + more;
                    assert(whole.take(whole.len() as int) =~= whole);
                    lemma_compatible_starts(bytes, more, header.encoded(), rest);
                }
            }
        },
        _ => {},
    }
}

/// Where everything stands in a header: one byte for the version, 32 for the committee, then epoch,
/// first and last position as integers of variable length, and at the end eight bytes for the window.
pub proof fn law_header_layout(header: HeaderView)
    requires
        header.committee.len() == 32,
    ensures
        header.valid(),
        header.encoded()[0] == header.version,
        header.encoded().subrange(1, 33) == header.committee,
        ({
            let epoch = varint(header.epoch.0 as nat);
            let first = varint(header.first.0 as nat);
            let last = varint(header.last.0 as nat);
            let a = 33 + epoch.len() as int;
            let b = a + first.len() as int;
            let c = b + last.len() as int;
            &&& header.encoded().len() == c + 8
            &&& header.encoded().subrange(33, a) == epoch
            &&& header.encoded().subrange(a, b) == first
            &&& header.encoded().subrange(b, c) == last
            &&& crate::bigendian::be_value(header.encoded().skip(c)) == header.window
        }),
{
    let epoch = varint(header.epoch.0 as nat);
    let first = varint(header.first.0 as nat);
    let last = varint(header.last.0 as nat);
    let window = be_bytes(header.window as nat, 8);
    lemma_be_limit_u64();
    lemma_be_value_of_bytes(header.window as nat, 8);
    let a = 33 + epoch.len() as int;
    let b = a + first.len() as int;
    let c = b + last.len() as int;
    let whole = header.encoded();
    assert(whole =~= seq![header.version] + header.committee + epoch + first + last + window);
    assert(whole.subrange(1, 33) =~= header.committee);
    assert(whole.subrange(33, a) =~= epoch);
    assert(whole.subrange(a, b) =~= first);
    assert(whole.subrange(b, c) =~= last);
    assert(whole.skip(c) =~= window);
}

/// The header of an engine's journal names its committee, epoch, range and window.
pub proof fn law_expected_header_names_the_engine(config: Config, participants: Seq<u8>)
    ensures
        HeaderView::expected(config, participants).version == 2,
        HeaderView::expected(config, participants).committee == identity_of(participants),
        HeaderView::expected(config, participants).epoch == config.epoch,
        HeaderView::expected(config, participants).first == config.first,
        HeaderView::expected(config, participants).last == config.last,
        HeaderView::expected(config, participants).window == config.window,
{
}

} // verus!
