//! Integers of variable length, as they stand in journal records.
use commonware_codec::varint::UInt;
use commonware_codec::{Encode, Error, ReadExt};
use vstd::prelude::*;

verus! {

/// Why bytes are not the encoding of a value.
#[derive(Clone, Copy, Debug, PartialEq, Eq, Structural)]
pub enum CodecError {
    /// The bytes end before the value does.
    EndOfBuffer,
    /// An integer of variable length is malformed.
    InvalidVarint,
    /// A record has an unknown type.
    InvalidType,
}

/// The encoding of an integer: seven bits a byte, the lowest first, with the top bit set on every
/// byte but the last.
pub open spec fn varint(value: nat) -> Seq<u8>
    decreases value,
{
    if value < 128 {
        seq![value as u8]
    } else {
        seq![(value % 128 + 128) as u8] + varint(value / 128)
    }
}

/// Whether `bytes` begin with `start`.
pub open spec fn begins_with(bytes: Seq<u8>, start: Seq<u8>) -> bool {
    start.len() <= bytes.len() && bytes.take(start.len() as int) == start
}

/// Whether `bytes` are the start of `whole`, with at least a byte missing.
pub open spec fn cut_short(bytes: Seq<u8>, whole: Seq<u8>) -> bool {
    bytes.len() < whole.len() && begins_with(whole, bytes)
}

/// Whether one byte string is the start of the other.
pub open spec fn compatible(a: Seq<u8>, b: Seq<u8>) -> bool {
    begins_with(a, b) || begins_with(b, a)
}

/// What is the start of something is still so behind a common start, and before anything else.
pub proof fn lemma_cut_short(start: Seq<u8>, bytes: Seq<u8>, whole: Seq<u8>, end: Seq<u8>)
    requires
        cut_short(bytes, whole),
    ensures
        cut_short(start + bytes, start + (whole + end)),
{
    assert((start + (whole + end)).take((start + bytes).len() as int) =~= start + whole.take(
        bytes.len() as int,
    ));
}

/// A common start does not matter.
pub proof fn lemma_compatible_cancel(start: Seq<u8>, a: Seq<u8>, b: Seq<u8>)
    requires
        compatible(start + a, start + b),
    ensures
        compatible(a, b),
{
    if begins_with(start + a, start + b) {
        assert((start + a).take((start + b).len() as int).skip(start.len() as int) =~= a.take(
            b.len() as int,
        ));
        assert((start + b).skip(start.len() as int) =~= b);
    } else {
        assert((start + b).take((start + a).len() as int).skip(start.len() as int) =~= b.take(
            a.len() as int,
        ));
        assert((start + a).skip(start.len() as int) =~= a);
    }
}

/// What goes together with something goes together with its start.
pub proof fn lemma_compatible_start(a: Seq<u8>, start: Seq<u8>, end: Seq<u8>)
    requires
        compatible(a, start + end),
    ensures
        compatible(a, start),
{
    let whole = start + end;
    let n = start.len() as int;
    if begins_with(a, whole) {
        assert(a.take(n) =~= a.take(whole.len() as int).take(n));
        assert(a.take(n) =~= start);
    } else if a.len() <= start.len() {
        assert(start.take(a.len() as int) =~= whole.take(a.len() as int));
    } else {
        assert(a.take(n) =~= whole.take(a.len() as int).take(n));
        assert(a.take(n) =~= start);
    }
}

/// Where two byte strings go together, so do their starts.
pub proof fn lemma_compatible_starts(a: Seq<u8>, c: Seq<u8>, b: Seq<u8>, d: Seq<u8>)
    requires
        compatible(a + c, b + d),
    ensures
        compatible(a, b),
{
    lemma_compatible_start(a + c, b, d);
    lemma_compatible_start(b, a, c);
}

/// Calls `commonware_codec::Encode::encode` on a `commonware_codec::varint::UInt`, which writes
/// seven bits a byte, the lowest first, and sets the top bit of every byte but the last.
#[verifier::external_body]
pub(crate) fn encode_varint(value: u64) -> (bytes: Vec<u8>)
    ensures
        bytes@ == varint(value as nat),
{
    UInt(value).encode().to_vec()
}

/// Calls `commonware_codec::ReadExt::read` for a `commonware_codec::varint::UInt`, which takes the
/// encoding of one `u64` off the front of the bytes. It accepts the one encoding that each value
/// has and no other; it reports the end of the buffer where the bytes could still become one.
#[verifier::external_body]
pub(crate) fn read_varint<'a>(bytes: &'a [u8]) -> (result: Result<(u64, &'a [u8]), CodecError>)
    ensures
        match result {
            Ok((value, rest)) => bytes@ == varint(value as nat) + rest@,
            Err(CodecError::EndOfBuffer) => exists|value: u64|
                cut_short(bytes@, #[trigger] varint(value as nat)),
            Err(CodecError::InvalidVarint) => forall|value: u64|
                !begins_with(bytes@, #[trigger] varint(value as nat)) && !cut_short(
                    bytes@,
                    varint(value as nat),
                ),
            Err(CodecError::InvalidType) => false,
        },
{
    let mut rest = bytes;
    match UInt::<u64>::read(&mut rest) {
        Ok(UInt(value)) => Ok((value, rest)),
        Err(Error::EndOfBuffer) => Err(CodecError::EndOfBuffer),
        Err(_) => Err(CodecError::InvalidVarint),
    }
}

/// No encoding begins with another.
pub proof fn lemma_varint_prefix_free(a: nat, b: nat)
    requires
        compatible(varint(a), varint(b)),
    ensures
        a == b,
    decreases a,
{
    let (x, y) = (varint(a), varint(b));
    assert(x.len() > 0 && y.len() > 0);
    assert(x[0] == y[0]) by {
        assert(begins_with(x, y) ==> x.take(y.len() as int)[0] == x[0]);
        assert(begins_with(y, x) ==> y.take(x.len() as int)[0] == y[0]);
    }
    if a >= 128 && b >= 128 {
        assert(x =~= seq![x[0]] + varint(a / 128));
        assert(y =~= seq![x[0]] + varint(b / 128));
        lemma_compatible_cancel(seq![x[0]], varint(a / 128), varint(b / 128));
        lemma_varint_prefix_free(a / 128, b / 128);
    }
}

/// An encoding is never empty, and takes at most ten bytes for a `u64`.
pub proof fn lemma_varint_len(value: nat)
    ensures
        0 < varint(value).len(),
        value < 0x1_0000_0000_0000_0000 ==> varint(value).len() <= 10,
{
    reveal_with_fuel(varint, 11);
}

} // verus!
