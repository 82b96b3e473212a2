//! Integers of fixed length, the highest byte first.
use vstd::prelude::*;

verus! {

/// The `length` lowest bytes of a number, the highest first.
pub open spec fn be_bytes(value: nat, length: nat) -> Seq<u8>
    decreases length,
{
    if length == 0 {
        Seq::empty()
    } else {
        be_bytes(value / 256, (length - 1) as nat).push((value % 256) as u8)
    }
}

/// The number whose bytes, the highest first, are `bytes`.
pub open spec fn be_value(bytes: Seq<u8>) -> nat
    decreases bytes.len(),
{
    if bytes.len() == 0 {
        0
    } else {
        be_value(bytes.drop_last()) * 256 + bytes.last() as nat
    }
}

/// The first number that takes more than `length` bytes.
pub open spec fn be_limit(length: nat) -> nat
    decreases length,
{
    if length == 0 {
        1
    } else {
        256 * be_limit((length - 1) as nat)
    }
}

/// A number below the limit is found again in its bytes.
pub proof fn lemma_be_value_of_bytes(value: nat, length: nat)
    requires
        value < be_limit(length),
    ensures
        be_bytes(value, length).len() == length,
        be_value(be_bytes(value, length)) == value,
    decreases length,
{
    if length > 0 {
        lemma_be_value_of_bytes(value / 256, (length - 1) as nat);
        assert(be_bytes(value, length).drop_last() =~= be_bytes(value / 256, (length - 1) as nat));
    }
}

/// Bytes are found again in their number.
pub proof fn lemma_be_bytes_of_value(bytes: Seq<u8>)
    ensures
        be_value(bytes) < be_limit(bytes.len()),
        be_bytes(be_value(bytes), bytes.len()) == bytes,
    decreases bytes.len(),
{
    if bytes.len() > 0 {
        lemma_be_bytes_of_value(bytes.drop_last());
        assert((be_value(bytes) % 256) as u8 == bytes.last());
        assert(be_value(bytes) / 256 == be_value(bytes.drop_last()));
        assert(be_bytes(be_value(bytes), bytes.len()) =~= bytes);
    }
}

/// Eight bytes hold the numbers of a `u64`.
pub proof fn lemma_be_limit_u64()
    ensures
        be_limit(8) == 0x1_0000_0000_0000_0000,
{
    reveal_with_fuel(be_limit, 9);
}

/// More bytes reach further.
proof fn lemma_be_limit_grows(short: nat, long: nat)
    requires
        short <= long,
    ensures
        be_limit(short) <= be_limit(long),
    decreases long,
{
    if short < long {
        lemma_be_limit_grows(short, (long - 1) as nat);
    }
}

/// Writes the `length` lowest bytes of a number.
fn write_lowest(value: u64, length: u32) -> (bytes: Vec<u8>)
    ensures
        bytes@ == be_bytes(value as nat, length as nat),
    decreases length,
{
    if length == 0 {
        return Vec::new();
    }
    let mut bytes = write_lowest(value / 256, length - 1);
    bytes.push((value % 256) as u8);
    bytes
}

/// Writes a number as eight bytes.
pub fn write_u64(value: u64) -> (bytes: Vec<u8>)
    ensures
        bytes@ == be_bytes(value as nat, 8),
{
    write_lowest(value, 8)
}

/// Reads a number off the front of `bytes`, and returns it with what follows it. There is none if
/// there are fewer than eight bytes.
pub fn read_u64<'a>(bytes: &'a [u8]) -> (result: Option<(u64, &'a [u8])>)
    ensures
        match result {
            Some((value, rest)) => bytes@ == be_bytes(value as nat, 8) + rest@,
            None => bytes@.len() < 8,
        },
{
    if bytes.len() < 8 {
        return None;
    }
    let mut value: u64 = 0;
    let mut i: usize = 0;
    while i < 8
        invariant
            i <= 8 <= bytes.len(),
            value == be_value(bytes@.take(i as int)),
        decreases 8 - i,
    {
        let ghost next = bytes@.take(i + 1);
        proof {
            lemma_be_bytes_of_value(next);
            lemma_be_limit_grows((i + 1) as nat, 8);
            lemma_be_limit_u64();
            assert(next.drop_last() =~= bytes@.take(i as int));
        }
        value = value * 256 + bytes[i] as u64;
        i += 1;
    }
    proof {
        lemma_be_bytes_of_value(bytes@.take(8));
        assert(bytes@.take(8) + bytes@.subrange(8, bytes@.len() as int) =~= bytes@);
    }
    Some((value, vstd::slice::slice_subrange(bytes, 8, bytes.len())))
}

/// How much the byte with `below` bytes behind it counts.
pub open spec fn weight(below: nat) -> nat
    decreases below,
{
    if below == 0 {
        1
    } else {
        256 * weight((below - 1) as nat)
    }
}

/// Each byte holds the digit of its place, the highest first.
pub proof fn law_highest_byte_comes_first(value: nat, length: nat, i: int)
    requires
        0 <= i < length,
    ensures
        be_bytes(value, length).len() == length,
        be_bytes(value, length)[i] == (value / weight((length - 1 - i) as nat)) % 256,
    decreases length,
{
    lemma_be_len(value, length);
    lemma_be_len(value / 256, (length - 1) as nat);
    if i == length - 1 {
        assert(weight(0) == 1);
        assert(value / 1 == value) by (nonlinear_arith);
    } else {
        law_highest_byte_comes_first(value / 256, (length - 1) as nat, i);
        let below = (length - 2 - i) as nat;
        lemma_weight(below);
        let unit = weight(below);
        assert(weight((length - 1 - i) as nat) == 256 * unit);
        vstd::arithmetic::div_mod::lemma_div_denominator(value as int, 256, unit as int);
    }
}

/// Every byte counts for something.
proof fn lemma_weight(below: nat)
    ensures
        weight(below) > 0,
    decreases below,
{
    if below > 0 {
        lemma_weight((below - 1) as nat);
    }
}

/// There are as many bytes as are asked for.
proof fn lemma_be_len(value: nat, length: nat)
    ensures
        be_bytes(value, length).len() == length,
    decreases length,
{
    if length > 0 {
        lemma_be_len(value / 256, (length - 1) as nat);
    }
}

} // verus!
