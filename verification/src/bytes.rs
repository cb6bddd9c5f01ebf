//! Little-endian integers and UTF-8 text as bytes.

use vstd::prelude::*;
use vstd::utf8::{decode_utf8, valid_utf8};

verus! {

/// The low `count` bytes of a number, least significant first.
pub open spec fn le_bytes(value: nat, count: nat) -> Seq<u8>
    decreases count,
{
    if count == 0 {
        Seq::empty()
    } else {
        seq![(value % 256) as u8] + le_bytes(value / 256, (count - 1) as nat)
    }
}

/// The number whose bytes, least significant first, these are.
pub open spec fn le_value(bytes: Seq<u8>) -> nat
    decreases bytes.len(),
{
    if bytes.len() == 0 {
        0
    } else {
        bytes[0] as nat + 256 * le_value(bytes.skip(1))
    }
}

/// Numbers of `count` bytes.
pub open spec fn byte_range(count: nat) -> nat
    decreases count,
{
    if count == 0 {
        1
    } else {
        256 * byte_range((count - 1) as nat)
    }
}

pub proof fn lemma_le_len(value: nat, count: nat)
    ensures
        le_bytes(value, count).len() == count,
    decreases count,
{
    if count > 0 {
        lemma_le_len(value / 256, (count - 1) as nat);
    }
}

/// Reading back the bytes of a number gives the number, where they hold all of it.
pub proof fn law_le_round_trip(value: nat, count: nat)
    requires
        value < byte_range(count),
    ensures
        le_bytes(value, count).len() == count,
        le_value(le_bytes(value, count)) == value,
    decreases count,
{
    if count > 0 {
        law_le_round_trip(value / 256, (count - 1) as nat);
        let bytes = le_bytes(value, count);
        assert(bytes.skip(1) =~= le_bytes(value / 256, (count - 1) as nat));
    }
}

/// The bytes of the number that bytes stand for are those bytes.
pub proof fn law_le_bytes_of_value(bytes: Seq<u8>)
    ensures
        le_bytes(le_value(bytes), bytes.len()) == bytes,
        le_value(bytes) < byte_range(bytes.len()),
    decreases bytes.len(),
{
    if bytes.len() > 0 {
        law_le_bytes_of_value(bytes.skip(1));
        let rest = le_value(bytes.skip(1));
        assert(le_value(bytes) == bytes[0] as nat + 256 * rest);
        assert((bytes[0] as nat + 256 * rest) / 256 == rest);
        assert((bytes[0] as nat + 256 * rest) % 256 == bytes[0]);
        assert(le_bytes(le_value(bytes), bytes.len()) =~= seq![bytes[0]] + bytes.skip(1));
    } else {
        assert(le_bytes(0, 0) =~= bytes);
    }
}

pub proof fn lemma_byte_ranges()
    ensures
        byte_range(1) == 0x100,
        byte_range(4) == 0x1_0000_0000,
        byte_range(8) == 0x1_0000_0000_0000_0000,
        byte_range(16) == 0x1_0000_0000_0000_0000_0000_0000_0000_0000,
{
    reveal_with_fuel(byte_range, 17);
}

proof fn lemma_range_grows(low: nat, high: nat)
    requires
        low <= high,
    ensures
        0 < byte_range(low) <= byte_range(high),
    decreases high,
{
    if high > 0 {
        if low == high {
            lemma_range_grows((low - 1) as nat, (high - 1) as nat);
        } else {
            lemma_range_grows(low, (high - 1) as nat);
        }
    }
}

/// Appends the low bytes of a number.
pub(crate) fn push_le(out: &mut Vec<u8>, value: u128, count: usize)
    ensures
        final(out)@ == old(out)@ + le_bytes(value as nat, count as nat),
{
    let ghost before = out@;
    let mut rest: u128 = value;
    let mut left: usize = count;
    assert(out@ + le_bytes(rest as nat, left as nat) =~= before + le_bytes(
        value as nat,
        count as nat,
    ));
    while left > 0
        invariant
            out@ + le_bytes(rest as nat, left as nat) == before + le_bytes(
                value as nat,
                count as nat,
            ),
        decreases left,
    {
        let ghost seen = out@;
        let byte: u8 = (rest % 256) as u8;
        out.push(byte);
        assert(seen + le_bytes(rest as nat, left as nat) =~= out@ + le_bytes(
            (rest / 256) as nat,
            (left - 1) as nat,
        ));
        rest = rest / 256;
        left = left - 1;
    }
    assert(out@ + le_bytes(rest as nat, 0) =~= out@);
}

/// The number that at most sixteen bytes stand for.
pub(crate) fn read_le(bytes: &[u8]) -> (value: u128)
    requires
        bytes@.len() <= 16,
    ensures
        value == le_value(bytes@),
{
    let mut value: u128 = 0;
    let mut index: usize = bytes.len();
    assert(bytes@.skip(bytes@.len() as int) =~= Seq::empty());
    while index > 0
        invariant
            index <= bytes@.len() <= 16,
            value == le_value(bytes@.skip(index as int)),
        decreases index,
    {
        let ghost tail = bytes@.skip(index - 1);
        proof {
            assert(tail.skip(1) =~= bytes@.skip(index as int));
            law_le_bytes_of_value(tail);
            lemma_range_grows(tail.len(), 16);
            lemma_byte_ranges();
        }
        index = index - 1;
        value = value * 256 + bytes[index] as u128;
    }
    assert(bytes@.skip(0) =~= bytes@);
    value
}

/// The number modulo two to the 64.
pub open spec fn wrapped64(value: int) -> nat {
    if value >= 0 {
        value as nat
    } else {
        (value + 0x1_0000_0000_0000_0000) as nat
    }
}

/// The number modulo two to the 32.
pub open spec fn wrapped32(value: int) -> nat {
    if value >= 0 {
        value as nat
    } else {
        (value + 0x1_0000_0000) as nat
    }
}

pub(crate) fn wrap64(value: i64) -> (word: u64)
    ensures
        word == wrapped64(value as int),
{
    if value >= 0 {
        value as u64
    } else {
        u64::MAX - ((-(value + 1)) as u64)
    }
}

pub(crate) fn unwrap64(word: u64) -> (value: i64)
    ensures
        wrapped64(value as int) == word,
{
    if word <= i64::MAX as u64 {
        word as i64
    } else {
        -((u64::MAX - word) as i64) - 1
    }
}

pub(crate) fn wrap32(value: i32) -> (word: u32)
    ensures
        word == wrapped32(value as int),
{
    if value >= 0 {
        value as u32
    } else {
        u32::MAX - ((-(value + 1)) as u32)
    }
}

pub(crate) fn unwrap32(word: u32) -> (value: i32)
    ensures
        wrapped32(value as int) == word,
{
    if word <= i32::MAX as u32 {
        word as i32
    } else {
        -((u32::MAX - word) as i32) - 1
    }
}

/// `std::str::from_utf8`: the text that valid UTF-8 encodes; an error on bytes that are not valid.
#[verifier::external_body]
pub(crate) fn text_of(bytes: &[u8]) -> (text: Option<&str>)
    ensures
        match text {
            Some(text) => valid_utf8(bytes@) && text@ == decode_utf8(bytes@),
            None => !valid_utf8(bytes@),
        },
{
    std::str::from_utf8(bytes).ok()
}

/// Compares byte strings.
pub(crate) fn same_bytes(left: &[u8], right: &[u8]) -> (same: bool)
    ensures
        same == (left@ == right@),
{
    if left.len() != right.len() {
        return false;
    }
    for index in 0..left.len()
        invariant
            left@.len() == right@.len(),
            forall|i: int| 0 <= i < index ==> left@[i] == right@[i],
    {
        if left[index] != right[index] {
            return false;
        }
    }
    assert(left@ =~= right@);
    true
}

/// Whether one byte string comes before another in lexical order.
pub open spec fn bytes_less(left: Seq<u8>, right: Seq<u8>) -> bool
    decreases left.len(),
{
    if right.len() == 0 {
        false
    } else if left.len() == 0 {
        true
    } else if left[0] != right[0] {
        left[0] < right[0]
    } else {
        bytes_less(left.skip(1), right.skip(1))
    }
}

pub(crate) fn comes_before(left: &[u8], right: &[u8]) -> (before: bool)
    ensures
        before == bytes_less(left@, right@),
{
    let mut index: usize = 0;
    assert(left@.skip(0) =~= left@);
    assert(right@.skip(0) =~= right@);
    while index < left.len() && index < right.len()
        invariant
            index <= left@.len(),
            index <= right@.len(),
            bytes_less(left@, right@) == bytes_less(
                left@.skip(index as int),
                right@.skip(index as int),
            ),
        decreases left@.len() - index,
    {
        assert(left@.skip(index as int).skip(1) =~= left@.skip(index + 1));
        assert(right@.skip(index as int).skip(1) =~= right@.skip(index + 1));
        if left[index] != right[index] {
            return left[index] < right[index];
        }
        index = index + 1;
    }
    index < right.len()
}

/// Bytes behind their length.
pub open spec fn framed_bytes(bytes: Seq<u8>) -> Seq<u8> {
    le_bytes(bytes.len(), 8) + bytes
}

pub(crate) fn push_framed(out: &mut Vec<u8>, bytes: &[u8])
    ensures
        final(out)@ == old(out)@ + framed_bytes(bytes@),
{
    let ghost before = out@;
    push_le(out, bytes.len() as u128, 8);
    out.extend_from_slice(bytes);
    assert(out@ =~= before + framed_bytes(bytes@));
}

} // verus!
