//! Tagged payloads: one self-describing byte string per value, and documents made of them.

use crate::bytes::{
    bytes_less, comes_before, law_le_bytes_of_value, law_le_round_trip, le_bytes, le_value,
    lemma_byte_ranges, push_le, read_le, text_of, unwrap32, unwrap64, wrap32, wrap64, wrapped32,
    wrapped64,
};
use crate::error::{fails_with, Error, ErrorCode, Result};
use crate::values::{copy_bytes, DocumentList, DocumentMap, Scalar, ScalarValue};
use vstd::prelude::*;
use vstd::utf8::{decode_utf8, encode_utf8, valid_utf8};

verus! {

pub const MIXED_BOOLEAN: u8 = 1;

pub const MIXED_INTEGER: u8 = 2;

pub const MIXED_FLOAT: u8 = 3;

pub const MIXED_STRING: u8 = 4;

pub const MIXED_STRING_TAG: u8 = 4;

pub const MIXED_BYTES: u8 = 5;

pub const MIXED_DATE: u8 = 6;

pub const MIXED_LOCAL_TIME: u8 = 7;

pub const MIXED_ZONED_TIME: u8 = 8;

pub const MIXED_LOCAL_DATETIME: u8 = 9;

pub const MIXED_ZONED_DATETIME: u8 = 10;

pub const MIXED_DURATION: u8 = 11;

pub const MIXED_LIST: u8 = 12;

pub const MIXED_MAP: u8 = 13;

const ITEM_NODE: u8 = 14;

const ITEM_EDGE: u8 = 15;

/// What the root of a document is.
#[derive(Clone, Copy, Debug, PartialEq, Eq, Structural)]
pub enum DocumentRoot {
    List,
    Entries,
}

pub open spec fn le64(value: int) -> Seq<u8> {
    le_bytes(wrapped64(value), 8)
}

pub open spec fn le32(value: int) -> Seq<u8> {
    le_bytes(wrapped32(value), 4)
}

/// The tagged payload of a value; NULL has none.
pub open spec fn payload(value: Scalar) -> Option<Seq<u8>> {
    match value {
        Scalar::Null => None,
        Scalar::Boolean(value) => Some(
            seq![
                1u8,
                if value {
                    1u8
                } else {
                    0u8
                },
            ],
        ),
        Scalar::Integer(value) => Some(seq![2u8] + le64(value as int)),
        Scalar::Float(bits) => Some(seq![3u8] + le64(bits as int)),
        Scalar::Text(text) => Some(seq![4u8] + encode_utf8(text)),
        Scalar::Bytes(bytes) => Some(seq![5u8] + bytes),
        Scalar::Date(days) => Some(seq![6u8] + le64(days as int)),
        Scalar::LocalTime(nanos) => Some(seq![7u8] + le64(nanos as int)),
        Scalar::ZonedTime(nanos, offset) => Some(
            seq![8u8] + (le64(nanos as int) + le32(offset as int)),
        ),
        Scalar::LocalDateTime(seconds, nanos) => Some(
            seq![9u8] + (le64(seconds as int) + le32(nanos as int)),
        ),
        Scalar::ZonedDateTime(seconds, nanos, timezone) => Some(
            seq![10u8] + (le64(seconds as int) + le32(nanos as int) + encode_utf8(timezone)),
        ),
        Scalar::Duration(months, days, seconds, nanos) => Some(
            seq![11u8] + (le64(months as int) + le64(days as int) + le64(seconds as int) + le32(
                nanos as int,
            )),
        ),
        Scalar::List(bytes) => Some(seq![12u8] + bytes),
        Scalar::Entries(bytes) => Some(seq![13u8] + bytes),
    }
}

/// The number that eight bytes stand for, read as two's complement.
pub open spec fn signed64(bytes: Seq<u8>) -> i64 {
    let word = le_value(bytes);
    if word < 0x8000_0000_0000_0000 {
        word as i64
    } else {
        (word - 0x1_0000_0000_0000_0000) as i64
    }
}

/// The number that four bytes stand for, read as two's complement.
pub open spec fn signed32(bytes: Seq<u8>) -> i32 {
    let word = le_value(bytes);
    if word < 0x8000_0000 {
        word as i32
    } else {
        (word - 0x1_0000_0000) as i32
    }
}

/// The value that a tagged payload holds, if it holds one.
pub open spec fn decoded(bytes: Seq<u8>) -> Option<Scalar>
    decreases bytes.len(), 0nat,
{
    if bytes.len() == 0 {
        None
    } else {
        let rest = bytes.skip(1);
        if bytes[0] == MIXED_BOOLEAN {
            if rest == seq![0u8] {
                Some(Scalar::Boolean(false))
            } else if rest == seq![1u8] {
                Some(Scalar::Boolean(true))
            } else {
                None
            }
        } else if bytes[0] == MIXED_INTEGER && rest.len() == 8 {
            Some(Scalar::Integer(signed64(rest)))
        } else if bytes[0] == MIXED_FLOAT && rest.len() == 8 {
            Some(Scalar::Float(le_value(rest) as u64))
        } else if bytes[0] == MIXED_STRING && valid_utf8(rest) {
            Some(Scalar::Text(decode_utf8(rest)))
        } else if bytes[0] == MIXED_BYTES {
            Some(Scalar::Bytes(rest))
        } else if bytes[0] == MIXED_DATE && rest.len() == 8 {
            Some(Scalar::Date(signed64(rest)))
        } else if bytes[0] == MIXED_LOCAL_TIME && rest.len() == 8 {
            Some(Scalar::LocalTime(signed64(rest)))
        } else if bytes[0] == MIXED_ZONED_TIME && rest.len() == 12 {
            Some(Scalar::ZonedTime(signed64(rest.subrange(0, 8)), signed32(rest.subrange(8, 12))))
        } else if bytes[0] == MIXED_LOCAL_DATETIME && rest.len() == 12 {
            Some(
                Scalar::LocalDateTime(
                    signed64(rest.subrange(0, 8)),
                    le_value(rest.subrange(8, 12)) as u32,
                ),
            )
        } else if bytes[0] == MIXED_ZONED_DATETIME && rest.len() >= 12 && valid_utf8(
            rest.skip(12),
        ) {
            Some(
                Scalar::ZonedDateTime(
                    signed64(rest.subrange(0, 8)),
                    le_value(rest.subrange(8, 12)) as u32,
                    decode_utf8(rest.skip(12)),
                ),
            )
        } else if bytes[0] == MIXED_DURATION && rest.len() == 28 {
            Some(
                Scalar::Duration(
                    signed64(rest.subrange(0, 8)),
                    signed64(rest.subrange(8, 16)),
                    signed64(rest.subrange(16, 24)),
                    signed32(rest.subrange(24, 28)),
                ),
            )
        } else if bytes[0] == MIXED_LIST && canonical_items(rest) {
            Some(Scalar::List(rest))
        } else if bytes[0] == MIXED_MAP && canonical_entries(rest, None) {
            Some(Scalar::Entries(rest))
        } else {
            None
        }
    }
}

/// One item of a document: nothing for NULL, a node or an edge, or a tagged payload. This framing of
/// documents, and that of items and entries below, is the library's own; no other codec reads it.
pub open spec fn canonical_item(bytes: Seq<u8>) -> bool
    decreases bytes.len(), 1nat,
{
    bytes.len() == 0 || ((bytes[0] == 14 || bytes[0] == 15) && bytes.len() == 9) || decoded(
        bytes,
    ) is Some
}

/// Items one after the other, each behind its length.
pub open spec fn canonical_items(bytes: Seq<u8>) -> bool
    decreases bytes.len(), 2nat,
{
    bytes.len() == 0 || (bytes.len() >= 4 && {
        let end = 4 + le_value(bytes.subrange(0, 4));
        end <= bytes.len() && canonical_item(bytes.subrange(4, end as int)) && canonical_items(
            bytes.skip(end as int),
        )
    })
}

/// Entries by strictly ascending key: a key behind its length, then an item behind its length.
pub open spec fn canonical_entries(bytes: Seq<u8>, previous: Option<Seq<u8>>) -> bool
    decreases bytes.len(), 2nat,
{
    bytes.len() == 0 || (bytes.len() >= 4 && {
        let key_end = 4 + le_value(bytes.subrange(0, 4)) as int;
        key_end + 4 <= bytes.len() && {
            let key = bytes.subrange(4, key_end);
            let end = key_end + 4 + le_value(bytes.subrange(key_end, key_end + 4));
            &&& end <= bytes.len()
            &&& valid_utf8(key)
            &&& previous is Some ==> bytes_less(previous->Some_0, key)
            &&& canonical_item(bytes.subrange(key_end + 4, end))
            &&& canonical_entries(bytes.skip(end), Some(key))
        }
    })
}

/// The bytes of a document with this root.
pub open spec fn canonical(bytes: Seq<u8>, root: DocumentRoot) -> bool {
    match root {
        DocumentRoot::List => canonical_items(bytes),
        DocumentRoot::Entries => canonical_entries(bytes, None),
    }
}

/// The documents inside a value are canonical.
pub open spec fn storable(value: Scalar) -> bool {
    match value {
        Scalar::List(bytes) => canonical_items(bytes),
        Scalar::Entries(bytes) => canonical_entries(bytes, None),
        _ => true,
    }
}

proof fn lemma_signed64(value: i64)
    ensures
        le64(value as int).len() == 8,
        signed64(le64(value as int)) == value,
{
    lemma_byte_ranges();
    law_le_round_trip(wrapped64(value as int), 8);
}

proof fn lemma_signed32(value: i32)
    ensures
        le32(value as int).len() == 4,
        signed32(le32(value as int)) == value,
{
    lemma_byte_ranges();
    law_le_round_trip(wrapped32(value as int), 4);
}

proof fn lemma_unsigned(word: u64, short: u32)
    ensures
        le64(word as int).len() == 8,
        le_value(le64(word as int)) == word,
        le32(short as int).len() == 4,
        le_value(le32(short as int)) == short,
{
    lemma_byte_ranges();
    law_le_round_trip(word as nat, 8);
    law_le_round_trip(short as nat, 4);
}

/// A payload reads back as the value it was made of.
#[verifier::rlimit(30)]
pub proof fn law_payload_round_trip(value: Scalar)
    requires
        value != Scalar::Null,
        storable(value),
    ensures
        payload(value) is Some,
        decoded(payload(value)->Some_0) == Some(value),
{
    broadcast use {vstd::utf8::encode_utf8_valid_utf8, vstd::utf8::encode_utf8_decode_utf8};

    let bytes = payload(value)->Some_0;
    let rest = bytes.skip(1);
    match value {
        Scalar::Boolean(flag) => {
            assert(rest =~= seq![if flag { 1u8 } else { 0u8 }]);
            assert(seq![0u8][0] != seq![1u8][0]);
        },
        Scalar::Integer(number) | Scalar::Date(number) | Scalar::LocalTime(number) => {
            lemma_signed64(number);
            assert(rest =~= le64(number as int));
        },
        Scalar::Float(bits) => {
            lemma_unsigned(bits, 0);
            assert(rest =~= le64(bits as int));
        },
        Scalar::Text(text) => {
            assert(rest =~= encode_utf8(text));
        },
        Scalar::Bytes(inner) => {
            assert(rest =~= inner);
        },
        Scalar::ZonedTime(nanos, offset) => {
            lemma_signed64(nanos);
            lemma_signed32(offset);
            assert(rest.subrange(0, 8) =~= le64(nanos as int));
            assert(rest.subrange(8, 12) =~= le32(offset as int));
        },
        Scalar::LocalDateTime(seconds, nanos) => {
            lemma_signed64(seconds);
            lemma_unsigned(0, nanos);
            assert(rest.subrange(0, 8) =~= le64(seconds as int));
            assert(rest.subrange(8, 12) =~= le32(nanos as int));
        },
        Scalar::ZonedDateTime(seconds, nanos, timezone) => {
            lemma_signed64(seconds);
            lemma_unsigned(0, nanos);
            assert(rest.subrange(0, 8) =~= le64(seconds as int));
            assert(rest.subrange(8, 12) =~= le32(nanos as int));
            assert(rest.skip(12) =~= encode_utf8(timezone));
        },
        Scalar::Duration(months, days, seconds, nanos) => {
            lemma_signed64(months);
            lemma_signed64(days);
            lemma_signed64(seconds);
            lemma_signed32(nanos);
            assert(rest.subrange(0, 8) =~= le64(months as int));
            assert(rest.subrange(8, 16) =~= le64(days as int));
            assert(rest.subrange(16, 24) =~= le64(seconds as int));
            assert(rest.subrange(24, 28) =~= le32(nanos as int));
        },
        Scalar::List(inner) => {
            assert(rest =~= inner);
        },
        Scalar::Entries(inner) => {
            assert(rest =~= inner);
        },
        Scalar::Null => {},
    }
}

/// A value read from a payload is never NULL, and its documents are canonical.
pub proof fn law_decoded_is_storable(bytes: Seq<u8>)
    requires
        decoded(bytes) is Some,
    ensures
        decoded(bytes)->Some_0 != Scalar::Null,
        storable(decoded(bytes)->Some_0),
{
}

fn corrupt(message: &str) -> (error: Error)
    ensures
        error.is(ErrorCode::CorruptStorage, message@),
{
    Error::new(ErrorCode::CorruptStorage, message)
}

/// Reads a length of four bytes.
fn length_at(bytes: &[u8], place: usize) -> (length: usize)
    requires
        place + 4 <= bytes@.len() <= usize::MAX,
    ensures
        length == le_value(bytes@.subrange(place as int, place + 4)),
{
    let part = &bytes[place..place + 4];
    proof {
        law_le_bytes_of_value(part@);
        lemma_byte_ranges();
    }
    read_le(part) as usize
}

fn is_item(bytes: &[u8]) -> (valid: bool)
    ensures
        valid == canonical_item(bytes@),
    decreases bytes@.len(), 1nat,
{
    if bytes.len() == 0 {
        return true;
    }
    if (bytes[0] == ITEM_NODE || bytes[0] == ITEM_EDGE) && bytes.len() == 9 {
        return true;
    }
    mixed_value(bytes).is_ok()
}

fn are_items(bytes: &[u8]) -> (valid: bool)
    ensures
        valid == canonical_items(bytes@),
    decreases bytes@.len(), 2nat,
{
    let mut place: usize = 0;
    assert(bytes@.skip(0) =~= bytes@);
    while place < bytes.len()
        invariant
            place <= bytes@.len(),
            canonical_items(bytes@) == canonical_items(bytes@.skip(place as int)),
        decreases bytes@.len() - place,
    {
        let ghost tail = bytes@.skip(place as int);
        if bytes.len() - place < 4 {
            return false;
        }
        let length: usize = length_at(bytes, place);
        assert(tail.subrange(0, 4) =~= bytes@.subrange(place as int, place + 4));
        if length > bytes.len() - place - 4 {
            return false;
        }
        let item = &bytes[place + 4..place + 4 + length];
        assert(item@ =~= tail.subrange(4, 4 + length));
        if !is_item(item) {
            return false;
        }
        place = place + 4 + length;
        assert(tail.skip(4 + length) =~= bytes@.skip(place as int));
    }
    assert(bytes@.skip(place as int).len() == 0);
    true
}

fn are_entries(bytes: &[u8]) -> (valid: bool)
    ensures
        valid == canonical_entries(bytes@, None),
    decreases bytes@.len(), 2nat,
{
    let mut place: usize = 0;
    let mut key_start: usize = 0;
    let mut key_end: usize = 0;
    let mut first = true;
    assert(bytes@.skip(0) =~= bytes@);
    while place < bytes.len()
        invariant
            place <= bytes@.len(),
            key_start <= key_end <= bytes@.len(),
            canonical_entries(bytes@, None) == canonical_entries(
                bytes@.skip(place as int),
                if first {
                    None
                } else {
                    Some(bytes@.subrange(key_start as int, key_end as int))
                },
            ),
        decreases bytes@.len() - place,
    {
        let ghost tail = bytes@.skip(place as int);
        if bytes.len() - place < 4 {
            return false;
        }
        let key_length: usize = length_at(bytes, place);
        assert(tail.subrange(0, 4) =~= bytes@.subrange(place as int, place + 4));
        if key_length > bytes.len() - place - 4 || bytes.len() - place - 4 - key_length < 4 {
            return false;
        }
        let next_start: usize = place + 4;
        let next_end: usize = next_start + key_length;
        let length: usize = length_at(bytes, next_end);
        assert(tail.subrange(4 + key_length, 4 + key_length + 4) =~= bytes@.subrange(
            next_end as int,
            next_end + 4,
        ));
        if length > bytes.len() - next_end - 4 {
            return false;
        }
        let key = &bytes[next_start..next_end];
        assert(key@ =~= tail.subrange(4, 4 + key_length));
        if text_of(key).is_none() {
            return false;
        }
        if !first && !comes_before(&bytes[key_start..key_end], key) {
            return false;
        }
        let item = &bytes[next_end + 4..next_end + 4 + length];
        assert(item@ =~= tail.subrange(4 + key_length + 4, 4 + key_length + 4 + length));
        if !is_item(item) {
            return false;
        }
        place = next_end + 4 + length;
        key_start = next_start;
        key_end = next_end;
        first = false;
        assert(tail.skip(4 + key_length + 4 + length) =~= bytes@.skip(place as int));
        assert(key@ =~= bytes@.subrange(key_start as int, key_end as int));
    }
    assert(bytes@.skip(place as int).len() == 0);
    true
}

/// Accepts the bytes of a document with this root.
pub fn validate_canonical(bytes: &[u8], root: DocumentRoot) -> (result: Result<()>)
    ensures
        if canonical(bytes@, root) {
            result is Ok
        } else {
            fails_with(result, ErrorCode::CorruptStorage, "document bytes are not canonical"@)
        },
    decreases bytes@.len(), 3nat,
{
    let valid = match root {
        DocumentRoot::List => are_items(bytes),
        DocumentRoot::Entries => are_entries(bytes),
    };
    if valid {
        Ok(())
    } else {
        Err(corrupt("document bytes are not canonical"))
    }
}

fn read_i64(bytes: &[u8]) -> (value: i64)
    requires
        bytes@.len() == 8,
    ensures
        value == signed64(bytes@),
{
    proof {
        law_le_bytes_of_value(bytes@);
        lemma_byte_ranges();
    }
    unwrap64(read_le(bytes) as u64)
}

fn read_i32(bytes: &[u8]) -> (value: i32)
    requires
        bytes@.len() == 4,
    ensures
        value == signed32(bytes@),
{
    proof {
        law_le_bytes_of_value(bytes@);
        lemma_byte_ranges();
    }
    unwrap32(read_le(bytes) as u32)
}

fn read_u32(bytes: &[u8]) -> (value: u32)
    requires
        bytes@.len() == 4,
    ensures
        value == le_value(bytes@),
{
    proof {
        law_le_bytes_of_value(bytes@);
        lemma_byte_ranges();
    }
    read_le(bytes) as u32
}

fn read_u64(bytes: &[u8]) -> (value: u64)
    requires
        bytes@.len() == 8,
    ensures
        value == le_value(bytes@),
{
    proof {
        law_le_bytes_of_value(bytes@);
        lemma_byte_ranges();
    }
    read_le(bytes) as u64
}

/// Why a payload holds no value.
pub open spec fn payload_fault(bytes: Seq<u8>) -> Seq<char> {
    if bytes.len() == 0 {
        "mixed property payload is empty"@
    } else if bytes[0] == MIXED_BOOLEAN {
        "mixed Boolean payload is invalid"@
    } else if bytes[0] == MIXED_INTEGER {
        "mixed integer payload is invalid"@
    } else if bytes[0] == MIXED_FLOAT {
        "mixed float payload is invalid"@
    } else if bytes[0] == MIXED_STRING {
        "mixed string payload is not UTF-8"@
    } else if bytes[0] == MIXED_DATE {
        "mixed date payload is invalid"@
    } else if bytes[0] == MIXED_LOCAL_TIME {
        "mixed local-time payload is invalid"@
    } else if bytes[0] == MIXED_ZONED_TIME {
        "mixed zoned-time payload is invalid"@
    } else if bytes[0] == MIXED_LOCAL_DATETIME {
        "mixed local-datetime payload is invalid"@
    } else if bytes[0] == MIXED_ZONED_DATETIME {
        if bytes.len() < 13 {
            "mixed zoned-datetime payload is invalid"@
        } else {
            "mixed zoned-datetime timezone is not UTF-8"@
        }
    } else if bytes[0] == MIXED_DURATION {
        "mixed duration payload is invalid"@
    } else if bytes[0] == MIXED_LIST || bytes[0] == MIXED_MAP {
        "document bytes are not canonical"@
    } else {
        "mixed property tag is invalid"@
    }
}

/// The value of a tagged payload.
#[verifier::rlimit(60)]
#[verifier::spinoff_prover]
pub fn mixed_value(payload: &[u8]) -> (result: Result<ScalarValue>)
    ensures
        match decoded(payload@) {
            Some(value) => result matches Ok(found) && found@ == value,
            None => fails_with(result, ErrorCode::CorruptStorage, payload_fault(payload@)),
        },
    decreases payload@.len(), 0nat,
{
    if payload.len() == 0 {
        return Err(corrupt("mixed property payload is empty"));
    }
    let tag: u8 = payload[0];
    let rest = &payload[1..payload.len()];
    assert(rest@ =~= payload@.skip(1));
    if tag == MIXED_BOOLEAN {
        if rest.len() == 1 && rest[0] == 0 {
            assert(rest@ =~= seq![0u8]);
            return Ok(ScalarValue::Boolean(false));
        }
        if rest.len() == 1 && rest[0] == 1 {
            assert(rest@ =~= seq![1u8]);
            assert(seq![0u8][0] != seq![1u8][0]);
            return Ok(ScalarValue::Boolean(true));
        }
        assert(rest@ != seq![0u8] && rest@ != seq![1u8]);
        return Err(corrupt("mixed Boolean payload is invalid"));
    }
    if tag == MIXED_INTEGER {
        if rest.len() != 8 {
            return Err(corrupt("mixed integer payload is invalid"));
        }
        return Ok(ScalarValue::Integer(read_i64(rest)));
    }
    if tag == MIXED_FLOAT {
        if rest.len() != 8 {
            return Err(corrupt("mixed float payload is invalid"));
        }
        return Ok(ScalarValue::Float(read_u64(rest)));
    }
    if tag == MIXED_STRING {
        return match text_of(rest) {
            Some(text) => Ok(ScalarValue::String(text.to_owned())),
            None => Err(corrupt("mixed string payload is not UTF-8")),
        };
    }
    if tag == MIXED_BYTES {
        return Ok(ScalarValue::Bytes(copy_bytes(rest)));
    }
    if tag == MIXED_DATE {
        if rest.len() != 8 {
            return Err(corrupt("mixed date payload is invalid"));
        }
        return Ok(ScalarValue::Date(read_i64(rest)));
    }
    if tag == MIXED_LOCAL_TIME {
        if rest.len() != 8 {
            return Err(corrupt("mixed local-time payload is invalid"));
        }
        return Ok(ScalarValue::LocalTime(read_i64(rest)));
    }
    if tag == MIXED_ZONED_TIME {
        if rest.len() != 12 {
            return Err(corrupt("mixed zoned-time payload is invalid"));
        }
        return Ok(
            ScalarValue::ZonedTime {
                nanos: read_i64(&rest[0..8]),
                offset_seconds: read_i32(&rest[8..12]),
            },
        );
    }
    if tag == MIXED_LOCAL_DATETIME {
        if rest.len() != 12 {
            return Err(corrupt("mixed local-datetime payload is invalid"));
        }
        return Ok(
            ScalarValue::LocalDateTime {
                seconds: read_i64(&rest[0..8]),
                nanos: read_u32(&rest[8..12]),
            },
        );
    }
    if tag == MIXED_ZONED_DATETIME {
        if rest.len() < 12 {
            return Err(corrupt("mixed zoned-datetime payload is invalid"));
        }
        let name = &rest[12..rest.len()];
        assert(name@ =~= rest@.skip(12));
        return match text_of(name) {
            Some(timezone) => Ok(
                ScalarValue::ZonedDateTime {
                    seconds: read_i64(&rest[0..8]),
                    nanos: read_u32(&rest[8..12]),
                    timezone: timezone.to_owned(),
                },
            ),
            None => Err(corrupt("mixed zoned-datetime timezone is not UTF-8")),
        };
    }
    if tag == MIXED_DURATION {
        if rest.len() != 28 {
            return Err(corrupt("mixed duration payload is invalid"));
        }
        return Ok(
            ScalarValue::Duration {
                months: read_i64(&rest[0..8]),
                days: read_i64(&rest[8..16]),
                seconds: read_i64(&rest[16..24]),
                nanos: read_i32(&rest[24..28]),
            },
        );
    }
    if tag == MIXED_LIST {
        return match validate_canonical(rest, DocumentRoot::List) {
            Ok(_) => Ok(ScalarValue::List(DocumentList::from_canonical(copy_bytes(rest)))),
            Err(error) => Err(error),
        };
    }
    if tag == MIXED_MAP {
        return match validate_canonical(rest, DocumentRoot::Entries) {
            Ok(_) => Ok(ScalarValue::Entries(DocumentMap::from_canonical(copy_bytes(rest)))),
            Err(error) => Err(error),
        };
    }
    Err(corrupt("mixed property tag is invalid"))
}

fn tagged(tag: u8) -> (payload: Vec<u8>)
    ensures
        payload@ == seq![tag],
{
    let mut payload: Vec<u8> = Vec::new();
    payload.push(tag);
    assert(payload@ =~= seq![tag]);
    payload
}

/// The tagged payload of a value, or nothing for NULL.
#[verifier::rlimit(60)]
#[verifier::spinoff_prover]
pub fn mixed_payload(value: &ScalarValue) -> (result: Result<Option<Vec<u8>>>)
    ensures
        if storable(value@) {
            result matches Ok(found) && match found {
                Some(bytes) => payload(value@) == Some(bytes@),
                None => payload(value@) is None,
            }
        } else {
            fails_with(result, ErrorCode::CorruptStorage, "document bytes are not canonical"@)
        },
{
    let mut bytes: Vec<u8>;
    match value {
        ScalarValue::Null => {
            return Ok(None);
        },
        ScalarValue::Boolean(flag) => {
            bytes = tagged(MIXED_BOOLEAN);
            bytes.push(
                if *flag {
                    1
                } else {
                    0
                },
            );
            assert(bytes@ =~= payload(value@)->Some_0);
        },
        ScalarValue::Integer(number) => {
            bytes = tagged(MIXED_INTEGER);
            push_le(&mut bytes, wrap64(*number) as u128, 8);
        },
        ScalarValue::Float(bits) => {
            bytes = tagged(MIXED_FLOAT);
            push_le(&mut bytes, *bits as u128, 8);
        },
        ScalarValue::String(text) => {
            bytes = tagged(MIXED_STRING);
            bytes.extend_from_slice(text.as_str().as_bytes());
            assert(bytes@ =~= payload(value@)->Some_0);
        },
        ScalarValue::Bytes(inner) => {
            bytes = tagged(MIXED_BYTES);
            bytes.extend_from_slice(inner.as_slice());
            assert(bytes@ =~= payload(value@)->Some_0);
        },
        ScalarValue::Date(days) => {
            bytes = tagged(MIXED_DATE);
            push_le(&mut bytes, wrap64(*days) as u128, 8);
        },
        ScalarValue::LocalTime(nanos) => {
            bytes = tagged(MIXED_LOCAL_TIME);
            push_le(&mut bytes, wrap64(*nanos) as u128, 8);
        },
        ScalarValue::ZonedTime { nanos, offset_seconds } => {
            bytes = tagged(MIXED_ZONED_TIME);
            push_le(&mut bytes, wrap64(*nanos) as u128, 8);
            push_le(&mut bytes, wrap32(*offset_seconds) as u128, 4);
            assert(bytes@ =~= payload(value@)->Some_0);
        },
        ScalarValue::LocalDateTime { seconds, nanos } => {
            bytes = tagged(MIXED_LOCAL_DATETIME);
            push_le(&mut bytes, wrap64(*seconds) as u128, 8);
            push_le(&mut bytes, *nanos as u128, 4);
            assert(bytes@ =~= payload(value@)->Some_0);
        },
        ScalarValue::ZonedDateTime { seconds, nanos, timezone } => {
            bytes = tagged(MIXED_ZONED_DATETIME);
            push_le(&mut bytes, wrap64(*seconds) as u128, 8);
            push_le(&mut bytes, *nanos as u128, 4);
            bytes.extend_from_slice(timezone.as_str().as_bytes());
            assert(bytes@ =~= payload(value@)->Some_0);
        },
        ScalarValue::Duration { months, days, seconds, nanos } => {
            bytes = tagged(MIXED_DURATION);
            push_le(&mut bytes, wrap64(*months) as u128, 8);
            push_le(&mut bytes, wrap64(*days) as u128, 8);
            push_le(&mut bytes, wrap64(*seconds) as u128, 8);
            push_le(&mut bytes, wrap32(*nanos) as u128, 4);
            assert(bytes@ =~= payload(value@)->Some_0);
        },
        ScalarValue::List(list) => {
            match validate_canonical(list.as_bytes(), DocumentRoot::List) {
                Ok(_) => {},
                Err(error) => {
                    return Err(error);
                },
            }
            bytes = tagged(MIXED_LIST);
            bytes.extend_from_slice(list.as_bytes());
            assert(bytes@ =~= payload(value@)->Some_0);
        },
        ScalarValue::Entries(map) => {
            match validate_canonical(map.as_bytes(), DocumentRoot::Entries) {
                Ok(_) => {},
                Err(error) => {
                    return Err(error);
                },
            }
            bytes = tagged(MIXED_MAP);
            bytes.extend_from_slice(map.as_bytes());
            assert(bytes@ =~= payload(value@)->Some_0);
        },
    }
    Ok(Some(bytes))
}

/// A payload starts with the number of its kind. NULL has none.
pub proof fn law_payloads_start_with_their_kind(value: Scalar)
    ensures
        payload(value) is None <==> value == Scalar::Null,
        payload(value) matches Some(bytes) ==> bytes.len() > 0 && bytes[0] == match value {
            Scalar::Null => 0u8,
            Scalar::Boolean(_) => 1,
            Scalar::Integer(_) => 2,
            Scalar::Float(_) => 3,
            Scalar::Text(_) => 4,
            Scalar::Bytes(_) => 5,
            Scalar::Date(_) => 6,
            Scalar::LocalTime(_) => 7,
            Scalar::ZonedTime(_, _) => 8,
            Scalar::LocalDateTime(_, _) => 9,
            Scalar::ZonedDateTime(_, _, _) => 10,
            Scalar::Duration(_, _, _, _) => 11,
            Scalar::List(_) => 12,
            Scalar::Entries(_) => 13,
        },
{
}

} // verus!
