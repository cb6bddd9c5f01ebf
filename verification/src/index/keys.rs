//! Index keys: identity, order, encoding and digest.

use crate::arith::saturated64;
use crate::bytes::{le_bytes, push_le, wrap32, wrap64, wrapped32, wrapped64};
use crate::digest::{digest_key, key_of};
use crate::error::{fails_with, Error, ErrorCode, Result};
use crate::values::{copy_bytes, Scalar, ScalarValue};
use vstd::prelude::*;
use vstd::utf8::{decode_utf8, encode_utf8};

verus! {

/// Total-order key for indexable scalar values. A float is held as the bits of its IEEE 754 double. Two
/// zeros are alike, and so are all that are not numbers, although their bits differ.
#[derive(Debug)]
pub enum IndexKey {
    Boolean(bool),
    Integer(i64),
    Float(u64),
    String(String),
    Bytes(Vec<u8>),
    Date(i64),
    LocalTime(i64),
    ZonedTime(i64, i32),
    LocalDateTime(i64, u32),
    ZonedDateTime(i64, u32, String),
    Duration(i64, i64, i64, i32),
    Composite(Vec<IndexKey>),
}

/// What a key is.
pub enum Key {
    Boolean(bool),
    Integer(i64),
    Float(u64),
    Text(Seq<char>),
    Bytes(Seq<u8>),
    Date(i64),
    LocalTime(i64),
    ZonedTime(i64, i32),
    LocalDateTime(i64, u32),
    ZonedDateTime(i64, u32, Seq<char>),
    Duration(i64, i64, i64, i32),
    Composite(Seq<Key>),
}

impl IndexKey {
    /// What the key is, apart from where it is stored.
    pub open spec fn key(&self) -> Key
        decreases self,
    {
        match self {
            IndexKey::Boolean(flag) => Key::Boolean(*flag),
            IndexKey::Integer(number) => Key::Integer(*number),
            IndexKey::Float(bits) => Key::Float(*bits),
            IndexKey::String(text) => Key::Text(text@),
            IndexKey::Bytes(bytes) => Key::Bytes(bytes@),
            IndexKey::Date(days) => Key::Date(*days),
            IndexKey::LocalTime(nanos) => Key::LocalTime(*nanos),
            IndexKey::ZonedTime(nanos, offset) => Key::ZonedTime(*nanos, *offset),
            IndexKey::LocalDateTime(seconds, nanos) => Key::LocalDateTime(*seconds, *nanos),
            IndexKey::ZonedDateTime(seconds, nanos, zone) => Key::ZonedDateTime(
                *seconds,
                *nanos,
                zone@,
            ),
            IndexKey::Duration(months, days, seconds, nanos) => Key::Duration(
                *months,
                *days,
                *seconds,
                *nanos,
            ),
            IndexKey::Composite(parts) => Key::Composite(
                Seq::new(
                    parts@.len(),
                    |i: int|
                        if 0 <= i < parts@.len() {
                            parts@[i].key()
                        } else {
                            Key::Boolean(false)
                        },
                ),
            ),
        }
    }
}

/// Keys of a sequence.
pub open spec fn keys_of(parts: Seq<IndexKey>) -> Seq<Key> {
    Seq::new(parts.len(), |i: int| parts[i].key())
}

/// The bits that stand for a float: one pattern for both zeros, one for all that is not a number.
pub open spec fn canonical_float(bits: u64) -> u64 {
    let magnitude = if bits >= 0x8000_0000_0000_0000 {
        bits - 0x8000_0000_0000_0000
    } else {
        bits as int
    };
    if magnitude > 0x7ff0_0000_0000_0000 {
        0x7ff8_0000_0000_0000
    } else if magnitude == 0 {
        0
    } else {
        bits
    }
}

fn normalize_float(bits: u64) -> (normal: u64)
    ensures
        normal == canonical_float(bits),
{
    let magnitude: u64 = if bits >= 0x8000_0000_0000_0000 {
        bits - 0x8000_0000_0000_0000
    } else {
        bits
    };
    if magnitude > 0x7ff0_0000_0000_0000 {
        0x7ff8_0000_0000_0000
    } else if magnitude == 0 {
        0
    } else {
        bits
    }
}

/// The key of a value.
pub open spec fn value_key(value: Scalar) -> Option<Key> {
    match value {
        Scalar::Null => None,
        Scalar::Boolean(flag) => Some(Key::Boolean(flag)),
        Scalar::Integer(number) => Some(Key::Integer(number)),
        Scalar::Float(bits) => Some(Key::Float(bits)),
        Scalar::Text(text) => Some(Key::Text(text)),
        Scalar::Bytes(bytes) => Some(Key::Bytes(bytes)),
        Scalar::Date(days) => Some(Key::Date(days)),
        Scalar::LocalTime(nanos) => Some(Key::LocalTime(nanos)),
        Scalar::ZonedTime(nanos, offset) => Some(Key::ZonedTime(nanos, offset)),
        Scalar::LocalDateTime(seconds, nanos) => Some(Key::LocalDateTime(seconds, nanos)),
        Scalar::ZonedDateTime(seconds, nanos, zone) => Some(
            Key::ZonedDateTime(seconds, nanos, zone),
        ),
        Scalar::Duration(months, days, seconds, nanos) => Some(
            Key::Duration(months, days, seconds, nanos),
        ),
        Scalar::List(_) => None,
        Scalar::Entries(_) => None,
    }
}

/// The result that goes with a value.
pub open spec fn key_result(value: Scalar, result: Result<IndexKey>) -> bool {
    match value_key(value) {
        Some(key) => result matches Ok(found) && found.key() == key,
        None => fails_with(
            result,
            ErrorCode::QueryType,
            if value == Scalar::Null {
                "NULL is not indexed"@
            } else {
                "document properties require an explicitly declared document-path index"@
            },
        ),
    }
}

impl<'a> TryFrom<&'a ScalarValue> for IndexKey {
    type Error = Error;

    fn try_from(value: &'a ScalarValue) -> (result: Result<Self>)
        ensures
            key_result(value@, result),
    {
        match value {
            ScalarValue::Null => Err(Error::new(ErrorCode::QueryType, "NULL is not indexed")),
            ScalarValue::Boolean(flag) => Ok(IndexKey::Boolean(*flag)),
            ScalarValue::Integer(number) => Ok(IndexKey::Integer(*number)),
            ScalarValue::Float(bits) => Ok(IndexKey::Float(*bits)),
            ScalarValue::String(text) => Ok(IndexKey::String(text.clone())),
            ScalarValue::Bytes(bytes) => Ok(IndexKey::Bytes(copy_bytes(bytes))),
            ScalarValue::Date(days) => Ok(IndexKey::Date(*days)),
            ScalarValue::LocalTime(nanos) => Ok(IndexKey::LocalTime(*nanos)),
            ScalarValue::ZonedTime { nanos, offset_seconds } => Ok(
                IndexKey::ZonedTime(*nanos, *offset_seconds),
            ),
            ScalarValue::LocalDateTime { seconds, nanos } => Ok(
                IndexKey::LocalDateTime(*seconds, *nanos),
            ),
            ScalarValue::ZonedDateTime { seconds, nanos, timezone } => Ok(
                IndexKey::ZonedDateTime(*seconds, *nanos, timezone.clone()),
            ),
            ScalarValue::Duration { months, days, seconds, nanos } => Ok(
                IndexKey::Duration(*months, *days, *seconds, *nanos),
            ),
            ScalarValue::List(_) => Err(
                Error::new(
                    ErrorCode::QueryType,
                    "document properties require an explicitly declared document-path index",
                ),
            ),
            ScalarValue::Entries(_) => Err(
                Error::new(
                    ErrorCode::QueryType,
                    "document properties require an explicitly declared document-path index",
                ),
            ),
        }
    }
}

impl<'a> vstd::std_specs::convert::TryFromSpecImpl<&'a ScalarValue> for IndexKey {
    open spec fn obeys_try_from_spec() -> bool {
        false
    }

    open spec fn try_from_spec(value: &'a ScalarValue) -> Result<Self> {
        arbitrary()
    }
}

/// Keys are equal where they are alike.
impl PartialEq for IndexKey {
    fn eq(&self, other: &Self) -> (same: bool) {
        is_alike(self, other)
    }
}

impl vstd::std_specs::cmp::PartialEqSpecImpl for IndexKey {
    open spec fn obeys_eq_spec() -> bool {
        true
    }

    open spec fn eq_spec(&self, other: &Self) -> bool {
        alike(self.key(), other.key())
    }
}

impl Eq for IndexKey {}

impl Clone for IndexKey {
    fn clone(&self) -> (copy: Self)
        ensures
            copy.key() == self.key(),
    {
        copy_key(self)
    }
}

fn copy_key(key: &IndexKey) -> (copy: IndexKey)
    ensures
        copy.key() == key.key(),
    decreases key,
{
    match key {
        IndexKey::Boolean(flag) => IndexKey::Boolean(*flag),
        IndexKey::Integer(number) => IndexKey::Integer(*number),
        IndexKey::Float(bits) => IndexKey::Float(*bits),
        IndexKey::String(text) => IndexKey::String(text.clone()),
        IndexKey::Bytes(bytes) => IndexKey::Bytes(copy_bytes(bytes)),
        IndexKey::Date(days) => IndexKey::Date(*days),
        IndexKey::LocalTime(nanos) => IndexKey::LocalTime(*nanos),
        IndexKey::ZonedTime(nanos, offset) => IndexKey::ZonedTime(*nanos, *offset),
        IndexKey::LocalDateTime(seconds, nanos) => IndexKey::LocalDateTime(*seconds, *nanos),
        IndexKey::ZonedDateTime(seconds, nanos, zone) => IndexKey::ZonedDateTime(
            *seconds,
            *nanos,
            zone.clone(),
        ),
        IndexKey::Duration(months, days, seconds, nanos) => IndexKey::Duration(
            *months,
            *days,
            *seconds,
            *nanos,
        ),
        IndexKey::Composite(parts) => {
            let mut copies: Vec<IndexKey> = Vec::with_capacity(parts.len());
            for index in 0..parts.len()
                invariant
                    *key == IndexKey::Composite(*parts),
                    copies.len() == index,
                    forall|i: int| 0 <= i < index ==> (#[trigger] copies@[i]).key() == parts@[i].key(),
            {
                let part = &parts[index];
                assert(key->Composite_0 == *parts);
                let copy = copy_key(part);
                copies.push(copy);
            }
            let copy = IndexKey::Composite(copies);
            assert(copy.key()->Composite_0 =~= key.key()->Composite_0);
            copy
        },
    }
}

/// The key with one pattern for zero and one for all that is not a number.
pub open spec fn canonical_key(key: Key) -> Key
    decreases key,
{
    match key {
        Key::Float(bits) => Key::Float(canonical_float(bits)),
        Key::Composite(parts) => Key::Composite(
            Seq::new(
                parts.len(),
                |i: int|
                    if 0 <= i < parts.len() {
                        canonical_key(parts[i])
                    } else {
                        Key::Boolean(false)
                    },
            ),
        ),
        _ => key,
    }
}

/// The bytes of a key that its digest is taken of.
pub open spec fn key_bytes(key: Key) -> Seq<u8>
    decreases key,
{
    match key {
        Key::Boolean(flag) => seq![
            0u8,
            if flag {
                1u8
            } else {
                0u8
            },
        ],
        Key::Integer(number) => seq![1u8] + le_bytes(wrapped64(number as int), 8),
        Key::Float(bits) => seq![2u8] + le_bytes(bits as nat, 8),
        Key::Text(text) => seq![3u8] + encode_utf8(text),
        Key::Bytes(bytes) => seq![4u8] + bytes,
        Key::Date(days) => seq![5u8] + le_bytes(wrapped64(days as int), 8),
        Key::LocalTime(nanos) => seq![6u8] + le_bytes(wrapped64(nanos as int), 8),
        Key::ZonedTime(nanos, offset) => seq![7u8] + le_bytes(wrapped64(nanos as int), 8)
            + le_bytes(wrapped32(offset as int), 4),
        Key::LocalDateTime(seconds, nanos) => seq![8u8] + le_bytes(wrapped64(seconds as int), 8)
            + le_bytes(nanos as nat, 4),
        Key::ZonedDateTime(seconds, nanos, zone) => seq![9u8] + le_bytes(
            wrapped64(seconds as int),
            8,
        ) + le_bytes(nanos as nat, 4) + encode_utf8(zone),
        Key::Duration(months, days, seconds, nanos) => seq![10u8] + le_bytes(
            wrapped64(months as int),
            8,
        ) + le_bytes(wrapped64(days as int), 8) + le_bytes(wrapped64(seconds as int), 8) + le_bytes(
            wrapped32(nanos as int),
            4,
        ),
        Key::Composite(parts) => seq![11u8] + parts_bytes(parts, parts.len() as int),
    }
}

/// The bytes of the first parts of a composite key.
pub open spec fn parts_bytes(parts: Seq<Key>, count: int) -> Seq<u8>
    decreases parts, count,
{
    if count <= 0 || count > parts.len() {
        Seq::empty()
    } else {
        parts_bytes(parts, count - 1) + key_bytes(parts[count - 1])
    }
}

#[verifier::rlimit(40)]
#[verifier::spinoff_prover]
fn write_key(out: &mut Vec<u8>, key: &IndexKey)
    ensures
        final(out)@ == old(out)@ + key_bytes(key.key()),
    decreases key,
{
    let ghost before = out@;
    match key {
        IndexKey::Boolean(flag) => {
            out.push(0);
            out.push(
                if *flag {
                    1
                } else {
                    0
                },
            );
        },
        IndexKey::Integer(number) => {
            out.push(1);
            push_le(out, wrap64(*number) as u128, 8);
        },
        IndexKey::Float(bits) => {
            out.push(2);
            push_le(out, *bits as u128, 8);
        },
        IndexKey::String(text) => {
            out.push(3);
            out.extend_from_slice(text.as_str().as_bytes());
        },
        IndexKey::Bytes(bytes) => {
            out.push(4);
            out.extend_from_slice(bytes.as_slice());
        },
        IndexKey::Date(days) => {
            out.push(5);
            push_le(out, wrap64(*days) as u128, 8);
        },
        IndexKey::LocalTime(nanos) => {
            out.push(6);
            push_le(out, wrap64(*nanos) as u128, 8);
        },
        IndexKey::ZonedTime(nanos, offset) => {
            out.push(7);
            push_le(out, wrap64(*nanos) as u128, 8);
            push_le(out, wrap32(*offset) as u128, 4);
        },
        IndexKey::LocalDateTime(seconds, nanos) => {
            out.push(8);
            push_le(out, wrap64(*seconds) as u128, 8);
            push_le(out, *nanos as u128, 4);
        },
        IndexKey::ZonedDateTime(seconds, nanos, zone) => {
            out.push(9);
            push_le(out, wrap64(*seconds) as u128, 8);
            push_le(out, *nanos as u128, 4);
            out.extend_from_slice(zone.as_str().as_bytes());
        },
        IndexKey::Duration(months, days, seconds, nanos) => {
            out.push(10);
            push_le(out, wrap64(*months) as u128, 8);
            push_le(out, wrap64(*days) as u128, 8);
            push_le(out, wrap64(*seconds) as u128, 8);
            push_le(out, wrap32(*nanos) as u128, 4);
        },
        IndexKey::Composite(parts) => {
            out.push(11);
            let ghost all = key.key()->Composite_0;
            assert(out@ =~= before + seq![11u8] + parts_bytes(all, 0));
            for index in 0..parts.len()
                invariant
                    *key == IndexKey::Composite(*parts),
                    all == key.key()->Composite_0,
                    out@ == before + seq![11u8] + parts_bytes(all, index as int),
            {
                write_key(out, &parts[index]);
                assert(all[index as int] == parts@[index as int].key());
                assert(out@ =~= before + seq![11u8] + parts_bytes(all, index + 1));
            }
        },
    }
    assert(out@ =~= before + key_bytes(key.key()));
}

/// The digest by which a key is looked up.
pub fn index_key_hash(key: &IndexKey) -> (hash: u128)
    ensures
        hash == digest_key(key_bytes(key.key())),
{
    let mut input: Vec<u8> = Vec::new();
    write_key(&mut input, key);
    assert(input@ =~= key_bytes(key.key()));
    key_of(input.as_slice())
}

/// Where a float stands among floats: by value, with all that is not a number behind.
pub open spec fn float_rank(bits: u64) -> int {
    if canonical_float(bits) == 0x7ff8_0000_0000_0000 {
        0x1_0000_0000_0000_0000
    } else if bits >= 0x8000_0000_0000_0000 {
        0x8000_0000_0000_0000 - bits
    } else {
        bits as int
    }
}

/// Bytes as numbers, with an end below all of them.
pub open spec fn bytes_code(bytes: Seq<u8>) -> Seq<int>
    decreases bytes.len(),
{
    if bytes.len() == 0 {
        seq![0int]
    } else {
        seq![bytes[0] + 1] + bytes_code(bytes.skip(1))
    }
}

/// The numbers by which keys are ordered: the type, then each field.
pub open spec fn key_code(key: Key) -> Seq<int>
    decreases key, 0int,
{
    match key {
        Key::Boolean(flag) => seq![
            0,
            if flag {
                1int
            } else {
                0int
            },
        ],
        Key::Integer(number) => seq![1, number as int],
        Key::Float(bits) => seq![2, float_rank(bits)],
        Key::Text(text) => seq![3int] + bytes_code(encode_utf8(text)),
        Key::Bytes(bytes) => seq![4int] + bytes_code(bytes),
        Key::Date(days) => seq![5, days as int],
        Key::LocalTime(nanos) => seq![6, nanos as int],
        Key::ZonedTime(nanos, offset) => seq![7, nanos as int, offset as int],
        Key::LocalDateTime(seconds, nanos) => seq![8, seconds as int, nanos as int],
        Key::ZonedDateTime(seconds, nanos, zone) => seq![9, seconds as int, nanos as int]
            + bytes_code(encode_utf8(zone)),
        Key::Duration(months, days, seconds, nanos) => seq![
            10,
            months as int,
            days as int,
            seconds as int,
            nanos as int,
        ],
        Key::Composite(parts) => seq![11int] + parts_code(parts, 0),
    }
}

/// The numbers of the parts of a composite key from `index` on, each behind a one, then an end.
pub open spec fn parts_code(parts: Seq<Key>, index: int) -> Seq<int>
    decreases parts, parts.len() - index,
{
    if index < 0 || index >= parts.len() {
        seq![0int]
    } else {
        seq![1int] + key_code(parts[index]) + parts_code(parts, index + 1)
    }
}

/// Lexical order of numbers.
pub open spec fn code_less(left: Seq<int>, right: Seq<int>) -> bool
    decreases left.len(),
{
    if right.len() == 0 {
        false
    } else if left.len() == 0 {
        true
    } else if left[0] != right[0] {
        left[0] < right[0]
    } else {
        code_less(left.skip(1), right.skip(1))
    }
}

/// The order of keys.
pub open spec fn key_less(left: Key, right: Key) -> bool {
    code_less(key_code(left), key_code(right))
}

pub proof fn lemma_code_order(first: Seq<int>, second: Seq<int>, third: Seq<int>)
    ensures
        !code_less(first, first),
        code_less(first, second) && code_less(second, third) ==> code_less(first, third),
        first != second ==> code_less(first, second) || code_less(second, first),
        !(code_less(first, second) && code_less(second, first)),
    decreases first.len(),
{
    if first.len() > 0 {
        let a = first.skip(1);
        let b = if second.len() > 0 {
            second.skip(1)
        } else {
            Seq::empty()
        };
        let c = if third.len() > 0 {
            third.skip(1)
        } else {
            Seq::empty()
        };
        lemma_code_order(a, b, c);
        if second.len() > 0 && first[0] == second[0] && a == b {
            assert(first =~= seq![first[0]] + a);
            assert(second =~= seq![second[0]] + b);
        }
    } else {
        if second.len() == 0 {
            assert(first =~= second);
        }
    }
}

proof fn lemma_bytes_code(left: Seq<u8>, right: Seq<u8>, after: Seq<int>, behind: Seq<int>)
    requires
        bytes_code(left) + after == bytes_code(right) + behind,
    ensures
        left == right,
        after == behind,
    decreases left.len(),
{
    let a = bytes_code(left) + after;
    let b = bytes_code(right) + behind;
    assert(a[0] == b[0]);
    if left.len() == 0 {
        if right.len() > 0 {
            assert(b[0] == right[0] + 1);
            assert(a[0] == 0);
        } else {
            assert(left =~= right);
            assert(a.skip(1) =~= after);
            assert(b.skip(1) =~= behind);
        }
    } else {
        assert(a[0] == left[0] + 1);
        if right.len() == 0 {
            assert(b[0] == 0);
        } else {
            assert(b[0] == right[0] + 1);
            assert(a.skip(1) =~= bytes_code(left.skip(1)) + after);
            assert(b.skip(1) =~= bytes_code(right.skip(1)) + behind);
            lemma_bytes_code(left.skip(1), right.skip(1), after, behind);
            assert(left =~= seq![left[0]] + left.skip(1));
            assert(right =~= seq![right[0]] + right.skip(1));
        }
    }
}

proof fn lemma_text_code(left: Seq<char>, right: Seq<char>, after: Seq<int>, behind: Seq<int>)
    requires
        bytes_code(encode_utf8(left)) + after == bytes_code(encode_utf8(right)) + behind,
    ensures
        left == right,
        after == behind,
{
    broadcast use vstd::utf8::encode_utf8_decode_utf8;

    lemma_bytes_code(encode_utf8(left), encode_utf8(right), after, behind);
    assert(decode_utf8(encode_utf8(left)) == left);
    assert(decode_utf8(encode_utf8(right)) == right);
}

#[verifier::rlimit(60)]
#[verifier::spinoff_prover]
proof fn lemma_key_code(left: Key, right: Key, after: Seq<int>, behind: Seq<int>)
    requires
        key_code(left) + after == key_code(right) + behind,
    ensures
        canonical_key(left) == canonical_key(right),
        after == behind,
    decreases left, 0int,
{
    let a = key_code(left) + after;
    let b = key_code(right) + behind;
    assert(a[0] == key_code(left)[0]);
    assert(b[0] == key_code(right)[0]);
    match (left, right) {
        (Key::Boolean(_), Key::Boolean(_)) => {
            assert(a[1] == b[1]);
            assert(a.skip(2) =~= after);
            assert(b.skip(2) =~= behind);
        },
        (Key::Integer(_), Key::Integer(_)) | (Key::Date(_), Key::Date(_)) | (
            Key::LocalTime(_),
            Key::LocalTime(_),
        ) => {
            assert(a[1] == b[1]);
            assert(a.skip(2) =~= after);
            assert(b.skip(2) =~= behind);
        },
        (Key::Float(x), Key::Float(y)) => {
            assert(a[1] == b[1]);
            assert(float_rank(x) == float_rank(y));
            assert(a.skip(2) =~= after);
            assert(b.skip(2) =~= behind);
        },
        (Key::Text(x), Key::Text(y)) => {
            assert(a.skip(1) =~= bytes_code(encode_utf8(x)) + after);
            assert(b.skip(1) =~= bytes_code(encode_utf8(y)) + behind);
            lemma_text_code(x, y, after, behind);
        },
        (Key::Bytes(x), Key::Bytes(y)) => {
            assert(a.skip(1) =~= bytes_code(x) + after);
            assert(b.skip(1) =~= bytes_code(y) + behind);
            lemma_bytes_code(x, y, after, behind);
        },
        (Key::ZonedTime(_, _), Key::ZonedTime(_, _)) | (
            Key::LocalDateTime(_, _),
            Key::LocalDateTime(_, _),
        ) => {
            assert(a[1] == b[1] && a[2] == b[2]);
            assert(a.skip(3) =~= after);
            assert(b.skip(3) =~= behind);
        },
        (Key::ZonedDateTime(_, _, x), Key::ZonedDateTime(_, _, y)) => {
            assert(a[1] == b[1] && a[2] == b[2]);
            assert(a.skip(3) =~= bytes_code(encode_utf8(x)) + after);
            assert(b.skip(3) =~= bytes_code(encode_utf8(y)) + behind);
            lemma_text_code(x, y, after, behind);
        },
        (Key::Duration(_, _, _, _), Key::Duration(_, _, _, _)) => {
            assert(a[1] == b[1] && a[2] == b[2] && a[3] == b[3] && a[4] == b[4]);
            assert(a.skip(5) =~= after);
            assert(b.skip(5) =~= behind);
        },
        (Key::Composite(x), Key::Composite(y)) => {
            assert(a.skip(1) =~= parts_code(x, 0) + after);
            assert(b.skip(1) =~= parts_code(y, 0) + behind);
            lemma_parts_code(x, y, 0, after, behind);
            let forms = canonical_key(left)->Composite_0;
            let others = canonical_key(right)->Composite_0;
            assert forall|i: int| 0 <= i < x.len() implies forms[i] == others[i] by {
                assert(canonical_key(x[i]) == canonical_key(y[i]));
            }
            assert(forms =~= others);
        },
        _ => {},
    }
}

proof fn lemma_parts_code(
    left: Seq<Key>,
    right: Seq<Key>,
    index: int,
    after: Seq<int>,
    behind: Seq<int>,
)
    requires
        0 <= index <= left.len(),
        index <= right.len(),
        parts_code(left, index) + after == parts_code(right, index) + behind,
    ensures
        left.len() == right.len(),
        forall|i: int|
            index <= i < left.len() ==> canonical_key(left[i]) == canonical_key(right[i]),
        after == behind,
    decreases left, left.len() - index,
{
    let a = parts_code(left, index) + after;
    let b = parts_code(right, index) + behind;
    assert(a[0] == b[0]);
    if index == left.len() {
        assert(a[0] == 0);
        if index < right.len() {
            assert(b[0] == 1);
        } else {
            assert(a.skip(1) =~= after);
            assert(b.skip(1) =~= behind);
        }
    } else {
        assert(a[0] == 1);
        if index == right.len() {
            assert(b[0] == 0);
        } else {
            let c = parts_code(left, index + 1) + after;
            let d = parts_code(right, index + 1) + behind;
            assert(a.skip(1) =~= key_code(left[index]) + c);
            assert(b.skip(1) =~= key_code(right[index]) + d);
            lemma_key_code(left[index], right[index], c, d);
            lemma_parts_code(left, right, index + 1, after, behind);
        }
    }
}

/// Neither key comes before the other.
pub open spec fn alike(left: Key, right: Key) -> bool {
    key_code(left) == key_code(right)
}

/// A key without a zero and without a float that is no number: no other key is like it.
pub open spec fn plain_key(key: Key) -> bool
    decreases key,
{
    match key {
        Key::Float(bits) => canonical_float(bits) != 0 && canonical_float(bits)
            != 0x7ff8_0000_0000_0000,
        Key::Composite(parts) =>
            forall|i: int| 0 <= i < parts.len() ==> plain_key(#[trigger] parts[i]),
        _ => true,
    }
}

/// The order of keys is total: of two keys that are not alike, one comes before the other.
pub proof fn law_keys_are_ordered(first: Key, second: Key, third: Key)
    ensures
        !key_less(first, first),
        key_less(first, second) && key_less(second, third) ==> key_less(first, third),
        alike(first, second) <==> !key_less(first, second) && !key_less(second, first),
{
    lemma_code_order(key_code(first), key_code(second), key_code(third));
    lemma_code_order(key_code(second), key_code(first), key_code(third));
}

proof fn lemma_two(kind: int, left: int, right: int)
    ensures
        code_less(seq![kind, left], seq![kind, right]) <==> left < right,
{
    let a = seq![kind, left];
    let b = seq![kind, right];
    assert(a.skip(1) =~= seq![left]);
    assert(b.skip(1) =~= seq![right]);
    assert(seq![left].skip(1) =~= Seq::empty());
    assert(seq![right].skip(1) =~= Seq::empty());
    reveal_with_fuel(code_less, 3);
}

/// Codes with a common beginning compare like what follows it.
proof fn lemma_common_head(head: Seq<int>, left: Seq<int>, right: Seq<int>)
    ensures
        code_less(head + left, head + right) == code_less(left, right),
    decreases head.len(),
{
    if head.len() == 0 {
        assert(head + left =~= left);
        assert(head + right =~= right);
    } else {
        let a = head + left;
        let b = head + right;
        lemma_common_head(head.skip(1), left, right);
        assert(a.skip(1) =~= head.skip(1) + left);
        assert(b.skip(1) =~= head.skip(1) + right);
    }
}

/// Codes compare at the first number at which they differ.
proof fn lemma_first_difference(left: Seq<int>, right: Seq<int>, place: int)
    requires
        0 <= place < left.len(),
        place < right.len(),
        left.take(place) == right.take(place),
        left[place] != right[place],
    ensures
        code_less(left, right) == (left[place] < right[place]),
{
    let head = left.take(place);
    assert(left =~= head + left.skip(place));
    assert(right =~= head + right.skip(place));
    lemma_common_head(head, left.skip(place), right.skip(place));
    assert(left.skip(place)[0] == left[place]);
    assert(right.skip(place)[0] == right[place]);
}

/// Truth values, numbers, dates and times of one kind compare like their values.
pub proof fn law_keys_of_one_kind_compare_like_values(
    left: i64,
    right: i64,
    flag: bool,
    other: bool,
)
    ensures
        key_less(Key::Integer(left), Key::Integer(right)) <==> left < right,
        key_less(Key::Date(left), Key::Date(right)) <==> left < right,
        key_less(Key::LocalTime(left), Key::LocalTime(right)) <==> left < right,
        key_less(Key::Boolean(flag), Key::Boolean(other)) <==> !flag && other,
{
    lemma_two(1, left as int, right as int);
    lemma_two(5, left as int, right as int);
    lemma_two(6, left as int, right as int);
    lemma_two(
        0,
        if flag {
            1int
        } else {
            0int
        },
        if other {
            1int
        } else {
            0int
        },
    );
}

/// Times with an offset, date-times and durations compare field by field, the first that differs
/// decides.
pub proof fn law_keys_of_several_fields_compare_in_order(
    a: (i64, i32),
    b: (i64, i32),
    c: (i64, u32),
    d: (i64, u32),
    e: (i64, i64, i64, i32),
    f: (i64, i64, i64, i32),
)
    ensures
        key_less(Key::ZonedTime(a.0, a.1), Key::ZonedTime(b.0, b.1)) <==> a.0 < b.0 || a.0 == b.0
            && a.1 < b.1,
        key_less(Key::LocalDateTime(c.0, c.1), Key::LocalDateTime(d.0, d.1)) <==> c.0 < d.0 || c.0
            == d.0 && c.1 < d.1,
        key_less(Key::Duration(e.0, e.1, e.2, e.3), Key::Duration(f.0, f.1, f.2, f.3)) <==> e.0
            < f.0 || e.0 == f.0 && (e.1 < f.1 || e.1 == f.1 && (e.2 < f.2 || e.2 == f.2 && e.3
            < f.3)),
{
    let x = key_code(Key::ZonedTime(a.0, a.1));
    let y = key_code(Key::ZonedTime(b.0, b.1));
    lemma_decided(x, y);
    let x = key_code(Key::LocalDateTime(c.0, c.1));
    let y = key_code(Key::LocalDateTime(d.0, d.1));
    lemma_decided(x, y);
    let x = key_code(Key::Duration(e.0, e.1, e.2, e.3));
    let y = key_code(Key::Duration(f.0, f.1, f.2, f.3));
    lemma_decided(x, y);
}

/// Codes of one length compare at the first difference, and equal ones do not.
proof fn lemma_decided(left: Seq<int>, right: Seq<int>)
    requires
        left.len() == right.len(),
    ensures
        left =~= right ==> !code_less(left, right),
        forall|place: int|
            0 <= place < left.len() && #[trigger] left[place] != right[place] && (forall|i: int|
                0 <= i < place ==> left[i] == right[i]) ==> code_less(left, right) == (left[place]
                < right[place]),
{
    if left =~= right {
        lemma_code_order(left, left, left);
    }
    assert forall|place: int|
        0 <= place < left.len() && #[trigger] left[place] != right[place] && (forall|i: int|
            0 <= i < place ==> left[i] == right[i]) implies code_less(left, right) == (left[place]
        < right[place]) by {
        assert(left.take(place) =~= right.take(place));
        lemma_first_difference(left, right, place);
    }
}

/// The first bytes come before the second: they are a shorter beginning of them, or smaller at the first
/// place at which the two differ.
pub open spec fn bytes_before(left: Seq<u8>, right: Seq<u8>) -> bool {
    ||| left.len() < right.len() && left =~= right.take(left.len() as int)
    ||| exists|place: int|
        0 <= place < left.len() && place < right.len() && left.take(place) =~= right.take(place)
            && #[trigger] left[place] < right[place]
}

proof fn lemma_bytes_code_at(bytes: Seq<u8>, place: int)
    requires
        0 <= place <= bytes.len(),
    ensures
        bytes_code(bytes).len() == bytes.len() + 1,
        bytes_code(bytes)[place] == if place < bytes.len() {
            bytes[place] + 1
        } else {
            0
        },
    decreases bytes.len(),
{
    if bytes.len() > 0 {
        lemma_bytes_code_at(
            bytes.skip(1),
            if place > 0 {
                place - 1
            } else {
                0
            },
        );
    }
}

proof fn lemma_bytes_order(head: Seq<int>, left: Seq<u8>, right: Seq<u8>)
    ensures
        code_less(head + bytes_code(left), head + bytes_code(right)) == bytes_before(left, right),
{
    let a = bytes_code(left);
    let b = bytes_code(right);
    lemma_common_head(head, a, b);
    assert forall|i: int| 0 <= i <= left.len() implies #[trigger] a[i] == if i < left.len() {
        left[i] + 1
    } else {
        0
    } by {
        lemma_bytes_code_at(left, i);
    }
    assert forall|i: int| 0 <= i <= right.len() implies #[trigger] b[i] == if i < right.len() {
        right[i] + 1
    } else {
        0
    } by {
        lemma_bytes_code_at(right, i);
    }
    lemma_bytes_code_at(left, 0);
    lemma_bytes_code_at(right, 0);
    if left =~= right {
        lemma_code_order(a, a, a);
        assert(!bytes_before(left, right)) by {
            assert(left == right);
        }
    } else {
        let place = lemma_split_place(left, right);
        assert(a.take(place) =~= b.take(place)) by {
            assert forall|i: int| 0 <= i < place implies a[i] == b[i] by {
                assert(left.take(place)[i] == right.take(place)[i]);
            }
        }
        lemma_first_difference(a, b, place);
        if bytes_before(left, right) {
            if !(left.len() < right.len() && left =~= right.take(left.len() as int)) {
                let at = choose|at: int|
                    0 <= at < left.len() && at < right.len() && left.take(at) =~= right.take(at)
                        && #[trigger] left[at] < right[at];
                if at < place {
                    assert(left.take(place)[at] == right.take(place)[at]);
                }
                if place < at {
                    assert(left.take(at)[place] == right.take(at)[place]);
                }
            } else {
                if place < left.len() {
                    assert(left[place] == right.take(left.len() as int)[place]);
                }
            }
        }
        if a[place] < b[place] {
            if place < left.len() {
                assert(left[place] < right[place]);
            } else {
                assert(left =~= right.take(left.len() as int)) by {
                    assert(left.take(place) =~= left);
                }
            }
        }
    }
}

/// Where two different sequences part.
proof fn lemma_split_place<T>(left: Seq<T>, right: Seq<T>) -> (place: int)
    requires
        left != right,
    ensures
        0 <= place <= left.len(),
        place <= right.len(),
        left.take(place) =~= right.take(place),
        place == left.len() ==> place < right.len(),
        place == right.len() ==> place < left.len(),
        place < left.len() && place < right.len() ==> left[place] != right[place],
    decreases left.len(),
{
    if left.len() == 0 || right.len() == 0 {
        if left.len() == 0 && right.len() == 0 {
            assert(left =~= right);
        }
        0
    } else if left[0] != right[0] {
        0
    } else {
        if left.skip(1) == right.skip(1) {
            assert(left =~= seq![left[0]] + left.skip(1));
            assert(right =~= seq![right[0]] + right.skip(1));
        }
        let rest = lemma_split_place(left.skip(1), right.skip(1));
        assert(left.take(rest + 1) =~= right.take(rest + 1)) by {
            assert forall|i: int| 0 <= i < rest + 1 implies left[i] == right[i] by {
                if i > 0 {
                    assert(left.skip(1).take(rest)[i - 1] == right.skip(1).take(rest)[i - 1]);
                }
            }
        }
        rest + 1
    }
}

/// Texts and bytes compare byte by byte, a beginning before what it begins. Date-times with a zone
/// compare by the instant and then by the zone.
pub proof fn law_texts_compare_by_bytes(
    left: Seq<char>,
    right: Seq<char>,
    bytes: Seq<u8>,
    others: Seq<u8>,
    instant: (i64, u32),
    other: (i64, u32),
)
    ensures
        key_less(Key::Text(left), Key::Text(right)) <==> bytes_before(
            encode_utf8(left),
            encode_utf8(right),
        ),
        key_less(Key::Bytes(bytes), Key::Bytes(others)) <==> bytes_before(bytes, others),
        key_less(
            Key::ZonedDateTime(instant.0, instant.1, left),
            Key::ZonedDateTime(other.0, other.1, right),
        ) <==> instant.0 < other.0 || instant.0 == other.0 && (instant.1 < other.1 || instant.1
            == other.1 && bytes_before(encode_utf8(left), encode_utf8(right))),
{
    lemma_bytes_order(seq![3int], encode_utf8(left), encode_utf8(right));
    lemma_bytes_order(seq![4int], bytes, others);
    let a = seq![9, instant.0 as int, instant.1 as int];
    let b = seq![9, other.0 as int, other.1 as int];
    let x = a + bytes_code(encode_utf8(left));
    let y = b + bytes_code(encode_utf8(right));
    if instant == other {
        lemma_bytes_order(a, encode_utf8(left), encode_utf8(right));
    } else {
        let place = if instant.0 != other.0 {
            1int
        } else {
            2int
        };
        assert(x[0] == 9 && y[0] == 9 && x[1] == instant.0 && y[1] == other.0 && x[2] == instant.1
            && y[2] == other.1);
        assert(x.take(place) =~= y.take(place));
        lemma_first_difference(x, y, place);
    }
}

/// Floats compare by value. Both zeros are the same, and what is not a number comes last.
pub proof fn law_floats_compare_by_value(left: u64, right: u64)
    ensures
        ({
            let sign: int = 0x8000_0000_0000_0000;
            let infinity: int = 0x7ff0_0000_0000_0000;
            let left_size = if left >= sign {
                left - sign
            } else {
                left as int
            };
            let right_size = if right >= sign {
                right - sign
            } else {
                right as int
            };
            let left_value = if left >= sign {
                -left_size
            } else {
                left_size
            };
            let right_value = if right >= sign {
                -right_size
            } else {
                right_size
            };
            key_less(Key::Float(left), Key::Float(right)) <==> if left_size > infinity {
                false
            } else if right_size > infinity {
                true
            } else {
                left_value < right_value
            }
        }),
{
    lemma_two(2, float_rank(left), float_rank(right));
}

/// Where a kind of key stands among the kinds.
pub open spec fn kind_place(key: Key) -> int {
    match key {
        Key::Boolean(_) => 0,
        Key::Integer(_) => 1,
        Key::Float(_) => 2,
        Key::Text(_) => 3,
        Key::Bytes(_) => 4,
        Key::Date(_) => 5,
        Key::LocalTime(_) => 6,
        Key::ZonedTime(_, _) => 7,
        Key::LocalDateTime(_, _) => 8,
        Key::ZonedDateTime(_, _, _) => 9,
        Key::Duration(_, _, _, _) => 10,
        Key::Composite(_) => 11,
    }
}

/// Keys of different kinds compare by their kind.
pub proof fn law_kinds_compare_in_order(left: Key, right: Key)
    requires
        kind_place(left) != kind_place(right),
    ensures
        key_less(left, right) <==> kind_place(left) < kind_place(right),
{
    let a = key_code(left);
    let b = key_code(right);
    assert(a[0] == kind_place(left));
    assert(b[0] == kind_place(right));
    assert(a.take(0) =~= b.take(0));
    lemma_first_difference(a, b, 0);
}

/// Composite keys compare part by part: at the first part that is not alike, or by their number of
/// parts.
pub proof fn law_composites_compare_part_by_part(left: Seq<Key>, right: Seq<Key>, place: int)
    requires
        0 <= place <= left.len(),
        place <= right.len(),
        forall|i: int| 0 <= i < place ==> alike(#[trigger] left[i], right[i]),
    ensures
        place < left.len() && place < right.len() && !alike(left[place], right[place]) ==> (
        key_less(Key::Composite(left), Key::Composite(right)) <==> key_less(
            left[place],
            right[place],
        )),
        place == left.len() ==> (key_less(Key::Composite(left), Key::Composite(right))
            <==> left.len() < right.len()),
        place == right.len() && place < left.len() ==> !key_less(
            Key::Composite(left),
            Key::Composite(right),
        ),
{
    lemma_common_head(seq![11int], parts_code(left, 0), parts_code(right, 0));
    lemma_parts_head(left, right, 0, place);
    let a = parts_code(left, place);
    let b = parts_code(right, place);
    if place < left.len() && place < right.len() {
        if !alike(left[place], right[place]) {
            let x = key_code(left[place]);
            let y = key_code(right[place]);
            assert(a =~= seq![1int] + (x + parts_code(left, place + 1)));
            assert(b =~= seq![1int] + (y + parts_code(right, place + 1)));
            lemma_common_head(
                seq![1int],
                x + parts_code(left, place + 1),
                y + parts_code(right, place + 1),
            );
            lemma_tails_ignored(
                left[place],
                right[place],
                parts_code(left, place + 1),
                parts_code(right, place + 1),
            );
        }
    } else {
        assert(a[0] == if place < left.len() {
            1int
        } else {
            0
        });
        assert(b[0] == if place < right.len() {
            1int
        } else {
            0
        });
        if a[0] != b[0] {
            assert(a.take(0) =~= b.take(0));
            lemma_first_difference(a, b, 0);
        } else {
            lemma_code_order(a, a, a);
        }
    }
}

/// Parts that are alike make a common beginning.
proof fn lemma_parts_head(left: Seq<Key>, right: Seq<Key>, index: int, place: int)
    requires
        0 <= index <= place <= left.len(),
        place <= right.len(),
        forall|i: int| 0 <= i < place ==> alike(#[trigger] left[i], right[i]),
    ensures
        code_less(parts_code(left, index), parts_code(right, index)) == code_less(
            parts_code(left, place),
            parts_code(right, place),
        ),
    decreases place - index,
{
    if index < place {
        assert(alike(left[index], right[index]));
        let head = seq![1int] + key_code(left[index]);
        lemma_common_head(head, parts_code(left, index + 1), parts_code(right, index + 1));
        lemma_parts_head(left, right, index + 1, place);
    }
}

/// What follows two keys that are not alike does not decide.
proof fn lemma_tails_ignored(left: Key, right: Key, after: Seq<int>, behind: Seq<int>)
    requires
        !alike(left, right),
    ensures
        code_less(key_code(left) + after, key_code(right) + behind) == key_less(left, right),
{
    let a = key_code(left);
    let b = key_code(right);
    let place = lemma_split_place(a, b);
    law_alike_keys(left, right);
    if place == a.len() {
        assert(a + b.skip(place) =~= b + Seq::<int>::empty()) by {
            assert(a =~= a.take(place));
            assert(b =~= b.take(place) + b.skip(place));
        }
        lemma_key_code(left, right, b.skip(place), Seq::empty());
    } else if place == b.len() {
        assert(b + a.skip(place) =~= a + Seq::<int>::empty()) by {
            assert(b =~= b.take(place));
            assert(a =~= a.take(place) + a.skip(place));
        }
        lemma_key_code(right, left, a.skip(place), Seq::empty());
    } else {
        lemma_first_difference(a, b, place);
        assert((a + after).take(place) =~= (b + behind).take(place)) by {
            assert((a + after).take(place) =~= a.take(place));
            assert((b + behind).take(place) =~= b.take(place));
        }
        lemma_first_difference(a + after, b + behind, place);
    }
}

/// Keys are alike exactly where they differ in nothing but the bits of a zero or of what is not a
/// number.
pub proof fn law_alike_keys(left: Key, right: Key)
    ensures
        alike(left, right) <==> canonical_key(left) == canonical_key(right),
{
    if alike(left, right) {
        lemma_key_code(left, right, Seq::empty(), Seq::empty());
    }
    if canonical_key(left) == canonical_key(right) {
        lemma_canonical_code(left);
        lemma_canonical_code(right);
    }
}

/// A key has the numbers of its canonical form.
proof fn lemma_canonical_code(key: Key)
    ensures
        key_code(canonical_key(key)) == key_code(key),
    decreases key, 0int,
{
    if let Key::Composite(parts) = key {
        let forms = canonical_key(key)->Composite_0;
        lemma_canonical_parts(parts, forms, 0);
    }
}

proof fn lemma_canonical_parts(parts: Seq<Key>, forms: Seq<Key>, index: int)
    requires
        0 <= index <= parts.len(),
        forms.len() == parts.len(),
        forall|i: int| 0 <= i < parts.len() ==> #[trigger] forms[i] == canonical_key(parts[i]),
    ensures
        parts_code(forms, index) == parts_code(parts, index),
    decreases parts, parts.len() - index,
{
    if index < parts.len() {
        lemma_canonical_code(parts[index]);
        lemma_canonical_parts(parts, forms, index + 1);
    }
}

/// A plain key is like no other.
pub proof fn law_plain_keys(key: Key, other: Key)
    requires
        plain_key(key),
        alike(key, other),
    ensures
        other == key,
{
    law_alike_keys(key, other);
    lemma_plain_form(key, other);
}

proof fn lemma_plain_form(key: Key, other: Key)
    requires
        plain_key(key),
        canonical_key(key) == canonical_key(other),
    ensures
        other == key,
    decreases key,
{
    match (key, other) {
        (Key::Composite(parts), Key::Composite(others)) => {
            let forms = canonical_key(key)->Composite_0;
            let other_forms = canonical_key(other)->Composite_0;
            assert(forms.len() == other_forms.len());
            assert forall|i: int| 0 <= i < parts.len() implies parts[i] == others[i] by {
                assert(plain_key(parts[i]));
                assert(forms[i] == other_forms[i]);
                lemma_plain_form(parts[i], others[i]);
            }
            assert(parts =~= others);
        },
        _ => {},
    }
}

/// Numbers that a vector holds.
pub open spec fn numbers(code: Seq<i128>) -> Seq<int> {
    Seq::new(code.len(), |i: int| code[i] as int)
}

fn push_number(out: &mut Vec<i128>, number: i128)
    ensures
        numbers(final(out)@) == numbers(old(out)@).push(number as int),
{
    out.push(number);
    assert(numbers(out@) =~= numbers(old(out)@).push(number as int));
}

fn push_bytes(out: &mut Vec<i128>, bytes: &[u8])
    ensures
        numbers(final(out)@) == numbers(old(out)@) + bytes_code(bytes@),
{
    let ghost before = numbers(out@);
    assert(bytes@.skip(0) =~= bytes@);
    for index in 0..bytes.len()
        invariant
            numbers(out@) + bytes_code(bytes@.skip(index as int)) == before + bytes_code(bytes@),
    {
        let ghost seen = numbers(out@);
        push_number(out, bytes[index] as i128 + 1);
        proof {
            let rest = bytes@.skip(index as int);
            assert(rest.skip(1) =~= bytes@.skip(index + 1));
            assert(numbers(out@) + bytes_code(rest.skip(1)) =~= seen + bytes_code(rest));
        }
    }
    push_number(out, 0);
    assert(numbers(out@) =~= before + bytes_code(bytes@));
}

#[verifier::rlimit(40)]
#[verifier::spinoff_prover]
fn push_code(out: &mut Vec<i128>, key: &IndexKey)
    ensures
        numbers(final(out)@) == numbers(old(out)@) + key_code(key.key()),
    decreases key,
{
    let ghost before = numbers(out@);
    match key {
        IndexKey::Boolean(flag) => {
            push_number(out, 0);
            push_number(
                out,
                if *flag {
                    1
                } else {
                    0
                },
            );
        },
        IndexKey::Integer(number) => {
            push_number(out, 1);
            push_number(out, *number as i128);
        },
        IndexKey::Float(bits) => {
            push_number(out, 2);
            let rank: i128 = if normalize_float(*bits) == 0x7ff8_0000_0000_0000 {
                0x1_0000_0000_0000_0000
            } else if *bits >= 0x8000_0000_0000_0000 {
                0x8000_0000_0000_0000i128 - *bits as i128
            } else {
                *bits as i128
            };
            push_number(out, rank);
        },
        IndexKey::String(text) => {
            push_number(out, 3);
            push_bytes(out, text.as_str().as_bytes());
        },
        IndexKey::Bytes(bytes) => {
            push_number(out, 4);
            push_bytes(out, bytes.as_slice());
        },
        IndexKey::Date(days) => {
            push_number(out, 5);
            push_number(out, *days as i128);
        },
        IndexKey::LocalTime(nanos) => {
            push_number(out, 6);
            push_number(out, *nanos as i128);
        },
        IndexKey::ZonedTime(nanos, offset) => {
            push_number(out, 7);
            push_number(out, *nanos as i128);
            push_number(out, *offset as i128);
        },
        IndexKey::LocalDateTime(seconds, nanos) => {
            push_number(out, 8);
            push_number(out, *seconds as i128);
            push_number(out, *nanos as i128);
        },
        IndexKey::ZonedDateTime(seconds, nanos, zone) => {
            push_number(out, 9);
            push_number(out, *seconds as i128);
            push_number(out, *nanos as i128);
            push_bytes(out, zone.as_str().as_bytes());
        },
        IndexKey::Duration(months, days, seconds, nanos) => {
            push_number(out, 10);
            push_number(out, *months as i128);
            push_number(out, *days as i128);
            push_number(out, *seconds as i128);
            push_number(out, *nanos as i128);
        },
        IndexKey::Composite(parts) => {
            push_number(out, 11);
            let ghost all = key.key()->Composite_0;
            let ghost whole = before + seq![11int] + parts_code(all, 0);
            assert(numbers(out@) + parts_code(all, 0) =~= whole);
            for index in 0..parts.len()
                invariant
                    *key == IndexKey::Composite(*parts),
                    all == key.key()->Composite_0,
                    numbers(out@) + parts_code(all, index as int) == whole,
            {
                let ghost seen = numbers(out@);
                push_number(out, 1);
                push_code(out, &parts[index]);
                assert(all[index as int] == parts@[index as int].key());
                assert(numbers(out@) + parts_code(all, index + 1) =~= seen + parts_code(
                    all,
                    index as int,
                ));
            }
            push_number(out, 0);
            assert(numbers(out@) =~= whole);
        },
    }
    assert(numbers(out@) =~= before + key_code(key.key()));
}

/// The numbers by which a key is ordered.
pub(crate) fn code_of(key: &IndexKey) -> (code: Vec<i128>)
    ensures
        numbers(code@) == key_code(key.key()),
{
    let mut code: Vec<i128> = Vec::new();
    push_code(&mut code, key);
    assert(numbers(code@) =~= key_code(key.key()));
    code
}

/// Whether one code comes before another.
pub(crate) fn precedes(left: &Vec<i128>, right: &Vec<i128>) -> (before: bool)
    ensures
        before == code_less(numbers(left@), numbers(right@)),
{
    let mut index: usize = 0;
    assert(numbers(left@).skip(0) =~= numbers(left@));
    assert(numbers(right@).skip(0) =~= numbers(right@));
    while index < left.len() && index < right.len()
        invariant
            index <= left.len(),
            index <= right.len(),
            code_less(numbers(left@), numbers(right@)) == code_less(
                numbers(left@).skip(index as int),
                numbers(right@).skip(index as int),
            ),
        decreases left.len() - index,
    {
        assert(numbers(left@).skip(index as int).skip(1) =~= numbers(left@).skip(index + 1));
        assert(numbers(right@).skip(index as int).skip(1) =~= numbers(right@).skip(index + 1));
        if left[index] != right[index] {
            return left[index] < right[index];
        }
        index = index + 1;
    }
    index < right.len()
}

/// Whether neither of two keys comes before the other.
pub(crate) fn is_alike(left: &IndexKey, right: &IndexKey) -> (same: bool)
    ensures
        same == alike(left.key(), right.key()),
{
    let a = code_of(left);
    let b = code_of(right);
    let same = !precedes(&a, &b) && !precedes(&b, &a);
    proof {
        lemma_code_order(numbers(a@), numbers(b@), numbers(a@));
    }
    same
}

/// Bytes that a key takes in a checkpoint, roughly.
pub open spec fn key_size(key: Key) -> int
    decreases key,
{
    match key {
        Key::Boolean(_) => 2,
        Key::Integer(_) => 9,
        Key::Float(_) => 9,
        Key::LocalTime(_) => 9,
        Key::Date(_) => 9,
        Key::ZonedTime(_, _) => 13,
        Key::LocalDateTime(_, _) => 13,
        Key::ZonedDateTime(_, _, zone) => 13 + encode_utf8(zone).len() as int,
        Key::Duration(_, _, _, _) => 29,
        Key::Text(text) => 9 + encode_utf8(text).len() as int,
        Key::Bytes(bytes) => 9 + bytes.len() as int,
        Key::Composite(parts) => 9 + parts_size(parts, parts.len() as int),
    }
}

pub open spec fn parts_size(parts: Seq<Key>, count: int) -> int
    decreases parts, count,
{
    if count <= 0 || count > parts.len() {
        0
    } else {
        parts_size(parts, count - 1) + key_size(parts[count - 1])
    }
}

pub proof fn lemma_size_positive(key: Key)
    ensures
        key_size(key) >= 0,
    decreases key, 0int,
{
    if let Key::Composite(parts) = key {
        lemma_parts_positive(parts, parts.len() as int);
    }
}

proof fn lemma_parts_positive(parts: Seq<Key>, count: int)
    ensures
        parts_size(parts, count) >= 0,
    decreases parts, count,
{
    if 0 < count <= parts.len() {
        lemma_parts_positive(parts, count - 1);
        lemma_size_positive(parts[count - 1]);
    }
}

/// Bytes that a key takes, for the statistics of an index.
pub fn index_key_estimated_bytes(key: &IndexKey) -> (bytes: u64)
    ensures
        bytes == saturated64(key_size(key.key())),
    decreases key,
{
    match key {
        IndexKey::Boolean(_) => 2,
        IndexKey::Integer(_) => 9,
        IndexKey::Float(_) => 9,
        IndexKey::LocalTime(_) => 9,
        IndexKey::Date(_) => 9,
        IndexKey::ZonedTime(_, _) => 13,
        IndexKey::LocalDateTime(_, _) => 13,
        IndexKey::ZonedDateTime(_, _, zone) => 13u64.saturating_add(
            zone.as_str().as_bytes().len() as u64,
        ),
        IndexKey::Duration(_, _, _, _) => 29,
        IndexKey::String(text) => 9u64.saturating_add(text.as_str().as_bytes().len() as u64),
        IndexKey::Bytes(bytes) => 9u64.saturating_add(bytes.len() as u64),
        IndexKey::Composite(parts) => {
            let ghost all = key.key()->Composite_0;
            let mut bytes: u64 = 9;
            for index in 0..parts.len()
                invariant
                    *key == IndexKey::Composite(*parts),
                    all == key.key()->Composite_0,
                    bytes == saturated64(9 + parts_size(all, index as int)),
                    parts_size(all, index as int) >= 0,
            {
                assert(all[index as int] == parts@[index as int].key());
                proof {
                    lemma_size_positive(all[index as int]);
                    lemma_parts_positive(all, index + 1);
                }
                bytes = bytes.saturating_add(index_key_estimated_bytes(&parts[index]));
            }
            bytes
        },
    }
}

/// The key of a value is the value itself. NULL and documents have none.
pub proof fn law_values_are_their_keys(value: Scalar)
    ensures
        match value {
            Scalar::Null => value_key(value) is None,
            Scalar::List(_) => value_key(value) is None,
            Scalar::Entries(_) => value_key(value) is None,
            Scalar::Boolean(flag) => value_key(value) == Some(Key::Boolean(flag)),
            Scalar::Integer(number) => value_key(value) == Some(Key::Integer(number)),
            Scalar::Float(bits) => value_key(value) == Some(Key::Float(bits)),
            Scalar::Text(text) => value_key(value) == Some(Key::Text(text)),
            Scalar::Bytes(bytes) => value_key(value) == Some(Key::Bytes(bytes)),
            Scalar::Date(days) => value_key(value) == Some(Key::Date(days)),
            Scalar::LocalTime(nanos) => value_key(value) == Some(Key::LocalTime(nanos)),
            Scalar::ZonedTime(nanos, offset) => value_key(value) == Some(
                Key::ZonedTime(nanos, offset),
            ),
            Scalar::LocalDateTime(seconds, nanos) => value_key(value) == Some(
                Key::LocalDateTime(seconds, nanos),
            ),
            Scalar::ZonedDateTime(seconds, nanos, zone) => value_key(value) == Some(
                Key::ZonedDateTime(seconds, nanos, zone),
            ),
            Scalar::Duration(months, days, seconds, nanos) => value_key(value) == Some(
                Key::Duration(months, days, seconds, nanos),
            ),
        },
{
}

/// What a digest is taken of starts with the place of the kind, so that keys of different kinds never
/// have the same bytes, and a float goes in with its own bits.
pub proof fn law_digests_tell_kinds_apart(left: Key, right: Key, bits: u64, others: u64)
    ensures
        key_bytes(left).len() > 0,
        key_bytes(left)[0] == kind_place(left),
        kind_place(left) != kind_place(right) ==> key_bytes(left) != key_bytes(right),
        bits != others ==> key_bytes(Key::Float(bits)) != key_bytes(Key::Float(others)),
{
    assert(key_bytes(left)[0] == kind_place(left));
    assert(key_bytes(right)[0] == kind_place(right));
    crate::bytes::lemma_byte_ranges();
    if bits != others {
        let a = key_bytes(Key::Float(bits));
        let b = key_bytes(Key::Float(others));
        assert(a.skip(1) =~= le_bytes(bits as nat, 8));
        assert(b.skip(1) =~= le_bytes(others as nat, 8));
        assert(crate::bytes::le_value(le_bytes(bits as nat, 8)) == bits) by {
            crate::bytes::law_le_round_trip(bits as nat, 8);
        }
        assert(crate::bytes::le_value(le_bytes(others as nat, 8)) == others) by {
            crate::bytes::law_le_round_trip(others as nat, 8);
        }
    }
}

} // verus!
