//! Property values and the identifiers of properties and labels.

use vstd::prelude::*;

verus! {

#[derive(Clone, Copy, Debug, PartialEq, Eq, PartialOrd, Ord, Hash, Structural)]
pub struct PropertyId(pub u32);

#[derive(Clone, Copy, Debug, PartialEq, Eq, PartialOrd, Ord, Hash, Structural)]
pub struct LabelId(pub u32);

/// A list as the canonical bytes of its items.
#[derive(Debug, PartialEq, Eq)]
pub struct DocumentList {
    pub bytes: Vec<u8>,
}

/// A map as the canonical bytes of its entries, by ascending key.
#[derive(Debug, PartialEq, Eq)]
pub struct DocumentMap {
    pub bytes: Vec<u8>,
}

/// One property value. A float is held as the bits of its IEEE 754 double.
#[allow(inconsistent_fields)]
#[derive(Debug, PartialEq, Eq)]
pub enum ScalarValue {
    Null,
    Boolean(bool),
    Integer(i64),
    Float(u64),
    String(String),
    Bytes(Vec<u8>),
    Date(i64),
    LocalTime(i64),
    ZonedTime { nanos: i64, offset_seconds: i32 },
    LocalDateTime { seconds: i64, nanos: u32 },
    ZonedDateTime { seconds: i64, nanos: u32, timezone: String },
    Duration { months: i64, days: i64, seconds: i64, nanos: i32 },
    List(DocumentList),
    Entries(DocumentMap),
}

/// What a value is, apart from where it is stored.
pub enum Scalar {
    Null,
    Boolean(bool),
    Integer(i64),
    Float(u64),
    Text(Seq<char>),
    Bytes(Seq<u8>),
    Date(i64),
    LocalTime(i64),
    ZonedTime(i64, i32),
    LocalDateTime(i64, u32),
    ZonedDateTime(i64, u32, Seq<char>),
    Duration(i64, i64, i64, i32),
    List(Seq<u8>),
    Entries(Seq<u8>),
}

impl View for ScalarValue {
    type V = Scalar;

    open spec fn view(&self) -> Scalar {
        match self {
            ScalarValue::Null => Scalar::Null,
            ScalarValue::Boolean(value) => Scalar::Boolean(*value),
            ScalarValue::Integer(value) => Scalar::Integer(*value),
            ScalarValue::Float(bits) => Scalar::Float(*bits),
            ScalarValue::String(text) => Scalar::Text(text@),
            ScalarValue::Bytes(bytes) => Scalar::Bytes(bytes@),
            ScalarValue::Date(days) => Scalar::Date(*days),
            ScalarValue::LocalTime(nanos) => Scalar::LocalTime(*nanos),
            ScalarValue::ZonedTime { nanos, offset_seconds } => Scalar::ZonedTime(
                *nanos,
                *offset_seconds,
            ),
            ScalarValue::LocalDateTime { seconds, nanos } => Scalar::LocalDateTime(
                *seconds,
                *nanos,
            ),
            ScalarValue::ZonedDateTime { seconds, nanos, timezone } => Scalar::ZonedDateTime(
                *seconds,
                *nanos,
                timezone@,
            ),
            ScalarValue::Duration { months, days, seconds, nanos } => Scalar::Duration(
                *months,
                *days,
                *seconds,
                *nanos,
            ),
            ScalarValue::List(list) => Scalar::List(list.bytes@),
            ScalarValue::Entries(map) => Scalar::Entries(map.bytes@),
        }
    }
}

pub(crate) fn copy_bytes(bytes: &[u8]) -> (copy: Vec<u8>)
    ensures
        copy@ == bytes@,
{
    let mut copy: Vec<u8> = Vec::with_capacity(bytes.len());
    copy.extend_from_slice(bytes);
    assert(copy@ =~= bytes@);
    copy
}

impl Clone for ScalarValue {
    fn clone(&self) -> (copy: Self)
        ensures
            copy@ == self@,
    {
        match self {
            ScalarValue::Null => ScalarValue::Null,
            ScalarValue::Boolean(value) => ScalarValue::Boolean(*value),
            ScalarValue::Integer(value) => ScalarValue::Integer(*value),
            ScalarValue::Float(bits) => ScalarValue::Float(*bits),
            ScalarValue::String(text) => ScalarValue::String(text.clone()),
            ScalarValue::Bytes(bytes) => ScalarValue::Bytes(copy_bytes(bytes)),
            ScalarValue::Date(days) => ScalarValue::Date(*days),
            ScalarValue::LocalTime(nanos) => ScalarValue::LocalTime(*nanos),
            ScalarValue::ZonedTime { nanos, offset_seconds } => ScalarValue::ZonedTime {
                nanos: *nanos,
                offset_seconds: *offset_seconds,
            },
            ScalarValue::LocalDateTime { seconds, nanos } => ScalarValue::LocalDateTime {
                seconds: *seconds,
                nanos: *nanos,
            },
            ScalarValue::ZonedDateTime { seconds, nanos, timezone } => ScalarValue::ZonedDateTime {
                seconds: *seconds,
                nanos: *nanos,
                timezone: timezone.clone(),
            },
            ScalarValue::Duration { months, days, seconds, nanos } => ScalarValue::Duration {
                months: *months,
                days: *days,
                seconds: *seconds,
                nanos: *nanos,
            },
            ScalarValue::List(list) => ScalarValue::List(
                DocumentList { bytes: copy_bytes(&list.bytes) },
            ),
            ScalarValue::Entries(map) =>
                ScalarValue::Entries(DocumentMap { bytes: copy_bytes(&map.bytes) }),
        }
    }
}

impl DocumentList {
    pub fn as_bytes(&self) -> (bytes: &[u8])
        ensures
            bytes@ == self.bytes@,
    {
        self.bytes.as_slice()
    }

    /// A list whose bytes are known to be canonical.
    pub fn from_canonical(bytes: Vec<u8>) -> (list: Self)
        ensures
            list.bytes@ == bytes@,
    {
        DocumentList { bytes }
    }
}

impl DocumentMap {
    pub fn as_bytes(&self) -> (bytes: &[u8])
        ensures
            bytes@ == self.bytes@,
    {
        self.bytes.as_slice()
    }

    /// A map whose bytes are known to be canonical.
    pub fn from_canonical(bytes: Vec<u8>) -> (map: Self)
        ensures
            map.bytes@ == bytes@,
    {
        DocumentMap { bytes }
    }
}

} // verus!
