//! Physically typed property columns.

use crate::columns::dictionary::{ByteValues, Dictionary};
use crate::columns::packed::{flat, lemma_flat_push, PackedLists};
use crate::columns::validity::{replace_paged, Validity};
use crate::error::{fails_with, Error, ErrorCode, Result};
use crate::persistent::paged::PagedVec;
use crate::shared::clone_faithful;
use crate::values::{copy_bytes, DocumentList, DocumentMap, Scalar, ScalarValue};
use vstd::prelude::*;
use vstd::utf8::{encode_utf8, valid_utf8};

verus! {

/// A physically typed property column. Nulls live only in `validity`.
#[allow(inconsistent_fields)]
pub enum TypedColumn {
    Boolean { values: PagedVec<bool>, validity: Validity },
    Integer { values: PagedVec<i64>, validity: Validity },
    Float { values: PagedVec<u64>, validity: Validity },
    String { values: PagedVec<u32>, validity: Validity },
    Bytes { values: ByteValues, validity: Validity },
    Date { values: PagedVec<i64>, validity: Validity },
    LocalTime { values: PagedVec<i64>, validity: Validity },
    ZonedTime { nanos: PagedVec<i64>, offsets: PagedVec<i32>, validity: Validity },
    LocalDateTime { seconds: PagedVec<i64>, nanos: PagedVec<u32>, validity: Validity },
    ZonedDateTime { seconds: PagedVec<i64>, nanos: PagedVec<u32>, timezones: PagedVec<u32>,
        validity: Validity },
    Duration { months: PagedVec<i64>, days: PagedVec<i64>, seconds: PagedVec<i64>,
        nanos: PagedVec<i32>, validity: Validity },
    List { values: PackedLists<u8>, validity: Validity },
    Entries { values: PackedLists<u8>, validity: Validity },
}

/// The text of a dictionary entry.
pub open spec fn resolved(strings: Dictionary, id: u32) -> Option<Seq<char>> {
    if id < strings@.len() && valid_utf8(strings.rows()[id as int]) {
        Some(strings@[id as int])
    } else {
        None
    }
}

/// Which variant holds a value: NULL is held by all.
pub open spec fn value_kind(value: Scalar) -> int {
    match value {
        Scalar::Null => -1,
        Scalar::Boolean(_) => 0,
        Scalar::Integer(_) => 1,
        Scalar::Float(_) => 2,
        Scalar::Text(_) => 3,
        Scalar::Bytes(_) => 4,
        Scalar::Date(_) => 5,
        Scalar::LocalTime(_) => 6,
        Scalar::ZonedTime(_, _) => 7,
        Scalar::LocalDateTime(_, _) => 8,
        Scalar::ZonedDateTime(_, _, _) => 9,
        Scalar::Duration(_, _, _, _) => 10,
        Scalar::List(_) => 11,
        Scalar::Entries(_) => 12,
    }
}

impl Clone for TypedColumn {
    fn clone(&self) -> (copy: Self)
        ensures
            copy == *self,
    {
        match self {
            TypedColumn::Boolean { values, validity } => TypedColumn::Boolean {
                values: values.clone(),
                validity: validity.clone(),
            },
            TypedColumn::Integer { values, validity } => TypedColumn::Integer {
                values: values.clone(),
                validity: validity.clone(),
            },
            TypedColumn::Float { values, validity } => TypedColumn::Float {
                values: values.clone(),
                validity: validity.clone(),
            },
            TypedColumn::String { values, validity } => TypedColumn::String {
                values: values.clone(),
                validity: validity.clone(),
            },
            TypedColumn::Bytes { values, validity } => TypedColumn::Bytes {
                values: values.clone(),
                validity: validity.clone(),
            },
            TypedColumn::Date { values, validity } => TypedColumn::Date {
                values: values.clone(),
                validity: validity.clone(),
            },
            TypedColumn::LocalTime { values, validity } => TypedColumn::LocalTime {
                values: values.clone(),
                validity: validity.clone(),
            },
            TypedColumn::ZonedTime { nanos, offsets, validity } => TypedColumn::ZonedTime {
                nanos: nanos.clone(),
                offsets: offsets.clone(),
                validity: validity.clone(),
            },
            TypedColumn::LocalDateTime { seconds, nanos, validity } => TypedColumn::LocalDateTime {
                seconds: seconds.clone(),
                nanos: nanos.clone(),
                validity: validity.clone(),
            },
            TypedColumn::ZonedDateTime { seconds, nanos, timezones, validity } =>
                TypedColumn::ZonedDateTime {
                seconds: seconds.clone(),
                nanos: nanos.clone(),
                timezones: timezones.clone(),
                validity: validity.clone(),
            },
            TypedColumn::Duration { months, days, seconds, nanos, validity } => TypedColumn::Duration {
                months: months.clone(),
                days: days.clone(),
                seconds: seconds.clone(),
                nanos: nanos.clone(),
                validity: validity.clone(),
            },
            TypedColumn::List { values, validity } => TypedColumn::List {
                values: values.clone(),
                validity: validity.clone(),
            },
            TypedColumn::Entries { values, validity } => TypedColumn::Entries {
                values: values.clone(),
                validity: validity.clone(),
            },
        }
    }
}

impl TypedColumn {
    /// Which variant the column is.
    pub open spec fn kind(&self) -> int {
        match self {
            TypedColumn::Boolean { .. } => 0,
            TypedColumn::Integer { .. } => 1,
            TypedColumn::Float { .. } => 2,
            TypedColumn::String { .. } => 3,
            TypedColumn::Bytes { .. } => 4,
            TypedColumn::Date { .. } => 5,
            TypedColumn::LocalTime { .. } => 6,
            TypedColumn::ZonedTime { .. } => 7,
            TypedColumn::LocalDateTime { .. } => 8,
            TypedColumn::ZonedDateTime { .. } => 9,
            TypedColumn::Duration { .. } => 10,
            TypedColumn::List { .. } => 11,
            TypedColumn::Entries { .. } => 12,
        }
    }

    pub open spec fn spec_validity(&self) -> Validity {
        match self {
            TypedColumn::Boolean { validity, .. } => *validity,
            TypedColumn::Integer { validity, .. } => *validity,
            TypedColumn::Float { validity, .. } => *validity,
            TypedColumn::String { validity, .. } => *validity,
            TypedColumn::Bytes { validity, .. } => *validity,
            TypedColumn::Date { validity, .. } => *validity,
            TypedColumn::LocalTime { validity, .. } => *validity,
            TypedColumn::ZonedTime { validity, .. } => *validity,
            TypedColumn::LocalDateTime { validity, .. } => *validity,
            TypedColumn::ZonedDateTime { validity, .. } => *validity,
            TypedColumn::Duration { validity, .. } => *validity,
            TypedColumn::List { validity, .. } => *validity,
            TypedColumn::Entries { validity, .. } => *validity,
        }
    }

    /// Rows of the column.
    pub open spec fn rows(&self) -> int {
        self.spec_validity().len as int
    }

    /// Every part can be read, whatever its length.
    pub open spec fn readable(&self) -> bool {
        &&& self.spec_validity().words.wf()
        &&& match self {
            TypedColumn::Boolean { values, .. } => values.wf(),
            TypedColumn::Integer { values, .. } => values.wf(),
            TypedColumn::Float { values, .. } => values.wf(),
            TypedColumn::String { values, .. } => values.wf(),
            TypedColumn::Bytes { values, .. } => values.wf(),
            TypedColumn::Date { values, .. } => values.wf(),
            TypedColumn::LocalTime { values, .. } => values.wf(),
            TypedColumn::ZonedTime { nanos, offsets, .. } => nanos.wf() && offsets.wf(),
            TypedColumn::LocalDateTime { seconds, nanos, .. } => seconds.wf() && nanos.wf(),
            TypedColumn::ZonedDateTime { seconds, nanos, timezones, .. } =>
                seconds.wf() && nanos.wf() && timezones.wf(),
            TypedColumn::Duration { months, days, seconds, nanos, .. } =>
                months.wf() && days.wf() && seconds.wf() && nanos.wf(),
            TypedColumn::List { values, .. } => values.wf(),
            TypedColumn::Entries { values, .. } => values.wf(),
        }
    }

    /// The first part whose length is not the number of rows.
    pub open spec fn length_fault(&self) -> Option<Seq<char>> {
        let rows = self.rows();
        match self {
            TypedColumn::Boolean { values, .. } => if values@.len() != rows {
                Some("Boolean values and validity have different row counts"@)
            } else {
                None
            },
            TypedColumn::Integer { values, .. } => if values@.len() != rows {
                Some("typed values and validity have different row counts"@)
            } else {
                None
            },
            TypedColumn::Float { values, .. } => if values@.len() != rows {
                Some("float values and validity have different row counts"@)
            } else {
                None
            },
            TypedColumn::String { values, .. } => if values@.len() != rows {
                Some("string values and validity have different row counts"@)
            } else {
                None
            },
            TypedColumn::Bytes { values, .. } => if values@.len() != rows {
                Some("byte values and validity have different row counts"@)
            } else {
                None
            },
            TypedColumn::Date { values, .. } => if values@.len() != rows {
                Some("date values and validity have different row counts"@)
            } else {
                None
            },
            TypedColumn::LocalTime { values, .. } => if values@.len() != rows {
                Some("typed values and validity have different row counts"@)
            } else {
                None
            },
            TypedColumn::ZonedTime { nanos, offsets, .. } => if nanos@.len() != rows {
                Some("zoned-time nanos and validity have different row counts"@)
            } else if offsets@.len() != rows {
                Some("zoned-time offsets and validity have different row counts"@)
            } else {
                None
            },
            TypedColumn::LocalDateTime { seconds, nanos, .. } => if seconds@.len() != rows {
                Some("local-datetime seconds and validity have different row counts"@)
            } else if nanos@.len() != rows {
                Some("local-datetime nanos and validity have different row counts"@)
            } else {
                None
            },
            TypedColumn::ZonedDateTime { seconds, nanos, timezones, .. } => if seconds@.len() != rows {
                Some("zoned-datetime seconds and validity have different row counts"@)
            } else if nanos@.len() != rows {
                Some("zoned-datetime nanos and validity have different row counts"@)
            } else if timezones@.len() != rows {
                Some("zoned-datetime timezones and validity have different row counts"@)
            } else {
                None
            },
            TypedColumn::Duration { months, days, seconds, nanos, .. } => if months@.len() != rows {
                Some("duration months and validity have different row counts"@)
            } else if days@.len() != rows {
                Some("duration days and validity have different row counts"@)
            } else if seconds@.len() != rows {
                Some("duration seconds and validity have different row counts"@)
            } else if nanos@.len() != rows {
                Some("duration nanos and validity have different row counts"@)
            } else {
                None
            },
            TypedColumn::List { values, .. } => if values@.len() != rows {
                Some("document values and validity have different row counts"@)
            } else {
                None
            },
            TypedColumn::Entries { values, .. } => if values@.len() != rows {
                Some("document values and validity have different row counts"@)
            } else {
                None
            },
        }
    }

    /// What a row holds, if its parts are there.
    pub open spec fn cell(&self, row: int, strings: Dictionary) -> Option<Scalar> {
        if !self.spec_validity().present(row) {
            Some(Scalar::Null)
        } else {
            match self {
                TypedColumn::Boolean { values, .. } => if row < values@.len() {
                    Some(Scalar::Boolean(values@[row]))
                } else {
                    None
                },
                TypedColumn::Integer { values, .. } => if row < values@.len() {
                    Some(Scalar::Integer(values@[row]))
                } else {
                    None
                },
                TypedColumn::Float { values, .. } => if row < values@.len() {
                    Some(Scalar::Float(values@[row]))
                } else {
                    None
                },
                TypedColumn::String { values, .. } => if row < values@.len() {
                    match resolved(strings, values@[row]) {
                        Some(text) => Some(Scalar::Text(text)),
                        None => None,
                    }
                } else {
                    None
                },
                TypedColumn::Bytes { values, .. } => if row < values@.len() {
                    Some(Scalar::Bytes(values@[row]))
                } else {
                    None
                },
                TypedColumn::Date { values, .. } => if row < values@.len() {
                    Some(Scalar::Date(values@[row]))
                } else {
                    None
                },
                TypedColumn::LocalTime { values, .. } => if row < values@.len() {
                    Some(Scalar::LocalTime(values@[row]))
                } else {
                    None
                },
                TypedColumn::ZonedTime { nanos, offsets, .. } =>
                    if row < nanos@.len() && row < offsets@.len() {
                    Some(Scalar::ZonedTime(nanos@[row], offsets@[row]))
                } else {
                    None
                },
                TypedColumn::LocalDateTime { seconds, nanos, .. } =>
                    if row < seconds@.len() && row < nanos@.len() {
                    Some(Scalar::LocalDateTime(seconds@[row], nanos@[row]))
                } else {
                    None
                },
                TypedColumn::ZonedDateTime { seconds, nanos, timezones, .. } =>
                    if row < seconds@.len() && row < nanos@.len() && row < timezones@.len() {
                    match resolved(strings, timezones@[row]) {
                        Some(text) => Some(
                            Scalar::ZonedDateTime(seconds@[row], nanos@[row], text),
                        ),
                        None => None,
                    }
                } else {
                    None
                },
                TypedColumn::Duration { months, days, seconds, nanos, .. } =>
                    if row < months@.len() && row < days@.len() && row < seconds@.len()
                        && row < nanos@.len() {
                    Some(Scalar::Duration(months@[row], days@[row], seconds@[row], nanos@[row]))
                } else {
                    None
                },
                TypedColumn::List { values, .. } => if row < values@.len() {
                    Some(Scalar::List(values@[row]))
                } else {
                    None
                },
                TypedColumn::Entries { values, .. } => if row < values@.len() {
                    Some(Scalar::Entries(values@[row]))
                } else {
                    None
                },
            }
        }
    }

    /// Parts of equal length, each readable. Rows are addressed by 32 bits.
    pub open spec fn sound(&self) -> bool {
        &&& self.readable()
        &&& self.spec_validity().wf()
        &&& self.length_fault() is None
        &&& self.rows() <= u32::MAX as int + 1
    }

    /// A sound column whose present rows have their text in the dictionary.
    pub open spec fn wf(&self, strings: Dictionary) -> bool {
        &&& self.sound()
        &&& forall|row: int|
            0 <= row < self.rows() ==> (#[trigger] self.cell(row, strings)) is Some
    }

    /// A value of this kind, or NULL.
    pub open spec fn spec_accepts(&self, value: Scalar) -> bool {
        value == Scalar::Null || value_kind(value) == self.kind()
    }

    pub fn accepts(&self, value: &ScalarValue) -> (accepted: bool)
        ensures
            accepted == self.spec_accepts(value@),
    {
        match value {
            ScalarValue::Null => true,
            ScalarValue::Boolean(_) => matches!(self, TypedColumn::Boolean { .. }),
            ScalarValue::Integer(_) => matches!(self, TypedColumn::Integer { .. }),
            ScalarValue::Float(_) => matches!(self, TypedColumn::Float { .. }),
            ScalarValue::String(_) => matches!(self, TypedColumn::String { .. }),
            ScalarValue::Bytes(_) => matches!(self, TypedColumn::Bytes { .. }),
            ScalarValue::Date(_) => matches!(self, TypedColumn::Date { .. }),
            ScalarValue::LocalTime(_) => matches!(self, TypedColumn::LocalTime { .. }),
            ScalarValue::ZonedTime { .. } => matches!(self, TypedColumn::ZonedTime { .. }),
            ScalarValue::LocalDateTime { .. } => matches!(self, TypedColumn::LocalDateTime { .. }),
            ScalarValue::ZonedDateTime { .. } => matches!(self, TypedColumn::ZonedDateTime { .. }),
            ScalarValue::Duration { .. } => matches!(self, TypedColumn::Duration { .. }),
            ScalarValue::List(_) => matches!(self, TypedColumn::List { .. }),
            ScalarValue::Entries(_) => matches!(self, TypedColumn::Entries { .. }),
        }
    }

    pub fn validity(&self) -> (validity: &Validity)
        ensures
            *validity == self.spec_validity(),
    {
        match self {
            TypedColumn::Boolean { validity, .. } => validity,
            TypedColumn::Integer { validity, .. } => validity,
            TypedColumn::Float { validity, .. } => validity,
            TypedColumn::String { validity, .. } => validity,
            TypedColumn::Bytes { validity, .. } => validity,
            TypedColumn::Date { validity, .. } => validity,
            TypedColumn::LocalTime { validity, .. } => validity,
            TypedColumn::ZonedTime { validity, .. } => validity,
            TypedColumn::LocalDateTime { validity, .. } => validity,
            TypedColumn::ZonedDateTime { validity, .. } => validity,
            TypedColumn::Duration { validity, .. } => validity,
            TypedColumn::List { validity, .. } => validity,
            TypedColumn::Entries { validity, .. } => validity,
        }
    }

    /// The column with another bitmap.
    pub open spec fn with_validity(self, validity: Validity) -> Self {
        match self {
            TypedColumn::Boolean { values, .. } => TypedColumn::Boolean { values, validity },
            TypedColumn::Integer { values, .. } => TypedColumn::Integer { values, validity },
            TypedColumn::Float { values, .. } => TypedColumn::Float { values, validity },
            TypedColumn::String { values, .. } => TypedColumn::String { values, validity },
            TypedColumn::Bytes { values, .. } => TypedColumn::Bytes { values, validity },
            TypedColumn::Date { values, .. } => TypedColumn::Date { values, validity },
            TypedColumn::LocalTime { values, .. } => TypedColumn::LocalTime { values, validity },
            TypedColumn::ZonedTime { nanos, offsets, .. } =>
                TypedColumn::ZonedTime { nanos, offsets, validity },
            TypedColumn::LocalDateTime { seconds, nanos, .. } =>
                TypedColumn::LocalDateTime { seconds, nanos, validity },
            TypedColumn::ZonedDateTime { seconds, nanos, timezones, .. } =>
                TypedColumn::ZonedDateTime { seconds, nanos, timezones, validity },
            TypedColumn::Duration { months, days, seconds, nanos, .. } =>
                TypedColumn::Duration { months, days, seconds, nanos, validity },
            TypedColumn::List { values, .. } => TypedColumn::List { values, validity },
            TypedColumn::Entries { values, .. } => TypedColumn::Entries { values, validity },
        }
    }

    pub fn validity_mut(&mut self) -> (validity: &mut Validity)
        ensures
            *validity == old(self).spec_validity(),
            *final(self) == old(self).with_validity(*final(validity)),
    {
        match self {
            TypedColumn::Boolean { validity, .. } => validity,
            TypedColumn::Integer { validity, .. } => validity,
            TypedColumn::Float { validity, .. } => validity,
            TypedColumn::String { validity, .. } => validity,
            TypedColumn::Bytes { validity, .. } => validity,
            TypedColumn::Date { validity, .. } => validity,
            TypedColumn::LocalTime { validity, .. } => validity,
            TypedColumn::ZonedTime { validity, .. } => validity,
            TypedColumn::LocalDateTime { validity, .. } => validity,
            TypedColumn::ZonedDateTime { validity, .. } => validity,
            TypedColumn::Duration { validity, .. } => validity,
            TypedColumn::List { validity, .. } => validity,
            TypedColumn::Entries { validity, .. } => validity,
        }
    }

    pub fn len(&self) -> (len: usize)
        ensures
            len == self.rows(),
    {
        self.validity().len()
    }

    /// The value of a row.
    #[verifier::rlimit(40)]
    #[verifier::spinoff_prover]
    pub fn get(&self, row: usize, strings: &Dictionary) -> (value: Option<ScalarValue>)
        requires
            self.readable(),
            strings.readable(),
            row <= u32::MAX,
        ensures
            match value {
                Some(value) => self.cell(row as int, *strings) == Some(value@),
                None => self.cell(row as int, *strings) is None,
            },
    {
        if !self.validity().is_present(row) {
            return Some(ScalarValue::Null);
        }
        match self {
            TypedColumn::Boolean { values, .. } => match values.get(row) {
                Some(value) => Some(ScalarValue::Boolean(*value)),
                None => None,
            },
            TypedColumn::Integer { values, .. } => match values.get(row) {
                Some(value) => Some(ScalarValue::Integer(*value)),
                None => None,
            },
            TypedColumn::Float { values, .. } => match values.get(row) {
                Some(value) => Some(ScalarValue::Float(*value)),
                None => None,
            },
            TypedColumn::String { values, .. } => match values.get(row) {
                Some(id) => match strings.resolve(*id) {
                    Some(text) => Some(ScalarValue::String(text.to_owned())),
                    None => None,
                },
                None => None,
            },
            TypedColumn::Bytes { values, .. } => match values.get(row) {
                Some(value) => Some(ScalarValue::Bytes(copy_bytes(value))),
                None => None,
            },
            TypedColumn::Date { values, .. } => match values.get(row) {
                Some(value) => Some(ScalarValue::Date(*value)),
                None => None,
            },
            TypedColumn::LocalTime { values, .. } => match values.get(row) {
                Some(value) => Some(ScalarValue::LocalTime(*value)),
                None => None,
            },
            TypedColumn::ZonedTime { nanos, offsets, .. } => match (nanos.get(row), offsets.get(row)) {
                (Some(nanos), Some(offset)) => Some(
                    ScalarValue::ZonedTime { nanos: *nanos, offset_seconds: *offset },
                ),
                _ => None,
            },
            TypedColumn::LocalDateTime { seconds, nanos, .. } =>
                match (seconds.get(row), nanos.get(row)) {
                (Some(seconds), Some(nanos)) => Some(
                    ScalarValue::LocalDateTime { seconds: *seconds, nanos: *nanos },
                ),
                _ => None,
            },
            TypedColumn::ZonedDateTime { seconds, nanos, timezones, .. } =>
                match (seconds.get(row), nanos.get(row), timezones.get(row)) {
                (Some(seconds), Some(nanos), Some(id)) => match strings.resolve(*id) {
                    Some(timezone) => Some(
                        ScalarValue::ZonedDateTime {
                            seconds: *seconds,
                            nanos: *nanos,
                            timezone: timezone.to_owned(),
                        },
                    ),
                    None => None,
                },
                _ => None,
            },
            TypedColumn::Duration { months, days, seconds, nanos, .. } =>
                match (months.get(row), days.get(row), seconds.get(row), nanos.get(row)) {
                (Some(months), Some(days), Some(seconds), Some(nanos)) => Some(
                    ScalarValue::Duration {
                        months: *months,
                        days: *days,
                        seconds: *seconds,
                        nanos: *nanos,
                    },
                ),
                _ => None,
            },
            TypedColumn::List { values, .. } => match values.get(row as u32) {
                Some(value) => Some(
                    ScalarValue::List(DocumentList::from_canonical(copy_bytes(value))),
                ),
                None => None,
            },
            TypedColumn::Entries { values, .. } => match values.get(row as u32) {
                Some(value) => Some(
                    ScalarValue::Entries(DocumentMap::from_canonical(copy_bytes(value))),
                ),
                None => None,
            },
        }
    }

    /// The packed bytes of the column, where it has any, were written row by row and are this many.
    pub open spec fn packed(&self, rows: int, bytes: int) -> bool {
        match self {
            TypedColumn::Bytes { values, .. } => values.tight(rows) && flat(values@).len() == bytes,
            TypedColumn::List { values, .. } => values.tight(rows) && flat(values@).len() == bytes,
            TypedColumn::Entries { values, .. } => values.tight(rows) && flat(values@).len()
                == bytes,
            _ => true,
        }
    }

    /// The stored bytes of a column of documents, by row.
    pub open spec fn document_rows(&self) -> Seq<Seq<u8>> {
        match self {
            TypedColumn::List { values, .. } => values@,
            TypedColumn::Entries { values, .. } => values@,
            _ => Seq::empty(),
        }
    }

    /// A row without a document keeps no bytes.
    pub open spec fn clean(&self, row: int) -> bool {
        (*self is List || *self is Entries) && !self.spec_validity().present(row)
            ==> self.document_rows()[row].len() == 0
    }

    /// No row without a document keeps bytes.
    pub open spec fn tidy(&self) -> bool {
        forall|row: int| 0 <= row < self.rows() ==> #[trigger] self.clean(row)
    }

    /// Appends a row without a value.
    #[verifier::rlimit(60)]
    #[verifier::spinoff_prover]
    pub fn push_null(&mut self) -> (result: Result<()>)
        requires
            old(self).sound(),
            old(self).rows() <= u32::MAX,
            old(self).rows() < usize::MAX,
        ensures
            result is Ok,
            final(self).sound(),
            final(self).kind() == old(self).kind(),
            final(self).rows() == old(self).rows() + 1,
            final(self).clean(old(self).rows()),
            old(self).tidy() ==> final(self).tidy(),
            forall|rows: int, bytes: int| #[trigger]
                old(self).packed(rows, bytes) ==> final(self).packed(rows + 1, bytes),
            forall|strings: Dictionary| #[trigger]
                old(self).wf(strings) ==> grown(
                    *old(self),
                    strings,
                    *final(self),
                    strings,
                    Scalar::Null,
                ),
    {
        let ghost before = *self;
        let result = match self {
            TypedColumn::Boolean { values, validity } => {
                values.push(false);
                validity.push(false)
            },
            TypedColumn::Integer { values, validity } => {
                values.push(0);
                validity.push(false)
            },
            TypedColumn::Float { values, validity } => {
                values.push(0);
                validity.push(false)
            },
            TypedColumn::String { values, validity } => {
                values.push(0);
                validity.push(false)
            },
            TypedColumn::Bytes { values, validity } => {
                let none: Vec<u8> = Vec::new();
                let _ = values.push(none.as_slice());
                validity.push(false)
            },
            TypedColumn::Date { values, validity } => {
                values.push(0);
                validity.push(false)
            },
            TypedColumn::LocalTime { values, validity } => {
                values.push(0);
                validity.push(false)
            },
            TypedColumn::ZonedTime { nanos, offsets, validity } => {
                nanos.push(0);
                offsets.push(0);
                validity.push(false)
            },
            TypedColumn::LocalDateTime { seconds, nanos, validity } => {
                seconds.push(0);
                nanos.push(0);
                validity.push(false)
            },
            TypedColumn::ZonedDateTime { seconds, nanos, timezones, validity } => {
                seconds.push(0);
                nanos.push(0);
                timezones.push(0);
                validity.push(false)
            },
            TypedColumn::Duration { months, days, seconds, nanos, validity } => {
                months.push(0);
                days.push(0);
                seconds.push(0);
                nanos.push(0);
                validity.push(false)
            },
            TypedColumn::List { values, validity } => {
                let _ = values.push(Vec::new());
                validity.push(false)
            },
            TypedColumn::Entries { values, validity } => {
                let _ = values.push(Vec::new());
                validity.push(false)
            },
        };
        proof {
            assert(self.spec_validity().wf());
            assert(self.readable());
            assert(self.length_fault() is None);
            assert forall|rows: int, bytes: int| #[trigger] before.packed(rows, bytes) implies self.packed(
                rows + 1,
                bytes,
            ) by {
                match before {
                    TypedColumn::Bytes { values, .. } => {
                        lemma_flat_push(values@, Seq::empty());
                        assert(values.tight(rows));
                    },
                    TypedColumn::List { values, .. } => {
                        lemma_flat_push(values@, Seq::empty());
                        assert(values.tight(rows));
                    },
                    TypedColumn::Entries { values, .. } => {
                        lemma_flat_push(values@, Seq::empty());
                        assert(values.tight(rows));
                    },
                    _ => {},
                }
            }
            if before.tidy() {
                assert forall|row: int| 0 <= row < self.rows() implies #[trigger] self.clean(row) by {
                    if row < before.rows() {
                        assert(before.clean(row));
                        assert(self.spec_validity().present(row) == before.spec_validity().present(
                            row,
                        ));
                    }
                }
            }
            assert forall|strings: Dictionary| #[trigger] before.wf(strings) implies grown(
                before,
                strings,
                *self,
                strings,
                Scalar::Null,
            ) by {
                assert forall|row: int| 0 <= row < before.rows() implies #[trigger] self.cell(
                    row,
                    strings,
                ) == before.cell(row, strings) by {
                    assert(self.spec_validity().present(row) == before.spec_validity().present(
                        row,
                    ));
                }
                assert(!self.spec_validity().present(before.rows()));
                assert forall|row: int| 0 <= row < self.rows() implies (#[trigger] self.cell(
                    row,
                    strings,
                )) is Some by {
                    if row < before.rows() {
                        assert(before.cell(row, strings) is Some);
                    }
                }
            }
        }
        result
    }

    /// Appends a row.
    #[verifier::rlimit(100)]
    #[verifier::spinoff_prover]
    pub fn push(&mut self, value: &ScalarValue, strings: &mut Dictionary) -> (result: Result<()>)
        requires
            old(self).wf(*old(strings)),
            old(strings).wf(),
            old(self).rows() <= u32::MAX,
            old(self).rows() < usize::MAX,
        ensures
            final(strings).wf(),
            extends(*old(strings), *final(strings)),
            if !old(self).spec_accepts(value@) {
                fails_with(
                    result,
                    ErrorCode::QueryType,
                    "property value does not match column type"@,
                ) && *final(self) == *old(self) && *final(strings) == *old(strings)
            } else {
                match result {
                    Ok(_) => grown(
                        *old(self),
                        *old(strings),
                        *final(self),
                        *final(strings),
                        value@,
                    ),
                    Err(error) => {
                        &&& error.code == ErrorCode::ResultBudgetExceeded
                        &&& final(strings)@ == old(strings)@
                        &&& unchanged(*old(self), *old(strings), *final(self), *final(strings))
                        &&& old(self).cannot_take(value@, *old(strings))
                        &&& old(self).take_message(value@, *old(strings), error.message@)
                    },
                }
            },
            result is Ok ==> final(strings)@ == learned(old(strings)@, value@),
            result is Ok ==> final(self).clean(old(self).rows()),
            result is Ok && old(self).tidy() ==> final(self).tidy(),
    {
        if !self.accepts(value) {
            proof {
                strings.lemma_extends(*strings);
            }
            return Err(mismatch());
        }
        let ghost before = *self;
        let ghost known = *strings;
        let result = match value {
            ScalarValue::Null => self.push_null(),
            ScalarValue::Boolean(flag) => match self {
                TypedColumn::Boolean { values, validity } => {
                    values.push(*flag);
                    validity.push(true)
                },
                _ => Err(mismatch()),
            },
            ScalarValue::Integer(number) => match self {
                TypedColumn::Integer { values, validity } => {
                    values.push(*number);
                    validity.push(true)
                },
                _ => Err(mismatch()),
            },
            ScalarValue::Float(bits) => match self {
                TypedColumn::Float { values, validity } => {
                    values.push(*bits);
                    validity.push(true)
                },
                _ => Err(mismatch()),
            },
            ScalarValue::String(text) => match self {
                TypedColumn::String { values, validity } => match strings.intern(text.as_str()) {
                    Ok(id) => {
                        values.push(id);
                        validity.push(true)
                    },
                    Err(error) => Err(error),
                },
                _ => Err(mismatch()),
            },
            ScalarValue::Bytes(bytes) => match self {
                TypedColumn::Bytes { values, validity } => match values.push(bytes.as_slice()) {
                    Ok(_) => validity.push(true),
                    Err(error) => Err(error),
                },
                _ => Err(mismatch()),
            },
            ScalarValue::Date(days) => match self {
                TypedColumn::Date { values, validity } => {
                    values.push(*days);
                    validity.push(true)
                },
                _ => Err(mismatch()),
            },
            ScalarValue::LocalTime(nanos) => match self {
                TypedColumn::LocalTime { values, validity } => {
                    values.push(*nanos);
                    validity.push(true)
                },
                _ => Err(mismatch()),
            },
            ScalarValue::ZonedTime { nanos: n, offset_seconds: o } => match self {
                TypedColumn::ZonedTime { nanos, offsets, validity } => {
                    nanos.push(*n);
                    offsets.push(*o);
                    validity.push(true)
                },
                _ => Err(mismatch()),
            },
            ScalarValue::LocalDateTime { seconds: s, nanos: n } => match self {
                TypedColumn::LocalDateTime { seconds, nanos, validity } => {
                    seconds.push(*s);
                    nanos.push(*n);
                    validity.push(true)
                },
                _ => Err(mismatch()),
            },
            ScalarValue::ZonedDateTime { seconds: s, nanos: n, timezone: t } => match self {
                TypedColumn::ZonedDateTime { seconds, nanos, timezones, validity } =>
                    match strings.intern(t.as_str()) {
                    Ok(id) => {
                        seconds.push(*s);
                        nanos.push(*n);
                        timezones.push(id);
                        validity.push(true)
                    },
                    Err(error) => Err(error),
                },
                _ => Err(mismatch()),
            },
            ScalarValue::Duration { months: m, days: d, seconds: s, nanos: n } => match self {
                TypedColumn::Duration { months, days, seconds, nanos, validity } => {
                    months.push(*m);
                    days.push(*d);
                    seconds.push(*s);
                    nanos.push(*n);
                    validity.push(true)
                },
                _ => Err(mismatch()),
            },
            ScalarValue::List(list) => match self {
                TypedColumn::List { values, validity } =>
                    match values.push(copy_bytes(list.as_bytes())) {
                    Ok(_) => validity.push(true),
                    Err(error) => Err(error),
                },
                _ => Err(mismatch()),
            },
            ScalarValue::Entries(map) => match self {
                TypedColumn::Entries { values, validity } =>
                    match values.push(copy_bytes(map.as_bytes())) {
                    Ok(_) => validity.push(true),
                    Err(error) => Err(error),
                },
                _ => Err(mismatch()),
            },
        };
        proof {
            known.lemma_extends(*strings);
            if result is Ok && value@ != Scalar::Null {
                lemma_same_texts(before, known, *strings);
                assert(self.sound());
                assert forall|row: int| 0 <= row < before.rows() implies #[trigger] self.cell(
                    row,
                    *strings,
                ) == before.cell(row, known) by {
                    assert(before.cell(row, *strings) == before.cell(row, known));
                    assert(self.spec_validity().present(row) == before.spec_validity().present(
                        row,
                    ));
                }
                assert(self.spec_validity().present(before.rows()));
                if before.tidy() {
                    assert forall|row: int| 0 <= row < self.rows() implies #[trigger] self.clean(
                        row,
                    ) by {
                        if row < before.rows() {
                            assert(before.clean(row));
                            assert(self.spec_validity().present(row)
                                == before.spec_validity().present(row));
                        }
                    }
                }
                lemma_all_resolve(*strings);
                assert(self.cell(before.rows(), *strings) == Some(value@));
                assert forall|row: int| 0 <= row < self.rows() implies (#[trigger] self.cell(
                    row,
                    *strings,
                )) is Some by {
                    if row < before.rows() {
                        assert(before.cell(row, known) is Some);
                    }
                }
            }
            if result is Err {
                lemma_same_texts(before, known, *strings);
                assert forall|row: int| 0 <= row < before.rows() implies #[trigger] self.cell(
                    row,
                    *strings,
                ) == before.cell(row, known) by {
                    assert(before.cell(row, *strings) == before.cell(row, known));
                }
                assert forall|row: int| 0 <= row < self.rows() implies (#[trigger] self.cell(
                    row,
                    *strings,
                )) is Some by {
                    assert(before.cell(row, known) is Some);
                }
            }
        }
        result
    }

    /// No column has room for the value: its text cannot be added to the dictionary, or its bytes
    /// cannot be counted by 32 bits.
    pub open spec fn never_fits(value: Scalar, strings: Dictionary) -> bool {
        match value {
            Scalar::Text(text) => !strings@.contains(text) && (strings.exhausted()
                || strings.storage_full(encode_utf8(text).len() as int)),
            Scalar::ZonedDateTime(_, _, text) => !strings@.contains(text) && (strings.exhausted()
                || strings.storage_full(encode_utf8(text).len() as int)),
            Scalar::Bytes(bytes) => bytes.len() > u32::MAX,
            Scalar::List(bytes) => bytes.len() > u32::MAX,
            Scalar::Entries(bytes) => bytes.len() > u32::MAX,
            _ => false,
        }
    }

    /// A column without a byte so far has room for every value that fits at all.
    pub proof fn lemma_first_value_fits(&self, rows: int, value: Scalar, strings: Dictionary)
        requires
            self.sound(),
            self.packed(rows, 0),
            0 <= rows <= u32::MAX,
            rows < usize::MAX,
            self.cannot_take(value, strings),
        ensures
            TypedColumn::never_fits(value, strings),
    {
        match (self, value) {
            (TypedColumn::Bytes { values, .. }, Scalar::Bytes(bytes)) => {
                if bytes.len() <= u32::MAX {
                    values.lemma_tight(rows, bytes.len() as int);
                }
            },
            (TypedColumn::List { values, .. }, Scalar::List(bytes)) => {
                if bytes.len() <= u32::MAX {
                    values.lemma_tight(rows, bytes.len() as int);
                }
            },
            (TypedColumn::Entries { values, .. }, Scalar::Entries(bytes)) => {
                if bytes.len() <= u32::MAX {
                    values.lemma_tight(rows, bytes.len() as int);
                }
            },
            _ => {},
        }
    }

    /// The dictionary or the bytes of the column have no room for the value.
    pub open spec fn cannot_take(&self, value: Scalar, strings: Dictionary) -> bool {
        match value {
            Scalar::Text(text) => !strings@.contains(text) && (strings.exhausted()
                || strings.storage_full(encode_utf8(text).len() as int)),
            Scalar::ZonedDateTime(_, _, text) => !strings@.contains(text) && (strings.exhausted()
                || strings.storage_full(encode_utf8(text).len() as int)),
            Scalar::Bytes(bytes) => match self {
                TypedColumn::Bytes { values, .. } => flat(values@).len() + bytes.len() > u32::MAX
                    || values.arena_full(bytes.len() as int),
                _ => false,
            },
            Scalar::List(bytes) => match self {
                TypedColumn::List { values, .. } => flat(values@).len() + bytes.len() > u32::MAX
                    || values.arena_full(bytes.len() as int),
                _ => false,
            },
            Scalar::Entries(bytes) => match self {
                TypedColumn::Entries { values, .. } => flat(values@).len() + bytes.len() > u32::MAX
                    || values.arena_full(bytes.len() as int),
                _ => false,
            },
            _ => false,
        }
    }

    /// What is said of a value that the dictionary or the bytes of the column have no room for.
    pub open spec fn take_message(
        &self,
        value: Scalar,
        strings: Dictionary,
        message: Seq<char>,
    ) -> bool {
        match (self, text_in(value)) {
            (_, Some(text)) => strings.full_entry(encode_utf8(text).len() as int, message),
            (TypedColumn::Bytes { values, .. }, _) => values.full_row(
                flat(values@).len() as int,
                payload_len(value),
                message,
            ),
            (TypedColumn::List { values, .. }, _) => values.full_row(
                flat(values@).len() as int,
                payload_len(value),
                message,
            ),
            (TypedColumn::Entries { values, .. }, _) => values.full_row(
                flat(values@).len() as int,
                payload_len(value),
                message,
            ),
            _ => false,
        }
    }

    /// What is said of a value that cannot take the place of that of a row.
    pub open spec fn replace_message(
        &self,
        row: int,
        value: Scalar,
        strings: Dictionary,
        message: Seq<char>,
    ) -> bool {
        match (self, text_in(value)) {
            (_, Some(text)) => strings.full_entry(encode_utf8(text).len() as int, message),
            (TypedColumn::Bytes { values, .. }, _) => values.full_row(
                flat(values@).len() - values@[row].len(),
                payload_len(value),
                message,
            ),
            (TypedColumn::List { values, .. }, _) => values.full_row(
                flat(values@).len() - values@[row].len(),
                payload_len(value),
                message,
            ),
            (TypedColumn::Entries { values, .. }, _) => values.full_row(
                flat(values@).len() - values@[row].len(),
                payload_len(value),
                message,
            ),
            _ => false,
        }
    }

    /// Why a value that the column accepts does not take the place of that of a row: there is no room,
    /// some part has no such row, or the bitmap has no word for it.
    pub open spec fn set_fault(
        &self,
        row: int,
        value: Scalar,
        strings: Dictionary,
        error: Error,
    ) -> bool {
        ||| {
            &&& value != Scalar::Null
            &&& error.code == ErrorCode::ResultBudgetExceeded
            &&& self.cannot_replace(row, value, strings)
            &&& self.replace_message(row, value, strings, error.message@)
            &&& text_in(value) is None ==> !self.lacks(row)
        }
        ||| {
            &&& self.lacks(row)
            &&& if self.packed_rows() {
                error.is(ErrorCode::InvalidData, "packed-list row is out of bounds"@)
            } else {
                error.is(ErrorCode::CorruptStorage, "paged vector index is out of bounds"@)
            }
            &&& value == Scalar::Null ==> *self is List || *self is Entries
        }
        ||| {
            &&& row / 64 >= self.spec_validity().words@.len()
            &&& error.is(ErrorCode::CorruptStorage, "validity bitmap row has no backing word"@)
        }
    }

    /// The values of the rows stand one behind the other.
    pub open spec fn packed_rows(&self) -> bool {
        match self {
            TypedColumn::Bytes { .. } => true,
            TypedColumn::List { .. } => true,
            TypedColumn::Entries { .. } => true,
            _ => false,
        }
    }

    /// The dictionary or the bytes of the column have no room for the value in place of that of a row.
    pub open spec fn cannot_replace(&self, row: int, value: Scalar, strings: Dictionary) -> bool {
        match value {
            Scalar::Bytes(bytes) => match self {
                TypedColumn::Bytes { values, .. } => flat(values@).len() - values@[row].len()
                    + bytes.len() > u32::MAX || values.arena_full(bytes.len() as int),
                _ => false,
            },
            Scalar::List(bytes) => match self {
                TypedColumn::List { values, .. } => flat(values@).len() - values@[row].len()
                    + bytes.len() > u32::MAX || values.arena_full(bytes.len() as int),
                _ => false,
            },
            Scalar::Entries(bytes) => match self {
                TypedColumn::Entries { values, .. } => flat(values@).len() - values@[row].len()
                    + bytes.len() > u32::MAX || values.arena_full(bytes.len() as int),
                _ => false,
            },
            _ => self.cannot_take(value, strings),
        }
    }

    /// Some part of the column has no such row.
    pub open spec fn lacks(&self, row: int) -> bool {
        match self {
            TypedColumn::Boolean { values, .. } => row >= values@.len(),
            TypedColumn::Integer { values, .. } => row >= values@.len(),
            TypedColumn::Float { values, .. } => row >= values@.len(),
            TypedColumn::String { values, .. } => row >= values@.len(),
            TypedColumn::Bytes { values, .. } => row >= values@.len(),
            TypedColumn::Date { values, .. } => row >= values@.len(),
            TypedColumn::LocalTime { values, .. } => row >= values@.len(),
            TypedColumn::ZonedTime { nanos, offsets, .. } =>
                row >= nanos@.len() || row >= offsets@.len(),
            TypedColumn::LocalDateTime { seconds, nanos, .. } =>
                row >= seconds@.len() || row >= nanos@.len(),
            TypedColumn::ZonedDateTime { seconds, nanos, timezones, .. } =>
                row >= seconds@.len() || row >= nanos@.len() || row >= timezones@.len(),
            TypedColumn::Duration { months, days, seconds, nanos, .. } =>
                row >= months@.len() || row >= days@.len() || row >= seconds@.len()
                    || row >= nanos@.len(),
            TypedColumn::List { values, .. } => row >= values@.len(),
            TypedColumn::Entries { values, .. } => row >= values@.len(),
        }
    }

    /// Parts of fixed width alone, none of them in the dictionary.
    pub open spec fn fixed_width(&self) -> bool {
        match self {
            TypedColumn::String { .. } => false,
            TypedColumn::Bytes { .. } => false,
            TypedColumn::ZonedDateTime { .. } => false,
            TypedColumn::List { .. } => false,
            TypedColumn::Entries { .. } => false,
            _ => true,
        }
    }

    /// Replaces the value of a row.
    #[verifier::rlimit(100)]
    #[verifier::spinoff_prover]
    pub fn set(&mut self, row: usize, value: &ScalarValue, strings: &mut Dictionary) -> (result:
        Result<()>)
        requires
            old(self).readable(),
            old(self).rows() <= u32::MAX as int + 1,
            old(strings).wf(),
        ensures
            final(strings).wf(),
            extends(*old(strings), *final(strings)),
            final(self).readable(),
            final(self).kind() == old(self).kind(),
            final(self).rows() == old(self).rows(),
            row >= old(self).rows() ==> fails_with(
                result,
                ErrorCode::InvalidData,
                "column row is out of bounds"@,
            ) && *final(self) == *old(self) && *final(strings) == *old(strings),
            row < old(self).rows() && !old(self).spec_accepts(value@) ==> fails_with(
                result,
                ErrorCode::QueryType,
                "property value does not match column type"@,
            ) && *final(self) == *old(self) && *final(strings) == *old(strings),
            row < old(self).rows() && old(self).spec_accepts(value@) ==> match result {
                Ok(_) => {
                    &&& value@ != Scalar::Null || *old(self) is List || *old(self) is Entries
                        ==> !old(self).lacks(row as int)
                    &&& row / 64 < old(self).spec_validity().words@.len()
                },
                Err(error) => old(self).set_fault(row as int, value@, *old(strings), error),
            },
            row < old(self).rows() && old(self).spec_accepts(value@) && old(self).wf(*old(strings))
                ==> match result {
                Ok(_) => replaced(
                    *old(self),
                    *old(strings),
                    *final(self),
                    *final(strings),
                    row as int,
                    value@,
                ),
                Err(error) => {
                    &&& error.code == ErrorCode::ResultBudgetExceeded
                    &&& final(strings)@ == old(strings)@
                    &&& unchanged(*old(self), *old(strings), *final(self), *final(strings))
                    &&& old(self).cannot_replace(row as int, value@, *old(strings))
                    &&& old(self).replace_message(
                        row as int,
                        value@,
                        *old(strings),
                        error.message@,
                    )
                },
            },
            old(self).wf(*old(strings)) && row < old(self).rows() && value@ == Scalar::Null
                ==> result is Ok && *final(strings) == *old(strings),
            old(self).wf(*old(strings)) && row < old(self).rows() && old(self).fixed_width()
                && old(self).spec_accepts(value@) ==> result is Ok,
            result is Ok ==> final(strings)@ == learned(old(strings)@, value@),
            old(self).wf(*old(strings)) && result is Ok ==> final(self).clean(row as int),
            old(self).wf(*old(strings)) && result is Ok && old(self).tidy() ==> final(self).tidy(),
    {
        proof {
            strings.lemma_extends(*strings);
        }
        if row >= self.len() {
            return Err(Error::invalid_data("column row is out of bounds"));
        }
        if !self.accepts(value) {
            return Err(mismatch());
        }
        let ghost before = *self;
        let ghost known = *strings;
        let result = match value {
            ScalarValue::Null => self.clear(row),
            ScalarValue::Boolean(flag) => match self {
                TypedColumn::Boolean { values, validity } => set_one(values, validity, row, *flag),
                _ => Err(mismatch()),
            },
            ScalarValue::Integer(number) => match self {
                TypedColumn::Integer { values, validity } => set_one(
                    values,
                    validity,
                    row,
                    *number,
                ),
                _ => Err(mismatch()),
            },
            ScalarValue::Float(bits) => match self {
                TypedColumn::Float { values, validity } => set_one(values, validity, row, *bits),
                _ => Err(mismatch()),
            },
            ScalarValue::Date(days) => match self {
                TypedColumn::Date { values, validity } => set_one(values, validity, row, *days),
                _ => Err(mismatch()),
            },
            ScalarValue::LocalTime(nanos) => match self {
                TypedColumn::LocalTime { values, validity } => set_one(
                    values,
                    validity,
                    row,
                    *nanos,
                ),
                _ => Err(mismatch()),
            },
            ScalarValue::ZonedTime { nanos: n, offset_seconds: o } => match self {
                TypedColumn::ZonedTime { nanos, offsets, validity } => set_two(
                    nanos,
                    offsets,
                    validity,
                    row,
                    *n,
                    *o,
                ),
                _ => Err(mismatch()),
            },
            ScalarValue::LocalDateTime { seconds: s, nanos: n } => match self {
                TypedColumn::LocalDateTime { seconds, nanos, validity } => set_two(
                    seconds,
                    nanos,
                    validity,
                    row,
                    *s,
                    *n,
                ),
                _ => Err(mismatch()),
            },
            ScalarValue::Duration { months: m, days: d, seconds: s, nanos: n } => match self {
                TypedColumn::Duration { months, days, seconds, nanos, validity } => {
                    match replace_two(months, days, row, *m, *d) {
                        Ok(_) => set_two(seconds, nanos, validity, row, *s, *n),
                        Err(error) => Err(error),
                    }
                },
                _ => Err(mismatch()),
            },
            _ => self.set_wide(row, value, strings),
        };
        proof {
            if value@ == Scalar::Null {
                if before.wf(known) {
                    lemma_cleared(before, *self, row as int, known);
                    if before.tidy() {
                        assert forall|other: int| 0 <= other < self.rows() implies #[trigger] self.clean(
                            other,
                        ) by {
                            assert(before.clean(other));
                        }
                    }
                }
            } else if result is Ok && before.wf(known) {
                lemma_stored(before, known, *self, *strings, row as int, value@);
                if before.tidy() {
                    assert forall|other: int| 0 <= other < self.rows() implies #[trigger] self.clean(
                        other,
                    ) by {
                        assert(before.clean(other));
                    }
                }
            }
        }
        result
    }

    /// Replaces a value that is not of fixed width.
    #[verifier::rlimit(60)]
    #[verifier::spinoff_prover]
    fn set_wide(&mut self, row: usize, value: &ScalarValue, strings: &mut Dictionary) -> (result:
        Result<()>)
        requires
            old(self).readable(),
            row < old(self).rows() <= u32::MAX as int + 1,
            old(self).spec_accepts(value@),
            value@ != Scalar::Null,
            !old(self).fixed_width(),
            old(strings).wf(),
        ensures
            final(strings).wf(),
            extends(*old(strings), *final(strings)),
            final(self).readable(),
            final(self).kind() == old(self).kind(),
            final(self).rows() == old(self).rows(),
            match result {
                Ok(_) => !old(self).lacks(row as int) && row / 64 < old(
                    self,
                ).spec_validity().words@.len(),
                Err(error) => old(self).set_fault(row as int, value@, *old(strings), error),
            },
            result is Ok ==> final(strings)@ == learned(old(strings)@, value@),
            old(self).wf(*old(strings)) ==> match result {
                Ok(_) => stored(*old(self), *final(self), *final(strings), row as int, value@),
                Err(error) => {
                    &&& error.code == ErrorCode::ResultBudgetExceeded
                    &&& final(strings)@ == old(strings)@
                    &&& unchanged(*old(self), *old(strings), *final(self), *final(strings))
                    &&& old(self).cannot_replace(row as int, value@, *old(strings))
                    &&& old(self).replace_message(
                        row as int,
                        value@,
                        *old(strings),
                        error.message@,
                    )
                },
            },
    {
        let ghost before = *self;
        let ghost known = *strings;
        proof {
            strings.lemma_extends(*strings);
        }
        let result = match value {
            ScalarValue::String(text) => match self {
                TypedColumn::String { values, validity } => match strings.intern(text.as_str()) {
                    Ok(id) => set_one(values, validity, row, id),
                    Err(error) => Err(error),
                },
                _ => Err(mismatch()),
            },
            ScalarValue::ZonedDateTime { seconds: s, nanos: n, timezone: t } => match self {
                TypedColumn::ZonedDateTime { seconds, nanos, timezones, validity } => {
                    match strings.intern(t.as_str()) {
                        Ok(id) => match replace_two(seconds, nanos, row, *s, *n) {
                            Ok(_) => set_one(timezones, validity, row, id),
                            Err(error) => Err(error),
                        },
                        Err(error) => Err(error),
                    }
                },
                _ => Err(mismatch()),
            },
            ScalarValue::Bytes(bytes) => match self {
                TypedColumn::Bytes { values, validity } => {
                    match values.replace(row as u32, bytes.as_slice()) {
                        Ok(_) => mark(validity, row),
                        Err(error) => Err(error),
                    }
                },
                _ => Err(mismatch()),
            },
            ScalarValue::List(list) => match self {
                TypedColumn::List { values, validity } => {
                    match values.replace(row as u32, copy_bytes(list.as_bytes())) {
                        Ok(_) => mark(validity, row),
                        Err(error) => Err(error),
                    }
                },
                _ => Err(mismatch()),
            },
            ScalarValue::Entries(map) => match self {
                TypedColumn::Entries { values, validity } => {
                    match values.replace(row as u32, copy_bytes(map.as_bytes())) {
                        Ok(_) => mark(validity, row),
                        Err(error) => Err(error),
                    }
                },
                _ => Err(mismatch()),
            },
            _ => Err(mismatch()),
        };
        proof {
            known.lemma_extends(*strings);
            lemma_all_resolve(*strings);
            if before.wf(known) && result is Err {
                lemma_same_texts(before, known, *strings);
                assert forall|other: int| 0 <= other < before.rows() implies #[trigger] self.cell(
                    other,
                    *strings,
                ) == before.cell(other, known) by {
                    assert(before.cell(other, *strings) == before.cell(other, known));
                }
                assert forall|other: int| 0 <= other < self.rows() implies (#[trigger] self.cell(
                    other,
                    *strings,
                )) is Some by {
                    assert(before.cell(other, known) is Some);
                }
            }
        }
        result
    }

    /// Takes the value of a row away.
    #[verifier::rlimit(40)]
    #[verifier::spinoff_prover]
    fn clear(&mut self, row: usize) -> (result: Result<()>)
        requires
            old(self).readable(),
            row < old(self).rows() <= u32::MAX as int + 1,
        ensures
            final(self).readable(),
            final(self).kind() == old(self).kind(),
            final(self).rows() == old(self).rows(),
            match result {
                Ok(_) => {
                    &&& *old(self) is List || *old(self) is Entries ==> !old(self).lacks(row as int)
                    &&& row / 64 < old(self).spec_validity().words@.len()
                },
                Err(error) => forall|strings: Dictionary| #[trigger]
                    old(self).set_fault(row as int, Scalar::Null, strings, error),
            },
            old(self).sound() ==> result is Ok && final(self).sound(),
            old(self).sound() ==> !final(self).spec_validity().present(row as int),
            old(self).sound() ==> final(self).document_rows() == old(self).document_rows().update(
                row as int,
                Seq::empty(),
            ) || !(*old(self) is List || *old(self) is Entries),
            forall|strings: Dictionary, other: int|
                old(self).sound() && other != row && 0 <= other < old(self).rows()
                    ==> #[trigger] final(self).cell(other, strings) == old(self).cell(
                    other,
                    strings,
                ),
            forall|other: int|
                old(self).sound() && other != row && 0 <= other < old(self).rows()
                    ==> #[trigger] final(self).spec_validity().present(other) == old(
                    self).spec_validity().present(other),
    {
        let ghost before = *self;
        match self {
            TypedColumn::List { values, .. } => {
                match values.replace(row as u32, Vec::new()) {
                    Ok(_) => {},
                    Err(error) => {
                        return Err(error);
                    },
                }
            },
            TypedColumn::Entries { values, .. } => {
                match values.replace(row as u32, Vec::new()) {
                    Ok(_) => {},
                    Err(error) => {
                        return Err(error);
                    },
                }
            },
            _ => {},
        }
        let ghost emptied = *self;
        let result = self.validity_mut().set(row, false);
        proof {
            if before.sound() {
                assert forall|other: int|
                    other != row
                        && 0 <= other < before.rows() implies #[trigger] self.spec_validity().present(
                    other,
                ) == before.spec_validity().present(other) by {}
            }
        }
        result
    }
}

fn mismatch() -> (error: Error)
    ensures
        error.is(ErrorCode::QueryType, "property value does not match column type"@),
{
    Error::new(ErrorCode::QueryType, "property value does not match column type")
}

/// A dictionary that has what another has, and possibly more behind it.
pub open spec fn extends(before: Dictionary, after: Dictionary) -> bool {
    before@.len() <= after@.len() && after@.take(before@.len() as int) == before@
}

/// The text that a value puts in the dictionary.
pub open spec fn text_in(value: Scalar) -> Option<Seq<char>> {
    match value {
        Scalar::Text(text) => Some(text),
        Scalar::ZonedDateTime(_, _, timezone) => Some(timezone),
        _ => None,
    }
}

/// The bytes that a value puts in its column.
pub open spec fn payload_len(value: Scalar) -> int {
    match value {
        Scalar::Bytes(bytes) => bytes.len() as int,
        Scalar::List(bytes) => bytes.len() as int,
        Scalar::Entries(bytes) => bytes.len() as int,
        _ => 0,
    }
}

/// The texts of a dictionary once a value is stored: its text comes last, if it is new.
pub open spec fn learned(texts: Seq<Seq<char>>, value: Scalar) -> Seq<Seq<char>> {
    match text_in(value) {
        Some(text) => if texts.contains(text) {
            texts
        } else {
            texts.push(text)
        },
        None => texts,
    }
}

/// A column with the value of one row replaced.
pub open spec fn replaced(
    before: TypedColumn,
    known: Dictionary,
    after: TypedColumn,
    strings: Dictionary,
    row: int,
    value: Scalar,
) -> bool {
    &&& after.wf(strings)
    &&& after.kind() == before.kind()
    &&& after.rows() == before.rows()
    &&& after.cell(row, strings) == Some(value)
    &&& forall|other: int|
        0 <= other < before.rows() && other != row ==> #[trigger] after.cell(other, strings)
            == before.cell(other, known)
}

/// The bitmap of a column after one of its rows got a value.
pub open spec fn marked_row(before: Validity, after: Validity, row: int) -> bool {
    &&& after.wf()
    &&& after.len == before.len
    &&& after.present(row)
    &&& forall|other: int|
        0 <= other < before.len && other != row ==> #[trigger] after.present(other)
            == before.present(other)
}

/// The parts of a column after one of its rows got a value.
pub open spec fn stored(
    before: TypedColumn,
    after: TypedColumn,
    strings: Dictionary,
    row: int,
    value: Scalar,
) -> bool {
    &&& marked_row(before.spec_validity(), after.spec_validity(), row)
    &&& after.readable()
    &&& match (before, after, value) {
            (
                TypedColumn::Boolean { values: values0, .. },
                TypedColumn::Boolean { values: values1, .. },
                Scalar::Boolean(x),
            ) => {
                &&& values1@ == values0@.update(row, x)
            },
            (
                TypedColumn::Integer { values: values0, .. },
                TypedColumn::Integer { values: values1, .. },
                Scalar::Integer(x),
            ) => {
                &&& values1@ == values0@.update(row, x)
            },
            (
                TypedColumn::Float { values: values0, .. },
                TypedColumn::Float { values: values1, .. },
                Scalar::Float(x),
            ) => {
                &&& values1@ == values0@.update(row, x)
            },
            (
                TypedColumn::String { values: values0, .. },
                TypedColumn::String { values: values1, .. },
                Scalar::Text(x),
            ) => {
                &&& values1@.len() == values0@.len()
                &&& resolved(strings, values1@[row]) == Some(x)
                &&& forall|other: int|
                    0 <= other < values0@.len() && other != row ==> #[trigger] values1@[other]
                        == values0@[other]
            },
            (
                TypedColumn::Bytes { values: values0, .. },
                TypedColumn::Bytes { values: values1, .. },
                Scalar::Bytes(x),
            ) => {
                &&& values1@ == values0@.update(row, x)
            },
            (
                TypedColumn::Date { values: values0, .. },
                TypedColumn::Date { values: values1, .. },
                Scalar::Date(x),
            ) => {
                &&& values1@ == values0@.update(row, x)
            },
            (
                TypedColumn::LocalTime { values: values0, .. },
                TypedColumn::LocalTime { values: values1, .. },
                Scalar::LocalTime(x),
            ) => {
                &&& values1@ == values0@.update(row, x)
            },
            (
                TypedColumn::ZonedTime { nanos: nanos0, offsets: offsets0, .. },
                TypedColumn::ZonedTime { nanos: nanos1, offsets: offsets1, .. },
                Scalar::ZonedTime(x, y),
            ) => {
                &&& nanos1@ == nanos0@.update(row, x)
                &&& offsets1@ == offsets0@.update(row, y)
            },
            (
                TypedColumn::LocalDateTime { seconds: seconds0, nanos: nanos0, .. },
                TypedColumn::LocalDateTime { seconds: seconds1, nanos: nanos1, .. },
                Scalar::LocalDateTime(x, y),
            ) => {
                &&& seconds1@ == seconds0@.update(row, x)
                &&& nanos1@ == nanos0@.update(row, y)
            },
            (
                TypedColumn::ZonedDateTime { seconds: seconds0, nanos: nanos0, timezones: timezones0,
                    .. },
                TypedColumn::ZonedDateTime { seconds: seconds1, nanos: nanos1, timezones: timezones1,
                    .. },
                Scalar::ZonedDateTime(x, y, z),
            ) => {
                &&& seconds1@ == seconds0@.update(row, x)
                &&& nanos1@ == nanos0@.update(row, y)
                &&& timezones1@.len() == timezones0@.len()
                &&& resolved(strings, timezones1@[row]) == Some(z)
                &&& forall|other: int|
                    0 <= other < timezones0@.len() && other != row ==> #[trigger] timezones1@[other]
                        == timezones0@[other]
            },
            (
                TypedColumn::Duration { months: months0, days: days0, seconds: seconds0, nanos: nanos0,
                    .. },
                TypedColumn::Duration { months: months1, days: days1, seconds: seconds1, nanos: nanos1,
                    .. },
                Scalar::Duration(x, y, z, w),
            ) => {
                &&& months1@ == months0@.update(row, x)
                &&& days1@ == days0@.update(row, y)
                &&& seconds1@ == seconds0@.update(row, z)
                &&& nanos1@ == nanos0@.update(row, w)
            },
            (
                TypedColumn::List { values: values0, .. },
                TypedColumn::List { values: values1, .. },
                Scalar::List(x),
            ) => {
                &&& values1@ == values0@.update(row, x)
            },
            (
                TypedColumn::Entries { values: values0, .. },
                TypedColumn::Entries { values: values1, .. },
                Scalar::Entries(x),
            ) => {
                &&& values1@ == values0@.update(row, x)
            },
            _ => false,
        }
}

#[verifier::rlimit(60)]
#[verifier::spinoff_prover]
proof fn lemma_stored(
    before: TypedColumn,
    known: Dictionary,
    after: TypedColumn,
    strings: Dictionary,
    row: int,
    value: Scalar,
)
    requires
        before.wf(known),
        known.wf(),
        strings.wf(),
        extends(known, strings),
        0 <= row < before.rows(),
        stored(before, after, strings, row, value),
    ensures
        replaced(before, known, after, strings, row, value),
{
    lemma_same_texts(before, known, strings);
    assert(after.sound());
    assert forall|other: int| 0 <= other < before.rows() && other != row implies #[trigger] after.cell(
        other,
        strings,
    ) == before.cell(other, known) by {
        assert(before.cell(other, strings) == before.cell(other, known));
        assert(after.spec_validity().present(other) == before.spec_validity().present(other));
    }
    assert forall|other: int| 0 <= other < after.rows() implies (#[trigger] after.cell(
        other,
        strings,
    )) is Some by {
        assert(before.cell(other, known) is Some);
    }
}

proof fn lemma_cleared(before: TypedColumn, after: TypedColumn, row: int, strings: Dictionary)
    requires
        before.wf(strings),
        after.sound(),
        after.kind() == before.kind(),
        after.rows() == before.rows(),
        0 <= row < before.rows(),
        !after.spec_validity().present(row),
        forall|other: int|
            other != row && 0 <= other < before.rows() ==> #[trigger] after.cell(other, strings)
                == before.cell(other, strings),
    ensures
        replaced(before, strings, after, strings, row, Scalar::Null),
{
    assert forall|other: int| 0 <= other < after.rows() implies (#[trigger] after.cell(
        other,
        strings,
    )) is Some by {
        assert(before.cell(other, strings) is Some);
    }
}

/// The bitmap has no word for a row.
spec fn wordless(validity: Validity, row: int, error: Error) -> bool {
    &&& row / 64 >= validity.words@.len()
    &&& error.is(ErrorCode::CorruptStorage, "validity bitmap row has no backing word"@)
}

fn mark(validity: &mut Validity, row: usize) -> (result: Result<()>)
    requires
        old(validity).words.wf(),
    ensures
        final(validity).words.wf(),
        final(validity).len == old(validity).len,
        old(validity).wf() && row < old(validity).len ==> result is Ok && marked_row(
            *old(validity),
            *final(validity),
            row as int,
        ),
        row < old(validity).len ==> match result {
            Ok(_) => row / 64 < old(validity).words@.len(),
            Err(error) => wordless(*old(validity), row as int, error),
        },
{
    validity.set(row, true)
}

fn replace_two<A: Clone, B: Clone>(
    first: &mut PagedVec<A>,
    second: &mut PagedVec<B>,
    row: usize,
    left: A,
    right: B,
) -> (result: Result<()>)
    requires
        old(first).wf(),
        old(second).wf(),
        clone_faithful::<A>(),
        clone_faithful::<B>(),
    ensures
        final(first).wf(),
        final(second).wf(),
        match result {
            Ok(_) => {
                &&& row < old(first)@.len()
                &&& row < old(second)@.len()
                &&& final(first)@ == old(first)@.update(row as int, left)
                &&& final(second)@ == old(second)@.update(row as int, right)
            },
            Err(error) => error.is(
                ErrorCode::CorruptStorage,
                "paged vector index is out of bounds"@,
            ) && (row >= old(first)@.len() || row >= old(second)@.len()),
        },
{
    match replace_paged(first, row, left) {
        Ok(_) => replace_paged(second, row, right),
        Err(error) => Err(error),
    }
}

fn set_one<T: Clone>(
    values: &mut PagedVec<T>,
    validity: &mut Validity,
    row: usize,
    value: T,
) -> (result: Result<()>)
    requires
        old(values).wf(),
        clone_faithful::<T>(),
        old(validity).words.wf(),
    ensures
        final(values).wf(),
        final(validity).words.wf(),
        final(validity).len == old(validity).len,
        row >= old(values)@.len() ==> fails_with(
            result,
            ErrorCode::CorruptStorage,
            "paged vector index is out of bounds"@,
        ),
        row < old(values)@.len() && row < old(validity).len ==> match result {
            Ok(_) => row / 64 < old(validity).words@.len(),
            Err(error) => wordless(*old(validity), row as int, error),
        },
        row < old(values)@.len() ==> final(values)@ == old(values)@.update(row as int, value),
        row < old(values)@.len() && old(validity).wf() && row < old(validity).len ==> result is Ok
            && marked_row(*old(validity), *final(validity), row as int),
{
    match replace_paged(values, row, value) {
        Ok(_) => mark(validity, row),
        Err(error) => Err(error),
    }
}

fn set_two<A: Clone, B: Clone>(
    first: &mut PagedVec<A>,
    second: &mut PagedVec<B>,
    validity: &mut Validity,
    row: usize,
    left: A,
    right: B,
) -> (result: Result<()>)
    requires
        old(first).wf(),
        old(second).wf(),
        clone_faithful::<A>(),
        clone_faithful::<B>(),
        old(validity).words.wf(),
    ensures
        final(first).wf(),
        final(second).wf(),
        final(validity).words.wf(),
        final(validity).len == old(validity).len,
        row >= old(first)@.len() || row >= old(second)@.len() ==> fails_with(
            result,
            ErrorCode::CorruptStorage,
            "paged vector index is out of bounds"@,
        ),
        row < old(first)@.len() && row < old(second)@.len() && row < old(validity).len
            ==> match result {
            Ok(_) => row / 64 < old(validity).words@.len(),
            Err(error) => wordless(*old(validity), row as int, error),
        },
        row < old(first)@.len() && row < old(second)@.len() && old(validity).wf() && row < old(
            validity).len ==> {
            &&& result is Ok
            &&& final(first)@ == old(first)@.update(row as int, left)
            &&& final(second)@ == old(second)@.update(row as int, right)
            &&& marked_row(*old(validity), *final(validity), row as int)
        },
{
    match replace_two(first, second, row, left, right) {
        Ok(_) => mark(validity, row),
        Err(error) => Err(error),
    }
}

/// A column as it was.
pub open spec fn unchanged(
    before: TypedColumn,
    known: Dictionary,
    after: TypedColumn,
    strings: Dictionary,
) -> bool {
    &&& after.wf(strings)
    &&& after.kind() == before.kind()
    &&& after.rows() == before.rows()
    &&& forall|row: int|
        0 <= row < before.rows() ==> #[trigger] after.cell(row, strings) == before.cell(row, known)
}

proof fn lemma_all_resolve(strings: Dictionary)
    requires
        strings.wf(),
    ensures
        forall|id: u32|
            id < strings@.len() ==> #[trigger] resolved(strings, id) == Some(strings@[id as int]),
{
    assert forall|id: u32| id < strings@.len() implies #[trigger] resolved(strings, id) == Some(
        strings@[id as int],
    ) by {
        strings.lemma_resolves(id as int);
    }
}

/// Cells read the same under a longer dictionary.
pub proof fn lemma_same_texts(column: TypedColumn, known: Dictionary, strings: Dictionary)
    requires
        column.wf(known),
        known.wf(),
        strings.wf(),
        extends(known, strings),
    ensures
        column.wf(strings),
        forall|row: int|
            0 <= row < column.rows() ==> #[trigger] column.cell(row, strings) == column.cell(
                row,
                known,
            ),
{
    assert forall|id: u32| id < known@.len() implies resolved(strings, id) == #[trigger] resolved(
        known,
        id,
    ) by {
        known.lemma_resolves(id as int);
        strings.lemma_resolves(id as int);
        assert(strings@.take(known@.len() as int)[id as int] == strings@[id as int]);
    }
    assert forall|row: int| 0 <= row < column.rows() implies #[trigger] column.cell(row, strings)
        == column.cell(row, known) by {
        assert(column.cell(row, known) is Some);
        match column {
            TypedColumn::String { values, .. } => {
                if column.spec_validity().present(row) {
                    assert(resolved(known, values@[row]) is Some);
                }
            },
            TypedColumn::ZonedDateTime { timezones, .. } => {
                if column.spec_validity().present(row) {
                    assert(resolved(known, timezones@[row]) is Some);
                }
            },
            _ => {},
        }
    }
    assert forall|row: int| 0 <= row < column.rows() implies (#[trigger] column.cell(
        row,
        strings,
    )) is Some by {
        assert(column.cell(row, known) is Some);
    }
}

/// A column with one more row: the rows that were there are as they were.
pub open spec fn grown(
    before: TypedColumn,
    known: Dictionary,
    after: TypedColumn,
    strings: Dictionary,
    value: Scalar,
) -> bool {
    &&& after.wf(strings)
    &&& after.kind() == before.kind()
    &&& after.rows() == before.rows() + 1
    &&& after.cell(before.rows(), strings) == Some(value)
    &&& forall|row: int|
        0 <= row < before.rows() ==> #[trigger] after.cell(row, strings) == before.cell(row, known)
}

/// A typed column takes NULL and the values of its own kind, and no others.
pub proof fn law_columns_take_their_kind(column: TypedColumn, value: Scalar)
    ensures
        column.spec_accepts(value) <==> value == Scalar::Null || match column {
            TypedColumn::Boolean { .. } => value is Boolean,
            TypedColumn::Integer { .. } => value is Integer,
            TypedColumn::Float { .. } => value is Float,
            TypedColumn::String { .. } => value is Text,
            TypedColumn::Bytes { .. } => value is Bytes,
            TypedColumn::Date { .. } => value is Date,
            TypedColumn::LocalTime { .. } => value is LocalTime,
            TypedColumn::ZonedTime { .. } => value is ZonedTime,
            TypedColumn::LocalDateTime { .. } => value is LocalDateTime,
            TypedColumn::ZonedDateTime { .. } => value is ZonedDateTime,
            TypedColumn::Duration { .. } => value is Duration,
            TypedColumn::List { .. } => value is List,
            TypedColumn::Entries { .. } => value is Entries,
        },
{
}

/// A value that was pushed is what its row holds, and the rows before it hold what they held.
pub proof fn law_pushed_values_read_back(
    before: TypedColumn,
    known: Dictionary,
    after: TypedColumn,
    strings: Dictionary,
    value: Scalar,
    row: int,
)
    requires
        grown(before, known, after, strings, value),
        0 <= row < before.rows(),
    ensures
        after.rows() == before.rows() + 1,
        after.cell(before.rows(), strings) == Some(value),
        after.cell(row, strings) == before.cell(row, known),
        after.kind() == before.kind(),
{
}

/// A row that is marked absent holds null, whatever the column stores in its place.
pub proof fn law_absent_rows_hold_null(column: TypedColumn, row: int, strings: Dictionary)
    requires
        !column.spec_validity().present(row),
    ensures
        column.cell(row, strings) == Some(Scalar::Null),
{
}

} // verus!
