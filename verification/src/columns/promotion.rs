//! New columns, and columns of tagged payloads for properties of several types.

use crate::columns::checks::validate_column_len;
use crate::columns::dictionary::{ByteValues, Dictionary};
use crate::columns::mixed::{
    decoded, law_payload_round_trip, mixed_payload, mixed_value, payload, payload_fault, storable,
};
use crate::columns::packed::{flat, PackedLists};
use crate::columns::typed::{extends, learned, value_kind, TypedColumn};
use crate::columns::validity::Validity;
use crate::error::{fails_with, Error, ErrorCode, Result};
use crate::persistent::paged::PagedVec;
use crate::values::{Scalar, ScalarValue};
use vstd::prelude::*;

verus! {

fn corrupt(message: &str) -> (error: Error)
    ensures
        error.is(ErrorCode::CorruptStorage, message@),
{
    Error::new(ErrorCode::CorruptStorage, message)
}

/// The bytes that stand for a value in a mixed column.
pub open spec fn mixed_bytes(value: Scalar) -> Seq<u8> {
    match payload(value) {
        Some(bytes) => bytes,
        None => Seq::empty(),
    }
}

/// A mixed column with one more row.
pub open spec fn mixed_grown(before: TypedColumn, after: TypedColumn, value: Scalar) -> bool {
    &&& after.mixed_wf()
    &&& after.rows() == before.rows() + 1
    &&& after.mixed_cell(before.rows()) == Some(value)
    &&& forall|row: int|
        0 <= row < before.rows() ==> #[trigger] after.mixed_cell(row) == before.mixed_cell(row)
}

/// A mixed column with the value of one row replaced.
pub open spec fn mixed_replaced(
    before: TypedColumn,
    after: TypedColumn,
    row: int,
    value: Scalar,
) -> bool {
    &&& after.mixed_wf()
    &&& after.rows() == before.rows()
    &&& after.mixed_cell(row) == Some(value)
    &&& forall|other: int|
        0 <= other < before.rows() && other != row ==> #[trigger] after.mixed_cell(other)
            == before.mixed_cell(other)
}

impl TypedColumn {
    /// The payload of a row of a byte column.
    pub open spec fn mixed_payload_at(&self, row: int) -> Seq<u8> {
        match self {
            TypedColumn::Bytes { values, .. } => values@[row],
            _ => Seq::empty(),
        }
    }

    /// What a row of a mixed column holds.
    pub open spec fn mixed_cell(&self, row: int) -> Option<Scalar> {
        if !self.spec_validity().present(row) {
            Some(Scalar::Null)
        } else {
            decoded(self.mixed_payload_at(row))
        }
    }

    /// What is wrong with a row of a mixed column.
    pub open spec fn mixed_row_fault(&self, row: int) -> Option<Seq<char>> {
        let bytes = self.mixed_payload_at(row);
        if self.spec_validity().present(row) {
            if decoded(bytes) is None {
                Some(payload_fault(bytes))
            } else {
                None
            }
        } else if bytes.len() > 0 {
            Some("NULL mixed property retains non-canonical bytes"@)
        } else {
            None
        }
    }

    /// The first row, from `row` on, with which something is wrong.
    pub open spec fn mixed_first_fault(&self, row: int) -> Option<Seq<char>>
        decreases self.rows() - row,
    {
        if row >= self.rows() {
            None
        } else if self.mixed_row_fault(row) is Some {
            self.mixed_row_fault(row)
        } else {
            self.mixed_first_fault(row + 1)
        }
    }

    /// What is wrong with a mixed column.
    pub open spec fn mixed_fault(&self) -> Option<Seq<char>> {
        match self {
            TypedColumn::Bytes { values, validity } => if validity.fault() is Some {
                validity.fault()
            } else if values@.len() != validity.len {
                Some("mixed values and validity have different row counts"@)
            } else {
                self.mixed_first_fault(0)
            },
            _ => Some("mixed property is not backed by a tagged byte column"@),
        }
    }

    /// A byte column in which every row holds a payload, or nothing for NULL.
    pub open spec fn mixed_wf(&self) -> bool {
        &&& self is Bytes
        &&& self.sound()
        &&& forall|row: int|
            0 <= row < self.rows() ==> (#[trigger] self.mixed_row_fault(row)) is None
    }

    /// The bytes of the column have no room for the payload of a value.
    pub open spec fn cannot_take_payload(&self, value: Scalar) -> bool {
        match self {
            TypedColumn::Bytes { values, .. } => flat(values@).len() + mixed_bytes(value).len()
                > u32::MAX || values.arena_full(mixed_bytes(value).len() as int),
            _ => true,
        }
    }

    /// The bytes of the column have no room for the payload of a value in place of that of a row.
    pub open spec fn cannot_replace_payload(&self, row: int, value: Scalar) -> bool {
        match self {
            TypedColumn::Bytes { values, .. } => flat(values@).len() - values@[row].len()
                + mixed_bytes(value).len() > u32::MAX || values.arena_full(
                mixed_bytes(value).len() as int,
            ),
            _ => true,
        }
    }

    /// Bytes of the payloads of the first rows.
    pub open spec fn payload_total(&self, strings: Dictionary, count: int) -> int
        decreases count,
    {
        if count <= 0 {
            0
        } else {
            self.payload_total(strings, count - 1) + match self.cell(count - 1, strings) {
                Some(value) => mixed_bytes(value).len() as int,
                None => 0,
            }
        }
    }

    proof fn lemma_payload_total(&self, strings: Dictionary, low: int, high: int)
        requires
            0 <= low <= high,
        ensures
            0 <= self.payload_total(strings, low) <= self.payload_total(strings, high),
        decreases high,
    {
        if low < high {
            self.lemma_payload_total(strings, low, high - 1);
        } else if low > 0 {
            self.lemma_payload_total(strings, low - 1, low - 1);
        }
    }

    /// The bytes of a mixed column that is written row by row.
    pub open spec fn written(&self, rows: int, bytes: int) -> bool {
        self matches TypedColumn::Bytes { values, .. } && values.tight(rows) && flat(values@).len()
            == bytes
    }

    /// A column that holds no row, of the type of a value.
    #[verifier::spinoff_prover]
    fn empty_for(value: &ScalarValue) -> (result: Result<Self>)
        ensures
            match result {
                Ok(column) => {
                    &&& value@ != Scalar::Null
                    &&& column.sound()
                    &&& column.kind() == value_kind(value@)
                    &&& column.rows() == 0
                    &&& column.packed(0, 0)
                    &&& column.tidy()
                },
                Err(error) => value@ == Scalar::Null && error.is(
                    ErrorCode::QueryType,
                    "a property column type cannot be inferred from NULL"@,
                ),
            },
    {
        let column = match value {
            ScalarValue::Null => {
                return Err(
                    Error::new(
                        ErrorCode::QueryType,
                        "a property column type cannot be inferred from NULL",
                    ),
                );
            },
            ScalarValue::Boolean(_) => TypedColumn::Boolean {
                values: PagedVec::default(),
                validity: Validity::default(),
            },
            ScalarValue::Integer(_) => TypedColumn::Integer {
                values: PagedVec::default(),
                validity: Validity::default(),
            },
            ScalarValue::Float(_) => TypedColumn::Float {
                values: PagedVec::default(),
                validity: Validity::default(),
            },
            ScalarValue::String(_) => TypedColumn::String {
                values: PagedVec::default(),
                validity: Validity::default(),
            },
            ScalarValue::Bytes(_) => TypedColumn::Bytes {
                values: ByteValues::default(),
                validity: Validity::default(),
            },
            ScalarValue::Date(_) => TypedColumn::Date {
                values: PagedVec::default(),
                validity: Validity::default(),
            },
            ScalarValue::LocalTime(_) => TypedColumn::LocalTime {
                values: PagedVec::default(),
                validity: Validity::default(),
            },
            ScalarValue::ZonedTime { .. } => TypedColumn::ZonedTime {
                nanos: PagedVec::default(),
                offsets: PagedVec::default(),
                validity: Validity::default(),
            },
            ScalarValue::LocalDateTime { .. } => TypedColumn::LocalDateTime {
                seconds: PagedVec::default(),
                nanos: PagedVec::default(),
                validity: Validity::default(),
            },
            ScalarValue::ZonedDateTime { .. } => TypedColumn::ZonedDateTime {
                seconds: PagedVec::default(),
                nanos: PagedVec::default(),
                timezones: PagedVec::default(),
                validity: Validity::default(),
            },
            ScalarValue::Duration { .. } => TypedColumn::Duration {
                months: PagedVec::default(),
                days: PagedVec::default(),
                seconds: PagedVec::default(),
                nanos: PagedVec::default(),
                validity: Validity::default(),
            },
            ScalarValue::List(_) => TypedColumn::List {
                values: PackedLists::default(),
                validity: Validity::default(),
            },
            ScalarValue::Entries(_) => TypedColumn::Entries {
                values: PackedLists::default(),
                validity: Validity::default(),
            },
        };
        Ok(column)
    }

    /// A column of the type of a value, with the value behind rows without one.
    pub fn with_value(value: &ScalarValue, preceding_nulls: usize, strings: &mut Dictionary) -> (
        result: Result<Self>)
        requires
            old(strings).wf(),
            preceding_nulls <= u32::MAX,
            preceding_nulls < usize::MAX,
        ensures
            final(strings).wf(),
            extends(*old(strings), *final(strings)),
            value@ == Scalar::Null ==> fails_with(
                result,
                ErrorCode::QueryType,
                "a property column type cannot be inferred from NULL"@,
            ),
            match result {
                Ok(column) => {
                    &&& value@ != Scalar::Null
                    &&& column.wf(*final(strings))
                    &&& column.kind() == value_kind(value@)
                    &&& final(strings)@ == learned(old(strings)@, value@)
                    &&& column.tidy()
                    &&& column.rows() == preceding_nulls + 1
                    &&& column.cell(preceding_nulls as int, *final(strings)) == Some(value@)
                    &&& forall|row: int|
                        0 <= row < preceding_nulls ==> #[trigger] column.cell(
                            row,
                            *final(strings),
                        ) == Some(Scalar::Null)
                },
                Err(error) => {
                    &&& final(strings)@ == old(strings)@
                    &&& value@ != Scalar::Null ==> error.code == ErrorCode::ResultBudgetExceeded
                        && TypedColumn::never_fits(value@, *old(strings))
                },
            },
    {
        proof {
            strings.lemma_extends(*strings);
        }
        let ghost known = *strings;
        let mut column = match TypedColumn::empty_for(value) {
            Ok(column) => column,
            Err(error) => {
                return Err(error);
            },
        };
        for index in 0..preceding_nulls
            invariant
                preceding_nulls <= u32::MAX,
                preceding_nulls < usize::MAX,
                column.wf(known),
                column.kind() == value_kind(value@),
                column.rows() == index,
                column.packed(index as int, 0),
                column.tidy(),
                forall|row: int|
                    0 <= row < index ==> #[trigger] column.cell(row, known) == Some(Scalar::Null),
        {
            let ghost before = column;
            match column.push_null() {
                Ok(_) => {},
                Err(error) => {
                    return Err(error);
                },
            }
            assert(before.wf(known));
        }
        let ghost before = column;
        match column.push(value, strings) {
            Ok(_) => Ok(column),
            Err(error) => {
                proof {
                    before.lemma_first_value_fits(preceding_nulls as int, value@, known);
                }
                Err(error)
            },
        }
    }

    /// The same rows as tagged payloads.
    #[verifier::rlimit(40)]
    #[verifier::spinoff_prover]
    pub fn into_mixed(&self, strings: &Dictionary) -> (result: Result<Self>)
        requires
            self.readable(),
            strings.readable(),
            self.rows() <= u32::MAX as int + 1,
            self.rows() < usize::MAX,
        ensures
            match self.fault(*strings) {
                Some(message) => fails_with(result, ErrorCode::CorruptStorage, message),
                None => match result {
                    Ok(column) => {
                        &&& column.mixed_wf()
                        &&& column.rows() == self.rows()
                        &&& column.written(
                            self.rows(),
                            self.payload_total(*strings, self.rows()),
                        )
                        &&& forall|row: int|
                            0 <= row < self.rows() ==> #[trigger] column.mixed_cell(row)
                                == self.cell(row, *strings)
                    },
                    Err(error) => error.code == ErrorCode::ResultBudgetExceeded
                        && self.payload_total(*strings, self.rows()) > u32::MAX,
                },
            },
    {
        match self.validate(strings) {
            Ok(_) => {},
            Err(error) => {
                return Err(error);
            },
        }
        let mut mixed = TypedColumn::Bytes {
            values: ByteValues::default(),
            validity: Validity::default(),
        };
        let total: usize = self.len();
        for row in 0..total
            invariant
                self.wf(*strings),
                strings.readable(),
                self.fault(*strings) is None,
                total == self.rows(),
                total <= u32::MAX as int + 1,
                total < usize::MAX,
                forall|row: int|
                    0 <= row < self.rows() ==> (#[trigger] self.row_fault(row, *strings)) is None,
                mixed.mixed_wf(),
                mixed.rows() == row,
                mixed.written(row as int, self.payload_total(*strings, row as int)),
                forall|i: int|
                    0 <= i < row ==> #[trigger] mixed.mixed_cell(i) == self.cell(i, *strings),
        {
            assert(self.row_fault(row as int, *strings) is None);
            assert(self.cell(row as int, *strings) is Some);
            let ghost before = mixed;
            match self.get(row, strings) {
                Some(value) => {
                    assert(storable(value@));
                    match mixed.mixed_push(&value) {
                        Ok(_) => {},
                        Err(error) => {
                            proof {
                                let bytes = self.payload_total(*strings, row as int);
                                let more = mixed_bytes(value@).len() as int;
                                self.lemma_payload_total(*strings, row + 1, total as int);
                                if bytes + more <= u32::MAX {
                                    before->Bytes_values.lemma_tight(row as int, more);
                                }
                            }
                            return Err(error);
                        },
                    }
                },
                None => {
                    return Err(
                        corrupt(
                            "typed property row cannot be materialized during mixed promotion",
                        ),
                    );
                },
            }
        }
        Ok(mixed)
    }

    /// Accepts a mixed column that can be read row by row.
    pub fn mixed_validate(&self) -> (result: Result<()>)
        requires
            self.readable(),
            self.rows() <= u32::MAX as int + 1,
        ensures
            match self.mixed_fault() {
                Some(message) => fails_with(result, ErrorCode::CorruptStorage, message),
                None => result is Ok && self.mixed_wf(),
            },
    {
        match self {
            TypedColumn::Bytes { values, validity } => {
                match validity.validate() {
                    Ok(_) => {},
                    Err(error) => {
                        return Err(error);
                    },
                }
                match validate_column_len(
                    values.len(),
                    validity.len(),
                    "mixed values and validity have different row counts",
                ) {
                    Ok(_) => {},
                    Err(error) => {
                        return Err(error);
                    },
                }
                let total: usize = validity.len();
                for row in 0..total
                    invariant
                        *self == (TypedColumn::Bytes { values: *values, validity: *validity }),
                        self.sound(),
                        total == self.rows(),
                        self.mixed_fault() == self.mixed_first_fault(row as int),
                        forall|i: int| 0 <= i < row ==> (#[trigger] self.mixed_row_fault(i)) is None,
                {
                    if let Some(bytes) = values.get(row) {
                        if validity.is_present(row) {
                            match mixed_value(bytes) {
                                Ok(_) => {},
                                Err(error) => {
                                    return Err(error);
                                },
                            }
                        } else if bytes.len() > 0 {
                            return Err(corrupt("NULL mixed property retains non-canonical bytes"));
                        }
                    }
                }
                Ok(())
            },
            _ => Err(corrupt("mixed property is not backed by a tagged byte column")),
        }
    }

    /// Whether the payload of a value can be counted.
    pub fn mixed_validate_push(&self, value: &ScalarValue) -> (result: Result<()>)
        requires
            self.readable(),
        ensures
            match self {
                TypedColumn::Bytes { values, .. } => if !storable(value@) {
                    fails_with(
                        result,
                        ErrorCode::CorruptStorage,
                        "document bytes are not canonical"@,
                    )
                } else if flat(values@).len() + mixed_bytes(value@).len() > u32::MAX {
                    fails_with(result, ErrorCode::ResultBudgetExceeded, "packed list exhausted"@)
                } else {
                    result is Ok
                },
                _ => fails_with(
                    result,
                    ErrorCode::CorruptStorage,
                    "mixed property is not backed by a tagged byte column"@,
                ),
            },
    {
        match self {
            TypedColumn::Bytes { values, .. } => match mixed_payload(value) {
                Ok(Some(bytes)) => values.validate_push_len(bytes.len()),
                Ok(None) => values.validate_push_len(0),
                Err(error) => Err(error),
            },
            _ => Err(corrupt("mixed property is not backed by a tagged byte column")),
        }
    }

    /// Appends a row to a mixed column.
    #[verifier::spinoff_prover]
    pub fn mixed_push(&mut self, value: &ScalarValue) -> (result: Result<()>)
        requires
            old(self).mixed_wf(),
            old(self).rows() <= u32::MAX,
            old(self).rows() < usize::MAX,
        ensures
            final(self).mixed_wf(),
            !storable(value@) ==> fails_with(
                result,
                ErrorCode::CorruptStorage,
                "document bytes are not canonical"@,
            ),
            match result {
                Ok(_) => mixed_grown(*old(self), *final(self), value@) && forall|
                    rows: int,
                    bytes: int,
                |
                    #[trigger] old(self).written(rows, bytes) ==> final(self).written(
                        rows + 1,
                        bytes + mixed_bytes(value@).len(),
                    ),
                Err(error) => {
                    &&& final(self).rows() == old(self).rows()
                    &&& forall|row: int| #[trigger]
                        final(self).mixed_cell(row) == old(self).mixed_cell(row)
                    &&& storable(value@) ==> error.code == ErrorCode::ResultBudgetExceeded && old(
                        self).cannot_take_payload(value@)
                },
            },
            value@ == Scalar::Null ==> result is Ok,
    {
        let ghost before = *self;
        let found = match mixed_payload(value) {
            Ok(found) => found,
            Err(error) => {
                return Err(error);
            },
        };
        let present = found.is_some();
        let bytes: Vec<u8> = match found {
            Some(bytes) => bytes,
            None => Vec::new(),
        };
        assert(bytes@ =~= mixed_bytes(value@));
        let result = match self {
            TypedColumn::Bytes { values, validity } => match values.push(bytes.as_slice()) {
                Ok(_) => validity.push(present),
                Err(error) => Err(error),
            },
            _ => Err(corrupt("mixed property is not backed by a tagged byte column")),
        };
        proof {
            if result is Ok {
                if value@ != Scalar::Null {
                    law_payload_round_trip(value@);
                }
                assert(self.sound());
                crate::columns::packed::lemma_flat_push(
                    before->Bytes_values@,
                    mixed_bytes(value@),
                );
                assert forall|rows: int, count: int| #[trigger] before.written(
                    rows,
                    count,
                ) implies self.written(rows + 1, count + mixed_bytes(value@).len()) by {
                    assert(before->Bytes_values.tight(rows));
                }
                assert forall|row: int| 0 <= row < before.rows() implies #[trigger] self.mixed_cell(
                    row,
                ) == before.mixed_cell(row) by {
                    assert(self.spec_validity().present(row) == before.spec_validity().present(
                        row,
                    ));
                }
                assert forall|row: int| 0 <= row < self.rows() implies (
                #[trigger] self.mixed_row_fault(row)) is None by {
                    if row < before.rows() {
                        assert(before.mixed_row_fault(row) is None);
                        assert(self.spec_validity().present(row) == before.spec_validity().present(
                            row,
                        ));
                    }
                }
            } else {
                assert forall|row: int| 0 <= row < self.rows() implies (
                #[trigger] self.mixed_row_fault(row)) is None by {
                    assert(before.mixed_row_fault(row) is None);
                }
            }
        }
        result
    }

    /// Replaces a row of a mixed column.
    #[verifier::spinoff_prover]
    pub fn mixed_set(&mut self, row: usize, value: &ScalarValue) -> (result: Result<()>)
        requires
            old(self).mixed_wf(),
        ensures
            final(self).mixed_wf(),
            !storable(value@) ==> fails_with(
                result,
                ErrorCode::CorruptStorage,
                "document bytes are not canonical"@,
            ),
            storable(value@) && row >= old(self).rows() ==> fails_with(
                result,
                ErrorCode::InvalidData,
                "mixed property row is out of bounds"@,
            ),
            match result {
                Ok(_) => row < old(self).rows() && mixed_replaced(
                    *old(self),
                    *final(self),
                    row as int,
                    value@,
                ),
                Err(error) => {
                    &&& final(self).rows() == old(self).rows()
                    &&& forall|other: int| #[trigger]
                        final(self).mixed_cell(other) == old(self).mixed_cell(other)
                    &&& storable(value@) && row < old(self).rows() ==> error.code
                        == ErrorCode::ResultBudgetExceeded && old(self).cannot_replace_payload(
                        row as int,
                        value@,
                    )
                },
            },
            value@ == Scalar::Null && row < old(self).rows() ==> result is Ok,
    {
        let ghost before = *self;
        let found = match mixed_payload(value) {
            Ok(found) => found,
            Err(error) => {
                return Err(error);
            },
        };
        let present = found.is_some();
        let bytes: Vec<u8> = match found {
            Some(bytes) => bytes,
            None => Vec::new(),
        };
        assert(bytes@ =~= mixed_bytes(value@));
        let result = match self {
            TypedColumn::Bytes { values, validity } => {
                if row >= validity.len() || row >= values.len() {
                    Err(Error::invalid_data("mixed property row is out of bounds"))
                } else {
                    match values.replace(row as u32, bytes.as_slice()) {
                        Ok(_) => validity.set(row, present),
                        Err(error) => Err(error),
                    }
                }
            },
            _ => Err(corrupt("mixed property is not backed by a tagged byte column")),
        };
        proof {
            if result is Ok {
                if value@ != Scalar::Null {
                    law_payload_round_trip(value@);
                }
                assert(self.sound());
                assert forall|other: int| 0 <= other < before.rows() && other
                    != row implies #[trigger] self.mixed_cell(other) == before.mixed_cell(other) by {
                    assert(self.spec_validity().present(other) == before.spec_validity().present(
                        other,
                    ));
                }
                assert(self.spec_validity().present(row as int) == present);
                assert forall|other: int| 0 <= other < self.rows() implies (
                #[trigger] self.mixed_row_fault(other)) is None by {
                    assert(before.mixed_row_fault(other) is None);
                    if other != row {
                        assert(self.spec_validity().present(other)
                            == before.spec_validity().present(other));
                    }
                }
            } else {
                assert forall|other: int| 0 <= other < self.rows() implies (
                #[trigger] self.mixed_row_fault(other)) is None by {
                    assert(before.mixed_row_fault(other) is None);
                }
            }
        }
        result
    }

    /// The value of a row of a mixed column; nothing where there is no such row.
    pub fn mixed_get(&self, row: usize) -> (value: Option<Result<ScalarValue>>)
        requires
            self.readable(),
            row <= u32::MAX,
        ensures
            match self {
                TypedColumn::Bytes { values, validity } => if row >= validity.len || row
                    >= values@.len() {
                    value is None
                } else {
                    value matches Some(result) && match self.mixed_cell(row as int) {
                        Some(cell) => result matches Ok(found) && found@ == cell,
                        None => fails_with(
                            result,
                            ErrorCode::CorruptStorage,
                            payload_fault(values@[row as int]),
                        ),
                    }
                },
                _ => value matches Some(result) && fails_with(
                    result,
                    ErrorCode::CorruptStorage,
                    "mixed property is not backed by a tagged byte column"@,
                ),
            },
    {
        match self {
            TypedColumn::Bytes { values, validity } => {
                if row >= validity.len() || row >= values.len() {
                    return None;
                }
                if !validity.is_present(row) {
                    return Some(Ok(ScalarValue::Null));
                }
                match values.get(row) {
                    Some(bytes) => Some(mixed_value(bytes)),
                    None => None,
                }
            },
            _ => Some(Err(corrupt("mixed property is not backed by a tagged byte column"))),
        }
    }
}

} // verus!
