//! Validation of stored columns, and their size.

use crate::arith::{saturated, saturating_product};
use crate::columns::dictionary::Dictionary;
use crate::columns::mixed::{canonical, validate_canonical, DocumentRoot};
use crate::columns::typed::{resolved, TypedColumn};
use crate::error::{fails_with, Error, ErrorCode, Result};
use vstd::prelude::*;

verus! {

fn corrupt(message: &str) -> (error: Error)
    ensures
        error.is(ErrorCode::CorruptStorage, message@),
{
    Error::new(ErrorCode::CorruptStorage, message)
}

/// Bytes of values of one width.
pub open spec fn part_bytes(count: nat, width: int) -> int {
    saturated(count * width)
}

pub(crate) fn validate_column_len(actual: usize, expected: usize, message: &str) -> (result:
    Result<()>)
    ensures
        if actual != expected {
            fails_with(result, ErrorCode::CorruptStorage, message@)
        } else {
            result is Ok
        },
{
    if actual != expected {
        return Err(corrupt(message));
    }
    Ok(())
}

impl TypedColumn {
    /// What is wrong with one row of a column whose parts have the right lengths.
    pub open spec fn row_fault(&self, row: int, strings: Dictionary) -> Option<Seq<char>> {
        let present = self.spec_validity().present(row);
        match self {
            TypedColumn::String { values, .. } => if present && resolved(
                strings,
                values@[row],
            ) is None {
                Some("string property references an unknown dictionary entry"@)
            } else {
                None
            },
            TypedColumn::ZonedDateTime { timezones, .. } => if present && resolved(
                strings,
                timezones@[row],
            ) is None {
                Some("zoned-datetime property references an unknown timezone"@)
            } else {
                None
            },
            TypedColumn::List { values, .. } => if present {
                if canonical(values@[row], DocumentRoot::List) {
                    None
                } else {
                    Some("document bytes are not canonical"@)
                }
            } else if values@[row].len() > 0 {
                Some("NULL list property retains non-canonical bytes"@)
            } else {
                None
            },
            TypedColumn::Entries { values, .. } => if present {
                if canonical(values@[row], DocumentRoot::Entries) {
                    None
                } else {
                    Some("document bytes are not canonical"@)
                }
            } else if values@[row].len() > 0 {
                Some("NULL map property retains non-canonical bytes"@)
            } else {
                None
            },
            _ => None,
        }
    }

    /// The first row, from `row` on, with which something is wrong.
    pub open spec fn first_fault(&self, row: int, strings: Dictionary) -> Option<Seq<char>>
        decreases self.rows() - row,
    {
        if row >= self.rows() {
            None
        } else if self.row_fault(row, strings) is Some {
            self.row_fault(row, strings)
        } else {
            self.first_fault(row + 1, strings)
        }
    }

    /// What is wrong with the column: its bitmap, the length of a part, or a row.
    pub open spec fn fault(&self, strings: Dictionary) -> Option<Seq<char>> {
        if self.spec_validity().fault() is Some {
            self.spec_validity().fault()
        } else if self.length_fault() is Some {
            self.length_fault()
        } else {
            self.first_fault(0, strings)
        }
    }

    /// Accepts a column that can be read row by row.
    #[verifier::rlimit(40)]
    #[verifier::spinoff_prover]
    pub fn validate(&self, strings: &Dictionary) -> (result: Result<()>)
        requires
            self.readable(),
            strings.readable(),
            self.rows() <= u32::MAX as int + 1,
        ensures
            match self.fault(*strings) {
                Some(message) => fails_with(result, ErrorCode::CorruptStorage, message),
                None => result is Ok && self.wf(*strings) && forall|row: int|
                    0 <= row < self.rows() ==> (#[trigger] self.row_fault(row, *strings)) is None,
            },
    {
        match self.validity().validate() {
            Ok(_) => {},
            Err(error) => {
                return Err(error);
            },
        }
        match self.validate_lengths() {
            Ok(_) => {},
            Err(error) => {
                return Err(error);
            },
        }
        let total: usize = self.len();
        for row in 0..total
            invariant
                self.sound(),
                strings.readable(),
                total == self.rows(),
                self.fault(*strings) == self.first_fault(row as int, *strings),
                forall|i: int| 0 <= i < row ==> (#[trigger] self.row_fault(i, *strings)) is None,
        {
            match self.validate_row(row, strings) {
                Ok(_) => {},
                Err(error) => {
                    return Err(error);
                },
            }
        }
        proof {
            assert forall|row: int| 0 <= row < self.rows() implies (#[trigger] self.cell(
                row,
                *strings,
            )) is Some by {
                assert(self.row_fault(row, *strings) is None);
            }
        }
        Ok(())
    }

    fn validate_row(&self, row: usize, strings: &Dictionary) -> (result: Result<()>)
        requires
            self.sound(),
            strings.readable(),
            row < self.rows(),
        ensures
            match self.row_fault(row as int, *strings) {
                Some(message) => fails_with(result, ErrorCode::CorruptStorage, message),
                None => result is Ok,
            },
    {
        match self {
            TypedColumn::String { values, validity } => {
                if validity.is_present(row) {
                    if let Some(id) = values.get(row) {
                        if strings.resolve(*id).is_none() {
                            return Err(
                                corrupt("string property references an unknown dictionary entry"),
                            );
                        }
                    }
                }
                Ok(())
            },
            TypedColumn::ZonedDateTime { timezones, validity, .. } => {
                if validity.is_present(row) {
                    if let Some(id) = timezones.get(row) {
                        if strings.resolve(*id).is_none() {
                            return Err(
                                corrupt("zoned-datetime property references an unknown timezone"),
                            );
                        }
                    }
                }
                Ok(())
            },
            TypedColumn::List { values, validity } => {
                if let Some(value) = values.get(row as u32) {
                    if validity.is_present(row) {
                        return validate_canonical(value, DocumentRoot::List);
                    } else if value.len() > 0 {
                        return Err(corrupt("NULL list property retains non-canonical bytes"));
                    }
                }
                Ok(())
            },
            TypedColumn::Entries { values, validity } => {
                if let Some(value) = values.get(row as u32) {
                    if validity.is_present(row) {
                        return validate_canonical(value, DocumentRoot::Entries);
                    } else if value.len() > 0 {
                        return Err(corrupt("NULL map property retains non-canonical bytes"));
                    }
                }
                Ok(())
            },
            _ => Ok(()),
        }
    }

    fn validate_lengths(&self) -> (result: Result<()>)
        requires
            self.readable(),
        ensures
            match self.length_fault() {
                Some(message) => fails_with(result, ErrorCode::CorruptStorage, message),
                None => result is Ok,
            },
    {
        let rows: usize = self.len();
        match self {
            TypedColumn::Boolean { values, .. } => validate_column_len(
                values.len(),
                rows,
                "Boolean values and validity have different row counts",
            ),
            TypedColumn::Integer { values, .. } => validate_column_len(
                values.len(),
                rows,
                "typed values and validity have different row counts",
            ),
            TypedColumn::Float { values, .. } => validate_column_len(
                values.len(),
                rows,
                "float values and validity have different row counts",
            ),
            TypedColumn::String { values, .. } => validate_column_len(
                values.len(),
                rows,
                "string values and validity have different row counts",
            ),
            TypedColumn::Bytes { values, .. } => validate_column_len(
                values.len(),
                rows,
                "byte values and validity have different row counts",
            ),
            TypedColumn::Date { values, .. } => validate_column_len(
                values.len(),
                rows,
                "date values and validity have different row counts",
            ),
            TypedColumn::LocalTime { values, .. } => validate_column_len(
                values.len(),
                rows,
                "typed values and validity have different row counts",
            ),
            TypedColumn::ZonedTime { nanos, offsets, .. } => match validate_column_len(
                nanos.len(),
                rows,
                "zoned-time nanos and validity have different row counts",
            ) {
                Ok(_) => validate_column_len(
                    offsets.len(),
                    rows,
                    "zoned-time offsets and validity have different row counts",
                ),
                Err(error) => Err(error),
            },
            TypedColumn::LocalDateTime { seconds, nanos, .. } => match validate_column_len(
                seconds.len(),
                rows,
                "local-datetime seconds and validity have different row counts",
            ) {
                Ok(_) => validate_column_len(
                    nanos.len(),
                    rows,
                    "local-datetime nanos and validity have different row counts",
                ),
                Err(error) => Err(error),
            },
            TypedColumn::ZonedDateTime { seconds, nanos, timezones, .. } => match validate_column_len(
                seconds.len(),
                rows,
                "zoned-datetime seconds and validity have different row counts",
            ) {
                Ok(_) => match validate_column_len(
                    nanos.len(),
                    rows,
                    "zoned-datetime nanos and validity have different row counts",
                ) {
                    Ok(_) => validate_column_len(
                        timezones.len(),
                        rows,
                        "zoned-datetime timezones and validity have different row counts",
                    ),
                    Err(error) => Err(error),
                },
                Err(error) => Err(error),
            },
            TypedColumn::Duration { months, days, seconds, nanos, .. } => match validate_column_len(
                months.len(),
                rows,
                "duration months and validity have different row counts",
            ) {
                Ok(_) => match validate_column_len(
                    days.len(),
                    rows,
                    "duration days and validity have different row counts",
                ) {
                    Ok(_) => match validate_column_len(
                        seconds.len(),
                        rows,
                        "duration seconds and validity have different row counts",
                    ) {
                        Ok(_) => validate_column_len(
                            nanos.len(),
                            rows,
                            "duration nanos and validity have different row counts",
                        ),
                        Err(error) => Err(error),
                    },
                    Err(error) => Err(error),
                },
                Err(error) => Err(error),
            },
            TypedColumn::List { values, .. } => validate_column_len(
                values.rows(),
                rows,
                "document values and validity have different row counts",
            ),
            TypedColumn::Entries { values, .. } => validate_column_len(
                values.rows(),
                rows,
                "document values and validity have different row counts",
            ),
        }
    }

    /// Bytes of the bitmap and of the parts.
    pub open spec fn spec_estimated_bytes(&self) -> int {
        let values = match self {
            TypedColumn::Boolean { values, .. } => part_bytes(values@.len(), 1),
            TypedColumn::Integer { values, .. } => part_bytes(values@.len(), 8),
            TypedColumn::Float { values, .. } => part_bytes(values@.len(), 8),
            TypedColumn::String { values, .. } => part_bytes(values@.len(), 4),
            TypedColumn::Bytes { values, .. } => values.spec_estimated_bytes(),
            TypedColumn::Date { values, .. } => part_bytes(values@.len(), 8),
            TypedColumn::LocalTime { values, .. } => part_bytes(values@.len(), 8),
            TypedColumn::ZonedTime { nanos, offsets, .. } =>
                saturated(part_bytes(nanos@.len(), 8) + part_bytes(offsets@.len(), 4)),
            TypedColumn::LocalDateTime { seconds, nanos, .. } =>
                saturated(part_bytes(seconds@.len(), 8) + part_bytes(nanos@.len(), 4)),
            TypedColumn::ZonedDateTime { seconds, nanos, timezones, .. } =>
                saturated(saturated(part_bytes(seconds@.len(), 8) + part_bytes(nanos@.len(), 4))
                    + part_bytes(timezones@.len(), 4)),
            TypedColumn::Duration { months, days, seconds, nanos, .. } =>
                saturated(saturated(saturated(part_bytes(months@.len(), 8) + part_bytes(days@.len(),
                    8)) + part_bytes(seconds@.len(), 8)) + part_bytes(nanos@.len(), 4)),
            TypedColumn::List { values, .. } => values.spec_estimated_bytes(),
            TypedColumn::Entries { values, .. } => values.spec_estimated_bytes(),
        };
        saturated((self.rows() + 7) / 8 + values)
    }

    pub fn estimated_bytes(&self) -> (bytes: usize)
        ensures
            bytes == self.spec_estimated_bytes(),
    {
        let rows: usize = self.len();
        let bitmap: usize = if rows % 8 == 0 {
            rows / 8
        } else {
            rows / 8 + 1
        };
        let values: usize = match self {
            TypedColumn::Boolean { values, .. } => saturating_product(values.len(), 1),
            TypedColumn::Integer { values, .. } => saturating_product(values.len(), 8),
            TypedColumn::Float { values, .. } => saturating_product(values.len(), 8),
            TypedColumn::String { values, .. } => saturating_product(values.len(), 4),
            TypedColumn::Bytes { values, .. } => values.estimated_bytes(),
            TypedColumn::Date { values, .. } => saturating_product(values.len(), 8),
            TypedColumn::LocalTime { values, .. } => saturating_product(values.len(), 8),
            TypedColumn::ZonedTime { nanos, offsets, .. } =>
                saturating_product(nanos.len(), 8).saturating_add(
                saturating_product(offsets.len(), 4),
            ),
            TypedColumn::LocalDateTime { seconds, nanos, .. } =>
                saturating_product(seconds.len(), 8).saturating_add(
                saturating_product(nanos.len(), 4),
            ),
            TypedColumn::ZonedDateTime { seconds, nanos, timezones, .. } =>
                saturating_product(seconds.len(), 8).saturating_add(
                saturating_product(nanos.len(), 4),
            ).saturating_add(
                saturating_product(timezones.len(), 4),
            ),
            TypedColumn::Duration { months, days, seconds, nanos, .. } =>
                saturating_product(months.len(), 8).saturating_add(
                saturating_product(days.len(), 8),
            ).saturating_add(
                saturating_product(seconds.len(), 8),
            ).saturating_add(
                saturating_product(nanos.len(), 4),
            ),
            TypedColumn::List { values, .. } => values.estimated_bytes(),
            TypedColumn::Entries { values, .. } => values.estimated_bytes(),
        };
        bitmap.saturating_add(values)
    }

    /// The documents of the column take much more room than they need.
    pub open spec fn spec_document_needs_seal(&self) -> bool {
        match self {
            TypedColumn::List { values, .. } => values.spec_needs_seal(),
            TypedColumn::Entries { values, .. } => values.spec_needs_seal(),
            _ => false,
        }
    }

    pub fn document_needs_seal(&self) -> (needed: bool)
        requires
            self.readable(),
        ensures
            needed == self.spec_document_needs_seal(),
    {
        match self {
            TypedColumn::List { values, .. } => values.needs_seal(),
            TypedColumn::Entries { values, .. } => values.needs_seal(),
            _ => false,
        }
    }

    /// The column holds documents, and nothing beside what its rows hold.
    pub open spec fn document_is_tight(&self) -> bool {
        match self {
            TypedColumn::List { values, .. } => values.tight(values@.len() as int),
            TypedColumn::Entries { values, .. } => values.tight(values@.len() as int),
            _ => false,
        }
    }

    /// Writes the documents of the column anew. A column of other values stays as it is.
    pub fn seal_document(&mut self) -> (result: Result<()>)
        requires
            old(self).sound(),
            old(self).rows() <= u32::MAX,
        ensures
            final(self).sound(),
            final(self).kind() == old(self).kind(),
            final(self).rows() == old(self).rows(),
            result is Ok,
            forall|row: int, strings: Dictionary| #[trigger]
                final(self).cell(row, strings) == old(self).cell(row, strings),
            !final(self).spec_document_needs_seal(),
            if *old(self) is List || *old(self) is Entries {
                final(self).document_is_tight()
            } else {
                *final(self) == *old(self)
            },
    {
        match self {
            TypedColumn::List { values, validity } => values.seal(validity),
            TypedColumn::Entries { values, validity } => values.seal(validity),
            _ => Ok(()),
        }
    }
}

/// A column takes a bit for each row, and for a row one byte where it holds booleans, four where it holds
/// texts, eight where it holds integers, floats, dates or local times, twelve where it holds zoned times
/// or local datetimes, sixteen where it holds zoned datetimes and twenty-eight where it holds durations.
pub proof fn law_columns_take_their_width(column: TypedColumn, rows: int)
    requires
        rows == column.rows(),
        rows * 29 + 1 <= usize::MAX,
    ensures
        column matches TypedColumn::Boolean { values, .. } && values@.len() == rows
            ==> column.spec_estimated_bytes() == rows + (rows + 7) / 8,
        column matches TypedColumn::Integer { values, .. } && values@.len() == rows
            ==> column.spec_estimated_bytes() == 8 * rows + (rows + 7) / 8,
        column matches TypedColumn::Float { values, .. } && values@.len() == rows
            ==> column.spec_estimated_bytes() == 8 * rows + (rows + 7) / 8,
        column matches TypedColumn::String { values, .. } && values@.len() == rows
            ==> column.spec_estimated_bytes() == 4 * rows + (rows + 7) / 8,
        column matches TypedColumn::Date { values, .. } && values@.len() == rows
            ==> column.spec_estimated_bytes() == 8 * rows + (rows + 7) / 8,
        column matches TypedColumn::LocalTime { values, .. } && values@.len() == rows
            ==> column.spec_estimated_bytes() == 8 * rows + (rows + 7) / 8,
        column matches TypedColumn::ZonedTime { nanos, offsets, .. } && nanos@.len() == rows
            && offsets@.len() == rows ==> column.spec_estimated_bytes() == 12 * rows + (rows + 7)
            / 8,
        column matches TypedColumn::LocalDateTime { seconds, nanos, .. } && seconds@.len() == rows
            && nanos@.len() == rows ==> column.spec_estimated_bytes() == 12 * rows + (rows + 7) / 8,
        column matches TypedColumn::ZonedDateTime { seconds, nanos, timezones, .. }
            && seconds@.len() == rows && nanos@.len() == rows && timezones@.len() == rows
            ==> column.spec_estimated_bytes() == 16 * rows + (rows + 7) / 8,
        column matches TypedColumn::Duration { months, days, seconds, nanos, .. } && months@.len()
            == rows && days@.len() == rows && seconds@.len() == rows && nanos@.len() == rows
            ==> column.spec_estimated_bytes() == 28 * rows + (rows + 7) / 8,
{
}

} // verus!
