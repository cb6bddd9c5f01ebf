//! Schema-keyed property columns with one shared string dictionary.

use crate::arith::{saturated, saturating_product};
use crate::columns::dictionary::Dictionary;
use crate::columns::documents::{shape_fault, validate_property_value_shape};
use crate::columns::mixed::{mixed_payload, storable};
use crate::columns::packed::flat;
use crate::columns::promotion::mixed_bytes;
use crate::columns::typed::{
    extends, learned, lemma_same_texts, replaced, text_in, unchanged, value_kind, TypedColumn,
};
use crate::columns::validity::{
    has_mark, law_mixed_mark_round_trip, marked_words, unmarked_words,
};
use crate::error::{fails_with, Error, ErrorCode, Result};
use crate::persistent::radix::PersistentMap;
use crate::shared::{clone_faithful, lemma_handle_faithful, Handle};
use crate::values::{PropertyId, Scalar, ScalarValue};
use vstd::prelude::*;

verus! {

/// Property columns by property, with one shared string dictionary.
///
/// Homogeneous properties stay physically typed. A property becomes mixed only when a value of
/// another type arrives; its physical byte column then holds one tagged payload per present row.
pub struct PropertyColumns {
    rows: usize,
    columns: PersistentMap<Handle<TypedColumn>>,
    strings: Handle<Dictionary>,
    mixed: PersistentMap<()>,
}

/// What a column holds in a row: nothing for NULL.
pub open spec fn cell_of(
    column: TypedColumn,
    tagged: bool,
    strings: Dictionary,
    row: int,
) -> Option<Scalar> {
    let cell = if tagged {
        column.mixed_cell(row)
    } else {
        column.cell(row, strings)
    };
    match cell {
        Some(Scalar::Null) => None,
        other => other,
    }
}

/// A value, or nothing for NULL.
pub open spec fn some_value(value: Scalar) -> Option<Scalar> {
    if value == Scalar::Null {
        None
    } else {
        Some(value)
    }
}

/// A sound column with this many rows.
pub open spec fn column_ok(
    column: TypedColumn,
    tagged: bool,
    strings: Dictionary,
    rows: int,
) -> bool {
    &&& column.rows() == rows
    &&& if tagged {
        column.mixed_wf()
    } else {
        column.wf(strings)
    }
}

/// The value that a row gives a property: NULL where it gives none.
pub open spec fn given(values: Seq<(PropertyId, ScalarValue)>, key: u128) -> Scalar
    decreases values.len(),
{
    if values.len() == 0 {
        Scalar::Null
    } else if values.last().0.0 as u128 == key {
        values.last().1@
    } else {
        given(values.drop_last(), key)
    }
}

/// No property occurs twice.
pub open spec fn distinct(values: Seq<(PropertyId, ScalarValue)>) -> bool {
    forall|i: int, j: int|
        0 <= i < j < values.len() ==> (#[trigger] values[i]).0.0 != (#[trigger] values[j]).0.0
}

proof fn lemma_given(values: Seq<(PropertyId, ScalarValue)>, index: int)
    requires
        distinct(values),
        0 <= index < values.len(),
    ensures
        given(values, values[index].0.0 as u128) == values[index].1@,
    decreases values.len(),
{
    if index < values.len() - 1 {
        assert(values[index].0.0 != values[values.len() - 1].0.0);
        let rest = values.drop_last();
        assert forall|i: int, j: int| 0 <= i < j < rest.len() implies (#[trigger] rest[i]).0.0 != (
        #[trigger] rest[j]).0.0 by {
            assert(values[i].0.0 != values[j].0.0);
        }
        lemma_given(rest, index);
    }
}

proof fn lemma_not_given(values: Seq<(PropertyId, ScalarValue)>, key: u128)
    requires
        forall|i: int| 0 <= i < values.len() ==> (#[trigger] values[i]).0.0 as u128 != key,
    ensures
        given(values, key) == Scalar::Null,
    decreases values.len(),
{
    if values.len() > 0 {
        assert(values[values.len() - 1].0.0 as u128 != key);
        let rest = values.drop_last();
        assert forall|i: int| 0 <= i < rest.len() implies (#[trigger] rest[i]).0.0 as u128
            != key by {
            assert(values[i].0.0 as u128 != key);
        }
        lemma_not_given(rest, key);
    }
}

/// Where a row gives a property something else than NULL.
proof fn lemma_given_at(values: Seq<(PropertyId, ScalarValue)>, key: u128) -> (index: int)
    requires
        given(values, key) != Scalar::Null,
    ensures
        0 <= index < values.len(),
        values[index].0.0 as u128 == key,
        values[index].1@ == given(values, key),
    decreases values.len(),
{
    if values.last().0.0 as u128 == key {
        values.len() - 1
    } else {
        lemma_given_at(values.drop_last(), key)
    }
}

proof fn lemma_extends_twice(first: Dictionary, second: Dictionary, third: Dictionary)
    requires
        extends(first, second),
        extends(second, third),
    ensures
        extends(first, third),
{
    assert(third@.take(first@.len() as int) =~= second@.take(first@.len() as int)) by {
        assert forall|i: int| 0 <= i < first@.len() implies third@[i] == second@[i] by {
            assert(third@.take(second@.len() as int)[i] == second@[i]);
        }
    }
}

proof fn lemma_extends_self(strings: Dictionary)
    ensures
        extends(strings, strings),
{
    assert(strings@.take(strings@.len() as int) =~= strings@);
}

impl Default for PropertyColumns {
    fn default() -> (columns: Self)
        ensures
            columns.wf(),
            columns.spec_rows() == 0,
            forall|key: u128| !#[trigger] columns.has(key),
            columns.column_total() == 0,
            columns.dictionary()@.len() == 0,
    {
        let columns = PropertyColumns {
            rows: 0,
            columns: PersistentMap::default(),
            strings: Handle::new(Dictionary::default()),
            mixed: PersistentMap::default(),
        };
        assert(columns.columns@.dom() =~= Set::<u128>::empty());
        columns
    }
}

impl Clone for PropertyColumns {
    fn clone(&self) -> (copy: Self)
        ensures
            copy == *self,
    {
        PropertyColumns {
            rows: self.rows,
            columns: self.columns.clone(),
            strings: self.strings.clone(),
            mixed: self.mixed.clone(),
        }
    }
}

impl PropertyColumns {
    pub closed spec fn spec_rows(&self) -> int {
        self.rows as int
    }

    /// The property has a column.
    pub closed spec fn has(&self, key: u128) -> bool {
        self.columns@.dom().contains(key)
    }

    /// The column of a property.
    pub closed spec fn col(&self, key: u128) -> TypedColumn {
        self.columns@[key].spec_value()
    }

    /// The property is mixed.
    pub closed spec fn tagged(&self, key: u128) -> bool {
        self.mixed@.dom().contains(key)
    }

    /// The string dictionary.
    pub closed spec fn dictionary(&self) -> Dictionary {
        self.strings.spec_value()
    }

    /// What a property holds in a row.
    pub open spec fn cell(&self, row: int, key: u128) -> Option<Scalar> {
        if self.has(key) {
            cell_of(self.col(key), self.tagged(key), self.dictionary(), row)
        } else {
            None
        }
    }

    /// The maps and the dictionary can be read, and mixed properties have a column.
    spec fn maps_ok(&self) -> bool {
        &&& self.columns.wf()
        &&& self.mixed.wf()
        &&& self.dictionary().wf()
        &&& self.rows <= u32::MAX as int + 1
        &&& forall|key: u128| #[trigger] self.has(key) ==> key <= u32::MAX
        &&& forall|key: u128| #[trigger] self.tagged(key) ==> self.has(key)
    }

    /// Every column is sound and has all rows.
    pub closed spec fn wf(&self) -> bool {
        &&& self.maps_ok()
        &&& forall|key: u128| #[trigger]
            self.has(key) ==> column_ok(
                self.col(key),
                self.tagged(key),
                self.dictionary(),
                self.spec_rows(),
            )
    }

    pub fn rows(&self) -> (rows: usize)
        ensures
            rows == self.spec_rows(),
    {
        self.rows
    }

    /// The value of a property in a row, if it has one.
    pub fn get(&self, row: u32, property: PropertyId) -> (value: Option<ScalarValue>)
        requires
            self.wf(),
        ensures
            row < self.spec_rows() ==> match value {
                Some(value) => self.cell(row as int, property.0 as u128) == Some(value@),
                None => self.cell(row as int, property.0 as u128) is None,
            },
            row >= self.spec_rows() ==> value is None,
    {
        let key: u128 = property.0 as u128;
        let column = match self.columns.get(key) {
            Some(column) => column.value(),
            None => {
                return None;
            },
        };
        assert(self.has(key));
        let value = if self.mixed.contains_key(key) {
            match column.mixed_get(row as usize) {
                Some(Ok(value)) => value,
                _ => {
                    return None;
                },
            }
        } else {
            proof {
                self.dictionary().lemma_readable();
            }
            match column.get(row as usize, self.strings.value()) {
                Some(value) => value,
                None => {
                    return None;
                },
            }
        };
        match &value {
            ScalarValue::Null => None,
            _ => Some(value),
        }
    }

    /// A homogeneous typed column. Mixed properties give none, so that tagged payloads are never read
    /// as an ordinary byte property.
    pub fn column(&self, property: PropertyId) -> (column: Option<&TypedColumn>)
        requires
            self.wf(),
        ensures
            match column {
                Some(column) => self.has(property.0 as u128) && !self.tagged(property.0 as u128)
                    && *column == self.col(property.0 as u128),
                None => !self.has(property.0 as u128) || self.tagged(property.0 as u128),
            },
    {
        if self.mixed.contains_key(property.0 as u128) {
            return None;
        }
        self.physical_column(property)
    }

    /// The physical backing column, which is a tagged byte column for a mixed property.
    pub fn physical_column(&self, property: PropertyId) -> (column: Option<&TypedColumn>)
        requires
            self.wf(),
        ensures
            match column {
                Some(column) => self.has(property.0 as u128) && *column == self.col(
                    property.0 as u128,
                ),
                None => !self.has(property.0 as u128),
            },
    {
        match self.columns.get(property.0 as u128) {
            Some(column) => Some(column.value()),
            None => None,
        }
    }

    pub fn contains(&self, property: PropertyId) -> (contained: bool)
        requires
            self.wf(),
        ensures
            contained == self.has(property.0 as u128),
    {
        self.columns.contains_key(property.0 as u128)
    }

    pub fn is_mixed(&self, property: PropertyId) -> (mixed: bool)
        requires
            self.wf(),
        ensures
            mixed == self.tagged(property.0 as u128),
    {
        self.mixed.contains_key(property.0 as u128)
    }

    /// Whether the column of a property takes a value as it is.
    pub fn accepts(&self, property: PropertyId, value: &ScalarValue) -> (accepted: Option<bool>)
        requires
            self.wf(),
        ensures
            accepted == if self.has(property.0 as u128) {
                Some(
                    self.tagged(property.0 as u128) || self.col(property.0 as u128).spec_accepts(
                        value@,
                    ),
                )
            } else {
                None
            },
    {
        match self.columns.get(property.0 as u128) {
            Some(column) => Some(
                self.mixed.contains_key(property.0 as u128) || column.value().accepts(value),
            ),
            None => None,
        }
    }

    pub fn string_dictionary(&self) -> (strings: &Dictionary)
        ensures
            *strings == self.dictionary(),
    {
        self.strings.value()
    }

    /// The physical columns, by ascending property.
    pub fn columns(&self) -> (columns: Vec<(PropertyId, &TypedColumn)>)
        requires
            self.wf(),
        ensures
            forall|i: int, j: int|
                0 <= i < j < columns@.len() ==> (#[trigger] columns@[i]).0.0 < (
                #[trigger] columns@[j]).0.0,
            forall|i: int|
                0 <= i < columns@.len() ==> self.has((#[trigger] columns@[i]).0.0 as u128)
                    && *columns@[i].1 == self.col(columns@[i].0.0 as u128),
            forall|key: u128| #[trigger]
                self.has(key) ==> exists|i: int|
                    0 <= i < columns@.len() && (#[trigger] columns@[i]).0.0 as u128 == key,
    {
        let entries = self.columns.iter();
        let mut columns: Vec<(PropertyId, &TypedColumn)> = Vec::with_capacity(entries.len());
        for index in 0..entries.len()
            invariant
                self.wf(),
                forall|i: int|
                    0 <= i < entries@.len() ==> self.has((#[trigger] entries@[i]).0)
                        && self.columns@[entries@[i].0] == *entries@[i].1,
                columns@.len() == index,
                forall|i: int|
                    0 <= i < index ==> (#[trigger] columns@[i]).0.0 as u128 == entries@[i].0
                        && *columns@[i].1 == self.col(entries@[i].0),
        {
            assert(self.has(entries@[index as int].0));
            columns.push((PropertyId(entries[index].0 as u32), entries[index].1.value()));
        }
        proof {
            assert forall|i: int, j: int| 0 <= i < j < columns@.len() implies (
            #[trigger] columns@[i]).0.0 < (#[trigger] columns@[j]).0.0 by {
                assert(entries@[i].0 < entries@[j].0);
            }
            assert forall|i: int| 0 <= i < columns@.len() implies self.has(
                (#[trigger] columns@[i]).0.0 as u128,
            ) && *columns@[i].1 == self.col(columns@[i].0.0 as u128) by {
                assert(self.has(entries@[i].0));
            }
            assert forall|key: u128| #[trigger] self.has(key) implies exists|i: int|
                0 <= i < columns@.len() && (#[trigger] columns@[i]).0.0 as u128 == key by {
                let i = choose|i: int| 0 <= i < entries@.len() && (#[trigger] entries@[i]).0 == key;
                assert(columns@[i].0.0 as u128 == key);
            }
        }
        columns
    }

    /// Properties that have a column, in ascending order.
    pub fn property_ids(&self) -> (ids: Vec<PropertyId>)
        requires
            self.wf(),
        ensures
            forall|i: int, j: int|
                0 <= i < j < ids@.len() ==> (#[trigger] ids@[i]).0 < (#[trigger] ids@[j]).0,
            forall|i: int| 0 <= i < ids@.len() ==> self.has((#[trigger] ids@[i]).0 as u128),
            forall|key: u128| #[trigger]
                self.has(key) ==> exists|i: int| 0 <= i < ids@.len() && (#[trigger] ids@[i]).0
                    as u128 == key,
    {
        let entries = self.columns.iter();
        let mut ids: Vec<PropertyId> = Vec::with_capacity(entries.len());
        for index in 0..entries.len()
            invariant
                self.wf(),
                forall|i: int|
                    0 <= i < entries@.len() ==> self.has((#[trigger] entries@[i]).0),
                ids@.len() == index,
                forall|i: int| 0 <= i < index ==> (#[trigger] ids@[i]).0 as u128 == entries@[i].0,
        {
            assert(self.has(entries@[index as int].0));
            ids.push(PropertyId(entries[index].0 as u32));
        }
        proof {
            assert forall|i: int, j: int| 0 <= i < j < ids@.len() implies (#[trigger] ids@[i]).0 < (
            #[trigger] ids@[j]).0 by {
                assert(entries@[i].0 < entries@[j].0);
            }
            assert forall|i: int| 0 <= i < ids@.len() implies self.has(
                (#[trigger] ids@[i]).0 as u128,
            ) by {
                assert(self.has(entries@[i].0));
            }
            assert forall|key: u128| #[trigger] self.has(key) implies exists|i: int|
                0 <= i < ids@.len() && (#[trigger] ids@[i]).0 as u128 == key by {
                let i = choose|i: int| 0 <= i < entries@.len() && (#[trigger] entries@[i]).0 == key;
                assert(ids@[i].0 as u128 == key);
            }
        }
        ids
    }

    /// What keeps a value out of the column of a property.
    pub open spec fn value_fault(&self, key: u128, value: Scalar) -> Option<(
        ErrorCode,
        Seq<char>,
    )> {
        if shape_fault(value) is Some {
            shape_fault(value)
        } else if self.tagged(key) {
            if !storable(value) {
                Some((ErrorCode::CorruptStorage, "document bytes are not canonical"@))
            } else {
                match self.col(key) {
                    TypedColumn::Bytes { values, .. } => if flat(values@).len() + mixed_bytes(
                        value,
                    ).len() > u32::MAX {
                        Some((ErrorCode::ResultBudgetExceeded, "packed list exhausted"@))
                    } else {
                        None
                    },
                    _ => None,
                }
            }
        } else if self.has(key) && !self.col(key).spec_accepts(value) && !storable(value) {
            Some((ErrorCode::CorruptStorage, "document bytes are not canonical"@))
        } else {
            None
        }
    }

    /// The first value of a row, from `index` on, that is kept out.
    pub open spec fn first_value_fault(
        &self,
        values: Seq<(PropertyId, ScalarValue)>,
        index: int,
    ) -> Option<(ErrorCode, Seq<char>)>
        decreases values.len() - index,
    {
        if index >= values.len() {
            None
        } else if self.value_fault(values[index].0.0 as u128, values[index].1@) is Some {
            self.value_fault(values[index].0.0 as u128, values[index].1@)
        } else {
            self.first_value_fault(values, index + 1)
        }
    }

    /// The value goes to a typed column, so that its text goes to the dictionary.
    pub open spec fn needs_dictionary(&self, key: u128, value: Scalar) -> bool {
        !self.tagged(key) && (self.has(key) ==> self.col(key).spec_accepts(value))
    }

    /// The text is new to the dictionary and comes with one of the first values of a row.
    pub open spec fn new_text(
        &self,
        values: Seq<(PropertyId, ScalarValue)>,
        count: int,
        text: Seq<char>,
    ) -> bool {
        &&& !self.dictionary()@.contains(text)
        &&& exists|i: int|
            0 <= i < count && self.needs_dictionary(
                (#[trigger] values[i]).0.0 as u128,
                values[i].1@,
            ) && text_in(values[i].1@) == Some(text)
    }

    /// The texts that a row brings to the dictionary.
    pub open spec fn new_texts(&self, values: Seq<(PropertyId, ScalarValue)>) -> Set<Seq<char>> {
        Set::new(|text: Seq<char>| self.new_text(values, values.len() as int, text))
    }

    /// What keeps a row out.
    pub open spec fn row_fault(&self, values: Seq<(PropertyId, ScalarValue)>) -> Option<(
        ErrorCode,
        Seq<char>,
    )> {
        if self.spec_rows() == usize::MAX {
            Some((ErrorCode::ResultBudgetExceeded, "property row count exhausted"@))
        } else if !distinct(values) {
            Some((ErrorCode::InvalidData, "property row contains a duplicate property"@))
        } else if self.first_value_fault(values, 0) is Some {
            self.first_value_fault(values, 0)
        } else if self.dictionary()@.len() + self.new_texts(values).len() > u32::MAX {
            Some((ErrorCode::ResultBudgetExceeded, "string dictionary exhausted"@))
        } else {
            None
        }
    }

    fn validate_row_value(&self, property: PropertyId, value: &ScalarValue) -> (result: Result<()>)
        requires
            self.wf(),
        ensures
            match self.value_fault(property.0 as u128, value@) {
                Some(fault) => fails_with(result, fault.0, fault.1),
                None => result is Ok,
            },
    {
        let key: u128 = property.0 as u128;
        match validate_property_value_shape(value) {
            Ok(_) => {},
            Err(error) => {
                return Err(error);
            },
        }
        match self.columns.get(key) {
            Some(column) => {
                assert(self.has(key));
                if self.mixed.contains_key(key) {
                    column.value().mixed_validate_push(value)
                } else if column.value().accepts(value) {
                    Ok(())
                } else {
                    match mixed_payload(value) {
                        Ok(_) => Ok(()),
                        Err(error) => Err(error),
                    }
                }
            },
            None => Ok(()),
        }
    }

    fn puts_text<'a>(&self, property: PropertyId, value: &'a ScalarValue) -> (text: Option<&'a str>)
        requires
            self.wf(),
        ensures
            match text {
                Some(text) => self.needs_dictionary(property.0 as u128, value@) && text_in(value@)
                    == Some(text@),
                None => !self.needs_dictionary(property.0 as u128, value@) || text_in(
                    value@,
                ) is None,
            },
    {
        let key: u128 = property.0 as u128;
        if self.mixed.contains_key(key) {
            return None;
        }
        if let Some(column) = self.columns.get(key) {
            if !column.value().accepts(value) {
                return None;
            }
        }
        match value {
            ScalarValue::String(text) => Some(text.as_str()),
            ScalarValue::ZonedDateTime { timezone, .. } => Some(timezone.as_str()),
            _ => None,
        }
    }

    /// How many texts a row brings to the dictionary.
    fn count_new_texts(&self, values: &[(PropertyId, ScalarValue)]) -> (count: usize)
        requires
            self.wf(),
        ensures
            self.new_texts(values@).finite(),
            count == self.new_texts(values@).len(),
    {
        let mut texts: Vec<&str> = Vec::new();
        let ghost mut seen: Seq<Seq<char>> = Seq::empty();
        for index in 0..values.len()
            invariant
                self.wf(),
                seen.len() == texts@.len(),
                forall|i: int| 0 <= i < seen.len() ==> #[trigger] seen[i] == texts@[i]@,
                seen.no_duplicates(),
                forall|text: Seq<char>| #[trigger]
                    seen.contains(text) <==> self.new_text(values@, index as int, text),
        {
            let ghost before = seen;
            if let Some(text) = self.puts_text(values[index].0, &values[index].1) {
                let known = self.strings.value().id(text).is_some();
                assert(known == self.dictionary()@.contains(text@)) by {
                    if self.dictionary()@.contains(text@) {
                        let i = choose|i: int|
                            0 <= i < self.dictionary()@.len() && self.dictionary()@[i] == text@;
                        assert(self.dictionary().holds(i, text@));
                    }
                }
                let held = contains_text(&texts, text);
                assert(held == before.contains(text@)) by {
                    if held {
                        let i = choose|i: int|
                            0 <= i < texts@.len() && (#[trigger] texts@[i])@ == text@;
                        assert(before[i] == text@);
                    }
                    if before.contains(text@) {
                        let i = choose|i: int| 0 <= i < before.len() && before[i] == text@;
                        assert(texts@[i]@ == text@);
                    }
                }
                if !known && !held {
                    texts.push(text);
                    proof {
                        seen = seen.push(text@);
                        assert(!before.contains(text@));
                    }
                }
            }
            proof {
                assert forall|text: Seq<char>| #[trigger]
                    seen.contains(text) <==> self.new_text(values@, index + 1, text) by {
                    let now = values@[index as int];
                    if self.new_text(values@, index as int, text) {
                        let i = choose|i: int|
                            0 <= i < index && self.needs_dictionary(
                                (#[trigger] values@[i]).0.0 as u128,
                                values@[i].1@,
                            ) && text_in(values@[i].1@) == Some(text);
                        assert(values@[i].0.0 == values@[i].0.0);
                    }
                    if self.new_text(values@, index + 1, text) && !self.new_text(
                        values@,
                        index as int,
                        text,
                    ) {
                        let i = choose|i: int|
                            0 <= i < index + 1 && self.needs_dictionary(
                                (#[trigger] values@[i]).0.0 as u128,
                                values@[i].1@,
                            ) && text_in(values@[i].1@) == Some(text);
                        assert(i == index);
                        if !before.contains(text) {
                            assert(seen == before.push(text));
                            assert(seen[before.len() as int] == text);
                        }
                    }
                    if seen.contains(text) {
                        if before.contains(text) {
                            assert(self.new_text(values@, index as int, text));
                        } else {
                            let i = choose|i: int| 0 <= i < seen.len() && seen[i] == text;
                            assert(i == before.len());
                            assert(values@[index as int].0.0 == now.0.0);
                        }
                    }
                    if before.contains(text) {
                        let i = choose|i: int| 0 <= i < before.len() && before[i] == text;
                        assert(seen[i] == text);
                    }
                }
            }
        }
        proof {
            assert(seen.to_set() =~= self.new_texts(values@)) by {
                assert forall|text: Seq<char>| seen.to_set().contains(text) <==> self.new_texts(
                    values@,
                ).contains(text) by {
                    assert(seen.contains(text) <==> self.new_text(
                        values@,
                        values@.len() as int,
                        text,
                    ));
                }
            }
            seen.unique_seq_to_set();
        }
        texts.len()
    }

    /// Whether a row can be appended.
    pub fn validate_push_row(&self, values: &[(PropertyId, ScalarValue)]) -> (result: Result<()>)
        requires
            self.wf(),
        ensures
            match self.row_fault(values@) {
                Some(fault) => fails_with(result, fault.0, fault.1),
                None => result is Ok,
            },
    {
        if self.rows == usize::MAX {
            return Err(
                Error::new(ErrorCode::ResultBudgetExceeded, "property row count exhausted"),
            );
        }
        if !are_distinct(values) {
            return Err(Error::invalid_data("property row contains a duplicate property"));
        }
        for index in 0..values.len()
            invariant
                self.wf(),
                self.first_value_fault(values@, 0) == self.first_value_fault(
                    values@,
                    index as int,
                ),
                self.row_fault(values@) == if self.first_value_fault(values@, 0) is Some {
                    self.first_value_fault(values@, 0)
                } else if self.dictionary()@.len() + self.new_texts(values@).len() > u32::MAX {
                    Some((ErrorCode::ResultBudgetExceeded, "string dictionary exhausted"@))
                } else {
                    None
                },
        {
            match self.validate_row_value(values[index].0, &values[index].1) {
                Ok(_) => {},
                Err(error) => {
                    return Err(error);
                },
            }
        }
        let missing: usize = self.count_new_texts(values);
        proof {
            self.dictionary().lemma_readable();
        }
        match self.strings.value().len().checked_add(missing) {
            Some(total) => if total as u64 > u32::MAX as u64 {
                Err(Error::new(ErrorCode::ResultBudgetExceeded, "string dictionary exhausted"))
            } else {
                Ok(())
            },
            None => Err(Error::new(ErrorCode::ResultBudgetExceeded, "string dictionary exhausted")),
        }
    }
}

fn contains_text(texts: &Vec<&str>, text: &str) -> (contained: bool)
    ensures
        contained == exists|i: int| 0 <= i < texts@.len() && (#[trigger] texts@[i])@ == text@,
{
    for index in 0..texts.len()
        invariant
            forall|i: int| 0 <= i < index ==> (#[trigger] texts@[i])@ != text@,
    {
        if same_text(texts[index], text) {
            return true;
        }
    }
    false
}

fn same_text(left: &str, right: &str) -> (same: bool)
    ensures
        same == (left@ == right@),
{
    broadcast use vstd::utf8::encode_utf8_decode_utf8;

    let same = crate::bytes::same_bytes(left.as_bytes(), right.as_bytes());
    proof {
        if same {
            assert(vstd::utf8::decode_utf8(vstd::utf8::encode_utf8(left@)) == left@);
            assert(vstd::utf8::decode_utf8(vstd::utf8::encode_utf8(right@)) == right@);
        }
    }
    same
}

/// Whether no property occurs twice.
fn are_distinct(values: &[(PropertyId, ScalarValue)]) -> (result: bool)
    ensures
        result == distinct(values@),
{
    let mut seen: PersistentMap<()> = PersistentMap::default();
    for index in 0..values.len()
        invariant
            seen.wf(),
            values@.len() <= usize::MAX,
            seen@.dom().finite() ==> seen@.dom().len() <= index,
            forall|key: u128| #[trigger]
                seen@.dom().contains(key) <==> exists|i: int|
                    0 <= i < index && (#[trigger] values@[i]).0.0 as u128 == key,
            forall|i: int, j: int|
                0 <= i < j < index ==> (#[trigger] values@[i]).0.0 != (#[trigger] values@[j]).0.0,
    {
        let key: u128 = values[index].0.0 as u128;
        if seen.contains_key(key) {
            proof {
                let i = choose|i: int| 0 <= i < index && (#[trigger] values@[i]).0.0 as u128 == key;
                assert(values@[i].0.0 == values@[index as int].0.0);
            }
            return false;
        }
        let ghost before = seen@;
        let _ = seen.len();
        let _ = seen.insert(key, ());
        proof {
            assert forall|other: u128| #[trigger]
                seen@.dom().contains(other) <==> exists|i: int|
                    0 <= i < index + 1 && (#[trigger] values@[i]).0.0 as u128 == other by {
                if before.dom().contains(other) {
                    let i = choose|i: int|
                        0 <= i < index && (#[trigger] values@[i]).0.0 as u128 == other;
                    assert(values@[i].0.0 as u128 == other);
                }
                if other == key {
                    assert(values@[index as int].0.0 as u128 == other);
                }
            }
            assert forall|i: int, j: int| 0 <= i < j < index + 1 implies (
            #[trigger] values@[i]).0.0 != (#[trigger] values@[j]).0.0 by {
                if j == index {
                    assert(!before.dom().contains(key));
                }
            }
        }
    }
    true
}

/// Where each property of a row stands.
spec fn indexes(lookup: PersistentMap<usize>, values: Seq<(PropertyId, ScalarValue)>) -> bool {
    &&& lookup.wf()
    &&& forall|key: u128| #[trigger]
        lookup@.dom().contains(key) ==> lookup@[key] < values.len()
            && values[lookup@[key] as int].0.0 as u128 == key
    &&& forall|i: int|
        0 <= i < values.len() ==> lookup@.dom().contains((#[trigger] values[i]).0.0 as u128)
}

fn index_row(values: &[(PropertyId, ScalarValue)]) -> (lookup: PersistentMap<usize>)
    ensures
        indexes(lookup, values@),
{
    let mut lookup: PersistentMap<usize> = PersistentMap::default();
    for index in 0..values.len()
        invariant
            values@.len() <= usize::MAX,
            lookup.wf(),
            lookup@.dom().finite() ==> lookup@.dom().len() <= index,
            forall|key: u128| #[trigger]
                lookup@.dom().contains(key) ==> lookup@[key] < values@.len()
                    && values@[lookup@[key] as int].0.0 as u128 == key,
            forall|i: int|
                0 <= i < index ==> lookup@.dom().contains((#[trigger] values@[i]).0.0 as u128),
    {
        let _ = lookup.len();
        let _ = lookup.insert(values[index].0.0 as u128, index);
    }
    lookup
}

/// What a row gives a property.
fn row_value<'a>(
    values: &'a [(PropertyId, ScalarValue)],
    lookup: &PersistentMap<usize>,
    key: u128,
    null: &'a ScalarValue,
) -> (value: &'a ScalarValue)
    requires
        indexes(*lookup, values@),
        distinct(values@),
        null@ == Scalar::Null,
    ensures
        value@ == given(values@, key),
{
    match lookup.get(key) {
        Some(index) => {
            proof {
                lemma_given(values@, *index as int);
            }
            &values[*index].1
        },
        None => {
            proof {
                lemma_not_given(values@, key);
            }
            null
        },
    }
}

/// A column that was written anew lacks room for one more payload only where 32 bits cannot count
/// the bytes.
proof fn lemma_promotion_full(column: TypedColumn, rows: int, bytes: int, value: Scalar)
    requires
        column.mixed_wf(),
        column.written(rows, bytes),
        0 <= rows <= u32::MAX,
        rows < usize::MAX,
        column.cannot_take_payload(value),
    ensures
        bytes + mixed_bytes(value).len() > u32::MAX,
{
    let more = mixed_bytes(value).len() as int;
    if bytes + more <= u32::MAX {
        column->Bytes_values.lemma_tight(rows, more);
    }
}

/// The same of a payload in place of that of a row.
proof fn lemma_promotion_set_full(
    column: TypedColumn,
    rows: int,
    bytes: int,
    row: int,
    value: Scalar,
)
    requires
        column.mixed_wf(),
        column.rows() == rows,
        column.written(rows, bytes),
        0 <= row < rows <= u32::MAX as int + 1,
        rows < usize::MAX,
        column.cannot_replace_payload(row, value),
    ensures
        bytes + mixed_bytes(value).len() > u32::MAX || rows > u32::MAX,
{
    let more = mixed_bytes(value).len() as int;
    if bytes + more <= u32::MAX && rows <= u32::MAX {
        column->Bytes_values.lemma_tight(rows, more);
    }
}

/// Appends a value to a typed or mixed column.
fn append_cell(
    column: &mut TypedColumn,
    tagged: bool,
    value: &ScalarValue,
    strings: &mut Dictionary,
) -> (result: Result<()>)
    requires
        column_ok(*old(column), tagged, *old(strings), old(column).rows()),
        old(column).rows() <= u32::MAX,
        old(column).rows() < usize::MAX,
        old(strings).wf(),
        tagged ==> storable(value@),
        !tagged ==> old(column).spec_accepts(value@),
    ensures
        final(strings).wf(),
        extends(*old(strings), *final(strings)),
        match result {
            Ok(_) => {
                &&& column_ok(*final(column), tagged, *final(strings), old(column).rows() + 1)
                &&& !tagged ==> final(column).kind() == old(column).kind()
                &&& final(strings)@ == if tagged {
                    old(strings)@
                } else {
                    learned(old(strings)@, value@)
                }
                &&& cell_of(*final(column), tagged, *final(strings), old(column).rows())
                    == some_value(value@)
                &&& forall|row: int|
                    0 <= row < old(column).rows() ==> #[trigger] cell_of(
                        *final(column),
                        tagged,
                        *final(strings),
                        row,
                    ) == cell_of(*old(column), tagged, *old(strings), row)
            },
            Err(error) => {
                &&& error.code == ErrorCode::ResultBudgetExceeded
                &&& if tagged {
                    old(column).cannot_take_payload(value@)
                } else {
                    old(column).cannot_take(value@, *old(strings))
                }
                &&& column_ok(*final(column), tagged, *final(strings), old(column).rows())
                &&& forall|row: int|
                    0 <= row < old(column).rows() ==> #[trigger] cell_of(
                        *final(column),
                        tagged,
                        *final(strings),
                        row,
                    ) == cell_of(*old(column), tagged, *old(strings), row)
            },
        },
{
    proof {
        lemma_extends_self(*strings);
    }
    if tagged {
        column.mixed_push(value)
    } else {
        column.push(value, strings)
    }
}

impl PropertyColumns {
    /// A property becomes mixed only by a value of another type. Else it stays of the type that it
    /// had, or gets that of its first value.
    pub open spec fn typed_like(&self, start: Self, key: u128, value: Scalar) -> bool {
        &&& self.tagged(key) == (start.tagged(key) || start.has(key) && !start.col(
            key,
        ).spec_accepts(value))
        &&& !self.tagged(key) ==> self.col(key).kind() == if start.has(key) {
            start.col(key).kind()
        } else {
            value_kind(value)
        }
    }

    /// A dictionary that has grown by texts of the row.
    pub open spec fn on_the_way(
        &self,
        values: Seq<(PropertyId, ScalarValue)>,
        strings: Dictionary,
    ) -> bool {
        &&& strings.wf()
        &&& extends(self.dictionary(), strings)
        &&& forall|text: Seq<char>| #[trigger]
            strings@.contains(text) ==> self.dictionary()@.contains(text) || self.new_text(
                values,
                values.len() as int,
                text,
            )
    }

    /// The property has one more row than at the start: what the row gives it, behind what it held.
    spec fn advanced(
        &self,
        start: Self,
        values: Seq<(PropertyId, ScalarValue)>,
        key: u128,
    ) -> bool {
        &&& self.has(key)
        &&& self.typed_like(start, key, given(values, key))
        &&& column_ok(self.col(key), self.tagged(key), self.dictionary(), start.rows + 1)
        &&& cell_of(self.col(key), self.tagged(key), self.dictionary(), start.rows as int)
            == some_value(given(values, key))
        &&& forall|row: int|
            0 <= row < start.rows ==> #[trigger] cell_of(
                self.col(key),
                self.tagged(key),
                self.dictionary(),
                row,
            ) == start.cell(row, key)
    }

    /// The property is as it was.
    spec fn kept(&self, start: Self, key: u128) -> bool {
        &&& self.has(key) == start.has(key)
        &&& self.has(key) ==> self.col(key) == start.col(key)
        &&& self.tagged(key) == start.tagged(key)
    }

    /// The dictionary has grown from what it was.
    spec fn progresses(&self, start: Self) -> bool {
        &&& self.maps_ok()
        &&& self.rows == start.rows
        &&& extends(start.dictionary(), self.dictionary())
    }

    proof fn lemma_still_advanced(
        &self,
        start: Self,
        middle: Self,
        values: Seq<(PropertyId, ScalarValue)>,
        key: u128,
    )
        requires
            middle.advanced(start, values, key),
            self.kept(middle, key),
            middle.dictionary().wf(),
            self.dictionary().wf(),
            extends(middle.dictionary(), self.dictionary()),
        ensures
            self.advanced(start, values, key),
    {
        if !middle.tagged(key) {
            lemma_same_texts(middle.col(key), middle.dictionary(), self.dictionary());
        }
        assert forall|row: int| 0 <= row < start.rows implies #[trigger] cell_of(
            self.col(key),
            self.tagged(key),
            self.dictionary(),
            row,
        ) == start.cell(row, key) by {
            assert(cell_of(middle.col(key), middle.tagged(key), middle.dictionary(), row)
                == start.cell(row, key));
        }
    }

    proof fn lemma_row_values(&self, values: Seq<(PropertyId, ScalarValue)>, key: u128)
        requires
            self.row_fault(values) is None,
        ensures
            self.tagged(key) ==> storable(given(values, key)),
            self.has(key) && !self.tagged(key) && !self.col(key).spec_accepts(given(values, key))
                ==> storable(given(values, key)),
    {
        if exists|i: int| 0 <= i < values.len() && (#[trigger] values[i]).0.0 as u128 == key {
            let i = choose|i: int| 0 <= i < values.len() && (#[trigger] values[i]).0.0 as u128 == key;
            lemma_given(values, i);
            self.lemma_no_fault(values, 0, i);
        } else {
            lemma_not_given(values, key);
        }
    }

    proof fn lemma_no_fault(&self, values: Seq<(PropertyId, ScalarValue)>, from: int, index: int)
        requires
            self.first_value_fault(values, from) is None,
            0 <= from <= index < values.len(),
        ensures
            self.value_fault(values[index].0.0 as u128, values[index].1@) is None,
        decreases index - from,
    {
        if from < index {
            self.lemma_no_fault(values, from + 1, index);
        }
    }

    proof fn lemma_same_way(
        &self,
        values: Seq<(PropertyId, ScalarValue)>,
        before: Dictionary,
        after: Dictionary,
    )
        requires
            self.on_the_way(values, before),
            after.wf(),
            after@ == before@,
        ensures
            self.on_the_way(values, after),
    {
        assert forall|text: Seq<char>| #[trigger] after@.contains(text) implies self.dictionary()@.contains(
            text,
        ) || self.new_text(values, values.len() as int, text) by {
            assert(before@.contains(text));
        }
    }

    /// Every cell of the rows that were there is as it was.
    pub open spec fn earlier_cells(&self, start: Self) -> bool {
        &&& self.spec_rows() == start.spec_rows()
        &&& forall|row: int, key: u128|
            0 <= row < start.spec_rows() ==> #[trigger] self.cell(row, key) == start.cell(row, key)
    }

    proof fn lemma_earlier_cells(&self, start: Self, values: Seq<(PropertyId, ScalarValue)>)
        requires
            self.rows == start.rows,
            forall|key: u128| #[trigger] self.has(key) ==> self.advanced(start, values, key),
            forall|key: u128| #[trigger] start.has(key) ==> self.has(key),
        ensures
            self.earlier_cells(start),
    {
        assert forall|row: int, key: u128|
            0 <= row < start.spec_rows() implies #[trigger] self.cell(row, key) == start.cell(
            row,
            key,
        ) by {
            if self.has(key) {
                assert(cell_of(self.col(key), self.tagged(key), self.dictionary(), row)
                    == start.cell(row, key));
            } else {
                assert(!start.has(key)) by {
                    if start.has(key) {
                        assert(self.has(key));
                    }
                }
            }
        }
    }

    /// A dictionary on the way stays so with the text of one more value of the row.
    proof fn lemma_learned(
        &self,
        values: Seq<(PropertyId, ScalarValue)>,
        index: int,
        before: Dictionary,
        after: Dictionary,
    )
        requires
            self.on_the_way(values, before),
            after.wf(),
            extends(before, after),
            0 <= index < values.len(),
            self.needs_dictionary(values[index].0.0 as u128, values[index].1@),
            after@ == learned(before@, values[index].1@),
        ensures
            self.on_the_way(values, after),
    {
        lemma_extends_twice(self.dictionary(), before, after);
        assert forall|text: Seq<char>| #[trigger] after@.contains(text) implies self.dictionary()@.contains(
            text,
        ) || self.new_text(values, values.len() as int, text) by {
            if !before@.contains(text) {
                let i = choose|i: int| 0 <= i < after@.len() && after@[i] == text;
                if i < before@.len() {
                    assert(before@[i] == text);
                }
                assert(text_in(values[index].1@) == Some(text));
            }
        }
    }

    /// A typed property that the row gives a value of another type.
    spec fn promoted(&self, values: Seq<(PropertyId, ScalarValue)>, key: u128) -> bool {
        self.has(key) && !self.tagged(key) && !self.col(key).spec_accepts(given(values, key))
    }

    /// A mixed column that takes the place of a typed one, with the new row.
    spec fn promotion_of(
        &self,
        values: Seq<(PropertyId, ScalarValue)>,
        key: u128,
        column: TypedColumn,
    ) -> bool {
        &&& self.col(key).fault(self.dictionary()) is None
        &&& column.mixed_wf()
        &&& column.rows() == self.rows + 1
        &&& column.mixed_cell(self.rows as int) == Some(given(values, key))
        &&& forall|row: int|
            0 <= row < self.rows ==> #[trigger] column.mixed_cell(row) == self.col(key).cell(
                row,
                self.dictionary(),
            )
    }

    /// The mixed columns that a row makes necessary.
    #[verifier::spinoff_prover]
    fn promotions(&self, values: &[(PropertyId, ScalarValue)]) -> (result: Result<
        PersistentMap<Handle<TypedColumn>>,
    >)
        requires
            self.wf(),
            self.rows <= u32::MAX,
            self.rows < usize::MAX,
            self.row_fault(values@) is None,
        ensures
            match result {
                Ok(promotions) => {
                    &&& promotions.wf()
                    &&& forall|key: u128| #[trigger]
                        promotions@.dom().contains(key) <==> self.promoted(values@, key)
                    &&& forall|key: u128| #[trigger]
                        promotions@.dom().contains(key) ==> self.promotion_of(
                            values@,
                            key,
                            promotions@[key].spec_value(),
                        )
                },
                Err(error) => self.refuses_row(values@, error),
            },
    {
        proof {
            lemma_handle_faithful::<TypedColumn>();
            self.dictionary().lemma_readable();
        }
        let mut promotions: PersistentMap<Handle<TypedColumn>> = PersistentMap::default();
        for index in 0..values.len()
            invariant
                self.wf(),
                self.dictionary().readable(),
                self.rows <= u32::MAX,
                self.rows < usize::MAX,
                self.row_fault(values@) is None,
                values@.len() <= usize::MAX,
                clone_faithful::<Handle<TypedColumn>>(),
                promotions.wf(),
                promotions@.dom().finite() ==> promotions@.dom().len() <= index,
                forall|key: u128| #[trigger]
                    promotions@.dom().contains(key) <==> self.promoted(values@, key) && exists|
                        i: int,
                    |
                        0 <= i < index && (#[trigger] values@[i]).0.0 as u128 == key,
                forall|key: u128| #[trigger]
                    promotions@.dom().contains(key) ==> self.promotion_of(
                        values@,
                        key,
                        promotions@[key].spec_value(),
                    ),
        {
            let key: u128 = values[index].0.0 as u128;
            let value = &values[index].1;
            let ghost before = promotions@;
            proof {
                lemma_given(values@, index as int);
                self.lemma_row_values(values@, key);
            }
            if let Some(column) = self.columns.get(key) {
                assert(self.has(key));
                if !self.mixed.contains_key(key) && !column.value().accepts(value) {
                    let mut mixed = match column.value().into_mixed(self.strings.value()) {
                        Ok(mixed) => mixed,
                        Err(error) => {
                            assert(self.refuses(values@, key, error));
                            return Err(error);
                        },
                    };
                    let ghost converted = mixed;
                    match mixed.mixed_push(value) {
                        Ok(_) => {},
                        Err(error) => {
                            proof {
                                lemma_promotion_full(
                                    converted,
                                    self.rows as int,
                                    self.col(key).payload_total(
                                        self.dictionary(),
                                        self.spec_rows(),
                                    ),
                                    value@,
                                );
                                assert(self.refuses(values@, key, error));
                            }
                            return Err(error);
                        },
                    }
                    assert(self.promotion_of(values@, key, mixed));
                    let _ = promotions.len();
                    let _ = promotions.insert(key, Handle::new(mixed));
                }
            }
            proof {
                assert forall|other: u128| #[trigger]
                    promotions@.dom().contains(other) <==> self.promoted(values@, other) && exists|
                        i: int,
                    |
                        0 <= i < index + 1 && (#[trigger] values@[i]).0.0 as u128 == other by {
                    if before.dom().contains(other) {
                        let i = choose|i: int|
                            0 <= i < index && (#[trigger] values@[i]).0.0 as u128 == other;
                        assert(values@[i].0.0 as u128 == other);
                    }
                    if other == key {
                        assert(values@[index as int].0.0 as u128 == other);
                    }
                }
            }
        }
        proof {
            assert forall|key: u128| #[trigger]
                promotions@.dom().contains(key) <==> self.promoted(values@, key) by {
                if self.promoted(values@, key) {
                    if forall|i: int| 0 <= i < values@.len() ==> (#[trigger] values@[i]).0.0 as u128
                        != key {
                        lemma_not_given(values@, key);
                    }
                }
            }
        }
        Ok(promotions)
    }

    /// Gives every column that is not promoted its value of the row.
    #[verifier::rlimit(60)]
    #[verifier::spinoff_prover]
    fn append_existing(
        &mut self,
        values: &[(PropertyId, ScalarValue)],
        promotions: &PersistentMap<Handle<TypedColumn>>,
    ) -> (result: Result<()>)
        requires
            old(self).wf(),
            old(self).rows <= u32::MAX,
            old(self).rows < usize::MAX,
            old(self).row_fault(values@) is None,
            promotions.wf(),
            forall|key: u128| #[trigger]
                promotions@.dom().contains(key) <==> old(self).promoted(values@, key),
        ensures
            match result {
                Ok(_) => {
                    &&& final(self).progresses(*old(self))
                    &&& old(self).on_the_way(values@, final(self).dictionary())
                    &&& forall|key: u128| #[trigger]
                        final(self).has(key) == old(self).has(key) && final(self).tagged(key)
                            == old(self).tagged(key)
                    &&& forall|key: u128| #[trigger]
                        final(self).has(key) ==> if promotions@.dom().contains(key) {
                            final(self).kept(*old(self), key)
                        } else {
                            final(self).advanced(*old(self), values@, key)
                        }
                },
                Err(error) => old(self).refuses_row(values@, error) && final(self).earlier_cells(
                    *old(self),
                ),
            },
    {
        let ghost start = *self;
        let lookup = index_row(values);
        let null = ScalarValue::Null;
        let keys = column_keys(&self.columns);
        proof {
            lemma_handle_faithful::<TypedColumn>();
            lemma_extends_self(self.dictionary());
        }
        for index in 0..keys.len()
            invariant
                start == *old(self),
                start.wf(),
                start.rows <= u32::MAX,
                start.rows < usize::MAX,
                start.row_fault(values@) is None,
                promotions.wf(),
                forall|key: u128| #[trigger]
                    promotions@.dom().contains(key) <==> start.promoted(values@, key),
                indexes(lookup, values@),
                null@ == Scalar::Null,
                clone_faithful::<Handle<TypedColumn>>(),
                lists_keys(keys@, start.columns@),
                self.progresses(start),
                start.on_the_way(values@, self.dictionary()),
                self.mixed == start.mixed,
                forall|key: u128| #[trigger] self.has(key) == start.has(key),
                forall|i: int|
                    0 <= i < index && !promotions@.dom().contains(#[trigger] keys@[i])
                        ==> self.advanced(start, values@, keys@[i]),
                forall|i: int|
                    0 <= i < index && promotions@.dom().contains(#[trigger] keys@[i]) ==> self.kept(
                        start,
                        keys@[i],
                    ),
                forall|i: int| index <= i < keys@.len() ==> self.kept(start, #[trigger] keys@[i]),
        {
            let key: u128 = keys[index];
            let ghost middle = *self;
            assert(self.kept(start, keys@[index as int]));
            assert(start.has(key));
            if !promotions.contains_key(key) {
                let value = row_value(values, &lookup, key, &null);
                let tagged = self.mixed.contains_key(key);
                proof {
                    start.lemma_row_values(values@, key);
                    if !tagged {
                        lemma_same_texts(
                            start.col(key),
                            start.dictionary(),
                            self.dictionary(),
                        );
                    }
                }
                if let Some(handle) = self.columns.get_mut(key) {
                    let strings = self.strings.value_mut();
                    match append_cell(handle.value_mut(), tagged, value, strings) {
                        Ok(_) => {},
                        Err(error) => {
                            proof {
                                assert(start.refuses(values@, key, error));
                                assert forall|other: u128| other != key implies #[trigger] self.kept(
                                    middle,
                                    other,
                                ) by {}
                                lemma_extends_twice(
                                    start.dictionary(),
                                    middle.dictionary(),
                                    self.dictionary(),
                                );
                                assert forall|row: int, other: u128|
                                    0 <= row < start.rows implies #[trigger] self.cell(row, other)
                                    == start.cell(row, other) by {
                                    assert(middle.has(other) == start.has(other));
                                    if other == key {
                                        assert(cell_of(
                                            self.col(key),
                                            self.tagged(key),
                                            self.dictionary(),
                                            row,
                                        ) == cell_of(
                                            middle.col(key),
                                            tagged,
                                            middle.dictionary(),
                                            row,
                                        ));
                                        assert(cell_of(
                                            middle.col(key),
                                            tagged,
                                            middle.dictionary(),
                                            row,
                                        ) == start.cell(row, key));
                                    } else {
                                        assert(self.kept(middle, other));
                                        if start.has(other) {
                                            assert(start.columns@.dom().contains(other));
                                            let i = choose|i: int|
                                                0 <= i < keys@.len() && #[trigger] keys@[i] == other;
                                            if i < index && !promotions@.dom().contains(keys@[i]) {
                                                self.lemma_still_advanced(
                                                    start,
                                                    middle,
                                                    values@,
                                                    other,
                                                );
                                            } else {
                                                assert(middle.kept(start, keys@[i]));
                                                assert(self.kept(start, other));
                                                self.lemma_kept_column(start, other);
                                            }
                                        }
                                    }
                                }
                            }
                            return Err(error);
                        },
                    }
                }
                proof {
                    if tagged || text_in(given(values@, key)) is None {
                        assert(self.dictionary()@ == middle.dictionary()@);
                        start.lemma_same_way(values@, middle.dictionary(), self.dictionary());
                    } else {
                        let i = lemma_given_at(values@, key);
                        start.lemma_learned(
                            values@,
                            i,
                            middle.dictionary(),
                            self.dictionary(),
                        );
                    }
                    lemma_extends_twice(
                        start.dictionary(),
                        middle.dictionary(),
                        self.dictionary(),
                    );
                    assert(self.advanced(start, values@, key)) by {
                        assert forall|row: int| 0 <= row < start.rows implies #[trigger] cell_of(
                            self.col(key),
                            self.tagged(key),
                            self.dictionary(),
                            row,
                        ) == start.cell(row, key) by {
                            assert(cell_of(
                                middle.col(key),
                                tagged,
                                middle.dictionary(),
                                row,
                            ) == start.cell(row, key));
                        }
                    }
                    assert forall|other: u128| other != key implies #[trigger] self.kept(
                        middle,
                        other,
                    ) by {}
                    assert forall|other: u128| #[trigger] self.has(other) == start.has(other) by {
                        assert(middle.has(other) == start.has(other));
                        if other != key {
                            assert(self.kept(middle, other));
                        }
                    }
                    assert forall|other: u128| #[trigger] self.tagged(other) implies self.has(
                        other,
                    ) by {
                        assert(start.tagged(other));
                        assert(start.has(other));
                    }
                    assert forall|other: u128| #[trigger] self.has(other) implies other
                        <= u32::MAX by {
                        assert(start.has(other));
                    }
                    assert forall|i: int| 0 <= i < index && !promotions@.dom().contains(
                        #[trigger] keys@[i],
                    ) implies self.advanced(start, values@, keys@[i]) by {
                        assert(keys@[i] != key);
                        assert(self.kept(middle, keys@[i]));
                        self.lemma_still_advanced(start, middle, values@, keys@[i]);
                    }
                    assert forall|i: int| index + 1 <= i < keys@.len() implies self.kept(
                        start,
                        #[trigger] keys@[i],
                    ) by {
                        assert(keys@[i] != key);
                        assert(middle.kept(start, keys@[i]));
                        assert(self.kept(middle, keys@[i]));
                    }
                    assert forall|i: int| 0 <= i < index && promotions@.dom().contains(
                        #[trigger] keys@[i],
                    ) implies self.kept(start, keys@[i]) by {
                        assert(keys@[i] != key);
                        assert(middle.kept(start, keys@[i]));
                        assert(self.kept(middle, keys@[i]));
                    }
                }
            }
        }
        proof {
            assert forall|key: u128| #[trigger] self.has(key) implies if promotions@.dom().contains(
                key,
            ) {
                self.kept(start, key)
            } else {
                self.advanced(start, values@, key)
            } by {
                assert(start.columns@.dom().contains(key));
                let i = choose|i: int| 0 <= i < keys@.len() && #[trigger] keys@[i] == key;
                assert(keys@[i] == key);
            }
        }
        Ok(())
    }

    /// Puts the promoted columns in place.
    #[verifier::rlimit(40)]
    #[verifier::spinoff_prover]
    fn install(
        &mut self,
        promotions: &PersistentMap<Handle<TypedColumn>>,
        values: &[(PropertyId, ScalarValue)],
        Ghost(start): Ghost<Self>,
    )
        requires
            start.wf(),
            old(self).progresses(start),
            promotions.wf(),
            forall|key: u128| #[trigger]
                promotions@.dom().contains(key) ==> start.promoted(values@, key)
                    && start.promotion_of(values@, key, promotions@[key].spec_value()),
            forall|key: u128| #[trigger] old(self).has(key) == start.has(key),
            forall|key: u128| #[trigger] old(self).tagged(key) == start.tagged(key),
            forall|key: u128| #[trigger]
                old(self).has(key) && !promotions@.dom().contains(key) ==> old(self).advanced(
                    start,
                    values@,
                    key,
                ),
        ensures
            final(self).progresses(start),
            final(self).dictionary() == old(self).dictionary(),
            forall|key: u128| #[trigger] final(self).has(key) == start.has(key),
            forall|key: u128| #[trigger]
                final(self).has(key) ==> final(self).advanced(start, values@, key),
    {
        let keys = column_keys(promotions);
        let ghost before = *self;
        proof {
            lemma_handle_faithful::<TypedColumn>();
        }
        for index in 0..keys.len()
            invariant
                start.wf(),
                promotions.wf(),
                clone_faithful::<Handle<TypedColumn>>(),
                lists_keys(keys@, promotions@),
                forall|key: u128| #[trigger]
                    promotions@.dom().contains(key) ==> start.promoted(values@, key)
                        && start.promotion_of(values@, key, promotions@[key].spec_value()),
                self.progresses(start),
                self.dictionary() == before.dictionary(),
                forall|key: u128| #[trigger] self.has(key) == start.has(key),
                forall|i: int|
                    0 <= i < index ==> self.advanced(start, values@, #[trigger] keys@[i]),
                forall|i: int|
                    index <= i < keys@.len() ==> !self.tagged(#[trigger] keys@[i]),
                forall|key: u128|
                    !promotions@.dom().contains(key) ==> #[trigger] self.kept(before, key),
        {
            let key: u128 = keys[index];
            let ghost middle = *self;
            assert(promotions@.dom().contains(keys@[index as int]));
            assert(start.has(key));
            assert(self.has(key));
            if let Some(promotion) = promotions.get(key) {
                let column = promotion.clone();
                let _ = self.columns.len();
                let _ = self.mixed.len();
                proof {
                    assert(!self.tagged(keys@[index as int]));
                    assert(self.mixed@.dom().insert(key).subset_of(self.columns@.dom())) by {
                        assert forall|other: u128| self.mixed@.dom().contains(
                            other,
                        ) implies self.columns@.dom().contains(other) by {
                            assert(self.tagged(other));
                            assert(self.has(other));
                        }
                    }
                    vstd::set_lib::lemma_len_subset(
                        self.mixed@.dom().insert(key),
                        self.columns@.dom(),
                    );
                }
                if let Some(slot) = self.columns.get_mut(key) {
                    *slot = column;
                }
                let _ = self.mixed.insert(key, ());
            }
            proof {
                assert(self.col(key) == promotions@[key].spec_value());
                assert(self.tagged(key));
                assert(self.advanced(start, values@, key)) by {
                    let column = self.col(key);
                    assert(start.promotion_of(values@, key, column));
                    assert forall|row: int| 0 <= row < start.rows implies #[trigger] cell_of(
                        self.col(key),
                        self.tagged(key),
                        self.dictionary(),
                        row,
                    ) == start.cell(row, key) by {
                        assert(column.mixed_cell(row) == start.col(key).cell(
                            row,
                            start.dictionary(),
                        ));
                    }
                }
                assert forall|other: u128| other != key implies #[trigger] self.kept(
                    middle,
                    other,
                ) by {}
                assert forall|other: u128| #[trigger] self.has(other) == start.has(other) by {
                    assert(middle.has(other) == start.has(other));
                    if other != key {
                        assert(self.kept(middle, other));
                    }
                }
                assert forall|other: u128| #[trigger] self.tagged(other) implies self.has(
                    other,
                ) by {
                    if other != key {
                        assert(self.kept(middle, other));
                        assert(middle.tagged(other));
                        assert(middle.has(other));
                    }
                }
                assert forall|other: u128| #[trigger] self.has(other) implies other <= u32::MAX by {
                    assert(start.has(other));
                }
                assert forall|i: int| 0 <= i < index implies self.advanced(
                    start,
                    values@,
                    #[trigger] keys@[i],
                ) by {
                    assert(keys@[i] != key);
                    assert(self.kept(middle, keys@[i]));
                    lemma_extends_self(self.dictionary());
                    self.lemma_still_advanced(start, middle, values@, keys@[i]);
                }
                assert forall|i: int| index + 1 <= i < keys@.len() implies !self.tagged(
                    #[trigger] keys@[i],
                ) by {
                    assert(keys@[i] != key);
                    assert(self.kept(middle, keys@[i]));
                }
                assert forall|other: u128|
                    !promotions@.dom().contains(other) implies #[trigger] self.kept(
                    before,
                    other,
                ) by {
                    assert(middle.kept(before, other));
                    assert(self.kept(middle, other));
                }
            }
        }
        proof {
            assert forall|key: u128| #[trigger] self.has(key) implies self.advanced(
                start,
                values@,
                key,
            ) by {
                if promotions@.dom().contains(key) {
                    let i = choose|i: int| 0 <= i < keys@.len() && #[trigger] keys@[i] == key;
                    assert(self.advanced(start, values@, keys@[i]));
                } else {
                    assert(self.kept(before, key));
                    assert(before.has(key));
                    lemma_extends_self(self.dictionary());
                    self.lemma_still_advanced(start, before, values@, key);
                }
            }
        }
    }

    /// Adds a column for each property that had none and gets a value.
    #[verifier::rlimit(60)]
    #[verifier::spinoff_prover]
    fn add_columns(
        &mut self,
        values: &[(PropertyId, ScalarValue)],
        Ghost(start): Ghost<Self>,
    ) -> (result: Result<()>)
        requires
            start.wf(),
            start.rows <= u32::MAX,
            start.rows < usize::MAX,
            start.row_fault(values@) is None,
            old(self).progresses(start),
            start.on_the_way(values@, old(self).dictionary()),
            forall|key: u128| #[trigger] old(self).has(key) == start.has(key),
            forall|key: u128| #[trigger]
                old(self).has(key) ==> old(self).advanced(start, values@, key),
        ensures
            match result {
                Ok(_) => {
                    &&& final(self).progresses(start)
                    &&& start.on_the_way(values@, final(self).dictionary())
                    &&& forall|key: u128| #[trigger]
                        final(self).has(key) == (start.has(key) || given(values@, key)
                            != Scalar::Null)
                    &&& forall|key: u128| #[trigger]
                        final(self).has(key) ==> final(self).advanced(start, values@, key)
                    &&& final(self).column_total() <= start.column_total() + values@.len()
                },
                Err(error) => start.refuses_row(values@, error) && final(self).earlier_cells(start),
            },
    {
        let row: usize = self.rows;
        let _ = self.columns.len();
        proof {
            lemma_handle_faithful::<TypedColumn>();
            assert forall|key: u128| self.columns@.dom().contains(
                key,
            ) == start.columns@.dom().contains(key) by {
                assert(self.has(key) == start.has(key));
            }
            assert(self.columns@.dom() =~= start.columns@.dom());
        }
        for index in 0..values.len()
            invariant
                self.columns@.dom().finite(),
                self.columns@.dom().len() <= start.column_total() + index,
                start.wf(),
                start.rows <= u32::MAX,
                start.rows < usize::MAX,
                start.row_fault(values@) is None,
                row == start.rows,
                clone_faithful::<Handle<TypedColumn>>(),
                self.progresses(start),
                start.on_the_way(values@, self.dictionary()),
                forall|key: u128| #[trigger] self.has(key) ==> self.advanced(start, values@, key),
                forall|key: u128| #[trigger]
                    self.has(key) ==> start.has(key) || given(values@, key) != Scalar::Null,
                forall|key: u128| #[trigger] start.has(key) ==> self.has(key),
                forall|i: int|
                    0 <= i < index && (#[trigger] values@[i]).1@ != Scalar::Null ==> self.has(
                        values@[i].0.0 as u128,
                    ),
        {
            let key: u128 = values[index].0.0 as u128;
            let value = &values[index].1;
            let null = match value {
                ScalarValue::Null => true,
                _ => false,
            };
            proof {
                lemma_given(values@, index as int);
            }
            if !null && !self.columns.contains_key(key) {
                let ghost middle = *self;
                assert(!start.has(key)) by {
                    if start.has(key) {
                        assert(self.has(key));
                    }
                }
                if self.columns.len() == usize::MAX {
                    let error = Error::new(
                        ErrorCode::ResultBudgetExceeded,
                        "property column count exhausted",
                    );
                    assert(start.refuses(values@, key, error));
                    proof {
                        self.lemma_earlier_cells(start, values@);
                    }
                    return Err(error);
                }
                let column = match TypedColumn::with_value(value, row, self.strings.value_mut()) {
                    Ok(column) => column,
                    Err(error) => {
                        assert(start.refuses(values@, key, error));
                        proof {
                            lemma_extends_twice(
                                start.dictionary(),
                                middle.dictionary(),
                                self.dictionary(),
                            );
                            assert forall|other: u128| #[trigger] self.has(other) implies self.advanced(
                                start,
                                values@,
                                other,
                            ) by {
                                assert(middle.has(other));
                                assert(self.kept(middle, other));
                                self.lemma_still_advanced(start, middle, values@, other);
                            }
                            assert forall|other: u128| #[trigger] start.has(other) implies self.has(
                                other,
                            ) by {
                                assert(middle.has(other));
                                assert(self.kept(middle, other));
                            }
                            self.lemma_earlier_cells(start, values@);
                        }
                        return Err(error);
                    },
                };
                proof {
                    start.lemma_learned(
                        values@,
                        index as int,
                        middle.dictionary(),
                        self.dictionary(),
                    );
                }
                let ghost fresh = column;
                let _ = self.columns.insert(key, Handle::new(column));
                proof {
                    assert(self.columns@.dom() =~= middle.columns@.dom().insert(key));
                    assert(!middle.has(key));
                    assert(!start.has(key)) by {
                        if start.has(key) {
                            assert(middle.has(key));
                        }
                    }
                    assert(!self.tagged(key)) by {
                        if self.tagged(key) {
                            assert(middle.tagged(key));
                            assert(middle.has(key));
                        }
                    }
                    lemma_extends_twice(
                        start.dictionary(),
                        middle.dictionary(),
                        self.dictionary(),
                    );
                    assert(self.col(key) == fresh);
                    assert(self.advanced(start, values@, key)) by {
                        assert forall|r: int| 0 <= r < start.rows implies #[trigger] cell_of(
                            self.col(key),
                            self.tagged(key),
                            self.dictionary(),
                            r,
                        ) == start.cell(r, key) by {
                            assert(fresh.cell(r, self.dictionary()) == Some(Scalar::Null));
                        }
                    }
                    assert forall|other: u128| other != key implies #[trigger] self.kept(
                        middle,
                        other,
                    ) by {}
                    assert forall|other: u128| #[trigger] self.has(other) implies self.advanced(
                        start,
                        values@,
                        other,
                    ) && (start.has(other) || given(values@, other) != Scalar::Null) && other
                        <= u32::MAX by {
                        if other != key {
                            assert(self.kept(middle, other));
                            assert(middle.has(other));
                            self.lemma_still_advanced(start, middle, values@, other);
                        }
                    }
                    assert forall|other: u128| #[trigger] start.has(other) implies self.has(
                        other,
                    ) by {
                        assert(middle.has(other));
                        assert(self.kept(middle, other));
                    }
                    assert forall|other: u128| #[trigger] self.tagged(other) implies self.has(
                        other,
                    ) by {
                        assert(middle.tagged(other));
                        assert(middle.has(other));
                        assert(self.kept(middle, other));
                    }
                    assert forall|i: int| 0 <= i < index && (#[trigger] values@[i]).1@
                        != Scalar::Null implies self.has(values@[i].0.0 as u128) by {
                        assert(middle.has(values@[i].0.0 as u128));
                        assert(self.kept(middle, values@[i].0.0 as u128) || values@[i].0.0 as u128
                            == key);
                    }
                }
            }
        }
        proof {
            assert forall|key: u128| #[trigger] self.has(key) == (start.has(key) || given(
                values@,
                key,
            ) != Scalar::Null) by {
                if given(values@, key) != Scalar::Null {
                    if forall|i: int| 0 <= i < values@.len() ==> (#[trigger] values@[i]).0.0 as u128
                        != key {
                        lemma_not_given(values@, key);
                    } else {
                        let i = choose|i: int|
                            0 <= i < values@.len() && (#[trigger] values@[i]).0.0 as u128 == key;
                        lemma_given(values@, i);
                        assert(values@[i].1@ != Scalar::Null);
                    }
                }
            }
        }
        Ok(())
    }

    /// A mixed property has a column.
    pub proof fn law_mixed_property_has_column(&self, key: u128)
        requires
            self.wf(),
        ensures
            self.tagged(key) ==> self.has(key),
    {
    }

    /// How many properties have a column.
    pub closed spec fn column_total(&self) -> nat {
        self.columns@.dom().len()
    }

    /// The error that keeps a property of the row from its value, none of the faults of the row being
    /// there. A value goes to no new column where no more of them can be counted, or where it fits
    /// none. It goes to no column whose bytes, or whose dictionary as it is by then, have no room. A
    /// typed column becomes mixed only if nothing is wrong with it and if its rows and their payloads
    /// can be counted.
    pub open spec fn refuses(
        &self,
        values: Seq<(PropertyId, ScalarValue)>,
        key: u128,
        error: Error,
    ) -> bool {
        let value = given(values, key);
        if !self.has(key) {
            &&& value != Scalar::Null
            &&& error.code == ErrorCode::ResultBudgetExceeded
            &&& self.column_total() + values.len() >= usize::MAX || exists|strings: Dictionary|
                #![trigger self.on_the_way(values, strings)]
                self.on_the_way(values, strings) && TypedColumn::never_fits(value, strings)
        } else if self.tagged(key) {
            &&& error.code == ErrorCode::ResultBudgetExceeded
            &&& self.col(key).cannot_take_payload(value)
        } else if self.col(key).spec_accepts(value) {
            &&& error.code == ErrorCode::ResultBudgetExceeded
            &&& exists|strings: Dictionary|
                #![trigger self.on_the_way(values, strings)]
                self.on_the_way(values, strings) && self.col(key).cannot_take(value, strings)
        } else {
            self.refuses_promotion(key, value, error)
        }
    }

    /// A typed property that gets a value of another type.
    pub open spec fn becomes_mixed(&self, key: u128, value: Scalar) -> bool {
        self.has(key) && !self.tagged(key) && !self.col(key).spec_accepts(value)
    }

    /// The error that keeps a typed column from becoming mixed with one more payload.
    pub open spec fn refuses_promotion(&self, key: u128, value: Scalar, error: Error) -> bool {
        match self.col(key).fault(self.dictionary()) {
            Some(message) => error.is(ErrorCode::CorruptStorage, message),
            None => error.code == ErrorCode::ResultBudgetExceeded && (self.col(key).payload_total(
                self.dictionary(),
                self.spec_rows(),
            ) + mixed_bytes(value).len() > u32::MAX || self.spec_rows() > u32::MAX),
        }
    }

    /// The error keeps some property of the row from its value.
    pub open spec fn refuses_row(
        &self,
        values: Seq<(PropertyId, ScalarValue)>,
        error: Error,
    ) -> bool {
        exists|key: u128| #[trigger] self.refuses(values, key, error)
    }

    /// The error that keeps a row of a property from a value, none of the faults of setting it being
    /// there.
    pub open spec fn refuses_set(&self, row: int, key: u128, value: Scalar, error: Error) -> bool {
        if !self.has(key) {
            &&& value != Scalar::Null
            &&& error.code == ErrorCode::ResultBudgetExceeded
            &&& self.column_total() == usize::MAX || TypedColumn::never_fits(
                value,
                self.dictionary(),
            )
        } else if self.tagged(key) {
            &&& error.code == ErrorCode::ResultBudgetExceeded
            &&& self.col(key).cannot_replace_payload(row, value)
        } else if self.col(key).spec_accepts(value) {
            &&& error.code == ErrorCode::ResultBudgetExceeded
            &&& self.col(key).cannot_replace(row, value, self.dictionary())
        } else {
            self.refuses_promotion(key, value, error)
        }
    }

    /// The columns hold one more row, with what the row gives.
    pub open spec fn row_pushed(
        &self,
        start: Self,
        values: Seq<(PropertyId, ScalarValue)>,
    ) -> bool {
        &&& self.wf()
        &&& self.spec_rows() == start.spec_rows() + 1
        &&& forall|key: u128| #[trigger]
            self.has(key) <==> start.has(key) || given(values, key) != Scalar::Null
        &&& forall|key: u128| #[trigger]
            self.cell(start.spec_rows(), key) == some_value(given(values, key))
        &&& forall|row: int, key: u128|
            0 <= row < start.spec_rows() ==> #[trigger] self.cell(row, key) == start.cell(row, key)
        &&& forall|key: u128|
            self.has(key) ==> #[trigger] self.typed_like(start, key, given(values, key))
        &&& start.on_the_way(values, self.dictionary())
        &&& self.column_total() <= start.column_total() + values.len()
    }

    /// Appends a row. After a failure other than those of `row_fault` some columns may have the row
    /// already; every cell of the rows before it is as it was.
    pub fn push_row(&mut self, values: &[(PropertyId, ScalarValue)]) -> (result: Result<()>)
        requires
            old(self).wf(),
            old(self).spec_rows() <= u32::MAX,
            old(self).spec_rows() < usize::MAX,
        ensures
            match old(self).row_fault(values@) {
                Some(fault) => fails_with(result, fault.0, fault.1) && *final(self) == *old(self),
                None => match result {
                    Ok(_) => final(self).row_pushed(*old(self), values@),
                    Err(error) => old(self).refuses_row(values@, error) && final(
                        self).earlier_cells(*old(self)),
                },
            },
    {
        match self.validate_push_row(values) {
            Ok(_) => {},
            Err(error) => {
                return Err(error);
            },
        }
        let ghost start = *self;
        let promotions = match self.promotions(values) {
            Ok(promotions) => promotions,
            Err(error) => {
                return Err(error);
            },
        };
        match self.append_existing(values, &promotions) {
            Ok(_) => {},
            Err(error) => {
                return Err(error);
            },
        }
        proof {
            assert forall|key: u128| #[trigger] self.has(key) == start.has(key) by {}
            assert forall|key: u128| #[trigger] self.tagged(key) == start.tagged(key) by {
                assert(self.has(key) == start.has(key));
            }
        }
        self.install(&promotions, values, Ghost(start));
        match self.add_columns(values, Ghost(start)) {
            Ok(_) => {},
            Err(error) => {
                return Err(error);
            },
        }
        let ghost staged = *self;
        self.rows = self.rows + 1;
        proof {
            assert forall|key: u128| #[trigger] self.has(key) implies column_ok(
                self.col(key),
                self.tagged(key),
                self.dictionary(),
                self.spec_rows(),
            ) && key <= u32::MAX by {
                assert(staged.has(key));
                assert(staged.advanced(start, values@, key));
            }
            assert forall|key: u128| #[trigger] self.tagged(key) implies self.has(key) by {
                assert(staged.tagged(key));
                assert(staged.has(key));
            }
            assert forall|key: u128| self.has(key) implies #[trigger] self.typed_like(
                start,
                key,
                given(values@, key),
            ) by {
                assert(staged.has(key));
                assert(staged.advanced(start, values@, key));
            }
            assert forall|key: u128| #[trigger] self.cell(start.spec_rows(), key) == some_value(
                given(values@, key),
            ) by {
                if staged.has(key) {
                    assert(staged.advanced(start, values@, key));
                }
            }
            assert forall|row: int, key: u128|
                0 <= row < start.spec_rows() implies #[trigger] self.cell(row, key) == start.cell(
                row,
                key,
            ) by {
                if staged.has(key) {
                    assert(staged.advanced(start, values@, key));
                    assert(cell_of(
                        staged.col(key),
                        staged.tagged(key),
                        staged.dictionary(),
                        row,
                    ) == start.cell(row, key));
                }
            }
            assert forall|key: u128| #[trigger]
                self.has(key) <==> start.has(key) || given(values@, key) != Scalar::Null by {
                assert(staged.has(key) == (start.has(key) || given(values@, key) != Scalar::Null));
            }
        }
        Ok(())
    }

    /// What keeps a property from being set to a value.
    pub open spec fn set_fault(&self, key: u128, value: Scalar) -> Option<(ErrorCode, Seq<char>)> {
        if shape_fault(value) is Some {
            shape_fault(value)
        } else if self.tagged(key) || (self.has(key) && !self.col(key).spec_accepts(value)) {
            if storable(value) {
                None
            } else {
                Some((ErrorCode::CorruptStorage, "document bytes are not canonical"@))
            }
        } else {
            match text_in(value) {
                Some(text) => if !self.dictionary()@.contains(text) && self.dictionary()@.len()
                    >= u32::MAX {
                    Some((ErrorCode::ResultBudgetExceeded, "string dictionary exhausted"@))
                } else {
                    None
                },
                None => None,
            }
        }
    }

    /// Whether a property can be set to a value.
    pub fn validate_value(&self, property: PropertyId, value: &ScalarValue) -> (result: Result<()>)
        requires
            self.wf(),
        ensures
            match self.set_fault(property.0 as u128, value@) {
                Some(fault) => fails_with(result, fault.0, fault.1),
                None => result is Ok,
            },
    {
        let key: u128 = property.0 as u128;
        match validate_property_value_shape(value) {
            Ok(_) => {},
            Err(error) => {
                return Err(error);
            },
        }
        let direct = !self.mixed.contains_key(key) && match self.columns.get(key) {
            Some(column) => column.value().accepts(value),
            None => true,
        };
        proof {
            if self.tagged(key) {
                assert(self.has(key));
            }
            self.dictionary().lemma_readable();
        }
        if !direct {
            return match mixed_payload(value) {
                Ok(_) => Ok(()),
                Err(error) => Err(error),
            };
        }
        let text: &str = match value {
            ScalarValue::String(text) => text.as_str(),
            ScalarValue::ZonedDateTime { timezone, .. } => timezone.as_str(),
            _ => {
                return Ok(());
            },
        };
        let strings = self.strings.value();
        let known = strings.id(text).is_some();
        assert(known == strings@.contains(text@)) by {
            if strings@.contains(text@) {
                let i = choose|i: int| 0 <= i < strings@.len() && strings@[i] == text@;
                assert(strings.holds(i, text@));
            }
        }
        if !known && strings.len() as u64 >= u32::MAX as u64 {
            return Err(
                Error::new(ErrorCode::ResultBudgetExceeded, "string dictionary exhausted"),
            );
        }
        Ok(())
    }

    /// The columns hold what they held, but for one cell.
    pub open spec fn cell_set(&self, start: Self, row: int, key: u128, value: Scalar) -> bool {
        &&& self.wf()
        &&& self.spec_rows() == start.spec_rows()
        &&& extends(start.dictionary(), self.dictionary())
        &&& self.cell(row, key) == some_value(value)
        &&& forall|other_row: int, other: u128|
            0 <= other_row < start.spec_rows() && (other_row != row || other != key)
                ==> #[trigger] self.cell(other_row, other) == start.cell(other_row, other)
        &&& forall|other: u128| #[trigger]
            self.has(other) <==> start.has(other) || (other == key && value != Scalar::Null)
        &&& self.has(key) ==> self.typed_like(start, key, value)
        &&& forall|other: u128|
            other != key && start.has(other) ==> #[trigger] self.col(other) == start.col(other)
        &&& forall|other: u128|
            other != key ==> #[trigger] self.tagged(other) == start.tagged(other)
        &&& self.dictionary()@ == if start.tagged(key) || start.has(key) && !start.col(
            key,
        ).spec_accepts(value) {
            start.dictionary()@
        } else {
            learned(start.dictionary()@, value)
        }
    }

    /// The columns hold what they held.
    pub open spec fn same_cells(&self, start: Self) -> bool {
        &&& self.wf()
        &&& self.spec_rows() == start.spec_rows()
        &&& forall|row: int, key: u128|
            0 <= row < start.spec_rows() ==> #[trigger] self.cell(row, key) == start.cell(row, key)
    }

    /// Columns that are as they were stay sound under a longer dictionary.
    proof fn lemma_kept_column(&self, start: Self, key: u128)
        requires
            start.wf(),
            self.kept(start, key),
            self.has(key),
            self.dictionary().wf(),
            extends(start.dictionary(), self.dictionary()),
        ensures
            column_ok(self.col(key), self.tagged(key), self.dictionary(), start.spec_rows()),
            forall|row: int|
                0 <= row < start.spec_rows() ==> #[trigger] self.cell(row, key) == start.cell(
                    row,
                    key,
                ),
    {
        if !self.tagged(key) {
            lemma_same_texts(start.col(key), start.dictionary(), self.dictionary());
        }
    }

    /// One column changed, the others did not.
    proof fn lemma_one_changed(&self, start: Self, key: u128)
        requires
            start.wf(),
            self.columns.wf(),
            self.mixed.wf(),
            self.dictionary().wf(),
            self.rows == start.rows,
            extends(start.dictionary(), self.dictionary()),
            forall|other: u128| other != key ==> #[trigger] self.kept(start, other),
            key <= u32::MAX,
            self.has(key) ==> column_ok(
                self.col(key),
                self.tagged(key),
                self.dictionary(),
                start.spec_rows(),
            ),
            self.tagged(key) ==> self.has(key),
        ensures
            self.wf(),
            forall|row: int, other: u128|
                0 <= row < start.spec_rows() && other != key ==> #[trigger] self.cell(row, other)
                    == start.cell(row, other),
    {
        assert forall|other: u128| #[trigger] self.has(other) implies column_ok(
            self.col(other),
            self.tagged(other),
            self.dictionary(),
            self.spec_rows(),
        ) && other <= u32::MAX by {
            if other != key {
                assert(self.kept(start, other));
                assert(start.has(other));
                self.lemma_kept_column(start, other);
            }
        }
        assert forall|other: u128| #[trigger] self.tagged(other) implies self.has(other) by {
            if other != key {
                assert(self.kept(start, other));
                assert(start.tagged(other));
                assert(start.has(other));
            }
        }
        assert forall|row: int, other: u128|
            0 <= row < start.spec_rows() && other != key implies #[trigger] self.cell(row, other)
            == start.cell(row, other) by {
            assert(self.kept(start, other));
            if self.has(other) {
                self.lemma_kept_column(start, other);
            }
        }
    }

    /// Sets a property of a row. A failure leaves every cell as it was.
    #[verifier::rlimit(60)]
    #[verifier::spinoff_prover]
    pub fn set(&mut self, row: u32, property: PropertyId, value: &ScalarValue) -> (result: Result<
        (),
    >)
        requires
            old(self).wf(),
            old(self).spec_rows() < usize::MAX,
        ensures
            if row >= old(self).spec_rows() {
                fails_with(result, ErrorCode::InvalidData, "property row is out of bounds"@)
                    && *final(self) == *old(self)
            } else {
                match old(self).set_fault(property.0 as u128, value@) {
                    Some(fault) => fails_with(result, fault.0, fault.1) && *final(self) == *old(
                        self),
                    None => match result {
                        Ok(_) => {
                            &&& final(self).cell_set(
                                *old(self),
                                row as int,
                                property.0 as u128,
                                value@,
                            )
                            &&& old(self).becomes_mixed(property.0 as u128, value@) ==> old(
                                self).col(property.0 as u128).fault(
                                old(self).dictionary(),
                            ) is None
                        },
                        Err(error) => {
                            &&& final(self).same_cells(*old(self))
                            &&& old(self).refuses_set(
                                row as int,
                                property.0 as u128,
                                value@,
                                error,
                            )
                        },
                    },
                }
            },
    {
        let index: usize = row as usize;
        if index >= self.rows {
            return Err(Error::invalid_data("property row is out of bounds"));
        }
        match self.validate_value(property, value) {
            Ok(_) => {},
            Err(error) => {
                return Err(error);
            },
        }
        let key: u128 = property.0 as u128;
        let ghost start = *self;
        proof {
            lemma_handle_faithful::<TypedColumn>();
            lemma_extends_self(self.dictionary());
            self.dictionary().lemma_readable();
            if self.tagged(key) {
                assert(self.has(key));
            }
        }
        let known = self.columns.contains_key(key);
        assert(known == start.has(key));
        if !known {
            return self.set_absent(index, key, value);
        }
        let tagged = self.mixed.contains_key(key);
        let accepted = match self.columns.get(key) {
            Some(column) => column.value().accepts(value),
            None => false,
        };
        if tagged || accepted {
            let mut result = Ok(());
            if let Some(handle) = self.columns.get_mut(key) {
                let column = handle.value_mut();
                result =
                if tagged {
                    column.mixed_set(index, value)
                } else {
                    column.set(index, value, self.strings.value_mut())
                };
            }
            proof {
                assert forall|other: u128| other != key implies #[trigger] self.kept(
                    start,
                    other,
                ) by {}
                self.lemma_one_changed(start, key);
                lemma_cell_changed(start, *self, row as int, key, value@, result is Ok);
            }
            result
        } else {
            self.set_promoted(index, key, value)
        }
    }

    /// Sets a property that has no column.
    #[verifier::rlimit(40)]
    #[verifier::spinoff_prover]
    fn set_absent(&mut self, row: usize, key: u128, value: &ScalarValue) -> (result: Result<()>)
        requires
            old(self).wf(),
            row < old(self).rows < usize::MAX,
            row <= u32::MAX,
            key <= u32::MAX,
            !old(self).has(key),
        ensures
            match result {
                Ok(_) => final(self).cell_set(*old(self), row as int, key, value@),
                Err(error) => {
                    &&& final(self).same_cells(*old(self))
                    &&& old(self).refuses_set(row as int, key, value@, error)
                },
            },
    {
        let ghost start = *self;
        proof {
            lemma_handle_faithful::<TypedColumn>();
            lemma_extends_self(self.dictionary());
            if self.tagged(key) {
                assert(self.has(key));
            }
        }
        let null = match value {
            ScalarValue::Null => true,
            _ => false,
        };
        if null {
            return Ok(());
        }
        if self.columns.len() == usize::MAX {
            return Err(
                Error::new(ErrorCode::ResultBudgetExceeded, "property column count exhausted"),
            );
        }
        let created = TypedColumn::with_value(value, row, self.strings.value_mut());
        proof {
            assert forall|other: u128| other != key implies #[trigger] self.kept(start, other) by {}
        }
        let mut column = match created {
            Ok(column) => column,
            Err(error) => {
                proof {
                    self.lemma_one_changed(start, key);
                    assert forall|r: int, other: u128|
                        0 <= r < start.spec_rows() implies #[trigger] self.cell(r, other)
                        == start.cell(r, other) by {
                        if other == key {
                            assert(!self.has(key));
                        }
                    }
                }
                return Err(error);
            },
        };
        let rows: usize = self.rows;
        let ghost strings = self.dictionary();
        for index in (row + 1)..rows
            invariant
                rows < usize::MAX,
                rows <= u32::MAX as int + 1,
                row < rows,
                column.wf(strings),
                column.rows() == index,
                forall|r: int|
                    0 <= r < index ==> #[trigger] column.cell(r, strings) == Some(
                        if r == row {
                            value@
                        } else {
                            Scalar::Null
                        },
                    ),
        {
            let ghost before = column;
            match column.push_null() {
                Ok(_) => {},
                Err(error) => {
                    assert(false);
                    return Err(error);
                },
            }
            assert(before.wf(strings));
            assert forall|r: int| 0 <= r < index + 1 implies #[trigger] column.cell(r, strings)
                == Some(
                if r == row {
                    value@
                } else {
                    Scalar::Null
                },
            ) by {
                if r < index {
                    assert(before.cell(r, strings) == column.cell(r, strings));
                }
            }
        }
        let ghost fresh = column;
        let _ = self.columns.insert(key, Handle::new(column));
        proof {
            assert forall|other: u128| other != key implies #[trigger] self.kept(start, other) by {}
            assert(self.col(key) == fresh);
            self.lemma_one_changed(start, key);
            assert forall|other_row: int, other: u128|
                0 <= other_row < start.spec_rows() && (other_row != row || other
                    != key) implies #[trigger] self.cell(other_row, other) == start.cell(
                other_row,
                other,
            ) by {
                if other == key {
                    assert(fresh.cell(other_row, strings) == Some(Scalar::Null));
                }
            }
            assert(fresh.cell(row as int, strings) == Some(value@));
            assert forall|other: u128| #[trigger]
                self.has(other) <==> start.has(other) || (other == key && value@ != Scalar::Null) by {
                if other != key {
                    assert(self.kept(start, other));
                }
            }
        }
        Ok(())
    }

    /// Sets a typed property to a value of another type.
    #[verifier::rlimit(40)]
    #[verifier::spinoff_prover]
    fn set_promoted(&mut self, row: usize, key: u128, value: &ScalarValue) -> (result: Result<()>)
        requires
            old(self).wf(),
            row < old(self).rows < usize::MAX,
            row <= u32::MAX,
            key <= u32::MAX,
            old(self).has(key),
            !old(self).tagged(key),
            storable(value@),
            value@ != Scalar::Null,
            !old(self).col(key).spec_accepts(value@),
        ensures
            match result {
                Ok(_) => {
                    &&& final(self).cell_set(*old(self), row as int, key, value@)
                    &&& old(self).col(key).fault(old(self).dictionary()) is None
                },
                Err(error) => {
                    &&& final(self).same_cells(*old(self))
                    &&& old(self).refuses_set(row as int, key, value@, error)
                },
            },
    {
        let ghost start = *self;
        proof {
            lemma_handle_faithful::<TypedColumn>();
            lemma_extends_self(self.dictionary());
            self.dictionary().lemma_readable();
        }
        let promoted = match self.columns.get(key) {
            Some(column) => column.value().into_mixed(self.strings.value()),
            None => {
                return Ok(());
            },
        };
        let mut column = match promoted {
            Ok(column) => column,
            Err(error) => {
                return Err(error);
            },
        };
        let ghost converted = column;
        match column.mixed_set(row, value) {
            Ok(_) => {},
            Err(error) => {
                proof {
                    lemma_promotion_set_full(
                        converted,
                        start.spec_rows(),
                        start.col(key).payload_total(start.dictionary(), start.spec_rows()),
                        row as int,
                        value@,
                    );
                }
                return Err(error);
            },
        }
        let ghost fresh = column;
        let _ = self.columns.len();
        let _ = self.mixed.len();
        proof {
            assert(self.mixed@.dom().insert(key).subset_of(self.columns@.dom())) by {
                assert forall|other: u128| self.mixed@.dom().contains(
                    other,
                ) implies self.columns@.dom().contains(other) by {
                    assert(self.tagged(other));
                    assert(self.has(other));
                }
            }
            vstd::set_lib::lemma_len_subset(self.mixed@.dom().insert(key), self.columns@.dom());
        }
        if let Some(slot) = self.columns.get_mut(key) {
            *slot = Handle::new(column);
        }
        let _ = self.mixed.insert(key, ());
        proof {
            assert forall|other: u128| other != key implies #[trigger] self.kept(start, other) by {}
            assert(self.col(key) == fresh);
            assert(self.tagged(key));
            self.lemma_one_changed(start, key);
            assert forall|other_row: int, other: u128|
                0 <= other_row < start.spec_rows() && (other_row != row || other
                    != key) implies #[trigger] self.cell(other_row, other) == start.cell(
                other_row,
                other,
            ) by {
                if other == key {
                    assert(fresh.mixed_cell(other_row) == converted.mixed_cell(other_row));
                    assert(converted.mixed_cell(other_row) == start.col(key).cell(
                        other_row,
                        start.dictionary(),
                    ));
                }
            }
            assert forall|other: u128| #[trigger]
                self.has(other) <==> start.has(other) || (other == key && value@ != Scalar::Null) by {
                if other != key {
                    assert(self.kept(start, other));
                }
            }
        }
        Ok(())
    }
}

/// A column whose one row was set, or that a failure left as it was.
#[verifier::spinoff_prover]
proof fn lemma_cell_changed(
    start: PropertyColumns,
    now: PropertyColumns,
    row: int,
    key: u128,
    value: Scalar,
    done: bool,
)
    requires
        start.wf(),
        now.wf(),
        now.rows == start.rows,
        extends(start.dictionary(), now.dictionary()),
        start.has(key),
        now.has(key),
        now.tagged(key) == start.tagged(key),
        !start.tagged(key) ==> start.col(key).spec_accepts(value),
        done ==> now.dictionary()@ == if start.tagged(key) {
            start.dictionary()@
        } else {
            learned(start.dictionary()@, value)
        },
        0 <= row < start.spec_rows(),
        forall|other: u128| other != key ==> #[trigger] now.kept(start, other),
        forall|r: int, other: u128|
            0 <= r < start.spec_rows() && other != key ==> #[trigger] now.cell(r, other)
                == start.cell(r, other),
        start.tagged(key) ==> if done {
            crate::columns::promotion::mixed_replaced(start.col(key), now.col(key), row, value)
        } else {
            forall|r: int| #[trigger] now.col(key).mixed_cell(r) == start.col(key).mixed_cell(r)
        },
        !start.tagged(key) ==> if done {
            replaced(start.col(key), start.dictionary(), now.col(key), now.dictionary(), row, value)
        } else {
            unchanged(start.col(key), start.dictionary(), now.col(key), now.dictionary())
        },
    ensures
        done ==> now.cell_set(start, row, key, value),
        !done ==> now.same_cells(start),
{
    assert(column_ok(
        start.col(key),
        start.tagged(key),
        start.dictionary(),
        start.spec_rows(),
    ));
    assert forall|r: int, other: u128|
        0 <= r < start.spec_rows() && (!done || r != row || other != key) implies #[trigger] now.cell(
        r,
        other,
    ) == start.cell(r, other) by {
        if other == key {
            if start.tagged(key) {
                assert(now.col(key).mixed_cell(r) == start.col(key).mixed_cell(r));
            } else {
                assert(now.col(key).cell(r, now.dictionary()) == start.col(key).cell(
                    r,
                    start.dictionary(),
                ));
            }
        }
    }
    assert forall|other: u128| #[trigger]
        now.has(other) <==> start.has(other) || (other == key && value != Scalar::Null) by {
        if other != key {
            assert(now.kept(start, other));
        }
    }
    assert forall|other: u128| other != key && start.has(other) implies #[trigger] now.col(other)
        == start.col(other) by {
        assert(now.kept(start, other));
    }
    assert forall|other: u128| other != key implies #[trigger] now.tagged(other) == start.tagged(
        other,
    ) by {
        assert(now.kept(start, other));
    }
    if done {
        assert(now.typed_like(start, key, value));
    }
}

/// What is wrong with one column.
pub open spec fn column_fault(
    column: TypedColumn,
    tagged: bool,
    strings: Dictionary,
    rows: int,
) -> Option<Seq<char>> {
    if column.fault(strings) is Some {
        column.fault(strings)
    } else if column.rows() != rows {
        Some("property column row count does not match the graph"@)
    } else if tagged {
        column.mixed_fault()
    } else {
        None
    }
}

/// A column as it goes to a checkpoint: that of a mixed property carries the mark.
pub open spec fn wired(column: TypedColumn, tagged: bool, wire: TypedColumn) -> bool {
    if tagged {
        &&& wire == column.with_validity(wire.spec_validity())
        &&& wire.spec_validity().words.wf()
        &&& wire.spec_validity().len == column.spec_validity().len
        &&& wire.spec_validity().words@ == marked_words(
            column.spec_validity().words@,
            column.rows(),
        )
    } else {
        wire == column
    }
}

/// A checkpointed byte column is mixed exactly when it carries the mark.
pub open spec fn wire_tagged(wire: TypedColumn) -> bool {
    wire is Bytes && has_mark(wire.spec_validity().words@, wire.rows())
}

/// A column as it comes from a checkpoint, without the mark.
pub open spec fn unwired(wire: TypedColumn, column: TypedColumn) -> bool {
    &&& column == wire.with_validity(column.spec_validity())
    &&& column.spec_validity().words.wf()
    &&& column.spec_validity().len == wire.spec_validity().len
    &&& column.spec_validity().words@ == if wire_tagged(wire) {
        unmarked_words(wire.spec_validity().words@, wire.rows())
    } else {
        wire.spec_validity().words@
    }
}

/// What is wrong with a column that comes from a checkpoint.
pub open spec fn wire_fault(
    wire: TypedColumn,
    strings: Dictionary,
    rows: int,
    message: Seq<char>,
) -> bool {
    exists|column: TypedColumn| #[trigger]
        unwired(wire, column) && column_fault(column, wire_tagged(wire), strings, rows) == Some(
            message,
        )
}

/// A column that goes to a checkpoint and comes back holds what it held, and is mixed if it was.
pub proof fn law_wire_round_trip(
    column: TypedColumn,
    tagged: bool,
    strings: Dictionary,
    wire: TypedColumn,
    back: TypedColumn,
)
    requires
        column_ok(column, tagged, strings, column.rows()),
        wired(column, tagged, wire),
        unwired(wire, back),
    ensures
        wire_tagged(wire) == tagged,
        back.rows() == column.rows(),
        forall|row: int|
            0 <= row < column.rows() ==> #[trigger] cell_of(back, tagged, strings, row) == cell_of(
                column,
                tagged,
                strings,
                row,
            ),
{
    law_mixed_mark_round_trip(column.spec_validity());
    assert(back.spec_validity().words@ == column.spec_validity().words@);
    assert forall|row: int| 0 <= row < column.rows() implies #[trigger] cell_of(
        back,
        tagged,
        strings,
        row,
    ) == cell_of(column, tagged, strings, row) by {
        assert(back.spec_validity().present(row) == column.spec_validity().present(row));
    }
}

impl PropertyColumns {
    /// Every part can be read, whatever it holds.
    pub closed spec fn loaded(&self) -> bool {
        &&& self.columns.wf()
        &&& self.mixed.wf()
        &&& self.dictionary().wf()
        &&& self.rows <= u32::MAX as int + 1
        &&& forall|key: u128| #[trigger]
            self.has(key) ==> key <= u32::MAX && self.col(key).readable() && self.col(key).rows()
                <= u32::MAX as int + 1
    }

    /// What is wrong with one property.
    pub open spec fn property_fault(&self, key: u128) -> Option<Seq<char>> {
        if !self.has(key) {
            if self.tagged(key) {
                Some("mixed property marker has no physical column"@)
            } else {
                None
            }
        } else {
            column_fault(self.col(key), self.tagged(key), self.dictionary(), self.spec_rows())
        }
    }

    /// No fault comes before that of a property: a mark without a column comes first, then the
    /// columns by ascending property.
    pub open spec fn reported_first(&self, key: u128) -> bool {
        self.has(key) ==> {
            &&& forall|other: u128| #[trigger] self.tagged(other) ==> self.has(other)
            &&& forall|other: u128|
                other < key && self.has(other) ==> (#[trigger] self.property_fault(other)) is None
        }
    }

    /// Accepts columns that can be read row by row.
    pub fn validate(&self) -> (result: Result<()>)
        requires
            self.loaded(),
        ensures
            match result {
                Ok(_) => self.wf() && forall|key: u128| (#[trigger] self.property_fault(
                    key,
                )) is None,
                Err(error) => error.code == ErrorCode::CorruptStorage && exists|key: u128|
                    #[trigger] self.property_fault(key) == Some(error.message@)
                        && self.reported_first(key),
            },
    {
        let marks = column_keys(&self.mixed);
        for index in 0..marks.len()
            invariant
                self.loaded(),
                lists_keys(marks@, self.mixed@),
                forall|i: int| 0 <= i < index ==> self.has(#[trigger] marks@[i]),
        {
            if !self.columns.contains_key(marks[index]) {
                assert(self.tagged(marks@[index as int]));
                assert(self.property_fault(marks@[index as int]) is Some);
                assert(self.reported_first(marks@[index as int]));
                return Err(
                    Error::new(
                        ErrorCode::CorruptStorage,
                        "mixed property marker has no physical column",
                    ),
                );
            }
        }
        let keys = column_keys(&self.columns);
        proof {
            self.dictionary().lemma_readable();
            assert forall|key: u128| #[trigger] self.tagged(key) implies self.has(key) by {
                let i = choose|i: int| 0 <= i < marks@.len() && #[trigger] marks@[i] == key;
                assert(self.has(marks@[i]));
            }
        }
        for index in 0..keys.len()
            invariant
                self.loaded(),
                self.dictionary().readable(),
                lists_keys(keys@, self.columns@),
                forall|key: u128| #[trigger] self.tagged(key) ==> self.has(key),
                forall|i: int|
                    0 <= i < index ==> (#[trigger] self.property_fault(keys@[i])) is None
                        && column_ok(
                        self.col(keys@[i]),
                        self.tagged(keys@[i]),
                        self.dictionary(),
                        self.spec_rows(),
                    ),
        {
            let key: u128 = keys[index];
            assert(self.has(key));
            proof {
                assert forall|other: u128| other < key && self.has(other) implies (
                #[trigger] self.property_fault(other)) is None by {
                    assert(self.columns@.dom().contains(other));
                    let i = choose|i: int| 0 <= i < keys@.len() && #[trigger] keys@[i] == other;
                    if i >= index {
                        assert(keys@[index as int] <= keys@[i]);
                    }
                    assert(self.property_fault(keys@[i]) is None);
                }
                assert(self.reported_first(key));
            }
            if let Some(handle) = self.columns.get(key) {
                let column = handle.value();
                match column.validate(self.strings.value()) {
                    Ok(_) => {},
                    Err(error) => {
                        assert(self.property_fault(key) == Some(error.message@));
                        return Err(error);
                    },
                }
                if column.len() != self.rows {
                    let error = Error::new(
                        ErrorCode::CorruptStorage,
                        "property column row count does not match the graph",
                    );
                    assert(self.property_fault(key) == Some(error.message@));
                    return Err(error);
                }
                if self.mixed.contains_key(key) {
                    match column.mixed_validate() {
                        Ok(_) => {},
                        Err(error) => {
                            assert(self.property_fault(key) == Some(error.message@));
                            return Err(error);
                        },
                    }
                }
            }
        }
        proof {
            assert forall|key: u128| #[trigger] self.tagged(key) implies self.has(key) by {
                let i = choose|i: int| 0 <= i < marks@.len() && #[trigger] marks@[i] == key;
                assert(self.has(marks@[i]));
            }
            assert forall|key: u128| #[trigger] self.has(key) implies column_ok(
                self.col(key),
                self.tagged(key),
                self.dictionary(),
                self.spec_rows(),
            ) && self.property_fault(key) is None by {
                let i = choose|i: int| 0 <= i < keys@.len() && #[trigger] keys@[i] == key;
                assert(self.property_fault(keys@[i]) is None);
            }
            assert forall|key: u128| (#[trigger] self.property_fault(key)) is None by {
                if self.tagged(key) {
                    assert(self.has(key));
                }
                if self.has(key) {
                    assert(self.has(key));
                }
            }
        }
        Ok(())
    }

    /// The columns as they go to a checkpoint, by ascending property.
    #[verifier::spinoff_prover]
    pub fn to_wire(&self) -> (result: Result<Vec<(PropertyId, TypedColumn)>>)
        requires
            self.wf(),
        ensures
            result matches Ok(wire) && {
                &&& forall|i: int, j: int|
                    0 <= i < j < wire@.len() ==> (#[trigger] wire@[i]).0.0 < (
                    #[trigger] wire@[j]).0.0
                &&& forall|i: int|
                    0 <= i < wire@.len() ==> self.has((#[trigger] wire@[i]).0.0 as u128) && wired(
                        self.col(wire@[i].0.0 as u128),
                        self.tagged(wire@[i].0.0 as u128),
                        wire@[i].1,
                    )
                &&& forall|key: u128| #[trigger]
                    self.has(key) ==> exists|i: int|
                        0 <= i < wire@.len() && (#[trigger] wire@[i]).0.0 as u128 == key
            },
    {
        let ids = self.property_ids();
        let mut wire: Vec<(PropertyId, TypedColumn)> = Vec::with_capacity(ids.len());
        for index in 0..ids.len()
            invariant
                self.wf(),
                forall|i: int| 0 <= i < ids@.len() ==> self.has((#[trigger] ids@[i]).0 as u128),
                wire@.len() == index,
                forall|i: int|
                    0 <= i < index ==> (#[trigger] wire@[i]).0 == ids@[i] && wired(
                        self.col(ids@[i].0 as u128),
                        self.tagged(ids@[i].0 as u128),
                        wire@[i].1,
                    ),
        {
            let id = ids[index];
            let key: u128 = id.0 as u128;
            assert(self.has(ids@[index as int].0 as u128));
            if let Some(handle) = self.columns.get(key) {
                let mut column = handle.value().clone();
                let ghost original = column;
                if self.mixed.contains_key(key) {
                    match column.validity_mut().mark_mixed_wire() {
                        Ok(_) => {},
                        Err(error) => {
                            return Err(error);
                        },
                    }
                }
                assert(wired(original, self.tagged(key), column));
                wire.push((id, column));
            }
        }
        proof {
            assert forall|i: int, j: int| 0 <= i < j < wire@.len() implies (
            #[trigger] wire@[i]).0.0 < (#[trigger] wire@[j]).0.0 by {
                assert(ids@[i].0 < ids@[j].0);
            }
            assert forall|i: int| 0 <= i < wire@.len() implies self.has(
                (#[trigger] wire@[i]).0.0 as u128,
            ) && wired(
                self.col(wire@[i].0.0 as u128),
                self.tagged(wire@[i].0.0 as u128),
                wire@[i].1,
            ) by {
                assert(self.has(ids@[i].0 as u128));
            }
            assert forall|key: u128| #[trigger] self.has(key) implies exists|i: int|
                0 <= i < wire@.len() && (#[trigger] wire@[i]).0.0 as u128 == key by {
                let i = choose|i: int| 0 <= i < ids@.len() && (#[trigger] ids@[i]).0 as u128 == key;
                assert(wire@[i].0.0 as u128 == key);
            }
        }
        Ok(wire)
    }

    /// Columns as they come from a checkpoint.
    #[verifier::rlimit(40)]
    #[verifier::spinoff_prover]
    pub fn from_wire(rows: usize, wire: Vec<(PropertyId, TypedColumn)>, strings: Dictionary) -> (
        result: Result<Self>)
        requires
            strings.wf(),
            rows <= u32::MAX,
            forall|i: int, j: int|
                0 <= i < j < wire@.len() ==> (#[trigger] wire@[i]).0.0 < (#[trigger] wire@[j]).0.0,
            forall|i: int|
                0 <= i < wire@.len() ==> (#[trigger] wire@[i]).1.readable() && wire@[i].1.rows()
                    <= u32::MAX,
        ensures
            match result {
                Ok(columns) => {
                    &&& columns.wf()
                    &&& columns.spec_rows() == rows
                    &&& columns.dictionary() == strings
                    &&& forall|key: u128| #[trigger]
                        columns.has(key) <==> exists|i: int|
                            0 <= i < wire@.len() && (#[trigger] wire@[i]).0.0 as u128 == key
                    &&& forall|i: int|
                        0 <= i < wire@.len() ==> columns.has((#[trigger] wire@[i]).0.0 as u128)
                            && columns.tagged(wire@[i].0.0 as u128) == wire_tagged(wire@[i].1)
                            && unwired(wire@[i].1, columns.col(wire@[i].0.0 as u128))
                            && column_fault(
                            columns.col(wire@[i].0.0 as u128),
                            wire_tagged(wire@[i].1),
                            strings,
                            rows as int,
                        ) is None
                },
                Err(error) => error.code == ErrorCode::CorruptStorage && exists|i: int|
                    0 <= i < wire@.len() && wire_fault(
                        #[trigger] wire@[i].1,
                        strings,
                        rows as int,
                        error.message@,
                    ),
            },
    {
        proof {
            lemma_handle_faithful::<TypedColumn>();
        }
        let mut columns = PropertyColumns {
            rows,
            columns: PersistentMap::default(),
            strings: Handle::new(strings),
            mixed: PersistentMap::default(),
        };
        for index in 0..wire.len()
            invariant
                wire@.len() <= usize::MAX,
                forall|i: int, j: int|
                    0 <= i < j < wire@.len() ==> (#[trigger] wire@[i]).0.0 < (
                    #[trigger] wire@[j]).0.0,
                forall|i: int|
                    0 <= i < wire@.len() ==> (#[trigger] wire@[i]).1.readable()
                        && wire@[i].1.rows() <= u32::MAX,
                clone_faithful::<Handle<TypedColumn>>(),
                strings.wf(),
                rows <= u32::MAX,
                columns.loaded(),
                columns.rows == rows,
                columns.dictionary() == strings,
                columns.columns@.dom().finite() ==> columns.columns@.dom().len() <= index,
                columns.mixed@.dom().finite() ==> columns.mixed@.dom().len() <= index,
                forall|key: u128| #[trigger]
                    columns.has(key) <==> exists|i: int|
                        0 <= i < index && (#[trigger] wire@[i]).0.0 as u128 == key,
                forall|key: u128| #[trigger] columns.tagged(key) ==> columns.has(key),
                forall|i: int|
                    0 <= i < index ==> columns.tagged((#[trigger] wire@[i]).0.0 as u128)
                        == wire_tagged(wire@[i].1) && unwired(
                        wire@[i].1,
                        columns.col(wire@[i].0.0 as u128),
                    ),
        {
            let key: u128 = wire[index].0.0 as u128;
            let ghost before = columns;
            let mut column = wire[index].1.clone();
            assert(wire@[index as int].1.readable());
            let is_bytes = match &column {
                TypedColumn::Bytes { .. } => true,
                _ => false,
            };
            let mut tagged = false;
            if is_bytes {
                tagged =
                match column.validity_mut().take_mixed_wire_marker() {
                    Ok(tagged) => tagged,
                    Err(error) => {
                        return Err(error);
                    },
                };
            }
            assert(unwired(wire@[index as int].1, column));
            assert(!before.has(key)) by {
                if before.has(key) {
                    let i = choose|i: int|
                        0 <= i < index && (#[trigger] wire@[i]).0.0 as u128 == key;
                    assert(wire@[i].0.0 < wire@[index as int].0.0);
                }
            }
            assert(!before.tagged(key));
            let ghost fresh = column;
            let _ = columns.columns.len();
            let _ = columns.columns.insert(key, Handle::new(column));
            if tagged {
                let _ = columns.mixed.len();
                let _ = columns.mixed.insert(key, ());
            }
            proof {
                assert(columns.col(key) == fresh);
                assert forall|other: u128| other != key implies #[trigger] columns.kept(
                    before,
                    other,
                ) by {}
                assert forall|other: u128| #[trigger]
                    columns.has(other) <==> exists|i: int|
                        0 <= i < index + 1 && (#[trigger] wire@[i]).0.0 as u128 == other by {
                    if other != key {
                        assert(columns.kept(before, other));
                        if before.has(other) {
                            let i = choose|i: int|
                                0 <= i < index && (#[trigger] wire@[i]).0.0 as u128 == other;
                            assert(wire@[i].0.0 as u128 == other);
                        }
                    } else {
                        assert(wire@[index as int].0.0 as u128 == other);
                    }
                }
                assert forall|other: u128| #[trigger] columns.has(other) implies other <= u32::MAX
                    && columns.col(other).readable() && columns.col(other).rows() <= u32::MAX as int
                    + 1 by {
                    if other != key {
                        assert(columns.kept(before, other));
                        assert(before.has(other));
                    }
                }
                assert forall|other: u128| #[trigger] columns.tagged(other) implies columns.has(
                    other,
                ) by {
                    if other != key {
                        assert(columns.kept(before, other));
                        assert(before.tagged(other));
                    }
                }
                assert forall|i: int| 0 <= i < index + 1 implies columns.tagged(
                    (#[trigger] wire@[i]).0.0 as u128,
                ) == wire_tagged(wire@[i].1) && unwired(
                    wire@[i].1,
                    columns.col(wire@[i].0.0 as u128),
                ) by {
                    if i < index {
                        assert(wire@[i].0.0 < wire@[index as int].0.0);
                        assert(columns.kept(before, wire@[i].0.0 as u128));
                        assert(before.has(wire@[i].0.0 as u128));
                    }
                }
            }
        }
        match columns.validate() {
            Ok(_) => {
                proof {
                    assert forall|i: int| 0 <= i < wire@.len() implies columns.has(
                        (#[trigger] wire@[i]).0.0 as u128,
                    ) && columns.tagged(wire@[i].0.0 as u128) == wire_tagged(wire@[i].1) && unwired(
                        wire@[i].1,
                        columns.col(wire@[i].0.0 as u128),
                    ) && column_fault(
                        columns.col(wire@[i].0.0 as u128),
                        wire_tagged(wire@[i].1),
                        strings,
                        rows as int,
                    ) is None by {
                        assert(columns.property_fault(wire@[i].0.0 as u128) is None);
                    }
                }
                Ok(columns)
            },
            Err(error) => {
                proof {
                    let key = choose|key: u128| #[trigger]
                        columns.property_fault(key) == Some(error.message@);
                    assert(columns.has(key));
                    let i = choose|i: int|
                        0 <= i < wire@.len() && (#[trigger] wire@[i]).0.0 as u128 == key;
                    assert(unwired(wire@[i].1, columns.col(key)));
                    assert(wire_fault(wire@[i].1, strings, rows as int, error.message@));
                }
                Err(error)
            },
        }
    }
}

/// Total size of the columns of the properties below a bound.
pub open spec fn bytes_below(columns: PropertyColumns, bound: int) -> int
    decreases bound,
{
    if bound <= 0 {
        0
    } else {
        bytes_below(columns, bound - 1) + if columns.has((bound - 1) as u128) {
            columns.col((bound - 1) as u128).spec_estimated_bytes()
        } else {
            0
        }
    }
}

proof fn lemma_bytes_gap(columns: PropertyColumns, low: int, high: int)
    requires
        0 <= low <= high,
        forall|key: int| low <= key < high ==> !columns.has(#[trigger] (key as u128)),
    ensures
        bytes_below(columns, high) == bytes_below(columns, low),
    decreases high,
{
    if low < high {
        lemma_bytes_gap(columns, low, high - 1);
        assert(!columns.has((high - 1) as u128));
    }
}

impl PropertyColumns {
    /// Bytes of all columns, of the dictionary and of the marks of mixed properties.
    pub fn estimated_bytes(&self) -> (bytes: usize)
        requires
            self.wf(),
        ensures
            bytes == saturated(
                saturated(
                    saturated(bytes_below(*self, u32::MAX as int + 1))
                        + self.dictionary().spec_estimated_bytes(),
                ) + saturated(self.mixed_total() * 4),
            ),
    {
        let keys = column_keys(&self.columns);
        let mut total: usize = 0;
        let ghost mut place: int = 0;
        for index in 0..keys.len()
            invariant
                self.wf(),
                lists_keys(keys@, self.columns@),
                place == if index == 0 {
                    0
                } else {
                    keys@[index - 1] + 1
                },
                0 <= place,
                bytes_below(*self, place) >= 0,
                total == saturated(bytes_below(*self, place)),
        {
            let key: u128 = keys[index];
            assert(self.has(keys@[index as int]));
            if let Some(handle) = self.columns.get(key) {
                total = total.saturating_add(handle.value().estimated_bytes());
            }
            proof {
                assert forall|other: int| place <= other < key implies !self.has(
                    #[trigger] (other as u128),
                ) by {
                    if self.has(other as u128) {
                        let i = choose|i: int|
                            0 <= i < keys@.len() && #[trigger] keys@[i] == other as u128;
                        if i < index - 1 {
                            assert(keys@[i] < keys@[index - 1]);
                        }
                        if i > index {
                            assert(keys@[index as int] < keys@[i]);
                        }
                    }
                }
                if index > 0 {
                    assert(keys@[index - 1] < keys@[index as int]);
                }
                lemma_bytes_gap(*self, place, key as int);
                assert(self.col(key).spec_estimated_bytes() >= 0);
                place = key + 1;
            }
        }
        proof {
            assert forall|other: int| place <= other < u32::MAX as int + 1 implies !self.has(
                #[trigger] (other as u128),
            ) by {
                if self.has(other as u128) {
                    let i = choose|i: int|
                        0 <= i < keys@.len() && #[trigger] keys@[i] == other as u128;
                    if i < keys@.len() - 1 {
                        assert(keys@[i] < keys@[keys@.len() - 1]);
                    }
                }
            }
            if keys@.len() > 0 {
                assert(self.has(keys@[keys@.len() - 1]));
            }
            lemma_bytes_gap(*self, place, u32::MAX as int + 1);
        }
        total.saturating_add(self.strings.value().estimated_bytes()).saturating_add(
            saturating_product(self.mixed.len(), 4),
        )
    }

    /// Number of mixed properties.
    pub closed spec fn mixed_total(&self) -> int {
        self.mixed@.dom().len() as int
    }

    /// The column of a property takes much more room than it needs.
    pub open spec fn needs_seal(&self, key: u128) -> bool {
        self.has(key) && if self.tagged(key) {
            match self.col(key) {
                TypedColumn::Bytes { values, .. } => values.spec_needs_seal(),
                _ => false,
            }
        } else {
            self.col(key).spec_document_needs_seal()
        }
    }

    /// Writes anew the columns that take much more room than they need. Every cell stays as it was.
    #[verifier::rlimit(40)]
    #[verifier::spinoff_prover]
    pub fn seal_documents_if_needed(&mut self) -> (result: Result<bool>)
        requires
            old(self).wf(),
            old(self).spec_rows() <= u32::MAX,
        ensures
            final(self).same_cells(*old(self)),
            result matches Ok(sealed) && sealed == exists|key: u128| #[trigger]
                old(self).needs_seal(key),
            forall|key: u128| !#[trigger] final(self).needs_seal(key),
            forall|key: u128|
                old(self).has(key) && !old(self).needs_seal(key) ==> #[trigger] final(self).col(key)
                    == old(self).col(key),
    {
        let ghost start = *self;
        let keys = column_keys(&self.columns);
        let mut sealed = false;
        proof {
            lemma_handle_faithful::<TypedColumn>();
            lemma_extends_self(self.dictionary());
        }
        for index in 0..keys.len()
            invariant
                start == *old(self),
                start.wf(),
                start.spec_rows() <= u32::MAX,
                clone_faithful::<Handle<TypedColumn>>(),
                lists_keys(keys@, start.columns@),
                self.same_cells(start),
                self.mixed == start.mixed,
                self.strings == start.strings,
                forall|key: u128| #[trigger] self.has(key) == start.has(key),
                forall|i: int| index <= i < keys@.len() ==> self.kept(start, #[trigger] keys@[i]),
                forall|i: int| 0 <= i < index ==> !self.needs_seal(#[trigger] keys@[i]),
                forall|key: u128|
                    start.has(key) && !start.needs_seal(key) ==> #[trigger] self.col(key)
                        == start.col(key),
                sealed == exists|i: int| 0 <= i < index && start.needs_seal(#[trigger] keys@[i]),
        {
            let key: u128 = keys[index];
            let ghost middle = *self;
            assert(self.kept(start, keys@[index as int]));
            assert(start.has(key));
            assert(self.has(key));
            let tagged = self.mixed.contains_key(key);
            let needed = match self.columns.get(key) {
                Some(handle) => if tagged {
                    match handle.value() {
                        TypedColumn::Bytes { values, .. } => values.needs_seal(),
                        _ => false,
                    }
                } else {
                    handle.value().document_needs_seal()
                },
                None => false,
            };
            assert(needed == start.needs_seal(key));
            if needed {
                let mut result = Ok(());
                if let Some(handle) = self.columns.get_mut(key) {
                    let column = handle.value_mut();
                    result =
                    if tagged {
                        match column {
                            TypedColumn::Bytes { values, .. } => values.seal(),
                            _ => Ok(()),
                        }
                    } else {
                        column.seal_document()
                    };
                }
                proof {
                    assert forall|other: u128| other != key implies #[trigger] self.kept(
                        middle,
                        other,
                    ) by {}
                    lemma_sealed(middle, *self, key);
                    assert forall|row: int, other: u128|
                        0 <= row < start.spec_rows() implies #[trigger] self.cell(row, other)
                        == start.cell(row, other) by {
                        assert(middle.cell(row, other) == start.cell(row, other));
                    }
                    assert forall|other: u128| #[trigger] self.has(other) == start.has(other) by {
                        assert(middle.has(other) == start.has(other));
                        if other != key {
                            assert(self.kept(middle, other));
                        }
                    }
                    assert forall|i: int| index + 1 <= i < keys@.len() implies self.kept(
                        start,
                        #[trigger] keys@[i],
                    ) by {
                        assert(keys@[i] != key);
                        assert(middle.kept(start, keys@[i]));
                        assert(self.kept(middle, keys@[i]));
                    }
                    assert(!self.needs_seal(key));
                    assert forall|i: int| 0 <= i < index + 1 implies !self.needs_seal(
                        #[trigger] keys@[i],
                    ) by {
                        if keys@[i] != key {
                            assert(!middle.needs_seal(keys@[i]));
                            assert(self.kept(middle, keys@[i]));
                        }
                    }
                    assert forall|other: u128|
                        start.has(other) && !start.needs_seal(other) implies #[trigger] self.col(
                        other,
                    ) == start.col(other) by {
                        assert(self.kept(middle, other));
                        assert(middle.col(other) == start.col(other));
                        assert(middle.has(other));
                    }
                }
                match result {
                    Ok(_) => {},
                    Err(error) => {
                        return Err(error);
                    },
                }
                assert(start.needs_seal(keys@[index as int]));
                sealed = true;
            }
        }
        proof {
            if exists|key: u128| #[trigger] start.needs_seal(key) {
                let key = choose|key: u128| #[trigger] start.needs_seal(key);
                assert(start.columns@.dom().contains(key));
                let i = choose|i: int| 0 <= i < keys@.len() && #[trigger] keys@[i] == key;
                assert(start.needs_seal(keys@[i]));
            }
            assert forall|key: u128| !#[trigger] self.needs_seal(key) by {
                if self.has(key) {
                    assert(start.has(key));
                    assert(start.columns@.dom().contains(key));
                    let i = choose|i: int| 0 <= i < keys@.len() && #[trigger] keys@[i] == key;
                    assert(!self.needs_seal(keys@[i]));
                }
            }
        }
        Ok(sealed)
    }

    /// The string dictionary, to rebind its storage without changing what it holds.
    pub fn string_dictionary_mut(&mut self) -> (strings: &mut Dictionary)
        ensures
            *strings == old(self).dictionary(),
            final(self).dictionary() == *final(strings),
            final(self).spec_rows() == old(self).spec_rows(),
            forall|key: u128| #[trigger] final(self).has(key) == old(self).has(key),
            forall|key: u128| #[trigger] final(self).tagged(key) == old(self).tagged(key),
            forall|key: u128| #[trigger] final(self).col(key) == old(self).col(key),
    {
        self.strings.value_mut()
    }

    /// The physical column of a property, to rebind its storage without changing what it holds.
    pub fn physical_column_mut(&mut self, property: PropertyId) -> (column: Option<&mut TypedColumn>)
        requires
            old(self).wf(),
        ensures
            forall|key: u128| #[trigger] final(self).has(key) == old(self).has(key),
            forall|key: u128| #[trigger] final(self).tagged(key) == old(self).tagged(key),
            final(self).spec_rows() == old(self).spec_rows(),
            final(self).dictionary() == old(self).dictionary(),
            match column {
                Some(column) => {
                    &&& old(self).has(property.0 as u128)
                    &&& *column == old(self).col(property.0 as u128)
                    &&& final(self).col(property.0 as u128) == *final(column)
                    &&& forall|key: u128|
                        old(self).has(key) && key != property.0 as u128 ==> #[trigger] final(
                            self).col(key) == old(self).col(key)
                },
                None => !old(self).has(property.0 as u128) && forall|key: u128|
                    old(self).has(key) ==> #[trigger] final(self).col(key) == old(self).col(key),
            },
    {
        proof {
            lemma_handle_faithful::<TypedColumn>();
        }
        match self.columns.get_mut(property.0 as u128) {
            Some(handle) => Some(handle.value_mut()),
            None => None,
        }
    }
}

/// Rewriting one column leaves the cells as they were.
#[verifier::spinoff_prover]
proof fn lemma_sealed(before: PropertyColumns, after: PropertyColumns, key: u128)
    requires
        before.wf(),
        after.columns.wf(),
        after.mixed == before.mixed,
        after.strings == before.strings,
        after.rows == before.rows,
        before.has(key),
        after.has(key),
        forall|other: u128| other != key ==> #[trigger] after.kept(before, other),
        after.col(key).rows() == before.col(key).rows(),
        if before.tagged(key) {
            match (before.col(key), after.col(key)) {
                (
                    TypedColumn::Bytes { values: old_values, validity: old_validity },
                    TypedColumn::Bytes { values, validity },
                ) => values.wf() && values@ == old_values@ && validity == old_validity,
                _ => false,
            }
        } else {
            &&& after.col(key).sound()
            &&& forall|row: int, strings: Dictionary| #[trigger]
                after.col(key).cell(row, strings) == before.col(key).cell(row, strings)
        },
    ensures
        after.wf(),
        forall|row: int, other: u128| #[trigger]
            after.cell(row, other) == before.cell(row, other),
{
    assert(before.has(key));
    let strings = before.dictionary();
    if before.tagged(key) {
        assert forall|row: int| 0 <= row < after.col(key).rows() implies (
        #[trigger] after.col(key).mixed_row_fault(row)) is None by {
            assert(before.col(key).mixed_row_fault(row) is None);
        }
    } else {
        assert forall|row: int| 0 <= row < after.col(key).rows() implies (
        #[trigger] after.col(key).cell(row, strings)) is Some by {
            assert(before.col(key).cell(row, strings) is Some);
        }
    }
    assert forall|other: u128| #[trigger] after.has(other) implies column_ok(
        after.col(other),
        after.tagged(other),
        after.dictionary(),
        after.spec_rows(),
    ) && other <= u32::MAX by {
        if other != key {
            assert(after.kept(before, other));
        }
        assert(before.has(other));
    }
    assert forall|other: u128| #[trigger] after.tagged(other) implies after.has(other) by {
        assert(before.tagged(other));
        assert(before.has(other));
        if other != key {
            assert(after.kept(before, other));
        }
    }
    assert forall|row: int, other: u128| #[trigger] after.cell(row, other) == before.cell(
        row,
        other,
    ) by {
        if other != key {
            assert(after.kept(before, other));
        } else if before.tagged(key) {
            assert(after.col(key).mixed_cell(row) == before.col(key).mixed_cell(row));
        }
    }
}

/// The keys of a map, each once.
spec fn lists_keys<V>(keys: Seq<u128>, map: Map<u128, V>) -> bool {
    &&& forall|i: int, j: int|
        0 <= i < j < keys.len() ==> (#[trigger] keys[i]) < (#[trigger] keys[j])
    &&& forall|i: int| 0 <= i < keys.len() ==> map.dom().contains(#[trigger] keys[i])
    &&& forall|key: u128| #[trigger]
        map.dom().contains(key) ==> exists|i: int| 0 <= i < keys.len() && #[trigger] keys[i] == key
}

fn column_keys<V>(map: &PersistentMap<V>) -> (keys: Vec<u128>)
    requires
        map.wf(),
    ensures
        lists_keys(keys@, map@),
{
    let entries = map.iter();
    let mut keys: Vec<u128> = Vec::with_capacity(entries.len());
    for index in 0..entries.len()
        invariant
            keys@.len() == index,
            forall|i: int| 0 <= i < index ==> #[trigger] keys@[i] == entries@[i].0,
    {
        keys.push(entries[index].0);
    }
    proof {
        assert forall|i: int, j: int| 0 <= i < j < keys@.len() implies (#[trigger] keys@[i]) < (
        #[trigger] keys@[j]) by {
            assert(entries@[i].0 < entries@[j].0);
        }
        assert forall|i: int| 0 <= i < keys@.len() implies map@.dom().contains(
            #[trigger] keys@[i],
        ) by {
            assert(map@.dom().contains(entries@[i].0));
        }
        assert forall|key: u128| #[trigger] map@.dom().contains(key) implies exists|i: int|
            0 <= i < keys@.len() && #[trigger] keys@[i] == key by {
            let i = choose|i: int| 0 <= i < entries@.len() && (#[trigger] entries@[i]).0 == key;
            assert(keys@[i] == key);
        }
    }
    keys
}

/// A row that was pushed reads back: each property has the value that the row gave it, a property that it
/// gave NULL or nothing has none, and what earlier rows hold stays.
pub proof fn law_pushed_rows_read_back(
    before: PropertyColumns,
    after: PropertyColumns,
    values: Seq<(PropertyId, ScalarValue)>,
    place: int,
    row: int,
    key: u128,
)
    requires
        before.row_fault(values) is None,
        after.row_pushed(before, values),
        0 <= row < before.spec_rows(),
    ensures
        after.spec_rows() == before.spec_rows() + 1,
        0 <= place < values.len() ==> match values[place].1@ {
            Scalar::Null => after.cell(before.spec_rows(), values[place].0.0 as u128) is None,
            value => after.cell(before.spec_rows(), values[place].0.0 as u128) == Some(value),
        },
        (forall|i: int| 0 <= i < values.len() ==> (#[trigger] values[i]).0.0 as u128 != key)
            ==> after.cell(before.spec_rows(), key) is None,
        after.cell(row, key) == before.cell(row, key),
{
    if 0 <= place < values.len() {
        lemma_given(values, place);
    }
    if forall|i: int| 0 <= i < values.len() ==> (#[trigger] values[i]).0.0 as u128 != key {
        lemma_not_given(values, key);
    }
    assert(after.cell(before.spec_rows(), key) == some_value(given(values, key)));
}

/// A value that was set reads back, NULL takes the value away, and every other cell stays, whatever
/// became of the column.
pub proof fn law_set_values_read_back(
    before: PropertyColumns,
    after: PropertyColumns,
    row: int,
    key: u128,
    value: Scalar,
    other_row: int,
    other: u128,
)
    requires
        after.cell_set(before, row, key, value),
        0 <= other_row < before.spec_rows(),
    ensures
        after.spec_rows() == before.spec_rows(),
        value == Scalar::Null ==> after.cell(row, key) is None,
        value != Scalar::Null ==> after.cell(row, key) == Some(value),
        other_row != row || other != key ==> after.cell(other_row, other) == before.cell(
            other_row,
            other,
        ),
{
}

/// A property that has no column so far has no value in any row, and a row that gives a property twice is
/// refused.
pub proof fn law_absent_and_repeated_properties(
    columns: PropertyColumns,
    values: Seq<(PropertyId, ScalarValue)>,
    row: int,
    key: u128,
    first: int,
    second: int,
)
    ensures
        !columns.has(key) ==> columns.cell(row, key) is None,
        0 <= first < second < values.len() && values[first].0 == values[second].0
            ==> columns.row_fault(values) is Some,
{
    if 0 <= first < second < values.len() && values[first].0 == values[second].0 {
        assert(!distinct(values));
    }
}

} // verus!
