use irongraph::columns::dictionary::{ByteValues, Dictionary};
use irongraph::columns::documents::{validate_property_value_shape, DocumentItem};
use irongraph::columns::mixed::{mixed_payload, mixed_value};
use irongraph::columns::packed::PackedLists;
use irongraph::columns::properties::PropertyColumns;
use irongraph::columns::typed::TypedColumn;
use irongraph::columns::validity::Validity;
use irongraph::error::{Error, ErrorCode, Result};
use irongraph::persistent::paged::PagedVec;
use irongraph::shared::SharedFlat;
use irongraph::values::{DocumentList, PropertyId, ScalarValue};
use std::sync::Arc;

fn text(value: &str) -> ScalarValue {
    ScalarValue::String(value.to_string())
}

#[test]
fn packed_list_shared_extension_seals_only_the_same_allocation_tail() -> Result<()> {
    let old_rows = 100_000_usize;
    let appended = 256_usize;
    let offsets: Arc<[u32]> = (0..=old_rows + appended)
        .map(|row| u32::try_from(row).expect("test row fits u32"))
        .collect::<Vec<_>>()
        .into();
    let values: Arc<[u64]> = (0..old_rows + appended)
        .map(|row| row as u64)
        .collect::<Vec<_>>()
        .into();
    let full_offsets = SharedFlat::from_arc_slice(offsets).expect("shared offsets");
    let full_values = SharedFlat::from_arc_slice(values).expect("shared values");
    let mut lists = PackedLists::default();
    lists.rebase_shared(
        full_offsets
            .slice(0, old_rows + 1)
            .expect("shared offset prefix"),
        full_values.slice(0, old_rows).expect("shared value prefix"),
    )?;
    for row in old_rows..old_rows + appended {
        lists.push(vec![row as u64])?;
    }

    lists.rebase_shared_extension(full_offsets, full_values)?;

    assert_eq!(lists.rows(), old_rows + appended);
    assert_eq!(lists.get(0), Some([0_u64].as_slice()));
    assert_eq!(
        lists.get((old_rows + appended - 1) as u32),
        Some([(old_rows + appended - 1) as u64].as_slice())
    );
    Ok(())
}

fn heterogeneous_values() -> Result<Vec<ScalarValue>> {
    Ok(vec![
        ScalarValue::Integer(0),
        text("xx"),
        ScalarValue::Boolean(true),
        ScalarValue::Float(1.25_f64.to_bits()),
        ScalarValue::Bytes(vec![1_u8, 2, 3]),
        ScalarValue::Date(19_000),
        ScalarValue::LocalTime(42),
        ScalarValue::ZonedTime {
            nanos: 43,
            offset_seconds: 3_600,
        },
        ScalarValue::LocalDateTime {
            seconds: 44,
            nanos: 45,
        },
        ScalarValue::ZonedDateTime {
            seconds: 46,
            nanos: 47,
            timezone: "Europe/London".to_string(),
        },
        ScalarValue::Duration {
            months: 1,
            days: 2,
            seconds: 3,
            nanos: 4,
        },
        ScalarValue::List(DocumentList::new(vec![DocumentItem::Scalar(
            ScalarValue::Integer(5),
        )])?),
    ])
}

#[test]
fn absent_property_cells_are_not_materialized_as_null_properties() -> Result<()> {
    let property = PropertyId(7);
    let mut columns = PropertyColumns::default();
    columns.push_row(&[(property, ScalarValue::Integer(42))])?;
    columns.push_row(&[])?;

    assert_eq!(columns.get(0, property), Some(ScalarValue::Integer(42)));
    assert_eq!(columns.get(1, property), None);
    Ok(())
}

#[test]
fn conflicting_property_kinds_promote_once_and_preserve_every_value() -> Result<()> {
    let property = PropertyId(7);
    let values = heterogeneous_values()?;
    let mut columns = PropertyColumns::default();
    for value in &values {
        columns.push_row(&[(property, value.clone())])?;
    }
    columns.push_row(&[])?;
    columns.push_row(&[(property, ScalarValue::Null)])?;

    assert!(columns.is_mixed(property));
    assert!(columns.column(property).is_none());
    assert!(matches!(
        columns.physical_column(property),
        Some(TypedColumn::Bytes { .. })
    ));
    for (row, expected) in values.into_iter().enumerate() {
        assert_eq!(columns.get(row as u32, property), Some(expected));
    }
    assert_eq!(columns.get((columns.rows() - 2) as u32, property), None);
    assert_eq!(columns.get((columns.rows() - 1) as u32, property), None);
    columns.validate()?;
    Ok(())
}

#[test]
fn set_promotes_homogeneous_column_without_mutating_pinned_generation() -> Result<()> {
    let property = PropertyId(9);
    let mut published = PropertyColumns::default();
    published.push_row(&[(property, ScalarValue::Integer(10))])?;
    published.push_row(&[(property, ScalarValue::Integer(20))])?;
    assert!(matches!(
        published.column(property),
        Some(TypedColumn::Integer { .. })
    ));

    let mut staged = published.clone();
    staged.set(1, property, &text("twenty"))?;

    assert!(!published.is_mixed(property));
    assert_eq!(published.get(0, property), Some(ScalarValue::Integer(10)));
    assert_eq!(published.get(1, property), Some(ScalarValue::Integer(20)));
    assert!(staged.is_mixed(property));
    assert_eq!(staged.get(0, property), Some(ScalarValue::Integer(10)));
    assert_eq!(staged.get(1, property), Some(text("twenty")));
    Ok(())
}

fn physical_bytes(column: &TypedColumn) -> (Vec<u32>, Vec<u8>, Vec<u64>) {
    match column {
        TypedColumn::Bytes { values, validity } => {
            (values.offsets(), values.values(), validity.words())
        }
        _ => panic!("mixed test column is not physical bytes"),
    }
}

#[test]
fn mixed_column_checkpoint_round_trip_is_deterministic_and_validated() -> Result<()> {
    let property = PropertyId(11);
    let mut columns = PropertyColumns::default();
    columns.push_row(&[(property, ScalarValue::Integer(0))])?;
    columns.push_row(&[(property, text("xx"))])?;
    columns.push_row(&[])?;

    let first = columns.to_wire()?;
    let second = columns.to_wire()?;
    assert_eq!(first.len(), 1);
    assert_eq!(physical_bytes(&first[0].1), physical_bytes(&second[0].1));
    let restored =
        PropertyColumns::from_wire(columns.rows(), first, columns.string_dictionary().clone())?;
    assert!(restored.is_mixed(property));
    assert_eq!(restored.get(0, property), Some(ScalarValue::Integer(0)));
    assert_eq!(restored.get(1, property), Some(text("xx")));
    assert_eq!(restored.get(2, property), None);
    assert_eq!(restored.estimated_bytes(), columns.estimated_bytes());

    let mut malformed = columns.clone();
    let column = malformed
        .physical_column_mut(property)
        .ok_or_else(|| Error::internal("mixed test column disappeared"))?;
    let TypedColumn::Bytes { values, .. } = column else {
        return Err(Error::internal("mixed test column is not physical bytes"));
    };
    values.replace(0, &[u8::MAX])?;
    let wire = malformed.to_wire()?;
    let strings = malformed.string_dictionary().clone();
    assert!(PropertyColumns::from_wire(malformed.rows(), wire, strings).is_err());
    Ok(())
}

#[test]
fn homogeneous_checkpoint_without_mixed_marker_remains_readable() -> Result<()> {
    let property = PropertyId(12);
    let mut columns = PropertyColumns::default();
    columns.push_row(&[(property, ScalarValue::Integer(7))])?;
    let wire = columns.to_wire()?;
    let TypedColumn::Integer { values, validity } = &wire[0].1 else {
        return Err(Error::internal("homogeneous column changed kind"));
    };
    assert_eq!(values.to_vec(), vec![7]);
    assert_eq!(validity.words(), vec![1]);
    let restored =
        PropertyColumns::from_wire(columns.rows(), wire, columns.string_dictionary().clone())?;
    assert_eq!(restored.get(0, property), Some(ScalarValue::Integer(7)));
    assert!(!restored.is_mixed(property));
    Ok(())
}

#[test]
fn mixed_checkpoint_marker_handles_full_validity_words() -> Result<()> {
    let property = PropertyId(14);
    let mut columns = PropertyColumns::default();
    for value in 0..64 {
        columns.push_row(&[(property, ScalarValue::Integer(value))])?;
    }
    columns.set(63, property, &text("sixty-four"))?;
    let wire = columns.to_wire()?;
    let restored =
        PropertyColumns::from_wire(columns.rows(), wire, columns.string_dictionary().clone())?;
    assert!(restored.is_mixed(property));
    assert_eq!(restored.get(0, property), Some(ScalarValue::Integer(0)));
    assert_eq!(restored.get(63, property), Some(text("sixty-four")));
    restored.validate()?;
    Ok(())
}

#[test]
fn mixed_point_update_detaches_storage_and_keeps_pinned_bytes_unchanged() -> Result<()> {
    let property = PropertyId(13);
    let mut published = PropertyColumns::default();
    published.push_row(&[(property, ScalarValue::Integer(1))])?;
    published.push_row(&[(property, text("two"))])?;
    let mut staged = published.clone();
    staged.set(0, property, &ScalarValue::Boolean(false))?;

    assert_eq!(published.get(0, property), Some(ScalarValue::Integer(1)));
    assert_eq!(staged.get(0, property), Some(ScalarValue::Boolean(false)));
    Ok(())
}

#[test]
fn malformed_validity_storage_returns_corruption_instead_of_panicking() -> Result<()> {
    let mut validity = Validity {
        words: PagedVec::default(),
        len: 1,
    };
    let error = validity
        .set(0, true)
        .err()
        .ok_or_else(|| Error::internal("malformed validity storage was accepted"))?;
    assert_eq!(error.code, ErrorCode::CorruptStorage);
    Ok(())
}

#[test]
fn malformed_typed_column_storage_returns_corruption_instead_of_panicking() -> Result<()> {
    let mut validity = Validity::default();
    validity.push(true)?;
    let mut column = TypedColumn::Integer {
        values: PagedVec::default(),
        validity,
    };
    let mut strings = Dictionary::default();
    let error = column
        .set(0, &ScalarValue::Integer(7), &mut strings)
        .err()
        .ok_or_else(|| Error::internal("malformed typed column storage was accepted"))?;
    assert_eq!(error.code, ErrorCode::CorruptStorage);
    Ok(())
}

#[test]
fn empty_packed_lists_expose_canonical_empty_flat_views() {
    let lists = PackedLists::<u8>::default();
    assert_eq!(lists.offsets(), &[0]);
    assert!(lists.values().is_empty());
}

fn dictionary_with_values(count: usize) -> Result<Dictionary> {
    let mut dictionary = Dictionary::default();
    for index in 0..count {
        dictionary.intern(&format!("value-{index}"))?;
    }
    Ok(dictionary)
}

#[test]
fn dictionary_insert_preserves_published_generation_with_bounded_copy() -> Result<()> {
    for count in [4_096, 8_192] {
        let published = dictionary_with_values(count)?;
        let mut staged = published.clone();
        let id = staged.intern("new-value")?;
        assert_eq!(id as usize, count);
        assert!(published.id("new-value").is_none());
        assert_eq!(staged.id("new-value"), Some(id));
        let detached = staged.detached_storage_bytes_from(&published);
        assert!(
            detached <= 32 * 1_024,
            "dictionary insert detached {detached} bytes"
        );
    }
    Ok(())
}

#[test]
fn dictionary_deltas_survive_checkpoint_round_trip() -> Result<()> {
    let mut dictionary = Dictionary::default();
    let first = dictionary.intern("first")?;
    let second = dictionary.intern("second")?;
    let failed = |error: postcard::Error| Error::new(ErrorCode::CorruptStorage, &error.to_string());
    let bytes = postcard::to_stdvec(&dictionary.values()).map_err(failed)?;
    let texts: Vec<String> = postcard::from_bytes(&bytes).map_err(failed)?;
    let mut restored = Dictionary::default();
    for text in &texts {
        restored.intern(text)?;
    }
    assert_eq!(restored.resolve(first), Some("first"));
    assert_eq!(restored.resolve(second), Some("second"));
    assert_eq!(restored.intern("first")?, first);
    assert_eq!(restored.intern("third")?, 2);
    Ok(())
}

#[test]
fn dictionary_entries_keep_their_numbers() -> Result<()> {
    let mut dictionary = Dictionary::default();
    let first = dictionary.intern("first")?;
    let second = dictionary.intern("second")?;
    assert_eq!(dictionary.resolve(first), Some("first"));
    assert_eq!(dictionary.resolve(second), Some("second"));
    assert_eq!(dictionary.intern("first")?, first);
    assert_eq!(dictionary.intern("third")?, 2);
    assert_eq!(dictionary.resolve(3), None);
    assert_eq!(dictionary.values(), vec!["first", "second", "third"]);
    assert_eq!(dictionary.offsets(), vec![0, 5, 11, 16]);
    assert_eq!(dictionary.bytes(), b"firstsecondthird".to_vec());
    Ok(())
}

#[test]
fn validity_reads_back_what_was_pushed() -> Result<()> {
    let mut validity = Validity::default();
    for row in 0..130 {
        validity.push(row % 3 == 0)?;
    }
    validity.set(1, true)?;
    assert_eq!(validity.len(), 130);
    assert!(validity.is_present(0));
    assert!(validity.is_present(1));
    assert!(!validity.is_present(2));
    assert!(!validity.is_present(130));
    assert_eq!(validity.to_byte_mask()[..4], [1, 1, 0, 1]);
    assert!(validity.set(130, true).is_err());
    validity.validate()?;
    Ok(())
}

#[test]
fn mixed_marks_come_off_again() -> Result<()> {
    for rows in [3_usize, 64] {
        let mut validity = Validity::default();
        for _ in 0..rows {
            validity.push(true)?;
        }
        let words = validity.words();
        validity.mark_mixed_wire()?;
        assert_ne!(validity.words(), words);
        assert!(validity.take_mixed_wire_marker()?);
        assert_eq!(validity.words(), words);
        assert!(!validity.take_mixed_wire_marker()?);
    }
    Ok(())
}

#[test]
fn payloads_read_back_every_kind() -> Result<()> {
    for value in heterogeneous_values()? {
        let payload = mixed_payload(&value)?.ok_or_else(|| Error::internal("payload is missing"))?;
        assert_eq!(mixed_value(&payload)?, value);
    }
    assert_eq!(mixed_payload(&ScalarValue::Null)?, None);
    assert_eq!(
        mixed_payload(&ScalarValue::Integer(-2))?,
        Some(vec![2, 254, 255, 255, 255, 255, 255, 255, 255])
    );
    for malformed in [vec![], vec![99], vec![2, 1], vec![4, 0xff]] {
        let error = mixed_value(&malformed).expect_err("malformed payload");
        assert_eq!(error.code, ErrorCode::CorruptStorage);
    }
    Ok(())
}

#[test]
fn lists_hold_one_kind_of_scalar() -> Result<()> {
    let same = DocumentList::new(vec![
        DocumentItem::Scalar(ScalarValue::Integer(1)),
        DocumentItem::Scalar(ScalarValue::Integer(2)),
    ])?;
    assert_eq!(
        same.items()?,
        vec![
            DocumentItem::Scalar(ScalarValue::Integer(1)),
            DocumentItem::Scalar(ScalarValue::Integer(2)),
        ]
    );
    validate_property_value_shape(&ScalarValue::List(same))?;
    let different = DocumentList::new(vec![
        DocumentItem::Scalar(ScalarValue::Integer(1)),
        DocumentItem::Scalar(text("two")),
    ])?;
    assert!(validate_property_value_shape(&ScalarValue::List(different)).is_err());
    let node = DocumentList::new(vec![DocumentItem::Node(7)])?;
    assert!(validate_property_value_shape(&ScalarValue::List(node)).is_err());
    Ok(())
}

#[test]
fn sealing_drops_replaced_rows_and_keeps_values() -> Result<()> {
    let mut lists = PackedLists::default();
    let mut validity = Validity::default();
    for row in 0..4_u8 {
        lists.push(vec![row; 40_000])?;
        validity.push(true)?;
    }
    for row in 0..4_u32 {
        lists.replace(row, vec![9, row as u8])?;
    }
    assert!(lists.needs_seal());
    let before = lists.garbage_bytes();
    lists.seal(&validity)?;
    assert!(lists.garbage_bytes() < before);
    assert_eq!(lists.get(2), Some([9_u8, 2].as_slice()));
    assert_eq!(lists.offsets(), vec![0, 2, 4, 6, 8]);
    assert_eq!(lists.get(4), None);
    Ok(())
}

#[test]
fn typed_columns_refuse_other_kinds_and_bad_strings() -> Result<()> {
    let mut strings = Dictionary::default();
    let mut column = TypedColumn::with_value(&text("a"), 2, &mut strings)?;
    assert_eq!(column.len(), 3);
    assert_eq!(column.get(0, &strings), Some(ScalarValue::Null));
    assert_eq!(column.get(2, &strings), Some(text("a")));
    assert!(!column.accepts(&ScalarValue::Integer(1)));
    assert!(column.push(&ScalarValue::Integer(1), &mut strings).is_err());
    column.push(&text("b"), &mut strings)?;
    column.push_null()?;
    assert_eq!(column.len(), 5);
    column.validate(&strings)?;
    let error = column
        .validate(&Dictionary::default())
        .expect_err("strings are missing");
    assert_eq!(error.code, ErrorCode::CorruptStorage);
    Ok(())
}

#[test]
fn byte_values_keep_their_rows() -> Result<()> {
    let mut values = ByteValues::default();
    values.push(b"one")?;
    values.push(b"")?;
    values.replace(0, b"uno")?;
    assert_eq!(values.get(0), Some(b"uno".as_slice()));
    assert_eq!(values.get(1), Some(b"".as_slice()));
    assert_eq!(values.get(2), None);
    assert_eq!(values.len(), 2);
    let before = values.estimated_bytes();
    values.seal()?;
    assert_eq!(values.values(), b"uno".to_vec());
    assert_eq!(values.estimated_bytes(), before - 3);
    assert!(!values.needs_seal());
    Ok(())
}

#[test]
fn sealing_documents_keeps_every_cell() -> Result<()> {
    let property = PropertyId(3);
    let list = |count: usize| {
        DocumentList::new(vec![DocumentItem::Scalar(text(&"x".repeat(count)))])
            .map(ScalarValue::List)
    };
    let mut columns = PropertyColumns::default();
    columns.push_row(&[(property, list(200_000)?)])?;
    columns.push_row(&[(property, list(3)?)])?;
    assert!(!columns.seal_documents_if_needed()?);
    columns.set(0, property, &list(2)?)?;
    assert!(columns.seal_documents_if_needed()?);
    assert_eq!(columns.get(0, property), Some(list(2)?));
    assert_eq!(columns.get(1, property), Some(list(3)?));
    assert!(!columns.seal_documents_if_needed()?);
    assert_eq!(columns.property_ids(), vec![property]);
    assert_eq!(columns.columns().len(), 1);
    Ok(())
}

#[test]
fn readable_columns_with_a_fault_say_which() -> Result<()> {
    let mut strings = Dictionary::default();
    let validity = |words: Vec<u64>, len: usize| {
        let mut paged = PagedVec::default();
        for word in words {
            paged.push(word);
        }
        Validity { words: paged, len }
    };
    let mut short = TypedColumn::String {
        values: PagedVec::default(),
        validity: validity(vec![0], 1),
    };
    let error = short.set(0, &text("one"), &mut strings).expect_err("no value row");
    assert_eq!(error.code, ErrorCode::CorruptStorage);
    assert_eq!(error.message, "paged vector index is out of bounds");
    let mut bare = TypedColumn::Bytes {
        values: ByteValues::default(),
        validity: validity(vec![0], 1),
    };
    let error = bare
        .set(0, &ScalarValue::Bytes(vec![1]), &mut strings)
        .expect_err("no byte row");
    assert_eq!(error.code, ErrorCode::InvalidData);
    assert_eq!(error.message, "packed-list row is out of bounds");
    let mut values = PagedVec::default();
    values.push(0_u32);
    let mut wordless = TypedColumn::String {
        values,
        validity: validity(Vec::new(), 1),
    };
    let error = wordless.set(0, &text("one"), &mut strings).expect_err("no word");
    assert_eq!(error.code, ErrorCode::CorruptStorage);
    assert_eq!(error.message, "validity bitmap row has no backing word");
    Ok(())
}

#[test]
fn rows_of_fixed_width_always_fit() -> Result<()> {
    let mut columns = PropertyColumns::default();
    for row in 0..300_i64 {
        columns.push_row(&[
            (PropertyId(1), ScalarValue::Integer(row)),
            (PropertyId(2), ScalarValue::Boolean(row % 2 == 0)),
            (PropertyId(9), ScalarValue::Null),
        ])?;
    }
    assert_eq!(columns.rows(), 300);
    assert!(!columns.contains(PropertyId(9)));
    assert_eq!(
        columns.get(299, PropertyId(1)),
        Some(ScalarValue::Integer(299))
    );
    assert_eq!(columns.get(300, PropertyId(1)), None);
    assert_eq!(
        columns
            .set(300, PropertyId(1), &ScalarValue::Integer(1))
            .expect_err("row is missing")
            .code,
        ErrorCode::InvalidData
    );
    Ok(())
}

#[test]
fn columns_of_another_height_are_refused() -> Result<()> {
    let property = PropertyId(5);
    let mut columns = PropertyColumns::default();
    columns.push_row(&[(property, ScalarValue::Integer(7))])?;
    let wire = columns.to_wire()?;
    let error = PropertyColumns::from_wire(2, wire, columns.string_dictionary().clone())
        .err()
        .ok_or_else(|| Error::internal("column of another height was accepted"))?;
    assert_eq!(error.code, ErrorCode::CorruptStorage);
    assert_eq!(
        error.message,
        "property column row count does not match the graph"
    );
    Ok(())
}

#[test]
fn validity_words_can_be_shared() -> Result<()> {
    let mut validity = Validity::default();
    for row in 0..70 {
        validity.push(row != 5)?;
    }
    let words: Arc<[u64]> = validity.words().into();
    validity.rebase_shared_words(SharedFlat::from_arc_slice(words).expect("window"))?;
    assert!(!validity.is_present(5));
    assert!(validity.is_present(69));
    let short: Arc<[u64]> = vec![1].into();
    assert!(validity
        .rebase_shared_words(SharedFlat::from_arc_slice(short).expect("window"))
        .is_err());
    Ok(())
}
