//! Items of a document, and the shape of a value that a property may hold.
//!
//! The framing of a document is this library's own: a byte tag, a length before each item and each key,
//! and keys in ascending order. No other codec reads or writes it.

use crate::bytes::{
    law_le_bytes_of_value, law_le_round_trip, le_bytes, le_value, lemma_byte_ranges, push_le,
    read_le,
};
use crate::columns::mixed::{
    canonical_item, canonical_items, decoded, law_payload_round_trip, mixed_payload, mixed_value,
    payload, storable, validate_canonical, DocumentRoot,
};
use crate::error::{fails_with, Error, ErrorCode, Result};
use crate::values::{DocumentList, Scalar, ScalarValue};
use vstd::prelude::*;

verus! {

/// One item of a list or map.
#[derive(Debug, PartialEq, Eq)]
pub enum DocumentItem {
    Scalar(ScalarValue),
    Node(u64),
    Edge(u64),
}

/// What an item is.
pub enum Item {
    Scalar(Scalar),
    Node(u64),
    Edge(u64),
}

impl View for DocumentItem {
    type V = Item;

    open spec fn view(&self) -> Item {
        match self {
            DocumentItem::Scalar(value) => Item::Scalar(value@),
            DocumentItem::Node(id) => Item::Node(*id),
            DocumentItem::Edge(id) => Item::Edge(*id),
        }
    }
}

/// What the items of a vector are.
pub open spec fn item_views(items: Seq<DocumentItem>) -> Seq<Item> {
    Seq::new(items.len(), |i: int| items[i]@)
}

/// The bytes of one item.
pub open spec fn item_bytes(item: Item) -> Seq<u8> {
    match item {
        Item::Scalar(value) => match payload(value) {
            Some(bytes) => bytes,
            None => Seq::empty(),
        },
        Item::Node(id) => seq![14u8] + le_bytes(id as nat, 8),
        Item::Edge(id) => seq![15u8] + le_bytes(id as nat, 8),
    }
}

/// The item that bytes hold.
pub open spec fn parsed_item(bytes: Seq<u8>) -> Item {
    if bytes.len() == 0 {
        Item::Scalar(Scalar::Null)
    } else if bytes[0] == 14 && bytes.len() == 9 {
        Item::Node(le_value(bytes.skip(1)) as u64)
    } else if bytes[0] == 15 && bytes.len() == 9 {
        Item::Edge(le_value(bytes.skip(1)) as u64)
    } else {
        Item::Scalar(decoded(bytes)->Some_0)
    }
}

/// The items that canonical bytes hold.
pub open spec fn parsed_items(bytes: Seq<u8>) -> Seq<Item>
    decreases bytes.len(),
{
    if bytes.len() < 4 {
        Seq::empty()
    } else {
        let end = 4 + le_value(bytes.subrange(0, 4)) as int;
        if end > bytes.len() {
            Seq::empty()
        } else {
            seq![parsed_item(bytes.subrange(4, end))] + parsed_items(bytes.skip(end))
        }
    }
}

/// One item behind its length.
pub open spec fn framed(item: Item) -> Seq<u8> {
    le_bytes(item_bytes(item).len(), 4) + item_bytes(item)
}

/// The bytes of a list.
pub open spec fn encoded_items(items: Seq<Item>) -> Seq<u8>
    decreases items.len(),
{
    if items.len() == 0 {
        Seq::empty()
    } else {
        framed(items[0]) + encoded_items(items.skip(1))
    }
}

/// The documents inside an item are canonical.
pub open spec fn storable_item(item: Item) -> bool {
    item matches Item::Scalar(value) ==> storable(value)
}

proof fn lemma_item_round_trip(item: Item)
    requires
        storable_item(item),
    ensures
        canonical_item(item_bytes(item)),
        parsed_item(item_bytes(item)) == item,
{
    let bytes = item_bytes(item);
    match item {
        Item::Scalar(value) => {
            if value != Scalar::Null {
                law_payload_round_trip(value);
                assert(bytes.len() > 0 && bytes[0] <= 13);
            }
        },
        Item::Node(id) | Item::Edge(id) => {
            lemma_byte_ranges();
            law_le_round_trip(id as nat, 8);
            assert(bytes.skip(1) =~= le_bytes(id as nat, 8));
        },
    }
}

/// A list reads back as the items that it was made of.
pub proof fn law_list_round_trip(items: Seq<Item>)
    requires
        forall|i: int|
            0 <= i < items.len() ==> storable_item(#[trigger] items[i]) && item_bytes(
                items[i],
            ).len() <= u32::MAX,
    ensures
        canonical_items(encoded_items(items)),
        parsed_items(encoded_items(items)) == items,
    decreases items.len(),
{
    let bytes = encoded_items(items);
    if items.len() > 0 {
        let rest = items.skip(1);
        assert forall|i: int| 0 <= i < rest.len() implies storable_item(#[trigger] rest[i])
            && item_bytes(rest[i]).len() <= u32::MAX by {
            assert(storable_item(items[i + 1]));
        }
        law_list_round_trip(rest);
        let first = item_bytes(items[0]);
        assert(storable_item(items[0]));
        lemma_item_round_trip(items[0]);
        lemma_byte_ranges();
        law_le_round_trip(first.len(), 4);
        assert(bytes.subrange(0, 4) =~= le_bytes(first.len(), 4));
        assert(bytes.subrange(4, 4 + first.len() as int) =~= first);
        assert(bytes.skip(4 + first.len() as int) =~= encoded_items(rest));
        assert(seq![items[0]] + rest =~= items);
    }
}

impl DocumentItem {
    fn to_bytes(&self) -> (result: Result<Vec<u8>>)
        ensures
            if storable_item(self@) {
                result matches Ok(bytes) && bytes@ == item_bytes(self@)
            } else {
                fails_with(result, ErrorCode::CorruptStorage, "document bytes are not canonical"@)
            },
    {
        match self {
            DocumentItem::Scalar(value) => match mixed_payload(value) {
                Ok(Some(bytes)) => Ok(bytes),
                Ok(None) => {
                    let none: Vec<u8> = Vec::new();
                    assert(none@ =~= item_bytes(self@));
                    Ok(none)
                },
                Err(error) => Err(error),
            },
            DocumentItem::Node(id) => {
                let mut bytes: Vec<u8> = Vec::new();
                bytes.push(14);
                push_le(&mut bytes, *id as u128, 8);
                assert(bytes@ =~= item_bytes(self@));
                Ok(bytes)
            },
            DocumentItem::Edge(id) => {
                let mut bytes: Vec<u8> = Vec::new();
                bytes.push(15);
                push_le(&mut bytes, *id as u128, 8);
                assert(bytes@ =~= item_bytes(self@));
                Ok(bytes)
            },
        }
    }

    fn from_bytes(bytes: &[u8]) -> (item: Self)
        requires
            canonical_item(bytes@),
        ensures
            item@ == parsed_item(bytes@),
    {
        if bytes.len() == 0 {
            return DocumentItem::Scalar(ScalarValue::Null);
        }
        if (bytes[0] == 14 || bytes[0] == 15) && bytes.len() == 9 {
            let part = &bytes[1..9];
            assert(part@ =~= bytes@.skip(1));
            proof {
                law_le_bytes_of_value(part@);
                lemma_byte_ranges();
            }
            let id: u64 = read_le(part) as u64;
            return if bytes[0] == 14 {
                DocumentItem::Node(id)
            } else {
                DocumentItem::Edge(id)
            };
        }
        match mixed_value(bytes) {
            Ok(value) => DocumentItem::Scalar(value),
            Err(_) => DocumentItem::Scalar(ScalarValue::Null),
        }
    }
}

/// Items that a list can hold.
pub open spec fn listable(items: Seq<Item>) -> bool {
    forall|i: int|
        0 <= i < items.len() ==> storable_item(#[trigger] items[i]) && item_bytes(items[i]).len()
            <= u32::MAX
}

impl DocumentList {
    /// The canonical list of the items.
    pub fn new(items: Vec<DocumentItem>) -> (result: Result<Self>)
        ensures
            match result {
                Ok(list) => listable(item_views(items@)) && list.bytes@ == encoded_items(
                    item_views(items@),
                ),
                Err(error) => {
                    &&& !listable(item_views(items@))
                    &&& error.is(ErrorCode::CorruptStorage, "document bytes are not canonical"@)
                        || error.is(
                        ErrorCode::ResultBudgetExceeded,
                        "document item exceeds u32"@,
                    )
                },
            },
    {
        let ghost all = item_views(items@);
        let mut bytes: Vec<u8> = Vec::new();
        assert(all.skip(0) =~= all);
        assert(bytes@ + encoded_items(all) =~= encoded_items(all));
        for index in 0..items.len()
            invariant
                all == item_views(items@),
                bytes@ + encoded_items(all.skip(index as int)) == encoded_items(all),
                forall|i: int|
                    0 <= i < index ==> storable_item(#[trigger] all[i]) && item_bytes(all[i]).len()
                        <= u32::MAX,
        {
            assert(all[index as int] == items@[index as int]@);
            let item = match items[index].to_bytes() {
                Ok(item) => item,
                Err(error) => {
                    return Err(error);
                },
            };
            if item.len() as u64 > u32::MAX as u64 {
                return Err(
                    Error::new(ErrorCode::ResultBudgetExceeded, "document item exceeds u32"),
                );
            }
            let ghost before = bytes@;
            push_le(&mut bytes, item.len() as u128, 4);
            bytes.extend_from_slice(item.as_slice());
            proof {
                let rest = all.skip(index as int);
                assert(rest.skip(1) =~= all.skip(index + 1));
                assert(bytes@ =~= before + framed(rest[0]));
                assert(bytes@ + encoded_items(rest.skip(1)) =~= before + encoded_items(rest));
            }
        }
        assert(bytes@ + encoded_items(all.skip(all.len() as int)) =~= bytes@);
        Ok(DocumentList { bytes })
    }

    /// The items of the list, in order.
    pub fn items(&self) -> (result: Result<Vec<DocumentItem>>)
        ensures
            if canonical_items(self.bytes@) {
                result matches Ok(items) && item_views(items@) == parsed_items(self.bytes@)
            } else {
                fails_with(result, ErrorCode::CorruptStorage, "document bytes are not canonical"@)
            },
    {
        let bytes = self.bytes.as_slice();
        match validate_canonical(bytes, DocumentRoot::List) {
            Ok(_) => {},
            Err(error) => {
                return Err(error);
            },
        }
        let mut items: Vec<DocumentItem> = Vec::new();
        let mut place: usize = 0;
        let total: usize = bytes.len();
        assert(bytes@.skip(0) =~= bytes@);
        assert(item_views(items@) + parsed_items(bytes@) =~= parsed_items(bytes@));
        while place < total
            invariant
                place <= total,
                total == bytes@.len(),
                canonical_items(bytes@.skip(place as int)),
                item_views(items@) + parsed_items(bytes@.skip(place as int)) == parsed_items(bytes@),
            decreases bytes@.len() - place,
        {
            let ghost tail = bytes@.skip(place as int);
            let ghost before = item_views(items@);
            let head = &bytes[place..place + 4];
            assert(tail.subrange(0, 4) =~= head@);
            proof {
                law_le_bytes_of_value(head@);
                lemma_byte_ranges();
            }
            let length: usize = read_le(head) as usize;
            let part = &bytes[place + 4..place + 4 + length];
            assert(part@ =~= tail.subrange(4, 4 + length));
            let item = DocumentItem::from_bytes(part);
            items.push(item);
            place = place + 4 + length;
            proof {
                let rest = tail.skip(4 + length);
                assert(rest =~= bytes@.skip(place as int));
                assert(item_views(items@) =~= before.push(item@));
                assert(item_views(items@) + parsed_items(rest) =~= before + parsed_items(tail));
            }
        }
        assert(item_views(items@) + parsed_items(bytes@.skip(place as int)) =~= item_views(items@));
        Ok(items)
    }
}

/// The type of a value that a property list may hold.
#[derive(Clone, Copy, Debug, PartialEq, Eq, Structural)]
pub enum PropertyListScalarKind {
    Boolean,
    Integer,
    Float,
    String,
    Bytes,
    Date,
    LocalTime,
    ZonedTime,
    LocalDateTime,
    ZonedDateTime,
    Duration,
}

/// The kind of a value that may stand in a property list.
pub open spec fn list_kind(value: Scalar) -> Option<PropertyListScalarKind> {
    match value {
        Scalar::Boolean(_) => Some(PropertyListScalarKind::Boolean),
        Scalar::Integer(_) => Some(PropertyListScalarKind::Integer),
        Scalar::Float(_) => Some(PropertyListScalarKind::Float),
        Scalar::Text(_) => Some(PropertyListScalarKind::String),
        Scalar::Bytes(_) => Some(PropertyListScalarKind::Bytes),
        Scalar::Date(_) => Some(PropertyListScalarKind::Date),
        Scalar::LocalTime(_) => Some(PropertyListScalarKind::LocalTime),
        Scalar::ZonedTime(_, _) => Some(PropertyListScalarKind::ZonedTime),
        Scalar::LocalDateTime(_, _) => Some(PropertyListScalarKind::LocalDateTime),
        Scalar::ZonedDateTime(_, _, _) => Some(PropertyListScalarKind::ZonedDateTime),
        Scalar::Duration(_, _, _, _) => Some(PropertyListScalarKind::Duration),
        Scalar::Null => None,
        Scalar::List(_) => None,
        Scalar::Entries(_) => None,
    }
}

fn invalid_property_type(message: &str) -> (error: Error)
    ensures
        error.is(ErrorCode::QueryType, message@),
{
    Error::new(ErrorCode::QueryType, message)
}

fn property_list_scalar_kind(value: &ScalarValue) -> (result: Result<PropertyListScalarKind>)
    ensures
        match list_kind(value@) {
            Some(kind) => result == Ok::<PropertyListScalarKind, Error>(kind),
            None => fails_with(
                result,
                ErrorCode::QueryType,
                if value@ == Scalar::Null {
                    "InvalidPropertyType: property lists cannot contain NULL"@
                } else {
                    "InvalidPropertyType: property lists cannot contain nested collections"@
                },
            ),
        },
{
    match value {
        ScalarValue::Boolean(_) => Ok(PropertyListScalarKind::Boolean),
        ScalarValue::Integer(_) => Ok(PropertyListScalarKind::Integer),
        ScalarValue::Float(_) => Ok(PropertyListScalarKind::Float),
        ScalarValue::String(_) => Ok(PropertyListScalarKind::String),
        ScalarValue::Bytes(_) => Ok(PropertyListScalarKind::Bytes),
        ScalarValue::Date(_) => Ok(PropertyListScalarKind::Date),
        ScalarValue::LocalTime(_) => Ok(PropertyListScalarKind::LocalTime),
        ScalarValue::ZonedTime { .. } => Ok(PropertyListScalarKind::ZonedTime),
        ScalarValue::LocalDateTime { .. } => Ok(PropertyListScalarKind::LocalDateTime),
        ScalarValue::ZonedDateTime { .. } => Ok(PropertyListScalarKind::ZonedDateTime),
        ScalarValue::Duration { .. } => Ok(PropertyListScalarKind::Duration),
        ScalarValue::Null => Err(
            invalid_property_type("InvalidPropertyType: property lists cannot contain NULL"),
        ),
        ScalarValue::List(_) => Err(
            invalid_property_type(
                "InvalidPropertyType: property lists cannot contain nested collections",
            ),
        ),
        ScalarValue::Entries(_) => Err(
            invalid_property_type(
                "InvalidPropertyType: property lists cannot contain nested collections",
            ),
        ),
    }
}

/// The first item of a list that a property may not hold, behind items of `kind`.
pub open spec fn list_fault(
    items: Seq<Item>,
    kind: Option<PropertyListScalarKind>,
) -> Option<Seq<char>>
    decreases items.len(),
{
    if items.len() == 0 {
        None
    } else {
        match items[0] {
            Item::Scalar(value) => match list_kind(value) {
                Some(next) => if kind is Some && kind != Some(next) {
                    Some(
                        "InvalidPropertyType: property lists must contain values of one scalar type"@,
                    )
                } else {
                    list_fault(items.skip(1), Some(next))
                },
                None => Some(
                    if value == Scalar::Null {
                        "InvalidPropertyType: property lists cannot contain NULL"@
                    } else {
                        "InvalidPropertyType: property lists cannot contain nested collections"@
                    },
                ),
            },
            _ => Some(
                "InvalidPropertyType: property lists must be flat homogeneous lists of scalar values"@,
            ),
        }
    }
}

/// What keeps a value from being a property: its class and diagnostic.
pub open spec fn shape_fault(value: Scalar) -> Option<(ErrorCode, Seq<char>)> {
    match value {
        Scalar::List(bytes) => if !canonical_items(bytes) {
            Some((ErrorCode::CorruptStorage, "document bytes are not canonical"@))
        } else {
            match list_fault(parsed_items(bytes), None) {
                Some(message) => Some((ErrorCode::QueryType, message)),
                None => None,
            }
        },
        _ => None,
    }
}

/// A property list is flat, of one scalar type and without NULL; other values are free.
pub fn validate_property_value_shape(value: &ScalarValue) -> (result: Result<()>)
    ensures
        match shape_fault(value@) {
            Some(fault) => fails_with(result, fault.0, fault.1),
            None => result is Ok,
        },
{
    match value {
        ScalarValue::List(list) => {
            let items = match list.items() {
                Ok(items) => items,
                Err(error) => {
                    return Err(error);
                },
            };
            let ghost all = item_views(items@);
            let mut element_kind: Option<PropertyListScalarKind> = None;
            assert(all.skip(0) =~= all);
            for index in 0..items.len()
                invariant
                    all == item_views(items@),
                    value@ == Scalar::List(list.bytes@),
                    canonical_items(list.bytes@),
                    all == parsed_items(list.bytes@),
                    list_fault(all, None) == list_fault(all.skip(index as int), element_kind),
            {
                proof {
                    assert(all.skip(index as int)[0] == items@[index as int]@);
                    assert(all.skip(index as int).skip(1) =~= all.skip(index + 1));
                }
                match &items[index] {
                    DocumentItem::Scalar(item) => {
                        let kind = match property_list_scalar_kind(item) {
                            Ok(kind) => kind,
                            Err(error) => {
                                return Err(error);
                            },
                        };
                        if let Some(existing) = element_kind {
                            if existing != kind {
                                return Err(
                                    invalid_property_type(
                                        "InvalidPropertyType: property lists must contain values of one scalar type",
                                    ),
                                );
                            }
                        }
                        element_kind = Some(kind);
                    },
                    _ => {
                        return Err(
                            invalid_property_type(
                                "InvalidPropertyType: property lists must be flat homogeneous lists of scalar values",
                            ),
                        );
                    },
                }
            }
            Ok(())
        },
        _ => Ok(()),
    }
}

/// Both values are of one kind.
pub open spec fn same_kind(left: Scalar, right: Scalar) -> bool {
    match left {
        Scalar::Null => right is Null,
        Scalar::Boolean(_) => right is Boolean,
        Scalar::Integer(_) => right is Integer,
        Scalar::Float(_) => right is Float,
        Scalar::Text(_) => right is Text,
        Scalar::Bytes(_) => right is Bytes,
        Scalar::Date(_) => right is Date,
        Scalar::LocalTime(_) => right is LocalTime,
        Scalar::ZonedTime(_, _) => right is ZonedTime,
        Scalar::LocalDateTime(_, _) => right is LocalDateTime,
        Scalar::ZonedDateTime(_, _, _) => right is ZonedDateTime,
        Scalar::Duration(_, _, _, _) => right is Duration,
        Scalar::List(_) => right is List,
        Scalar::Entries(_) => right is Entries,
    }
}

/// A list may be a property exactly where each of its items is a value, none is NULL, none is a
/// collection, and all are of one kind. Nodes and edges are no values.
pub proof fn law_property_lists_hold_one_kind(items: Seq<Item>)
    ensures
        list_fault(items, None) is None <==> forall|i: int, j: int|
            #![trigger items[i], items[j]]
            0 <= i < items.len() && 0 <= j < items.len() ==> (items[i] matches Item::Scalar(left)
                && !(left is Null) && !(left is List) && !(left is Entries) && (
            items[j] matches Item::Scalar(right) && same_kind(left, right))),
{
    lemma_list_fault(items, None);
    if list_fault(items, None) is None {
        assert forall|i: int, j: int|
            #![trigger items[i], items[j]]
            0 <= i < items.len() && 0 <= j < items.len() implies (items[i] matches Item::Scalar(
            left,
        ) && !(left is Null) && !(left is List) && !(left is Entries) && (
        items[j] matches Item::Scalar(right) && same_kind(left, right))) by {
            assert(fits_kind(items[i], list_kind(items[0]->Scalar_0)));
            assert(fits_kind(items[j], list_kind(items[0]->Scalar_0)));
        }
    }
    if forall|i: int, j: int|
        #![trigger items[i], items[j]]
        0 <= i < items.len() && 0 <= j < items.len() ==> (items[i] matches Item::Scalar(left)
            && !(left is Null) && !(left is List) && !(left is Entries) && (
        items[j] matches Item::Scalar(right) && same_kind(left, right))) {
        assert forall|i: int| 0 <= i < items.len() implies fits_kind(
            #[trigger] items[i],
            list_kind(items[0]->Scalar_0),
        ) by {
            assert(items[i] is Scalar && items[0] is Scalar);
        }
    }
}

spec fn fits_kind(item: Item, kind: Option<PropertyListScalarKind>) -> bool {
    item matches Item::Scalar(value) && list_kind(value) is Some && list_kind(value) == kind
}

/// A list has no fault exactly where every item is of the kind that is known, or of that of the first.
proof fn lemma_list_fault(items: Seq<Item>, kind: Option<PropertyListScalarKind>)
    ensures
        list_fault(items, kind) is None <==> forall|i: int|
            0 <= i < items.len() ==> fits_kind(
                #[trigger] items[i],
                if kind is Some {
                    kind
                } else {
                    list_kind(items[0]->Scalar_0)
                },
            ),
    decreases items.len(),
{
    let wanted = if kind is Some {
        kind
    } else {
        list_kind(items[0]->Scalar_0)
    };
    if items.len() > 0 {
        let rest = items.skip(1);
        if let Item::Scalar(value) = items[0] {
            if let Some(next) = list_kind(value) {
                lemma_list_fault(rest, Some(next));
                if list_fault(items, kind) is None {
                    assert forall|i: int| 0 <= i < items.len() implies fits_kind(
                        #[trigger] items[i],
                        wanted,
                    ) by {
                        if i > 0 {
                            assert(fits_kind(rest[i - 1], Some(next)));
                        }
                    }
                }
                if forall|i: int| 0 <= i < items.len() ==> fits_kind(#[trigger] items[i], wanted) {
                    assert(fits_kind(items[0], wanted));
                    assert forall|i: int| 0 <= i < rest.len() implies fits_kind(
                        #[trigger] rest[i],
                        Some(next),
                    ) by {
                        assert(fits_kind(items[i + 1], wanted));
                    }
                }
            } else {
                assert(!fits_kind(items[0], wanted));
            }
        } else {
            assert(!fits_kind(items[0], wanted));
        }
    }
}

} // verus!
