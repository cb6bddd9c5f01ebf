//! The locked Knowledge-layer contract.
//!
//! The Knowledge layer is standardized around a small, fixed set of reserved property names that
//! carry the model-visible skeleton of a fact, and nothing else is reserved. A node has a `name`, an
//! edge may have a `text`, and either may have an `at` that marks when the fact holds. The Observed
//! layer is unconstrained.

use crate::columns::dictionary::Dictionary;
use crate::error::{fails_with, Error, ErrorCode, Result};
use crate::layers::Layer;
use crate::persistent::radix::PersistentMap;
use crate::text::{blank, equal_but_case, is_blank, same_but_case, small_byte};
use crate::values::{PropertyId, Scalar, ScalarValue};
use vstd::prelude::*;
use vstd::utf8::encode_utf8;

verus! {

/// Reserved node identifier property (required on a Knowledge node).
pub const NAME: &'static str = "name";

/// Reserved edge description property (optional free text).
pub const TEXT: &'static str = "text";

/// Reserved point-in-time property (optional temporal scalar).
pub const AT: &'static str = "at";

/// Lower renders earlier; a name that is not reserved comes last.
pub open spec fn spec_priority(name: Seq<char>) -> usize {
    if same_but_case(name, "name"@) {
        0
    } else if same_but_case(name, "text"@) {
        1
    } else if same_but_case(name, "at"@) {
        2
    } else {
        usize::MAX
    }
}

/// Render priority for the reserved fields, so that they surface first. Lower sorts earlier; names
/// that are not reserved fall through.
pub fn render_priority(name: &str) -> (priority: usize)
    ensures
        priority == spec_priority(name@),
{
    if equal_but_case(name, "name") {
        0
    } else if equal_but_case(name, "text") {
        1
    } else if equal_but_case(name, "at") {
        2
    } else {
        usize::MAX
    }
}

/// Dates, times and durations.
pub open spec fn temporal(value: Scalar) -> bool {
    match value {
        Scalar::Date(_) => true,
        Scalar::LocalTime(_) => true,
        Scalar::ZonedTime(_, _) => true,
        Scalar::LocalDateTime(_, _) => true,
        Scalar::ZonedDateTime(_, _, _) => true,
        Scalar::Duration(_, _, _, _) => true,
        _ => false,
    }
}

/// Whether a value is a temporal scalar acceptable for the reserved `at` field.
pub fn is_temporal_scalar(value: &ScalarValue) -> (result: bool)
    ensures
        result == temporal(value@),
        result <==> *value is Date || *value is LocalTime || *value is ZonedTime
            || *value is LocalDateTime || *value is ZonedDateTime || *value is Duration,
{
    match value {
        ScalarValue::Date(_) => true,
        ScalarValue::LocalTime(_) => true,
        ScalarValue::ZonedTime { .. } => true,
        ScalarValue::LocalDateTime { .. } => true,
        ScalarValue::ZonedDateTime { .. } => true,
        ScalarValue::Duration { .. } => true,
        _ => false,
    }
}

/// Dates, times, date-times and durations are temporal, with or without a zone, whatever they hold.
/// Nothing else is.
pub proof fn law_temporal_kinds(
    number: i64,
    nanos: u32,
    offset: i32,
    fields: (i64, i64, i64, i32),
    zone: Seq<char>,
    bytes: Seq<u8>,
    flag: bool,
    bits: u64,
)
    ensures
        temporal(Scalar::Date(number)),
        temporal(Scalar::LocalTime(number)),
        temporal(Scalar::ZonedTime(number, offset)),
        temporal(Scalar::LocalDateTime(number, nanos)),
        temporal(Scalar::ZonedDateTime(number, nanos, zone)),
        temporal(Scalar::Duration(fields.0, fields.1, fields.2, fields.3)),
        !temporal(Scalar::Null),
        !temporal(Scalar::Boolean(flag)),
        !temporal(Scalar::Integer(number)),
        !temporal(Scalar::Float(bits)),
        !temporal(Scalar::Text(zone)),
        !temporal(Scalar::Bytes(bytes)),
        !temporal(Scalar::List(bytes)),
        !temporal(Scalar::Entries(bytes)),
{
}

/// The reserved names come first in every case of their letters, in this order, and no other name comes
/// before them.
pub proof fn law_reserved_names_come_first(name: Seq<char>, other: Seq<char>)
    requires
        !same_but_case(other, "name"@),
        !same_but_case(other, "text"@),
        !same_but_case(other, "at"@),
    ensures
        spec_priority("name"@) < spec_priority("text"@) < spec_priority("at"@) < spec_priority(
            other,
        ),
        spec_priority("name"@) == 0,
        spec_priority("text"@) == 1,
        spec_priority("at"@) == 2,
        spec_priority(other) == usize::MAX,
        same_but_case(name, "name"@) ==> spec_priority(name) == spec_priority("name"@),
        same_but_case(name, "text"@) ==> spec_priority(name) == spec_priority("text"@),
        same_but_case(name, "at"@) ==> spec_priority(name) == spec_priority("at"@),
{
    lemma_reserved_lengths();
    crate::text::law_case_comparison("name"@, "name"@);
    crate::text::law_case_comparison("text"@, "text"@);
    crate::text::law_case_comparison("at"@, "at"@);
}

/// No two reserved names are the same but for case.
proof fn lemma_reserved_lengths()
    ensures
        !same_but_case("text"@, "name"@),
        !same_but_case("at"@, "name"@),
        !same_but_case("at"@, "text"@),
        forall|name: Seq<char>|
            #![trigger same_but_case(name, "text"@)]
            same_but_case(name, "text"@) ==> !same_but_case(name, "name"@),
        forall|name: Seq<char>|
            #![trigger same_but_case(name, "at"@)]
            same_but_case(name, "at"@) ==> !same_but_case(name, "name"@) && !same_but_case(
                name,
                "text"@,
            ),
{
    reveal_strlit("name");
    reveal_strlit("text");
    reveal_strlit("at");
    assert(encode_utf8("name"@) =~= seq![110u8, 97u8, 109u8, 101u8]) by {
        lemma_ascii("name"@);
    }
    assert(encode_utf8("text"@) =~= seq![116u8, 101u8, 120u8, 116u8]) by {
        lemma_ascii("text"@);
    }
    assert(encode_utf8("at"@) =~= seq![97u8, 116u8]) by {
        lemma_ascii("at"@);
    }
    assert forall|name: Seq<char>|
        #![trigger same_but_case(name, "text"@)]
        same_but_case(name, "text"@) implies !same_but_case(name, "name"@) by {
        let bytes = encode_utf8(name);
        assert(small_byte(bytes[0]) == small_byte(encode_utf8("text"@)[0]));
        if same_but_case(name, "name"@) {
            assert(small_byte(bytes[0]) == small_byte(encode_utf8("name"@)[0]));
        }
    }
    assert(same_but_case("text"@, "text"@));
    assert(same_but_case("at"@, "at"@));
}

/// The UTF-8 of ASCII characters is their numbers.
proof fn lemma_ascii(text: Seq<char>)
    requires
        forall|i: int| 0 <= i < text.len() ==> '\0' <= #[trigger] text[i] <= '\u{7f}',
    ensures
        encode_utf8(text).len() == text.len(),
        forall|i: int| 0 <= i < text.len() ==> #[trigger] encode_utf8(text)[i] == text[i] as u8,
{
    vstd::utf8::is_ascii_chars_encode_utf8(text);
}

/// Property names by identifier.
pub struct NameCatalog {
    properties: Dictionary,
}

impl Default for NameCatalog {
    fn default() -> (catalog: Self)
        ensures
            catalog.wf(),
            catalog.names() == Seq::<Seq<char>>::empty(),
    {
        NameCatalog { properties: Dictionary::default() }
    }
}

impl NameCatalog {
    pub closed spec fn wf(&self) -> bool {
        self.properties.wf()
    }

    /// Property names in the order of their identifiers.
    pub closed spec fn names(&self) -> Seq<Seq<char>> {
        self.properties@
    }

    /// The property of a name.
    pub open spec fn named(&self, property: PropertyId, name: Seq<char>) -> bool {
        property.0 < self.names().len() && self.names()[property.0 as int] == name
    }

    pub fn property(&self, name: &str) -> (property: Option<PropertyId>)
        requires
            self.wf(),
        ensures
            match property {
                Some(property) => self.named(property, name@) && forall|other: PropertyId|
                    #[trigger] self.named(other, name@) ==> other == property,
                None => forall|property: PropertyId| !#[trigger] self.named(property, name@),
            },
    {
        match self.properties.id(name) {
            Some(id) => {
                let property = PropertyId(id);
                proof {
                    assert forall|other: PropertyId| #[trigger]
                        self.named(other, name@) implies other == property by {
                        self.properties.law_entries_are_distinct(other.0 as int, id as int);
                    }
                }
                Some(property)
            },
            None => {
                proof {
                    assert forall|property: PropertyId| !#[trigger] self.named(property, name@) by {
                        if self.named(property, name@) {
                            assert(self.properties.holds(property.0 as int, name@));
                        }
                    }
                }
                None
            },
        }
    }

    pub fn property_name(&self, property: PropertyId) -> (name: Option<&str>)
        requires
            self.wf(),
        ensures
            match name {
                Some(name) => self.named(property, name@),
                None => property.0 >= self.names().len(),
            },
    {
        proof {
            self.properties.lemma_readable();
        }
        self.properties.resolve(property.0)
    }

    /// No further name can be numbered, or the name does not fit the storage.
    pub closed spec fn has_no_room(&self, name: Seq<char>) -> bool {
        self.properties.exhausted() || self.properties.storage_full(
            encode_utf8(name).len() as int,
        )
    }

    /// The identifier of a name, which becomes the next property if it has none yet.
    pub fn intern_property(&mut self, name: &str) -> (result: Result<PropertyId>)
        requires
            old(self).wf(),
        ensures
            final(self).wf(),
            match result {
                Ok(property) => final(self).named(property, name@) && final(self).names() == if old(
                    self).names().contains(name@) {
                    old(self).names()
                } else {
                    old(self).names().push(name@)
                },
                Err(error) => {
                    &&& final(self).names() == old(self).names()
                    &&& error.code == ErrorCode::ResultBudgetExceeded
                    &&& !old(self).names().contains(name@)
                    &&& old(self).has_no_room(name@)
                },
            },
    {
        match self.properties.intern(name) {
            Ok(id) => Ok(PropertyId(id)),
            Err(error) => Err(error),
        }
    }
}

/// The first value given for a reserved name.
pub open spec fn reserved(
    catalog: NameCatalog,
    properties: Seq<(PropertyId, ScalarValue)>,
    name: Seq<char>,
) -> Option<Scalar>
    decreases properties.len(),
{
    if properties.len() == 0 {
        None
    } else if catalog.named(properties[0].0, name) {
        Some(properties[0].1@)
    } else {
        reserved(catalog, properties.skip(1), name)
    }
}

fn reserved_value<'a>(
    catalog: &NameCatalog,
    properties: &'a [(PropertyId, ScalarValue)],
    name: &str,
) -> (value: Option<&'a ScalarValue>)
    requires
        catalog.wf(),
    ensures
        match value {
            Some(value) => reserved(*catalog, properties@, name@) == Some(value@),
            None => reserved(*catalog, properties@, name@) is None,
        },
{
    let id = catalog.property(name);
    assert(properties@.skip(0) =~= properties@);
    for index in 0..properties.len()
        invariant
            match id {
                Some(property) => catalog.named(property, name@) && forall|other: PropertyId|
                    #[trigger] catalog.named(other, name@) ==> other == property,
                None => forall|property: PropertyId| !#[trigger] catalog.named(property, name@),
            },
            reserved(*catalog, properties@, name@) == reserved(
                *catalog,
                properties@.skip(index as int),
                name@,
            ),
    {
        assert(properties@.skip(index as int).skip(1) =~= properties@.skip(index + 1));
        if let Some(property) = id {
            if properties[index].0.0 == property.0 {
                assert(properties@[index as int].0 == property);
                return Some(&properties[index].1);
            }
        }
    }
    None
}

/// What keeps properties from being those of a Knowledge node.
pub open spec fn node_fault(
    catalog: NameCatalog,
    properties: Seq<(PropertyId, ScalarValue)>,
) -> Option<Seq<char>> {
    match reserved(catalog, properties, "name"@) {
        Some(Scalar::Text(name)) => if blank(name) {
            Some("KNOWLEDGE node `name` must not be blank"@)
        } else {
            at_fault(catalog, properties)
        },
        Some(_) => Some("KNOWLEDGE node `name` must be a STRING"@),
        None => Some("KNOWLEDGE node requires a `name` property"@),
    }
}

/// What keeps properties from being those of a Knowledge edge.
pub open spec fn edge_fault(
    catalog: NameCatalog,
    properties: Seq<(PropertyId, ScalarValue)>,
) -> Option<Seq<char>> {
    match reserved(catalog, properties, "text"@) {
        Some(Scalar::Text(_)) => at_fault(catalog, properties),
        Some(_) => Some("KNOWLEDGE edge `text` must be a STRING"@),
        None => at_fault(catalog, properties),
    }
}

pub open spec fn at_fault(
    catalog: NameCatalog,
    properties: Seq<(PropertyId, ScalarValue)>,
) -> Option<Seq<char>> {
    match reserved(catalog, properties, "at"@) {
        Some(at) => if temporal(at) {
            None
        } else {
            Some("KNOWLEDGE `at` must be a temporal value (date/time/datetime/duration)"@)
        },
        None => None,
    }
}

/// The result that goes with a fault.
pub open spec fn refused(result: Result<()>, fault: Option<Seq<char>>) -> bool {
    match fault {
        Some(message) => fails_with(result, ErrorCode::InvalidData, message),
        None => result is Ok,
    }
}

/// Enforces the locked contract for a Knowledge-layer node: a non-blank string `name`, plus a
/// well-typed `at` when present.
pub fn validate_node(catalog: &NameCatalog, properties: &[(PropertyId, ScalarValue)]) -> (result:
    Result<()>)
    requires
        catalog.wf(),
    ensures
        refused(result, node_fault(*catalog, properties@)),
{
    match reserved_value(catalog, properties, "name") {
        Some(ScalarValue::String(name)) => {
            if is_blank(name.as_str()) {
                return Err(Error::invalid_data("KNOWLEDGE node `name` must not be blank"));
            }
        },
        Some(_) => {
            return Err(Error::invalid_data("KNOWLEDGE node `name` must be a STRING"));
        },
        None => {
            return Err(Error::invalid_data("KNOWLEDGE node requires a `name` property"));
        },
    }
    validate_at(catalog, properties)
}

/// Enforces the locked contract for a Knowledge-layer edge: `text` is optional but must be a string,
/// and `at` must be a temporal scalar when present.
pub fn validate_edge(catalog: &NameCatalog, properties: &[(PropertyId, ScalarValue)]) -> (result:
    Result<()>)
    requires
        catalog.wf(),
    ensures
        refused(result, edge_fault(*catalog, properties@)),
{
    match reserved_value(catalog, properties, "text") {
        Some(ScalarValue::String(_)) => {},
        Some(_) => {
            return Err(Error::invalid_data("KNOWLEDGE edge `text` must be a STRING"));
        },
        None => {},
    }
    validate_at(catalog, properties)
}

fn validate_at(catalog: &NameCatalog, properties: &[(PropertyId, ScalarValue)]) -> (result: Result<
    (),
>)
    requires
        catalog.wf(),
    ensures
        refused(result, at_fault(*catalog, properties@)),
{
    match reserved_value(catalog, properties, "at") {
        Some(at) => if is_temporal_scalar(at) {
            Ok(())
        } else {
            Err(
                Error::invalid_data(
                    "KNOWLEDGE `at` must be a temporal value (date/time/datetime/duration)",
                ),
            )
        },
        None => Ok(()),
    }
}

/// What a reserved field is set on.
#[derive(Clone, Copy, Debug, PartialEq, Eq, Structural)]
pub enum ReservedTarget {
    Node,
    Edge,
}

/// What keeps one property of a Knowledge record from being set.
pub open spec fn update_fault(
    catalog: NameCatalog,
    property: PropertyId,
    value: Scalar,
    target: ReservedTarget,
) -> Option<Seq<char>> {
    if property.0 >= catalog.names().len() {
        None
    } else {
        let name = catalog.names()[property.0 as int];
        if target == ReservedTarget::Node && same_but_case(name, "name"@) {
            match value {
                Scalar::Text(text) => if blank(text) {
                    Some("KNOWLEDGE node `name` must be a non-blank STRING"@)
                } else {
                    None
                },
                _ => Some("KNOWLEDGE node `name` must be a non-blank STRING"@),
            }
        } else if target == ReservedTarget::Edge && same_but_case(name, "text"@)
            && !(value is Text) {
            Some("KNOWLEDGE edge `text` must be a STRING"@)
        } else if same_but_case(name, "at"@) && !temporal(value) {
            Some("KNOWLEDGE `at` must be a temporal value (date/time/datetime/duration)"@)
        } else {
            None
        }
    }
}

fn validate_reserved_update(
    catalog: &NameCatalog,
    property: PropertyId,
    value: &ScalarValue,
    target: ReservedTarget,
) -> (result: Result<()>)
    requires
        catalog.wf(),
    ensures
        refused(result, update_fault(*catalog, property, value@, target)),
{
    let name = match catalog.property_name(property) {
        Some(name) => name,
        None => {
            return Ok(());
        },
    };
    let is_node = match target {
        ReservedTarget::Node => true,
        ReservedTarget::Edge => false,
    };
    let is_text = match value {
        ScalarValue::String(_) => true,
        _ => false,
    };
    if is_node && equal_but_case(name, "name") {
        match value {
            ScalarValue::String(text) => {
                if is_blank(text.as_str()) {
                    return Err(
                        Error::invalid_data("KNOWLEDGE node `name` must be a non-blank STRING"),
                    );
                }
            },
            _ => {
                return Err(
                    Error::invalid_data("KNOWLEDGE node `name` must be a non-blank STRING"),
                );
            },
        }
    } else if !is_node && equal_but_case(name, "text") && !is_text {
        return Err(Error::invalid_data("KNOWLEDGE edge `text` must be a STRING"));
    } else if equal_but_case(name, "at") && !is_temporal_scalar(value) {
        return Err(
            Error::invalid_data(
                "KNOWLEDGE `at` must be a temporal value (date/time/datetime/duration)",
            ),
        );
    }
    Ok(())
}

/// What the contract needs to know of a graph: its property names and the layers of its records.
pub struct GraphLayers {
    pub catalog: NameCatalog,
    pub nodes: PersistentMap<Layer>,
    pub edges: PersistentMap<Layer>,
}

/// A change of a graph, as far as the contract looks at it.
pub enum GraphMutation {
    InsertNode { layer: Layer, properties: Vec<(PropertyId, ScalarValue)> },
    InsertEdge { layer: Layer, properties: Vec<(PropertyId, ScalarValue)> },
    SetNodeProperty { node: u64, property: PropertyId, value: ScalarValue },
    SetEdgeProperty { edge: u64, property: PropertyId, value: ScalarValue },
    Other,
}

/// The record is known and in the Knowledge layer.
pub open spec fn known_fact(records: Map<u128, Layer>, record: u64) -> bool {
    records.dom().contains(record as u128) && records[record as u128] == Layer::Knowledge
}

/// What keeps a change out.
pub open spec fn mutation_fault(graph: GraphLayers, mutation: GraphMutation) -> Option<Seq<char>> {
    match mutation {
        GraphMutation::InsertNode { layer, properties } => if layer == Layer::Knowledge {
            node_fault(graph.catalog, properties@)
        } else {
            None
        },
        GraphMutation::InsertEdge { layer, properties } => if layer == Layer::Knowledge {
            edge_fault(graph.catalog, properties@)
        } else {
            None
        },
        GraphMutation::SetNodeProperty { node, property, value } => if known_fact(
            graph.nodes@,
            node,
        ) {
            update_fault(graph.catalog, property, value@, ReservedTarget::Node)
        } else {
            None
        },
        GraphMutation::SetEdgeProperty { edge, property, value } => if known_fact(
            graph.edges@,
            edge,
        ) {
            update_fault(graph.catalog, property, value@, ReservedTarget::Edge)
        } else {
            None
        },
        GraphMutation::Other => None,
    }
}

fn is_knowledge(layer: Layer) -> (result: bool)
    ensures
        result == (layer == Layer::Knowledge),
{
    match layer {
        Layer::Knowledge => true,
        _ => false,
    }
}

/// The single enforcement point for the locked Knowledge contract on the durable write path. Only
/// Knowledge-layer creates and reserved-field updates are constrained.
pub fn validate_mutation(graph: &GraphLayers, mutation: &GraphMutation) -> (result: Result<()>)
    requires
        graph.catalog.wf(),
        graph.nodes.wf(),
        graph.edges.wf(),
    ensures
        refused(result, mutation_fault(*graph, *mutation)),
{
    match mutation {
        GraphMutation::InsertNode { layer, properties } => if is_knowledge(*layer) {
            validate_node(&graph.catalog, properties.as_slice())
        } else {
            Ok(())
        },
        GraphMutation::InsertEdge { layer, properties } => if is_knowledge(*layer) {
            validate_edge(&graph.catalog, properties.as_slice())
        } else {
            Ok(())
        },
        GraphMutation::SetNodeProperty { node, property, value } => {
            match graph.nodes.get(*node as u128) {
                Some(layer) => if is_knowledge(*layer) {
                    validate_reserved_update(&graph.catalog, *property, value, ReservedTarget::Node)
                } else {
                    Ok(())
                },
                None => Ok(()),
            }
        },
        GraphMutation::SetEdgeProperty { edge, property, value } => {
            match graph.edges.get(*edge as u128) {
                Some(layer) => if is_knowledge(*layer) {
                    validate_reserved_update(&graph.catalog, *property, value, ReservedTarget::Edge)
                } else {
                    Ok(())
                },
                None => Ok(()),
            }
        },
        GraphMutation::Other => Ok(()),
    }
}

/// The value of a reserved name is the first that is given for it.
pub proof fn law_reserved_value_is_the_first(
    catalog: NameCatalog,
    properties: Seq<(PropertyId, ScalarValue)>,
    name: Seq<char>,
    place: int,
)
    ensures
        0 <= place < properties.len() && catalog.named(properties[place].0, name) && (forall|i: int|
            0 <= i < place ==> !catalog.named((#[trigger] properties[i]).0, name)) ==> reserved(
            catalog,
            properties,
            name,
        ) == Some(properties[place].1@),
        (forall|i: int|
            0 <= i < properties.len() ==> !catalog.named((#[trigger] properties[i]).0, name))
            ==> reserved(catalog, properties, name) is None,
    decreases properties.len(),
{
    if properties.len() > 0 {
        let rest = properties.skip(1);
        law_reserved_value_is_the_first(catalog, rest, name, place - 1);
        if forall|i: int|
            0 <= i < properties.len() ==> !catalog.named((#[trigger] properties[i]).0, name) {
            assert(!catalog.named(properties[0].0, name));
            assert forall|i: int| 0 <= i < rest.len() implies !catalog.named(
                (#[trigger] rest[i]).0,
                name,
            ) by {
                assert(!catalog.named(properties[i + 1].0, name));
            }
        }
        if 0 < place < properties.len() && (forall|i: int|
            0 <= i < place ==> !catalog.named((#[trigger] properties[i]).0, name)) {
            assert(!catalog.named(properties[0].0, name));
            assert forall|i: int| 0 <= i < place - 1 implies !catalog.named(
                (#[trigger] rest[i]).0,
                name,
            ) by {
                assert(!catalog.named(properties[i + 1].0, name));
            }
            assert(rest[place - 1] == properties[place]);
        }
    }
}

/// A node of Knowledge is taken exactly where its name is a text with some character that is no white
/// space, and what it says of a point in time, if anything, is a date, a time, a date-time or a duration.
pub proof fn law_nodes_have_a_name(
    catalog: NameCatalog,
    properties: Seq<(PropertyId, ScalarValue)>,
    result: Result<()>,
)
    requires
        refused(result, node_fault(catalog, properties)),
    ensures
        result is Ok <==> (reserved(catalog, properties, "name"@) matches Some(Scalar::Text(name))
            && exists|i: int| 0 <= i < name.len() && !crate::text::white_space(#[trigger] name[i]))
            && (reserved(catalog, properties, "at"@) matches Some(at) ==> at is Date
            || at is LocalTime || at is ZonedTime || at is LocalDateTime || at is ZonedDateTime
            || at is Duration),
        result is Err ==> result->Err_0.code == ErrorCode::InvalidData,
{
}

/// An edge of Knowledge is taken exactly where its text, if it has one, is a text, and what it says of a
/// point in time, if anything, is a date, a time, a date-time or a duration.
pub proof fn law_edges_may_have_a_text(
    catalog: NameCatalog,
    properties: Seq<(PropertyId, ScalarValue)>,
    result: Result<()>,
)
    requires
        refused(result, edge_fault(catalog, properties)),
    ensures
        result is Ok <==> (reserved(catalog, properties, "text"@) matches Some(text)
            ==> text is Text) && (reserved(catalog, properties, "at"@) matches Some(at)
            ==> at is Date || at is LocalTime || at is ZonedTime || at is LocalDateTime
            || at is ZonedDateTime || at is Duration),
        result is Err ==> result->Err_0.code == ErrorCode::InvalidData,
{
}

/// Setting one property of a record of Knowledge is refused only for a reserved name, in whatever case:
/// the name of a node must be a text that is not blank, the text of an edge a text, and a point in time
/// temporal. A property that is not reserved takes every value.
pub proof fn law_reserved_updates(
    catalog: NameCatalog,
    property: PropertyId,
    value: Scalar,
    target: ReservedTarget,
    name: Seq<char>,
)
    requires
        catalog.named(property, name),
    ensures
        !same_but_case(name, "name"@) && !same_but_case(name, "text"@) && !same_but_case(
            name,
            "at"@,
        ) ==> update_fault(catalog, property, value, target) is None,
        same_but_case(name, "name"@) && target == ReservedTarget::Node ==> (update_fault(
            catalog,
            property,
            value,
            target,
        ) is None <==> (value matches Scalar::Text(text) && exists|i: int|
            0 <= i < text.len() && !crate::text::white_space(#[trigger] text[i]))),
        same_but_case(name, "text"@) && target == ReservedTarget::Edge ==> (update_fault(
            catalog,
            property,
            value,
            target,
        ) is None <==> value is Text),
        same_but_case(name, "at"@) ==> (update_fault(catalog, property, value, target) is None
            <==> value is Date || value is LocalTime || value is ZonedTime || value is LocalDateTime
            || value is ZonedDateTime || value is Duration),
        same_but_case(name, "name"@) && target == ReservedTarget::Edge ==> update_fault(
            catalog,
            property,
            value,
            target,
        ) is None,
        same_but_case(name, "text"@) && target == ReservedTarget::Node ==> update_fault(
            catalog,
            property,
            value,
            target,
        ) is None,
{
    lemma_reserved_lengths();
}

/// What is written to Knowledge is held to the rules of nodes, of edges and of single properties.
pub proof fn law_knowledge_is_constrained(
    graph: GraphLayers,
    properties: Vec<(PropertyId, ScalarValue)>,
    record: u64,
    property: PropertyId,
    value: ScalarValue,
    result: Result<()>,
)
    requires
        refused(result, node_fault(graph.catalog, properties@)),
    ensures
        refused(
            result,
            mutation_fault(
                graph,
                GraphMutation::InsertNode { layer: Layer::Knowledge, properties },
            ),
        ),
        mutation_fault(graph, GraphMutation::InsertEdge { layer: Layer::Knowledge, properties })
            == edge_fault(graph.catalog, properties@),
        graph.nodes@.dom().contains(record as u128) && graph.nodes@[record as u128]
            == Layer::Knowledge ==> mutation_fault(
            graph,
            GraphMutation::SetNodeProperty { node: record, property, value },
        ) == update_fault(graph.catalog, property, value@, ReservedTarget::Node),
        graph.edges@.dom().contains(record as u128) && graph.edges@[record as u128]
            == Layer::Knowledge ==> mutation_fault(
            graph,
            GraphMutation::SetEdgeProperty { edge: record, property, value },
        ) == update_fault(graph.catalog, property, value@, ReservedTarget::Edge),
{
}

/// Writes that touch no Knowledge record are never refused.
pub proof fn law_only_knowledge_is_constrained(graph: GraphLayers, mutation: GraphMutation)
    requires
        match mutation {
            GraphMutation::InsertNode { layer, .. } => layer != Layer::Knowledge,
            GraphMutation::InsertEdge { layer, .. } => layer != Layer::Knowledge,
            GraphMutation::SetNodeProperty { node, .. } => !known_fact(graph.nodes@, node),
            GraphMutation::SetEdgeProperty { edge, .. } => !known_fact(graph.edges@, edge),
            GraphMutation::Other => true,
        },
    ensures
        mutation_fault(graph, mutation) is None,
{
}

} // verus!
