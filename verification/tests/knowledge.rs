use irongraph::error::ErrorCode;
use irongraph::knowledge::{
    is_temporal_scalar, render_priority, validate_edge, validate_mutation, validate_node,
    GraphLayers, GraphMutation, NameCatalog, AT, NAME, TEXT,
};
use irongraph::layers::{Layer, LayerMask};
use irongraph::values::{PropertyId, ScalarValue};

struct Schema {
    catalog: NameCatalog,
}

impl Schema {
    fn new() -> Self {
        let mut catalog = NameCatalog::default();
        for reserved in [NAME, TEXT, AT, "city"] {
            catalog.intern_property(reserved).expect("intern reserved");
        }
        Self { catalog }
    }

    fn id(&self, name: &str) -> PropertyId {
        self.catalog.property(name).expect("interned")
    }

    fn prop(&self, name: &str, value: ScalarValue) -> (PropertyId, ScalarValue) {
        (self.id(name), value)
    }
}

fn text(value: &str) -> ScalarValue {
    ScalarValue::String(value.to_string())
}

#[test]
fn knowledge_node_requires_a_non_blank_string_name() {
    let schema = Schema::new();
    assert!(validate_node(&schema.catalog, &[]).is_err());
    assert!(
        validate_node(&schema.catalog, &[schema.prop(NAME, text("  "))]).is_err(),
        "blank name rejected"
    );
    assert!(
        validate_node(
            &schema.catalog,
            &[schema.prop(NAME, ScalarValue::Integer(7))]
        )
        .is_err(),
        "non-string name rejected"
    );
    validate_node(&schema.catalog, &[schema.prop(NAME, text("Acme Corp"))])
        .expect("named knowledge node accepted");
}

#[test]
fn reserved_at_must_be_temporal_everywhere() {
    let schema = Schema::new();
    let named = schema.prop(NAME, text("Acme Corp"));
    assert!(
        validate_node(
            &schema.catalog,
            &[named.clone(), schema.prop(AT, text("yesterday"))]
        )
        .is_err(),
        "string `at` rejected"
    );
    validate_node(
        &schema.catalog,
        &[named, schema.prop(AT, ScalarValue::Date(19_000))],
    )
    .expect("date `at` accepted");
    assert!(
        validate_edge(&schema.catalog, &[schema.prop(AT, ScalarValue::Integer(1))]).is_err(),
        "integer `at` on an edge rejected"
    );
}

#[test]
fn knowledge_edge_text_is_optional_but_must_be_a_string() {
    let schema = Schema::new();
    validate_edge(&schema.catalog, &[]).expect("edge without text accepted");
    validate_edge(
        &schema.catalog,
        &[schema.prop(TEXT, text("Extracted from the 2024 filing."))],
    )
    .expect("string text accepted");
    assert!(
        validate_edge(
            &schema.catalog,
            &[schema.prop(TEXT, ScalarValue::Integer(1))]
        )
        .is_err(),
        "non-string text rejected"
    );
}

#[test]
fn reserved_fields_sort_ahead_of_business_properties() {
    assert!(render_priority(NAME) < render_priority("city"));
    assert!(render_priority(TEXT) < render_priority("city"));
    assert!(render_priority(AT) < render_priority("city"));
    assert_eq!(render_priority("CITY"), usize::MAX);
}

#[test]
fn names_are_interned_once() {
    let mut schema = Schema::new();
    let city = schema.id("city");
    assert_eq!(schema.catalog.intern_property("city").expect("known"), city);
    assert_eq!(schema.catalog.property_name(city), Some("city"));
    assert_eq!(schema.catalog.property_name(PropertyId(99)), None);
    assert_eq!(schema.catalog.property("town"), None);
}

#[test]
fn every_temporal_kind_can_date_a_record() {
    assert!(is_temporal_scalar(&ScalarValue::LocalTime(0)));
    assert!(is_temporal_scalar(&ScalarValue::Date(0)));
    assert!(!is_temporal_scalar(&ScalarValue::Integer(0)));
    assert!(!is_temporal_scalar(&text("2024-01-01")));
}

#[test]
fn only_knowledge_mutations_are_constrained() {
    let schema = Schema::new();
    let graph = GraphLayers {
        catalog: schema.catalog,
        nodes: Default::default(),
        edges: Default::default(),
    };
    let unnamed = |layer| GraphMutation::InsertNode {
        layer,
        properties: Vec::new(),
    };
    let error = validate_mutation(&graph, &unnamed(Layer::Knowledge)).expect_err("name is missing");
    assert_eq!(error.code, ErrorCode::InvalidData);
    assert!(validate_mutation(&graph, &unnamed(Layer::Observed)).is_ok());
    assert!(validate_mutation(&graph, &unnamed(Layer::Workspace)).is_ok());
    assert!(validate_mutation(&graph, &GraphMutation::Other).is_ok());
}

#[test]
fn authority_excludes_workspace_but_all_includes_it() {
    // The isolation invariant: the authority mask must never see Workspace.
    assert!(LayerMask::authority().contains_layer(Layer::Observed));
    assert!(LayerMask::authority().contains_layer(Layer::Knowledge));
    assert!(!LayerMask::authority().contains_layer(Layer::Workspace));
    assert!(LayerMask::all().contains_layer(Layer::Workspace));
    assert_eq!(LayerMask::default(), LayerMask::authority());
}

#[test]
fn workspace_layer_byte_round_trips() {
    assert_eq!(
        Layer::try_from(2).expect("byte 2 is Workspace"),
        Layer::Workspace
    );
    assert_eq!(Layer::Workspace.to_byte(), 2);
}

#[test]
fn unknown_layer_bytes_are_handed_back() {
    assert_eq!(Layer::try_from(3), Err(3));
    assert_eq!(Layer::try_from(0), Ok(Layer::Observed));
    assert_eq!(Layer::try_from(1), Ok(Layer::Knowledge));
}
