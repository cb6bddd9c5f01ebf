use irongraph::error::{Error, ErrorCode, Result};
use irongraph::index::ann::{matched_neighbors, recall_gate, validation_row, IvfPqIndex};
use irongraph::index::catalog::{IndexCatalog, RuntimeIndex};
use irongraph::index::embeddings::ResolvedVectorMutation;
use irongraph::index::encode::assemble_pages;
use irongraph::index::fulltext::TextIndex;
use irongraph::index::images::DerivedIndexDeviceImage;
use irongraph::index::keys::{index_key_hash, IndexKey};
use irongraph::index::maintenance::NodeChange;
use irongraph::index::nodes::NodeRecord;
use irongraph::index::plan::{
    ivf_config_for_shape, subspace_bounds, validate_ivf_config, IvfPqBuildPlan, IvfPqConfig,
    IVF_PQ_ASSIGNMENT_TILE_BYTES, IVF_PQ_BUILD_BATCH_ROWS, IVF_PQ_SIZE_CLASS_VERSION,
    MAX_IVF_PQ_TRAINING_ROWS,
};
use irongraph::index::postings::PostingDomain;
use irongraph::index::profile::{
    DerivedIndexState, EmbeddingIndexDefinition, EmbeddingProfile, GraphIndexDefinition,
    GraphIndexKind, SchemaNames,
};
use irongraph::index::scalar::{EqualityIndex, PostingShape, Postings, RangeIndex};
use irongraph::index::vectors::{EmbeddingDType, SharedVectorBacking, Similarity, VectorIndex};
use irongraph::knowledge::NameCatalog;
use irongraph::persistent::paged::PagedVec;
use irongraph::persistent::radix::PersistentMap;
use irongraph::shared::SharedFlat;
use irongraph::values::{LabelId, PropertyId, ScalarValue};

const ONE: u16 = 0x3c00;

struct Graph {
    schema: SchemaNames,
    nodes: Vec<NodeRecord>,
    label: LabelId,
    source: PropertyId,
    target: PropertyId,
}

fn node(id: u64, dense: u32, source: PropertyId, text: &str) -> NodeRecord {
    NodeRecord {
        id,
        dense,
        revision: 1,
        labels: vec![LabelId(0)],
        properties: vec![(source, ScalarValue::String(text.to_string()))],
    }
}

fn indexed_graph() -> Result<Graph> {
    let mut properties = NameCatalog::default();
    let source = properties.intern_property("text")?;
    let target = properties.intern_property("embedding")?;
    Ok(Graph {
        schema: SchemaNames {
            labels: 1,
            properties,
        },
        nodes: vec![node(7, 0, source, "first")],
        label: LabelId(0),
        source,
        target,
    })
}

fn definition(name: &str, kind: GraphIndexKind, property: PropertyId) -> GraphIndexDefinition {
    GraphIndexDefinition {
        name: name.to_string(),
        kind,
        label: LabelId(0),
        properties: vec![property],
        unique: false,
    }
}

/// Pages over every active row, all in one list, that count as validated.
fn pages_of(source: &VectorIndex, config: IvfPqConfig) -> Result<IvfPqIndex> {
    let rows = source.len() as u32;
    let dimension = source.dimension();
    let mut pages = IvfPqIndex {
        config: IvfPqConfig {
            subquantizers: 1,
            coarse_centroids: 1,
            ..config
        },
        dimension,
        similarity: source.similarity(),
        coarse: vec![vec![0; dimension]],
        codebooks: vec![vec![vec![0; dimension]]],
        rows: (0..rows).collect(),
        codes: vec![0; rows as usize],
        list_offsets: vec![0, rows],
        list_positions: (0..rows).collect(),
        built_versions: vec![1; rows as usize],
        recall_basis_points: 10_000,
        validation_queries: 1,
        build_generation: [0; 32],
    };
    pages.set_generation(&rows.to_le_bytes());
    Ok(pages)
}

fn no_pages(_: &VectorIndex, _: IvfPqConfig) -> Result<IvfPqIndex> {
    Err(Error::new(ErrorCode::GpuAdmissionFailure, "no builder"))
}

fn profile(seed: u8) -> Result<EmbeddingProfile> {
    EmbeddingProfile::new(
        [seed; 32],
        [seed + 1; 32],
        4,
        EmbeddingDType::F16,
        true,
        Similarity::Cosine,
    )
}

fn semantic(graph: &Graph) -> EmbeddingIndexDefinition {
    EmbeddingIndexDefinition {
        name: "semantic".to_string(),
        label: graph.label,
        source_property: graph.source,
        target_property: graph.target,
        model: "default".to_string(),
    }
}

fn text_value(text: &str) -> ScalarValue {
    ScalarValue::String(text.to_string())
}

#[test]
fn scalar_index_key_preserves_wide_date_days() -> Result<()> {
    let wide_days = 365_242_499_634_i64;
    assert_eq!(
        IndexKey::try_from(&ScalarValue::Date(wide_days))?,
        IndexKey::Date(wide_days)
    );
    Ok(())
}

#[test]
fn index_optimizer_generation_is_cached_and_invalidated_by_definition_change() -> Result<()> {
    let graph = indexed_graph()?;
    let mut catalog = IndexCatalog::default();
    let empty = catalog.optimizer_generation();
    assert_eq!(catalog.optimizer_generation(), empty);
    catalog.create(
        &graph.schema,
        &graph.nodes,
        definition("document_text", GraphIndexKind::Equality, graph.source),
        no_pages,
    )?;
    let created = catalog.optimizer_generation();
    assert_ne!(created, empty);
    catalog.insert_node(&node(8, 1, graph.source, "second"))?;
    assert_eq!(catalog.optimizer_generation(), created);
    catalog.drop_index("document_text")?;
    assert_eq!(catalog.optimizer_generation(), empty);
    Ok(())
}

fn text_with_rows(rows: u32) -> TextIndex {
    let mut index = TextIndex::default();
    for row in 0..rows {
        index.upsert(row, "common");
    }
    index.seal();
    index
}

#[test]
fn optimizer_statistics_delta_shape_avoids_posting_materialization() {
    let small = text_with_rows(40);
    let large = text_with_rows(400_000);
    let mut small_next = small.clone();
    let mut large_next = large.clone();
    small_next.upsert(17, "replacement");
    large_next.upsert(17, "replacement");
    assert_eq!(
        small_next.shape(),
        PostingShape {
            distinct: 2,
            total: 40,
            largest: 39,
            bytes: 177,
        }
    );
    assert_eq!(
        large_next.shape(),
        PostingShape {
            distinct: 2,
            total: 400_000,
            largest: 399_999,
            bytes: 1_600_017,
        }
    );
    assert_eq!(
        small.shape(),
        PostingShape {
            distinct: 1,
            total: 40,
            largest: 40,
            bytes: 166,
        }
    );
}

#[test]
fn ivf_pq_parameters_and_bounded_scratch_scale_to_large_shape() -> Result<()> {
    let small = ivf_config_for_shape(8_000, 384);
    assert_eq!(small.coarse_centroids, 64);
    assert_eq!(small.subquantizers, 8);
    assert_eq!(small.candidate_budget, 256);
    let small_plan = IvfPqBuildPlan::for_shape(8_000, 384, small)?;
    assert!(small_plan.assignment_tile_bytes < IVF_PQ_ASSIGNMENT_TILE_BYTES);

    let large_rows = 100_000_000;
    let large = ivf_config_for_shape(large_rows, 384);
    assert_eq!(large.coarse_centroids, u16::MAX as usize);
    assert_eq!(large.subquantizers, 48);
    assert_eq!(large.probes, 128);
    assert_eq!(large.candidate_budget, 8_192);
    let plan = IvfPqBuildPlan::for_shape(large_rows as u64, 384, large)?;
    assert_eq!(plan.training_rows, MAX_IVF_PQ_TRAINING_ROWS);
    assert_eq!(plan.batch_rows, IVF_PQ_BUILD_BATCH_ROWS);
    assert_eq!(plan.assignment_tile_bytes, IVF_PQ_ASSIGNMENT_TILE_BYTES);
    assert!((6_000_000_000..7_000_000_000).contains(&plan.derived_bytes));
    assert!(plan.peak_scratch_bytes < 1_200_000_000);
    let mut incompatible = large;
    incompatible.size_class_version = 0;
    assert!(IvfPqBuildPlan::for_shape(large_rows as u64, 384, incompatible).is_err());
    Ok(())
}

#[test]
fn subspaces_tile_a_dimension() -> Result<()> {
    let config = ivf_config_for_shape(1_000, 384);
    validate_ivf_config(384, config)?;
    let mut next = 0;
    for subspace in 0..config.subquantizers {
        let (start, end) = subspace_bounds(384, config.subquantizers, subspace);
        assert_eq!(start, next);
        next = end;
    }
    assert_eq!(next, 384);
    assert!(validate_ivf_config(0, config).is_err());
    Ok(())
}

fn vectors(rows: u64) -> Result<VectorIndex> {
    let mut index = VectorIndex::new(4, Similarity::Dot)?;
    for entity in 0..rows {
        index.upsert_quantized(entity, &[ONE, 0, entity as u16, ONE], entity + 1)?;
    }
    Ok(index)
}

fn coordinates(entity: u64) -> [f32; 4] {
    let value = entity as f32 / 64.0;
    [value, 1.0 - value, value * value, (entity % 7) as f32]
}

fn distance(left: &[f32], right: &[f32]) -> f32 {
    left.iter()
        .zip(right)
        .map(|(left, right)| (left - right) * (left - right))
        .sum()
}

fn nearest(value: &[f32], centers: &[Vec<f32>]) -> u32 {
    let mut best = 0;
    for (index, center) in centers.iter().enumerate() {
        if distance(value, center) < distance(value, &centers[best]) {
            best = index;
        }
    }
    best as u32
}

#[test]
fn filtered_vector_rows_remap_existing_ann_without_retraining() -> Result<()> {
    let mut source = VectorIndex::new(4, Similarity::Dot)?;
    for entity in 0_u64..64 {
        let bits = coordinates(entity).map(|value| half::f16::from_f32(value).to_bits());
        source.upsert_quantized(entity, &bits, entity + 1)?;
    }
    let config = IvfPqConfig {
        size_class_version: IVF_PQ_SIZE_CLASS_VERSION,
        coarse_centroids: 4,
        subquantizers: 2,
        bits_per_code: 3,
        probes: 4,
        candidate_budget: 64,
        iterations: 2,
        seed: 19,
    };
    let coarse: Vec<Vec<f32>> = (0..4).map(|list| coordinates(list * 16).to_vec()).collect();
    let lists: Vec<u32> = (0..64).map(|entity| nearest(&coordinates(entity), &coarse)).collect();
    let part = |entity: u64, subspace: usize| -> Vec<f32> {
        let center = &coarse[lists[entity as usize] as usize];
        (subspace * 2..subspace * 2 + 2)
            .map(|place| coordinates(entity)[place] - center[place])
            .collect()
    };
    let books: Vec<Vec<Vec<f32>>> = (0..2)
        .map(|subspace| (0..8).map(|code| part(code * 8 + 3, subspace)).collect())
        .collect();
    let codes: Vec<Vec<u32>> = (0..2)
        .map(|subspace| {
            (0..64)
                .map(|entity| nearest(&part(entity, subspace), &books[subspace]))
                .collect()
        })
        .collect();
    let bits = |rows: &Vec<Vec<f32>>| -> Vec<Vec<u32>> {
        rows.iter()
            .map(|row| row.iter().map(|value| value.to_bits()).collect())
            .collect()
    };
    let approximate = assemble_pages(
        &source,
        config,
        bits(&coarse),
        books.iter().map(bits).collect(),
        &lists,
        &lists,
        &codes,
    )?;
    let mut retained = PersistentMap::default();
    for entity in (0..64_u128).filter(|entity| entity % 3 == 1) {
        retained.insert(entity, ());
    }
    let remap = source.retain_entities(&retained)?;
    let filtered = approximate
        .remap_rows(&remap)?
        .ok_or_else(|| Error::internal("non-empty ANN filter returned no index"))?;
    let query = [0.4_f32, 0.6, 0.16, 3.0];
    let score = |row: usize| {
        let entity = (row as u64) * 3 + 1;
        let product: f32 = coordinates(entity)
            .iter()
            .zip(query)
            .map(|(value, wanted)| half::f16::from_f32(*value).to_f32() * wanted)
            .sum();
        product.to_bits()
    };
    let near = |list: usize| distance(&query, &coarse[list]).to_bits();
    let far = |list: u64, position: u32| {
        let residual: Vec<f32> = query
            .iter()
            .zip(&coarse[list as usize])
            .map(|(value, center)| value - center)
            .collect();
        (0..2)
            .map(|subspace| {
                let code = filtered.codes[position as usize * 2 + subspace] as usize;
                distance(&residual[subspace * 2..subspace * 2 + 2], &books[subspace][code])
            })
            .sum::<f32>()
            .to_bits()
    };
    assert_eq!(
        filtered.search(&source, 10, near, far, score)?,
        source.exact_search(10, score)
    );
    assert_eq!(filtered.rows.len(), 21);
    assert_eq!(filtered.rows.len(), retained.len());
    filtered.device_image()?;

    let empty = PersistentMap::default();
    let empty_remap = source.retain_entities(&empty)?;
    assert!(filtered.remap_rows(&empty_remap)?.is_none());
    Ok(())
}

#[test]
fn filtered_pages_follow_the_rows_that_are_left() -> Result<()> {
    let mut source = vectors(64)?;
    let pages = pages_of(&source, ivf_config_for_shape(64, 4))?;
    let mut retained = PersistentMap::default();
    for entity in (0..64_u128).filter(|entity| entity % 3 == 1) {
        retained.insert(entity, ());
    }
    let remap = source.retain_entities(&retained)?;
    assert_eq!(source.len(), 21);
    assert_eq!(remap.get(4), Some(&1));
    assert_eq!(
        source.coordinates_for(4),
        Some(vec![ONE, 0, 4, ONE])
    );
    let filtered = pages
        .remap_rows(&remap)?
        .ok_or_else(|| Error::internal("non-empty filter returned no pages"))?;
    assert_eq!(filtered.rows, (0..21).collect::<Vec<u32>>());
    assert_eq!(filtered.list_offsets, vec![0, 21]);
    assert_eq!(filtered.list_positions, (0..21).collect::<Vec<u32>>());
    assert_eq!(filtered.recall_basis_points(), 0);
    let image = filtered.device_image()?;
    assert_eq!(image.rows, filtered.rows);

    let empty = PersistentMap::default();
    let empty_remap = source.retain_entities(&empty)?;
    assert!(source.is_empty());
    assert!(filtered.remap_rows(&empty_remap)?.is_none());

    let mut broken = pages_of(&vectors(2)?, ivf_config_for_shape(2, 4))?;
    broken.codes.clear();
    let error = broken.remap_rows(&remap).err().expect("broken pages");
    assert_eq!(error.code, ErrorCode::CorruptStorage);
    assert_eq!(error.message, "ANN code row is truncated");
    assert!(broken.remap_rows(&empty_remap)?.is_none());
    Ok(())
}

#[test]
fn posting_overrides_do_not_retain_write_history() -> Result<()> {
    let key = IndexKey::String("value".to_string());
    let mut equality = EqualityIndex {
        postings: Postings::empty(PostingDomain::Scalar),
    };
    for revision in 0..10_000 {
        if revision % 2 == 0 {
            equality.insert_key(key.clone(), 7);
        } else {
            equality.remove_key(&key, 7);
        }
    }
    assert!(equality.get(&key).is_none());
    assert_eq!(equality.postings.shape(false).bytes, 0);
    assert!(equality.postings.materialized().entries.is_empty());

    let mut text = TextIndex::default();
    for revision in 0..10_000 {
        text.upsert(7, if revision % 2 == 0 { "alpha" } else { "beta" });
    }
    assert!(!text.search("alpha").contains(7));
    assert!(text.search("beta").contains(7));
    assert_eq!(text.len(), 1);
    assert_eq!(text.shape().bytes, 4 + 4);
    assert_eq!(text.materialized_postings().entries.len(), 1);
    Ok(())
}

#[test]
fn quantized_vector_mutation_replays_identical_bits() -> Result<()> {
    let graph = indexed_graph()?;
    let profile = profile(11)?;
    let mut catalogs = Vec::new();
    let bits = [0.25_f32, -0.5, 0.75, 1.0].map(|value| half::f16::from_f32(value).to_bits());
    assert_eq!(bits, [0x3400, 0xb800, 0x3a00, ONE]);
    let failed = |error: postcard::Error| Error::internal(&error.to_string());
    let encoded = postcard::to_stdvec(&(graph.target.0, 7_u64, bits.to_vec(), 41_u64)).map_err(failed)?;
    let (property, entity_id, coordinates, revision): (u32, u64, Vec<u16>, u64) =
        postcard::from_bytes(&encoded).map_err(failed)?;
    assert_eq!(coordinates, bits);
    let written = (graph.target.0, 7, bits.to_vec(), 41);
    for (property, entity_id, coordinates, revision) in
        [written, (property, entity_id, coordinates, revision)]
    {
        let mut catalog = IndexCatalog::default();
        catalog.create_embedding(
            &graph.schema,
            &graph.nodes,
            semantic(&graph),
            profile,
            vec![(7, vec![ONE, 0, 0, 0], 1)],
            pages_of,
        )?;
        let mutation = ResolvedVectorMutation::Upsert {
            property: PropertyId(property),
            entity_id,
            coordinates,
            revision,
        };
        catalog.apply_vector_mutation(&mutation)?;
        catalog.apply_vector_mutation(&mutation)?;
        catalogs.push(catalog);
    }
    let images = catalogs
        .iter()
        .map(|catalog| {
            let (matrix, _) = catalog
                .vector_search_source("semantic")
                .ok_or_else(|| Error::internal("vector index is offline"))?;
            let image = matrix.device_image(graph.target)?;
            let score = |_: usize| 1.0_f32.to_bits();
            Ok((
                image.entity_ids,
                image.values,
                image.versions,
                image.active,
                matrix.exact_search(1, score),
            ))
        })
        .collect::<Result<Vec<_>>>()?;
    assert_eq!(images[0], images[1]);
    for catalog in &catalogs {
        let (matrix, pages) = catalog
            .vector_search_source("semantic")
            .ok_or_else(|| Error::internal("vector index is offline"))?;
        assert_eq!(
            matrix.coordinates_for(7),
            Some(vec![0x3400, 0xb800, 0x3a00, ONE])
        );
        assert!(pages.is_some());
        let (property, column) = catalog
            .canonical_embedding_column()?
            .ok_or_else(|| Error::internal("embedding column is missing"))?;
        assert_eq!(property, graph.target);
        assert_eq!(column.len(), 1);
    }
    let missing = ResolvedVectorMutation::Remove {
        property: graph.source,
        entity_id: 7,
        revision: 42,
    };
    let error = catalogs[0].apply_vector_mutation(&missing).err();
    assert_eq!(
        error.map(|error| error.code),
        Some(ErrorCode::EmbeddingProfileMismatch)
    );
    catalogs[0].apply_vector_mutation(&ResolvedVectorMutation::Remove {
        property: graph.target,
        entity_id: 7,
        revision: 42,
    })?;
    let (matrix, _) = catalogs[0]
        .vector_search_source("semantic")
        .ok_or_else(|| Error::internal("vector index is offline"))?;
    assert_eq!(matrix.coordinates_for(7), None);
    Ok(())
}

#[test]
fn failed_vector_rebuild_keeps_previous_validated_generation_online() -> Result<()> {
    let graph = indexed_graph()?;
    let profile = EmbeddingProfile::new(
        [11; 32],
        [17; 32],
        4,
        EmbeddingDType::F16,
        true,
        Similarity::Cosine,
    )?;
    let mut indexes = IndexCatalog::default();
    indexes.create_embedding(
        &graph.schema,
        &graph.nodes,
        semantic(&graph),
        profile,
        vec![(7, vec![ONE, 0, 0, 0], 1)],
        pages_of,
    )?;
    let before = indexes
        .vector_search_source("semantic")
        .and_then(|(_, approximate)| approximate)
        .map(IvfPqIndex::build_generation)
        .ok_or_else(|| Error::internal("initial ANN generation is unavailable"))?;
    indexes.rebuild_deferred(&graph.nodes, "semantic")?;
    indexes.rebuild_vectors_with(|_, _| {
        Err(Error::new(
            ErrorCode::GpuAdmissionFailure,
            "injected local builder failure",
        ))
    })?;
    let after = indexes
        .vector_search_source("semantic")
        .and_then(|(_, approximate)| approximate)
        .map(IvfPqIndex::build_generation)
        .ok_or_else(|| Error::internal("failed rebuild evicted the valid ANN generation"))?;
    assert_eq!(after, before);
    assert_eq!(
        indexes.statuses().first().map(|status| status.state),
        Some(DerivedIndexState::Online)
    );
    Ok(())
}

#[test]
fn unvalidated_pages_are_not_published() -> Result<()> {
    let graph = indexed_graph()?;
    let mut indexes = IndexCatalog::default();
    indexes.create_embedding_deferred(
        &graph.schema,
        &graph.nodes,
        semantic(&graph),
        profile(11)?,
        vec![(7, vec![ONE, 0, 0, 0], 1)],
    )?;
    assert!(indexes.vector_search_source("semantic").is_none());
    indexes.rebuild_vectors_with(|source, config| {
        let mut pages = pages_of(source, config)?;
        pages.recall_basis_points = 8_999;
        Ok(pages)
    })?;
    let status = &indexes.statuses()[0];
    assert_eq!(status.state, DerivedIndexState::Failed);
    assert_eq!(
        status.diagnostic.as_deref(),
        Some("IVF-PQ builder returned an unvalidated generation")
    );
    indexes.rebuild(&graph.nodes, "semantic", pages_of)?;
    assert!(indexes.vector_search_source("semantic").is_some());
    Ok(())
}

#[test]
fn profile_replacement_ignores_scalar_indexes_but_not_vector_state() -> Result<()> {
    let graph = indexed_graph()?;
    let first = EmbeddingProfile::new(
        [1; 32],
        [2; 32],
        4,
        EmbeddingDType::F16,
        true,
        Similarity::Cosine,
    )?;
    let second = EmbeddingProfile::new(
        [3; 32],
        [4; 32],
        4,
        EmbeddingDType::F16,
        true,
        Similarity::Cosine,
    )?;
    let mut catalog = IndexCatalog::default();
    catalog.activate_profile(first)?;
    catalog.create(
        &graph.schema,
        &graph.nodes,
        definition("ordinary", GraphIndexKind::Equality, graph.source),
        no_pages,
    )?;
    assert!(catalog.embedding_profile_is_mutable());
    catalog.activate_profile(second)?;
    assert_eq!(catalog.profile(), Some(&second));

    catalog.create(
        &graph.schema,
        &graph.nodes,
        definition("vectors", GraphIndexKind::Vector, graph.target),
        no_pages,
    )?;
    assert!(catalog
        .create(
            &graph.schema,
            &graph.nodes,
            definition("duplicate_vectors", GraphIndexKind::Vector, graph.target),
            no_pages,
        )
        .is_err());
    assert!(!catalog.embedding_profile_is_mutable());
    let error = catalog
        .activate_profile(first)
        .expect_err("vector state must freeze the embedding profile");
    assert_eq!(error.code, ErrorCode::EmbeddingProfileImmutable);
    Ok(())
}

#[test]
fn uniqueness_constraint_rejects_existing_and_new_duplicate_values() -> Result<()> {
    let mut graph = indexed_graph()?;
    let unique = || GraphIndexDefinition {
        unique: true,
        ..definition("document_text_unique", GraphIndexKind::Equality, graph.source)
    };
    let duplicate = || node(8, 1, graph.source, "first");

    let duplicated = vec![node(7, 0, graph.source, "first"), duplicate()];
    let mut rejected = IndexCatalog::default();
    let error = rejected
        .create(&graph.schema, &duplicated, unique(), no_pages)
        .expect_err("constraint accepted duplicate existing values");
    assert_eq!(error.code, ErrorCode::TransactionConflict);

    let mut catalog = IndexCatalog::default();
    catalog.create(&graph.schema, &graph.nodes, unique(), no_pages)?;
    assert!(catalog.has_unique_constraint(graph.label, graph.source));
    assert_eq!(catalog.constraint_definitions().len(), 1);
    catalog.before_graph_apply(None, NodeChange::Insert)?;
    let added = duplicate();
    graph.nodes.push(added);
    let error = catalog
        .after_graph_apply(graph.nodes.last(), NodeChange::Insert)
        .expect_err("constraint accepted a duplicate mutation");
    assert_eq!(error.code, ErrorCode::TransactionConflict);
    assert!(catalog.drop_index("document_text_unique").is_err());
    catalog.drop_constraint("document_text_unique")?;
    Ok(())
}

#[test]
fn index_catalog_lifecycle_survives_checkpoint_roundtrip() -> Result<()> {
    let graph = indexed_graph()?;
    let mut indexes = IndexCatalog::default();
    indexes.create(
        &graph.schema,
        &graph.nodes,
        definition("text_lookup", GraphIndexKind::Text, graph.source),
        no_pages,
    )?;
    assert_eq!(
        indexes.statuses().first().map(|status| status.state),
        Some(DerivedIndexState::Online)
    );
    assert_eq!(indexes.bounded_text_candidates("FIRST", 4)?, vec![0]);

    let updated = node(7, 0, graph.source, "updated graph memory");
    indexes.before_graph_apply(graph.nodes.first(), NodeChange::SetProperty)?;
    assert_eq!(indexes.bounded_text_candidates("first", 4)?, Vec::new());
    indexes.after_graph_apply(Some(&updated), NodeChange::SetProperty)?;
    assert_eq!(indexes.bounded_text_candidates("memory first", 4)?, vec![0]);
    assert_eq!(indexes.bounded_text_candidates("memory", 0)?, Vec::new());
    assert_eq!(indexes.bounded_text_candidates("  ", 4)?, Vec::new());
    indexes.rebuild(&[updated], "text_lookup", no_pages)?;
    assert_eq!(
        indexes.statuses().first().map(|status| status.state),
        Some(DerivedIndexState::Online)
    );
    indexes.drop_index("text_lookup")?;
    assert!(indexes.statuses().is_empty());
    assert!(indexes.is_empty());
    Ok(())
}

#[test]
fn catalog_selects_exact_online_scalar_posting() -> Result<()> {
    let graph = indexed_graph()?;
    let mut indexes = IndexCatalog::default();
    indexes.create(
        &graph.schema,
        &graph.nodes,
        definition("document_text", GraphIndexKind::Equality, graph.source),
        no_pages,
    )?;
    let rows = indexes
        .equality_candidates(graph.label, &[(graph.source, text_value("first"))])?
        .ok_or_else(|| Error::internal("ONLINE equality posting was not selected"))?;
    assert_eq!(rows, vec![0]);
    assert_eq!(
        indexes.equality_candidates(graph.label, &[(graph.source, text_value("missing"))])?,
        Some(Vec::new())
    );
    Ok(())
}

#[test]
fn candidates_can_be_asked_for_by_name() -> Result<()> {
    let graph = indexed_graph()?;
    let mut indexes = IndexCatalog::default();
    let nodes = (0..5)
        .map(|row| node(u64::from(row), row, graph.source, "same"))
        .collect::<Vec<_>>();
    indexes.create(
        &graph.schema,
        &nodes,
        definition("by_text", GraphIndexKind::Range, graph.source),
        no_pages,
    )?;
    indexes.create(
        &graph.schema,
        &nodes,
        definition("exact", GraphIndexKind::Equality, graph.source),
        no_pages,
    )?;
    let wanted = [(graph.source, text_value("same"))];
    assert_eq!(
        indexes.equality_candidates_named("exact", graph.label, &wanted)?,
        Some(vec![0, 1, 2, 3, 4])
    );
    assert_eq!(
        indexes.equality_candidates_named_bounded("exact", graph.label, &wanted, 2)?,
        Some(vec![0, 1])
    );
    let candidate = indexes
        .equality_candidate_estimate(graph.label, &wanted)?
        .ok_or_else(|| Error::internal("no candidate"))?;
    assert_eq!(candidate.name, "by_text");
    assert_eq!(indexes.definitions().len(), 2);
    let statistics = indexes.optimizer_statistics();
    assert_eq!(statistics.len(), 2);
    assert_eq!(statistics[0].name, "by_text");
    assert_eq!(statistics[0].distinct_keys, 1);
    assert_eq!(statistics[0].total_postings, 5);
    assert_eq!(statistics[0].resident_bytes, 9 + 4 + 5 * 4);
    Ok(())
}

#[test]
fn definitions_with_faults_are_refused() -> Result<()> {
    let graph = indexed_graph()?;
    let mut indexes = IndexCatalog::default();
    let refuse = |indexes: &mut IndexCatalog, wanted: GraphIndexDefinition| {
        indexes
            .create(&graph.schema, &graph.nodes, wanted, no_pages)
            .expect_err("definition has a fault")
            .code
    };
    assert_eq!(
        refuse(
            &mut indexes,
            definition("", GraphIndexKind::Equality, graph.source)
        ),
        ErrorCode::QueryType
    );
    assert_eq!(
        refuse(
            &mut indexes,
            definition("unknown", GraphIndexKind::Equality, PropertyId(9))
        ),
        ErrorCode::QueryType
    );
    assert_eq!(
        refuse(
            &mut indexes,
            definition("vectors", GraphIndexKind::Vector, graph.target)
        ),
        ErrorCode::EmbeddingProfileMismatch
    );
    assert_eq!(
        indexes.drop_index("missing").expect_err("missing").code,
        ErrorCode::IndexUnavailable
    );
    assert_eq!(
        indexes
            .rebuild(&graph.nodes, "missing", no_pages)
            .expect_err("missing")
            .code,
        ErrorCode::IndexUnavailable
    );
    Ok(())
}

#[test]
fn embedding_rows_must_name_nodes_of_the_label() -> Result<()> {
    let mut graph = indexed_graph()?;
    graph.nodes.push(NodeRecord {
        id: 8,
        dense: 1,
        revision: 1,
        labels: Vec::new(),
        properties: Vec::new(),
    });
    let attempt = |rows: Vec<(u64, Vec<u16>, u64)>, model: &str| {
        let mut indexes = IndexCatalog::default();
        indexes
            .create_embedding_deferred(
                &graph.schema,
                &graph.nodes,
                EmbeddingIndexDefinition {
                    model: model.to_string(),
                    ..semantic(&graph)
                },
                profile(11).expect("profile"),
                rows,
            )
            .map_err(|error| error.message)
    };
    assert_eq!(attempt(vec![(7, vec![ONE; 4], 1)], "DEFAULT"), Ok(()));
    assert_eq!(
        attempt(vec![(9, vec![ONE; 4], 1)], "default"),
        Err("embedding row references a missing node".to_string())
    );
    assert_eq!(
        attempt(vec![(8, vec![ONE; 4], 1)], "default"),
        Err("embedding row does not match the declared label".to_string())
    );
    assert_eq!(
        attempt(vec![(7, vec![ONE; 3], 1)], "default"),
        Err("quantized vector is incompatible with the embedding profile".to_string())
    );
    assert_eq!(
        attempt(vec![(7, vec![0x7c00; 4], 1)], "default"),
        Err("quantized vector is incompatible with the embedding profile".to_string())
    );
    assert_eq!(
        attempt(Vec::new(), "other"),
        Err("only the active project embedding model is supported".to_string())
    );
    Ok(())
}

#[test]
fn compacted_rows_keep_their_vectors_and_pages() -> Result<()> {
    let mut graph = indexed_graph()?;
    graph.nodes.push(node(9, 1, graph.source, "second"));
    let mut indexes = IndexCatalog::default();
    indexes.create_embedding(
        &graph.schema,
        &graph.nodes,
        semantic(&graph),
        profile(11)?,
        vec![(7, vec![ONE, 0, 0, 0], 1), (9, vec![0, ONE, 0, 0], 1)],
        pages_of,
    )?;
    indexes.create(
        &graph.schema,
        &graph.nodes,
        definition("exact", GraphIndexKind::Equality, graph.source),
        no_pages,
    )?;
    let compacted = vec![node(9, 0, graph.source, "second")];
    indexes.rebuild_row_indexes(&compacted, |pages: &IvfPqIndex| {
        Ok(pages.rows.iter().map(|row| *row as u8).collect())
    })?;
    let (matrix, pages) = indexes
        .vector_search_source("semantic")
        .ok_or_else(|| Error::internal("vector index is offline"))?;
    assert_eq!(matrix.len(), 1);
    assert_eq!(matrix.coordinates_for(9), Some(vec![0, ONE, 0, 0]));
    let pages = pages.ok_or_else(|| Error::internal("pages are gone"))?;
    assert_eq!(pages.rows, vec![0]);
    assert_ne!(pages.build_generation(), [0; 32]);
    assert_eq!(
        indexes.equality_candidates(graph.label, &[(graph.source, text_value("second"))])?,
        Some(vec![0])
    );
    Ok(())
}

#[test]
fn device_images_hold_online_indexes() -> Result<()> {
    let mut graph = indexed_graph()?;
    graph.nodes.push(node(9, 1, graph.source, "second"));
    let mut indexes = IndexCatalog::default();
    indexes.create(
        &graph.schema,
        &graph.nodes,
        definition("exact", GraphIndexKind::Equality, graph.source),
        no_pages,
    )?;
    indexes.create(
        &graph.schema,
        &graph.nodes,
        definition("words", GraphIndexKind::Text, graph.source),
        no_pages,
    )?;
    indexes.create_embedding_deferred(
        &graph.schema,
        &graph.nodes,
        semantic(&graph),
        profile(11)?,
        vec![(7, vec![ONE, 0, 0, 0], 1)],
    )?;
    let image = indexes.device_image(|key: &IndexKey| match key {
        IndexKey::String(text) => Ok(text.as_bytes().to_vec()),
        _ => Err(Error::internal("key is no text")),
    })?;
    assert_eq!(image.vectors.len(), 1);
    assert_eq!(image.vectors[0].values, vec![ONE, 0, 0, 0]);
    assert_eq!(image.vectors[0].active, vec![1]);
    assert_eq!(image.indexes.len(), 2);
    let DerivedIndexDeviceImage::Equality { name, postings } = &image.indexes[0] else {
        return Err(Error::internal("first image is no equality index"));
    };
    assert_eq!(name, "exact");
    assert_eq!(postings.key_bytes, b"firstsecond".to_vec());
    assert_eq!(postings.key_offsets, vec![0, 5, 11]);
    assert_eq!(postings.posting_offsets, vec![0, 1, 2]);
    assert_eq!(postings.rows, vec![0, 1]);
    let DerivedIndexDeviceImage::Text { postings, .. } = &image.indexes[1] else {
        return Err(Error::internal("second image is no text index"));
    };
    assert_eq!(postings.term_bytes, b"firstsecond".to_vec());
    assert!(image.resident_bytes() > 0);
    assert!(indexes
        .device_image(|_: &IndexKey| Err(Error::internal("no encoder")))
        .is_err());
    Ok(())
}

#[test]
fn ranges_take_keys_between_their_bounds() -> Result<()> {
    let mut range = RangeIndex {
        postings: Postings::empty(PostingDomain::Scalar),
    };
    for (row, value) in [-5_i64, 0, 3, 9, i64::MAX].iter().enumerate() {
        range.insert(&ScalarValue::Integer(*value), row as u32)?;
    }
    let low = IndexKey::Integer(0);
    let high = IndexKey::Integer(9);
    let rows = range.between(Some((&low, true)), Some((&high, false)));
    assert_eq!(rows.iter().collect::<Vec<_>>(), vec![1, 2]);
    let open = range.between(None, Some((&low, false)));
    assert_eq!(open.iter().collect::<Vec<_>>(), vec![0]);
    assert!(range.insert(&ScalarValue::Null, 9).is_err() || range.between(None, None).len() == 5);
    Ok(())
}

#[test]
fn text_is_folded_before_it_is_compared() {
    let mut index = TextIndex::default();
    index.upsert(3, "Ünïcode \u{FF26}ullwidth, don't");
    index.upsert(4, "fullwidth");
    assert_eq!(
        index.search("FULLWIDTH").iter().collect::<Vec<_>>(),
        vec![3, 4]
    );
    assert_eq!(
        index.search("fullwidth ünïcode").iter().collect::<Vec<_>>(),
        vec![3]
    );
    assert_eq!(index.bounded_posting_rows("fullwidth", 1), vec![3]);
    assert_eq!(
        index.bounded_ranked_search("fullwidth ünïcode", 5),
        vec![(3, 2), (4, 1)]
    );
    index.remove(3);
    assert_eq!(index.search("fullwidth").iter().collect::<Vec<_>>(), vec![4]);
}

#[test]
fn key_hashes_tell_kinds_apart() {
    let integer = IndexKey::Integer(1);
    let date = IndexKey::Date(1);
    assert_ne!(index_key_hash(&integer), index_key_hash(&date));
    assert_eq!(index_key_hash(&integer), index_key_hash(&IndexKey::Integer(1)));
    assert_ne!(index_key_hash(&integer), 1);
}

#[test]
fn profile_hashes_are_taken_of_the_fields_in_order() -> Result<()> {
    let profile = EmbeddingProfile::new(
        [3; 32],
        [4; 32],
        300,
        EmbeddingDType::Bf16,
        true,
        Similarity::Euclidean,
    )?;
    let mut encoded = vec![3; 32];
    encoded.extend([4; 32]);
    encoded.extend([0xac, 0x02, 1, 1, 2]);
    assert_eq!(profile.profile_hash, *blake3::hash(&encoded).as_bytes());
    Ok(())
}

#[test]
fn profiles_check_their_hash() -> Result<()> {
    let good = profile(1)?;
    good.validate()?;
    assert!(good.matches_profile(&profile(1)?));
    assert!(!good.matches_profile(&profile(2)?));
    let bad = EmbeddingProfile {
        dimension: 5,
        ..good
    };
    assert_eq!(
        bad.validate().expect_err("hash is stale").code,
        ErrorCode::EmbeddingProfileMismatch
    );
    assert!(EmbeddingProfile::new(
        [0; 32],
        [0; 32],
        0,
        EmbeddingDType::Bf16,
        false,
        Similarity::Dot
    )
    .is_err());
    Ok(())
}

#[test]
fn recall_is_measured_on_spread_rows() {
    assert_eq!(validation_row(0, 100, 4), 0);
    assert_eq!(validation_row(3, 100, 4), 75);
    assert_eq!(recall_gate(10, 9), (9_000, true));
    assert_eq!(recall_gate(1_000, 899), (8_990, false));
    assert_eq!(matched_neighbors(&[1, 2, 3], &[3, 9, 1]), 2);
}

#[test]
fn runtime_kinds_follow_definitions() -> Result<()> {
    let graph = indexed_graph()?;
    let mut indexes = IndexCatalog::default();
    indexes.create(
        &graph.schema,
        &graph.nodes,
        definition("range", GraphIndexKind::Range, graph.source),
        no_pages,
    )?;
    assert!(matches!(
        indexes.entries[0].runtime,
        Some(RuntimeIndex::Range(_))
    ));
    indexes.rebuild_all(&graph.nodes, no_pages)?;
    assert!(matches!(
        indexes.entries[0].runtime,
        Some(RuntimeIndex::Range(_))
    ));
    Ok(())
}

#[test]
fn embeddings_are_listed_by_name() -> Result<()> {
    let mut graph = indexed_graph()?;
    let second = graph.schema.properties.intern_property("other")?;
    let mut indexes = IndexCatalog::default();
    for (name, target) in [("zeta", graph.target), ("alpha", second)] {
        indexes.create_embedding_deferred(
            &graph.schema,
            &graph.nodes,
            EmbeddingIndexDefinition {
                name: name.to_string(),
                target_property: target,
                ..semantic(&graph)
            },
            profile(11)?,
            Vec::new(),
        )?;
    }
    let names = indexes
        .embedding_definitions()
        .iter()
        .map(|definition| definition.name.clone())
        .collect::<Vec<_>>();
    assert_eq!(names, vec!["alpha", "zeta"]);
    assert_eq!(
        indexes
            .embedding_definition("zeta")
            .map(|definition| definition.target_property),
        Some(graph.target)
    );
    assert!(indexes.embedding_definition("beta").is_none());
    assert_eq!(
        indexes
            .canonical_embedding_column()
            .err()
            .map(|error| error.code),
        Some(ErrorCode::EmbeddingProfileMismatch)
    );
    indexes.drop_index("alpha")?;
    assert_eq!(indexes.embedding_definitions().len(), 1);
    assert!(indexes.canonical_embedding_column()?.is_some());
    Ok(())
}

#[test]
fn deleted_nodes_lose_their_vectors() -> Result<()> {
    let graph = indexed_graph()?;
    let mut indexes = IndexCatalog::default();
    indexes.create_embedding(
        &graph.schema,
        &graph.nodes,
        semantic(&graph),
        profile(11)?,
        vec![(7, vec![ONE, 0, 0, 0], 1)],
        pages_of,
    )?;
    indexes.before_graph_apply(graph.nodes.first(), NodeChange::SetProperty)?;
    let (matrix, _) = indexes
        .vector_search_source("semantic")
        .ok_or_else(|| Error::internal("vector index is offline"))?;
    assert_eq!(matrix.len(), 1);
    indexes.before_graph_apply(graph.nodes.first(), NodeChange::Delete)?;
    let (matrix, _) = indexes
        .vector_search_source("semantic")
        .ok_or_else(|| Error::internal("vector index is offline"))?;
    assert!(matrix.is_empty());
    Ok(())
}

fn shared<T>(values: Vec<T>) -> SharedFlat<T> {
    SharedFlat::from_arc_slice(std::sync::Arc::<[T]>::from(values)).expect("window")
}

fn pages_from<T: Clone>(values: Vec<T>) -> PagedVec<T> {
    PagedVec::from_shared(shared(values)).expect("pages")
}

#[test]
fn vector_columns_can_be_rebound_to_shared_storage() -> Result<()> {
    let graph = indexed_graph()?;
    let mut indexes = IndexCatalog::default();
    indexes.create_embedding(
        &graph.schema,
        &graph.nodes,
        semantic(&graph),
        profile(11)?,
        vec![(7, vec![ONE, 0, 0, 0], 1)],
        pages_of,
    )?;
    let backing = |property: PropertyId, rows: usize| SharedVectorBacking {
        property,
        dimension: 4,
        entity_ids: pages_from(vec![7; rows]),
        values: pages_from(vec![ONE; rows * 4]),
        versions: pages_from(vec![1; rows]),
        active: pages_from(vec![true; rows]),
    };
    assert!(indexes.rebind_shared_vectors(Vec::new()).is_err());
    assert!(indexes
        .rebind_shared_vectors(vec![backing(graph.source, 1)])
        .is_err());
    assert!(indexes
        .rebind_shared_vectors(vec![backing(graph.target, 2)])
        .is_err());
    indexes.rebind_shared_vectors(vec![backing(graph.target, 1)])?;
    let (matrix, _) = indexes
        .vector_search_source("semantic")
        .ok_or_else(|| Error::internal("vector index is offline"))?;
    assert_eq!(matrix.coordinates_for(7), Some(vec![ONE; 4]));
    Ok(())
}
