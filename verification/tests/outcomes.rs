use irongraph::algorithms::components::weakly_connected_components_cancellable;
use irongraph::algorithms::cores::k_core_cancellable;
use irongraph::algorithms::louvain::louvain_local_move_traced;
use irongraph::algorithms::metrics::triangle_count;
use irongraph::algorithms::multilevel::louvain_communities_cancellable;
use irongraph::algorithms::strong::strongly_connected_components_cancellable;
use irongraph::algorithms::traversal::{shortest_path, shortest_path_cancellable};
use irongraph::columns::properties::PropertyColumns;
use irongraph::columns::typed::TypedColumn;
use irongraph::csr::Csr;
use irongraph::error::{Error, ErrorCode, Result};
use irongraph::gpu::residency::{ResidentLedger, ResidentProject};
use irongraph::index::encode::{subspace_seed, training_shape};
use irongraph::index::fulltext::TextIndex;
use irongraph::index::keys::IndexKey;
use irongraph::index::plan::ivf_config_for_shape;
use irongraph::index::scalar::{EqualityIndex, RangeIndex};
use irongraph::index::vectors::{Similarity, VectorIndex};
use irongraph::persistent::paged::PagedVec;
use irongraph::persistent::radix::PersistentMap;
use irongraph::shared::SharedFlat;
use irongraph::values::{PropertyId, ScalarValue};
use std::collections::BTreeMap;
use std::sync::Arc;

fn stop() -> Result<()> {
    Err(Error::new(ErrorCode::Cancelled, "stop"))
}

fn pair(node_count: usize, triples: &[(u32, u32, u32)]) -> Result<(Csr, Csr)> {
    Ok((
        Csr::build(node_count, triples)?,
        Csr::build_transposed(node_count, triples)?,
    ))
}

#[test]
fn shortest_path_takes_the_least_of_equal_paths() -> Result<()> {
    let triples = [(0, 2, 0), (0, 1, 1), (2, 3, 2), (1, 3, 3)];
    assert_eq!(
        shortest_path(&Csr::build(4, &triples)?, 0, 3)?,
        Some(vec![0, 1, 3])
    );
    let reversed = triples.iter().rev().copied().collect::<Vec<_>>();
    assert_eq!(
        shortest_path(&Csr::build(4, &reversed)?, 0, 3)?,
        Some(vec![0, 1, 3])
    );
    let csr = Csr::build(4, &triples)?;
    let error = shortest_path_cancellable(&csr, 0, 3, stop).expect_err("asked at node 0");
    assert_eq!(error.code, ErrorCode::Cancelled);
    assert_eq!(shortest_path_cancellable(&csr, 1, 3, stop)?, Some(vec![1, 3]));
    Ok(())
}

#[test]
fn failing_checks_stop_work_on_nodes_and_nothing_else() -> Result<()> {
    let (outgoing, incoming) = pair(3, &[(0, 1, 0), (1, 2, 1)])?;
    let mut calls = 0;
    let error = weakly_connected_components_cancellable(&outgoing, &incoming, || {
        calls += 1;
        stop()
    })
    .expect_err("stopped");
    assert_eq!(error.code, ErrorCode::Cancelled);
    assert_eq!(calls, 1);
    assert!(strongly_connected_components_cancellable(&outgoing, &incoming, stop).is_err());
    assert!(k_core_cancellable(&outgoing, &incoming, stop).is_err());
    assert!(louvain_communities_cancellable(&outgoing, &incoming, stop).is_err());

    let (none, none_back) = pair(0, &[])?;
    let components = weakly_connected_components_cancellable(&none, &none_back, stop)?;
    assert_eq!((components.component.len(), components.count), (0, 0));
    assert_eq!(
        strongly_connected_components_cancellable(&none, &none_back, stop)?.count,
        0
    );
    assert_eq!(louvain_communities_cancellable(&none, &none_back, stop)?.count, 0);
    assert!(k_core_cancellable(&none, &none_back, stop)?.is_empty());
    let error = weakly_connected_components_cancellable(&outgoing, &none, stop)
        .expect_err("node counts differ");
    assert_eq!(error.code, ErrorCode::InvalidData);
    Ok(())
}

#[test]
fn local_moving_reports_every_pass() -> Result<()> {
    let graph = vec![
        vec![(1, 1), (2, 1)],
        vec![(0, 1), (3, 1)],
        vec![(0, 1)],
        vec![(1, 1)],
    ];
    let mut seen = Vec::new();
    let mut observe = |membership: &Vec<usize>, moves: usize| -> Result<()> {
        seen.push((membership.clone(), moves));
        Ok(())
    };
    let membership = louvain_local_move_traced(
        &graph,
        &vec![true; 4],
        &mut || Ok(()),
        &mut observe,
    )?;
    assert_eq!(membership, vec![2, 3, 2, 3]);
    assert_eq!(
        seen,
        vec![(vec![0, 1, 2, 3], 0), (vec![2, 3, 2, 3], 2)]
    );
    Ok(())
}

#[test]
fn triangles_do_not_depend_on_direction_or_repetition() -> Result<()> {
    let (outgoing, incoming) = pair(3, &[(0, 1, 0), (1, 2, 1), (2, 0, 2)])?;
    let (more, more_back) = pair(
        3,
        &[(0, 1, 0), (1, 0, 3), (1, 2, 1), (1, 2, 4), (2, 0, 2), (2, 2, 5)],
    )?;
    assert_eq!(triangle_count(&outgoing, &incoming)?, 1);
    assert_eq!(triangle_count(&incoming, &outgoing)?, 1);
    assert_eq!(triangle_count(&more, &more_back)?, 1);
    Ok(())
}

#[test]
fn transposed_rows_repeat_edges_as_often() -> Result<()> {
    let (outgoing, incoming) = pair(3, &[(0, 2, 5), (1, 2, 6), (0, 2, 5)])?;
    let row = incoming.row(2).expect("row");
    assert_eq!(row, vec![(0, 5), (0, 5), (1, 6)]);
    assert_eq!(outgoing.row(0).expect("row"), vec![(2, 5), (2, 5)]);
    assert!(Csr::build(2, &[(0, 2, 0)]).is_err());
    assert!(Csr::build_transposed(2, &[(0, 2, 0)]).is_err());
    Ok(())
}

#[test]
fn refused_offset_extension_says_what_was_found() -> Result<()> {
    let mut csr = Csr::build(2, &[(0, 1, 0), (1, 0, 1)])?;
    let offsets: Arc<[u32]> = vec![0, 1, 2, 2].into();
    let shared = SharedFlat::from_arc_slice(offsets).expect("window");
    csr.rebase_shared_offsets(shared.slice(0, 3).expect("prefix"))?;
    assert!(csr.offsets_extend(&shared, true));
    assert!(!csr.offsets_extend(&shared, false));
    let copy: Arc<[u32]> = vec![0, 1, 2, 2].into();
    let error = csr
        .rebase_shared_offsets_extension(SharedFlat::from_arc_slice(copy).expect("window"))
        .expect_err("another allocation");
    assert_eq!(error.code, ErrorCode::CorruptStorage);
    assert_eq!(
        error.message,
        "shared adjacency offset extension is structurally inconsistent: previous_len=3 \
         next_len=4 same_allocation=false previous_terminal=Some(2) boundary=Some(2) \
         next_terminal=Some(2) neighbors=2 tail_monotonic=true nonzero_offsets=3 \
         first_nonzero=Some((1, 1))"
    );
    csr.rebase_shared_offsets_extension(shared)?;
    assert_eq!(csr.offsets(), &[0, 1, 2, 2]);
    Ok(())
}

#[test]
fn homogeneous_properties_stay_typed() -> Result<()> {
    let property = PropertyId(4);
    let text = |value: &str| ScalarValue::String(value.to_string());
    let mut columns = PropertyColumns::default();
    columns.push_row(&[(property, text("one"))])?;
    columns.push_row(&[(property, text("two"))])?;
    columns.push_row(&[])?;
    columns.set(2, property, &text("three"))?;
    assert!(!columns.is_mixed(property));
    assert!(matches!(
        columns.physical_column(property),
        Some(TypedColumn::String { .. })
    ));
    columns.set(0, property, &ScalarValue::Null)?;
    assert!(!columns.is_mixed(property));
    columns.set(1, property, &ScalarValue::Integer(7))?;
    assert!(columns.is_mixed(property));
    assert_eq!(columns.get(2, property), Some(text("three")));
    Ok(())
}

#[test]
fn keys_with_other_bits_are_apart_until_the_index_is_sealed() {
    let zero = IndexKey::Float(0.0_f64.to_bits());
    let negative = IndexKey::Float((-0.0_f64).to_bits());
    assert_eq!(zero, negative);
    assert_ne!(zero, IndexKey::Float(1.0_f64.to_bits()));
    let mut equality = EqualityIndex::default();
    equality.insert_key(zero.clone(), 5);
    assert!(equality.get(&negative).is_none());
    assert!(equality.get(&zero).is_some_and(|rows| rows.contains(5)));
    equality.remove_key(&negative, 5);
    assert!(equality.get(&zero).is_some_and(|rows| rows.contains(5)));
    equality.insert_key(negative.clone(), 6);
    assert_eq!(
        equality.get(&negative).map(|rows| rows.iter().collect::<Vec<_>>()),
        Some(vec![6])
    );
    assert!(equality
        .insert(&ScalarValue::Float((-0.0_f64).to_bits()), 7)
        .is_ok());
    equality.postings.seal();
    for key in [&zero, &negative] {
        let rows = equality.get(key).expect("rows of zero");
        assert!(rows.contains(6) && rows.contains(7));
    }
    assert_eq!(equality.get(&zero), equality.get(&negative));

    let mut composite = EqualityIndex::default();
    composite.insert_key(IndexKey::Composite(vec![zero.clone(), IndexKey::Integer(1)]), 3);
    let other = IndexKey::Composite(vec![negative.clone(), IndexKey::Integer(1)]);
    assert!(composite.get(&other).is_none());
    composite.postings.seal();
    assert!(composite.get(&other).is_some_and(|rows| rows.contains(3)));
}

#[test]
fn ranges_ask_for_the_bits_that_the_base_holds() {
    let usual = IndexKey::Float(0x7ff8_0000_0000_0000);
    let other = IndexKey::Float(0x7ff8_0000_0000_0001);
    assert_eq!(usual, other);
    let mut range = RangeIndex::default();
    range.insert_key(other.clone(), 3);
    range.insert_key(IndexKey::Float(1.0_f64.to_bits()), 4);
    let inside = |range: &RangeIndex| {
        range
            .between(Some((&usual, true)), Some((&usual, true)))
            .iter()
            .collect::<Vec<_>>()
    };
    assert_eq!(inside(&range), vec![3]);
    range.insert_key(usual.clone(), 5);
    assert_eq!(inside(&range), vec![3, 5]);
    range.postings.seal();
    let before = inside(&range);
    assert_eq!(before, vec![3, 5]);
    range.insert_key(usual.clone(), 6);
    range.insert_key(other.clone(), 7);
    let after = inside(&range);
    assert_eq!(after.len(), 3);
    assert!(after.contains(&6) != after.contains(&7));
    assert_eq!(
        range.between(None, Some((&usual, false))).iter().collect::<Vec<_>>(),
        vec![4]
    );
}

#[test]
fn postings_can_be_put_together_from_what_they_list() {
    let mut range = RangeIndex::default();
    let key = |number: i64| IndexKey::Integer(number);
    range.insert_key(key(1), 10);
    range.insert_key(key(2), 20);
    range.postings.seal();
    range.insert_key(key(2), 21);
    range.remove_key(&key(1), 10);
    range.insert_key(key(3), 30);
    let mut copy = RangeIndex::default();
    for entry in &range.postings.base().entries {
        for row in entry.rows.iter() {
            copy.insert_key(entry.key.clone(), row);
        }
    }
    copy.postings.seal();
    let changes = range.postings.noted_changes();
    assert_eq!(changes.len(), 3);
    for (key, rows) in changes {
        for (row, present) in rows {
            copy.postings.put(key.clone(), row, present);
        }
    }
    let rows = |index: &RangeIndex, number: i64| {
        index
            .between(Some((&key(number), true)), Some((&key(number), true)))
            .iter()
            .collect::<Vec<_>>()
    };
    for number in 1..4 {
        assert_eq!(rows(&copy, number), rows(&range, number));
    }
    assert_eq!(rows(&copy, 1), Vec::<u32>::new());
    assert_eq!(rows(&copy, 2), vec![20, 21]);
    assert_eq!(rows(&copy, 3), vec![30]);
}

#[test]
fn text_can_be_put_together_from_its_terms() {
    let mut text = TextIndex::default();
    text.upsert(4, "graph memory");
    text.upsert(2, "memory");
    let listed = text.row_terms();
    let words = |words: &[&str]| words.iter().map(|word| word.to_string()).collect::<Vec<_>>();
    assert_eq!(
        listed,
        vec![(2, words(&["memory"])), (4, words(&["graph", "memory"]))]
    );
    let mut copy = TextIndex::default();
    for (row, terms) in listed {
        assert!(copy.restore_terms(row, terms));
    }
    assert_eq!(copy.search("memory").iter().collect::<Vec<_>>(), vec![2, 4]);
    assert!(!copy.restore_terms(9, words(&["memory", "graph"])));
    assert!(!copy.restore_terms(9, words(&["memory", "memory"])));
    assert_eq!(copy.len(), 2);
}

#[test]
fn the_number_of_vectors_grows_with_new_entities_alone() -> Result<()> {
    let mut matrix = VectorIndex::new(2, Similarity::Dot)?;
    matrix.upsert_quantized(5, &[0, 0], 1)?;
    assert_eq!(matrix.len(), 1);
    matrix.upsert_quantized(5, &[0, 0x3c00], 2)?;
    assert_eq!(matrix.len(), 1);
    matrix.remove(5, 3);
    matrix.remove(6, 3);
    assert_eq!(matrix.len(), 0);
    matrix.upsert_quantized(5, &[0, 0], 4)?;
    matrix.upsert_quantized(6, &[0, 0], 4)?;
    assert_eq!(matrix.len(), 2);
    Ok(())
}

#[test]
fn offsets_that_do_not_start_at_zero_cannot_be_replaced() -> Result<()> {
    let flat = |values: Vec<u32>| {
        SharedFlat::from_arc_slice(Arc::from(values)).map_err(|text| Error::internal(text))
    };
    let csr = Csr::from_device_generated_shared(
        flat(vec![1, 2])?,
        flat(vec![0, 0])?,
        flat(vec![7, 8])?,
    )?;
    let error = csr.replace_rows(1, &BTreeMap::new()).err().expect("first offset");
    assert_eq!(error.code, ErrorCode::CorruptStorage);
    assert_eq!(
        error.message,
        "replacement adjacency cardinality disagrees with offsets"
    );
    Ok(())
}

#[test]
fn statistics_count_alike_keys_once() {
    let mut equality = EqualityIndex::default();
    equality.insert_key(IndexKey::Float(0.0_f64.to_bits()), 1);
    equality.insert_key(IndexKey::Float((-0.0_f64).to_bits()), 2);
    equality.insert_key(IndexKey::Integer(0), 3);
    let shape = equality.postings.shape(false);
    assert_eq!((shape.distinct, shape.total, shape.largest), (2, 2, 1));
    equality.postings.seal();
    let shape = equality.postings.shape(false);
    assert_eq!((shape.distinct, shape.total, shape.largest), (2, 3, 2));
    assert_eq!(shape.bytes, 9 + 8 + 9 + 4);
}

#[test]
fn training_looks_for_as_many_centroids_as_rows_allow() -> Result<()> {
    let config = ivf_config_for_shape(8_000, 384);
    let shape = training_shape(config, 8_000, 4_096)?;
    assert_eq!((shape.coarse_count, shape.code_count), (64, 256));
    let shape = training_shape(config, 40, 40)?;
    assert_eq!((shape.coarse_count, shape.code_count), (40, 40));
    assert_eq!(
        training_shape(config, 0, 0).expect_err("no rows").message,
        "cannot build IVF-PQ on an empty vector matrix"
    );
    assert_eq!(
        training_shape(config, 100, 63).expect_err("small sample").message,
        "IVF-PQ training sample is smaller than its coarse-centroid count"
    );
    assert_eq!(subspace_seed(5, 0), 5);
    assert_eq!(
        subspace_seed(5, 3),
        5 ^ 3_u64.wrapping_mul(0x9e37_79b9_7f4a_7c15)
    );
    Ok(())
}

#[test]
fn overflowing_bytes_come_before_a_repeated_project() {
    let resident = |project: u128, allocated_bytes: usize| ResidentProject {
        project,
        allocated_bytes,
        revision: 1,
        bookmark: 1,
        layout_version: 1,
    };
    let mut ledger = ResidentLedger::new();
    let error = ledger
        .replace_all(
            &[resident(1, 1), resident(1, 1), resident(2, usize::MAX)],
            "Metal",
        )
        .expect_err("too many bytes");
    assert_eq!(error.message, "replacement Metal project bytes overflow");
    let error = ledger
        .replace_all(&[resident(1, 1), resident(1, 1)], "Metal")
        .expect_err("repeated");
    assert_eq!(error.message, "snapshot contains a duplicate project ID");
    let error = ledger
        .check_generation(9, 1, 1, 1)
        .expect_err("not resident");
    assert_eq!(error.code, ErrorCode::GpuAdmissionFailure);
}

fn matrix(rows: u64) -> Result<VectorIndex> {
    let mut index = VectorIndex::new(16, Similarity::Dot)?;
    for entity in 0..rows {
        index.upsert_quantized(entity, &[0x3c00; 16], 1)?;
    }
    Ok(index)
}

#[test]
fn vector_point_updates_detach_bounded_pages() -> Result<()> {
    let mut detached = Vec::new();
    for rows in [4_096, 8_192] {
        let before = matrix(rows)?;
        let mut after = before.clone();
        after.upsert_quantized(17, &[0x4000; 16], 2)?;
        assert_eq!(before.coordinates_for(17), Some(vec![0x3c00; 16]));
        assert_eq!(after.coordinates_for(17), Some(vec![0x4000; 16]));
        detached.push(
            after.values.detached_page_bytes_from(&before.values)
                + after.versions.detached_page_bytes_from(&before.versions)
                + after.active.detached_page_bytes_from(&before.active)
                + after.entity_ids.detached_page_bytes_from(&before.entity_ids)
                + after.rows.detached_node_bytes_from(&before.rows),
        );
    }
    assert_eq!(detached[0], detached[1]);
    assert!(detached[1] > 0);
    assert!(detached[1] <= 64 * 1_024);
    Ok(())
}

#[test]
fn marked_pages_are_left_out_of_the_count() {
    let mut values = PagedVec::default();
    for value in 0..5_000_u64 {
        values.push(value);
    }
    assert_eq!(values.unmarked_page_bytes(&vec![]), 40_000);
    assert_eq!(values.unmarked_page_bytes(&vec![true]), 40_000 - 16_384);
    assert_eq!(
        values.unmarked_page_bytes(&vec![false, true, true]),
        16_384
    );
    let empty = PersistentMap::<u32>::default();
    let mut full = PersistentMap::default();
    full.insert(1, 1_u32);
    assert!(empty.shares_root(&empty.clone(), false));
    assert!(!empty.shares_root(&full, true));
    assert!(full.shares_root(&full.clone(), true));
    assert!(!full.shares_root(&full.clone(), false));
}
