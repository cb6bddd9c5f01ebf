use irongraph::error::{Error, ErrorCode, Result};
use irongraph::index::ann::IvfPqIndex;
use irongraph::index::encode::{
    assemble_pages, batches, check_assignment_shape, check_assignments, initial_centers,
    interleave_codes, publish_counted_lists, publish_lists, training_rows,
};
use irongraph::index::plan::{ivf_config_for_shape, IvfPqConfig};
use irongraph::index::search::{order_hits, rank_hits};
use irongraph::index::vectors::{Similarity, VectorIndex};

const ONE: u16 = 0x3c00;

fn matrix(rows: u64, similarity: Similarity) -> Result<VectorIndex> {
    let mut index = VectorIndex::new(2, similarity)?;
    for entity in 0..rows {
        index.upsert_quantized(entity + 100, &[ONE, entity as u16], 1)?;
    }
    Ok(index)
}

fn pages(source: &VectorIndex, assignments: &[u32], lists: usize) -> Result<IvfPqIndex> {
    let config = IvfPqConfig {
        subquantizers: 1,
        coarse_centroids: lists,
        probes: 1,
        candidate_budget: 1,
        ..ivf_config_for_shape(source.len(), 2)
    };
    assemble_pages(
        source,
        config,
        vec![vec![0, 0]; lists],
        vec![vec![vec![0, 0]]],
        assignments,
        assignments,
        &vec![vec![0; assignments.len()]],
    )
}

#[test]
fn lists_that_a_second_assignment_counts_otherwise_are_refused() -> Result<()> {
    let (offsets, positions) = publish_counted_lists(&[0, 1, 0, 1], &[1, 0, 0, 1], 2)?;
    assert_eq!((offsets, positions), (vec![0, 2, 4], vec![1, 2, 0, 3]));
    let fault = |counted: &[u32], filled: &[u32]| {
        let error = publish_counted_lists(counted, filled, 2).expect_err("other counts");
        assert_eq!(error.code, ErrorCode::CorruptStorage);
        error.message
    };
    assert_eq!(
        fault(&[0, 1, 0, 1], &[1, 0, 1, 1]),
        "IVF posting cursor is out of bounds"
    );
    assert_eq!(
        fault(&[0, 1, 0, 1], &[0, 0, 0, 1]),
        "IVF list publication did not fill every posting exactly once"
    );
    Ok(())
}

#[test]
fn hits_follow_the_total_order_of_floats() {
    let hits = [1.0_f32, -0.0, 0.0, -3.5, f32::INFINITY, f32::NAN, -f32::NAN]
        .iter()
        .enumerate()
        .map(|(id, value)| (id as u64, value.to_bits()))
        .collect::<Vec<_>>();
    let mut expected = hits.clone();
    expected.sort_by(|left, right| {
        f32::from_bits(left.1)
            .total_cmp(&f32::from_bits(right.1))
            .then_with(|| left.0.cmp(&right.0))
    });
    assert_eq!(order_hits(&hits, true), expected);
    let ids = order_hits(&hits, false)
        .iter()
        .map(|hit| hit.0)
        .collect::<Vec<_>>();
    assert_eq!(ids, vec![5, 4, 0, 2, 1, 3, 6]);
}

#[test]
fn equal_scores_come_by_identity() {
    let hits = vec![(9, 2.0_f32.to_bits()), (3, 2.0_f32.to_bits()), (5, 1.0_f32.to_bits())];
    assert_eq!(
        rank_hits(&hits, Similarity::Dot, 2),
        vec![(3, 2.0_f32.to_bits()), (9, 2.0_f32.to_bits())]
    );
    assert_eq!(
        rank_hits(&hits, Similarity::Euclidean, 9),
        vec![
            (5, 1.0_f32.to_bits()),
            (3, 2.0_f32.to_bits()),
            (9, 2.0_f32.to_bits())
        ]
    );
}

#[test]
fn exact_search_ranks_the_rows_that_count() -> Result<()> {
    let mut source = matrix(4, Similarity::Euclidean)?;
    source.remove(101, 2);
    let best = source.exact_search(2, |row| (row as f32).to_bits());
    assert_eq!(best, vec![(100, 0.0_f32.to_bits()), (102, 2.0_f32.to_bits())]);
    Ok(())
}

#[test]
fn searches_probe_near_lists_and_rescore_newer_rows() -> Result<()> {
    let mut source = matrix(4, Similarity::Euclidean)?;
    let pages = pages(&source, &[0, 1, 0, 1], 2)?;
    assert_eq!(pages.list_offsets, vec![0, 2, 4]);
    assert_eq!(pages.list_positions, vec![0, 2, 1, 3]);
    let near = |list: usize| if list == 1 { 0_u32 } else { 5_u32 };
    let far = |_: u64, position: u32| position;
    let score = |row: usize| (10.0_f32 - row as f32).to_bits();
    let hits = pages.search(&source, 1, near, far, score)?;
    assert_eq!(hits, vec![(101, 9.0_f32.to_bits())]);

    source.upsert_quantized(103, &[ONE, ONE], 2)?;
    let hits = pages.search(&source, 2, near, far, score)?;
    assert_eq!(
        hits,
        vec![(103, 7.0_f32.to_bits()), (101, 9.0_f32.to_bits())]
    );

    let other = matrix(4, Similarity::Dot)?;
    let error = pages
        .search(&other, 1, near, far, score)
        .expect_err("similarity differs");
    assert_eq!(error.code, ErrorCode::EmbeddingProfileMismatch);
    Ok(())
}

#[test]
fn recall_decides_over_publication() -> Result<()> {
    let source = matrix(3, Similarity::Euclidean)?;
    let mut good = pages(&source, &[0, 0, 0], 1)?;
    good.validate_recall(&source, |row, neighbors| {
        assert_eq!(neighbors, 3);
        Ok((vec![row as u64, 7], vec![7, row as u64]))
    })?;
    assert_eq!(good.recall_basis_points(), 10_000);
    assert_eq!(good.validation_queries(), 3);

    let mut bad = pages(&source, &[0, 0, 0], 1)?;
    let error = bad
        .validate_recall(&source, |_, _| Ok((vec![1, 2], vec![2])))
        .expect_err("half of the neighbors are missing");
    assert_eq!(error.code, ErrorCode::IndexUnavailable);
    assert_eq!(
        error.message,
        "IVF-PQ recall 5000bp is below the 9000bp publication floor"
    );
    assert_eq!(bad.recall_basis_points(), 5_000);
    let error = bad
        .validate_recall(&source, |_, _| {
            Err(Error::new(ErrorCode::Cancelled, "stop"))
        })
        .expect_err("cancelled");
    assert_eq!(error.code, ErrorCode::Cancelled);
    let empty = VectorIndex::new(2, Similarity::Dot)?;
    assert!(bad
        .validate_recall(&empty, |_, _| Ok((Vec::new(), Vec::new())))
        .is_err());
    Ok(())
}

#[test]
fn training_rows_are_spread_over_active_rows() -> Result<()> {
    let mut source = matrix(10, Similarity::Dot)?;
    source.remove(100, 2);
    source.remove(105, 2);
    assert_eq!(source.active_rows(), vec![1, 2, 3, 4, 6, 7, 8, 9]);
    assert_eq!(training_rows(&source, 4)?, vec![1, 3, 6, 8]);
    assert!(training_rows(&source, 0).is_err());
    assert!(training_rows(&source, 9).is_err());
    assert_eq!(initial_centers(&[2, 2, 2, 2], 2, 7)?, vec![3, 1]);
    assert!(initial_centers(&[], 1, 7).is_err());
    assert!(initial_centers(&[2, 3], 1, 7).is_err());
    assert!(initial_centers(&[2, 2], 3, 7).is_err());
    Ok(())
}

#[test]
fn kernels_are_held_to_their_shapes() -> Result<()> {
    check_assignments(&[0, 1, 1], 3, 2)?;
    assert!(check_assignments(&[0, 2], 2, 2).is_err());
    assert!(check_assignments(&[0], 2, 2).is_err());
    check_assignment_shape(6, 3, 2, 4, 2)?;
    assert!(check_assignment_shape(5, 3, 2, 4, 2).is_err());
    assert_eq!(
        check_assignment_shape(5, usize::MAX, 2, 4, 2)
            .expect_err("too many rows")
            .message,
        "assignment matrix shape overflow"
    );
    Ok(())
}

#[test]
fn lists_and_codes_are_laid_out_by_row() -> Result<()> {
    let (offsets, positions) = publish_lists(&[2, 0, 2, 1], 4)?;
    assert_eq!(offsets, vec![0, 1, 2, 4, 4]);
    assert_eq!(positions, vec![1, 3, 0, 2]);
    assert!(publish_lists(&[2], 2).is_err());
    assert_eq!(
        interleave_codes(&vec![vec![1, 2], vec![3, 4]], 2)?,
        vec![1, 3, 2, 4]
    );
    assert!(interleave_codes(&vec![vec![256]], 1).is_err());
    assert_eq!(batches(5, 2), vec![(0, 2), (2, 4), (4, 5)]);
    assert_eq!(batches(0, 2), Vec::new());
    Ok(())
}
