use irongraph::adjacency::Adjacency;
use irongraph::csr::Csr;
use irongraph::error::{ErrorCode, Result};
use irongraph::shared::SharedFlat;
use std::collections::BTreeMap;
use std::sync::Arc;

#[test]
fn shared_offset_extension_validates_only_the_same_allocation_tail() -> Result<()> {
    let old_rows = 1_000_000_usize;
    let appended = 256_usize;
    let offsets: Arc<[u32]> = (0..=old_rows + appended)
        .map(|row| u32::try_from(row).expect("test row fits u32"))
        .collect::<Vec<_>>()
        .into();
    let full_offsets = SharedFlat::from_arc_slice(Arc::clone(&offsets)).expect("shared offsets");
    let old_offsets = full_offsets
        .slice(0, old_rows + 1)
        .expect("shared offset prefix");
    let neighbors: Arc<[u32]> = (0..old_rows + appended)
        .map(|row| u32::try_from(row).expect("test row fits u32"))
        .collect::<Vec<_>>()
        .into();
    let shared_neighbors =
        SharedFlat::from_arc_slice(Arc::clone(&neighbors)).expect("shared neighbors");
    let shared_edges = SharedFlat::from_arc_slice(neighbors).expect("shared edges");
    let mut csr = Csr::from_shared(
        old_offsets,
        shared_neighbors
            .slice(0, old_rows)
            .expect("shared neighbor prefix"),
        shared_edges.slice(0, old_rows).expect("shared edge prefix"),
    )?;

    // Keep payload cardinality fixed for this synthetic extension; only empty rows are legal.
    let empty_tail: Arc<[u32]> = std::iter::once(0)
        .chain(std::iter::repeat_n(
            u32::try_from(old_rows).expect("test row fits u32"),
            old_rows + appended,
        ))
        .collect::<Vec<_>>()
        .into();
    let full_empty = SharedFlat::from_arc_slice(empty_tail).expect("shared empty offsets");
    let old_empty = full_empty
        .slice(0, old_rows + 1)
        .expect("shared empty offset prefix");
    csr.rebase_shared_offsets(old_empty)?;
    csr.rebase_shared_offsets_extension(full_empty)?;

    assert_eq!(csr.offsets().len(), old_rows + appended + 1);
    assert_eq!(csr.offsets()[old_rows], old_rows as u32);
    assert_eq!(csr.offsets().last().copied(), Some(old_rows as u32));

    // A byte-identical but separately allocated prefix is not trusted as an extension.
    let replacement: Arc<[u32]> = csr.offsets().to_vec().into();
    assert!(csr
        .rebase_shared_offsets_extension(
            SharedFlat::from_arc_slice(replacement).expect("replacement offsets")
        )
        .is_err());
    let _ = offsets;
    Ok(())
}

#[test]
fn extending_rows_matches_a_full_rebuild_without_touching_the_edge_arrays() -> Result<()> {
    let triples = (0..64_u32)
        .flat_map(|source| {
            (0..4_u32).map(move |step| (source, (source + step) % 64, source * 4 + step))
        })
        .collect::<Vec<_>>();
    let mut extended = Csr::build(64, &triples)?;
    let neighbors_before = extended.neighbors().to_vec();
    let edges_before = extended.edges().to_vec();

    extended.extend_rows(96)?;
    let rebuilt = Csr::build(96, &triples)?;

    assert_eq!(extended.offsets(), rebuilt.offsets());
    assert_eq!(extended.neighbors(), rebuilt.neighbors());
    assert_eq!(extended.edges(), rebuilt.edges());
    // The edge arrays are shared, not rewritten: only the offset array grows.
    assert_eq!(extended.neighbors(), neighbors_before.as_slice());
    assert_eq!(extended.edges(), edges_before.as_slice());
    assert_eq!(extended.offsets().len(), 97);

    // Every appended row is empty, and every original row still reads back unchanged.
    for node in 64..96_u32 {
        assert_eq!(extended.row(node).map(|row| row.len()), Some(0));
    }
    for node in 0..64_u32 {
        let original = Csr::build(64, &triples)?;
        assert_eq!(extended.row(node), original.row(node));
    }

    // Extending to the size it already has is a no-op, and shrinking is refused.
    extended.extend_rows(96)?;
    assert_eq!(extended.offsets().len(), 97);
    assert!(extended.extend_rows(32).is_err());
    Ok(())
}

#[test]
fn replacing_sparse_rows_matches_a_canonical_full_rebuild() -> Result<()> {
    let original = vec![
        (0, 1, 0),
        (0, 2, 1),
        (1, 2, 2),
        (2, 3, 3),
        (3, 4, 4),
        (4, 0, 5),
    ];
    let csr = Csr::build(5, &original)?;
    let row_zero_neighbors = [3_u32];
    let row_zero_edges = [6_u32];
    let row_three_neighbors = [0_u32, 2_u32];
    let row_three_edges = [7_u32, 8_u32];
    let appended_neighbors = [1_u32];
    let appended_edges = [9_u32];
    let replacements = BTreeMap::from([
        (
            0,
            (row_zero_neighbors.as_slice(), row_zero_edges.as_slice()),
        ),
        (
            3,
            (row_three_neighbors.as_slice(), row_three_edges.as_slice()),
        ),
        (
            5,
            (appended_neighbors.as_slice(), appended_edges.as_slice()),
        ),
    ]);

    let replaced = csr.replace_rows(6, &replacements)?;
    let expected = Csr::build(
        6,
        &[
            (0, 3, 6),
            (1, 2, 2),
            (2, 3, 3),
            (3, 0, 7),
            (3, 2, 8),
            (4, 0, 5),
            (5, 1, 9),
        ],
    )?;

    assert_eq!(replaced.offsets(), expected.offsets());
    assert_eq!(replaced.neighbors(), expected.neighbors());
    assert_eq!(replaced.edges(), expected.edges());
    Ok(())
}

#[test]
fn bounded_expansion_stops_at_requested_high_degree_prefix() -> Result<()> {
    let triples = (1..=10_000_u32)
        .map(|target| (0, target, target - 1))
        .collect::<Vec<_>>();
    let mut adjacency = Adjacency::default();
    adjacency.compact(10_001, &triples)?;
    adjacency.delete(0, 1, 0);
    adjacency.insert(0, 1, 10_001);
    let mut output = Vec::new();
    adjacency.expand_out_bounded(0, 7, &mut output);
    assert_eq!(output.len(), 7);
    assert_eq!(output[0], (1, 10_001));
    assert_eq!(output[6], (7, 6));
    Ok(())
}

#[test]
fn frontier_distances_match_bfs_levels_and_respect_hop_bounds() -> Result<()> {
    // Chain 0->1->2->3->4 with a 0->2 shortcut and a 4->4 self-loop.
    let triples = vec![
        (0, 1, 0),
        (1, 2, 1),
        (2, 3, 2),
        (3, 4, 3),
        (0, 2, 4),
        (4, 4, 5),
    ];
    let csr = Csr::build(5, &triples)?;

    // Single-source shortest-hop distances (the shortcut puts node 2 at hop 1).
    let distance = csr.multi_source_frontier_distances(&[0], None, || Ok(()))?;
    assert_eq!(distance, vec![Some(0), Some(1), Some(1), Some(2), Some(3)]);

    // A hop bound stops the frontier early.
    let bounded = csr.multi_source_frontier_distances(&[0], Some(1), || Ok(()))?;
    assert_eq!(bounded, vec![Some(0), Some(1), Some(1), None, None]);

    // Multi-source seeds advance every seed's frontier simultaneously.
    let multi = csr.multi_source_frontier_distances(&[0, 3], None, || Ok(()))?;
    assert_eq!(multi[0], Some(0));
    assert_eq!(multi[3], Some(0));
    assert_eq!(multi[4], Some(1));

    // Reachable set filtered by minimum hops.
    let mut reachable = csr.multi_source_reachable(&[0], 1, None, || Ok(()))?;
    reachable.sort_unstable();
    assert_eq!(reachable, vec![1, 2, 3, 4]);
    let mut deep = csr.multi_source_reachable(&[0], 2, None, || Ok(()))?;
    deep.sort_unstable();
    assert_eq!(deep, vec![3, 4]);
    Ok(())
}

#[test]
fn frontier_reachability_terminates_on_cycles() -> Result<()> {
    // A 3-cycle plus a tail: 0->1->2->0 and 2->3.
    let csr = Csr::build(4, &[(0, 1, 0), (1, 2, 1), (2, 0, 2), (2, 3, 3)])?;
    let distance = csr.multi_source_frontier_distances(&[0], None, || Ok(()))?;
    // Every node is reached exactly once at its shortest hop; the cycle does not loop forever.
    assert_eq!(distance, vec![Some(0), Some(1), Some(2), Some(3)]);
    Ok(())
}

#[test]
fn transposed_build_matches_a_build_of_reversed_edges() -> Result<()> {
    let edges = [(0, 1, 0), (2, 1, 1), (1, 0, 2), (0, 2, 3)];
    let reversed = edges
        .iter()
        .map(|(source, target, edge)| (*target, *source, *edge))
        .collect::<Vec<_>>();
    let transposed = Csr::build_transposed(3, &edges)?;
    let rebuilt = Csr::build(3, &reversed)?;
    assert_eq!(transposed.offsets(), rebuilt.offsets());
    assert_eq!(transposed.neighbors(), rebuilt.neighbors());
    assert_eq!(transposed.edges(), rebuilt.edges());
    Ok(())
}

#[test]
fn rows_are_ordered_by_neighbor_and_edge() -> Result<()> {
    let csr = Csr::build(3, &[(0, 2, 5), (0, 1, 9), (0, 1, 4)])?;
    assert_eq!(csr.row(0), Some(vec![(1, 4), (1, 9), (2, 5)]));
    assert_eq!(csr.row(1), Some(Vec::new()));
    assert_eq!(csr.row(3), None);
    assert!(Csr::build(3, &[(0, 3, 0)]).is_err());
    assert!(Csr::build(3, &[(3, 0, 0)]).is_err());
    Ok(())
}

#[test]
fn expansion_follows_inserts_and_deletes_on_both_sides() -> Result<()> {
    let mut adjacency = Adjacency::default();
    adjacency.compact(3, &[(0, 1, 0), (0, 2, 1)])?;
    adjacency.insert(2, 1, 7);
    adjacency.delete(0, 2, 1);
    assert_eq!(adjacency.delta_len(), 2);
    let mut out = Vec::new();
    adjacency.expand_out(0, &mut out);
    assert_eq!(out, vec![(1, 0)]);
    let mut into = Vec::new();
    adjacency.expand_in(1, &mut into);
    into.sort_unstable();
    assert_eq!(into, vec![(0, 0), (2, 7)]);
    adjacency.compact(3, &[(0, 1, 0), (2, 1, 7)])?;
    assert_eq!(adjacency.delta_len(), 0);
    let mut bounded = Vec::new();
    adjacency.expand_in_bounded(1, 1, &mut bounded);
    assert_eq!(bounded, vec![(0, 0)]);
    Ok(())
}

#[test]
fn malformed_shared_rows_are_refused() {
    let flat = |values: Vec<u32>| {
        SharedFlat::from_arc_slice(Arc::<[u32]>::from(values)).expect("window")
    };
    let bad = Csr::from_shared(flat(vec![0, 2, 1]), flat(vec![0]), flat(vec![0]));
    assert!(bad.is_err());
    let short = Csr::from_shared(flat(vec![0, 1]), flat(vec![0]), flat(vec![]));
    assert!(matches!(short, Err(error) if error.code == ErrorCode::CorruptStorage));
    assert!(Csr::from_device_generated_shared(flat(vec![]), flat(vec![]), flat(vec![])).is_err());
}
