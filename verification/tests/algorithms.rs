use irongraph::algorithms::components::{weakly_connected_components, Components};
use irongraph::algorithms::cores::k_core;
use irongraph::algorithms::dijkstra::{dijkstra, dijkstra_cancellable, DistanceTree};
use irongraph::algorithms::louvain::{louvain_local_move, louvain_local_move_traced};
use irongraph::algorithms::metrics::{neighborhood_links, triangle_count};
use irongraph::algorithms::multilevel::louvain_communities;
use irongraph::algorithms::strong::strongly_connected_components;
use irongraph::algorithms::traversal::{bfs, bfs_cancellable, dfs, shortest_path};
use irongraph::csr::Csr;
use irongraph::error::{Error, ErrorCode, Result};
use std::collections::BTreeMap;

fn pair(node_count: usize, edges: &[(u32, u32, u32)]) -> Result<(Csr, Csr)> {
    Ok((
        Csr::build(node_count, edges)?,
        Csr::build(
            node_count,
            &edges
                .iter()
                .map(|(source, target, edge)| (*target, *source, *edge))
                .collect::<Vec<_>>(),
        )?,
    ))
}

fn exact_modularity_numerator(
    graph: &[Vec<(usize, u64)>],
    active: &[bool],
    membership: &[usize],
) -> i128 {
    let degree = graph
        .iter()
        .map(|row| row.iter().map(|(_, weight)| *weight).sum::<u64>())
        .collect::<Vec<_>>();
    let total_weight = degree.iter().copied().sum::<u64>();
    let mut internal_weight = 0_u64;
    let mut community_weight = BTreeMap::<usize, u64>::new();
    for node in 0..graph.len() {
        if !active[node] {
            continue;
        }
        *community_weight.entry(membership[node]).or_default() += degree[node];
        for (neighbor, weight) in &graph[node] {
            if active[*neighbor] && membership[*neighbor] == membership[node] {
                internal_weight += *weight;
            }
        }
    }
    i128::from(internal_weight) * i128::from(total_weight)
        - community_weight
            .values()
            .map(|weight| i128::from(*weight).pow(2))
            .sum::<i128>()
}

/// Distances as bits of doubles, every edge of one weight.
fn weigh(weight: f64) -> impl FnMut(u64, u32) -> Result<u64> {
    move |distance, _| Ok((f64::from_bits(distance) + weight).to_bits())
}

fn as_doubles(tree: &DistanceTree) -> Vec<Option<f64>> {
    tree.distance
        .iter()
        .map(|distance| distance.map(f64::from_bits))
        .collect()
}

#[test]
fn all_reference_algorithms_have_deterministic_semantics() -> Result<()> {
    let edges = [
        (0, 1, 0),
        (1, 2, 1),
        (2, 0, 2),
        (2, 3, 3),
        (3, 4, 4),
        (4, 3, 5),
    ];
    let (outgoing, incoming) = pair(5, &edges)?;
    assert_eq!(
        bfs(&outgoing, 0)?,
        vec![Some(0), Some(1), Some(2), Some(3), Some(4)]
    );
    assert_eq!(dfs(&outgoing, 0)?, vec![0, 1, 2, 3, 4]);
    assert_eq!(shortest_path(&outgoing, 0, 4)?, Some(vec![0, 1, 2, 3, 4]));
    let distances = dijkstra(&outgoing, 0, weigh(1.0))?;
    assert_eq!(as_doubles(&distances)[4], Some(4.0));
    assert_eq!(weakly_connected_components(&outgoing, &incoming)?.count, 1);
    let strong = strongly_connected_components(&outgoing, &incoming)?;
    assert_eq!(strong.count, 2);
    assert_eq!(triangle_count(&outgoing, &incoming)?, 1);
    let links = neighborhood_links(&outgoing, &incoming, || Ok(()))?;
    let coefficient = links
        .iter()
        .map(|(found, possible)| *found as f64 / *possible as f64)
        .collect::<Vec<_>>();
    assert_eq!(coefficient[0], 1.0);
    assert_eq!(k_core(&outgoing, &incoming)?, vec![2, 2, 2, 1, 1]);
    Ok(())
}

#[test]
fn dijkstra_keeps_the_source_parentless_across_zero_weight_cycles_and_ties() -> Result<()> {
    let outgoing = Csr::build(
        4,
        &[
            (0, 1, 0),
            (1, 0, 1),
            (0, 2, 2),
            (1, 2, 3),
            (0, 2, 4),
            (2, 2, 5),
        ],
    )?;
    let result = dijkstra(&outgoing, 0, weigh(0.0))?;
    assert_eq!(
        as_doubles(&result),
        vec![Some(0.0), Some(0.0), Some(0.0), None]
    );
    assert_eq!(result.predecessor, vec![None, Some(0), Some(0), None]);
    Ok(())
}

#[test]
fn dijkstra_takes_the_cheaper_detour() -> Result<()> {
    let weights = [9.5_f64, 1.25, 2.25, 4.0];
    let outgoing = Csr::build(4, &[(0, 3, 0), (0, 1, 1), (1, 2, 2), (2, 3, 3)])?;
    let extend = |distance: u64, edge: u32| {
        Ok((f64::from_bits(distance) + weights[edge as usize]).to_bits())
    };
    let tree = dijkstra(&outgoing, 0, extend)?;
    assert_eq!(
        as_doubles(&tree),
        vec![Some(0.0), Some(1.25), Some(3.5), Some(7.5)]
    );
    assert_eq!(tree.predecessor, vec![None, Some(0), Some(1), Some(2)]);
    assert_eq!(
        dijkstra(&outgoing, 4, extend)
            .expect_err("source is missing")
            .code,
        ErrorCode::QueryType
    );
    let refused = dijkstra(&outgoing, 0, |_, _| {
        Err(Error::new(ErrorCode::InvalidData, "edge has no weight"))
    });
    assert_eq!(
        refused.expect_err("no weights").code,
        ErrorCode::InvalidData
    );
    let stopped = dijkstra_cancellable(&outgoing, 0, extend, || {
        Err(Error::new(ErrorCode::Cancelled, "stop"))
    });
    assert_eq!(stopped.expect_err("cancelled").code, ErrorCode::Cancelled);
    Ok(())
}

#[test]
fn multilevel_louvain_separates_dense_communities() -> Result<()> {
    let mut edges = Vec::new();
    let mut edge = 0_u32;
    for community in [0_u32..4, 4_u32..8] {
        for source in community.clone() {
            for target in community.clone() {
                if source < target {
                    edges.push((source, target, edge));
                    edge += 1;
                    edges.push((target, source, edge));
                    edge += 1;
                }
            }
        }
    }
    edges.push((3, 4, edge));
    let (outgoing, incoming) = pair(8, &edges)?;
    let communities = louvain_communities(&outgoing, &incoming)?;
    assert_eq!(communities.count, 2);
    assert!(communities.component[..4]
        .iter()
        .all(|community| *community == communities.component[0]));
    assert!(communities.component[4..]
        .iter()
        .all(|community| *community == communities.component[4]));
    assert_ne!(communities.component[0], communities.component[4]);
    Ok(())
}

#[test]
fn parallel_louvain_is_not_trapped_by_monotone_community_ids() -> Result<()> {
    // Full proposal matching permits node 0's beneficial move to the higher-ID community and
    // deterministically finds the two positive-modularity pairs.
    let edges = [(0, 1, 0), (0, 2, 1), (1, 3, 2)];
    let (outgoing, incoming) = pair(4, &edges)?;
    let expected = Components {
        component: vec![0, 1, 0, 1],
        count: 2,
    };
    assert_eq!(louvain_communities(&outgoing, &incoming)?, expected);

    let reversed = edges
        .iter()
        .rev()
        .map(|(source, target, edge)| (*target, *source, *edge))
        .collect::<Vec<_>>();
    let (outgoing, incoming) = pair(4, &reversed)?;
    assert_eq!(louvain_communities(&outgoing, &incoming)?, expected);
    Ok(())
}

#[test]
fn every_louvain_local_pass_strictly_increases_exact_modularity() -> Result<()> {
    // Many weighted symmetric graphs, including self-loops. The observer is called only after a
    // complete pass has been applied.
    let mut state = 0x6a09_e667_f3bc_c909_u64;
    let mut observed_improving_passes = 0_usize;
    for case in 0..96 {
        let node_count = 8 + case % 17;
        let mut graph = vec![BTreeMap::<usize, u64>::new(); node_count];
        for left in 0..node_count {
            state = state
                .wrapping_mul(6_364_136_223_846_793_005)
                .wrapping_add(1_442_695_040_888_963_407);
            if state % 5 == 0 {
                // Coarse self-loop weights contain both directed halves.
                graph[left].insert(left, 2 * (1 + (state >> 32) % 4));
            }
            for right in (left + 1)..node_count {
                state = state
                    .wrapping_mul(6_364_136_223_846_793_005)
                    .wrapping_add(1_442_695_040_888_963_407);
                if state % 7 < 3 {
                    let weight = 1 + (state >> 32) % 5;
                    graph[left].insert(right, weight);
                    graph[right].insert(left, weight);
                }
            }
        }
        let graph = graph
            .into_iter()
            .map(BTreeMap::into_iter)
            .map(Iterator::collect)
            .collect::<Vec<Vec<_>>>();
        let active = vec![true; node_count];
        let mut prior = None;
        let mut trace = Vec::new();
        let first = louvain_local_move_traced(
            &graph,
            &active,
            &mut || Ok(()),
            &mut |membership: &Vec<usize>, accepted: usize| {
                let score = exact_modularity_numerator(&graph, &active, membership);
                if let Some(previous) = prior {
                    assert!(accepted > 0, "continuing pass accepted no move");
                    assert!(
                        score > previous,
                        "case {case}: modularity did not strictly rise: {previous} -> {score}"
                    );
                    observed_improving_passes += 1;
                } else {
                    assert_eq!(accepted, 0, "initial observation accepted moves");
                }
                prior = Some(score);
                trace.push(score);
                Ok(())
            },
        )?;
        let second = louvain_local_move(&graph, &active, &mut || Ok(()))?;
        assert_eq!(
            first, second,
            "case {case}: local moving is not deterministic"
        );
        assert!(trace.windows(2).all(|scores| scores[1] > scores[0]));
    }
    assert!(
        observed_improving_passes > 100,
        "randomized invariant suite did not exercise enough improving passes"
    );
    Ok(())
}

#[test]
fn louvain_local_moving_absorbs_a_hub_in_bounded_passes() -> Result<()> {
    let leaf_count = 128_usize;
    let mut graph = vec![Vec::<(usize, u64)>::new(); leaf_count + 1];
    for leaf in 1..=leaf_count {
        graph[0].push((leaf, 1));
        graph[leaf].push((0, 1));
    }
    let active = vec![true; graph.len()];
    let mut improving_passes = 0_usize;
    let membership = louvain_local_move_traced(
        &graph,
        &active,
        &mut || Ok(()),
        &mut |_: &Vec<usize>, accepted: usize| {
            if accepted != 0 {
                improving_passes += 1;
            }
            Ok(())
        },
    )?;
    assert!(
        improving_passes <= 2,
        "star required {improving_passes} full-graph passes"
    );
    assert!(membership
        .iter()
        .all(|community| *community == membership[0]));
    Ok(())
}

#[test]
fn louvain_skips_isolated_local_work_without_merging_singletons() -> Result<()> {
    let node_count = 100_002_usize;
    let (outgoing, incoming) = pair(node_count, &[(100_000, 100_001, 0)])?;
    let result = louvain_communities(&outgoing, &incoming)?;
    assert_eq!(result.component.len(), node_count);
    assert_eq!(result.count, 100_001);
    assert_eq!(result.component[0], 0);
    assert_eq!(result.component[99_999], 99_999);
    assert_eq!(result.component[100_000], result.component[100_001]);
    Ok(())
}

#[test]
fn strongly_connected_component_ids_follow_minimum_node_order() -> Result<()> {
    let (outgoing, incoming) = pair(4, &[])?;
    assert_eq!(
        strongly_connected_components(&outgoing, &incoming)?,
        Components {
            component: vec![0, 1, 2, 3],
            count: 4,
        }
    );

    let (outgoing, incoming) = pair(
        6,
        &[
            (0, 2, 0),
            (2, 0, 1),
            (1, 4, 2),
            (4, 1, 3),
            (2, 3, 4),
            (4, 5, 5),
        ],
    )?;
    assert_eq!(
        strongly_connected_components(&outgoing, &incoming)?.component,
        vec![0, 1, 0, 2, 1, 3]
    );
    Ok(())
}

#[test]
fn cancellable_algorithm_propagates_failure() -> Result<()> {
    let edges = (0_u32..4_096)
        .map(|source| (source, source + 1, source))
        .collect::<Vec<_>>();
    let (outgoing, _) = pair(4_097, &edges)?;
    let mut checks = 0_usize;
    let error = bfs_cancellable(&outgoing, 0, || {
        checks += 1;
        if checks > 1 {
            Err(Error::new(ErrorCode::DeadlineExceeded, "cancelled"))
        } else {
            Ok(())
        }
    })
    .err()
    .ok_or_else(|| Error::internal("cancellable BFS did not stop"))?;
    assert_eq!(error.code, ErrorCode::DeadlineExceeded);
    Ok(())
}

#[test]
fn unreachable_and_missing_nodes_are_told_apart() -> Result<()> {
    let (outgoing, _) = pair(3, &[(0, 1, 0)])?;
    assert_eq!(shortest_path(&outgoing, 0, 2)?, None);
    assert_eq!(shortest_path(&outgoing, 1, 1)?, Some(vec![1]));
    assert!(shortest_path(&outgoing, 0, 3).is_err());
    assert!(bfs(&outgoing, 3).is_err());
    assert!(dfs(&outgoing, 3).is_err());
    Ok(())
}

#[test]
fn weak_components_follow_the_smallest_node() -> Result<()> {
    let (outgoing, incoming) = pair(5, &[(4, 2, 0), (1, 3, 1)])?;
    assert_eq!(
        weakly_connected_components(&outgoing, &incoming)?,
        Components {
            component: vec![0, 1, 2, 1, 2],
            count: 3,
        }
    );
    Ok(())
}
