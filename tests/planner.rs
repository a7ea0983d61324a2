use fusion_blossom::config::DualModuleParallelConfig;
use fusion_blossom::partition::{PartitionError, PartitionInfo};
use fusion_blossom::util::{PartitionedSolverInitializer, SolverInitializer, VertexRange};
use std::collections::BTreeSet;

/// A `d x d` code-capacity planar code: `d` rows of `d + 1` vertices, the first
/// and last of each row virtual; every edge has weight `2 * half_weight`.
fn planar_code(d: usize, half_weight: i64) -> SolverInitializer {
    let row = d + 1;
    let mut edges = vec![];
    let mut virtuals = vec![];
    for r in 0..d {
        let bias = r * row;
        for i in 0..d {
            edges.push((bias + i, bias + i + 1, 2 * half_weight));
        }
        if r + 1 < d {
            for i in 0..d - 1 {
                edges.push((bias + i + 1, bias + i + 1 + row, 2 * half_weight));
            }
        }
        virtuals.push(bias);
        virtuals.push(bias + d);
    }
    SolverInitializer::new(row * d, edges, virtuals)
}

fn split_config(edges_in_fusion_unit: bool) -> DualModuleParallelConfig {
    let mut config = DualModuleParallelConfig::default();
    config.partitions = vec![VertexRange::new(0, 72), VertexRange::new(84, 132)];
    config.fusions = vec![(0, 1)];
    config.edges_in_fusion_unit = edges_in_fusion_unit;
    config
}

fn plan(config: &DualModuleParallelConfig, graph: &SolverInitializer) -> Result<Vec<PartitionedSolverInitializer>, PartitionError> {
    let info = PartitionInfo::new(config, graph).unwrap();
    info.partitioned_initializers(config, graph)
}

fn held(init: &PartitionedSolverInitializer) -> BTreeSet<usize> {
    let mut set: BTreeSet<usize> = (init.owning_range.start..init.owning_range.end).collect();
    for (_, mirrors) in init.interfaces.iter() {
        set.extend(mirrors.iter().map(|(v, _)| *v));
    }
    set
}

#[test]
fn planar_code_shape() {
    let graph = planar_code(11, 500);
    assert_eq!(graph.vertex_num, 132);
    assert_eq!(graph.weighted_edges.len(), 221);
    assert_eq!(graph.virtual_vertices.len(), 22);
}

#[test]
fn edges_in_fusion_unit_each_edge_once() {
    let graph = planar_code(11, 500);
    let inits = plan(&split_config(true), &graph).unwrap();
    assert_eq!(inits.len(), 3);
    let mut all: Vec<(usize, usize, i64)> = inits.iter().flat_map(|i| i.weighted_edges.iter().copied()).collect();
    let mut expected = graph.weighted_edges.clone();
    all.sort();
    expected.sort();
    assert_eq!(all, expected);
    // the interface row's own edges stay in the fusion unit
    assert_eq!(inits[2].weighted_edges.len(), 11);
    assert!(inits[2].weighted_edges.iter().all(|&(i, j, _)| (72..84).contains(&i) && (72..84).contains(&j)));
    // each leaf mirrors the ten real vertices of the interface row that touch it
    assert_eq!(inits[0].interfaces.len(), 1);
    assert_eq!(inits[0].interfaces[0].0, 2);
    let mirrored: Vec<usize> = inits[0].interfaces[0].1.iter().map(|(v, _)| *v).collect();
    assert_eq!(mirrored, (73..83).collect::<Vec<usize>>());
    assert!(inits[0].interfaces[0].1.iter().all(|(_, is_virtual)| !is_virtual));
    assert!(inits[2].interfaces.is_empty());
    assert_eq!(inits[2].virtual_vertices, vec![72, 83]);
    assert_eq!(inits[0].virtual_vertices.len(), 12);
    assert_eq!(inits[0].owning_range, VertexRange::new(0, 72));
    assert_eq!(inits[1].vertex_num, 132);
}

#[test]
fn edges_copied_into_leaves_hold_both_endpoints() {
    let graph = planar_code(11, 500);
    let inits = plan(&split_config(false), &graph).unwrap();
    // the fusion unit keeps no edges; leaves mirror the whole interface row
    assert!(inits[2].weighted_edges.is_empty());
    assert_eq!(inits[0].interfaces[0].1.len(), 12);
    assert_eq!(inits[0].interfaces[0].1[0], (72, true));
    for leaf in 0..2 {
        let set = held(&inits[leaf]);
        for &(i, j, _) in inits[leaf].weighted_edges.iter() {
            assert!(set.contains(&i) && set.contains(&j));
        }
        // and no edge whose endpoints the leaf holds is missing
        let count = graph.weighted_edges.iter().filter(|(i, j, _)| set.contains(i) && set.contains(j)).count();
        assert_eq!(count, inits[leaf].weighted_edges.len());
    }
    // the interface row's edges are copied into both leaves
    let row_edges = |leaf: usize| inits[leaf].weighted_edges.iter().filter(|(i, j, _)| (72..84).contains(i) && (72..84).contains(j)).count();
    assert_eq!(row_edges(0), 11);
    assert_eq!(row_edges(1), 11);
}

#[test]
fn edge_errors() {
    let config = split_config(true);
    let mut graph = planar_code(11, 500);
    graph.weighted_edges.push((5, 5, 1000));
    assert_eq!(plan(&config, &graph).err(), Some(PartitionError::SelfLoop { edge: 221 }));
    let mut graph = planar_code(11, 500);
    graph.weighted_edges.push((5, 132, 1000));
    assert_eq!(plan(&config, &graph).err(), Some(PartitionError::EdgeOutOfBounds { edge: 221 }));
    let mut graph = planar_code(11, 500);
    graph.weighted_edges.push((5, 100, 1000));
    assert_eq!(plan(&config, &graph).err(), Some(PartitionError::CrossPartitionEdge { edge: 221 }));
}

#[test]
fn split_edge_is_rejected() {
    // leaves [0, 2) and [3, 5) around interface vertex 2, then interface 5 with leaf [6, 8)
    let graph = SolverInitializer::new(8, vec![(0, 1, 2), (1, 2, 2), (3, 4, 2), (0, 5, 2), (5, 2, 2), (6, 7, 2), (5, 6, 2), (3, 5, 2)], vec![]);
    let mut config = DualModuleParallelConfig::default();
    config.partitions = vec![VertexRange::new(0, 2), VertexRange::new(3, 5), VertexRange::new(6, 8)];
    config.fusions = vec![(0, 1), (3, 2)];
    config.edges_in_fusion_unit = false;
    let info = PartitionInfo::new(&config, &graph).unwrap();
    // leaf 1 mirrors vertex 5 through edge (3, 5) but not vertex 2, so it would
    // hold one endpoint of edge (5, 2)
    let result = info.partitioned_initializers(&config, &graph);
    match result {
        Err(PartitionError::SplitEdge { edge, unit }) => {
            assert_eq!(edge, 4);
            assert_eq!(unit, 1);
        },
        other => panic!("unexpected {:?}", other.map(|v| v.len())),
    }
}

#[test]
fn single_partition_holds_the_whole_graph() {
    let graph = planar_code(11, 500);
    let mut config = DualModuleParallelConfig::default();
    config.partitions = vec![VertexRange::new(0, 132)];
    let inits = plan(&config, &graph).unwrap();
    assert_eq!(inits.len(), 1);
    assert_eq!(inits[0].weighted_edges, graph.weighted_edges);
    assert!(inits[0].interfaces.is_empty());
    let mut virtuals = graph.virtual_vertices.clone();
    virtuals.sort();
    assert_eq!(inits[0].virtual_vertices, virtuals);
}
