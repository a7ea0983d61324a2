use fusion_blossom::config::{edges_in_fusion_unit, fusions, partitions, thread_pool_size, DualModuleParallelConfig};
use fusion_blossom::partition::{PartitionError, PartitionInfo};
use fusion_blossom::util::{SolverInitializer, VertexRange};

fn empty_graph(vertex_num: usize) -> SolverInitializer {
    SolverInitializer::new(vertex_num, vec![], vec![])
}

fn config_of(partitions: Vec<VertexRange>, fusions: Vec<(usize, usize)>) -> DualModuleParallelConfig {
    let mut config = DualModuleParallelConfig::default();
    config.partitions = partitions;
    config.fusions = fusions;
    config
}

#[test]
fn default_configuration_values() {
    assert_eq!(thread_pool_size(), 1);
    assert!(partitions().is_empty());
    assert!(fusions().is_empty());
    assert!(edges_in_fusion_unit());
    let config = DualModuleParallelConfig::default();
    assert_eq!(config.thread_pool_size, 1);
    assert!(config.partitions.is_empty());
    assert!(config.fusions.is_empty());
    assert!(config.edges_in_fusion_unit);
}

#[test]
fn two_partitions_one_fusion_tree() {
    let config = config_of(vec![VertexRange::new(0, 72), VertexRange::new(84, 132)], vec![(0, 1)]);
    let info = PartitionInfo::new(&config, &empty_graph(132)).unwrap();
    assert_eq!(info.units.len(), 3);
    assert_eq!(info.units[0].whole_range, VertexRange::new(0, 72));
    assert_eq!(info.units[1].owning_range, VertexRange::new(84, 132));
    assert_eq!(info.units[2].whole_range, VertexRange::new(0, 132));
    assert_eq!(info.units[2].owning_range, VertexRange::new(72, 84));
    assert_eq!(info.units[2].children, Some((0, 1)));
    assert_eq!(info.units[0].parent, Some(2));
    assert_eq!(info.units[1].parent, Some(2));
    assert_eq!(info.units[2].parent, None);
    assert_eq!(info.units[2].leaves, vec![0, 1]);
    assert_eq!(info.units[0].leaves, vec![0]);
    assert_eq!(info.units[2].descendants.iter().copied().collect::<Vec<usize>>(), vec![0, 1]);
    assert!(info.units[0].descendants.is_empty());
    assert_eq!(info.vertex_to_owning_unit.len(), 132);
    assert_eq!(info.vertex_to_owning_unit[0], 0);
    assert_eq!(info.vertex_to_owning_unit[71], 0);
    assert_eq!(info.vertex_to_owning_unit[72], 2);
    assert_eq!(info.vertex_to_owning_unit[83], 2);
    assert_eq!(info.vertex_to_owning_unit[84], 1);
    assert_eq!(info.vertex_to_owning_unit[131], 1);
}

#[test]
fn owning_ranges_cover_each_vertex_once() {
    // four leaves fused pairwise, then the pairs
    let config = config_of(
        vec![VertexRange::new(0, 10), VertexRange::new(12, 20), VertexRange::new(25, 30), VertexRange::new(31, 40)],
        vec![(0, 1), (2, 3), (4, 5)],
    );
    let info = PartitionInfo::new(&config, &empty_graph(40)).unwrap();
    for v in 0..40 {
        let owners: Vec<usize> = (0..info.units.len()).filter(|&u| info.units[u].owning_range.contains(v)).collect();
        assert_eq!(owners.len(), 1, "vertex {v}");
        assert_eq!(owners[0], info.vertex_to_owning_unit[v]);
    }
    assert_eq!(info.units[4].owning_range, VertexRange::new(10, 12));
    assert_eq!(info.units[5].owning_range, VertexRange::new(30, 31));
    assert_eq!(info.units[6].owning_range, VertexRange::new(20, 25));
    assert_eq!(info.units[6].descendants.iter().copied().collect::<Vec<usize>>(), vec![0, 1, 2, 3, 4, 5]);
    assert_eq!(info.units[6].leaves, vec![0, 1, 2, 3]);
    // exactly one root, and every other unit has the parent that fused it
    let roots: Vec<usize> = (0..7).filter(|&u| info.units[u].parent.is_none()).collect();
    assert_eq!(roots, vec![6]);
    assert_eq!(info.units[3].parent, Some(5));
    assert_eq!(info.units[5].parent, Some(6));
}

#[test]
fn single_partition_is_a_leaf_root() {
    let config = config_of(vec![VertexRange::new(0, 5)], vec![]);
    let info = PartitionInfo::new(&config, &empty_graph(5)).unwrap();
    assert_eq!(info.units.len(), 1);
    assert_eq!(info.units[0].parent, None);
    assert_eq!(info.units[0].children, None);
    assert_eq!(info.vertex_to_owning_unit, vec![0, 0, 0, 0, 0]);
}

#[test]
fn configuration_errors() {
    let graph = empty_graph(10);
    let err = |p: Vec<VertexRange>, f: Vec<(usize, usize)>| PartitionInfo::new(&config_of(p, f), &graph).err();
    assert_eq!(err(vec![], vec![]), Some(PartitionError::NoPartition));
    assert_eq!(err(vec![VertexRange::new(5, 3)], vec![]), Some(PartitionError::InvalidRange { unit: 0 }));
    assert_eq!(err(vec![VertexRange::new(0, 11)], vec![]), Some(PartitionError::RangeOutOfBounds { unit: 0 }));
    assert_eq!(
        err(vec![VertexRange::new(0, 4), VertexRange::new(5, 10)], vec![(0, 2)]),
        Some(PartitionError::FusionDependency { fusion: 0 })
    );
    assert_eq!(
        err(vec![VertexRange::new(0, 4), VertexRange::new(5, 10)], vec![(0, 0)]),
        Some(PartitionError::FusedTwice { unit: 0 })
    );
    assert_eq!(
        err(vec![VertexRange::new(0, 2), VertexRange::new(3, 5), VertexRange::new(6, 10)], vec![(0, 1), (1, 2)]),
        Some(PartitionError::FusedTwice { unit: 1 })
    );
    assert_eq!(
        err(vec![VertexRange::new(5, 10), VertexRange::new(0, 4)], vec![(0, 1)]),
        Some(PartitionError::FusionOrder { fusion: 0 })
    );
    assert_eq!(
        err(vec![VertexRange::new(0, 4), VertexRange::new(5, 10)], vec![]),
        Some(PartitionError::Unfused { unit: 0 })
    );
    assert_eq!(err(vec![VertexRange::new(0, 9)], vec![]), Some(PartitionError::RootRange));
    assert_eq!(
        err(vec![VertexRange::new(1, 4), VertexRange::new(5, 10)], vec![(0, 1)]),
        Some(PartitionError::RootRange)
    );
}

#[test]
fn vertex_range_operations() {
    let left = VertexRange::new(0, 72);
    let right = VertexRange::new(84, 132);
    let (whole, gap) = left.fuse(&right);
    assert_eq!(whole, VertexRange::new(0, 132));
    assert_eq!(gap, VertexRange::new(72, 84));
    assert_eq!(gap.len(), 12);
    assert!(gap.contains(72));
    assert!(!gap.contains(84));
    assert_eq!(whole.start(), 0);
    assert_eq!(whole.end(), 132);
}
