use fusion_blossom::config::DualModuleParallelConfig;
use fusion_blossom::dual_module::{DualModuleImpl, DualNodeGrowState, DualNodePtr, GroupMaxUpdateLength, MaxUpdateLength};
use fusion_blossom::dual_module_parallel::{merge_group_max_update_lengths, DualModuleParallel, Interface, UnitCall};
use fusion_blossom::partition::PartitionError;
use fusion_blossom::util::{EdgeIndex, PartitionedSolverInitializer, SolverInitializer, VertexRange, Weight};

/// A dual module that records what it was asked to do.
struct Recorder {
    owning_range: VertexRange,
    nodes: Vec<usize>,
    grown: Weight,
    fused_interfaces: usize,
    clears: usize,
}

impl DualModuleImpl for Recorder {
    fn calls(&self) -> vstd::seq::Seq<UnitCall> {
        panic!("the call log exists only in proofs")
    }
    fn new_partitioned(initializer: &PartitionedSolverInitializer) -> Self {
        Recorder { owning_range: initializer.owning_range, nodes: vec![], grown: 0, fused_interfaces: 0, clears: 0 }
    }
    fn clear(&mut self) {
        self.nodes.clear();
        self.grown = 0;
        self.clears += 1;
    }
    fn add_dual_node(&mut self, dual_node_ptr: &DualNodePtr) {
        self.nodes.push(dual_node_ptr.index);
    }
    fn remove_blossom(&mut self, dual_node_ptr: DualNodePtr) {
        self.nodes.retain(|&n| n != dual_node_ptr.index);
    }
    fn set_grow_state(&mut self, _dual_node_ptr: &DualNodePtr, _grow_state: DualNodeGrowState) {}
    fn compute_maximum_update_length_dual_node(&mut self, dual_node_ptr: &DualNodePtr, _is_grow: bool, _simultaneous_update: bool) -> MaxUpdateLength {
        if self.nodes.contains(&dual_node_ptr.index) {
            MaxUpdateLength::NonZeroGrow(100 - self.grown)
        } else {
            MaxUpdateLength::BlossomNeedExpand(*dual_node_ptr)
        }
    }
    fn compute_maximum_update_length(&mut self) -> GroupMaxUpdateLength {
        let mut group = GroupMaxUpdateLength::new();
        if !self.nodes.is_empty() {
            group.add(MaxUpdateLength::NonZeroGrow(100 - self.grown));
        }
        group
    }
    fn grow_dual_node(&mut self, _dual_node_ptr: &DualNodePtr, length: Weight) {
        self.grown += length;
    }
    fn grow(&mut self, length: Weight) {
        self.grown += length;
    }
    fn load_edge_modifier(&mut self, _edge_modifier: &Vec<(EdgeIndex, Weight)>) {}
    fn fuse(&mut self, left: &Vec<Interface>, right: &Vec<Interface>) {
        self.fused_interfaces += left.len() + right.len();
    }
}

fn chain(n: usize) -> SolverInitializer {
    SolverInitializer::new(n, (0..n - 1).map(|i| (i, i + 1, 2)).collect(), vec![0, n - 1])
}

fn two_leaves() -> DualModuleParallel<Recorder> {
    let mut config = DualModuleParallelConfig::default();
    config.partitions = vec![VertexRange::new(0, 4), VertexRange::new(5, 10)];
    config.fusions = vec![(0, 1)];
    DualModuleParallel::new_config(&chain(10), config).unwrap()
}

fn node(index: usize, representative_vertex: usize) -> DualNodePtr {
    DualNodePtr { index, representative_vertex }
}

#[test]
fn construction_starts_with_active_leaves() {
    let module = two_leaves();
    assert_eq!(module.units.len(), 3);
    assert!(module.units[0].is_active && module.units[1].is_active);
    assert!(!module.units[2].is_active);
    assert!(module.units.iter().all(|u| !u.is_fused));
    assert_eq!(module.units[0].interfaces.len(), 1);
    assert_eq!(module.units[0].interfaces[0].interface_id, 2);
    assert_eq!(module.units[0].interfaces[0].data.interfacing_vertices, vec![vec![4]]);
    assert_eq!(module.units[0].interfaces[0].data.possession_modules, vec![0]);
    assert_eq!(module.units[2].serial_module.owning_range, VertexRange::new(4, 5));
}

#[test]
fn default_configuration_builds_one_unit() {
    let module: DualModuleParallel<Recorder> = DualModuleParallel::new(&chain(6)).unwrap();
    assert_eq!(module.units.len(), 1);
    assert!(module.units[0].is_active);
    assert_eq!(module.config.partitions, vec![VertexRange::new(0, 6)]);
}

#[test]
fn construction_reports_configuration_errors() {
    let mut config = DualModuleParallelConfig::default();
    config.partitions = vec![VertexRange::new(0, 4), VertexRange::new(5, 10)];
    let result: Result<DualModuleParallel<Recorder>, PartitionError> = DualModuleParallel::new_config(&chain(10), config);
    assert_eq!(result.err(), Some(PartitionError::Unfused { unit: 0 }));
    let graph = SolverInitializer::new(4, vec![(0, 1, 2)], vec![0, 4]);
    let result: Result<DualModuleParallel<Recorder>, PartitionError> = DualModuleParallel::new(&graph);
    assert_eq!(result.err(), Some(PartitionError::VirtualOutOfBounds { index: 1 }));
}

#[test]
fn empty_syndrome_reports_nothing() {
    let mut module = two_leaves();
    assert!(module.compute_maximum_update_length().is_empty());
}

#[test]
fn nodes_inside_one_leaf_stay_there() {
    let mut module = two_leaves();
    module.add_dual_node(&node(0, 1));
    module.add_dual_node(&node(1, 2));
    assert_eq!(module.find_active_ancestor(&node(0, 1)), 0);
    assert_eq!(module.units[0].serial_module.nodes, vec![0, 1]);
    assert!(module.units[1].serial_module.nodes.is_empty());
    assert!(module.units[2].serial_module.nodes.is_empty());
    assert_eq!(module.units[2].serial_module.fused_interfaces, 0);
    let group = module.compute_maximum_update_length();
    assert_eq!(group.get_none_zero_growth(), Some(100));
    module.grow(30);
    assert_eq!(module.units[0].serial_module.grown, 30);
    assert_eq!(module.units[1].serial_module.grown, 30);
    assert_eq!(module.units[2].serial_module.grown, 0);
    assert_eq!(module.compute_maximum_update_length_dual_node(&node(1, 2), true, false), MaxUpdateLength::NonZeroGrow(70));
    module.grow_dual_node(&node(1, 2), 5);
    assert_eq!(module.units[0].serial_module.grown, 35);
    module.remove_blossom(node(0, 1));
    assert_eq!(module.units[0].serial_module.nodes, vec![1]);
}

#[test]
fn fusion_hands_nodes_to_the_parent() {
    let mut module = two_leaves();
    module.fuse(2);
    assert!(module.units[0].is_fused && module.units[1].is_fused);
    assert!(!module.units[0].is_active && !module.units[1].is_active);
    assert!(module.units[2].is_active && !module.units[2].is_fused);
    assert_eq!(module.units[2].serial_module.fused_interfaces, 2);
    // a node on the interface vertex and one in a leaf both go to the parent now
    module.add_dual_node(&node(7, 4));
    module.add_dual_node(&node(8, 9));
    assert_eq!(module.find_active_ancestor(&node(8, 9)), 2);
    assert_eq!(module.units[2].serial_module.nodes, vec![7, 8]);
    assert!(module.units[1].serial_module.nodes.is_empty());
    module.set_grow_state(&node(7, 4), DualNodeGrowState::Shrink);
    let single = module.compute_maximum_update_length_dual_node(&node(7, 4), false, false);
    assert_eq!(single, MaxUpdateLength::NonZeroGrow(100));
    let unknown = module.compute_maximum_update_length_dual_node(&node(9, 4), false, false);
    assert_eq!(unknown, MaxUpdateLength::BlossomNeedExpand(node(9, 4)));
    module.load_edge_modifier(&vec![(0, 1)]);
}

#[test]
fn clear_twice_equals_clear_once() {
    let mut module = two_leaves();
    module.fuse(2);
    module.clear();
    let once: Vec<(bool, bool)> = module.units.iter().map(|u| (u.is_active, u.is_fused)).collect();
    module.clear();
    let twice: Vec<(bool, bool)> = module.units.iter().map(|u| (u.is_active, u.is_fused)).collect();
    assert_eq!(once, vec![(true, false), (true, false), (false, false)]);
    assert_eq!(once, twice);
    assert_eq!(module.units[2].serial_module.clears, 2);
}

#[test]
fn merge_takes_smallest_bound_or_all_conflicts() {
    let bound = |w: Weight| {
        let mut g = GroupMaxUpdateLength::new();
        g.add(MaxUpdateLength::NonZeroGrow(w));
        g
    };
    let conflict = |i: usize| {
        let mut g = GroupMaxUpdateLength::new();
        g.add(MaxUpdateLength::VertexShrinkStop(node(i, i)));
        g
    };
    let merged = merge_group_max_update_lengths(vec![bound(30), bound(10), bound(20)]);
    assert_eq!(merged.get_none_zero_growth(), Some(10));
    let merged = merge_group_max_update_lengths(vec![bound(30), conflict(1), bound(20), conflict(2)]);
    match merged {
        GroupMaxUpdateLength::Conflicts(c) => assert_eq!(c.len(), 2),
        _ => panic!("conflicts expected"),
    }
    assert!(merge_group_max_update_lengths(vec![]).is_empty());
}

#[test]
fn extend_is_commutative_on_examples() {
    let make = |items: Vec<MaxUpdateLength>| {
        let mut g = GroupMaxUpdateLength::new();
        for item in items {
            g.add(item);
        }
        g
    };
    let a = vec![MaxUpdateLength::NonZeroGrow(7)];
    let b = vec![MaxUpdateLength::NonZeroGrow(3)];
    let mut ab = make(a.clone());
    ab.extend(make(b.clone()));
    let mut ba = make(b);
    ba.extend(make(a));
    assert_eq!(ab.get_none_zero_growth(), Some(3));
    assert_eq!(ba.get_none_zero_growth(), Some(3));
    let c = vec![MaxUpdateLength::BlossomNeedExpand(node(1, 1))];
    let mut ac = make(vec![MaxUpdateLength::NonZeroGrow(7)]);
    ac.extend(make(c.clone()));
    let mut ca = make(c);
    ca.extend(make(vec![MaxUpdateLength::NonZeroGrow(7)]));
    assert!(matches!(ac, GroupMaxUpdateLength::Conflicts(ref v) if v.len() == 1));
    assert!(matches!(ca, GroupMaxUpdateLength::Conflicts(ref v) if v.len() == 1));
    let mut empty = GroupMaxUpdateLength::new();
    assert!(empty.is_empty());
    empty.extend(GroupMaxUpdateLength::new());
    assert!(empty.is_empty());
}

#[test]
fn at_most_one_active_unit_on_each_path() {
    let graph = chain(20);
    let mut config = DualModuleParallelConfig::default();
    config.partitions = vec![VertexRange::new(0, 4), VertexRange::new(5, 9), VertexRange::new(10, 14), VertexRange::new(15, 20)];
    config.fusions = vec![(0, 1), (2, 3), (4, 5)];
    let mut module: DualModuleParallel<Recorder> = DualModuleParallel::new_config(&graph, config).unwrap();
    let paths: Vec<Vec<usize>> = vec![vec![0, 4, 6], vec![1, 4, 6], vec![2, 5, 6], vec![3, 5, 6]];
    let check = |module: &DualModuleParallel<Recorder>| {
        for path in paths.iter() {
            let active = path.iter().filter(|&&u| module.units[u].is_active && !module.units[u].is_fused).count();
            assert_eq!(active, 1, "path {path:?}");
        }
    };
    check(&module);
    module.fuse(4);
    check(&module);
    assert_eq!(module.find_active_ancestor(&node(0, 2)), 4);
    assert_eq!(module.find_active_ancestor(&node(1, 11)), 2);
    module.fuse(5);
    check(&module);
    module.fuse(6);
    check(&module);
    assert!(module.units[4].is_fused && module.units[5].is_fused);
    assert_eq!(module.find_active_ancestor(&node(2, 14)), 6);
    module.clear();
    check(&module);
    assert_eq!(module.find_active_ancestor(&node(2, 16)), 3);
}

#[test]
fn unit_steps_skip_inactive_units() {
    let mut module = two_leaves();
    module.add_dual_node(&node(0, 1));
    assert!(module.units[2].compute_maximum_update_length_if_active().is_none());
    let report = module.units[0].compute_maximum_update_length_if_active().unwrap();
    assert_eq!(report.get_none_zero_growth(), Some(100));
    module.units[2].grow_if_active(10);
    assert_eq!(module.units[2].serial_module.grown, 0);
    module.units[1].grow_if_active(10);
    assert_eq!(module.units[1].serial_module.grown, 10);
    module.units[1].load_edge_modifier_if_active(&vec![(1, 2)]);
    module.units[2].reset(false);
    assert!(!module.units[2].is_active && !module.units[2].is_fused);
    module.units[0].reset(true);
    assert!(module.units[0].serial_module.nodes.is_empty());
}
