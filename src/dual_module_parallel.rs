//! The parallel dual module: one dual module per unit of the partition tree,
//! with each operation on a dual node routed to the unit that is responsible
//! for it, and fusion handing responsibility from two children to their parent.
use vstd::prelude::*;
use crate::util::{EdgeIndex, PartitionedSolverInitializer, VertexIndex, VertexRange, Weight, SolverInitializer};
use crate::config::DualModuleParallelConfig;
use crate::dual_module::{
    DualModuleImpl, DualNodeGrowState, DualNodePtr, GroupMaxUpdateLength, GroupModel, MaxUpdateLength, merge_groups,
};
use crate::planner::{is_unit_plan, plan_ok, plan_error_holds, unit_interfaces, interfaces_view};
use crate::partition::{
    PartitionError, first_partition_error, PartitionInfo, PartitionUnitInfo, children_of, fuses, in_subtree, owner_of, owning_range_of,
    unit_count, valid_partition_config, children_built_first, whole_range_of, lemma_subtree_transitive,
};

verus! {

/// The vertices that several dual modules hold images of.
#[derive(Clone, Debug)]
pub struct InterfaceData {
    /// the units whose dual modules hold images of these vertices
    pub possession_modules: Vec<usize>,
    /// for each of those units, the vertices it holds images of
    pub interfacing_vertices: Vec<Vec<VertexIndex>>,
}

/// An interface between a unit and one of its ancestors: the ancestor's
/// vertices that the unit holds as virtual images.
#[derive(Clone, Debug)]
pub struct Interface {
    /// the ancestor unit that owns the vertices
    pub interface_id: usize,
    /// the images
    pub data: InterfaceData,
}

/// An interface as plain values: its id, the units holding images, and the
/// vertices each of them holds.
pub type InterfaceModel = (usize, Seq<usize>, Seq<Seq<VertexIndex>>);

impl Interface {
    pub open spec fn model(&self) -> InterfaceModel {
        (
            self.interface_id,
            self.data.possession_modules@,
            self.data.interfacing_vertices@.map_values(|v: Vec<VertexIndex>| v@),
        )
    }
}

pub open spec fn interfaces_model(interfaces: Seq<Interface>) -> Seq<InterfaceModel> {
    interfaces.map_values(|i: Interface| i.model())
}

/// A copy of `interfaces`.
fn copy_interfaces(interfaces: &Vec<Interface>) -> (r: Vec<Interface>)
    ensures
        interfaces_model(r@) == interfaces_model(interfaces@),
{
    let mut r: Vec<Interface> = Vec::new();
    let mut i: usize = 0;
    while i < interfaces.len()
        invariant
            i <= interfaces@.len(),
            r@.len() == i,
            forall|k: int| 0 <= k < i ==> #[trigger] r@[k].model() == interfaces@[k].model(),
        decreases interfaces@.len() - i,
    {
        let source = &interfaces[i];
        let lists = &source.data.interfacing_vertices;
        let mut vertices: Vec<Vec<VertexIndex>> = Vec::new();
        let mut j: usize = 0;
        while j < lists.len()
            invariant
                j <= lists@.len(),
                vertices@.len() == j,
                forall|k: int| 0 <= k < j ==> (#[trigger] vertices@[k])@ == lists@[k]@,
            decreases lists@.len() - j,
        {
            vertices.push(copy_vec(&lists[j]));
            j += 1;
        }
        let copy = Interface {
            interface_id: source.interface_id,
            data: InterfaceData { possession_modules: copy_vec(&source.data.possession_modules), interfacing_vertices: vertices },
        };
        assert(copy.model() == source.model()) by {
            assert(vertices@.map_values(|v: Vec<VertexIndex>| v@) =~= lists@.map_values(|v: Vec<VertexIndex>| v@));
        }
        r.push(copy);
        i += 1;
    }
    assert(interfaces_model(r@) =~= interfaces_model(interfaces@));
    r
}

/// A call handed to a unit's dual module, with its arguments and, for the
/// queries, what the module answered.
pub enum UnitCall {
    Build(PartitionedSolverInitializer),
    Clear,
    AddDualNode(DualNodePtr),
    RemoveBlossom(DualNodePtr),
    SetGrowState(DualNodePtr, DualNodeGrowState),
    ComputeMaximumUpdateLengthDualNode(DualNodePtr, bool, bool, MaxUpdateLength),
    ComputeMaximumUpdateLength(GroupModel),
    GrowDualNode(DualNodePtr, Weight),
    Grow(Weight),
    LoadEdgeModifier(Seq<(EdgeIndex, Weight)>),
    Fuse(Seq<InterfaceModel>, Seq<InterfaceModel>),
}

/// One unit of the partition tree at run time.
pub struct DualModuleParallelUnit<M> {
    /// merged into its parent: no longer reached directly
    pub is_fused: bool,
    /// responsible for the dual nodes under it
    pub is_active: bool,
    /// all vertices under this unit
    pub whole_range: VertexRange,
    /// the vertices this unit owns exclusively
    pub owning_range: VertexRange,
    /// the dual module over this unit's shard
    pub serial_module: M,
    /// left and right child
    pub children: Option<(usize, usize)>,
    /// the unit this one is fused into
    pub parent: Option<usize>,
    /// the images of ancestors' vertices that this unit's module holds
    pub interfaces: Vec<Interface>,
}

/// A unit as the dual module holds it.
pub type DualModuleParallelUnitPtr<M> = DualModuleParallelUnit<M>;

impl<M> DualModuleParallelUnit<M> {
    /// The unit takes part in fan-out operations.
    pub open spec fn is_live(&self) -> bool {
        self.is_active && !self.is_fused
    }

    /// The two units agree on everything but their dual modules.
    pub open spec fn same_but_module(&self, other: &Self) -> bool {
        &&& self.is_fused == other.is_fused
        &&& self.is_active == other.is_active
        &&& self.whole_range == other.whole_range
        &&& self.owning_range == other.owning_range
        &&& self.children == other.children
        &&& self.parent == other.parent
        &&& self.interfaces@ == other.interfaces@
    }
}

impl<M: DualModuleImpl> DualModuleParallelUnit<M> {
    /// Every operation this unit's dual module was handed, oldest first.
    pub open spec fn handed(&self) -> Seq<UnitCall> {
        self.serial_module.calls()
    }

    /// `after` is this unit once its dual module was handed `call`.
    pub open spec fn handed_one(&self, after: &Self, call: UnitCall) -> bool {
        &&& after.same_but_module(self)
        &&& after.handed() == self.handed().push(call)
    }
}

impl<M> DualModuleParallelUnitPtr<M> {
    /// Wraps a dual module as the unit that `partition_unit_info` describes.
    /// A leaf starts active, a unit made by a fusion starts waiting for it.
    pub fn new_wrapper(dual_module: M, partition_unit_info: &PartitionUnitInfo) -> (r: Self)
        ensures
            r.serial_module == dual_module,
            r.whole_range == partition_unit_info.whole_range,
            r.owning_range == partition_unit_info.owning_range,
            r.children == partition_unit_info.children,
            r.parent == partition_unit_info.parent,
            r.is_active == (partition_unit_info.children is None),
            !r.is_fused,
            r.interfaces@.len() == 0,
    {
        DualModuleParallelUnit {
            is_fused: false,
            is_active: partition_unit_info.children.is_none(),
            whole_range: partition_unit_info.whole_range,
            owning_range: partition_unit_info.owning_range,
            serial_module: dual_module,
            children: partition_unit_info.children,
            parent: partition_unit_info.parent,
            interfaces: Vec::new(),
        }
    }
}

impl<M: DualModuleImpl> DualModuleParallelUnit<M> {
    pub fn clear(&mut self)
        ensures
            old(self).handed_one(final(self), UnitCall::Clear),
    {
        self.serial_module.clear();
    }

    pub fn add_dual_node(&mut self, dual_node_ptr: &DualNodePtr)
        requires
            !old(self).is_fused,
        ensures
            old(self).handed_one(final(self), UnitCall::AddDualNode(*dual_node_ptr)),
    {
        self.serial_module.add_dual_node(dual_node_ptr);
    }

    pub fn remove_blossom(&mut self, dual_node_ptr: DualNodePtr)
        requires
            !old(self).is_fused,
        ensures
            old(self).handed_one(final(self), UnitCall::RemoveBlossom(dual_node_ptr)),
    {
        self.serial_module.remove_blossom(dual_node_ptr);
    }

    pub fn set_grow_state(&mut self, dual_node_ptr: &DualNodePtr, grow_state: DualNodeGrowState)
        requires
            !old(self).is_fused,
        ensures
            old(self).handed_one(final(self), UnitCall::SetGrowState(*dual_node_ptr, grow_state)),
    {
        self.serial_module.set_grow_state(dual_node_ptr, grow_state);
    }

    pub fn compute_maximum_update_length_dual_node(
        &mut self,
        dual_node_ptr: &DualNodePtr,
        is_grow: bool,
        simultaneous_update: bool,
    ) -> (r: MaxUpdateLength)
        requires
            !old(self).is_fused,
        ensures
            old(self).handed_one(final(self), UnitCall::ComputeMaximumUpdateLengthDualNode(*dual_node_ptr, is_grow, simultaneous_update, r)),
    {
        self.serial_module.compute_maximum_update_length_dual_node(dual_node_ptr, is_grow, simultaneous_update)
    }

    pub fn compute_maximum_update_length(&mut self) -> (r: GroupMaxUpdateLength)
        requires
            !old(self).is_fused,
        ensures
            old(self).handed_one(final(self), UnitCall::ComputeMaximumUpdateLength(r@)),
    {
        self.serial_module.compute_maximum_update_length()
    }

    pub fn grow_dual_node(&mut self, dual_node_ptr: &DualNodePtr, length: Weight)
        requires
            !old(self).is_fused,
        ensures
            old(self).handed_one(final(self), UnitCall::GrowDualNode(*dual_node_ptr, length)),
    {
        self.serial_module.grow_dual_node(dual_node_ptr, length);
    }

    pub fn grow(&mut self, length: Weight)
        requires
            !old(self).is_fused,
        ensures
            old(self).handed_one(final(self), UnitCall::Grow(length)),
    {
        self.serial_module.grow(length);
    }

    pub fn load_edge_modifier(&mut self, edge_modifier: &Vec<(EdgeIndex, Weight)>)
        requires
            !old(self).is_fused,
        ensures
            old(self).handed_one(final(self), UnitCall::LoadEdgeModifier(edge_modifier@)),
    {
        self.serial_module.load_edge_modifier(edge_modifier);
    }

    /// Hands this unit's dual module the interfaces of its two children.
    pub fn fuse(&mut self, left: &Vec<Interface>, right: &Vec<Interface>)
        ensures
            old(self).handed_one(final(self), UnitCall::Fuse(interfaces_model(left@), interfaces_model(right@))),
    {
        self.serial_module.fuse(left, right);
    }

    /// Resets the dual module and the flags to those of a new decode: a leaf is
    /// active, no unit is fused.
    pub fn reset(&mut self, is_leaf: bool)
        ensures
            final(self).is_active == is_leaf,
            !final(self).is_fused,
            final(self).whole_range == old(self).whole_range,
            final(self).owning_range == old(self).owning_range,
            final(self).children == old(self).children,
            final(self).parent == old(self).parent,
            final(self).interfaces@ == old(self).interfaces@,
            final(self).handed() == old(self).handed().push(UnitCall::Clear),
    {
        self.clear();
        self.is_fused = false;
        self.is_active = is_leaf;
    }

    /// Grows the unit if it is live; leaves it untouched otherwise.
    pub fn grow_if_active(&mut self, length: Weight)
        ensures
            old(self).is_live() ==> old(self).handed_one(final(self), UnitCall::Grow(length)),
            !old(self).is_live() ==> *final(self) == *old(self),
    {
        if self.is_active && !self.is_fused {
            self.grow(length);
        }
    }

    /// Hands edge weight changes to the unit if it is live.
    pub fn load_edge_modifier_if_active(&mut self, edge_modifier: &Vec<(EdgeIndex, Weight)>)
        ensures
            old(self).is_live() ==> old(self).handed_one(final(self), UnitCall::LoadEdgeModifier(edge_modifier@)),
            !old(self).is_live() ==> *final(self) == *old(self),
    {
        if self.is_active && !self.is_fused {
            self.load_edge_modifier(edge_modifier);
        }
    }

    /// The unit's next blocking event if it is live, `None` otherwise.
    pub fn compute_maximum_update_length_if_active(&mut self) -> (r: Option<GroupMaxUpdateLength>)
        ensures
            old(self).is_live() ==> (r matches Some(g) && old(self).handed_one(final(self), UnitCall::ComputeMaximumUpdateLength(g@))),
            !old(self).is_live() ==> *final(self) == *old(self) && r is None,
    {
        if self.is_active && !self.is_fused {
            Some(self.compute_maximum_update_length())
        } else {
            None
        }
    }
}

/// The merge of a sequence of groups, starting from the empty group.
pub open spec fn merge_all(groups: Seq<GroupModel>) -> GroupModel
    decreases groups.len(),
{
    if groups.len() == 0 {
        GroupModel::Bound(Weight::MAX as int)
    } else {
        merge_groups(merge_all(groups.drop_last()), groups.last())
    }
}

/// Every group is empty: no conflict and no bound.
pub open spec fn all_empty(groups: Seq<GroupModel>) -> bool {
    forall|i: int| 0 <= i < groups.len() ==> #[trigger] groups[i] == GroupModel::Bound(Weight::MAX as int)
}

/// A merge of groups is empty exactly when every group is.
pub proof fn lemma_merge_all_empty(groups: Seq<GroupModel>)
    requires
        forall|i: int| 0 <= i < groups.len() ==> (#[trigger] groups[i] matches GroupModel::Bound(b) ==> b <= Weight::MAX as int),
    ensures
        merge_all(groups) == GroupModel::Bound(Weight::MAX as int) <==> all_empty(groups),
    decreases groups.len(),
{
    if groups.len() > 0 {
        let rest = groups.drop_last();
        assert forall|i: int| 0 <= i < rest.len() implies (#[trigger] rest[i] matches GroupModel::Bound(b) ==> b <= Weight::MAX as int) by {
            assert(rest[i] == groups[i]);
        }
        lemma_merge_all_empty(rest);
        lemma_merge_all_bounded(rest);
        let last = groups[groups.len() - 1];
        if all_empty(groups) {
            assert forall|i: int| 0 <= i < rest.len() implies #[trigger] rest[i] == GroupModel::Bound(Weight::MAX as int) by {
                assert(rest[i] == groups[i]);
            }
        }
        if merge_all(groups) == GroupModel::Bound(Weight::MAX as int) {
            assert forall|i: int| 0 <= i < groups.len() implies #[trigger] groups[i] == GroupModel::Bound(Weight::MAX as int) by {
                if i < rest.len() {
                    assert(rest[i] == groups[i]);
                }
            }
        }
    }
}

proof fn lemma_merge_all_bounded(groups: Seq<GroupModel>)
    requires
        forall|i: int| 0 <= i < groups.len() ==> (#[trigger] groups[i] matches GroupModel::Bound(b) ==> b <= Weight::MAX as int),
    ensures
        merge_all(groups) matches GroupModel::Bound(b) ==> b <= Weight::MAX as int,
    decreases groups.len(),
{
    if groups.len() > 0 {
        let rest = groups.drop_last();
        assert forall|i: int| 0 <= i < rest.len() implies (#[trigger] rest[i] matches GroupModel::Bound(b) ==> b <= Weight::MAX as int) by {
            assert(rest[i] == groups[i]);
        }
        lemma_merge_all_bounded(rest);
    }
}

/// Merges the groups reported by several units into one.
pub fn merge_group_max_update_lengths(groups: Vec<GroupMaxUpdateLength>) -> (r: GroupMaxUpdateLength)
    ensures
        r@ == merge_all(groups@.map_values(|g: GroupMaxUpdateLength| g@)),
{
    let ghost views = groups@.map_values(|g: GroupMaxUpdateLength| g@);
    let mut r = GroupMaxUpdateLength::new();
    let mut rest = groups;
    let ghost all = rest@;
    assert(all.len() == rest.len());
    let mut i: usize = 0;
    while rest.len() > 0
        invariant
            views.len() == all.len(),
            all.len() <= usize::MAX,
            views == all.map_values(|g: GroupMaxUpdateLength| g@),
            i + rest@.len() == all.len(),
            rest@ == all.subrange(i as int, all.len() as int),
            r@ == merge_all(views.subrange(0, i as int)),
        decreases rest@.len(),
    {
        let g = rest.remove(0);
        proof {
            assert(views.subrange(0, i as int + 1).drop_last() =~= views.subrange(0, i as int));
            assert(g == all[i as int]);
            assert(rest@ =~= all.subrange(i as int + 1, all.len() as int));
        }
        r.extend(g);
        i += 1;
    }
    assert(views.subrange(0, i as int) =~= views);
    r
}

} // verus!

verus! {

/// The parallel dual module.
pub struct DualModuleParallel<M> {
    /// the decoding graph
    pub initializer: SolverInitializer,
    /// one unit per partition, then one per fusion
    pub units: Vec<DualModuleParallelUnit<M>>,
    /// how the graph is partitioned
    pub config: DualModuleParallelConfig,
    /// the partition tree
    pub partition_info: PartitionInfo,
    /// the growth bound of the last report over all units, while no operation
    /// that changes the dual state has happened since
    pub reported_bound: Ghost<Option<int>>,
    /// the growth bound last reported for a single dual node, while no
    /// operation that changes the dual state has happened since
    pub reported_node_bound: Ghost<Option<(DualNodePtr, int)>>,
}

/// The growth bound that a group report allows, if it is a finite bound.
pub open spec fn bound_of(g: GroupModel) -> Option<int> {
    match g {
        GroupModel::Bound(b) => if b != Weight::MAX as int { Some(b) } else { None },
        GroupModel::Conflicts(_) => None,
    }
}

/// The growth bound that a single node's report allows, if it is one.
pub open spec fn node_bound_of(node: DualNodePtr, r: MaxUpdateLength) -> Option<(DualNodePtr, int)> {
    match r {
        MaxUpdateLength::NonZeroGrow(b) => Some((node, b as int)),
        _ => None,
    }
}

/// The flags `(is_active, is_fused)` of every unit after a reset.
pub open spec fn cleared_flags(flags: Seq<(bool, bool)>, leaf_count: int) -> Seq<(bool, bool)> {
    Seq::new(flags.len(), |u: int| (u < leaf_count, false))
}

impl<M> DualModuleParallel<M> {
    pub open spec fn leaf_count(&self) -> int {
        self.config.partitions@.len() as int
    }

    pub open spec fn unit_count(&self) -> int {
        unit_count(self.config.partitions@, self.config.fusions@)
    }

    pub open spec fn is_active(&self, u: int) -> bool {
        self.units@[u].is_active
    }

    pub open spec fn is_fused(&self, u: int) -> bool {
        self.units@[u].is_fused
    }

    /// Unit `u` is active or already merged into an active ancestor.
    pub open spec fn is_covered(&self, u: int) -> bool {
        self.is_active(u) || self.is_fused(u)
    }

    /// Unit `a` is unit `u` or lies above it.
    pub open spec fn is_ancestor_or_self(&self, a: int, u: int) -> bool {
        in_subtree(self.config.partitions@, self.config.fusions@, a, u)
    }

    /// The flags `(is_active, is_fused)` of every unit.
    pub open spec fn flags(&self) -> Seq<(bool, bool)> {
        self.units@.map_values(|unit: DualModuleParallelUnit<M>| (unit.is_active, unit.is_fused))
    }

    /// The unit that owns vertex `v`.
    pub open spec fn owner(&self, v: int) -> int {
        self.partition_info.vertex_to_owning_unit@[v] as int
    }

    /// The active units form a cut of the tree: leaves are covered, a fused unit
    /// is never active, and a unit is fused exactly when its parent is covered.
    pub open spec fn flags_wf(&self) -> bool {
        let np = self.leaf_count();
        let fs = self.config.fusions@;
        &&& forall|u: int| 0 <= u < self.unit_count() ==> (#[trigger] self.is_active(u) ==> !self.is_fused(u))
        &&& forall|u: int| 0 <= u < np ==> #[trigger] self.is_covered(u)
        &&& !self.is_fused(self.unit_count() - 1)
        &&& forall|k: int| 0 <= k < fs.len() ==> (#[trigger] self.is_covered(np + k) <==> self.is_fused(fs[k].0 as int))
            && (self.is_covered(np + k) <==> self.is_fused(fs[k].1 as int))
    }

    /// The tree, the units and their flags agree.
    pub open spec fn wf(&self) -> bool {
        let ps = self.config.partitions@;
        let fs = self.config.fusions@;
        let vertex_num = self.initializer.vertex_num as int;
        &&& valid_partition_config(ps, fs, vertex_num)
        &&& self.partition_info.matches(ps, fs, vertex_num)
        &&& self.units@.len() == self.unit_count()
        &&& forall|u: int| 0 <= u < self.unit_count() ==> {
            &&& (#[trigger] self.units@[u]).whole_range == whole_range_of(ps, fs, u)
            &&& self.units@[u].owning_range == owning_range_of(ps, fs, u)
            &&& self.units@[u].children == children_of(ps, fs, u)
            &&& self.units@[u].parent == self.partition_info.units@[u].parent
        }
        &&& self.flags_wf()
    }

    /// `b` has the same tree and flags as `self`; only dual modules changed.
    pub open spec fn same_but_modules(&self, b: &Self) -> bool {
        &&& self.initializer == b.initializer
        &&& self.config == b.config
        &&& self.partition_info == b.partition_info
        &&& self.units@.len() == b.units@.len()
        &&& forall|u: int| 0 <= u < self.units@.len() ==> (#[trigger] self.units@[u]).same_but_module(&b.units@[u])
    }

    /// A dual node with representative vertex `v` can be routed: `v` is a vertex
    /// and its owner is active or merged into an active ancestor.
    pub open spec fn can_route(&self, v: int) -> bool {
        0 <= v < self.initializer.vertex_num && self.is_covered(self.owner(v))
    }

    /// `a` is the active unit responsible for the vertex `v`.
    pub open spec fn is_active_ancestor(&self, a: int, v: int) -> bool {
        0 <= a < self.unit_count() && self.is_active(a) && self.is_ancestor_or_self(a, self.owner(v))
    }

    /// `b` has the same graph, configuration, tree and number of units.
    pub open spec fn same_header(&self, b: &Self) -> bool {
        &&& self.initializer == b.initializer
        &&& self.config == b.config
        &&& self.partition_info == b.partition_info
        &&& self.units@.len() == b.units@.len()
    }

    /// The flags stay well formed when only dual modules change.
    proof fn lemma_same_flags_wf(&self, after: &Self)
        requires
            self.wf(),
            self.same_but_modules(after),
        ensures
            after.wf(),
    {
        assert forall|u: int| 0 <= u < self.units@.len() implies #[trigger] after.is_active(u) == self.is_active(u)
            && after.is_fused(u) == self.is_fused(u) by {
            assert(self.units@[u].same_but_module(&after.units@[u]));
        }
        let np = self.leaf_count();
        let fs = self.config.fusions@;
        assert forall|k: int| 0 <= k < fs.len() implies (#[trigger] after.is_covered(np + k) <==> after.is_fused(fs[k].0 as int))
            && (after.is_covered(np + k) <==> after.is_fused(fs[k].1 as int)) by {
            assert(fs[k].0 < np + k);
            assert(self.is_covered(np + k) <==> self.is_fused(fs[k].0 as int));
            assert(after.is_active(np + k) == self.is_active(np + k));
            assert(after.is_fused(fs[k].0 as int) == self.is_fused(fs[k].0 as int));
            assert(after.is_fused(fs[k].1 as int) == self.is_fused(fs[k].1 as int));
        }
        assert(after.is_fused(after.unit_count() - 1) == self.is_fused(self.unit_count() - 1));
        assert forall|u: int| 0 <= u < np implies #[trigger] after.is_covered(u) by {
            assert(after.is_active(u) == self.is_active(u));
            assert(self.is_covered(u));
        }
        assert forall|u: int| 0 <= u < after.unit_count() implies (#[trigger] after.is_active(u) ==> !after.is_fused(u)) by {
            assert(after.is_active(u) == self.is_active(u));
        }
        assert forall|u: int| 0 <= u < after.unit_count() implies {
            &&& (#[trigger] after.units@[u]).whole_range == whole_range_of(after.config.partitions@, fs, u)
            &&& after.units@[u].owning_range == owning_range_of(after.config.partitions@, fs, u)
            &&& after.units@[u].children == children_of(after.config.partitions@, fs, u)
            &&& after.units@[u].parent == after.partition_info.units@[u].parent
        } by {
            assert(self.units@[u].same_but_module(&after.units@[u]));
        }
    }
}

proof fn lemma_covered_parent<M>(m: &DualModuleParallel<M>, u: int)
    requires
        m.wf(),
        0 <= u < m.unit_count(),
        m.is_fused(u),
    ensures
        m.units@[u].parent is Some,
        u < m.units@[u].parent->Some_0 < m.unit_count(),
        m.is_covered(m.units@[u].parent->Some_0 as int),
        m.is_ancestor_or_self(m.units@[u].parent->Some_0 as int, u),
{
    let ps = m.config.partitions@;
    let fs = m.config.fusions@;
    assert(m.partition_info.units@[u].matches(ps, fs, u));
    let p = m.units@[u].parent->Some_0 as int;
    let k = p - ps.len();
    assert(fs[k].0 < ps.len() + k);
    assert(m.is_covered(ps.len() + k));
}

/// Two units that both lie above a unit lie one above the other.
proof fn lemma_ancestors_comparable(ps: Seq<VertexRange>, fs: Seq<(usize, usize)>, vertex_num: int, info: &PartitionInfo, a: int, b: int, o: int)
    requires
        valid_partition_config(ps, fs, vertex_num),
        info.matches(ps, fs, vertex_num),
        0 <= a < unit_count(ps, fs),
        0 <= b < unit_count(ps, fs),
        in_subtree(ps, fs, a, o),
        in_subtree(ps, fs, b, o),
    ensures
        in_subtree(ps, fs, a, b) || in_subtree(ps, fs, b, a),
    decreases unit_count(ps, fs) - o,
{
    if o != a && o != b {
        crate::partition::lemma_subtree_bounded(ps, fs, vertex_num, a, o);
        crate::planner::lemma_parent_in_subtree(ps, fs, vertex_num, info, a, o);
        crate::planner::lemma_parent_in_subtree(ps, fs, vertex_num, info, b, o);
        crate::planner::lemma_parent_of(ps, fs, vertex_num, info, o);
        let p = info.units@[o].parent->Some_0 as int;
        lemma_ancestors_comparable(ps, fs, vertex_num, info, a, b, p);
    }
}

/// Above a unit that is not fused, no unit is active or fused.
proof fn lemma_uncovered_above<M>(m: &DualModuleParallel<M>, a: int, w: int)
    requires
        m.wf(),
        0 <= a < m.unit_count(),
        m.is_ancestor_or_self(a, w),
        a != w,
        !m.is_fused(w),
    ensures
        !m.is_covered(a),
    decreases a,
{
    let ps = m.config.partitions@;
    let fs = m.config.fusions@;
    let k = a - ps.len();
    assert(fs[k].0 < ps.len() + k);
    let l = fs[k].0 as int;
    let r = fs[k].1 as int;
    assert(a >= ps.len());
    assert(m.flags_wf());
    assert(0 <= k < fs.len());
    assert(m.is_covered(m.leaf_count() + k) <==> m.is_fused(fs[k].0 as int));
    assert(m.is_covered(ps.len() + k) <==> m.is_fused(l));
    assert(m.is_covered(ps.len() + k) <==> m.is_fused(r));
    if w != l && w != r {
        if m.is_ancestor_or_self(l, w) {
            lemma_uncovered_above(m, l, w);
            assert(!m.is_fused(l));
        } else {
            lemma_uncovered_above(m, r, w);
            assert(!m.is_fused(r));
        }
    }
}

/// At most one unit on any path from the root to a leaf is active: no active
/// unit has an active unit above it, and no active unit is fused.
pub proof fn lemma_active_ancestor_unique<M>(m: &DualModuleParallel<M>, a: int, u: int)
    requires
        m.wf(),
        0 <= a < m.unit_count(),
        0 <= u < m.unit_count(),
        m.is_ancestor_or_self(a, u),
        a != u,
        m.is_active(u),
    ensures
        !m.is_active(a),
        !m.is_fused(u),
{
    lemma_uncovered_above(m, a, u);
}

/// A unit made by a fusion that is active has both children fused and inactive.
pub proof fn lemma_active_parent_children_fused<M>(m: &DualModuleParallel<M>, p: int)
    requires
        m.wf(),
        m.leaf_count() <= p < m.unit_count(),
        m.is_active(p),
    ensures
        m.is_fused(m.config.fusions@[p - m.leaf_count()].0 as int),
        m.is_fused(m.config.fusions@[p - m.leaf_count()].1 as int),
        !m.is_active(m.config.fusions@[p - m.leaf_count()].0 as int),
        !m.is_active(m.config.fusions@[p - m.leaf_count()].1 as int),
{
    let k = p - m.leaf_count();
    assert(m.is_covered(m.leaf_count() + k));
    assert(m.config.fusions@[k].0 < m.leaf_count() + k);
}

/// Changing only the recorded bounds keeps the module well formed.
proof fn lemma_only_bounds_changed<M>(a: &DualModuleParallel<M>, b: &DualModuleParallel<M>)
    requires
        a.initializer == b.initializer,
        a.config == b.config,
        a.partition_info == b.partition_info,
        a.units == b.units,
    ensures
        a.wf() ==> b.wf(),
        a.flags() == b.flags(),
        a.units@ == b.units@,
{
    assert(a.units@ =~= b.units@);
    if a.wf() {
        assert(a.same_but_modules(b)) by {
            assert forall|u: int| 0 <= u < a.units@.len() implies (#[trigger] a.units@[u]).same_but_module(&b.units@[u]) by {}
        }
        a.lemma_same_flags_wf(b);
    }
    assert(a.flags() =~= b.flags());
}

/// With leaves active and nothing fused, the flags are well formed.
proof fn lemma_cleared_flags_wf<M>(m: &DualModuleParallel<M>)
    requires
        valid_partition_config(m.config.partitions@, m.config.fusions@, m.initializer.vertex_num as int),
        m.units@.len() == m.unit_count(),
        forall|u: int| 0 <= u < m.unit_count() ==> #[trigger] m.is_active(u) == (u < m.leaf_count()) && !m.is_fused(u),
    ensures
        m.flags_wf(),
{
    let np = m.leaf_count();
    let fs = m.config.fusions@;
    assert forall|k: int| 0 <= k < fs.len() implies (#[trigger] m.is_covered(np + k) <==> m.is_fused(fs[k].0 as int))
        && (m.is_covered(np + k) <==> m.is_fused(fs[k].1 as int)) by {
        assert(fs[k].0 < np + k);
        assert(m.is_active(np + k) == (np + k < np));
        assert(m.is_active(fs[k].0 as int) == (fs[k].0 < np));
        assert(m.is_active(fs[k].1 as int) == (fs[k].1 < np));
    }
    assert forall|u: int| 0 <= u < np implies #[trigger] m.is_covered(u) by {
        assert(m.is_active(u) == (u < np));
    }
    assert(m.is_active(m.unit_count() - 1) == (m.unit_count() - 1 < np));
}

/// Resetting twice leaves the flags as resetting once does.
pub proof fn lemma_clear_idempotent(flags: Seq<(bool, bool)>, leaf_count: int)
    ensures
        cleared_flags(cleared_flags(flags, leaf_count), leaf_count) == cleared_flags(flags, leaf_count),
{
    assert(cleared_flags(cleared_flags(flags, leaf_count), leaf_count) =~= cleared_flags(flags, leaf_count));
}

} // verus!

verus! {

impl<M: DualModuleImpl> DualModuleParallel<M> {
    /// From `self` to `after`, unit `a`'s dual module was handed `call` and
    /// nothing else changed.
    pub open spec fn handed_to(&self, after: &Self, a: int, call: UnitCall) -> bool {
        &&& self.same_header(after)
        &&& 0 <= a < self.units@.len()
        &&& self.units@[a].handed_one(&after.units@[a], call)
        &&& forall|u: int| 0 <= u < self.units@.len() && u != a ==> after.units@[u] == #[trigger] self.units@[u]
    }

    /// The active unit responsible for a dual node: the first active unit met
    /// walking up from the owner of its representative vertex.
    pub fn find_active_ancestor(&self, dual_node_ptr: &DualNodePtr) -> (r: usize)
        requires
            self.wf(),
            self.can_route(dual_node_ptr.representative_vertex as int),
        ensures
            self.is_active_ancestor(r as int, dual_node_ptr.representative_vertex as int),
            forall|b: int| #[trigger] self.is_active_ancestor(b, dual_node_ptr.representative_vertex as int) ==> b == r,
            self.units@[r as int].whole_range.has(dual_node_ptr.representative_vertex as int),
    {
        let ghost ps = self.config.partitions@;
        let ghost fs = self.config.fusions@;
        let ghost v = dual_node_ptr.representative_vertex as int;
        let ghost start = self.owner(v);
        proof {
            assert(owner_of(ps, fs, v, start));
        }
        let mut current = self.partition_info.vertex_to_owning_unit[dual_node_ptr.representative_vertex];
        while !self.units[current].is_active
            invariant
                self.wf(),
                ps == self.config.partitions@,
                fs == self.config.fusions@,
                0 <= start < self.unit_count(),
                0 <= current < self.unit_count(),
                self.is_covered(current as int),
                self.is_ancestor_or_self(current as int, start),
            decreases self.unit_count() - current,
        {
            let ghost old_current = current as int;
            proof {
                assert(self.is_fused(old_current));
                lemma_covered_parent(self, old_current);
                let p = self.units@[old_current].parent->Some_0 as int;
                assert(children_built_first(ps, fs));
                lemma_subtree_transitive(ps, fs, self.initializer.vertex_num as int, p, old_current, start);
            }
            current = self.units[current].parent.unwrap();
        }
        proof {
            let vn = self.initializer.vertex_num as int;
            crate::partition::lemma_subtree_owning(ps, fs, vn, current as int, start, v);
            assert forall|b: int| #[trigger] self.is_active_ancestor(b, v) implies b == current by {
                lemma_ancestors_comparable(ps, fs, vn, &self.partition_info, b, current as int, start);
                if b != current as int {
                    if in_subtree(ps, fs, b, current as int) {
                        lemma_active_ancestor_unique(self, b, current as int);
                    } else {
                        lemma_active_ancestor_unique(self, current as int, b);
                    }
                }
            }
        }
        current
    }

    /// Resets every unit: each dual module is handed `clear`, leaves are
    /// active and no unit is fused.
    pub fn clear(&mut self)
        requires
            old(self).wf(),
        ensures
            final(self).reported_bound@ is None,
            final(self).reported_node_bound@ is None,
            final(self).wf(),
            final(self).flags() == cleared_flags(old(self).flags(), old(self).leaf_count()),
            final(self).initializer == old(self).initializer,
            final(self).config == old(self).config,
            final(self).partition_info == old(self).partition_info,
            final(self).units@.len() == old(self).units@.len(),
            forall|u: int| 0 <= u < final(self).units@.len() ==> {
                &&& (#[trigger] final(self).units@[u]).whole_range == old(self).units@[u].whole_range
                &&& final(self).units@[u].owning_range == old(self).units@[u].owning_range
                &&& final(self).units@[u].children == old(self).units@[u].children
                &&& final(self).units@[u].parent == old(self).units@[u].parent
                &&& final(self).units@[u].interfaces@ == old(self).units@[u].interfaces@
                &&& final(self).units@[u].handed() == old(self).units@[u].handed().push(UnitCall::Clear)
            },
    {
        let ghost before = *self;
        let np = self.config.partitions.len();
        let n = self.units.len();
        let mut u: usize = 0;
        while u < n
            invariant
                n == self.units@.len(),
                n == before.units@.len(),
                np == before.leaf_count(),
                u <= n,
                self.initializer == before.initializer,
                self.config == before.config,
                self.partition_info == before.partition_info,
                forall|w: int| 0 <= w < n ==> {
                    &&& (#[trigger] self.units@[w]).whole_range == before.units@[w].whole_range
                    &&& self.units@[w].owning_range == before.units@[w].owning_range
                    &&& self.units@[w].children == before.units@[w].children
                    &&& self.units@[w].parent == before.units@[w].parent
                    &&& self.units@[w].interfaces@ == before.units@[w].interfaces@
                    &&& (w < u ==> self.units@[w].handed() == before.units@[w].handed().push(UnitCall::Clear))
                    &&& (w >= u ==> self.units@[w] == before.units@[w])
                },
                forall|w: int| 0 <= w < u ==> self.units@[w].is_active == (w < np) && !self.units@[w].is_fused,
            decreases n - u,
        {
            self.units[u].reset(u < np);
            u += 1;
        }
        proof {
            assert(self.flags() =~= cleared_flags(before.flags(), before.leaf_count()));
            lemma_cleared_flags_wf(self);
        }
        let ghost settled = *self;
        self.reported_bound = Ghost(None);
        self.reported_node_bound = Ghost(None);
        proof {
            lemma_only_bounds_changed(&settled, self);
        }
    }

    /// From `self` to `after`, only the dual module of the active unit
    /// responsible for vertex `v` changed, and it was handed `call`; the other
    /// units, the tree and all flags stay as they were.
    pub open spec fn routed(&self, after: &Self, v: int, call: UnitCall) -> bool {
        exists|a: int| #[trigger] self.is_active_ancestor(a, v) && self.handed_to(after, a, call)
    }

    proof fn lemma_routed(&self, after: &Self, a: usize, v: int, call: UnitCall)
        requires
            self.wf(),
            self.is_active_ancestor(a as int, v),
            self.handed_to(after, a as int, call),
        ensures
            self.routed(after, v, call),
            after.wf(),
    {
        assert(self.same_but_modules(after)) by {
            assert forall|u: int| 0 <= u < self.units@.len() implies (#[trigger] self.units@[u]).same_but_module(&after.units@[u]) by {}
        }
        self.lemma_same_flags_wf(after);
    }

    pub fn add_dual_node(&mut self, dual_node_ptr: &DualNodePtr)
        requires
            old(self).wf(),
            old(self).can_route(dual_node_ptr.representative_vertex as int),
        ensures
            final(self).reported_bound@ is None,
            final(self).reported_node_bound@ is None,
            final(self).wf(),
            old(self).routed(final(self), dual_node_ptr.representative_vertex as int, UnitCall::AddDualNode(*dual_node_ptr)),
    {
        let a = self.find_active_ancestor(dual_node_ptr);
        let ghost before = *self;
        self.units[a].add_dual_node(dual_node_ptr);
        proof {
            before.lemma_routed(self, a, dual_node_ptr.representative_vertex as int, UnitCall::AddDualNode(*dual_node_ptr));
        }
        let ghost settled = *self;
        self.reported_bound = Ghost(None);
        self.reported_node_bound = Ghost(None);
        proof {
            lemma_only_bounds_changed(&settled, self);
        }
    }

    pub fn remove_blossom(&mut self, dual_node_ptr: DualNodePtr)
        requires
            old(self).wf(),
            old(self).can_route(dual_node_ptr.representative_vertex as int),
        ensures
            final(self).reported_bound@ is None,
            final(self).reported_node_bound@ is None,
            final(self).wf(),
            old(self).routed(final(self), dual_node_ptr.representative_vertex as int, UnitCall::RemoveBlossom(dual_node_ptr)),
    {
        let a = self.find_active_ancestor(&dual_node_ptr);
        let ghost before = *self;
        self.units[a].remove_blossom(dual_node_ptr);
        proof {
            before.lemma_routed(self, a, dual_node_ptr.representative_vertex as int, UnitCall::RemoveBlossom(dual_node_ptr));
        }
        let ghost settled = *self;
        self.reported_bound = Ghost(None);
        self.reported_node_bound = Ghost(None);
        proof {
            lemma_only_bounds_changed(&settled, self);
        }
    }

    pub fn set_grow_state(&mut self, dual_node_ptr: &DualNodePtr, grow_state: DualNodeGrowState)
        requires
            old(self).wf(),
            old(self).can_route(dual_node_ptr.representative_vertex as int),
        ensures
            final(self).reported_bound@ is None,
            final(self).reported_node_bound@ is None,
            final(self).wf(),
            old(self).routed(final(self), dual_node_ptr.representative_vertex as int,
                UnitCall::SetGrowState(*dual_node_ptr, grow_state)),
    {
        let a = self.find_active_ancestor(dual_node_ptr);
        let ghost before = *self;
        self.units[a].set_grow_state(dual_node_ptr, grow_state);
        proof {
            before.lemma_routed(self, a, dual_node_ptr.representative_vertex as int, UnitCall::SetGrowState(*dual_node_ptr, grow_state));
        }
        let ghost settled = *self;
        self.reported_bound = Ghost(None);
        self.reported_node_bound = Ghost(None);
        proof {
            lemma_only_bounds_changed(&settled, self);
        }
    }

    /// The next blocking event of one dual node: the answer of the unit
    /// responsible for it.
    pub fn compute_maximum_update_length_dual_node(
        &mut self,
        dual_node_ptr: &DualNodePtr,
        is_grow: bool,
        simultaneous_update: bool,
    ) -> (r: MaxUpdateLength)
        requires
            old(self).wf(),
            old(self).can_route(dual_node_ptr.representative_vertex as int),
        ensures
            final(self).reported_node_bound@ == node_bound_of(*dual_node_ptr, r),
            final(self).reported_bound@ == old(self).reported_bound@,
            final(self).wf(),
            old(self).routed(final(self), dual_node_ptr.representative_vertex as int,
                UnitCall::ComputeMaximumUpdateLengthDualNode(*dual_node_ptr, is_grow, simultaneous_update, r)),
    {
        let a = self.find_active_ancestor(dual_node_ptr);
        let ghost before = *self;
        let r = self.units[a].compute_maximum_update_length_dual_node(dual_node_ptr, is_grow, simultaneous_update);
        proof {
            before.lemma_routed(self, a, dual_node_ptr.representative_vertex as int,
                UnitCall::ComputeMaximumUpdateLengthDualNode(*dual_node_ptr, is_grow, simultaneous_update, r));
        }
        let ghost settled = *self;
        self.reported_node_bound = Ghost(node_bound_of(*dual_node_ptr, r));
        proof {
            lemma_only_bounds_changed(&settled, self);
        }
        r
    }

    pub fn grow_dual_node(&mut self, dual_node_ptr: &DualNodePtr, length: Weight)
        requires
            old(self).reported_node_bound@ matches Some((node, b)) && node == *dual_node_ptr && length <= b,
            old(self).wf(),
            old(self).can_route(dual_node_ptr.representative_vertex as int),
        ensures
            final(self).reported_bound@ is None,
            final(self).reported_node_bound@ is None,
            final(self).wf(),
            old(self).routed(final(self), dual_node_ptr.representative_vertex as int, UnitCall::GrowDualNode(*dual_node_ptr, length)),
    {
        let a = self.find_active_ancestor(dual_node_ptr);
        let ghost before = *self;
        self.units[a].grow_dual_node(dual_node_ptr, length);
        proof {
            before.lemma_routed(self, a, dual_node_ptr.representative_vertex as int, UnitCall::GrowDualNode(*dual_node_ptr, length));
        }
        let ghost settled = *self;
        self.reported_bound = Ghost(None);
        self.reported_node_bound = Ghost(None);
        proof {
            lemma_only_bounds_changed(&settled, self);
        }
    }
}

} // verus!

verus! {

/// One unit of a fan-out: a live unit's module was handed `call`, any other
/// unit stayed as it was.
pub open spec fn fan_step<M: DualModuleImpl>(before: DualModuleParallelUnit<M>, after: DualModuleParallelUnit<M>, call: UnitCall) -> bool {
    if before.is_live() {
        before.handed_one(&after, call)
    } else {
        after == before
    }
}

/// One unit of a report round: a live unit's module was asked for its next
/// blocking event, any other unit stayed as it was.
pub open spec fn report_step<M: DualModuleImpl>(before: DualModuleParallelUnit<M>, after: DualModuleParallelUnit<M>) -> bool {
    if before.is_live() {
        before.handed_one(&after, UnitCall::ComputeMaximumUpdateLength(last_report(after)))
    } else {
        after == before
    }
}

/// What a unit's module answered last, if its last call was a report.
pub open spec fn last_report<M: DualModuleImpl>(unit: DualModuleParallelUnit<M>) -> GroupModel {
    match unit.handed().last() {
        UnitCall::ComputeMaximumUpdateLength(g) => g,
        _ => GroupModel::Bound(Weight::MAX as int),
    }
}

/// The answers of the units that were live in `before`, in unit order.
pub open spec fn live_reports<M: DualModuleImpl>(before: Seq<DualModuleParallelUnit<M>>, after: Seq<DualModuleParallelUnit<M>>) -> Seq<GroupModel>
    decreases before.len(),
{
    if before.len() == 0 || after.len() != before.len() {
        Seq::empty()
    } else {
        let earlier = live_reports(before.drop_last(), after.drop_last());
        if before.last().is_live() {
            earlier.push(last_report(after.last()))
        } else {
            earlier
        }
    }
}

impl<M: DualModuleImpl> DualModuleParallel<M> {
    /// Every live unit's module was handed `call`; nothing else changed.
    pub open spec fn fanned_out(&self, after: &Self, call: UnitCall) -> bool {
        &&& self.same_header(after)
        &&& forall|u: int| 0 <= u < self.units@.len() ==> fan_step(#[trigger] self.units@[u], after.units@[u], call)
    }

    /// Every live unit's module was asked for its next blocking event; nothing
    /// else changed.
    pub open spec fn reported(&self, after: &Self) -> bool {
        &&& self.same_header(after)
        &&& forall|u: int| 0 <= u < self.units@.len() ==> report_step(#[trigger] self.units@[u], after.units@[u])
    }

    /// The next blocking event over all live units: each live unit's module
    /// reports its own, and the reports are merged in unit order.
    pub fn compute_maximum_update_length(&mut self) -> (r: GroupMaxUpdateLength)
        requires
            old(self).wf(),
        ensures
            final(self).reported_bound@ == bound_of(r@),
            final(self).reported_node_bound@ == old(self).reported_node_bound@,
            final(self).wf(),
            old(self).reported(final(self)),
            r@ == merge_all(live_reports(old(self).units@, final(self).units@)),
            r.is_empty_spec() <==> all_empty(live_reports(old(self).units@, final(self).units@)),
    {
        let ghost before = *self;
        let n = self.units.len();
        let mut reports: Vec<GroupMaxUpdateLength> = Vec::new();
        let mut u: usize = 0;
        while u < n
            invariant
                n == self.units@.len(),
                n == before.units@.len(),
                u <= n,
                before.wf(),
                before.same_header(self),
                self.reported_node_bound == before.reported_node_bound,
                forall|w: int| 0 <= w < n ==> (w < u ==> report_step(before.units@[w], #[trigger] self.units@[w]))
                    && (w >= u ==> self.units@[w] == before.units@[w]),
                reports@.map_values(|g: GroupMaxUpdateLength| g@)
                    == live_reports(before.units@.subrange(0, u as int), self.units@.subrange(0, u as int)),
            decreases n - u,
        {
            let ghost mid = self.units@;
            let ghost earlier = reports@;
            let answer = self.units[u].compute_maximum_update_length_if_active();
            if let Some(report) = answer {
                reports.push(report);
            }
            proof {
                let b = before.units@.subrange(0, u as int + 1);
                let a = self.units@.subrange(0, u as int + 1);
                assert(b.drop_last() =~= before.units@.subrange(0, u as int));
                assert(a.drop_last() =~= mid.subrange(0, u as int));
                assert(mid[u as int] == before.units@[u as int]);
                if before.units@[u as int].is_live() {
                    assert(reports@.map_values(|g: GroupMaxUpdateLength| g@)
                        =~= earlier.map_values(|g: GroupMaxUpdateLength| g@).push(answer->Some_0@));
                } else {
                    assert(reports@ == earlier);
                }
            }
            u += 1;
        }
        proof {
            assert(before.units@.subrange(0, n as int) =~= before.units@);
            assert(self.units@.subrange(0, n as int) =~= self.units@);
            assert(before.same_but_modules(self)) by {
                assert forall|w: int| 0 <= w < n implies (#[trigger] before.units@[w]).same_but_module(&self.units@[w]) by {
                    assert(report_step(before.units@[w], self.units@[w]));
                }
            }
            before.lemma_same_flags_wf(self);
        }
        proof {
            let views = reports@.map_values(|g: GroupMaxUpdateLength| g@);
            assert forall|i: int| 0 <= i < views.len() implies (#[trigger] views[i] matches GroupModel::Bound(b) ==> b <= Weight::MAX as int) by {
                assert(views[i] == reports@[i]@);
            }
            lemma_merge_all_empty(views);
        }
        let r = merge_group_max_update_lengths(reports);
        let ghost settled = *self;
        self.reported_bound = Ghost(bound_of(r@));
        proof {
            lemma_only_bounds_changed(&settled, self);
        }
        r
    }

    /// Grows every live unit by `length`.
    pub fn grow(&mut self, length: Weight)
        requires
            old(self).reported_bound@ matches Some(b) && length <= b,
            old(self).wf(),
        ensures
            final(self).reported_bound@ is None,
            final(self).reported_node_bound@ is None,
            final(self).wf(),
            old(self).fanned_out(final(self), UnitCall::Grow(length)),
    {
        let ghost before = *self;
        let n = self.units.len();
        let mut u: usize = 0;
        while u < n
            invariant
                n == self.units@.len(),
                n == before.units@.len(),
                u <= n,
                before.wf(),
                before.same_header(self),
                forall|w: int| 0 <= w < n ==> (w < u ==> fan_step(before.units@[w], #[trigger] self.units@[w], UnitCall::Grow(length)))
                    && (w >= u ==> self.units@[w] == before.units@[w]),
            decreases n - u,
        {
            self.units[u].grow_if_active(length);
            u += 1;
        }
        proof {
            before.lemma_fanned_out_wf(self, UnitCall::Grow(length));
        }
        let ghost settled = *self;
        self.reported_bound = Ghost(None);
        self.reported_node_bound = Ghost(None);
        proof {
            lemma_only_bounds_changed(&settled, self);
        }
    }

    /// Hands the edge weight changes to every live unit.
    pub fn load_edge_modifier(&mut self, edge_modifier: &Vec<(EdgeIndex, Weight)>)
        requires
            old(self).wf(),
        ensures
            final(self).reported_bound@ is None,
            final(self).reported_node_bound@ is None,
            final(self).wf(),
            old(self).fanned_out(final(self), UnitCall::LoadEdgeModifier(edge_modifier@)),
    {
        let ghost before = *self;
        let n = self.units.len();
        let mut u: usize = 0;
        while u < n
            invariant
                n == self.units@.len(),
                n == before.units@.len(),
                u <= n,
                before.wf(),
                before.same_header(self),
                forall|w: int| 0 <= w < n ==> (w < u ==> fan_step(before.units@[w], #[trigger] self.units@[w],
                    UnitCall::LoadEdgeModifier(edge_modifier@))) && (w >= u ==> self.units@[w] == before.units@[w]),
            decreases n - u,
        {
            self.units[u].load_edge_modifier_if_active(edge_modifier);
            u += 1;
        }
        proof {
            before.lemma_fanned_out_wf(self, UnitCall::LoadEdgeModifier(edge_modifier@));
        }
        let ghost settled = *self;
        self.reported_bound = Ghost(None);
        self.reported_node_bound = Ghost(None);
        proof {
            lemma_only_bounds_changed(&settled, self);
        }
    }

    proof fn lemma_fanned_out_wf(&self, after: &Self, call: UnitCall)
        requires
            self.wf(),
            self.fanned_out(after, call),
        ensures
            after.wf(),
    {
        assert(self.same_but_modules(after)) by {
            assert forall|w: int| 0 <= w < self.units@.len() implies (#[trigger] self.units@[w]).same_but_module(&after.units@[w]) by {
                assert(fan_step(self.units@[w], after.units@[w], call));
            }
        }
        self.lemma_same_flags_wf(after);
    }
}

} // verus!

verus! {

impl<M: DualModuleImpl> DualModuleParallel<M> {
    /// Fuses the two children of unit `parent` into it: the parent's module
    /// takes over the children's interfaces, the children become fused and
    /// inactive, and the parent becomes active.
    pub fn fuse(&mut self, parent: usize)
        requires
            old(self).wf(),
            old(self).leaf_count() <= parent < old(self).unit_count(),
            old(self).is_active(old(self).config.fusions@[parent - old(self).leaf_count()].0 as int),
            old(self).is_active(old(self).config.fusions@[parent - old(self).leaf_count()].1 as int),
        ensures
            final(self).reported_bound@ is None,
            final(self).reported_node_bound@ is None,
            final(self).wf(),
            final(self).initializer == old(self).initializer,
            final(self).config == old(self).config,
            final(self).partition_info == old(self).partition_info,
            final(self).flags() == old(self).flags()
                .update(old(self).config.fusions@[parent - old(self).leaf_count()].0 as int, (false, true))
                .update(old(self).config.fusions@[parent - old(self).leaf_count()].1 as int, (false, true))
                .update(parent as int, (true, false)),
            forall|u: int| 0 <= u < old(self).unit_count() && old(self).is_fused(u) ==> final(self).is_fused(u),
            forall|u: int| 0 <= u < old(self).unit_count() && u != parent ==> {
                &&& (#[trigger] final(self).units@[u]).serial_module == old(self).units@[u].serial_module
                &&& final(self).units@[u].handed() == old(self).units@[u].handed()
            },
            final(self).units@[parent as int].handed() == old(self).units@[parent as int].handed().push(UnitCall::Fuse(
                interfaces_model(old(self).units@[old(self).config.fusions@[parent - old(self).leaf_count()].0 as int].interfaces@),
                interfaces_model(old(self).units@[old(self).config.fusions@[parent - old(self).leaf_count()].1 as int].interfaces@),
            )),
    {
        let ghost before = *self;
        let ghost ps = self.config.partitions@;
        let ghost fs = self.config.fusions@;
        let np = self.config.partitions.len();
        let (left, right) = self.config.fusions[parent - np];
        proof {
            let k = parent - np;
            assert(fs[k].0 < np + k && fs[k].1 < np + k && fs[k].0 != fs[k].1) by {
                assert(!crate::partition::fused_twice(fs, fs[k].0 as int));
            }
            assert(self.is_covered(np + k) <==> self.is_fused(left as int));
            assert(!self.is_covered(parent as int));
        }
        let left_interfaces = copy_interfaces(&self.units[left].interfaces);
        let right_interfaces = copy_interfaces(&self.units[right].interfaces);
        self.units[parent].fuse(&left_interfaces, &right_interfaces);
        self.units[left].is_fused = true;
        self.units[left].is_active = false;
        self.units[right].is_fused = true;
        self.units[right].is_active = false;
        self.units[parent].is_active = true;
        proof {
            let n = self.unit_count();
            let after = *self;
            assert(after.flags() =~= before.flags().update(left as int, (false, true)).update(right as int, (false, true))
                .update(parent as int, (true, false)));
            assert forall|u: int| 0 <= u < n && u != left && u != right && u != parent implies
                #[trigger] after.is_active(u) == before.is_active(u) && after.is_fused(u) == before.is_fused(u) by {}
            // a fused unit other than the children keeps a covered parent
            assert forall|k: int| 0 <= k < fs.len() implies (#[trigger] after.is_covered(np + k) <==> after.is_fused(fs[k].0 as int))
                && (after.is_covered(np + k) <==> after.is_fused(fs[k].1 as int)) by {
                assert(fs[k].0 < np + k && fs[k].1 < np + k);
                assert(before.is_covered(np + k) <==> before.is_fused(fs[k].0 as int));
                assert(before.is_covered(np + k) <==> before.is_fused(fs[k].1 as int));
                if np + k != parent {
                    let kp = parent - np;
                    if fs[k].0 == left || fs[k].0 == right || fs[k].1 == left || fs[k].1 == right {
                        // the children of `parent` are fused only by `parent`
                        assert(fuses(fs, k, left as int) || fuses(fs, k, right as int));
                        assert(fuses(fs, kp, left as int) && fuses(fs, kp, right as int));
                        assert(!crate::partition::fused_twice(fs, left as int));
                        assert(!crate::partition::fused_twice(fs, right as int));
                        assert(k < kp || kp < k);
                    }
                    if fs[k].0 == parent || fs[k].1 == parent {
                        assert(!before.is_fused(parent as int));
                    }
                }
            }
            assert forall|u: int| 0 <= u < np implies #[trigger] after.is_covered(u) by {
                assert(before.is_covered(u));
            }
            assert forall|u: int| 0 <= u < n implies (#[trigger] after.is_active(u) ==> !after.is_fused(u)) by {
                assert(before.is_active(u) ==> !before.is_fused(u));
            }
            assert(!after.is_fused(n - 1));
            assert forall|u: int| 0 <= u < n implies {
                &&& (#[trigger] after.units@[u]).whole_range == whole_range_of(ps, fs, u)
                &&& after.units@[u].owning_range == owning_range_of(ps, fs, u)
                &&& after.units@[u].children == children_of(ps, fs, u)
                &&& after.units@[u].parent == after.partition_info.units@[u].parent
            } by {
                assert(before.units@[u].whole_range == whole_range_of(ps, fs, u));
            }
        }
        let ghost settled = *self;
        self.reported_bound = Ghost(None);
        self.reported_node_bound = Ghost(None);
        proof {
            lemma_only_bounds_changed(&settled, self);
        }
    }
}

} // verus!

verus! {

/// A copy of `v`.
fn copy_vec<T: Copy>(v: &Vec<T>) -> (r: Vec<T>)
    ensures
        r@ == v@,
{
    let mut r: Vec<T> = Vec::new();
    let mut i: usize = 0;
    while i < v.len()
        invariant
            i <= v@.len(),
            r@ == v@.subrange(0, i as int),
        decreases v@.len() - i,
    {
        r.push(v[i]);
        i += 1;
        assert(r@ =~= v@.subrange(0, i as int));
    }
    assert(v@.subrange(0, i as int) =~= v@);
    r
}

/// The runtime interfaces of unit `u` from its planned interfaces.
fn interfaces_of(u: usize, planned: &Vec<(usize, Vec<(VertexIndex, bool)>)>) -> (r: Vec<Interface>)
    ensures
        r@.len() == planned@.len(),
        forall|i: int| 0 <= i < r@.len() ==> {
            &&& (#[trigger] r@[i]).interface_id == planned@[i].0
            &&& r@[i].data.possession_modules@ == seq![u]
            &&& r@[i].data.interfacing_vertices@.len() == 1
            &&& r@[i].data.interfacing_vertices@[0]@ == planned@[i].1@.map_values(|x: (VertexIndex, bool)| x.0)
        },
{
    let mut r: Vec<Interface> = Vec::new();
    let mut i: usize = 0;
    while i < planned.len()
        invariant
            i <= planned@.len(),
            r@.len() == i,
            forall|k: int| 0 <= k < i ==> {
                &&& (#[trigger] r@[k]).interface_id == planned@[k].0
                &&& r@[k].data.possession_modules@ == seq![u]
                &&& r@[k].data.interfacing_vertices@.len() == 1
                &&& r@[k].data.interfacing_vertices@[0]@ == planned@[k].1@.map_values(|x: (VertexIndex, bool)| x.0)
            },
        decreases planned@.len() - i,
    {
        let mirrors = &planned[i].1;
        let mut vertices: Vec<VertexIndex> = Vec::new();
        let mut j: usize = 0;
        while j < mirrors.len()
            invariant
                j <= mirrors@.len(),
                vertices@ == mirrors@.subrange(0, j as int).map_values(|x: (VertexIndex, bool)| x.0),
            decreases mirrors@.len() - j,
        {
            vertices.push(mirrors[j].0);
            j += 1;
            assert(vertices@ =~= mirrors@.subrange(0, j as int).map_values(|x: (VertexIndex, bool)| x.0));
        }
        assert(mirrors@.subrange(0, j as int) =~= mirrors@);
        let possession_modules = vec![u];
        let interfacing_vertices = vec![vertices];
        r.push(Interface { interface_id: planned[i].0, data: InterfaceData { possession_modules, interfacing_vertices } });
        i += 1;
    }
    r
}

/// `interfaces` are unit `u`'s runtime interfaces for the planned ones.
pub open spec fn interfaces_match(interfaces: Seq<Interface>, planned: crate::planner::InterfacesModel, u: int) -> bool {
    &&& interfaces.len() == planned.len()
    &&& forall|i: int| 0 <= i < interfaces.len() ==> {
        &&& (#[trigger] interfaces[i]).interface_id == planned[i].0
        &&& interfaces[i].data.possession_modules@ == seq![u as usize]
        &&& interfaces[i].data.interfacing_vertices@.len() == 1
        &&& interfaces[i].data.interfacing_vertices@[0]@ == planned[i].1.map_values(|x: (VertexIndex, bool)| x.0)
    }
}

/// The unit's dual module was built from `p`, the plan for unit `u`, and
/// handed nothing since.
pub open spec fn built_from_plan<M: DualModuleImpl>(
    unit: DualModuleParallelUnit<M>,
    ps: Seq<VertexRange>,
    fs: Seq<(usize, usize)>,
    initializer: SolverInitializer,
    edges_in_fusion_unit: bool,
    owners: Seq<usize>,
    u: int,
) -> bool {
    &&& unit.handed().len() == 1
    &&& unit.handed()[0] matches UnitCall::Build(p) && is_unit_plan(p, ps, fs, initializer, edges_in_fusion_unit, owners, u)
}

/// The partitions in effect: the configured ones, or one over all vertices.
pub open spec fn effective_partitions(partitions: Seq<VertexRange>, vertex_num: int) -> Seq<VertexRange> {
    if partitions.len() == 0 {
        seq![VertexRange { start: 0, end: vertex_num as usize }]
    } else {
        partitions
    }
}

/// The unit that owns each vertex.
pub open spec fn owner_map(ps: Seq<VertexRange>, fs: Seq<(usize, usize)>, vertex_num: int) -> Seq<usize> {
    Seq::new(vertex_num as nat, |v: int| (choose|u: int| owner_of(ps, fs, v, u)) as usize)
}

impl<M: DualModuleImpl> DualModuleParallel<M> {
    /// The configuration, with the given partitions, fusions and edge placement,
    /// describes a tree over `initializer`'s vertices whose edges can be placed.
    pub open spec fn construction_ok(
        initializer: &SolverInitializer,
        partitions: Seq<VertexRange>,
        fusions: Seq<(usize, usize)>,
        edges_in_fusion_unit: bool,
    ) -> bool {
        let ps = effective_partitions(partitions, initializer.vertex_num as int);
        &&& valid_partition_config(ps, fusions, initializer.vertex_num as int)
        &&& plan_ok(ps, fusions, initializer.vertex_num as int, initializer.weighted_edges@,
            initializer.virtual_vertices@, edges_in_fusion_unit, owner_map(ps, fusions, initializer.vertex_num as int))
    }

    /// `err` is the error that construction reports for this configuration.
    pub open spec fn construction_error(
        initializer: &SolverInitializer,
        partitions: Seq<VertexRange>,
        fusions: Seq<(usize, usize)>,
        edges_in_fusion_unit: bool,
        err: PartitionError,
    ) -> bool {
        let ps = effective_partitions(partitions, initializer.vertex_num as int);
        ||| first_partition_error(ps, fusions, initializer.vertex_num as int, err)
        ||| plan_error_holds(ps, fusions, initializer.vertex_num as int, initializer.weighted_edges@,
            initializer.virtual_vertices@, edges_in_fusion_unit, owner_map(ps, fusions, initializer.vertex_num as int), err)
    }

    /// This module is the one built for `initializer` and the configuration:
    /// the tree and owner map of the configuration, leaves active and nothing
    /// fused, each unit's interfaces as planned, and each unit's dual module
    /// built from that unit's plan and handed nothing since.
    pub open spec fn built_for(
        &self,
        initializer: &SolverInitializer,
        partitions: Seq<VertexRange>,
        fusions: Seq<(usize, usize)>,
        edges_in_fusion_unit: bool,
    ) -> bool {
        &&& self.wf()
        &&& self.config.partitions@ == effective_partitions(partitions, initializer.vertex_num as int)
        &&& self.config.fusions@ == fusions
        &&& self.config.edges_in_fusion_unit == edges_in_fusion_unit
        &&& self.initializer.vertex_num == initializer.vertex_num
        &&& self.initializer.weighted_edges@ == initializer.weighted_edges@
        &&& self.initializer.virtual_vertices@ == initializer.virtual_vertices@
        &&& self.partition_info.vertex_to_owning_unit@ == owner_map(self.config.partitions@, fusions, initializer.vertex_num as int)
        &&& self.flags() == cleared_flags(self.flags(), self.leaf_count())
        &&& self.reported_bound@ is None
        &&& self.reported_node_bound@ is None
        &&& forall|u: int| 0 <= u < self.units@.len() ==> interfaces_match((#[trigger] self.units@[u]).interfaces@,
            unit_interfaces(self.config.partitions@, fusions, initializer.weighted_edges@,
                initializer.virtual_vertices@, edges_in_fusion_unit, u), u)
        &&& crate::placement::built_from_valid_plan(self)
    }

    /// Checks the configuration and plans every unit's part of the graph. On
    /// success returns the configuration with its partitions in effect, the
    /// partition tree and one plan per unit.
    pub fn plan_units(initializer: &SolverInitializer, config: DualModuleParallelConfig)
        -> (r: Result<(DualModuleParallelConfig, PartitionInfo, Vec<PartitionedSolverInitializer>), PartitionError>)
        requires
            config.partitions@.len() + config.fusions@.len() + 1 < usize::MAX,
        ensures
            r is Ok <==> Self::construction_ok(initializer, config.partitions@, config.fusions@, config.edges_in_fusion_unit),
            r matches Err(err) ==> Self::construction_error(initializer, config.partitions@, config.fusions@,
                config.edges_in_fusion_unit, err),
            r matches Ok((c, info, inits)) ==> {
                let ps = c.partitions@;
                let vn = initializer.vertex_num as int;
                &&& ps == effective_partitions(config.partitions@, vn)
                &&& c.fusions@ == config.fusions@
                &&& c.edges_in_fusion_unit == config.edges_in_fusion_unit
                &&& c.thread_pool_size == config.thread_pool_size
                &&& Self::plan_facts(initializer, &c, &info, inits@)
            },
    {
        let mut config = config;
        if config.partitions.len() == 0 {
            config.partitions = vec![VertexRange::new(0, initializer.vertex_num)];
            assert(config.partitions@ =~= effective_partitions(seq![], initializer.vertex_num as int));
        }
        let ghost ps = config.partitions@;
        let ghost fs = config.fusions@;
        let ghost vertex_num = initializer.vertex_num as int;
        let partition_info = match PartitionInfo::new(&config, initializer) {
            Ok(info) => info,
            Err(err) => {
                return Err(err);
            },
        };
        proof {
            crate::partition::lemma_owning_ranges_partition(ps, fs, initializer.vertex_num);
            assert(partition_info.vertex_to_owning_unit@ =~= owner_map(ps, fs, vertex_num)) by {
                assert forall|v: int| 0 <= v < vertex_num implies partition_info.vertex_to_owning_unit@[v] == #[trigger] owner_map(ps, fs, vertex_num)[v] by {
                    let u = partition_info.vertex_to_owning_unit@[v] as int;
                    assert(owner_of(ps, fs, v, u));
                    let c = choose|c: int| owner_of(ps, fs, v, c);
                    assert(owner_of(ps, fs, v, c));
                }
            }
        }
        let inits = match partition_info.partitioned_initializers(&config, initializer) {
            Ok(inits) => inits,
            Err(err) => {
                return Err(err);
            },
        };
        Ok((config, partition_info, inits))
    }

    /// What a successful plan gives: a valid tree, its owner map, a plan that
    /// succeeds, and one exact plan per unit.
    pub open spec fn plan_facts(
        initializer: &SolverInitializer,
        config: &DualModuleParallelConfig,
        info: &PartitionInfo,
        inits: Seq<PartitionedSolverInitializer>,
    ) -> bool {
        let ps = config.partitions@;
        let fs = config.fusions@;
        let vn = initializer.vertex_num as int;
        &&& valid_partition_config(ps, fs, vn)
        &&& unit_count(ps, fs) < usize::MAX
        &&& info.matches(ps, fs, vn)
        &&& info.vertex_to_owning_unit@ == owner_map(ps, fs, vn)
        &&& plan_ok(ps, fs, vn, initializer.weighted_edges@, initializer.virtual_vertices@, config.edges_in_fusion_unit,
            owner_map(ps, fs, vn))
        &&& inits.len() == unit_count(ps, fs)
        &&& forall|w: int| 0 <= w < inits.len() ==> is_unit_plan(#[trigger] inits[w], ps, fs, *initializer,
            config.edges_in_fusion_unit, owner_map(ps, fs, vn), w)
    }

    /// Assembles the module from a plan and one dual module per unit, each
    /// built from that unit's plan.
    pub fn assemble(
        initializer: &SolverInitializer,
        config: DualModuleParallelConfig,
        partition_info: PartitionInfo,
        inits: Vec<PartitionedSolverInitializer>,
        modules: Vec<M>,
    ) -> (r: Self)
        requires
            Self::plan_facts(initializer, &config, &partition_info, inits@),
            modules@.len() == inits@.len(),
            forall|u: int| 0 <= u < modules@.len() ==> (#[trigger] modules@[u]).calls()
                == Seq::<UnitCall>::empty().push(UnitCall::Build(inits@[u])),
        ensures
            r.built_for(initializer, config.partitions@, config.fusions@, config.edges_in_fusion_unit),
            r.config.thread_pool_size == config.thread_pool_size,
    {
        let ghost ps = config.partitions@;
        let ghost fs = config.fusions@;
        let ghost vertex_num = initializer.vertex_num as int;
        let ghost all = modules@;
        let mut modules = modules;
        let n = partition_info.units.len();
        let mut units: Vec<DualModuleParallelUnit<M>> = Vec::new();
        let mut u: usize = 0;
        while u < n
            invariant
                ps == config.partitions@,
                fs == config.fusions@,
                vertex_num == initializer.vertex_num,
                Self::plan_facts(initializer, &config, &partition_info, inits@),
                n == unit_count(ps, fs),
                all.len() == n,
                forall|w: int| 0 <= w < n ==> (#[trigger] all[w]).calls() == Seq::<UnitCall>::empty().push(UnitCall::Build(inits@[w])),
                u <= n,
                modules@ == all.subrange(u as int, n as int),
                units@.len() == u,
                forall|w: int| 0 <= w < u ==> {
                    &&& (#[trigger] units@[w]).whole_range == whole_range_of(ps, fs, w)
                    &&& units@[w].owning_range == owning_range_of(ps, fs, w)
                    &&& units@[w].children == children_of(ps, fs, w)
                    &&& units@[w].parent == partition_info.units@[w].parent
                    &&& units@[w].is_active == (w < ps.len())
                    &&& !units@[w].is_fused
                    &&& interfaces_match(units@[w].interfaces@, unit_interfaces(ps, fs, initializer.weighted_edges@,
                        initializer.virtual_vertices@, config.edges_in_fusion_unit, w), w)
                    &&& built_from_plan(units@[w], ps, fs, *initializer, config.edges_in_fusion_unit,
                        owner_map(ps, fs, vertex_num), w)
                },
            decreases n - u,
        {
            let serial_module = modules.remove(0);
            proof {
                assert(serial_module == all[u as int]);
                assert(modules@ =~= all.subrange(u as int + 1, n as int));
            }
            let mut unit = DualModuleParallelUnitPtr::new_wrapper(serial_module, &partition_info.units[u]);
            unit.interfaces = interfaces_of(u, &inits[u].interfaces);
            proof {
                assert(partition_info.units@[u as int].matches(ps, fs, u as int));
                assert(is_unit_plan(inits@[u as int], ps, fs, *initializer, config.edges_in_fusion_unit,
                    owner_map(ps, fs, vertex_num), u as int));
                let planned = inits@[u as int].interfaces@;
                assert(interfaces_view(planned).len() == planned.len());
                assert forall|i: int| 0 <= i < planned.len() implies #[trigger] interfaces_view(planned)[i] == (planned[i].0, planned[i].1@) by {}
            }
            units.push(unit);
            u += 1;
        }
        let ghost old_initializer = initializer;
        let initializer = SolverInitializer::new(
            initializer.vertex_num,
            copy_vec(&initializer.weighted_edges),
            copy_vec(&initializer.virtual_vertices),
        );
        let m = DualModuleParallel { initializer, units, config, partition_info, reported_bound: Ghost(None), reported_node_bound: Ghost(None) };
        proof {
            assert(m.flags() =~= cleared_flags(m.flags(), m.leaf_count()));
            lemma_cleared_flags_wf(&m);
            assert(ps =~= effective_partitions(ps, vertex_num));
            assert forall|u: int| 0 <= u < m.units@.len() implies built_from_plan(#[trigger] m.units@[u], ps, fs, m.initializer,
                m.config.edges_in_fusion_unit, owner_map(ps, fs, vertex_num), u) by {
                assert(built_from_plan(m.units@[u], ps, fs, *old_initializer, m.config.edges_in_fusion_unit,
                    owner_map(ps, fs, vertex_num), u));
            }
        }
        m
    }

    /// Builds the module for `initializer` partitioned as `config` says: one
    /// unit per partition and per fusion, each with its own dual module built
    /// from the unit's plan. Fails exactly when the configuration is not a tree
    /// covering all vertices, or the edges cannot be placed.
    pub fn new_config(initializer: &SolverInitializer, config: DualModuleParallelConfig) -> (r: Result<Self, PartitionError>)
        requires
            config.partitions@.len() + config.fusions@.len() + 1 < usize::MAX,
        ensures
            r is Ok <==> Self::construction_ok(initializer, config.partitions@, config.fusions@, config.edges_in_fusion_unit),
            r matches Ok(m) ==> m.built_for(initializer, config.partitions@, config.fusions@, config.edges_in_fusion_unit),
            r matches Err(err) ==> Self::construction_error(initializer, config.partitions@, config.fusions@,
                config.edges_in_fusion_unit, err),
    {
        let ghost given = config.partitions@;
        let (config, partition_info, inits) = match Self::plan_units(initializer, config) {
            Ok(plan) => plan,
            Err(err) => {
                return Err(err);
            },
        };
        let mut modules: Vec<M> = Vec::new();
        let mut u: usize = 0;
        while u < inits.len()
            invariant
                u <= inits@.len(),
                modules@.len() == u,
                forall|w: int| 0 <= w < u ==> (#[trigger] modules@[w]).calls()
                    == Seq::<UnitCall>::empty().push(UnitCall::Build(inits@[w])),
            decreases inits@.len() - u,
        {
            modules.push(M::new_partitioned(&inits[u]));
            u += 1;
        }
        let m = Self::assemble(initializer, config, partition_info, inits, modules);
        proof {
            assert(effective_partitions(m.config.partitions@, initializer.vertex_num as int) == m.config.partitions@);
        }
        Ok(m)
    }

    /// Builds the module with the default configuration: one partition over
    /// all vertices, edges placed once.
    pub fn new(initializer: &SolverInitializer) -> (r: Result<Self, PartitionError>)
        ensures
            r is Ok <==> Self::construction_ok(initializer, seq![], seq![], true),
            r matches Ok(m) ==> m.built_for(initializer, seq![], seq![], true),
            r matches Err(err) ==> Self::construction_error(initializer, seq![], seq![], true, err),
    {
        let config = DualModuleParallelConfig::default();
        assert(config.partitions@ =~= seq![]);
        assert(config.fusions@ =~= seq![]);
        Self::new_config(initializer, config)
    }
}

} // verus!

