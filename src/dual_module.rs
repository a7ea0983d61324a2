//! What a dual module offers the primal module, and the blocking events it reports.
use vstd::prelude::*;
use vstd::multiset::Multiset;
use crate::dual_module_parallel::{Interface, UnitCall, interfaces_model};
use crate::util::{EdgeIndex, PartitionedSolverInitializer, VertexIndex, Weight};

verus! {

/// A dual node as the dual modules see it: the primal module owns the node, and
/// hands out its index and its representative vertex.
#[derive(Clone, Copy, Debug, PartialEq, Eq, Structural)]
pub struct DualNodePtr {
    pub index: usize,
    pub representative_vertex: VertexIndex,
}

/// How a dual node's dual variable moves.
#[derive(Clone, Copy, Debug, PartialEq, Eq, Structural)]
pub enum DualNodeGrowState {
    Grow,
    Stay,
    Shrink,
}

/// The next blocking event of one dual node, or of one unit.
#[derive(Clone, Copy, Debug, PartialEq, Eq)]
pub enum MaxUpdateLength {
    /// growth by this length is safe
    NonZeroGrow(Weight),
    /// two growing nodes touch: each given with the blossom that holds it
    Conflicting((DualNodePtr, DualNodePtr), (DualNodePtr, DualNodePtr)),
    /// a growing node, given with its blossom, touches a virtual vertex
    TouchingVirtual((DualNodePtr, DualNodePtr), VertexIndex),
    /// a shrinking blossom reached a zero dual variable
    BlossomNeedExpand(DualNodePtr),
    /// a shrinking vertex node reached a zero dual variable
    VertexShrinkStop(DualNodePtr),
}

/// What a group of updates amounts to: the smallest growth bound, or the
/// conflicts found, in no particular order.
pub enum GroupModel {
    Bound(int),
    Conflicts(Multiset<MaxUpdateLength>),
}

/// The merge of two groups: the smaller bound, or the conflicts of both.
pub open spec fn merge_groups(a: GroupModel, b: GroupModel) -> GroupModel {
    match (a, b) {
        (GroupModel::Bound(x), GroupModel::Bound(y)) => GroupModel::Bound(if x <= y { x } else { y }),
        (GroupModel::Bound(_), GroupModel::Conflicts(c)) => GroupModel::Conflicts(c),
        (GroupModel::Conflicts(c), GroupModel::Bound(_)) => GroupModel::Conflicts(c),
        (GroupModel::Conflicts(c), GroupModel::Conflicts(d)) => GroupModel::Conflicts(c.add(d)),
    }
}

/// The blocking events of several dual nodes or units together.
#[derive(Clone, Debug)]
pub enum GroupMaxUpdateLength {
    /// no conflict: growth by this length is safe; `Weight::MAX` stands for no bound
    NonZeroGrow(Weight),
    /// the conflicts found
    Conflicts(Vec<MaxUpdateLength>),
}

impl View for GroupMaxUpdateLength {
    type V = GroupModel;

    open spec fn view(&self) -> GroupModel {
        match self {
            GroupMaxUpdateLength::NonZeroGrow(w) => GroupModel::Bound(*w as int),
            GroupMaxUpdateLength::Conflicts(c) => GroupModel::Conflicts(c@.to_multiset()),
        }
    }
}

impl GroupMaxUpdateLength {
    /// A group with no event: growth is unbounded.
    pub fn new() -> (r: Self)
        ensures
            r@ == GroupModel::Bound(Weight::MAX as int),
    {
        GroupMaxUpdateLength::NonZeroGrow(Weight::MAX)
    }

    /// No event was recorded.
    pub open spec fn is_empty_spec(&self) -> bool {
        self@ == GroupModel::Bound(Weight::MAX as int)
    }

    pub fn is_empty(&self) -> (r: bool)
        ensures
            r == self.is_empty_spec(),
    {
        match self {
            GroupMaxUpdateLength::NonZeroGrow(w) => *w == Weight::MAX,
            GroupMaxUpdateLength::Conflicts(_) => false,
        }
    }

    /// The safe growth length, when there is no conflict and growth is bounded.
    pub fn get_none_zero_growth(&self) -> (r: Option<Weight>)
        ensures
            r == (match self@ {
                GroupModel::Bound(x) => if x != Weight::MAX as int { Some(x as Weight) } else { None },
                GroupModel::Conflicts(_) => None::<Weight>,
            }),
    {
        match self {
            GroupMaxUpdateLength::NonZeroGrow(w) => if *w != Weight::MAX { Some(*w) } else { None },
            GroupMaxUpdateLength::Conflicts(_) => None,
        }
    }

    /// Records one more event.
    pub fn add(&mut self, max_update_length: MaxUpdateLength)
        ensures
            final(self)@ == merge_groups(old(self)@, match max_update_length {
                MaxUpdateLength::NonZeroGrow(w) => GroupModel::Bound(w as int),
                _ => GroupModel::Conflicts(Multiset::singleton(max_update_length)),
            }),
    {
        let group = match max_update_length {
            MaxUpdateLength::NonZeroGrow(w) => GroupMaxUpdateLength::NonZeroGrow(w),
            _ => {
                let conflicts: Vec<MaxUpdateLength> = vec![max_update_length];
                proof {
                    Seq::<MaxUpdateLength>::empty().to_multiset_ensures();
                    assert(conflicts@ =~= Seq::<MaxUpdateLength>::empty().push(max_update_length));
                    assert(conflicts@.to_multiset() =~= Multiset::singleton(max_update_length));
                }
                GroupMaxUpdateLength::Conflicts(conflicts)
            },
        };
        self.extend(group);
    }

    /// Merges the events of `other` into this group.
    pub fn extend(&mut self, other: Self)
        ensures
            final(self)@ == merge_groups(old(self)@, other@),
    {
        match other {
            GroupMaxUpdateLength::NonZeroGrow(w) => {
                if let GroupMaxUpdateLength::NonZeroGrow(current) = self {
                    if w < *current {
                        *self = GroupMaxUpdateLength::NonZeroGrow(w);
                    }
                }
            },
            GroupMaxUpdateLength::Conflicts(mut other_conflicts) => {
                let mut conflicts: Vec<MaxUpdateLength> = match self {
                    GroupMaxUpdateLength::NonZeroGrow(_) => Vec::new(),
                    GroupMaxUpdateLength::Conflicts(c) => c.clone(),
                };
                let ghost a = conflicts@;
                let ghost b = other_conflicts@;
                conflicts.append(&mut other_conflicts);
                proof {
                    vstd::seq_lib::lemma_multiset_commutative(a, b);
                }
                *self = GroupMaxUpdateLength::Conflicts(conflicts);
            },
        }
    }
}

/// Merging groups does not depend on their order: `extend` is commutative.
pub proof fn lemma_extend_commutative(a: GroupMaxUpdateLength, b: GroupMaxUpdateLength)
    ensures
        merge_groups(a@, b@) == merge_groups(b@, a@),
{
    if let (GroupModel::Conflicts(c), GroupModel::Conflicts(d)) = (a@, b@) {
        assert(c.add(d) =~= d.add(c));
    }
}

/// Merging groups does not depend on their grouping: `extend` is associative.
pub proof fn lemma_extend_associative(a: GroupMaxUpdateLength, b: GroupMaxUpdateLength, c: GroupMaxUpdateLength)
    ensures
        merge_groups(merge_groups(a@, b@), c@) == merge_groups(a@, merge_groups(b@, c@)),
{
    if let (GroupModel::Conflicts(x), GroupModel::Conflicts(y), GroupModel::Conflicts(z)) = (a@, b@, c@) {
        assert(x.add(y).add(z) =~= x.add(y.add(z)));
    }
}

} // verus!

verus! {

/// The operations that a dual module offers the primal module. A serial dual
/// module implements them over one shard of the decoding graph; the parallel
/// dual module routes them to the unit responsible for each dual node.
///
/// An implementation keeps `calls`, the log of every operation it was handed,
/// with its arguments and, for the two queries, the answer it gave; each
/// operation appends exactly its own entry.
pub trait DualModuleImpl: Sized {
    /// Every operation this module was handed, oldest first.
    spec fn calls(&self) -> Seq<UnitCall>;

    /// Builds the module of one unit from its part of the decoding graph.
    fn new_partitioned(initializer: &PartitionedSolverInitializer) -> (r: Self)
        ensures
            r.calls() == Seq::<UnitCall>::empty().push(UnitCall::Build(*initializer)),
    ;

    /// Resets all dual nodes and growth, keeping the graph.
    fn clear(&mut self)
        ensures
            final(self).calls() == old(self).calls().push(UnitCall::Clear),
    ;

    /// Registers a dual node whose representative vertex this module holds.
    fn add_dual_node(&mut self, dual_node_ptr: &DualNodePtr)
        ensures
            final(self).calls() == old(self).calls().push(UnitCall::AddDualNode(*dual_node_ptr)),
    ;

    /// Unregisters a blossom.
    fn remove_blossom(&mut self, dual_node_ptr: DualNodePtr)
        ensures
            final(self).calls() == old(self).calls().push(UnitCall::RemoveBlossom(dual_node_ptr)),
    ;

    /// Sets whether a dual node grows, stays or shrinks.
    fn set_grow_state(&mut self, dual_node_ptr: &DualNodePtr, grow_state: DualNodeGrowState)
        ensures
            final(self).calls() == old(self).calls().push(UnitCall::SetGrowState(*dual_node_ptr, grow_state)),
    ;

    /// The next blocking event of one dual node.
    fn compute_maximum_update_length_dual_node(
        &mut self,
        dual_node_ptr: &DualNodePtr,
        is_grow: bool,
        simultaneous_update: bool,
    ) -> (r: MaxUpdateLength)
        ensures
            final(self).calls() == old(self).calls().push(
                UnitCall::ComputeMaximumUpdateLengthDualNode(*dual_node_ptr, is_grow, simultaneous_update, r),
            ),
    ;

    /// The next blocking event over all growing and shrinking nodes.
    fn compute_maximum_update_length(&mut self) -> (r: GroupMaxUpdateLength)
        ensures
            final(self).calls() == old(self).calls().push(UnitCall::ComputeMaximumUpdateLength(r@)),
    ;

    /// Moves one dual node's dual variable by `length`.
    fn grow_dual_node(&mut self, dual_node_ptr: &DualNodePtr, length: Weight)
        ensures
            final(self).calls() == old(self).calls().push(UnitCall::GrowDualNode(*dual_node_ptr, length)),
    ;

    /// Moves every dual variable by `length` in its grow state's direction.
    fn grow(&mut self, length: Weight)
        ensures
            final(self).calls() == old(self).calls().push(UnitCall::Grow(length)),
    ;

    /// Changes the weights of the given edges before decoding.
    fn load_edge_modifier(&mut self, edge_modifier: &Vec<(EdgeIndex, Weight)>)
        ensures
            final(self).calls() == old(self).calls().push(UnitCall::LoadEdgeModifier(edge_modifier@)),
    ;

    /// Takes over the interfaces of two fused children, turning their virtual
    /// images of this module's vertices into real vertices.
    fn fuse(&mut self, left: &Vec<Interface>, right: &Vec<Interface>)
        ensures
            final(self).calls() == old(self).calls().push(UnitCall::Fuse(interfaces_model(left@), interfaces_model(right@))),
    ;
}

} // verus!
