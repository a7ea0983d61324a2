//! The partition tree: leaf units from the configured partitions, and one
//! internal unit per fusion, owning the vertices between its two children.
use vstd::prelude::*;
use std::collections::BTreeSet;
use crate::util::{SolverInitializer, VertexRange};
use crate::config::DualModuleParallelConfig;

verus! {

broadcast use vstd::laws_cmp::group_laws_cmp;

/// Number of units: one per partition and one per fusion.
pub open spec fn unit_count(ps: Seq<VertexRange>, fs: Seq<(usize, usize)>) -> int {
    (ps.len() + fs.len()) as int
}

/// The children of unit `u`, if it is made by a fusion.
pub open spec fn children_of(ps: Seq<VertexRange>, fs: Seq<(usize, usize)>, u: int) -> Option<(usize, usize)> {
    if ps.len() <= u < ps.len() + fs.len() {
        Some(fs[u - ps.len()])
    } else {
        None
    }
}

/// Fusion `k` takes unit `u` as one of its two children.
pub open spec fn fuses(fs: Seq<(usize, usize)>, k: int, u: int) -> bool {
    fs[k].0 == u || fs[k].1 == u
}

/// The range of all vertices under unit `u`.
pub open spec fn whole_range_of(ps: Seq<VertexRange>, fs: Seq<(usize, usize)>, u: int) -> VertexRange
    decreases u,
{
    if 0 <= u < ps.len() {
        ps[u]
    } else if ps.len() <= u < ps.len() + fs.len() {
        let l = fs[u - ps.len()].0 as int;
        let r = fs[u - ps.len()].1 as int;
        if l < u && r < u {
            whole_range_of(ps, fs, l).span(whole_range_of(ps, fs, r))
        } else {
            VertexRange { start: 0, end: 0 }
        }
    } else {
        VertexRange { start: 0, end: 0 }
    }
}

/// The range of vertices that unit `u` owns exclusively.
pub open spec fn owning_range_of(ps: Seq<VertexRange>, fs: Seq<(usize, usize)>, u: int) -> VertexRange {
    if 0 <= u < ps.len() {
        ps[u]
    } else if ps.len() <= u < ps.len() + fs.len() {
        let l = fs[u - ps.len()].0 as int;
        let r = fs[u - ps.len()].1 as int;
        whole_range_of(ps, fs, l).gap(whole_range_of(ps, fs, r))
    } else {
        VertexRange { start: 0, end: 0 }
    }
}

/// The leaves under unit `u`, left to right.
pub open spec fn leaves_of(ps: Seq<VertexRange>, fs: Seq<(usize, usize)>, u: int) -> Seq<usize>
    decreases u,
{
    if 0 <= u < ps.len() {
        seq![u as usize]
    } else if ps.len() <= u < ps.len() + fs.len() {
        let l = fs[u - ps.len()].0 as int;
        let r = fs[u - ps.len()].1 as int;
        if l < u && r < u {
            leaves_of(ps, fs, l) + leaves_of(ps, fs, r)
        } else {
            Seq::empty()
        }
    } else {
        Seq::empty()
    }
}

/// The units strictly under unit `u`: its children and, transitively, theirs.
pub open spec fn descendants_of(ps: Seq<VertexRange>, fs: Seq<(usize, usize)>, u: int) -> Set<usize>
    decreases u,
{
    if ps.len() <= u < ps.len() + fs.len() {
        let l = fs[u - ps.len()].0;
        let r = fs[u - ps.len()].1;
        if l < u && r < u {
            set![l, r].union(descendants_of(ps, fs, l as int)).union(descendants_of(ps, fs, r as int))
        } else {
            Set::empty()
        }
    } else {
        Set::empty()
    }
}

/// Some fusion takes unit `u` as a child.
pub open spec fn is_fused(fs: Seq<(usize, usize)>, u: int) -> bool {
    exists|k: int| 0 <= k < fs.len() && #[trigger] fuses(fs, k, u)
}

/// Unit `u` is a child of more than one fusion, or both children of one.
pub open spec fn fused_twice(fs: Seq<(usize, usize)>, u: int) -> bool {
    ||| exists|k1: int, k2: int| 0 <= k1 < k2 < fs.len() && fuses(fs, k1, u) && fuses(fs, k2, u)
    ||| exists|k: int| 0 <= k < fs.len() && fs[k].0 == u && fs[k].1 == u
}

/// Each fusion takes two units built before it.
pub open spec fn children_built_first(ps: Seq<VertexRange>, fs: Seq<(usize, usize)>) -> bool {
    forall|k: int| 0 <= k < fs.len() ==> #[trigger] fs[k].0 < ps.len() + k && fs[k].1 < ps.len() + k
}

/// Every unit but the last is fused into another.
pub open spec fn all_fused_but_last(ps: Seq<VertexRange>, fs: Seq<(usize, usize)>) -> bool {
    forall|u: int| 0 <= u < unit_count(ps, fs) - 1 ==> #[trigger] is_fused(fs, u)
}

/// The partitions and fusions form one tree whose root covers `[0, vertex_num)`.
pub open spec fn valid_partition_config(ps: Seq<VertexRange>, fs: Seq<(usize, usize)>, vertex_num: int) -> bool {
    let n = unit_count(ps, fs);
    &&& ps.len() > 0
    &&& forall|i: int| 0 <= i < ps.len() ==> #[trigger] ps[i].start <= ps[i].end <= vertex_num
    &&& children_built_first(ps, fs)
    &&& forall|u: int| 0 <= u < n ==> !#[trigger] fused_twice(fs, u)
    &&& forall|k: int| 0 <= k < fs.len() ==>
        whole_range_of(ps, fs, #[trigger] fs[k].0 as int).end <= whole_range_of(ps, fs, fs[k].1 as int).start
    &&& all_fused_but_last(ps, fs)
    &&& whole_range_of(ps, fs, n - 1) == (VertexRange { start: 0, end: vertex_num as usize })
}

/// Why a configuration does not describe a partition tree.
#[derive(Clone, Copy, Debug, PartialEq, Eq, Structural)]
pub enum PartitionError {
    /// no partition was given
    NoPartition,
    /// a partition ends before it starts
    InvalidRange { unit: usize },
    /// a partition reaches past the last vertex
    RangeOutOfBounds { unit: usize },
    /// a fusion names a unit that is not built before it
    FusionDependency { fusion: usize },
    /// a unit is fused more than once
    FusedTwice { unit: usize },
    /// a fusion's left range does not lie below its right range
    FusionOrder { fusion: usize },
    /// a unit other than the last is never fused
    Unfused { unit: usize },
    /// the last unit does not cover all vertices
    RootRange,
    /// a virtual vertex reaches past the last vertex
    VirtualOutOfBounds { index: usize },
    /// an edge joins a vertex to itself
    SelfLoop { edge: usize },
    /// an edge reaches past the last vertex
    EdgeOutOfBounds { edge: usize },
    /// an edge joins two units neither of which is under the other
    CrossPartitionEdge { edge: usize },
    /// a leaf holds exactly one endpoint of an edge it would hold a copy of
    SplitEdge { edge: usize, unit: usize },
}

/// What the tree says of one unit.
#[derive(Clone, Debug)]
pub struct PartitionUnitInfo {
    /// all vertices under this unit
    pub whole_range: VertexRange,
    /// the vertices that this unit owns exclusively
    pub owning_range: VertexRange,
    /// left and right child, for a unit made by a fusion
    pub children: Option<(usize, usize)>,
    /// the unit made by fusing this one
    pub parent: Option<usize>,
    /// the leaves under this unit
    pub leaves: Vec<usize>,
    /// the units under this unit
    pub descendants: BTreeSet<usize>,
}

/// The partition tree and the owner of each vertex.
pub struct PartitionInfo {
    /// the units: leaves first, then one per fusion
    pub units: Vec<PartitionUnitInfo>,
    /// the unit that owns each vertex
    pub vertex_to_owning_unit: Vec<usize>,
}

/// The unit whose owning range holds vertex `v`.
pub open spec fn owner_of(ps: Seq<VertexRange>, fs: Seq<(usize, usize)>, v: int, u: int) -> bool {
    0 <= u < unit_count(ps, fs) && owning_range_of(ps, fs, u).has(v)
}

/// Some unit owns vertex `v`.
pub open spec fn is_owned(ps: Seq<VertexRange>, fs: Seq<(usize, usize)>, v: int) -> bool {
    exists|u: int| #[trigger] owner_of(ps, fs, v, u)
}

impl PartitionUnitInfo {
    /// This unit is unit `u` of the tree that `ps` and `fs` describe.
    pub open spec fn matches(&self, ps: Seq<VertexRange>, fs: Seq<(usize, usize)>, u: int) -> bool {
        &&& self.whole_range == whole_range_of(ps, fs, u)
        &&& self.owning_range == owning_range_of(ps, fs, u)
        &&& self.children == children_of(ps, fs, u)
        &&& (self.parent is None <==> u == unit_count(ps, fs) - 1)
        &&& (self.parent matches Some(p) ==> ps.len() <= p < unit_count(ps, fs) && fuses(fs, p - ps.len(), u))
        &&& self.leaves@ == leaves_of(ps, fs, u)
        &&& self.descendants@ == descendants_of(ps, fs, u)
    }
}

/// Partition `i` is a well-formed range inside `[0, vertex_num)`.
pub open spec fn partition_ok(ps: Seq<VertexRange>, vertex_num: int, i: int) -> bool {
    ps[i].start <= ps[i].end <= vertex_num
}

/// Some fusion before fusion `k` takes unit `u` as a child.
pub open spec fn fused_before(fs: Seq<(usize, usize)>, u: int, k: int) -> bool {
    exists|j: int| 0 <= j < k && #[trigger] fuses(fs, j, u)
}

/// Fusion `k` passes every check: its children are built before it, distinct,
/// not fused before, and its left range lies below its right range.
pub open spec fn fusion_ok(ps: Seq<VertexRange>, fs: Seq<(usize, usize)>, k: int) -> bool {
    &&& fs[k].0 < ps.len() + k
    &&& fs[k].1 < ps.len() + k
    &&& fs[k].0 != fs[k].1
    &&& !fused_before(fs, fs[k].0 as int, k)
    &&& !fused_before(fs, fs[k].1 as int, k)
    &&& whole_range_of(ps, fs, fs[k].0 as int).end <= whole_range_of(ps, fs, fs[k].1 as int).start
}

pub open spec fn partitions_ok_upto(ps: Seq<VertexRange>, vertex_num: int, i: int) -> bool {
    forall|j: int| 0 <= j < i ==> #[trigger] partition_ok(ps, vertex_num, j)
}

pub open spec fn fusions_ok_upto(ps: Seq<VertexRange>, fs: Seq<(usize, usize)>, k: int) -> bool {
    forall|j: int| 0 <= j < k ==> #[trigger] fusion_ok(ps, fs, j)
}

/// `e` is the first flaw of the configuration, checking the partitions in
/// order, then the fusions in order (dependencies, the left child, the right
/// child, the ranges), then that every unit but the last is fused, then the
/// root's range.
pub open spec fn first_partition_error(ps: Seq<VertexRange>, fs: Seq<(usize, usize)>, vertex_num: int, e: PartitionError) -> bool {
    let n = unit_count(ps, fs);
    let np = ps.len() as int;
    let partitions_ok = np > 0 && partitions_ok_upto(ps, vertex_num, np);
    match e {
        PartitionError::NoPartition => np == 0,
        PartitionError::InvalidRange { unit } => unit < np && partitions_ok_upto(ps, vertex_num, unit as int)
            && ps[unit as int].start > ps[unit as int].end,
        PartitionError::RangeOutOfBounds { unit } => unit < np && partitions_ok_upto(ps, vertex_num, unit as int)
            && ps[unit as int].start <= ps[unit as int].end && ps[unit as int].end > vertex_num,
        PartitionError::FusionDependency { fusion } => partitions_ok && fusion < fs.len()
            && fusions_ok_upto(ps, fs, fusion as int)
            && (fs[fusion as int].0 >= np + fusion || fs[fusion as int].1 >= np + fusion),
        PartitionError::FusedTwice { unit } => partitions_ok && exists|k: int| {
            &&& 0 <= k < fs.len()
            &&& #[trigger] fusions_ok_upto(ps, fs, k)
            &&& fs[k].0 < np + k
            &&& fs[k].1 < np + k
            &&& {
                ||| unit == fs[k].0 && fused_before(fs, unit as int, k)
                ||| unit == fs[k].1 && !fused_before(fs, fs[k].0 as int, k)
                    && (fused_before(fs, unit as int, k) || fs[k].0 == fs[k].1)
            }
        },
        PartitionError::FusionOrder { fusion } => partitions_ok && fusion < fs.len()
            && fusions_ok_upto(ps, fs, fusion as int)
            && fs[fusion as int].0 < np + fusion && fs[fusion as int].1 < np + fusion
            && fs[fusion as int].0 != fs[fusion as int].1
            && !fused_before(fs, fs[fusion as int].0 as int, fusion as int)
            && !fused_before(fs, fs[fusion as int].1 as int, fusion as int)
            && whole_range_of(ps, fs, fs[fusion as int].0 as int).end > whole_range_of(ps, fs, fs[fusion as int].1 as int).start,
        PartitionError::Unfused { unit } => partitions_ok && fusions_ok_upto(ps, fs, fs.len() as int) && unit < n - 1
            && (forall|w: int| 0 <= w < unit ==> #[trigger] is_fused(fs, w)) && !is_fused(fs, unit as int),
        PartitionError::RootRange => partitions_ok && fusions_ok_upto(ps, fs, fs.len() as int)
            && all_fused_but_last(ps, fs)
            && whole_range_of(ps, fs, n - 1) != (VertexRange { start: 0, end: vertex_num as usize }),
        _ => false,
    }
}

/// `r` holds `a` followed by `b`.
fn concat_indices(a: &Vec<usize>, b: &Vec<usize>) -> (r: Vec<usize>)
    ensures
        r@ == a@ + b@,
{
    let mut r: Vec<usize> = Vec::new();
    let mut i: usize = 0;
    while i < a.len()
        invariant
            i <= a@.len(),
            r@ == a@.subrange(0, i as int),
        decreases a@.len() - i,
    {
        r.push(a[i]);
        i += 1;
        assert(r@ =~= a@.subrange(0, i as int));
    }
    let mut j: usize = 0;
    while j < b.len()
        invariant
            j <= b@.len(),
            r@ == a@ + b@.subrange(0, j as int),
        decreases b@.len() - j,
    {
        r.push(b[j]);
        j += 1;
        assert(r@ =~= a@ + b@.subrange(0, j as int));
    }
    assert(b@.subrange(0, b@.len() as int) =~= b@);
    r
}

/// The set of the indices in `items`.
fn index_set(items: &Vec<usize>) -> (r: BTreeSet<usize>)
    ensures
        r@ == items@.to_set(),
{
    let mut r: BTreeSet<usize> = BTreeSet::new();
    let mut i: usize = 0;
    while i < items.len()
        invariant
            i <= items@.len(),
            r@ == items@.subrange(0, i as int).to_set(),
        decreases items@.len() - i,
    {
        proof {
            items@.subrange(0, i as int).lemma_push_to_set_commute(items@[i as int]);
            assert(items@.subrange(0, i as int + 1) =~= items@.subrange(0, i as int).push(items@[i as int]));
        }
        r.insert(items[i]);
        i += 1;
    }
    assert(items@.subrange(0, items@.len() as int) =~= items@);
    r
}

impl PartitionInfo {
    /// Builds the partition tree of `config` over the vertices of `initializer`.
    /// Succeeds exactly when the configuration describes one tree whose root
    /// covers all vertices; an error names a flaw that the configuration has.
    pub fn new(config: &DualModuleParallelConfig, initializer: &SolverInitializer) -> (r: Result<PartitionInfo, PartitionError>)
        requires
            config.partitions@.len() + config.fusions@.len() < usize::MAX,
        ensures
            r is Ok <==> valid_partition_config(config.partitions@, config.fusions@, initializer.vertex_num as int),
            r matches Ok(info) ==> info.matches(config.partitions@, config.fusions@, initializer.vertex_num as int),
            r matches Err(e) ==> first_partition_error(config.partitions@, config.fusions@, initializer.vertex_num as int, e),
    {
        let ghost ps = config.partitions@;
        let ghost fs = config.fusions@;
        let vertex_num = initializer.vertex_num;
        let np = config.partitions.len();
        let nf = config.fusions.len();
        if np == 0 {
            return Err(PartitionError::NoPartition);
        }
        let mut whole_ranges: Vec<VertexRange> = Vec::new();
        let mut owning_ranges: Vec<VertexRange> = Vec::new();
        let mut i: usize = 0;
        while i < np
            invariant
                np == ps.len(),
                ps == config.partitions@,
                vertex_num == initializer.vertex_num,
                i <= np,
                whole_ranges@.len() == i,
                owning_ranges@.len() == i,
                forall|j: int| 0 <= j < i ==> whole_ranges@[j] == ps[j] && owning_ranges@[j] == ps[j],
                forall|j: int| 0 <= j < i ==> #[trigger] ps[j].start <= ps[j].end <= vertex_num,
                partitions_ok_upto(ps, vertex_num as int, i as int),
            decreases np - i,
        {
            let p = config.partitions[i];
            assert(ps[i as int] == p);
            if p.start > p.end {
                return Err(PartitionError::InvalidRange { unit: i });
            }
            if p.end > vertex_num {
                return Err(PartitionError::RangeOutOfBounds { unit: i });
            }
            whole_ranges.push(p);
            owning_ranges.push(p);
            i += 1;
        }
        let n = np + nf;
        let mut parents: Vec<Option<usize>> = Vec::new();
        let mut i: usize = 0;
        while i < n
            invariant
                i <= n,
                parents@.len() == i,
                forall|u: int| 0 <= u < i ==> parents@[u] is None,
            decreases n - i,
        {
            parents.push(None);
            i += 1;
        }
        let mut k: usize = 0;
        while k < nf
            invariant
                np == ps.len(),
                nf == fs.len(),
                n == np + nf,
                ps == config.partitions@,
                fs == config.fusions@,
                k <= nf,
                vertex_num == initializer.vertex_num,
                np > 0,
                partitions_ok_upto(ps, vertex_num as int, np as int),
                fusions_ok_upto(ps, fs, k as int),
                forall|j: int| 0 <= j < np ==> #[trigger] ps[j].start <= ps[j].end <= vertex_num,
                whole_ranges@.len() == np + k,
                owning_ranges@.len() == np + k,
                forall|u: int| 0 <= u < np + k ==> whole_ranges@[u] == whole_range_of(ps, fs, u)
                    && owning_ranges@[u] == owning_range_of(ps, fs, u),
                parents@.len() == n,
                forall|u: int| 0 <= u < n ==> (#[trigger] parents@[u] matches Some(p) ==> np <= p < np + k
                    && fuses(fs, p - np, u)),
                forall|u: int, j: int| 0 <= u < n && 0 <= j < k && #[trigger] fuses(fs, j, u) ==> parents@[u] == Some((np + j) as usize),
                forall|j: int| 0 <= j < k ==> #[trigger] fs[j].0 < np + j && fs[j].1 < np + j && fs[j].0 != fs[j].1,
                forall|j: int| 0 <= j < k ==> whole_range_of(ps, fs, #[trigger] fs[j].0 as int).end
                    <= whole_range_of(ps, fs, fs[j].1 as int).start,
            decreases nf - k,
        {
            let unit_index = np + k;
            let (left, right) = config.fusions[k];
            if left >= unit_index || right >= unit_index {
                return Err(PartitionError::FusionDependency { fusion: k });
            }
            let ghost parents0 = parents@;
            proof {
                assert forall|u: int| 0 <= u < n && parents0[u] is None implies !#[trigger] fused_before(fs, u, k as int) by {
                    if fused_before(fs, u, k as int) {
                        let j = choose|j: int| 0 <= j < k && #[trigger] fuses(fs, j, u);
                        assert(parents0[u] == Some((np + j) as usize));
                    }
                }
            }
            if let Some(p) = parents[left] {
                proof {
                    assert(fuses(fs, p - np, left as int));
                    assert(fuses(fs, k as int, left as int));
                    assert(fused_twice(fs, left as int));
                    assert(fused_before(fs, left as int, k as int));
                    assert(fusions_ok_upto(ps, fs, k as int));
                }
                return Err(PartitionError::FusedTwice { unit: left });
            }
            parents.set(left, Some(unit_index));
            if let Some(p) = parents[right] {
                proof {
                    if p == unit_index {
                        assert(fs[k as int].0 == right && fs[k as int].1 == right);
                    } else {
                        assert(fuses(fs, p - np, right as int));
                        assert(fuses(fs, k as int, right as int));
                        assert(fused_before(fs, right as int, k as int));
                    }
                    assert(fused_twice(fs, right as int));
                    assert(!fused_before(fs, left as int, k as int));
                    assert(fusions_ok_upto(ps, fs, k as int));
                }
                return Err(PartitionError::FusedTwice { unit: right });
            }
            parents.set(right, Some(unit_index));
            let left_range = whole_ranges[left];
            let right_range = whole_ranges[right];
            proof {
                assert(parents0[right as int] is None);
                assert(!fused_before(fs, left as int, k as int));
                assert(!fused_before(fs, right as int, k as int));
            }
            if left_range.end > right_range.start {
                return Err(PartitionError::FusionOrder { fusion: k });
            }
            let (whole_range, interface_range) = left_range.fuse(&right_range);
            whole_ranges.push(whole_range);
            owning_ranges.push(interface_range);
            proof {
                assert(fusion_ok(ps, fs, k as int));
                assert forall|j: int| 0 <= j < k + 1 implies #[trigger] fusion_ok(ps, fs, j) by {
                    if j < k {
                        assert(fusion_ok(ps, fs, j));
                    }
                }
            }
            k += 1;
        }
        assert(n >= 1);
        let mut u: usize = 0;
        while u < n - 1
            invariant
                u <= n - 1,
                n == unit_count(ps, fs),
                vertex_num == initializer.vertex_num,
                np > 0,
                partitions_ok_upto(ps, vertex_num as int, np as int),
                fusions_ok_upto(ps, fs, fs.len() as int),
                fs == config.fusions@,
                ps == config.partitions@,
                np == ps.len(),
                parents@.len() == n,
                forall|w: int| 0 <= w < n ==> (#[trigger] parents@[w] matches Some(p) ==> np <= p < n
                    && fuses(fs, p - np, w)),
                forall|w: int, j: int| 0 <= w < n && 0 <= j < fs.len() && #[trigger] fuses(fs, j, w) ==> parents@[w] == Some((np + j) as usize),
                forall|w: int| 0 <= w < u ==> #[trigger] is_fused(fs, w),
            decreases n - 1 - u,
        {
            if parents[u].is_none() {
                proof {
                    if is_fused(fs, u as int) {
                        let j = choose|j: int| 0 <= j < fs.len() && #[trigger] fuses(fs, j, u as int);
                        assert(parents@[u as int] == Some((np + j) as usize));
                    }
                }
                return Err(PartitionError::Unfused { unit: u });
            }
            proof {
                let p = parents@[u as int]->Some_0;
                assert(fuses(fs, p - np, u as int));
            }
            u += 1;
        }
        let root_range = whole_ranges[n - 1];
        if root_range.start != 0 || root_range.end != vertex_num {
            return Err(PartitionError::RootRange);
        }
        proof {
            assert forall|w: int| 0 <= w < n implies !#[trigger] fused_twice(fs, w) by {
                if exists|j: int| 0 <= j < fs.len() && fs[j].0 == w && fs[j].1 == w {
                    let j = choose|j: int| 0 <= j < fs.len() && fs[j].0 == w && fs[j].1 == w;
                    assert(fs[j].0 < np + j);
                }
                if exists|k1: int, k2: int| 0 <= k1 < k2 < fs.len() && fuses(fs, k1, w) && fuses(fs, k2, w) {
                    let (k1, k2) = choose|k1: int, k2: int| 0 <= k1 < k2 < fs.len() && fuses(fs, k1, w) && fuses(fs, k2, w);
                    assert(parents@[w] == Some((np + k1) as usize));
                    assert(parents@[w] == Some((np + k2) as usize));
                }
            }
            assert(whole_range_of(ps, fs, n - 1) == (VertexRange { start: 0, end: vertex_num as usize }));
            assert forall|w: int| 0 <= w < n - 1 implies #[trigger] parents@[w] is Some by {
                assert(is_fused(fs, w));
                let j = choose|j: int| 0 <= j < fs.len() && #[trigger] fuses(fs, j, w);
                assert(parents@[w] == Some((np + j) as usize));
            }
            if parents@[n - 1] is Some {
                let p = parents@[n - 1]->Some_0;
                assert(fs[p - np].0 < np + (p - np));
            }
        }
        Ok(Self::build(config, vertex_num, &whole_ranges, &owning_ranges, &parents))
    }

    /// Assembles the units and the owner map of a valid configuration.
    fn build(
        config: &DualModuleParallelConfig,
        vertex_num: usize,
        whole_ranges: &Vec<VertexRange>,
        owning_ranges: &Vec<VertexRange>,
        parents: &Vec<Option<usize>>,
    ) -> (r: PartitionInfo)
        requires
            valid_partition_config(config.partitions@, config.fusions@, vertex_num as int),
            config.partitions@.len() + config.fusions@.len() < usize::MAX,
            whole_ranges@.len() == unit_count(config.partitions@, config.fusions@),
            owning_ranges@.len() == unit_count(config.partitions@, config.fusions@),
            parents@.len() == unit_count(config.partitions@, config.fusions@),
            forall|u: int| 0 <= u < whole_ranges@.len() ==> whole_ranges@[u] == whole_range_of(config.partitions@, config.fusions@, u)
                && owning_ranges@[u] == owning_range_of(config.partitions@, config.fusions@, u),
            forall|w: int| 0 <= w < parents@.len() ==> (#[trigger] parents@[w] matches Some(p)
                ==> config.partitions@.len() <= p < parents@.len() && fuses(config.fusions@, p - config.partitions@.len(), w)),
            forall|w: int| 0 <= w < parents@.len() - 1 ==> #[trigger] parents@[w] is Some,
            parents@[parents@.len() - 1] is None,
        ensures
            r.matches(config.partitions@, config.fusions@, vertex_num as int),
    {
        let ghost ps = config.partitions@;
        let ghost fs = config.fusions@;
        let np = config.partitions.len();
        let n = np + config.fusions.len();
        let mut units: Vec<PartitionUnitInfo> = Vec::new();
        let mut descendant_lists: Vec<Vec<usize>> = Vec::new();
        let mut u: usize = 0;
        while u < n
            invariant
                np == ps.len(),
                n == unit_count(ps, fs),
                ps == config.partitions@,
                fs == config.fusions@,
                valid_partition_config(ps, fs, vertex_num as int),
                u <= n,
                whole_ranges@.len() == n,
                owning_ranges@.len() == n,
                parents@.len() == n,
                forall|w: int| 0 <= w < n ==> whole_ranges@[w] == whole_range_of(ps, fs, w)
                    && owning_ranges@[w] == owning_range_of(ps, fs, w),
                forall|w: int| 0 <= w < n ==> (#[trigger] parents@[w] matches Some(p)
                    ==> np <= p < n && fuses(fs, p - np, w)),
                forall|w: int| 0 <= w < n - 1 ==> #[trigger] parents@[w] is Some,
                parents@[n - 1] is None,
                units@.len() == u,
                descendant_lists@.len() == u,
                forall|w: int| 0 <= w < u ==> #[trigger] units@[w].matches(ps, fs, w),
                forall|w: int| 0 <= w < u ==> #[trigger] descendant_lists@[w]@.to_set() == descendants_of(ps, fs, w),
            decreases n - u,
        {
            let children: Option<(usize, usize)>;
            let leaves: Vec<usize>;
            let descendant_list: Vec<usize>;
            if u < np {
                children = None;
                leaves = vec![u];
                descendant_list = Vec::new();
                proof {
                    assert(leaves@ =~= leaves_of(ps, fs, u as int));
                    assert(descendant_list@.to_set() =~= descendants_of(ps, fs, u as int));
                }
            } else {
                let (left, right) = config.fusions[u - np];
                assert(fs[u - np].0 < np + (u - np));
                children = Some((left, right));
                leaves = concat_indices(&units[left].leaves, &units[right].leaves);
                let pair = vec![left, right];
                let below = concat_indices(&descendant_lists[left], &descendant_lists[right]);
                descendant_list = concat_indices(&pair, &below);
                proof {
                    assert(units@[left as int].matches(ps, fs, left as int));
                    assert(units@[right as int].matches(ps, fs, right as int));
                    assert(descendant_lists@[left as int]@.to_set() == descendants_of(ps, fs, left as int));
                    assert(descendant_lists@[right as int]@.to_set() == descendants_of(ps, fs, right as int));
                    vstd::seq_lib::seq_to_set_distributes_over_add(pair@, below@);
                    vstd::seq_lib::seq_to_set_distributes_over_add(descendant_lists@[left as int]@, descendant_lists@[right as int]@);
                    assert(pair@.to_set() =~= set![left, right]) by {
                        assert(pair@[0] == left);
                        assert(pair@[1] == right);
                    }
                    assert(descendant_list@.to_set() =~= descendants_of(ps, fs, u as int));
                }
            }
            let descendants = index_set(&descendant_list);
            let info = PartitionUnitInfo {
                whole_range: whole_ranges[u],
                owning_range: owning_ranges[u],
                children,
                parent: parents[u],
                leaves,
                descendants,
            };
            proof {
                if u < n - 1 {
                    assert(parents@[u as int] is Some);
                }
            }
            units.push(info);
            descendant_lists.push(descendant_list);
            proof {
                assert(units@[u as int].matches(ps, fs, u as int));
            }
            u += 1;
        }
        let mut vertex_to_owning_unit: Vec<usize> = Vec::new();
        let mut v: usize = 0;
        while v < vertex_num
            invariant
                v <= vertex_num,
                vertex_to_owning_unit@.len() == v,
                forall|x: int| 0 <= x < v ==> vertex_to_owning_unit@[x] == usize::MAX,
            decreases vertex_num - v,
        {
            vertex_to_owning_unit.push(usize::MAX);
            v += 1;
        }
        let mut u: usize = 0;
        while u < n
            invariant
                np == ps.len(),
                n == unit_count(ps, fs),
                valid_partition_config(ps, fs, vertex_num as int),
                u <= n,
                owning_ranges@.len() == n,
                forall|w: int| 0 <= w < n ==> owning_ranges@[w] == owning_range_of(ps, fs, w),
                vertex_to_owning_unit@.len() == vertex_num,
                forall|x: int| 0 <= x < vertex_num && #[trigger] vertex_to_owning_unit@[x] != usize::MAX
                    ==> owner_of(ps, fs, x, vertex_to_owning_unit@[x] as int),
                forall|x: int, w: int| 0 <= x < vertex_num && 0 <= w < u && #[trigger] owner_of(ps, fs, x, w)
                    ==> vertex_to_owning_unit@[x] != usize::MAX,
            decreases n - u,
        {
            let range = owning_ranges[u];
            proof {
                lemma_ranges_bounded(ps, fs, vertex_num as int, u as int);
            }
            let mut x: usize = range.start;
            while x < range.end
                invariant
                    n == unit_count(ps, fs),
                    u < n,
                    range == owning_range_of(ps, fs, u as int),
                    range.start <= x <= range.end,
                    range.end <= vertex_num,
                    vertex_to_owning_unit@.len() == vertex_num,
                    forall|y: int| 0 <= y < vertex_num && #[trigger] vertex_to_owning_unit@[y] != usize::MAX
                        ==> owner_of(ps, fs, y, vertex_to_owning_unit@[y] as int),
                    forall|y: int, w: int| 0 <= y < vertex_num && 0 <= w < u && #[trigger] owner_of(ps, fs, y, w)
                        ==> vertex_to_owning_unit@[y] != usize::MAX,
                    forall|y: int| range.start <= y < x ==> vertex_to_owning_unit@[y] != usize::MAX,
                decreases range.end - x,
            {
                vertex_to_owning_unit.set(x, u);
                x += 1;
            }
            u += 1;
        }
        proof {
            assert forall|x: int| 0 <= x < vertex_num implies owner_of(ps, fs, x, #[trigger] vertex_to_owning_unit@[x] as int) by {
                assert(whole_range_of(ps, fs, n - 1).has(x));
                lemma_whole_range_owned(ps, fs, vertex_num as int, n - 1, x);
                let w = choose|w: int| 0 <= w <= n - 1 && owner_of(ps, fs, x, w);
                assert(vertex_to_owning_unit@[x] != usize::MAX);
            }
        }
        PartitionInfo { units, vertex_to_owning_unit }
    }

    /// This is the tree of `ps` and `fs` over `vertex_num` vertices.
    pub open spec fn matches(&self, ps: Seq<VertexRange>, fs: Seq<(usize, usize)>, vertex_num: int) -> bool {
        &&& self.units@.len() == unit_count(ps, fs)
        &&& forall|u: int| 0 <= u < self.units@.len() ==> #[trigger] self.units@[u].matches(ps, fs, u)
        &&& self.vertex_to_owning_unit@.len() == vertex_num
        &&& forall|v: int| 0 <= v < vertex_num ==> owner_of(ps, fs, v, #[trigger] self.vertex_to_owning_unit@[v] as int)
    }
}

} // verus!

verus! {

/// The ranges of a valid tree are well formed and lie inside `[0, vertex_num)`.
pub(crate) proof fn lemma_ranges_bounded(ps: Seq<VertexRange>, fs: Seq<(usize, usize)>, vertex_num: int, u: int)
    requires
        valid_partition_config(ps, fs, vertex_num),
        0 <= u < unit_count(ps, fs),
    ensures
        whole_range_of(ps, fs, u).is_valid(),
        whole_range_of(ps, fs, u).end <= vertex_num,
        owning_range_of(ps, fs, u).is_valid(),
        owning_range_of(ps, fs, u).end <= vertex_num,
    decreases u,
{
    if u >= ps.len() {
        let k = u - ps.len();
        assert(fs[k].0 < ps.len() + k);
        let l = fs[k].0 as int;
        let r = fs[k].1 as int;
        lemma_ranges_bounded(ps, fs, vertex_num, l);
        lemma_ranges_bounded(ps, fs, vertex_num, r);
    }
}

/// Every vertex under unit `u` is owned by `u` or by a unit under it.
proof fn lemma_whole_range_owned(ps: Seq<VertexRange>, fs: Seq<(usize, usize)>, vertex_num: int, u: int, v: int)
    requires
        valid_partition_config(ps, fs, vertex_num),
        0 <= u < unit_count(ps, fs),
        whole_range_of(ps, fs, u).has(v),
    ensures
        exists|w: int| 0 <= w <= u && owner_of(ps, fs, v, w),
    decreases u,
{
    if u < ps.len() {
        assert(owner_of(ps, fs, v, u));
    } else {
        let k = u - ps.len();
        assert(fs[k].0 < ps.len() + k);
        let l = fs[k].0 as int;
        let r = fs[k].1 as int;
        if v < whole_range_of(ps, fs, l).end {
            lemma_whole_range_owned(ps, fs, vertex_num, l, v);
        } else if v < whole_range_of(ps, fs, r).start {
            assert(owner_of(ps, fs, v, u));
        } else {
            lemma_whole_range_owned(ps, fs, vertex_num, r, v);
        }
    }
}

} // verus!

verus! {

/// Unit `w` is unit `u` or lies under it.
pub open spec fn in_subtree(ps: Seq<VertexRange>, fs: Seq<(usize, usize)>, u: int, w: int) -> bool {
    w == u || (0 <= w <= usize::MAX && descendants_of(ps, fs, u).contains(w as usize))
}

pub(crate) proof fn lemma_subtree_bounded(ps: Seq<VertexRange>, fs: Seq<(usize, usize)>, vertex_num: int, u: int, w: int)
    requires
        children_built_first(ps, fs),
        0 <= u < unit_count(ps, fs),
        in_subtree(ps, fs, u, w),
    ensures
        0 <= w <= u,
    decreases u,
{
    if w != u {
        let k = u - ps.len();
        assert(fs[k].0 < ps.len() + k);
        let l = fs[k].0 as int;
        let r = fs[k].1 as int;
        if w != l && w != r {
            if descendants_of(ps, fs, l).contains(w as usize) {
                lemma_subtree_bounded(ps, fs, vertex_num, l, w);
            } else {
                lemma_subtree_bounded(ps, fs, vertex_num, r, w);
            }
        }
    }
}

pub(crate) proof fn lemma_subtree_transitive(ps: Seq<VertexRange>, fs: Seq<(usize, usize)>, vertex_num: int, a: int, b: int, c: int)
    requires
        children_built_first(ps, fs),
        0 <= a < unit_count(ps, fs),
        in_subtree(ps, fs, a, b),
        in_subtree(ps, fs, b, c),
    ensures
        in_subtree(ps, fs, a, c),
    decreases a,
{
    if b != a {
        lemma_subtree_bounded(ps, fs, vertex_num, a, b);
        let k = a - ps.len();
        assert(fs[k].0 < ps.len() + k);
        let l = fs[k].0 as int;
        let r = fs[k].1 as int;
        if in_subtree(ps, fs, l, b) {
            lemma_subtree_transitive(ps, fs, vertex_num, l, b, c);
        } else {
            lemma_subtree_transitive(ps, fs, vertex_num, r, b, c);
        }
    }
}

/// Every unit lies under the last one.
pub(crate) proof fn lemma_under_root(ps: Seq<VertexRange>, fs: Seq<(usize, usize)>, vertex_num: int, w: int)
    requires
        children_built_first(ps, fs),
        all_fused_but_last(ps, fs),
        0 <= w < unit_count(ps, fs),
    ensures
        in_subtree(ps, fs, unit_count(ps, fs) - 1, w),
    decreases unit_count(ps, fs) - w,
{
    let n = unit_count(ps, fs);
    if w < n - 1 {
        assert(is_fused(fs, w));
        let k = choose|k: int| 0 <= k < fs.len() && #[trigger] fuses(fs, k, w);
        let p = ps.len() + k;
        assert(fs[k].0 < ps.len() + k);
        lemma_under_root(ps, fs, vertex_num, p);
        assert(in_subtree(ps, fs, p, w));
        lemma_subtree_transitive(ps, fs, vertex_num, n - 1, p, w);
    }
}

pub(crate) proof fn lemma_subtree_owning(ps: Seq<VertexRange>, fs: Seq<(usize, usize)>, vertex_num: int, u: int, w: int, v: int)
    requires
        valid_partition_config(ps, fs, vertex_num),
        0 <= u < unit_count(ps, fs),
        in_subtree(ps, fs, u, w),
        owning_range_of(ps, fs, w).has(v),
    ensures
        whole_range_of(ps, fs, u).has(v),
    decreases u,
{
    if u >= ps.len() {
        let k = u - ps.len();
        assert(fs[k].0 < ps.len() + k);
        let l = fs[k].0 as int;
        let r = fs[k].1 as int;
        lemma_ranges_bounded(ps, fs, vertex_num, l);
        lemma_ranges_bounded(ps, fs, vertex_num, r);
        if w != u {
            if in_subtree(ps, fs, l, w) {
                lemma_subtree_owning(ps, fs, vertex_num, l, w, v);
            } else {
                lemma_subtree_owning(ps, fs, vertex_num, r, w, v);
            }
        }
    }
}

proof fn lemma_subtree_disjoint(ps: Seq<VertexRange>, fs: Seq<(usize, usize)>, vertex_num: int, u: int, w1: int, w2: int, v: int)
    requires
        valid_partition_config(ps, fs, vertex_num),
        0 <= u < unit_count(ps, fs),
        in_subtree(ps, fs, u, w1),
        in_subtree(ps, fs, u, w2),
        w1 != w2,
    ensures
        !(owning_range_of(ps, fs, w1).has(v) && owning_range_of(ps, fs, w2).has(v)),
    decreases u,
{
    if !(owning_range_of(ps, fs, w1).has(v) && owning_range_of(ps, fs, w2).has(v)) {
        return;
    }
    let k = u - ps.len();
    assert(fs[k].0 < ps.len() + k);
    let l = fs[k].0 as int;
    let r = fs[k].1 as int;
    lemma_ranges_bounded(ps, fs, vertex_num, l);
    lemma_ranges_bounded(ps, fs, vertex_num, r);
    if in_subtree(ps, fs, l, w1) && in_subtree(ps, fs, l, w2) {
        lemma_subtree_disjoint(ps, fs, vertex_num, l, w1, w2, v);
    } else if in_subtree(ps, fs, r, w1) && in_subtree(ps, fs, r, w2) {
        lemma_subtree_disjoint(ps, fs, vertex_num, r, w1, w2, v);
    } else {
        if in_subtree(ps, fs, l, w1) {
            lemma_subtree_owning(ps, fs, vertex_num, l, w1, v);
        }
        if in_subtree(ps, fs, r, w1) {
            lemma_subtree_owning(ps, fs, vertex_num, r, w1, v);
        }
        if in_subtree(ps, fs, l, w2) {
            lemma_subtree_owning(ps, fs, vertex_num, l, w2, v);
        }
        if in_subtree(ps, fs, r, w2) {
            lemma_subtree_owning(ps, fs, vertex_num, r, w2, v);
        }
    }
}

/// The owning ranges of a valid tree partition the vertices: each vertex of
/// `[0, vertex_num)` lies in the owning range of exactly one unit, and no
/// owning range holds a vertex outside it.
pub proof fn lemma_owning_ranges_partition(ps: Seq<VertexRange>, fs: Seq<(usize, usize)>, vertex_num: usize)
    requires
        valid_partition_config(ps, fs, vertex_num as int),
    ensures
        forall|v: int| 0 <= v < vertex_num ==> #[trigger] is_owned(ps, fs, v),
        forall|v: int, u1: int, u2: int| #[trigger] owner_of(ps, fs, v, u1) && #[trigger] owner_of(ps, fs, v, u2) ==> u1 == u2,
        forall|v: int, u: int| #[trigger] owner_of(ps, fs, v, u) ==> 0 <= v < vertex_num,
{
    let n = unit_count(ps, fs);
    assert forall|v: int| 0 <= v < vertex_num implies #[trigger] is_owned(ps, fs, v) by {
        assert(whole_range_of(ps, fs, n - 1).has(v));
        lemma_whole_range_owned(ps, fs, vertex_num as int, n - 1, v);
    }
    assert forall|v: int, u1: int, u2: int| #[trigger] owner_of(ps, fs, v, u1) && #[trigger] owner_of(ps, fs, v, u2) implies u1 == u2 by {
        if u1 != u2 {
            lemma_under_root(ps, fs, vertex_num as int, u1);
            lemma_under_root(ps, fs, vertex_num as int, u2);
            lemma_subtree_disjoint(ps, fs, vertex_num as int, n - 1, u1, u2, v);
        }
    }
    assert forall|v: int, u: int| #[trigger] owner_of(ps, fs, v, u) implies 0 <= v < vertex_num by {
        lemma_ranges_bounded(ps, fs, vertex_num as int, u);
    }
}

/// A valid tree has one root, the last unit; every other unit is the child of
/// exactly one fusion; the children of a fusion are built before it; and every
/// other unit lies under the root.
pub proof fn lemma_tree_shape(ps: Seq<VertexRange>, fs: Seq<(usize, usize)>, vertex_num: usize)
    requires
        valid_partition_config(ps, fs, vertex_num as int),
    ensures
        forall|u: int| 0 <= u < unit_count(ps, fs) ==> (!#[trigger] is_fused(fs, u) <==> u == unit_count(ps, fs) - 1),
        forall|u: int, k1: int, k2: int| 0 <= k1 < fs.len() && 0 <= k2 < fs.len() && #[trigger] fuses(fs, k1, u)
            && #[trigger] fuses(fs, k2, u) ==> k1 == k2,
        forall|k: int| 0 <= k < fs.len() ==> #[trigger] fs[k].0 < ps.len() + k && fs[k].1 < ps.len() + k && fs[k].0 != fs[k].1,
        forall|w: int| 0 <= w < unit_count(ps, fs) - 1 ==> #[trigger] descendants_of(ps, fs, unit_count(ps, fs) - 1).contains(w as usize),
{
    let n = unit_count(ps, fs);
    assert forall|u: int| 0 <= u < n implies (!#[trigger] is_fused(fs, u) <==> u == n - 1) by {
        if u == n - 1 && is_fused(fs, u) {
            let k = choose|k: int| 0 <= k < fs.len() && #[trigger] fuses(fs, k, u);
            assert(fs[k].0 < ps.len() + k);
        }
    }
    assert forall|u: int, k1: int, k2: int| 0 <= k1 < fs.len() && 0 <= k2 < fs.len() && #[trigger] fuses(fs, k1, u)
        && #[trigger] fuses(fs, k2, u) implies k1 == k2 by {
        assert(fs[k1].0 < ps.len() + k1);
        assert(!fused_twice(fs, u));
        if k1 < k2 {
            assert(fuses(fs, k1, u) && fuses(fs, k2, u));
        }
    }
    assert forall|k: int| 0 <= k < fs.len() implies #[trigger] fs[k].0 < ps.len() + k && fs[k].1 < ps.len() + k && fs[k].0 != fs[k].1 by {
        assert(!fused_twice(fs, fs[k].0 as int));
    }
    assert forall|w: int| 0 <= w < n - 1 implies #[trigger] descendants_of(ps, fs, n - 1).contains(w as usize) by {
        lemma_under_root(ps, fs, vertex_num as int, w);
    }
}

} // verus!

verus! {

proof fn lemma_descendants_below(ps: Seq<VertexRange>, fs: Seq<(usize, usize)>, u: int, x: usize)
    requires
        children_built_first(ps, fs),
        0 <= u < unit_count(ps, fs),
        descendants_of(ps, fs, u).contains(x),
    ensures
        x < u,
{
    let k = u - ps.len();
    assert(fs[k].0 < ps.len() + k);
    let l = fs[k].0 as int;
    let r = fs[k].1 as int;
    if x as int != l && x as int != r {
        if descendants_of(ps, fs, l).contains(x) {
            lemma_subtree_bounded(ps, fs, 0, l, x as int);
        } else {
            lemma_subtree_bounded(ps, fs, 0, r, x as int);
        }
    }
}

proof fn lemma_info_parents(info: &PartitionInfo, ps: Seq<VertexRange>, fs: Seq<(usize, usize)>, vertex_num: int)
    requires
        ps.len() > 0,
        children_built_first(ps, fs),
        info.matches(ps, fs, vertex_num),
    ensures
        info.units@[unit_count(ps, fs) - 1].parent is None,
        forall|u: int| 0 <= u < unit_count(ps, fs) - 1 ==> {
            &&& (#[trigger] info.units@[u]).parent matches Some(p)
            &&& u < p < unit_count(ps, fs)
            &&& info.units@[p as int].children matches Some((l, r))
            &&& (u == l || u == r)
        },
{
    let n = unit_count(ps, fs);
    assert(info.units@[n - 1].matches(ps, fs, n - 1));
    assert forall|u: int| 0 <= u < n - 1 implies {
        &&& (#[trigger] info.units@[u]).parent matches Some(p)
        &&& u < p < unit_count(ps, fs)
        &&& info.units@[p as int].children matches Some((l, r))
        &&& (u == l || u == r)
    } by {
        assert(info.units@[u].matches(ps, fs, u));
        let p = info.units@[u].parent->Some_0 as int;
        assert(info.units@[p].matches(ps, fs, p));
        assert(fs[p - ps.len()].0 < p);
    }
}

proof fn lemma_info_children(info: &PartitionInfo, ps: Seq<VertexRange>, fs: Seq<(usize, usize)>, vertex_num: int)
    requires
        info.matches(ps, fs, vertex_num),
    ensures
        forall|u: int| 0 <= u < ps.len() ==> (#[trigger] info.units@[u]).children is None,
        forall|k: int| 0 <= k < fs.len() ==> (#[trigger] info.units@[ps.len() + k]).children == Some(fs[k]),
{
    assert forall|u: int| 0 <= u < ps.len() implies (#[trigger] info.units@[u]).children is None by {
        assert(info.units@[u].matches(ps, fs, u));
    }
    assert forall|k: int| 0 <= k < fs.len() implies (#[trigger] info.units@[ps.len() + k]).children == Some(fs[k]) by {
        assert(info.units@[ps.len() + k].matches(ps, fs, ps.len() + k));
    }
}

proof fn lemma_info_descendants(info: &PartitionInfo, ps: Seq<VertexRange>, fs: Seq<(usize, usize)>, vertex_num: int)
    requires
        children_built_first(ps, fs),
        info.matches(ps, fs, vertex_num),
    ensures
        forall|u: int| 0 <= u < unit_count(ps, fs) ==> {
            &&& (#[trigger] info.units@[u]).children matches Some((l, r)) ==> info.units@[u].descendants@
                == set![l, r].union(info.units@[l as int].descendants@).union(info.units@[r as int].descendants@)
            &&& info.units@[u].children is None ==> info.units@[u].descendants@ == Set::<usize>::empty()
            &&& !info.units@[u].descendants@.contains(u as usize)
        },
{
    assert forall|u: int| 0 <= u < unit_count(ps, fs) implies {
        &&& (#[trigger] info.units@[u]).children matches Some((l, r)) ==> info.units@[u].descendants@
            == set![l, r].union(info.units@[l as int].descendants@).union(info.units@[r as int].descendants@)
        &&& info.units@[u].children is None ==> info.units@[u].descendants@ == Set::<usize>::empty()
        &&& !info.units@[u].descendants@.contains(u as usize)
    } by {
        assert(info.units@.len() == info.units.len());
        assert(info.units@[u].matches(ps, fs, u));
        if u >= ps.len() {
            let k = u - ps.len();
            assert(fs[k].0 < ps.len() + k);
            assert(info.units@[fs[k].0 as int].matches(ps, fs, fs[k].0 as int));
            assert(info.units@[fs[k].1 as int].matches(ps, fs, fs[k].1 as int));
        }
        if info.units@[u].descendants@.contains(u as usize) {
            lemma_descendants_below(ps, fs, u, u as usize);
        }
    }
}

/// The tree that `PartitionInfo::new` builds: the last unit is the only root;
/// every other unit has a parent built after it, which has it as a child; a
/// unit made by fusion `k` has that fusion's pair as children, a leaf has none;
/// and a unit's descendants are its children and theirs, never itself.
pub proof fn lemma_partition_info_shape(info: &PartitionInfo, ps: Seq<VertexRange>, fs: Seq<(usize, usize)>, vertex_num: usize)
    requires
        valid_partition_config(ps, fs, vertex_num as int),
        info.matches(ps, fs, vertex_num as int),
    ensures
        info.units@[unit_count(ps, fs) - 1].parent is None,
        forall|u: int| 0 <= u < unit_count(ps, fs) - 1 ==> {
            &&& (#[trigger] info.units@[u]).parent matches Some(p)
            &&& u < p < unit_count(ps, fs)
            &&& info.units@[p as int].children matches Some((l, r))
            &&& (u == l || u == r)
        },
        forall|u: int| 0 <= u < ps.len() ==> (#[trigger] info.units@[u]).children is None,
        forall|k: int| 0 <= k < fs.len() ==> (#[trigger] info.units@[ps.len() + k]).children == Some(fs[k]),
        forall|u: int| 0 <= u < unit_count(ps, fs) ==> {
            &&& (#[trigger] info.units@[u]).children matches Some((l, r)) ==> info.units@[u].descendants@
                == set![l, r].union(info.units@[l as int].descendants@).union(info.units@[r as int].descendants@)
            &&& info.units@[u].children is None ==> info.units@[u].descendants@ == Set::<usize>::empty()
            &&& !info.units@[u].descendants@.contains(u as usize)
        },
{
    lemma_info_parents(info, ps, fs, vertex_num as int);
    lemma_info_children(info, ps, fs, vertex_num as int);
    lemma_info_descendants(info, ps, fs, vertex_num as int);
}

} // verus!
