//! Planning the units' graphs: which ancestor vertices each unit mirrors, and
//! which edges it holds.
use vstd::prelude::*;
use crate::util::{PartitionedSolverInitializer, SolverInitializer, VertexIndex, VertexRange, Weight};
use crate::config::DualModuleParallelConfig;
use crate::partition::{
    PartitionError, PartitionInfo, descendants_of, fuses, in_subtree, is_fused, owning_range_of, unit_count,
    valid_partition_config, lemma_subtree_bounded, lemma_subtree_transitive, lemma_ranges_bounded,
    fused_twice,
};

verus! {

pub type Edge = (VertexIndex, VertexIndex, Weight);

/// Some edge joins `a` and `b`.
pub open spec fn adjacent(edges: Seq<Edge>, a: int, b: int) -> bool {
    exists|e: int| 0 <= e < edges.len() && #[trigger] joins(edges[e], a, b)
}

pub open spec fn joins(edge: Edge, a: int, b: int) -> bool {
    (edge.0 == a && edge.1 == b) || (edge.0 == b && edge.1 == a)
}

/// Vertex `v` has an edge into `range`.
pub open spec fn incident_to_range(edges: Seq<Edge>, v: int, range: VertexRange) -> bool {
    exists|p: int| range.has(p) && #[trigger] adjacent(edges, v, p)
}

/// Some vertex of `range` has an edge into `contained`.
pub open spec fn range_incident_to(edges: Seq<Edge>, range: VertexRange, contained: Set<int>) -> bool {
    exists|v: int, p: int| range.has(v) && contained.contains(p) && #[trigger] adjacent(edges, v, p)
}

pub open spec fn is_virtual(virtuals: Seq<VertexIndex>, v: int) -> bool {
    0 <= v && virtuals.contains(v as VertexIndex)
}

/// The vertices of `range` below `end` that `keep` accepts, each with whether it is virtual.
pub open spec fn mirrors_upto(range: VertexRange, end: int, keep: spec_fn(int) -> bool, virtuals: Seq<VertexIndex>) -> Seq<(VertexIndex, bool)>
    decreases end - range.start,
{
    if end <= range.start {
        Seq::empty()
    } else {
        let before = mirrors_upto(range, end - 1, keep, virtuals);
        if keep(end - 1) {
            before.push(((end - 1) as VertexIndex, is_virtual(virtuals, end - 1)))
        } else {
            before
        }
    }
}

/// The virtual vertices of `range` below `end`, in increasing order.
pub open spec fn virtuals_upto(range: VertexRange, end: int, virtuals: Seq<VertexIndex>) -> Seq<VertexIndex>
    decreases end - range.start,
{
    if end <= range.start {
        Seq::empty()
    } else {
        let before = virtuals_upto(range, end - 1, virtuals);
        if is_virtual(virtuals, end - 1) {
            before.push((end - 1) as VertexIndex)
        } else {
            before
        }
    }
}

/// The unit that fusion takes unit `u` into.
pub open spec fn parent_of(ps: Seq<VertexRange>, fs: Seq<(usize, usize)>, u: int) -> Option<int> {
    if is_fused(fs, u) {
        Some(ps.len() + choose|k: int| 0 <= k < fs.len() && #[trigger] fuses(fs, k, u))
    } else {
        None
    }
}

/// Which vertices of ancestor range `a` a unit owning `own`, holding `contained`
/// so far, mirrors.
pub open spec fn mirror_filter(
    edges: Seq<Edge>,
    edges_in_fusion_unit: bool,
    a: VertexRange,
    own: VertexRange,
    contained: Set<int>,
) -> spec_fn(int) -> bool {
    if edges_in_fusion_unit {
        |v: int| incident_to_range(edges, v, own)
    } else {
        let all = range_incident_to(edges, a, contained);
        |v: int| all
    }
}

/// A plan's interfaces: each ancestor with its mirrored vertices.
pub type InterfacesModel = Seq<(usize, Seq<(VertexIndex, bool)>)>;

/// Walking up from unit `cur` with `contained` held so far: the interfaces met
/// and the vertices held at the end.
pub open spec fn walk_up(
    ps: Seq<VertexRange>,
    fs: Seq<(usize, usize)>,
    edges: Seq<Edge>,
    virtuals: Seq<VertexIndex>,
    edges_in_fusion_unit: bool,
    own: VertexRange,
    cur: int,
    contained: Set<int>,
) -> (InterfacesModel, Set<int>)
    decreases unit_count(ps, fs) - cur,
{
    match parent_of(ps, fs, cur) {
        None => (Seq::empty(), contained),
        Some(p) => {
            if p <= cur || p >= unit_count(ps, fs) {
                (Seq::empty(), contained)
            } else {
                let a = owning_range_of(ps, fs, p);
                let keep = mirror_filter(edges, edges_in_fusion_unit, a, own, contained);
                let mirrors = mirrors_upto(a, a.end as int, keep, virtuals);
                let next = contained.union(Set::new(|v: int| a.has(v) && keep(v)));
                let rest = walk_up(ps, fs, edges, virtuals, edges_in_fusion_unit, own, p, next);
                (if mirrors.len() > 0 { seq![(p as usize, mirrors)] + rest.0 } else { rest.0 }, rest.1)
            }
        },
    }
}

pub open spec fn range_set(range: VertexRange) -> Set<int> {
    Set::new(|v: int| range.has(v))
}

/// The interfaces of unit `u`.
pub open spec fn unit_interfaces(
    ps: Seq<VertexRange>,
    fs: Seq<(usize, usize)>,
    edges: Seq<Edge>,
    virtuals: Seq<VertexIndex>,
    edges_in_fusion_unit: bool,
    u: int,
) -> InterfacesModel {
    let own = owning_range_of(ps, fs, u);
    walk_up(ps, fs, edges, virtuals, edges_in_fusion_unit, own, u, range_set(own)).0
}

/// The vertices unit `u` holds: its own and those it mirrors.
pub open spec fn contained_vertices(
    ps: Seq<VertexRange>,
    fs: Seq<(usize, usize)>,
    edges: Seq<Edge>,
    virtuals: Seq<VertexIndex>,
    edges_in_fusion_unit: bool,
    u: int,
) -> Set<int> {
    let own = owning_range_of(ps, fs, u);
    walk_up(ps, fs, edges, virtuals, edges_in_fusion_unit, own, u, range_set(own)).1
}

pub open spec fn interfaces_view(v: Seq<(usize, Vec<(VertexIndex, bool)>)>) -> InterfacesModel {
    v.map_values(|e: (usize, Vec<(VertexIndex, bool)>)| (e.0, e.1@))
}

pub open spec fn bool_set(flags: Seq<bool>) -> Set<int> {
    Set::new(|v: int| 0 <= v < flags.len() && flags[v])
}

/// `adj` lists, for each vertex, the vertices it shares an edge with.
pub open spec fn is_adjacency(adj: Seq<Vec<VertexIndex>>, edges: Seq<Edge>) -> bool {
    forall|a: int, b: int| 0 <= a < adj.len() ==> (#[trigger] adj[a]@.contains(b as VertexIndex) && 0 <= b <= usize::MAX
        <==> #[trigger] adjacent(edges, a, b))
}

pub open spec fn edges_in_range(edges: Seq<Edge>, vertex_num: int) -> bool {
    forall|e: int| 0 <= e < edges.len() ==> #[trigger] edges[e].0 < vertex_num && edges[e].1 < vertex_num
}

/// The adjacency lists of the graph.
fn build_adjacency(vertex_num: usize, edges: &Vec<Edge>) -> (adj: Vec<Vec<VertexIndex>>)
    requires
        edges_in_range(edges@, vertex_num as int),
    ensures
        adj@.len() == vertex_num,
        is_adjacency(adj@, edges@),
{
    let mut adj: Vec<Vec<VertexIndex>> = Vec::new();
    let mut v: usize = 0;
    while v < vertex_num
        invariant
            v <= vertex_num,
            adj@.len() == v,
            forall|a: int| 0 <= a < v ==> (#[trigger] adj@[a])@.len() == 0,
        decreases vertex_num - v,
    {
        adj.push(Vec::new());
        v += 1;
    }
    let mut e: usize = 0;
    while e < edges.len()
        invariant
            edges_in_range(edges@, vertex_num as int),
            e <= edges@.len(),
            adj@.len() == vertex_num,
            forall|a: int, b: int| 0 <= a < vertex_num ==> (#[trigger] adj@[a]@.contains(b as VertexIndex) && 0 <= b <= usize::MAX
                <==> exists|f: int| 0 <= f < e && #[trigger] joins(edges@[f], a, b)),
        decreases edges@.len() - e,
    {
        let (i, j, _w) = edges[e];
        assert(edges@[e as int].0 < vertex_num);
        let ghost before = adj@;
        adj[i].push(j);
        adj[j].push(i);
        proof {
            assert forall|a: int, b: int| 0 <= a < vertex_num implies (#[trigger] adj@[a]@.contains(b as VertexIndex) && 0 <= b <= usize::MAX
                <==> exists|f: int| 0 <= f < e + 1 && #[trigger] joins(edges@[f], a, b)) by {
                if adj@[a]@.contains(b as VertexIndex) && 0 <= b <= usize::MAX {
                    if before[a]@.contains(b as VertexIndex) {
                        let f = choose|f: int| 0 <= f < e && #[trigger] joins(edges@[f], a, b);
                        assert(joins(edges@[f], a, b));
                    } else {
                        assert(joins(edges@[e as int], a, b));
                    }
                }
                if exists|f: int| 0 <= f < e + 1 && #[trigger] joins(edges@[f], a, b) {
                    let f = choose|f: int| 0 <= f < e + 1 && #[trigger] joins(edges@[f], a, b);
                    if f < e {
                        assert(before[a]@.contains(b as VertexIndex));
                        let k = choose|k: int| 0 <= k < before[a]@.len() && before[a]@[k] == b as VertexIndex;
                        if a == i {
                            assert(adj@[a]@[k] == b as VertexIndex);
                        } else if a == j {
                            assert(adj@[a]@[k] == b as VertexIndex);
                        }
                    } else {
                        if a == j {
                            assert(adj@[a]@.last() == i);
                        } else {
                            assert(adj@[a]@[adj@[a]@.len() - 1] == j || adj@[a]@[adj@[a]@.len() - 2] == j);
                        }
                    }
                }
            }
        }
        e += 1;
    }
    adj
}

} // verus!

verus! {

/// For each vertex, whether it is virtual.
fn virtual_flags(vertex_num: usize, virtuals: &Vec<VertexIndex>) -> (flags: Vec<bool>)
    requires
        forall|i: int| 0 <= i < virtuals@.len() ==> #[trigger] virtuals@[i] < vertex_num,
    ensures
        flags@.len() == vertex_num,
        forall|v: int| 0 <= v < vertex_num ==> #[trigger] flags@[v] == is_virtual(virtuals@, v),
{
    let mut flags: Vec<bool> = Vec::new();
    let mut v: usize = 0;
    while v < vertex_num
        invariant
            v <= vertex_num,
            flags@.len() == v,
            forall|x: int| 0 <= x < v ==> !(#[trigger] flags@[x]),
        decreases vertex_num - v,
    {
        flags.push(false);
        v += 1;
    }
    let mut i: usize = 0;
    while i < virtuals.len()
        invariant
            forall|k: int| 0 <= k < virtuals@.len() ==> #[trigger] virtuals@[k] < vertex_num,
            i <= virtuals@.len(),
            flags@.len() == vertex_num,
            forall|x: int| 0 <= x < vertex_num ==> (#[trigger] flags@[x] <==> exists|k: int| 0 <= k < i && virtuals@[k] == x),
        decreases virtuals@.len() - i,
    {
        let x = virtuals[i];
        flags.set(x, true);
        proof {
            assert forall|y: int| 0 <= y < vertex_num implies (#[trigger] flags@[y] <==> exists|k: int| 0 <= k < i + 1 && virtuals@[k] == y) by {
                if y == x {
                    assert(virtuals@[i as int] == y);
                }
            }
        }
        i += 1;
    }
    proof {
        assert forall|v: int| 0 <= v < vertex_num implies #[trigger] flags@[v] == is_virtual(virtuals@, v) by {
            if flags@[v] {
                let k = choose|k: int| 0 <= k < virtuals@.len() && virtuals@[k] == v;
                assert(virtuals@.contains(v as VertexIndex));
            }
            if is_virtual(virtuals@, v) {
                let k = choose|k: int| 0 <= k < virtuals@.len() && virtuals@[k] == v as VertexIndex;
                assert(virtuals@[k] == v);
            }
        }
    }
    flags
}

/// The virtual vertices of `range`, in increasing order.
fn range_virtuals(range: VertexRange, flags: &Vec<bool>, virtuals: Ghost<Seq<VertexIndex>>) -> (r: Vec<VertexIndex>)
    requires
        range.is_valid(),
        range.end <= flags@.len(),
        forall|v: int| 0 <= v < flags@.len() ==> #[trigger] flags@[v] == is_virtual(virtuals@, v),
    ensures
        r@ == virtuals_upto(range, range.end as int, virtuals@),
{
    let mut r: Vec<VertexIndex> = Vec::new();
    let mut v: usize = range.start;
    while v < range.end
        invariant
            range.start <= v <= range.end,
            range.end <= flags@.len(),
            forall|x: int| 0 <= x < flags@.len() ==> #[trigger] flags@[x] == is_virtual(virtuals@, x),
            r@ == virtuals_upto(range, v as int, virtuals@),
        decreases range.end - v,
    {
        if flags[v] {
            r.push(v);
        }
        v += 1;
    }
    r
}

/// Whether vertex `v` has an edge into `range`.
fn is_incident_to_range(adj: &Vec<Vec<VertexIndex>>, v: usize, range: VertexRange, edges: Ghost<Seq<Edge>>) -> (r: bool)
    requires
        v < adj@.len(),
        is_adjacency(adj@, edges@),
    ensures
        r == incident_to_range(edges@, v as int, range),
{
    let peers = &adj[v];
    let mut i: usize = 0;
    while i < peers.len()
        invariant
            v < adj@.len(),
            peers == adj@[v as int],
            is_adjacency(adj@, edges@),
            i <= peers@.len(),
            forall|k: int| 0 <= k < i ==> !range.has(#[trigger] peers@[k] as int),
        decreases peers@.len() - i,
    {
        if range.contains(peers[i]) {
            proof {
                let p = peers@[i as int] as int;
                assert(adj@[v as int]@.contains(p as VertexIndex));
                assert(adjacent(edges@, v as int, p));
            }
            return true;
        }
        i += 1;
    }
    proof {
        if incident_to_range(edges@, v as int, range) {
            let p = choose|p: int| range.has(p) && #[trigger] adjacent(edges@, v as int, p);
            assert(adj@[v as int]@.contains(p as VertexIndex));
            let k = choose|k: int| 0 <= k < peers@.len() && peers@[k] == p as VertexIndex;
            assert(!range.has(peers@[k] as int));
        }
    }
    false
}

/// Whether some vertex of `range` has an edge into the vertices marked in `contained`.
fn is_range_incident_to(adj: &Vec<Vec<VertexIndex>>, range: VertexRange, contained: &Vec<bool>, edges: Ghost<Seq<Edge>>) -> (r: bool)
    requires
        range.end <= adj@.len(),
        contained@.len() == adj@.len(),
        is_adjacency(adj@, edges@),
    ensures
        r == range_incident_to(edges@, range, bool_set(contained@)),
{
    let mut v: usize = range.start;
    while v < range.end
        invariant
            range.start <= v,
            range.end <= adj@.len(),
            contained@.len() == adj@.len(),
            is_adjacency(adj@, edges@),
            forall|x: int, p: int| range.start <= x < v && bool_set(contained@).contains(p) ==> !#[trigger] adjacent(edges@, x, p),
        decreases range.end - v,
    {
        let peers = &adj[v];
        let mut i: usize = 0;
        while i < peers.len()
            invariant
                v < adj@.len(),
                range.start <= v < range.end,
                peers == adj@[v as int],
                contained@.len() == adj@.len(),
                is_adjacency(adj@, edges@),
                i <= peers@.len(),
                forall|k: int| 0 <= k < i ==> !bool_set(contained@).contains(#[trigger] peers@[k] as int),
            decreases peers@.len() - i,
        {
            let p = peers[i];
            if p < contained.len() && contained[p] {
                proof {
                    let pi = p as int;
                    assert(peers@[i as int] == p);
                    assert(adj@[v as int]@.contains(pi as VertexIndex));
                    assert(adjacent(edges@, v as int, pi));
                    assert(range.has(v as int) && bool_set(contained@).contains(pi));
                }
                return true;
            }
            i += 1;
        }
        proof {
            assert forall|x: int, p: int| range.start <= x < v + 1 && bool_set(contained@).contains(p) implies !#[trigger] adjacent(edges@, x, p) by {
                if x == v && adjacent(edges@, x, p) {
                    assert(adj@[v as int]@.contains(p as VertexIndex));
                    let k = choose|k: int| 0 <= k < peers@.len() && peers@[k] == p as VertexIndex;
                    assert(!bool_set(contained@).contains(peers@[k] as int));
                }
            }
        }
        v += 1;
    }
    false
}

} // verus!

verus! {

/// The vertices of ancestor range `a` that a unit owning `own` mirrors, given
/// the vertices it holds so far; marks them as held.
fn mirror_vertices(
    adj: &Vec<Vec<VertexIndex>>,
    flags: &Vec<bool>,
    a: VertexRange,
    own: VertexRange,
    contained: &mut Vec<bool>,
    edges_in_fusion_unit: bool,
    edges: Ghost<Seq<Edge>>,
    virtuals: Ghost<Seq<VertexIndex>>,
) -> (r: Vec<(VertexIndex, bool)>)
    requires
        a.is_valid(),
        a.end <= adj@.len(),
        flags@.len() == adj@.len(),
        old(contained)@.len() == adj@.len(),
        is_adjacency(adj@, edges@),
        forall|v: int| 0 <= v < flags@.len() ==> #[trigger] flags@[v] == is_virtual(virtuals@, v),
    ensures
        r@ == mirrors_upto(a, a.end as int, mirror_filter(edges@, edges_in_fusion_unit, a, own, bool_set(old(contained)@)), virtuals@),
        final(contained)@.len() == old(contained)@.len(),
        bool_set(final(contained)@) == bool_set(old(contained)@).union(
            Set::new(|v: int| a.has(v) && mirror_filter(edges@, edges_in_fusion_unit, a, own, bool_set(old(contained)@))(v)),
        ),
{
    let ghost keep = mirror_filter(edges@, edges_in_fusion_unit, a, own, bool_set(contained@));
    let ghost start = bool_set(contained@);
    let all = if edges_in_fusion_unit { false } else { is_range_incident_to(adj, a, contained, edges) };
    let mut r: Vec<(VertexIndex, bool)> = Vec::new();
    let mut v: usize = a.start;
    while v < a.end
        invariant
            a.start <= v <= a.end,
            a.end <= adj@.len(),
            flags@.len() == adj@.len(),
            contained@.len() == adj@.len(),
            is_adjacency(adj@, edges@),
            forall|x: int| 0 <= x < flags@.len() ==> #[trigger] flags@[x] == is_virtual(virtuals@, x),
            keep == mirror_filter(edges@, edges_in_fusion_unit, a, own, start),
            !edges_in_fusion_unit ==> all == range_incident_to(edges@, a, start),
            r@ == mirrors_upto(a, v as int, keep, virtuals@),
            bool_set(contained@) == start.union(Set::new(|x: int| a.start <= x < v && keep(x))),
        decreases a.end - v,
    {
        let keep_v = if edges_in_fusion_unit { is_incident_to_range(adj, v, own, edges) } else { all };
        assert(keep_v == keep(v as int));
        let ghost prev = contained@;
        if keep_v {
            r.push((v, flags[v]));
            contained.set(v, true);
        }
        v += 1;
        proof {
            let target = start.union(Set::new(|y: int| a.start <= y < v && keep(y)));
            assert forall|x: int| #[trigger] bool_set(contained@).contains(x) <==> target.contains(x) by {
                assert(bool_set(prev).contains(x) <==> start.union(Set::new(|y: int| a.start <= y < v - 1 && keep(y))).contains(x));
                if x != v - 1 {
                    assert(bool_set(contained@).contains(x) <==> bool_set(prev).contains(x));
                }
            }
            assert(bool_set(contained@) =~= start.union(Set::new(|x: int| a.start <= x < v && keep(x))));
        }
    }
    proof {
        assert(Set::new(|x: int| a.start <= x < v && keep(x)) =~= Set::new(|x: int| a.has(x) && keep(x)));
    }
    r
}

} // verus!

verus! {

/// The tree's parent links are the fusions' children.
pub(crate) proof fn lemma_parent_of(ps: Seq<VertexRange>, fs: Seq<(usize, usize)>, vertex_num: int, info: &PartitionInfo, u: int)
    requires
        valid_partition_config(ps, fs, vertex_num),
        info.matches(ps, fs, vertex_num),
        0 <= u < unit_count(ps, fs),
    ensures
        info.units@[u].parent matches Some(p) ==> parent_of(ps, fs, u) == Some(p as int) && u < p < unit_count(ps, fs),
        info.units@[u].parent is None ==> parent_of(ps, fs, u) is None,
{
    assert(info.units@[u].matches(ps, fs, u));
    if let Some(p) = info.units@[u].parent {
        let k = p - ps.len();
        assert(fuses(fs, k, u));
        assert(is_fused(fs, u));
        let c = choose|c: int| 0 <= c < fs.len() && #[trigger] fuses(fs, c, u);
        assert(!fused_twice(fs, u));
        if c < k {
            assert(fuses(fs, c, u) && fuses(fs, k, u));
        } else if k < c {
            assert(fuses(fs, k, u) && fuses(fs, c, u));
        }
        assert(fs[k].0 < ps.len() + k);
    } else {
        if is_fused(fs, u) {
            let c = choose|c: int| 0 <= c < fs.len() && #[trigger] fuses(fs, c, u);
            assert(fs[c].0 < ps.len() + c);
        }
    }
}

/// The interfaces of unit `u` and the vertices it holds.
fn plan_interfaces(
    info: &PartitionInfo,
    config: &DualModuleParallelConfig,
    vertex_num: usize,
    adj: &Vec<Vec<VertexIndex>>,
    flags: &Vec<bool>,
    u: usize,
    edges: Ghost<Seq<Edge>>,
    virtuals: Ghost<Seq<VertexIndex>>,
) -> (r: (Vec<(usize, Vec<(VertexIndex, bool)>)>, Vec<bool>))
    requires
        valid_partition_config(config.partitions@, config.fusions@, vertex_num as int),
        info.matches(config.partitions@, config.fusions@, vertex_num as int),
        u < unit_count(config.partitions@, config.fusions@),
        adj@.len() == vertex_num,
        flags@.len() == vertex_num,
        is_adjacency(adj@, edges@),
        forall|v: int| 0 <= v < flags@.len() ==> #[trigger] flags@[v] == is_virtual(virtuals@, v),
    ensures
        interfaces_view(r.0@) == unit_interfaces(config.partitions@, config.fusions@, edges@, virtuals@, config.edges_in_fusion_unit, u as int),
        r.1@.len() == vertex_num,
        bool_set(r.1@) == contained_vertices(config.partitions@, config.fusions@, edges@, virtuals@, config.edges_in_fusion_unit, u as int),
{
    let ghost ps = config.partitions@;
    let ghost fs = config.fusions@;
    let ghost mode = config.edges_in_fusion_unit;
    let n = info.units.len();
    let own = info.units[u].owning_range;
    proof {
        assert(info.units@[u as int].matches(ps, fs, u as int));
        lemma_ranges_bounded(ps, fs, vertex_num as int, u as int);
    }
    let mut contained: Vec<bool> = Vec::new();
    let mut v: usize = 0;
    while v < vertex_num
        invariant
            v <= vertex_num,
            contained@.len() == v,
            forall|x: int| 0 <= x < v ==> #[trigger] contained@[x] == own.has(x),
        decreases vertex_num - v,
    {
        contained.push(own.start <= v && v < own.end);
        v += 1;
    }
    assert(bool_set(contained@) =~= range_set(own));
    let ghost goal = walk_up(ps, fs, edges@, virtuals@, mode, own, u as int, range_set(own));
    let mut interfaces: Vec<(usize, Vec<(VertexIndex, bool)>)> = Vec::new();
    let mut cur: usize = u;
    while info.units[cur].parent.is_some()
        invariant
            ps == config.partitions@,
            fs == config.fusions@,
            mode == config.edges_in_fusion_unit,
            valid_partition_config(ps, fs, vertex_num as int),
            info.matches(ps, fs, vertex_num as int),
            n == unit_count(ps, fs),
            cur < n,
            adj@.len() == vertex_num,
            flags@.len() == vertex_num,
            contained@.len() == vertex_num,
            is_adjacency(adj@, edges@),
            forall|x: int| 0 <= x < flags@.len() ==> #[trigger] flags@[x] == is_virtual(virtuals@, x),
            interfaces_view(interfaces@) + walk_up(ps, fs, edges@, virtuals@, mode, own, cur as int, bool_set(contained@)).0 == goal.0,
            walk_up(ps, fs, edges@, virtuals@, mode, own, cur as int, bool_set(contained@)).1 == goal.1,
        decreases n - cur,
    {
        let p = info.units[cur].parent.unwrap();
        proof {
            lemma_parent_of(ps, fs, vertex_num as int, info, cur as int);
            assert(info.units@[p as int].matches(ps, fs, p as int));
            lemma_ranges_bounded(ps, fs, vertex_num as int, p as int);
        }
        let a = info.units[p].owning_range;
        let ghost before = bool_set(contained@);
        let ghost before_interfaces = interfaces_view(interfaces@);
        let mirrors = mirror_vertices(adj, flags, a, own, &mut contained, config.edges_in_fusion_unit, edges, virtuals);
        let has_mirrors = mirrors.len() > 0;
        if has_mirrors {
            interfaces.push((p, mirrors));
        }
        proof {
            let step = walk_up(ps, fs, edges@, virtuals@, mode, own, cur as int, before);
            let rest = walk_up(ps, fs, edges@, virtuals@, mode, own, p as int, bool_set(contained@));
            assert(step.1 == rest.1);
            if has_mirrors {
                assert(interfaces_view(interfaces@) =~= before_interfaces.push((p, mirrors@)));
                assert(step.0 =~= seq![(p, mirrors@)] + rest.0);
                assert(interfaces_view(interfaces@) + rest.0 =~= before_interfaces + step.0);
            } else {
                assert(interfaces_view(interfaces@) =~= before_interfaces);
            }
        }
        cur = p;
    }
    proof {
        lemma_parent_of(ps, fs, vertex_num as int, info, cur as int);
        assert(interfaces_view(interfaces@) + Seq::empty() =~= interfaces_view(interfaces@));
    }
    (interfaces, contained)
}

} // verus!

verus! {

/// A unit's parent lies under every unit that the unit lies strictly under.
pub(crate) proof fn lemma_parent_in_subtree(ps: Seq<VertexRange>, fs: Seq<(usize, usize)>, vertex_num: int, info: &PartitionInfo, d: int, w: int)
    requires
        valid_partition_config(ps, fs, vertex_num),
        info.matches(ps, fs, vertex_num),
        0 <= d < unit_count(ps, fs),
        in_subtree(ps, fs, d, w),
        w != d,
    ensures
        info.units@[w].parent is Some,
        in_subtree(ps, fs, d, info.units@[w].parent->Some_0 as int),
    decreases d,
{
    lemma_subtree_bounded(ps, fs, vertex_num, d, w);
    let k = d - ps.len();
    assert(fs[k].0 < ps.len() + k);
    let l = fs[k].0 as int;
    let r = fs[k].1 as int;
    lemma_parent_of(ps, fs, vertex_num, info, w);
    if w == l || w == r {
        assert(fuses(fs, k, w));
        assert(is_fused(fs, w));
        let c = choose|c: int| 0 <= c < fs.len() && #[trigger] fuses(fs, c, w);
        assert(!fused_twice(fs, w));
        if c < k {
            assert(fuses(fs, c, w) && fuses(fs, k, w));
        } else if k < c {
            assert(fuses(fs, k, w) && fuses(fs, c, w));
        }
    } else {
        let child = if in_subtree(ps, fs, l, w) { l } else { r };
        lemma_parent_in_subtree(ps, fs, vertex_num, info, child, w);
        lemma_subtree_transitive(ps, fs, vertex_num, d, child, info.units@[w].parent->Some_0 as int);
    }
}

/// Whether unit `w` is unit `d` or lies under it.
fn is_under(info: &PartitionInfo, d: usize, w: usize, config: &DualModuleParallelConfig, vertex_num: Ghost<int>) -> (r: bool)
    requires
        valid_partition_config(config.partitions@, config.fusions@, vertex_num@),
        info.matches(config.partitions@, config.fusions@, vertex_num@),
        d < unit_count(config.partitions@, config.fusions@),
        w < unit_count(config.partitions@, config.fusions@),
    ensures
        r == in_subtree(config.partitions@, config.fusions@, d as int, w as int),
{
    let ghost ps = config.partitions@;
    let ghost fs = config.fusions@;
    let mut cur: usize = w;
    while cur < d
        invariant
            ps == config.partitions@,
            fs == config.fusions@,
            valid_partition_config(ps, fs, vertex_num@),
            info.matches(ps, fs, vertex_num@),
            d < unit_count(ps, fs),
            cur < unit_count(ps, fs),
            in_subtree(ps, fs, cur as int, w as int),
            in_subtree(ps, fs, d as int, w as int) ==> in_subtree(ps, fs, d as int, cur as int),
        decreases unit_count(ps, fs) - cur,
    {
        proof {
            lemma_parent_of(ps, fs, vertex_num@, info, cur as int);
            if in_subtree(ps, fs, d as int, w as int) {
                lemma_parent_in_subtree(ps, fs, vertex_num@, info, d as int, cur as int);
            }
        }
        match info.units[cur].parent {
            None => {
                return false;
            },
            Some(p) => {
                proof {
                    assert(info.units@[p as int].matches(ps, fs, p as int));
                    let k = p - ps.len();
                    assert(info.units@[cur as int].matches(ps, fs, cur as int));
                    assert(fuses(fs, k, cur as int));
                    assert(in_subtree(ps, fs, p as int, cur as int));
                    lemma_subtree_transitive(ps, fs, vertex_num@, p as int, cur as int, w as int);
                }
                cur = p;
            },
        }
    }
    proof {
        if in_subtree(ps, fs, d as int, w as int) {
            lemma_subtree_bounded(ps, fs, vertex_num@, d as int, cur as int);
        }
    }
    cur == d
}

} // verus!

verus! {

/// The unit of `e`'s first endpoint lies above that of its second.
pub open spec fn first_is_ancestor(ps: Seq<VertexRange>, fs: Seq<(usize, usize)>, owners: Seq<usize>, e: Edge) -> bool {
    descendants_of(ps, fs, owners[e.0 as int] as int).contains(owners[e.1 as int])
}

/// Of the units owning `e`'s endpoints, the upper one.
pub open spec fn ancestor_unit(ps: Seq<VertexRange>, fs: Seq<(usize, usize)>, owners: Seq<usize>, e: Edge) -> int {
    if first_is_ancestor(ps, fs, owners, e) { owners[e.0 as int] as int } else { owners[e.1 as int] as int }
}

/// Of the units owning `e`'s endpoints, the lower one.
pub open spec fn descendant_unit(ps: Seq<VertexRange>, fs: Seq<(usize, usize)>, owners: Seq<usize>, e: Edge) -> int {
    if first_is_ancestor(ps, fs, owners, e) { owners[e.1 as int] as int } else { owners[e.0 as int] as int }
}

/// `e` joins two distinct vertices whose units lie on one path to the root.
pub open spec fn edge_valid(ps: Seq<VertexRange>, fs: Seq<(usize, usize)>, vertex_num: int, owners: Seq<usize>, e: Edge) -> bool {
    &&& e.0 != e.1
    &&& e.0 < vertex_num
    &&& e.1 < vertex_num
    &&& {
        ||| owners[e.0 as int] == owners[e.1 as int]
        ||| first_is_ancestor(ps, fs, owners, e)
        ||| descendants_of(ps, fs, owners[e.1 as int] as int).contains(owners[e.0 as int])
    }
}

/// Unit `u` holds a copy of edge `e`.
pub open spec fn edge_placed(
    ps: Seq<VertexRange>,
    fs: Seq<(usize, usize)>,
    edges: Seq<Edge>,
    virtuals: Seq<VertexIndex>,
    edges_in_fusion_unit: bool,
    owners: Seq<usize>,
    e: Edge,
    u: int,
) -> bool {
    let d = descendant_unit(ps, fs, owners, e);
    if edges_in_fusion_unit || ancestor_unit(ps, fs, owners, e) < ps.len() {
        u == d
    } else {
        &&& u < ps.len()
        &&& in_subtree(ps, fs, d, u)
        &&& contained_vertices(ps, fs, edges, virtuals, edges_in_fusion_unit, u).contains(e.0 as int)
    }
}

/// Leaf `u` would hold a copy of edge `e` but holds only one of its endpoints.
pub open spec fn edge_split(
    ps: Seq<VertexRange>,
    fs: Seq<(usize, usize)>,
    edges: Seq<Edge>,
    virtuals: Seq<VertexIndex>,
    edges_in_fusion_unit: bool,
    owners: Seq<usize>,
    e: Edge,
    u: int,
) -> bool {
    let held = contained_vertices(ps, fs, edges, virtuals, edges_in_fusion_unit, u);
    &&& !edges_in_fusion_unit
    &&& ancestor_unit(ps, fs, owners, e) >= ps.len()
    &&& 0 <= u < ps.len()
    &&& in_subtree(ps, fs, descendant_unit(ps, fs, owners, e), u)
    &&& held.contains(e.0 as int) != held.contains(e.1 as int)
}

/// Every edge is valid and no leaf splits an edge.
pub open spec fn plan_ok(
    ps: Seq<VertexRange>,
    fs: Seq<(usize, usize)>,
    vertex_num: int,
    edges: Seq<Edge>,
    virtuals: Seq<VertexIndex>,
    edges_in_fusion_unit: bool,
    owners: Seq<usize>,
) -> bool {
    &&& forall|i: int| 0 <= i < virtuals.len() ==> #[trigger] virtuals[i] < vertex_num
    &&& forall|k: int| 0 <= k < edges.len() ==> edge_valid(ps, fs, vertex_num, owners, #[trigger] edges[k])
    &&& forall|k: int, u: int| 0 <= k < edges.len() ==> !#[trigger] edge_split(ps, fs, edges, virtuals, edges_in_fusion_unit, owners, edges[k], u)
}

/// What error `err` says of the edges holds.
pub open spec fn plan_error_holds(
    ps: Seq<VertexRange>,
    fs: Seq<(usize, usize)>,
    vertex_num: int,
    edges: Seq<Edge>,
    virtuals: Seq<VertexIndex>,
    edges_in_fusion_unit: bool,
    owners: Seq<usize>,
    err: PartitionError,
) -> bool {
    match err {
        PartitionError::VirtualOutOfBounds { index } => index < virtuals.len() && virtuals[index as int] >= vertex_num,
        PartitionError::SelfLoop { edge } => edge < edges.len() && edges[edge as int].0 == edges[edge as int].1,
        PartitionError::EdgeOutOfBounds { edge } => edge < edges.len() && (edges[edge as int].0 >= vertex_num
            || edges[edge as int].1 >= vertex_num),
        PartitionError::CrossPartitionEdge { edge } => edge < edges.len() && !edge_valid(ps, fs, vertex_num, owners, edges[edge as int])
            && edges[edge as int].0 != edges[edge as int].1 && edges[edge as int].0 < vertex_num && edges[edge as int].1 < vertex_num,
        PartitionError::SplitEdge { edge, unit } => edge < edges.len()
            && edge_split(ps, fs, edges, virtuals, edges_in_fusion_unit, owners, edges[edge as int], unit as int),
        _ => false,
    }
}

/// Checks every edge; for each, the units of its upper and lower endpoint.
fn check_edges(info: &PartitionInfo, config: &DualModuleParallelConfig, initializer: &SolverInitializer) -> (r: Result<Vec<(usize, usize)>, PartitionError>)
    requires
        valid_partition_config(config.partitions@, config.fusions@, initializer.vertex_num as int),
        info.matches(config.partitions@, config.fusions@, initializer.vertex_num as int),
    ensures
        r is Ok <==> forall|k: int| 0 <= k < initializer.weighted_edges@.len() ==> edge_valid(config.partitions@, config.fusions@,
            initializer.vertex_num as int, info.vertex_to_owning_unit@, #[trigger] initializer.weighted_edges@[k]),
        r matches Err(err) ==> plan_error_holds(config.partitions@, config.fusions@, initializer.vertex_num as int,
            initializer.weighted_edges@, initializer.virtual_vertices@, config.edges_in_fusion_unit, info.vertex_to_owning_unit@, err),
        r matches Ok(ends) ==> ends@.len() == initializer.weighted_edges@.len() && forall|k: int| 0 <= k < ends@.len() ==> {
            let e = initializer.weighted_edges@[k];
            &&& (#[trigger] ends@[k]).0 == ancestor_unit(config.partitions@, config.fusions@, info.vertex_to_owning_unit@, e)
            &&& ends@[k].1 == descendant_unit(config.partitions@, config.fusions@, info.vertex_to_owning_unit@, e)
        },
{
    let ghost ps = config.partitions@;
    let ghost fs = config.fusions@;
    let ghost owners = info.vertex_to_owning_unit@;
    let vertex_num = initializer.vertex_num;
    let edges = &initializer.weighted_edges;
    let mut ends: Vec<(usize, usize)> = Vec::new();
    let mut k: usize = 0;
    while k < edges.len()
        invariant
            ps == config.partitions@,
            fs == config.fusions@,
            owners == info.vertex_to_owning_unit@,
            vertex_num == initializer.vertex_num,
            edges == &initializer.weighted_edges,
            valid_partition_config(ps, fs, vertex_num as int),
            info.matches(ps, fs, vertex_num as int),
            k <= edges@.len(),
            ends@.len() == k,
            forall|x: int| 0 <= x < k ==> edge_valid(ps, fs, vertex_num as int, owners, #[trigger] edges@[x]),
            forall|x: int| 0 <= x < k ==> {
                &&& (#[trigger] ends@[x]).0 == ancestor_unit(ps, fs, owners, edges@[x])
                &&& ends@[x].1 == descendant_unit(ps, fs, owners, edges@[x])
            },
        decreases edges@.len() - k,
    {
        let (i, j, _w) = edges[k];
        if i == j {
            return Err(PartitionError::SelfLoop { edge: k });
        }
        if i >= vertex_num || j >= vertex_num {
            return Err(PartitionError::EdgeOutOfBounds { edge: k });
        }
        let i_unit = info.vertex_to_owning_unit[i];
        let j_unit = info.vertex_to_owning_unit[j];
        proof {
            assert(crate::partition::owner_of(ps, fs, i as int, i_unit as int));
            assert(crate::partition::owner_of(ps, fs, j as int, j_unit as int));
            assert(info.units@[i_unit as int].matches(ps, fs, i_unit as int));
            assert(info.units@[j_unit as int].matches(ps, fs, j_unit as int));
        }
        let is_i_ancestor = info.units[i_unit].descendants.contains(&j_unit);
        let is_j_ancestor = info.units[j_unit].descendants.contains(&i_unit);
        if !(is_i_ancestor || is_j_ancestor || i_unit == j_unit) {
            return Err(PartitionError::CrossPartitionEdge { edge: k });
        }
        if is_i_ancestor {
            ends.push((i_unit, j_unit));
        } else {
            ends.push((j_unit, i_unit));
        }
        k += 1;
    }
    Ok(ends)
}

} // verus!

verus! {

/// What the planner knows of the edges and the units' held vertices.
pub open spec fn planning_facts(
    info: &PartitionInfo,
    config: &DualModuleParallelConfig,
    initializer: &SolverInitializer,
    ends: Seq<(usize, usize)>,
    held: Seq<Vec<bool>>,
) -> bool {
    let ps = config.partitions@;
    let fs = config.fusions@;
    let vertex_num = initializer.vertex_num as int;
    let edges = initializer.weighted_edges@;
    let owners = info.vertex_to_owning_unit@;
    &&& valid_partition_config(ps, fs, vertex_num)
    &&& info.matches(ps, fs, vertex_num)
    &&& forall|k: int| 0 <= k < edges.len() ==> edge_valid(ps, fs, vertex_num, owners, #[trigger] edges[k])
    &&& ends.len() == edges.len()
    &&& forall|k: int| 0 <= k < ends.len() ==> {
        &&& (#[trigger] ends[k]).0 == ancestor_unit(ps, fs, owners, edges[k])
        &&& ends[k].1 == descendant_unit(ps, fs, owners, edges[k])
    }
    &&& held.len() == unit_count(ps, fs)
    &&& forall|u: int| 0 <= u < held.len() ==> (#[trigger] held[u])@.len() == vertex_num
        && bool_set(held[u]@) == contained_vertices(ps, fs, edges, initializer.virtual_vertices@, config.edges_in_fusion_unit, u)
}

proof fn lemma_edge_units_bounded(
    info: &PartitionInfo,
    config: &DualModuleParallelConfig,
    initializer: &SolverInitializer,
    ends: Seq<(usize, usize)>,
    held: Seq<Vec<bool>>,
    k: int,
)
    requires
        planning_facts(info, config, initializer, ends, held),
        0 <= k < ends.len(),
    ensures
        ends[k].0 < unit_count(config.partitions@, config.fusions@),
        ends[k].1 < unit_count(config.partitions@, config.fusions@),
        initializer.weighted_edges@[k].0 < initializer.vertex_num,
        initializer.weighted_edges@[k].1 < initializer.vertex_num,
{
    let e = initializer.weighted_edges@[k];
    assert(edge_valid(config.partitions@, config.fusions@, initializer.vertex_num as int, info.vertex_to_owning_unit@, e));
    assert(crate::partition::owner_of(config.partitions@, config.fusions@, e.0 as int, info.vertex_to_owning_unit@[e.0 as int] as int));
    assert(crate::partition::owner_of(config.partitions@, config.fusions@, e.1 as int, info.vertex_to_owning_unit@[e.1 as int] as int));
}

/// Checks that no leaf holds exactly one endpoint of an edge it would hold.
fn check_splits(
    info: &PartitionInfo,
    config: &DualModuleParallelConfig,
    initializer: &SolverInitializer,
    ends: &Vec<(usize, usize)>,
    held: &Vec<Vec<bool>>,
) -> (r: Result<(), PartitionError>)
    requires
        planning_facts(info, config, initializer, ends@, held@),
    ensures
        r is Ok <==> forall|k: int, u: int| 0 <= k < initializer.weighted_edges@.len() ==> !#[trigger] edge_split(config.partitions@,
            config.fusions@, initializer.weighted_edges@, initializer.virtual_vertices@, config.edges_in_fusion_unit,
            info.vertex_to_owning_unit@, initializer.weighted_edges@[k], u),
        r matches Err(err) ==> plan_error_holds(config.partitions@, config.fusions@, initializer.vertex_num as int,
            initializer.weighted_edges@, initializer.virtual_vertices@, config.edges_in_fusion_unit, info.vertex_to_owning_unit@, err),
{
    let ghost ps = config.partitions@;
    let ghost fs = config.fusions@;
    let ghost owners = info.vertex_to_owning_unit@;
    let ghost edges = initializer.weighted_edges@;
    let ghost virtuals = initializer.virtual_vertices@;
    let ghost mode = config.edges_in_fusion_unit;
    let np = config.partitions.len();
    if config.edges_in_fusion_unit {
        return Ok(());
    }
    let mut k: usize = 0;
    while k < ends.len()
        invariant
            planning_facts(info, config, initializer, ends@, held@),
            ps == config.partitions@,
            fs == config.fusions@,
            owners == info.vertex_to_owning_unit@,
            edges == initializer.weighted_edges@,
            virtuals == initializer.virtual_vertices@,
            mode == config.edges_in_fusion_unit,
            !mode,
            np == ps.len(),
            k <= ends@.len(),
            forall|x: int, u: int| 0 <= x < k ==> !#[trigger] edge_split(ps, fs, edges, virtuals, mode, owners, edges[x], u),
        decreases ends@.len() - k,
    {
        let (a, d) = ends[k];
        let (i, j, _w) = initializer.weighted_edges[k];
        proof {
            lemma_edge_units_bounded(info, config, initializer, ends@, held@, k as int);
        }
        if a >= np {
            let mut leaf: usize = 0;
            while leaf < np
                invariant
                    planning_facts(info, config, initializer, ends@, held@),
                    ps == config.partitions@,
                    fs == config.fusions@,
                    owners == info.vertex_to_owning_unit@,
                    edges == initializer.weighted_edges@,
                    virtuals == initializer.virtual_vertices@,
                    mode == config.edges_in_fusion_unit,
                    !mode,
                    np == ps.len(),
                    k < ends@.len(),
                    (a, d) == ends@[k as int],
                    (i, j) == (edges[k as int].0, edges[k as int].1),
                    a >= np,
                    d < unit_count(ps, fs),
                    i < initializer.vertex_num,
                    j < initializer.vertex_num,
                    leaf <= np,
                    forall|u: int| u < leaf ==> !#[trigger] edge_split(ps, fs, edges, virtuals, mode, owners, edges[k as int], u),
                decreases np - leaf,
            {
                let under = is_under(info, d, leaf, config, Ghost(initializer.vertex_num as int));
                proof {
                    assert(held@[leaf as int]@.len() == initializer.vertex_num);
                    assert(bool_set(held@[leaf as int]@).contains(i as int) == held@[leaf as int]@[i as int]);
                    assert(bool_set(held@[leaf as int]@).contains(j as int) == held@[leaf as int]@[j as int]);
                }
                if under && held[leaf][i] != held[leaf][j] {
                    assert(edge_split(ps, fs, edges, virtuals, mode, owners, edges[k as int], leaf as int));
                    return Err(PartitionError::SplitEdge { edge: k, unit: leaf });
                }
                leaf += 1;
            }
        }
        k += 1;
    }
    Ok(())
}

/// The edges that unit `u` holds, in input order.
fn unit_edges(
    info: &PartitionInfo,
    config: &DualModuleParallelConfig,
    initializer: &SolverInitializer,
    ends: &Vec<(usize, usize)>,
    held: &Vec<Vec<bool>>,
    u: usize,
) -> (r: Vec<Edge>)
    requires
        planning_facts(info, config, initializer, ends@, held@),
        u < unit_count(config.partitions@, config.fusions@),
    ensures
        r@ == initializer.weighted_edges@.filter(|e: Edge| edge_placed(config.partitions@, config.fusions@,
            initializer.weighted_edges@, initializer.virtual_vertices@, config.edges_in_fusion_unit, info.vertex_to_owning_unit@, e, u as int)),
{
    let ghost ps = config.partitions@;
    let ghost fs = config.fusions@;
    let ghost owners = info.vertex_to_owning_unit@;
    let ghost edges = initializer.weighted_edges@;
    let ghost virtuals = initializer.virtual_vertices@;
    let ghost mode = config.edges_in_fusion_unit;
    let ghost pred = |e: Edge| edge_placed(ps, fs, edges, virtuals, mode, owners, e, u as int);
    let np = config.partitions.len();
    let mut r: Vec<Edge> = Vec::new();
    let mut k: usize = 0;
    while k < ends.len()
        invariant
            planning_facts(info, config, initializer, ends@, held@),
            ps == config.partitions@,
            fs == config.fusions@,
            owners == info.vertex_to_owning_unit@,
            edges == initializer.weighted_edges@,
            virtuals == initializer.virtual_vertices@,
            mode == config.edges_in_fusion_unit,
            pred == (|e: Edge| edge_placed(ps, fs, edges, virtuals, mode, owners, e, u as int)),
            np == ps.len(),
            u < unit_count(ps, fs),
            k <= ends@.len(),
            r@ == edges.subrange(0, k as int).filter(pred),
        decreases ends@.len() - k,
    {
        let (a, d) = ends[k];
        let e = initializer.weighted_edges[k];
        proof {
            lemma_edge_units_bounded(info, config, initializer, ends@, held@, k as int);
        }
        let placed = if config.edges_in_fusion_unit || a < np {
            u == d
        } else {
            proof {
                assert(held@[u as int]@.len() == initializer.vertex_num);
                assert(bool_set(held@[u as int]@).contains(e.0 as int) == held@[u as int]@[e.0 as int]);
            }
            u < np && is_under(info, d, u, config, Ghost(initializer.vertex_num as int)) && held[u][e.0]
        };
        assert(placed == pred(e));
        proof {
            reveal(Seq::filter);
            assert(edges.subrange(0, k as int + 1).drop_last() =~= edges.subrange(0, k as int));
            assert(edges.subrange(0, k as int + 1).last() == e);
        }
        if placed {
            r.push(e);
        }
        k += 1;
    }
    assert(edges.subrange(0, k as int) =~= edges);
    r
}

} // verus!

verus! {

/// `init` is the part of the graph that the plan gives unit `u`.
pub open spec fn is_unit_plan(
    init: PartitionedSolverInitializer,
    ps: Seq<VertexRange>,
    fs: Seq<(usize, usize)>,
    initializer: SolverInitializer,
    edges_in_fusion_unit: bool,
    owners: Seq<usize>,
    u: int,
) -> bool {
    let own = owning_range_of(ps, fs, u);
    let edges = initializer.weighted_edges@;
    let virtuals = initializer.virtual_vertices@;
    &&& init.vertex_num == initializer.vertex_num
    &&& init.owning_range == own
    &&& interfaces_view(init.interfaces@) == unit_interfaces(ps, fs, edges, virtuals, edges_in_fusion_unit, u)
    &&& init.virtual_vertices@ == virtuals_upto(own, own.end as int, virtuals)
    &&& init.weighted_edges@ == edges.filter(|e: Edge| edge_placed(ps, fs, edges, virtuals, edges_in_fusion_unit, owners, e, u))
}

impl PartitionInfo {
    /// The part of the decoding graph that each unit's dual module gets: its
    /// owning range, the ancestor vertices it mirrors, its virtual vertices and
    /// its edges. Fails exactly when an edge is invalid or, when edges are copied
    /// into leaves, a leaf would hold only one endpoint of an edge.
    pub fn partitioned_initializers(&self, config: &DualModuleParallelConfig, initializer: &SolverInitializer)
        -> (r: Result<Vec<PartitionedSolverInitializer>, PartitionError>)
        requires
            valid_partition_config(config.partitions@, config.fusions@, initializer.vertex_num as int),
            self.matches(config.partitions@, config.fusions@, initializer.vertex_num as int),
        ensures
            r is Ok <==> plan_ok(config.partitions@, config.fusions@, initializer.vertex_num as int, initializer.weighted_edges@,
                initializer.virtual_vertices@, config.edges_in_fusion_unit, self.vertex_to_owning_unit@),
            r matches Err(err) ==> plan_error_holds(config.partitions@, config.fusions@, initializer.vertex_num as int,
                initializer.weighted_edges@, initializer.virtual_vertices@, config.edges_in_fusion_unit, self.vertex_to_owning_unit@, err),
            r matches Ok(inits) ==> inits@.len() == unit_count(config.partitions@, config.fusions@) && forall|u: int|
                0 <= u < inits@.len() ==> is_unit_plan(#[trigger] inits@[u], config.partitions@, config.fusions@, *initializer,
                    config.edges_in_fusion_unit, self.vertex_to_owning_unit@, u),
    {
        let ghost ps = config.partitions@;
        let ghost fs = config.fusions@;
        let ghost edges = initializer.weighted_edges@;
        let ghost virtuals = initializer.virtual_vertices@;
        let ghost mode = config.edges_in_fusion_unit;
        let vertex_num = initializer.vertex_num;
        let mut i: usize = 0;
        while i < initializer.virtual_vertices.len()
            invariant
                vertex_num == initializer.vertex_num,
                i <= initializer.virtual_vertices@.len(),
                forall|j: int| 0 <= j < i ==> #[trigger] initializer.virtual_vertices@[j] < vertex_num,
            decreases initializer.virtual_vertices@.len() - i,
        {
            if initializer.virtual_vertices[i] >= vertex_num {
                return Err(PartitionError::VirtualOutOfBounds { index: i });
            }
            i += 1;
        }
        let ends = match check_edges(self, config, initializer) {
            Ok(ends) => ends,
            Err(err) => {
                return Err(err);
            },
        };
        proof {
            assert forall|e: int| 0 <= e < edges.len() implies #[trigger] edges[e].0 < vertex_num && edges[e].1 < vertex_num by {
                assert(edge_valid(ps, fs, vertex_num as int, self.vertex_to_owning_unit@, edges[e]));
            }
        }
        let adj = build_adjacency(vertex_num, &initializer.weighted_edges);
        let flags = virtual_flags(vertex_num, &initializer.virtual_vertices);
        let n = self.units.len();
        let mut interfaces_all: Vec<Vec<(usize, Vec<(VertexIndex, bool)>)>> = Vec::new();
        let mut held: Vec<Vec<bool>> = Vec::new();
        let mut u: usize = 0;
        while u < n
            invariant
                ps == config.partitions@,
                fs == config.fusions@,
                edges == initializer.weighted_edges@,
                virtuals == initializer.virtual_vertices@,
                mode == config.edges_in_fusion_unit,
                vertex_num == initializer.vertex_num,
                valid_partition_config(ps, fs, vertex_num as int),
                self.matches(ps, fs, vertex_num as int),
                n == unit_count(ps, fs),
                adj@.len() == vertex_num,
                flags@.len() == vertex_num,
                is_adjacency(adj@, edges),
                forall|v: int| 0 <= v < flags@.len() ==> #[trigger] flags@[v] == is_virtual(virtuals, v),
                u <= n,
                interfaces_all@.len() == u,
                held@.len() == u,
                forall|w: int| 0 <= w < u ==> interfaces_view((#[trigger] interfaces_all@[w])@) == unit_interfaces(ps, fs, edges, virtuals, mode, w),
                forall|w: int| 0 <= w < u ==> (#[trigger] held@[w])@.len() == vertex_num
                    && bool_set(held@[w]@) == contained_vertices(ps, fs, edges, virtuals, mode, w),
            decreases n - u,
        {
            let (interfaces, contained) = plan_interfaces(self, config, vertex_num, &adj, &flags, u, Ghost(edges), Ghost(virtuals));
            interfaces_all.push(interfaces);
            held.push(contained);
            u += 1;
        }
        match check_splits(self, config, initializer, &ends, &held) {
            Ok(()) => {},
            Err(err) => {
                return Err(err);
            },
        }
        let mut inits: Vec<PartitionedSolverInitializer> = Vec::new();
        let mut rest = interfaces_all;
        let mut u: usize = 0;
        while u < n
            invariant
                ps == config.partitions@,
                fs == config.fusions@,
                edges == initializer.weighted_edges@,
                virtuals == initializer.virtual_vertices@,
                mode == config.edges_in_fusion_unit,
                vertex_num == initializer.vertex_num,
                planning_facts(self, config, initializer, ends@, held@),
                n == unit_count(ps, fs),
                flags@.len() == vertex_num,
                forall|v: int| 0 <= v < flags@.len() ==> #[trigger] flags@[v] == is_virtual(virtuals, v),
                u <= n,
                rest@.len() == n - u,
                forall|w: int| 0 <= w < n - u ==> interfaces_view((#[trigger] rest@[w])@) == unit_interfaces(ps, fs, edges, virtuals, mode, w + u),
                inits@.len() == u,
                forall|w: int| 0 <= w < u ==> is_unit_plan(#[trigger] inits@[w], ps, fs, *initializer, mode, self.vertex_to_owning_unit@, w),
            decreases n - u,
        {
            let owning_range = self.units[u].owning_range;
            proof {
                assert(self.units@[u as int].matches(ps, fs, u as int));
                crate::partition::lemma_ranges_bounded(ps, fs, vertex_num as int, u as int);
            }
            let interfaces = rest.remove(0);
            let init = PartitionedSolverInitializer {
                vertex_num,
                owning_range,
                weighted_edges: unit_edges(self, config, initializer, &ends, &held, u),
                interfaces,
                virtual_vertices: range_virtuals(owning_range, &flags, Ghost(virtuals)),
            };
            inits.push(init);
            u += 1;
        }
        Ok(inits)
    }
}

} // verus!
