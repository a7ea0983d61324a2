//! What the plan does with the edges: placed once in the lower unit, or copied
//! into every leaf that holds both endpoints.
use vstd::prelude::*;
use vstd::multiset::Multiset;
use crate::util::VertexRange;
use crate::partition::{in_subtree, owner_of, unit_count, valid_partition_config, is_owned, lemma_owning_ranges_partition};
use crate::planner::{Edge, edge_placed, edge_valid, parent_of, walk_up};
use crate::dual_module::DualModuleImpl;
use crate::dual_module_parallel::{owner_map, built_from_plan, DualModuleParallel, DualModuleParallelUnit, UnitCall};

verus! {

/// The edges of units `0..n`, each unit's as `placed(_, u)` selects them, together.
pub open spec fn units_edges(edges: Seq<Edge>, placed: spec_fn(Edge, int) -> bool, n: int) -> Multiset<Edge>
    decreases n,
{
    if n <= 0 {
        Multiset::empty()
    } else {
        units_edges(edges, placed, n - 1).add(edges.filter(|e: Edge| placed(e, n - 1)).to_multiset())
    }
}

proof fn lemma_units_edges_push(edges: Seq<Edge>, placed: spec_fn(Edge, int) -> bool, e: Edge, owner: int, n: int)
    requires
        forall|u: int| #[trigger] placed(e, u) <==> u == owner,
        n >= 0,
    ensures
        units_edges(edges.push(e), placed, n) == if 0 <= owner < n {
            units_edges(edges, placed, n).insert(e)
        } else {
            units_edges(edges, placed, n)
        },
    decreases n,
{
    if n > 0 {
        lemma_units_edges_push(edges, placed, e, owner, n - 1);
        let p = |x: Edge| placed(x, n - 1);
        edges.lemma_filter_push(e, p);
        edges.filter(p).to_multiset_ensures();
        let before = units_edges(edges, placed, n - 1);
        if 0 <= owner < n - 1 {
            assert(units_edges(edges.push(e), placed, n) =~= units_edges(edges, placed, n).insert(e));
        } else if owner == n - 1 {
            assert(units_edges(edges.push(e), placed, n) =~= units_edges(edges, placed, n).insert(e));
        } else {
            assert(units_edges(edges.push(e), placed, n) =~= units_edges(edges, placed, n));
        }
    }
}

proof fn lemma_units_edges_all(edges: Seq<Edge>, placed: spec_fn(Edge, int) -> bool, owner: spec_fn(Edge) -> int, n: int)
    requires
        forall|k: int, u: int| 0 <= k < edges.len() ==> (#[trigger] placed(edges[k], u) <==> u == owner(edges[k])),
        forall|k: int| 0 <= k < edges.len() ==> 0 <= #[trigger] owner(edges[k]) < n,
    ensures
        units_edges(edges, placed, n) == edges.to_multiset(),
    decreases edges.len(),
{
    if edges.len() == 0 {
        assert(units_edges(edges, placed, n) =~= Multiset::empty()) by {
            lemma_units_edges_empty(edges, placed, n);
        }
        edges.to_multiset_ensures();
        assert(edges.to_multiset() =~= Multiset::empty());
    } else {
        let rest = edges.drop_last();
        let e = edges.last();
        assert(edges == rest.push(e));
        assert forall|k: int, u: int| 0 <= k < rest.len() implies (#[trigger] placed(rest[k], u) <==> u == owner(rest[k])) by {
            assert(rest[k] == edges[k]);
        }
        assert forall|k: int| 0 <= k < rest.len() implies 0 <= #[trigger] owner(rest[k]) < n by {
            assert(rest[k] == edges[k]);
        }
        lemma_units_edges_all(rest, placed, owner, n);
        assert forall|u: int| #[trigger] placed(e, u) <==> u == owner(e) by {
            assert(e == edges[edges.len() - 1]);
        }
        assert(0 <= owner(edges[edges.len() - 1]) < n);
        lemma_units_edges_push(rest, placed, e, owner(e), n);
        rest.to_multiset_ensures();
    }
}

proof fn lemma_units_edges_empty(edges: Seq<Edge>, placed: spec_fn(Edge, int) -> bool, n: int)
    requires
        edges.len() == 0,
    ensures
        units_edges(edges, placed, n) =~= Multiset::empty(),
    decreases n,
{
    if n > 0 {
        lemma_units_edges_empty(edges, placed, n - 1);
        let p = |x: Edge| placed(x, n - 1);
        reveal(Seq::filter);
        assert(edges.filter(p) =~= Seq::<Edge>::empty());
        edges.filter(p).to_multiset_ensures();
        assert(edges.filter(p).to_multiset() =~= Multiset::empty());
    }
}

/// With edges placed in the lower unit, the units' edge lists together hold
/// every edge of the graph exactly as often as the graph does.
pub proof fn lemma_edges_in_fusion_unit_cover(
    ps: Seq<VertexRange>,
    fs: Seq<(usize, usize)>,
    vertex_num: usize,
    edges: Seq<Edge>,
    virtuals: Seq<crate::util::VertexIndex>,
)
    requires
        valid_partition_config(ps, fs, vertex_num as int),
        forall|k: int| 0 <= k < edges.len() ==> edge_valid(ps, fs, vertex_num as int, owner_map(ps, fs, vertex_num as int),
            #[trigger] edges[k]),
    ensures
        units_edges(edges, |e: Edge, u: int| edge_placed(ps, fs, edges, virtuals, true, owner_map(ps, fs, vertex_num as int), e, u),
            unit_count(ps, fs)) == edges.to_multiset(),
{
    let owners = owner_map(ps, fs, vertex_num as int);
    let placed = |e: Edge, u: int| edge_placed(ps, fs, edges, virtuals, true, owners, e, u);
    let owner = |e: Edge| crate::planner::descendant_unit(ps, fs, owners, e);
    lemma_owning_ranges_partition(ps, fs, vertex_num);
    assert forall|k: int| 0 <= k < edges.len() implies 0 <= #[trigger] owner(edges[k]) < unit_count(ps, fs) by {
        let e = edges[k];
        assert(edge_valid(ps, fs, vertex_num as int, owners, e));
        assert(is_owned(ps, fs, e.0 as int));
        assert(is_owned(ps, fs, e.1 as int));
        let c0 = choose|u: int| owner_of(ps, fs, e.0 as int, u);
        let c1 = choose|u: int| owner_of(ps, fs, e.1 as int, u);
        assert(owners[e.0 as int] == c0 as usize);
        assert(owners[e.1 as int] == c1 as usize);
    }
    assert forall|k: int, u: int| 0 <= k < edges.len() implies (#[trigger] placed(edges[k], u) <==> u == owner(edges[k])) by {}
    lemma_units_edges_all(edges, placed, owner, unit_count(ps, fs));
}

} // verus!

verus! {

/// Vertex `x` is owned by a unit strictly above unit `cur`.
pub open spec fn owned_above(ps: Seq<VertexRange>, fs: Seq<(usize, usize)>, cur: int, x: int) -> bool {
    exists|a: int| 0 <= a < unit_count(ps, fs) && a != cur && #[trigger] in_subtree(ps, fs, a, cur)
        && crate::partition::owning_range_of(ps, fs, a).has(x)
}

proof fn lemma_walk_up_bounds(
    ps: Seq<VertexRange>,
    fs: Seq<(usize, usize)>,
    vertex_num: int,
    edges: Seq<Edge>,
    virtuals: Seq<crate::util::VertexIndex>,
    mode: bool,
    own: VertexRange,
    cur: int,
    contained: Set<int>,
)
    requires
        crate::partition::children_built_first(ps, fs),
        0 <= cur < unit_count(ps, fs),
    ensures
        contained.subset_of(walk_up(ps, fs, edges, virtuals, mode, own, cur, contained).1),
        forall|x: int| #[trigger] walk_up(ps, fs, edges, virtuals, mode, own, cur, contained).1.contains(x)
            ==> contained.contains(x) || owned_above(ps, fs, cur, x),
    decreases unit_count(ps, fs) - cur,
{
    match parent_of(ps, fs, cur) {
        None => {},
        Some(p) => {
            if cur < p < unit_count(ps, fs) {
                let a = crate::partition::owning_range_of(ps, fs, p);
                let keep = crate::planner::mirror_filter(edges, mode, a, own, contained);
                let next = contained.union(Set::new(|v: int| a.has(v) && keep(v)));
                lemma_walk_up_bounds(ps, fs, vertex_num, edges, virtuals, mode, own, p, next);
                let k = choose|k: int| 0 <= k < fs.len() && #[trigger] crate::partition::fuses(fs, k, cur);
                assert(fs[k].0 < ps.len() + k);
                assert(in_subtree(ps, fs, p, cur));
                let result = walk_up(ps, fs, edges, virtuals, mode, own, cur, contained).1;
                assert forall|x: int| #[trigger] result.contains(x) implies contained.contains(x) || owned_above(ps, fs, cur, x) by {
                    if !contained.contains(x) {
                        if next.contains(x) {
                            assert(a.has(x));
                            assert(in_subtree(ps, fs, p, cur));
                        } else {
                            assert(owned_above(ps, fs, p, x));
                            let b = choose|b: int| 0 <= b < unit_count(ps, fs) && b != p && #[trigger] in_subtree(ps, fs, b, p)
                                && crate::partition::owning_range_of(ps, fs, b).has(x);
                            crate::partition::lemma_subtree_transitive(ps, fs, vertex_num, b, p, cur);
                            crate::partition::lemma_subtree_bounded(ps, fs, vertex_num, b, p);
                            assert(in_subtree(ps, fs, b, cur));
                        }
                    }
                }
            }
        },
    }
}

} // verus!

verus! {

/// With edges copied into leaves, a plan that succeeds gives each edge to
/// exactly the leaves that hold both of its endpoints, and to no other unit.
pub proof fn lemma_leaf_copies(
    ps: Seq<VertexRange>,
    fs: Seq<(usize, usize)>,
    vertex_num: usize,
    edges: Seq<Edge>,
    virtuals: Seq<crate::util::VertexIndex>,
    k: int,
    u: int,
)
    requires
        valid_partition_config(ps, fs, vertex_num as int),
        crate::planner::plan_ok(ps, fs, vertex_num as int, edges, virtuals, false, owner_map(ps, fs, vertex_num as int)),
        unit_count(ps, fs) < usize::MAX,
        0 <= k < edges.len(),
    ensures
        edge_placed(ps, fs, edges, virtuals, false, owner_map(ps, fs, vertex_num as int), edges[k], u) <==> {
            &&& 0 <= u < ps.len()
            &&& crate::planner::contained_vertices(ps, fs, edges, virtuals, false, u).contains(edges[k].0 as int)
            &&& crate::planner::contained_vertices(ps, fs, edges, virtuals, false, u).contains(edges[k].1 as int)
        },
{
    let vn = vertex_num as int;
    let owners = owner_map(ps, fs, vn);
    let e = edges[k];
    let n = unit_count(ps, fs);
    lemma_owning_ranges_partition(ps, fs, vertex_num);
    assert(edge_valid(ps, fs, vn, owners, e));
    assert(is_owned(ps, fs, e.0 as int));
    assert(is_owned(ps, fs, e.1 as int));
    let o0 = choose|w: int| owner_of(ps, fs, e.0 as int, w);
    let o1 = choose|w: int| owner_of(ps, fs, e.1 as int, w);
    assert(owners[e.0 as int] == o0 as usize);
    assert(owners[e.1 as int] == o1 as usize);
    assert(0 <= o0 < n && 0 <= o1 < n);
    let a = crate::planner::ancestor_unit(ps, fs, owners, e);
    let d = crate::planner::descendant_unit(ps, fs, owners, e);
    assert((a == o0 && d == o1) || (a == o1 && d == o0));
    // the upper unit has the lower one under it
    assert(in_subtree(ps, fs, a, d));
    if a < ps.len() {
        assert(d == a);
    }
    let placed = edge_placed(ps, fs, edges, virtuals, false, owners, e, u);
    let own_u = crate::partition::owning_range_of(ps, fs, u);
    let held = crate::planner::contained_vertices(ps, fs, edges, virtuals, false, u);
    if placed {
        crate::partition::lemma_subtree_bounded(ps, fs, vn, d, u);
        if a < ps.len() {
            lemma_walk_up_bounds(ps, fs, vn, edges, virtuals, false, own_u, u, crate::planner::range_set(own_u));
            assert(o0 == u && o1 == u);
            assert(crate::planner::range_set(own_u).contains(e.0 as int));
            assert(crate::planner::range_set(own_u).contains(e.1 as int));
        } else {
            assert(!crate::planner::edge_split(ps, fs, edges, virtuals, false, owners, edges[k], u));
        }
    }
    if 0 <= u < ps.len() && held.contains(e.0 as int) && held.contains(e.1 as int) {
        lemma_walk_up_bounds(ps, fs, vn, edges, virtuals, false, own_u, u, crate::planner::range_set(own_u));
        // each endpoint's owner is `u` or lies above it
        assert(in_subtree(ps, fs, o0, u)) by {
            if !crate::planner::range_set(own_u).contains(e.0 as int) {
                let b = choose|b: int| 0 <= b < n && b != u && #[trigger] in_subtree(ps, fs, b, u)
                    && crate::partition::owning_range_of(ps, fs, b).has(e.0 as int);
                assert(owner_of(ps, fs, e.0 as int, b));
            } else {
                assert(owner_of(ps, fs, e.0 as int, u));
            }
        }
        assert(in_subtree(ps, fs, o1, u)) by {
            if !crate::planner::range_set(own_u).contains(e.1 as int) {
                let b = choose|b: int| 0 <= b < n && b != u && #[trigger] in_subtree(ps, fs, b, u)
                    && crate::partition::owning_range_of(ps, fs, b).has(e.1 as int);
                assert(owner_of(ps, fs, e.1 as int, b));
            } else {
                assert(owner_of(ps, fs, e.1 as int, u));
            }
        }
        assert(in_subtree(ps, fs, d, u));
        if a < ps.len() {
            assert(u == d);
        }
    }
}

} // verus!

verus! {

/// The vertices that a list of interfaces mirrors.
pub open spec fn interface_vertices(interfaces: crate::planner::InterfacesModel) -> Set<int> {
    Set::new(|v: int| exists|i: int, j: int| 0 <= i < interfaces.len() && 0 <= j < interfaces[i].1.len()
        && #[trigger] interfaces[i].1[j].0 == v)
}

/// Some mirrored vertex of `m` is `v`.
pub open spec fn mirrors_hold(m: Seq<(crate::util::VertexIndex, bool)>, v: int) -> bool {
    exists|j: int| 0 <= j < m.len() && #[trigger] m[j].0 == v
}

proof fn lemma_mirrors_vertices(range: VertexRange, end: int, keep: spec_fn(int) -> bool, virtuals: Seq<crate::util::VertexIndex>)
    requires
        0 <= range.start,
        end <= usize::MAX + 1,
    ensures
        forall|v: int| #[trigger] mirrors_hold(crate::planner::mirrors_upto(range, end, keep, virtuals), v)
            <==> (range.start <= v < end && keep(v)),
    decreases end - range.start,
{
    if end > range.start {
        lemma_mirrors_vertices(range, end - 1, keep, virtuals);
        let before = crate::planner::mirrors_upto(range, end - 1, keep, virtuals);
        let now = crate::planner::mirrors_upto(range, end, keep, virtuals);
        assert(now == if keep(end - 1) {
            before.push(((end - 1) as crate::util::VertexIndex, crate::planner::is_virtual(virtuals, end - 1)))
        } else {
            before
        });
        assert forall|v: int| #[trigger] mirrors_hold(now, v) <==> (range.start <= v < end && keep(v)) by {
            if mirrors_hold(now, v) {
                let j = choose|j: int| 0 <= j < now.len() && #[trigger] now[j].0 == v;
                if j < before.len() {
                    assert(before[j].0 == v);
                    assert(mirrors_hold(before, v));
                } else {
                    assert(keep(end - 1));
                    assert(v == end - 1);
                }
            }
            if range.start <= v < end && keep(v) && v < end - 1 {
                assert(mirrors_hold(before, v));
                let j = choose|j: int| 0 <= j < before.len() && #[trigger] before[j].0 == v;
                assert(now[j].0 == v);
            }
            if v == end - 1 && keep(v) {
                assert(now[now.len() - 1].0 == v);
            }
        }
    }
}

proof fn lemma_walk_up_held(
    ps: Seq<VertexRange>,
    fs: Seq<(usize, usize)>,
    edges: Seq<Edge>,
    virtuals: Seq<crate::util::VertexIndex>,
    mode: bool,
    own: VertexRange,
    cur: int,
    contained: Set<int>,
)
    requires
        crate::partition::children_built_first(ps, fs),
        unit_count(ps, fs) <= usize::MAX,
        0 <= cur,
    ensures
        walk_up(ps, fs, edges, virtuals, mode, own, cur, contained).1
            == contained.union(interface_vertices(walk_up(ps, fs, edges, virtuals, mode, own, cur, contained).0)),
    decreases unit_count(ps, fs) - cur,
{
    let result = walk_up(ps, fs, edges, virtuals, mode, own, cur, contained);
    match parent_of(ps, fs, cur) {
        None => {
            assert(result.1 =~= contained.union(interface_vertices(result.0)));
        },
        Some(p) => {
            if p <= cur || p >= unit_count(ps, fs) {
                assert(result.1 =~= contained.union(interface_vertices(result.0)));
            } else {
                let a = crate::partition::owning_range_of(ps, fs, p);
                let keep = crate::planner::mirror_filter(edges, mode, a, own, contained);
                let mirrors = crate::planner::mirrors_upto(a, a.end as int, keep, virtuals);
                let next = contained.union(Set::new(|v: int| a.has(v) && keep(v)));
                let rest = walk_up(ps, fs, edges, virtuals, mode, own, p, next);
                lemma_walk_up_held(ps, fs, edges, virtuals, mode, own, p, next);
                lemma_mirrors_vertices(a, a.end as int, keep, virtuals);
                let mine = Set::new(|v: int| a.has(v) && keep(v));
                if mirrors.len() > 0 {
                    let all = seq![(p as usize, mirrors)] + rest.0;
                    assert(result.0 == all);
                    assert forall|v: int| #[trigger] interface_vertices(all).contains(v)
                        <==> mine.contains(v) || interface_vertices(rest.0).contains(v) by {
                        if interface_vertices(all).contains(v) {
                            let (i, j) = choose|i: int, j: int| 0 <= i < all.len() && 0 <= j < all[i].1.len() && #[trigger] all[i].1[j].0 == v;
                            if i == 0 {
                                assert(mirrors[j].0 == v);
                                assert(mirrors_hold(mirrors, v));
                            } else {
                                assert(rest.0[i - 1].1[j].0 == v);
                            }
                        }
                        if mine.contains(v) {
                            assert(mirrors_hold(mirrors, v));
                            let j = choose|j: int| 0 <= j < mirrors.len() && #[trigger] mirrors[j].0 == v;
                            assert(all[0].1[j].0 == v);
                        }
                        if interface_vertices(rest.0).contains(v) {
                            let (i, j) = choose|i: int, j: int| 0 <= i < rest.0.len() && 0 <= j < rest.0[i].1.len()
                                && #[trigger] rest.0[i].1[j].0 == v;
                            assert(all[i + 1].1[j].0 == v);
                        }
                    }
                    assert(result.1 =~= contained.union(interface_vertices(result.0)));
                } else {
                    assert forall|v: int| !#[trigger] mine.contains(v) by {
                        if mine.contains(v) {
                            assert(mirrors_hold(mirrors, v));
                        }
                    }
                    assert(result.1 =~= contained.union(interface_vertices(result.0)));
                }
            }
        },
    }
}

/// The vertices a unit holds are its owning range and the vertices its
/// interfaces mirror.
pub proof fn lemma_held_vertices(
    ps: Seq<VertexRange>,
    fs: Seq<(usize, usize)>,
    edges: Seq<Edge>,
    virtuals: Seq<crate::util::VertexIndex>,
    mode: bool,
    u: int,
)
    requires
        crate::partition::children_built_first(ps, fs),
        unit_count(ps, fs) <= usize::MAX,
        0 <= u,
    ensures
        crate::planner::contained_vertices(ps, fs, edges, virtuals, mode, u)
            == crate::planner::range_set(crate::partition::owning_range_of(ps, fs, u)).union(
                interface_vertices(crate::planner::unit_interfaces(ps, fs, edges, virtuals, mode, u))),
{
    let own = crate::partition::owning_range_of(ps, fs, u);
    lemma_walk_up_held(ps, fs, edges, virtuals, mode, own, u, crate::planner::range_set(own));
}

} // verus!

verus! {

/// Filters by predicates that agree on every element give the same sequence.
proof fn lemma_filter_agree(s: Seq<Edge>, p: spec_fn(Edge) -> bool, q: spec_fn(Edge) -> bool)
    requires
        forall|k: int| 0 <= k < s.len() ==> p(#[trigger] s[k]) == q(s[k]),
    ensures
        s.filter(p) == s.filter(q),
    decreases s.len(),
{
    reveal(Seq::filter);
    if s.len() > 0 {
        let rest = s.drop_last();
        assert forall|k: int| 0 <= k < rest.len() implies p(#[trigger] rest[k]) == q(rest[k]) by {
            assert(rest[k] == s[k]);
        }
        lemma_filter_agree(rest, p, q);
        assert(p(s[s.len() - 1]) == q(s[s.len() - 1]));
    }
}

/// The edges a unit's dual module was built with.
pub open spec fn built_edges<M: DualModuleImpl>(unit: DualModuleParallelUnit<M>) -> Seq<Edge> {
    match unit.handed()[0] {
        UnitCall::Build(p) => p.weighted_edges@,
        _ => Seq::empty(),
    }
}

/// The edges the dual modules of units `0..n` were built with, together.
pub open spec fn modules_edges<M: DualModuleImpl>(units: Seq<DualModuleParallelUnit<M>>, n: int) -> Multiset<Edge>
    decreases n,
{
    if n <= 0 {
        Multiset::empty()
    } else {
        modules_edges(units, n - 1).add(built_edges(units[n - 1]).to_multiset())
    }
}

/// The module was built by `new_config` from a plan that succeeded.
pub open spec fn built_from_valid_plan<M: DualModuleImpl>(m: &DualModuleParallel<M>) -> bool {
    let ps = m.config.partitions@;
    let fs = m.config.fusions@;
    let vn = m.initializer.vertex_num as int;
    let owners = owner_map(ps, fs, vn);
    &&& valid_partition_config(ps, fs, vn)
    &&& unit_count(ps, fs) < usize::MAX
    &&& crate::planner::plan_ok(ps, fs, vn, m.initializer.weighted_edges@, m.initializer.virtual_vertices@,
        m.config.edges_in_fusion_unit, owners)
    &&& m.units@.len() == unit_count(ps, fs)
    &&& forall|u: int| 0 <= u < m.units@.len() ==> built_from_plan(#[trigger] m.units@[u], ps, fs, m.initializer,
        m.config.edges_in_fusion_unit, owners, u)
}

proof fn lemma_modules_edges_match<M: DualModuleImpl>(m: &DualModuleParallel<M>, n: int)
    requires
        built_from_valid_plan(m),
        0 <= n <= m.units@.len(),
    ensures
        modules_edges(m.units@, n) == units_edges(m.initializer.weighted_edges@, |e: Edge, u: int| edge_placed(
            m.config.partitions@, m.config.fusions@, m.initializer.weighted_edges@, m.initializer.virtual_vertices@,
            m.config.edges_in_fusion_unit, owner_map(m.config.partitions@, m.config.fusions@, m.initializer.vertex_num as int), e, u), n),
    decreases n,
{
    if n > 0 {
        lemma_modules_edges_match(m, n - 1);
        let ps = m.config.partitions@;
        let fs = m.config.fusions@;
        let edges = m.initializer.weighted_edges@;
        let owners = owner_map(ps, fs, m.initializer.vertex_num as int);
        let placed = |e: Edge, u: int| edge_placed(ps, fs, edges, m.initializer.virtual_vertices@, m.config.edges_in_fusion_unit, owners, e, u);
        assert(built_from_plan(m.units@[n - 1], ps, fs, m.initializer, m.config.edges_in_fusion_unit, owners, n - 1));
        lemma_filter_agree(edges, |e: Edge| edge_placed(ps, fs, edges, m.initializer.virtual_vertices@, m.config.edges_in_fusion_unit,
            owners, e, n - 1), |e: Edge| placed(e, n - 1));
    }
}

/// With edges placed in the lower unit, the units' dual modules were built
/// with every edge of the graph, each exactly once.
pub proof fn lemma_module_edges_cover<M: DualModuleImpl>(m: &DualModuleParallel<M>)
    requires
        built_from_valid_plan(m),
        m.config.edges_in_fusion_unit,
    ensures
        modules_edges(m.units@, m.unit_count()) == m.initializer.weighted_edges@.to_multiset(),
{
    let ps = m.config.partitions@;
    let fs = m.config.fusions@;
    lemma_modules_edges_match(m, m.unit_count());
    assert forall|k: int| 0 <= k < m.initializer.weighted_edges@.len() implies edge_valid(ps, fs, m.initializer.vertex_num as int,
        owner_map(ps, fs, m.initializer.vertex_num as int), #[trigger] m.initializer.weighted_edges@[k]) by {}
    lemma_edges_in_fusion_unit_cover(ps, fs, m.initializer.vertex_num, m.initializer.weighted_edges@, m.initializer.virtual_vertices@);
}

/// Unit `u` is a leaf that holds both endpoints of `e`: each lies in its
/// owning range or among the vertices its interfaces mirror.
pub open spec fn leaf_holds_edge(
    ps: Seq<VertexRange>,
    fs: Seq<(usize, usize)>,
    edges: Seq<Edge>,
    virtuals: Seq<crate::util::VertexIndex>,
    u: int,
    e: Edge,
) -> bool {
    let held = crate::planner::range_set(crate::partition::owning_range_of(ps, fs, u)).union(
        interface_vertices(crate::planner::unit_interfaces(ps, fs, edges, virtuals, false, u)));
    u < ps.len() && held.contains(e.0 as int) && held.contains(e.1 as int)
}

/// With edges copied into leaves, each unit's dual module was built with
/// exactly the graph's edges, in order, whose two endpoints the unit holds (its
/// owning range and the vertices its interfaces mirror) if it is a leaf, and
/// with none if it is not.
pub proof fn lemma_module_leaf_edges<M: DualModuleImpl>(m: &DualModuleParallel<M>, u: int)
    requires
        built_from_valid_plan(m),
        !m.config.edges_in_fusion_unit,
        0 <= u < m.unit_count(),
    ensures
        built_edges(m.units@[u]) == m.initializer.weighted_edges@.filter(|e: Edge| leaf_holds_edge(m.config.partitions@,
            m.config.fusions@, m.initializer.weighted_edges@, m.initializer.virtual_vertices@, u, e)),
{
    let ps = m.config.partitions@;
    let fs = m.config.fusions@;
    let edges = m.initializer.weighted_edges@;
    let virtuals = m.initializer.virtual_vertices@;
    let owners = owner_map(ps, fs, m.initializer.vertex_num as int);
    assert(built_from_plan(m.units@[u], ps, fs, m.initializer, false, owners, u));
    lemma_held_vertices(ps, fs, edges, virtuals, false, u);
    let held = crate::planner::range_set(crate::partition::owning_range_of(ps, fs, u)).union(
        interface_vertices(crate::planner::unit_interfaces(ps, fs, edges, virtuals, false, u)));
    assert forall|k: int| 0 <= k < edges.len() implies edge_placed(ps, fs, edges, virtuals, false, owners, #[trigger] edges[k], u)
        == leaf_holds_edge(ps, fs, edges, virtuals, u, edges[k]) by {
        lemma_leaf_copies(ps, fs, m.initializer.vertex_num, edges, virtuals, k, u);
    }
    lemma_filter_agree(edges, |e: Edge| edge_placed(ps, fs, edges, virtuals, false, owners, e, u),
        |e: Edge| leaf_holds_edge(ps, fs, edges, virtuals, u, e));
}

} // verus!

verus! {

proof fn lemma_filter_all(s: Seq<Edge>, p: spec_fn(Edge) -> bool)
    requires
        forall|k: int| 0 <= k < s.len() ==> p(#[trigger] s[k]),
    ensures
        s.filter(p) == s,
    decreases s.len(),
{
    reveal(Seq::filter);
    if s.len() > 0 {
        let rest = s.drop_last();
        assert forall|k: int| 0 <= k < rest.len() implies p(#[trigger] rest[k]) by {
            assert(rest[k] == s[k]);
        }
        lemma_filter_all(rest, p);
        assert(p(s[s.len() - 1]));
        assert(rest.push(s[s.len() - 1]) =~= s);
    }
}

/// With a single unit, its dual module was built with every edge of the graph,
/// in order.
pub proof fn lemma_single_unit_holds_graph<M: DualModuleImpl>(m: &DualModuleParallel<M>)
    requires
        built_from_valid_plan(m),
        m.unit_count() == 1,
    ensures
        built_edges(m.units@[0]) == m.initializer.weighted_edges@,
{
    let ps = m.config.partitions@;
    let fs = m.config.fusions@;
    let vn = m.initializer.vertex_num;
    let edges = m.initializer.weighted_edges@;
    let owners = owner_map(ps, fs, vn as int);
    assert(built_from_plan(m.units@[0], ps, fs, m.initializer, m.config.edges_in_fusion_unit, owners, 0));
    lemma_owning_ranges_partition(ps, fs, vn);
    assert forall|k: int| 0 <= k < edges.len() implies edge_placed(ps, fs, edges, m.initializer.virtual_vertices@,
        m.config.edges_in_fusion_unit, owners, #[trigger] edges[k], 0) by {
        let e = edges[k];
        assert(edge_valid(ps, fs, vn as int, owners, e));
        assert(is_owned(ps, fs, e.0 as int));
        assert(is_owned(ps, fs, e.1 as int));
        let c0 = choose|w: int| owner_of(ps, fs, e.0 as int, w);
        let c1 = choose|w: int| owner_of(ps, fs, e.1 as int, w);
        assert(owners[e.0 as int] == c0 as usize);
        assert(owners[e.1 as int] == c1 as usize);
        assert(ps.len() == 1);
    }
    lemma_filter_all(edges, |e: Edge| edge_placed(ps, fs, edges, m.initializer.virtual_vertices@,
        m.config.edges_in_fusion_unit, owners, e, 0));
}

} // verus!
