//! Basic types shared by the planner and the dual modules.
use vstd::prelude::*;

verus! {

/// Index of a vertex of the decoding graph.
pub type VertexIndex = usize;

/// Index of an edge of the decoding graph.
pub type EdgeIndex = usize;

/// Edge weights and dual variables.
pub type Weight = i64;

/// A half-open range `[start, end)` of vertex indices.
#[derive(Clone, Copy, Debug, PartialEq, Eq, Structural)]
pub struct VertexRange {
    pub start: VertexIndex,
    pub end: VertexIndex,
}

impl VertexRange {
    pub fn new(start: VertexIndex, end: VertexIndex) -> (r: Self)
        ensures
            r.start == start,
            r.end == end,
    {
        VertexRange { start, end }
    }

    pub open spec fn has(self, v: int) -> bool {
        self.start <= v < self.end
    }

    pub open spec fn is_valid(self) -> bool {
        self.start <= self.end
    }

    pub fn start(&self) -> (r: VertexIndex)
        ensures
            r == self.start,
    {
        self.start
    }

    pub fn end(&self) -> (r: VertexIndex)
        ensures
            r == self.end,
    {
        self.end
    }

    pub fn len(&self) -> (r: usize)
        requires
            self.is_valid(),
        ensures
            r == self.end - self.start,
    {
        self.end - self.start
    }

    pub fn contains(&self, v: VertexIndex) -> (r: bool)
        ensures
            r == self.has(v as int),
    {
        self.start <= v && v < self.end
    }

    /// The vertices strictly between `self` and a higher range `other`.
    pub open spec fn gap(self, other: VertexRange) -> VertexRange {
        VertexRange { start: self.end, end: other.start }
    }

    /// The range from the start of `self` to the end of a higher range `other`.
    pub open spec fn span(self, other: VertexRange) -> VertexRange {
        VertexRange { start: self.start, end: other.end }
    }

    /// Fuses `self` with a higher range `other`: returns the range covering both
    /// and the range of the vertices between them.
    pub fn fuse(&self, other: &VertexRange) -> (r: (VertexRange, VertexRange))
        requires
            self.end <= other.start,
        ensures
            r.0 == self.span(*other),
            r.1 == self.gap(*other),
    {
        (VertexRange { start: self.start, end: other.end }, VertexRange { start: self.end, end: other.start })
    }
}

/// The decoding graph as handed to a solver.
#[derive(Clone, Debug)]
pub struct SolverInitializer {
    /// number of vertices; vertices are `0..vertex_num`
    pub vertex_num: VertexIndex,
    /// undirected edges `(i, j, weight)`
    pub weighted_edges: Vec<(VertexIndex, VertexIndex, Weight)>,
    /// boundary vertices
    pub virtual_vertices: Vec<VertexIndex>,
}

impl SolverInitializer {
    pub fn new(
        vertex_num: VertexIndex,
        weighted_edges: Vec<(VertexIndex, VertexIndex, Weight)>,
        virtual_vertices: Vec<VertexIndex>,
    ) -> (r: Self)
        ensures
            r.vertex_num == vertex_num,
            r.weighted_edges@ == weighted_edges@,
            r.virtual_vertices@ == virtual_vertices@,
    {
        SolverInitializer { vertex_num, weighted_edges, virtual_vertices }
    }
}

/// The part of the decoding graph handed to the dual module of one unit.
#[derive(Clone, Debug)]
pub struct PartitionedSolverInitializer {
    /// number of vertices of the whole graph
    pub vertex_num: VertexIndex,
    /// the vertices that this unit owns exclusively
    pub owning_range: VertexRange,
    /// the edges placed in this unit
    pub weighted_edges: Vec<(VertexIndex, VertexIndex, Weight)>,
    /// for each ancestor unit that this unit mirrors vertices of: the ancestor's
    /// index and the mirrored vertices, each with whether it is virtual
    pub interfaces: Vec<(usize, Vec<(VertexIndex, bool)>)>,
    /// the virtual vertices inside the owning range, in increasing order
    pub virtual_vertices: Vec<VertexIndex>,
}

} // verus!
