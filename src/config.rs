//! Configuration of the parallel dual module.
use vstd::prelude::*;
use crate::util::VertexRange;

verus! {

/// How the decoding graph is partitioned and fused.
#[derive(Clone, Debug)]
pub struct DualModuleParallelConfig {
    /// number of worker threads; 0 means one per core
    pub thread_pool_size: usize,
    /// the vertex ranges of the leaf units; empty means one partition over all vertices
    pub partitions: Vec<VertexRange>,
    /// fusion `k` creates unit `partitions.len() + k` from the two units it names
    pub fusions: Vec<(usize, usize)>,
    /// when true, an edge is placed once, in the lower of its endpoints' units;
    /// when false, every leaf holding both endpoints gets a copy
    pub edges_in_fusion_unit: bool,
}

/// Default number of worker threads.
pub fn thread_pool_size() -> (r: usize)
    ensures
        r == 1,
{
    1
}

/// Default partitions: none, which stands for a single partition.
pub fn partitions() -> (r: Vec<VertexRange>)
    ensures
        r@.len() == 0,
{
    Vec::new()
}

/// Default fusions: none.
pub fn fusions() -> (r: Vec<(usize, usize)>)
    ensures
        r@.len() == 0,
{
    Vec::new()
}

/// Default edge placement: each edge once, in the lower unit.
pub fn edges_in_fusion_unit() -> (r: bool)
    ensures
        r,
{
    true
}

impl Default for DualModuleParallelConfig {
    fn default() -> (r: Self)
        ensures
            r.thread_pool_size == 1,
            r.partitions@.len() == 0,
            r.fusions@.len() == 0,
            r.edges_in_fusion_unit,
    {
        DualModuleParallelConfig {
            thread_pool_size: thread_pool_size(),
            partitions: partitions(),
            fusions: fusions(),
            edges_in_fusion_unit: edges_in_fusion_unit(),
        }
    }
}

} // verus!
