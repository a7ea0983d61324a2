//! A parallel dual module for minimum-weight perfect matching decoders: the
//! decoding graph is sharded over a binary tree of units, and sibling units are
//! fused into their parent as larger blossoms form.
pub mod util;
pub mod config;
pub mod partition;
pub mod dual_module;
pub mod dual_module_parallel;
pub mod planner;
pub mod placement;
