//! Edge-crossing reduction for layered graph drawings: an exact crossing counter, the
//! pairwise contribution matrix of a layer against its neighbours, a Metropolis reducer
//! over neighbouring pairs that respects group borders, and optimizers that sweep the
//! layers of a graph, optionally keeping a hierarchy of nested groups together.

pub mod aggregation;
pub mod consistency;
pub mod crossings;
pub mod error;
pub mod hierarchy;
pub mod hierarchy_optimizer;
pub mod layers;
pub mod mapping;
pub mod optimizer;
pub mod pairwise;
pub mod reducer;
pub mod sums;
