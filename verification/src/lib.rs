//! An incremental dependency-graph scheduler.
//!
//! Callers register nodes together with the nodes they depend on, seal the
//! graph with `prepare` (which rejects cyclic graphs), and then repeatedly
//! pull the nodes whose dependencies are satisfied with `get_ready`, retiring
//! nodes with `done` as work completes.  A sealed scheduler can be duplicated
//! cheaply: the topology is shared, only the small mutable overlay is copied.

mod cycle;
mod errors;
mod key;
mod prepared;
mod removal;
mod sorter;
mod topology;

pub use errors::SorterError;
pub use key::EqVerdict;
pub use key::NodeKey;
pub use prepared::NodeInfo;
pub use prepared::NodeState;
pub use prepared::PreparedState;
pub use prepared::SchedModel;
pub use sorter::SorterModel;
pub use sorter::State;
pub use sorter::TopologicalSorter;
pub use topology::GraphModel;
pub use topology::Topology;
