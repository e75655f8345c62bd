//! Detects directed cycles in a resolved dependency set (a lock file's
//! packages), reporting each cyclic package with the cycle path that runs
//! through it.
//!
//! The pipeline has three stages: building a directed graph from package
//! records ([`graph`]), traversing it with a memoized depth-first search that
//! classifies every visited node as cyclic or acyclic ([`detect`]), and
//! rendering the cyclic nodes as deterministic, sorted report lines
//! ([`report`]). [`package`] holds the package identity and record types,
//! [`order`] the lexicographic order the report is sorted by, and [`laws`]
//! the proofs that tie the stages together: recorded cycles are real cycles
//! of the graph, every traversal target is resolved exactly once and never
//! rewritten, an acyclic graph reports nothing, and the whole run is
//! deterministic.

pub mod package;
pub mod order;
pub mod graph;
pub mod detect;
pub mod report;
pub mod laws;

pub use package::PackageId;
pub use package::PackageRecord;
pub use package::PkgView;
pub use package::RecordView;
