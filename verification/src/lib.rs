//! Provenance queries for a versioned-dependency resolver: given that a
//! package/version was selected, reconstruct the ordered chain of packages
//! that caused it to be required, from a top-level requirement down to (but
//! excluding) the package itself.
//!
//! Two independent producers build the same result type:
//! a breadth-first search over a finished resolution graph, and a
//! depth-first backtracking search over the solver's recorded
//! "derived from dependency" incompatibilities.

pub mod chain;
pub mod graph;
pub mod seen;
pub mod solver;
pub mod version;

pub use chain::DerivationChain;
pub use chain::DerivationStep;
pub use version::PackageName;
pub use version::Version;
