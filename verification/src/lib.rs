//! Constraint-description core for rank-1 constraint systems (R1CS) over the
//! BLS12-381 scalar field: variable allocation, linear combinations,
//! constraint enforcement with hierarchical namespacing, canonicalization,
//! satisfiability evaluation, and a deterministic content fingerprint.

pub mod field;
pub mod canon;
pub mod demo;
pub mod digest;
pub mod error;
pub mod eval;
pub mod lc;
pub mod pretty;
pub mod system;
pub mod util;

pub use field::Fr;
pub use lc::Index;
pub use lc::LinearCombination;
pub use lc::Variable;
pub use error::SynthesisError;
pub use system::TestConstraintSystem;
pub use system::compute_path;
pub use util::le_bytes_to_u64s;
pub use demo::DummyDemo;
