//! A template-driven synthetic data generator: a forest of table templates is
//! walked once per row event, expressions are evaluated against a shared
//! deterministic generation state, and the resulting rows are driven through
//! abstract output sinks. On top of the engine sits a read-only virtual
//! object store that regenerates object contents on demand, byte-identically
//! on every retrieval.

pub mod error;
pub mod eval;
pub mod s3;
pub mod sink;
pub mod table;
pub mod value;
pub mod writer;

use vstd::prelude::*;

verus! {

} // verus!
