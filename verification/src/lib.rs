//! A compressed sparse fiber (CSF): a hierarchical encoding for sparse
//! multi-dimensional data. A set of (coordinate tuple, value) rows is stored
//! level by level, so that shared coordinate prefixes are stored once; the
//! structure answers full-row reconstruction and weighted column sums.

pub mod aggregate;
pub mod compile;
pub mod construct;
pub mod counts;
pub mod fiber;
pub mod laws;
pub mod order;

pub use construct::BuildError;
pub use counts::partition_index;
pub use fiber::CompressedSparseFiber;
pub use fiber::RowCursor;
