//! Per-key minimum, mean and maximum over a buffer of `key;value` lines.
//!
//! The buffer is split into line-aligned ranges (`scan::partition`), each range
//! is aggregated into a table keyed by byte ranges of the buffer
//! (`scan::mapper`, `table::FnvTable`), the tables are merged
//! (`table::merge`, `pipeline::reduce_tables`), and the keys are reported in
//! byte order (`report::report`). Values are read as integers scaled by ten.
use vstd::prelude::*;

pub mod entry;
pub mod fixed;
pub mod fnv;
pub mod table;
pub mod scan;
pub mod report;
pub mod pipeline;

verus! {

} // verus!
