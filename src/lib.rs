//! Per-key minimum, mean and maximum over a flat file of `key;value` records,
//! computed block by block and merged.

pub mod format;
pub mod pipeline;
pub mod plan;
pub mod record;
pub mod scan;
pub mod stats;
