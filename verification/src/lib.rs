//! Directory tree statistics: aggregate per-directory file counts, apparent
//! sizes and allocated storage over a filesystem snapshot, then render a
//! depth-first, magnitude-sorted, cutoff-pruned report.

pub mod numfmt;
pub mod options;
pub mod render;
pub mod scan;
pub mod stats;
