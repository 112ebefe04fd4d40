//! Per-key summary statistics (minimum, maximum, mean) over flat text files of
//! `<key>;<value>` records, computed by a chunked scan-and-reduce pipeline:
//! the file is split into line-aligned byte ranges, each range is scanned by a
//! single-pass byte parser into a local aggregation table, and the local
//! tables are merged into one globally sorted report.

pub mod measurement;
pub mod model;
pub mod order;
pub mod parse;
pub mod pipeline;
pub mod planner;
pub mod reduce;
pub mod render;
pub mod scan;
pub mod table;
