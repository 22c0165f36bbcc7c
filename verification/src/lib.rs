//! Conversion of Folding@Home per-user contribution summaries into
//! BOINC-style recent-average-credit (RAC) statistics.
//!
//! The library keeps a checkpoint of each participant's decayed credit
//! between runs.  A run loads the checkpoint CSV, aggregates the incoming
//! summary into per-participant credit totals, applies the BOINC
//! exponential-decay update to every affected record, and re-emits the
//! table both as the next checkpoint CSV and as BOINC-format XML.
//!
//! All credit and time scalars are held in fixed point with eight decimal
//! places (the precision of both external text formats), so every value
//! that appears in a checkpoint or in the XML output is represented
//! exactly.

pub mod chars;
pub mod fixed;
pub mod hex;
pub mod pipeline;
pub mod rac;
pub mod summary;
pub mod table;
pub mod user;
