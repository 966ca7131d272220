//! Sorts a pool of medical-imaging files into a deterministic directory
//! hierarchy: records are grouped by study and series, ordered within each
//! group by a geometric or sequence-number signal with a stable tie-break,
//! and assigned collision-free, filesystem-safe destination paths.

pub mod dicom;
pub mod digits;
pub mod fs_ops;
pub mod plan;
pub mod sanitize;
pub mod sort;
mod strutil;
pub mod types;
