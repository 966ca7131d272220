//! Closed sets of run options: the file operation, the directory layout,
//! and the ordering strategy.

use vstd::prelude::*;

verus! {

/// How a planned file is materialized at its destination.
#[derive(Clone, Copy, Debug, PartialEq, Eq, Structural)]
pub enum Mode {
    Copy,
    Move,
    HardLink,
}

/// Which components are joined onto the output root, most to least specific.
#[derive(Clone, Copy, Debug, PartialEq, Eq, Structural)]
pub enum Layout {
    PatientStudySeries,
    StudySeries,
    SeriesOnly,
    Flat,
}

/// Which ordering signal a group is sorted by.
#[derive(Clone, Copy, Debug, PartialEq, Eq, Structural)]
pub enum SortBy {
    Auto,
    Instance,
    Geometry,
}

/// One run's options, as plain values.
pub struct Cli {
    pub input: String,
    pub output: String,
    pub mode: Mode,
    pub dry_run: bool,
    pub follow_symlinks: bool,
    pub layout: Layout,
    pub sort_by: SortBy,
    pub include_phi: bool,
    pub report: Option<String>,
}

} // verus!
