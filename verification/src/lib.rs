//! ansisnap — snapshot-test CLI and TUI output through a built-in terminal
//! emulator.
//!
//! The pipeline: raw bytes are tokenized by [`parser`] into terminal actions,
//! [`screen`] applies them to a fixed-size cell grid (the same way a real
//! terminal would: cursor movement, scrolling, erases, styles), [`snapshot`]
//! serializes that grid into a reviewable text format, and [`differ`] compares
//! two grids cell by cell so a failing test reports *what changed on screen*,
//! never a wall of escape bytes.

pub mod text;
pub mod parser;
pub mod style;
pub mod screen;
pub mod snapshot;
pub mod differ;
pub mod runner;
pub mod cli;

use vstd::prelude::*;

verus! {

/// Package version, for `--version` and headers.
pub const VERSION: &'static str = "0.1.0";

} // verus!
