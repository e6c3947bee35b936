//! Incremental build engine for C/C++ source trees.
//!
//! The library decides which translation units must be recompiled after a
//! change, reconciles orphaned build artifacts, and keeps a persistent
//! staleness store of file-modification timestamps.  All decisions are made
//! over plain observations (paths, timestamps, existence flags) handed in by
//! the caller; running compilers and touching the filesystem is the caller's
//! business.

pub mod assembler;
pub mod buildtable;
pub mod compiler;
pub mod depfile;
pub mod example;
pub mod laws;
pub mod linker;
pub mod strutil;
pub mod tablefile;
pub mod walker;

use vstd::prelude::*;

verus! {

/// A condition that makes the run as a whole fail.
#[derive(Clone, Copy, PartialEq, Eq, Structural, Debug)]
pub enum BuildError {
    /// The source directory holds no recognized translation unit at
    /// all: there is nothing to build.
    NoSourceFiles,
}

/// Command-line options that influence the build, one named boolean each.
#[derive(Clone, Copy, PartialEq, Eq, Structural, Debug)]
pub struct QuikcFlags {
    /// Suppress progress notes that are merely informative.
    pub hide_verbose_output: bool,
    /// Compile only; skip the link stage.
    pub do_not_link: bool,
    /// Suppress all output except errors and tool diagnostics.
    pub hide_output: bool,
    /// Print the version banner.
    pub show_version: bool,
    /// Produce assembly listings instead of object files.
    pub assemble: bool,
}

impl QuikcFlags {
    /// No option set.
    pub fn none() -> (r: QuikcFlags)
        ensures
            r == (QuikcFlags {
                hide_verbose_output: false,
                do_not_link: false,
                hide_output: false,
                show_version: false,
                assemble: false,
            }),
    {
        QuikcFlags {
            hide_verbose_output: false,
            do_not_link: false,
            hide_output: false,
            show_version: false,
            assemble: false,
        }
    }
}

} // verus!
