//! Automatic configuration of parametrised algorithms by iterated local search.

pub mod cache;
pub mod config;
pub mod db;
pub mod debug;
pub mod eval;
pub mod formats;
pub mod ils;
pub mod measure;
pub mod param_file;
pub mod params;
pub mod probe;
pub mod random;
pub mod report;
pub mod scenario;
pub mod text;

pub use debug::{any_debug_active, close_error_log, close_log_file, debug_block, debug_line, enable_debug_stderr};

use vstd::prelude::*;

verus! {

/// Which parts of a run report what they do.
#[derive(Clone, Copy, Debug, PartialEq, Eq, Structural)]
pub struct DebugOptions {
    pub main: bool,
    pub wrapper: bool,
    pub solver: bool,
}

impl Default for DebugOptions {
    fn default() -> (d: DebugOptions)
        ensures
            !d.main && !d.wrapper && !d.solver,
    {
        DebugOptions { main: false, wrapper: false, solver: false }
    }
}

} // verus!
