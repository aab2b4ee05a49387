//! The command line: its flags, and the modes they select.
use vstd::prelude::*;

verus! {

/// Where the report goes.
#[derive(Debug, Clone, Copy, PartialEq, Eq, Structural)]
pub enum OutputMode {
    Terminal,
    Json,
}

/// Which locations are measured.
#[derive(Debug, Clone, Copy, PartialEq, Eq, Structural)]
pub enum ScanMode {
    KnownPaths,
    Skip,
}

/// The flags `space` takes.
#[derive(Debug, Clone, PartialEq, Eq)]
pub struct Cli {
    /// List every hidden mount too.
    pub all: bool,
    /// Explain the mount or category that matches this query.
    pub why: Option<String>,
    /// Focus on what can be reclaimed.
    pub reclaimable: bool,
    /// Print the report as JSON.
    pub json: bool,
    /// Do not measure the well-known locations.
    pub no_scan: bool,
}

impl Cli {
    /// JSON when asked for, the terminal dashboard otherwise.
    pub fn output_mode(&self) -> (r: OutputMode)
        ensures
            r == if self.json { OutputMode::Json } else { OutputMode::Terminal },
    {
        if self.json {
            OutputMode::Json
        } else {
            OutputMode::Terminal
        }
    }

    /// No measuring when it is turned off or when a query is explained; the
    /// well-known locations otherwise.
    pub fn scan_mode(&self) -> (r: ScanMode)
        ensures
            r == if self.no_scan || self.why is Some { ScanMode::Skip } else { ScanMode::KnownPaths },
    {
        if self.no_scan || self.why.is_some() {
            ScanMode::Skip
        } else {
            ScanMode::KnownPaths
        }
    }
}

} // verus!
