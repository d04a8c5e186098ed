pub mod entry;
pub mod format;
pub mod text;
pub mod version;

use vstd::prelude::*;

verus! {

/// Run-time settings for one invocation: where to scan, what command line to
/// emit, and the timeout written at the top of the generated configuration.
pub struct Cli {
    pub title: String,
    pub scan_path: String,
    pub cmdline: String,
    pub timeout: u32,
}

} // verus!
