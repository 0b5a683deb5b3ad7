//! The tool's configuration, as plain data: file paths, verbosity, and the
//! chosen command.  Parsing the command line into these values is left to the
//! surrounding program.

use vstd::prelude::*;

verus! {

/// The configuration the tool runs with.
#[derive(Debug, Clone)]
pub struct Cli {
    /// Log verbosity: higher means more output.
    pub debug: u8,
    /// Display timing information at the end of processing.
    pub timing: bool,
    /// File containing the list of domains to block.
    pub domain_block_filename: String,
    /// File containing the list of domains to whitelist, or `-` to skip.
    pub domain_whitelist_filename: String,
    /// Additional personal file with domains to block, or `-` to skip.
    pub hosts_blocked_filename: String,
    pub command: Commands,
}

#[derive(Debug, Clone)]
pub enum Commands {
    /// Pack the domains list into one file.
    Pack {
        /// Output in BIND zone-file format.
        bind: bool,
        output_file: String,
    },
    /// Act as a pipe when tailing the query log.
    Pipe {
        /// Keep only these client IPs (comma-separated list).
        filter: Option<String>,
    },
}

} // verus!
