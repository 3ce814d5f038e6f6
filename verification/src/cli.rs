//! Command-line choices that select a corpus source and an agent to set up.

use vstd::prelude::*;

verus! {

/// Source corpus type for `ingest`.
#[derive(Debug, Clone, Copy, PartialEq, Eq)]
pub enum IngestSource {
    /// CBETA Buddhist canon TEI/XML corpus (xml-p5 layout, one file per work).
    Cbeta,
    /// CBETA Buddhist canon from the official ISO distribution (xml-iso layout, one file per fascicle).
    CbetaIso,
    /// CEF (Corpus Exchange Format) JSON-lines file.
    Cef,
    /// Terebess.hu Zen biography pages (SingleFile-saved HTML).
    Terebess,
}

/// Which agent to onboard via `setup`.
#[derive(Debug)]
pub enum SetupAgent {
    /// Verify opencode is installed and show the supported MCP wrapper flow.
    /// Does not install or modify opencode itself.
    Opencode {
        /// Explicit path to opencode (overrides PATH / $OPENCODE_BIN).
        opencode: Option<std::path::PathBuf>,
    },
}

} // verus!
