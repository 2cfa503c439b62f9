use vstd::prelude::*;

verus! {

/// Command-line options.
pub struct Cli {
    /// Maximum number of threads to use.
    pub max_threads: usize,
    pub command: Commands,
}

/// The three operations.
pub enum Commands {
    /// Pack a directory into an archive, written to `output` if given.
    Pack { input: String, output: Option<String> },
    /// List the contents of an archive; `simple` prints plain lines.
    List { squish: String, simple: bool },
    /// Unpack an archive into `output`, or the current directory.
    Unpack { squish: String, output: Option<String> },
}

} // verus!
