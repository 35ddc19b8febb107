//! What a run is given, and which of it is accepted before any file is
//! touched.

use vstd::prelude::*;

verus! {

/// The traversal depth of a configuration that names none.
pub const DEFAULT_MAX_DEPTH: u16 = 1;

/// How deep the traversal goes: the entries directly inside the source
/// directory, whatever depth the configuration names.
pub const TRAVERSAL_DEPTH: usize = 1;

/// The exit status of a run whose configuration was rejected.
pub const REJECTED_EXIT_STATUS: i32 = 1;

/// What a run is given.
#[derive(Debug)]
pub struct Config {
    /// The directory that is scanned for log files.
    pub source: String,
    /// The directory that receives the transformed files.
    pub target: String,
    /// The depth asked for. It is kept, and the traversal does not use it.
    pub max_depth: u16,
}

/// Why a configuration was rejected.
#[derive(Debug, Clone, Copy, PartialEq, Eq, Structural)]
pub enum Rejection {
    /// Source and target are written the same.
    SameSourceAndTarget,
    /// The source is not a directory.
    SourceNotDirectory,
}

impl Rejection {
    /// The line that tells the user of the rejection.
    pub fn message(&self) -> (text: &'static str)
        ensures
            text@ == match self {
                Rejection::SameSourceAndTarget =>
                    "Error: source and target are equal, please select a different target directory"@,
                Rejection::SourceNotDirectory => "Error: source must be directory not a file"@,
            },
    {
        match self {
            Rejection::SameSourceAndTarget =>
                "Error: source and target are equal, please select a different target directory",
            Rejection::SourceNotDirectory => "Error: source must be directory not a file",
        }
    }
}

impl Config {
    /// A configuration with the default depth.
    pub fn new(source: String, target: String) -> (config: Config)
        ensures
            config.source == source,
            config.target == target,
            config.max_depth == DEFAULT_MAX_DEPTH,
    {
        Config { source, target, max_depth: DEFAULT_MAX_DEPTH }
    }

    /// What `check` answers, given whether the source is a directory.
    pub open spec fn decision(&self, source_is_dir: bool) -> Result<(), Rejection> {
        if self.source@ == self.target@ {
            Err(Rejection::SameSourceAndTarget)
        } else if !source_is_dir {
            Err(Rejection::SourceNotDirectory)
        } else {
            Ok(())
        }
    }

    /// Accepts or rejects the configuration. Source and target are compared
    /// as they are written, character by character; the caller says whether
    /// the source is a directory.
    pub fn check(&self, source_is_dir: bool) -> (r: Result<(), Rejection>)
        ensures
            r == self.decision(source_is_dir),
    {
        if self.source == self.target {
            Err(Rejection::SameSourceAndTarget)
        } else if !source_is_dir {
            Err(Rejection::SourceNotDirectory)
        } else {
            Ok(())
        }
    }
}

} // verus!
