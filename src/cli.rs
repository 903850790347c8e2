//! The commands and options that a front end hands to the library.
use vstd::prelude::*;

verus! {

/// A parsed command line: at most one command.
pub struct Cli {
    pub command: Option<AppCommand>,
}

/// The two operations.
pub enum AppCommand {
    /// Encode the files under a root into one blob.
    Aggregate { options: Options },
    /// Apply the actions of a blob under a root.
    Distribute { options: Options },
}

/// Options shared by both operations.
pub struct Options {
    /// Root directory; when absent the caller supplies one.
    pub path: Option<String>,
    /// Extensions to take, without the dot; when absent, every file.
    pub extensions: Option<Vec<String>>,
}

} // verus!
