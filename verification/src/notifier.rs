//! Notifier implementations that carry the configuration a renderer needs.

use vstd::prelude::*;

verus! {

/// Configuration for an event renderer: which file the run came from,
/// its source text (for diagnostics with source snippets), and whether
/// command calls are logged too.
#[derive(Debug, PartialEq, Eq)]
pub struct LogNotifier {
    pub file_name: String,
    pub code: String,
    pub verbose: bool,
}

impl LogNotifier {
    /// A quiet logger over the named source file.
    pub fn new(file_name: String, code: String) -> (r: LogNotifier)
        ensures
            r.file_name == file_name,
            r.code == code,
            !r.verbose,
    {
        LogNotifier { file_name, code, verbose: false }
    }

    /// The same logger, with command calls logged too.
    pub fn verbose(self) -> (r: LogNotifier)
        ensures
            r.file_name == self.file_name,
            r.code == self.code,
            r.verbose,
    {
        LogNotifier { verbose: true, ..self }
    }
}

} // verus!
