//! Bookkeeping for batch file operations.
//!
//! Sorting, moving and deleting files is filesystem work done by the
//! embedding; the running tally of processed, succeeded and failed
//! items, and the options that shape date-based sorting, live here.

use vstd::prelude::*;

verus! {

/// The tally of one batch operation over files.
#[derive(Debug, Clone)]
pub struct OperationResult {
    pub processed: usize,
    pub success: usize,
    pub errors: usize,
    pub error_messages: Vec<String>,
}

impl OperationResult {
    /// A fresh tally: nothing processed, no successes, no errors.
    pub fn new() -> (r: OperationResult)
        ensures
            r.processed == 0,
            r.success == 0,
            r.errors == 0,
            r.error_messages@.len() == 0,
    {
        OperationResult { processed: 0, success: 0, errors: 0, error_messages: Vec::new() }
    }

    /// Counts one more item handled successfully.
    pub fn add_success(&mut self)
        requires
            old(self).success < usize::MAX,
        ensures
            final(self).success == old(self).success + 1,
            final(self).processed == old(self).processed,
            final(self).errors == old(self).errors,
            final(self).error_messages == old(self).error_messages,
    {
        self.success = self.success + 1;
    }

    /// Counts one more failed item and keeps its message.
    pub fn add_error(&mut self, msg: String)
        requires
            old(self).errors < usize::MAX,
        ensures
            final(self).errors == old(self).errors + 1,
            final(self).error_messages@ == old(self).error_messages@.push(msg),
            final(self).processed == old(self).processed,
            final(self).success == old(self).success,
    {
        self.errors = self.errors + 1;
        self.error_messages.push(msg);
    }
}

/// Options for date-based sorting: whether to add a per-day folder
/// below the month folder, and whether month folders carry names
/// rather than only numbers.
#[derive(Debug, Clone)]
pub struct SortConfig {
    pub use_day_folder: bool,
    pub use_month_names: bool,
}

} // verus!
