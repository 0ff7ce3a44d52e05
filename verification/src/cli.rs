//! Scan configuration.

use vstd::prelude::*;

verus! {

/// Options controlling a scan: diagnostic verbosity, worker count
/// (`None` means one worker per available processing unit), the top-N
/// capacity, and the root directory to scan.
#[derive(Debug)]
pub struct Opt {
    pub verbosity: u8,
    pub threads: Option<usize>,
    pub n_items: usize,
    pub root: String,
}

impl Opt {
    /// The worker count to run with: the configured count, or the
    /// number of available processing units when none was configured.
    pub fn effective_threads(&self, available: usize) -> (n: usize)
        ensures
            n == self.threads.unwrap_or(available),
    {
        self.threads.unwrap_or(available)
    }
}

} // verus!
