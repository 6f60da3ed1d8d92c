//! The running counters of a scan: files seen, bytes seen, directories seen,
//! and the directory being read. They only ever grow until a new scan starts
//! from zero.

use vstd::prelude::*;
use vstd::string::StringExecFns;

verus! {

/// The counters of one scan. A counter that reaches the top of its type stays
/// there.
#[derive(Debug)]
pub struct AtomicCounters {
    pub files_analyzed: u32,
    pub total_size: u64,
    pub folder_count: u32,
    pub current_path: String,
}

/// `a + b`, or `limit` where the sum would pass it.
pub open spec fn capped_sum(a: nat, b: nat, limit: nat) -> nat {
    if a + b > limit {
        limit
    } else {
        a + b
    }
}

impl AtomicCounters {
    /// Counters at zero, for a scan that is about to start.
    pub fn new() -> (counters: AtomicCounters)
        ensures
            counters.files_analyzed == 0,
            counters.total_size == 0,
            counters.folder_count == 0,
            counters.current_path@ == "Starting..."@,
    {
        AtomicCounters {
            files_analyzed: 0,
            total_size: 0,
            folder_count: 0,
            current_path: String::from_str("Starting..."),
        }
    }

    /// The files, the bytes and the directories counted so far.
    pub fn get_values(&self) -> (values: (u32, u64, u32))
        ensures
            values == (self.files_analyzed, self.total_size, self.folder_count),
    {
        (self.files_analyzed, self.total_size, self.folder_count)
    }

    /// Names the directory that is being read.
    pub fn update_current_path(&mut self, path: &str)
        ensures
            final(self).current_path@ == path@,
            final(self).files_analyzed == old(self).files_analyzed,
            final(self).total_size == old(self).total_size,
            final(self).folder_count == old(self).folder_count,
    {
        self.current_path = String::from_str(path);
    }

    /// Counts one file of `size` bytes.
    pub fn record_file(&mut self, size: u64)
        ensures
            final(self).files_analyzed == capped_sum(
                old(self).files_analyzed as nat,
                1,
                u32::MAX as nat,
            ),
            final(self).total_size == capped_sum(
                old(self).total_size as nat,
                size as nat,
                u64::MAX as nat,
            ),
            final(self).folder_count == old(self).folder_count,
            final(self).current_path == old(self).current_path,
            final(self).files_analyzed >= old(self).files_analyzed,
            final(self).total_size >= old(self).total_size,
    {
        self.files_analyzed = self.files_analyzed.saturating_add(1);
        self.total_size = self.total_size.saturating_add(size);
    }

    /// Counts one directory.
    pub fn record_folder(&mut self)
        ensures
            final(self).folder_count == capped_sum(
                old(self).folder_count as nat,
                1,
                u32::MAX as nat,
            ),
            final(self).files_analyzed == old(self).files_analyzed,
            final(self).total_size == old(self).total_size,
            final(self).current_path == old(self).current_path,
            final(self).folder_count >= old(self).folder_count,
    {
        self.folder_count = self.folder_count.saturating_add(1);
    }
}

} // verus!
