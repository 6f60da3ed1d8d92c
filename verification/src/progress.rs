//! How far a scan has come, and when to say so. Progress is counted in
//! tenths of a percent of the estimated total; a worker reports it only now
//! and then.

use crate::models::ScanProgress;
use vstd::prelude::*;
use vstd::string::StringExecFns;

verus! {

/// A worker reports when it has read this many files since its last report.
pub const EMIT_FILE_COUNT: u32 = 500;

/// A worker reports when progress has moved by this many tenths of a percent
/// since its last report.
pub const EMIT_DELTA_PERMILLE: u32 = 10;

/// While a scan runs, progress stays below the whole: at most 99.9 percent.
pub const MAX_RUNNING_PERMILLE: u32 = 999;

/// The progress of a scan that is complete.
pub const COMPLETE_PERMILLE: u32 = 1000;

/// The share of `estimated` that `total` makes, in tenths of a percent and
/// at most 99.9 percent; nothing where the estimate is zero.
pub open spec fn permille_of(total: u64, estimated: u64) -> u32 {
    if estimated == 0 {
        0
    } else if total as int * 1000 / estimated as int >= MAX_RUNNING_PERMILLE {
        MAX_RUNNING_PERMILLE
    } else {
        (total as int * 1000 / estimated as int) as u32
    }
}

/// The progress of a running scan in tenths of a percent.
pub fn progress_permille(total: u64, estimated: u64) -> (permille: u32)
    ensures
        permille == permille_of(total, estimated),
        permille <= MAX_RUNNING_PERMILLE,
{
    if estimated == 0 {
        0
    } else {
        let share: u128 = (total as u128 * 1000) / (estimated as u128);
        if share >= 999 {
            MAX_RUNNING_PERMILLE
        } else {
            share as u32
        }
    }
}

/// What a worker remembers of its last report.
#[derive(Clone, Copy, Debug, PartialEq, Eq, Structural)]
pub struct ProgressThrottle {
    /// The files read since the last report.
    pub files_since_emit: u32,
    /// The progress that the last report gave.
    pub last_emit_permille: u32,
}

impl ProgressThrottle {
    /// Whether a report is due after one more file, at progress `permille`:
    /// enough files have been read since the last one, or progress has moved
    /// far enough from it.
    pub open spec fn due(self, permille: u32) -> bool {
        ||| self.files_since_emit + 1 >= EMIT_FILE_COUNT
        ||| permille - self.last_emit_permille >= EMIT_DELTA_PERMILLE
        ||| self.last_emit_permille - permille >= EMIT_DELTA_PERMILLE
    }

    /// The throttle after one more file, at progress `permille`.
    pub open spec fn after(self, permille: u32) -> ProgressThrottle {
        if self.due(permille) {
            ProgressThrottle { files_since_emit: 0, last_emit_permille: permille }
        } else {
            ProgressThrottle {
                files_since_emit: (self.files_since_emit + 1) as u32,
                last_emit_permille: self.last_emit_permille,
            }
        }
    }

    /// The throttle of a worker that has reported nothing yet.
    pub fn new() -> (throttle: ProgressThrottle)
        ensures
            throttle.files_since_emit == 0,
            throttle.last_emit_permille == 0,
    {
        ProgressThrottle { files_since_emit: 0, last_emit_permille: 0 }
    }

    /// Takes note of one more file at progress `permille` and says whether
    /// to report now. A report starts the count anew.
    pub fn observe(&mut self, permille: u32) -> (emit: bool)
        ensures
            emit == old(self).due(permille),
            *final(self) == old(self).after(permille),
    {
        let moved = if permille >= self.last_emit_permille {
            permille - self.last_emit_permille
        } else {
            self.last_emit_permille - permille
        };
        if self.files_since_emit >= EMIT_FILE_COUNT - 1 || moved >= EMIT_DELTA_PERMILLE {
            self.files_since_emit = 0;
            self.last_emit_permille = permille;
            true
        } else {
            self.files_since_emit = self.files_since_emit + 1;
            false
        }
    }
}

/// A progress event as the contracts speak of it.
pub struct ProgressModel {
    pub files_analyzed: u32,
    pub total_size: u64,
    pub folders_analyzed: u32,
    pub current_path: Seq<char>,
    pub progress_permille: u32,
    pub estimated_total_size: u64,
}

impl View for ScanProgress {
    type V = ProgressModel;

    open spec fn view(&self) -> ProgressModel {
        ProgressModel {
            files_analyzed: self.files_analyzed,
            total_size: self.total_size,
            folders_analyzed: self.folders_analyzed,
            current_path: self.current_path@,
            progress_permille: self.progress_permille,
            estimated_total_size: self.estimated_total_size,
        }
    }
}

impl ScanProgress {
    /// The event that opens a scan: nothing read yet.
    pub fn starting(estimated_total_size: u64) -> (event: ScanProgress)
        ensures
            event@ == (ProgressModel {
                files_analyzed: 0,
                total_size: 0,
                folders_analyzed: 0,
                current_path: "Collecting directories..."@,
                progress_permille: 0,
                estimated_total_size,
            }),
    {
        ScanProgress {
            files_analyzed: 0,
            total_size: 0,
            folders_analyzed: 0,
            current_path: String::from_str("Collecting directories..."),
            progress_permille: 0,
            estimated_total_size,
        }
    }

    /// The event that closes a scan that went through: the final counts, at
    /// 100 percent whatever the estimate was.
    pub fn completed(
        files_analyzed: u32,
        total_size: u64,
        folders_analyzed: u32,
        estimated_total_size: u64,
    ) -> (event: ScanProgress)
        ensures
            event@ == (ProgressModel {
                files_analyzed,
                total_size,
                folders_analyzed,
                current_path: "Scan completed!"@,
                progress_permille: COMPLETE_PERMILLE,
                estimated_total_size,
            }),
    {
        ScanProgress {
            files_analyzed,
            total_size,
            folders_analyzed,
            current_path: String::from_str("Scan completed!"),
            progress_permille: COMPLETE_PERMILLE,
            estimated_total_size,
        }
    }

    /// The event that closes a scan that failed.
    pub fn failed(estimated_total_size: u64) -> (event: ScanProgress)
        ensures
            event@ == (ProgressModel {
                files_analyzed: 0,
                total_size: 0,
                folders_analyzed: 0,
                current_path: "Scan failed!"@,
                progress_permille: 0,
                estimated_total_size,
            }),
    {
        ScanProgress {
            files_analyzed: 0,
            total_size: 0,
            folders_analyzed: 0,
            current_path: String::from_str("Scan failed!"),
            progress_permille: 0,
            estimated_total_size,
        }
    }
}

} // verus!
