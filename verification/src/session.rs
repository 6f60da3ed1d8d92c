//! The life of the shared snapshot: a scan empties it when it starts, may be
//! asked to stop, and fills it in one step when it ends. A scan that was
//! asked to stop, or that failed, leaves the snapshot as it found it.

use crate::errors::validate_scan_root;
use crate::errors::is_overflow;
use crate::errors::CommandError;
use crate::models::ScanProgress;
use crate::progress::ProgressModel;
use crate::progress::COMPLETE_PERMILLE;
use crate::results::consolidate;
use crate::results::is_consolidated;
use crate::results::parts_fit;
use crate::results::parts_wf;
use crate::results::ScanResults;
use crate::results::ThreadScanResult;
use vstd::prelude::*;
use vstd::string::StringExecFns;

verus! {

/// What a scan is refused with while another is under way.
pub open spec fn scan_already_running() -> Seq<char> {
    "a scan is already running"@
}

/// Starts a scan at `path`, given whether a scan is under way already and
/// what the file system says of the path.
///
/// One scan runs at a time: a scan that is asked for while another is under
/// way is refused, and does not wait for it. A path that is not there, or
/// that is no directory, is refused too. A refusal leaves the snapshot as it
/// is. Otherwise the snapshot is emptied, takes the path, and any earlier
/// request to stop is forgotten.
pub fn start_scan(
    scan_results: &mut ScanResults,
    path: &str,
    scan_running: bool,
    exists: bool,
    is_dir: bool,
) -> (started: Result<(), CommandError>)
    ensures
        started is Ok <==> !scan_running && exists && is_dir,
        scan_running ==> (started matches Err(CommandError::InternalError(text)) && text@
            == scan_already_running()),
        !scan_running && !exists ==> (started matches Err(CommandError::PathDoesNotExist(p)) && p@
            == path@),
        !scan_running && exists && !is_dir ==> (started matches Err(
            CommandError::PathIsNotDirectory(p),
        ) && p@ == path@),
        started is Err ==> *final(scan_results) == *old(scan_results),
        started is Ok ==> {
            &&& final(scan_results).is_empty()
            &&& final(scan_results).scan_path@ == path@
            &&& !final(scan_results).cancellation_flag
            &&& final(scan_results).file_type_distribution.wf()
        },
{
    if scan_running {
        return Err(CommandError::InternalError(String::from_str("a scan is already running")));
    }
    match validate_scan_root(path, exists, is_dir) {
        Err(e) => Err(e),
        Ok(()) => {
            let mut fresh = ScanResults::default();
            fresh.scan_path = String::from_str(path);
            *scan_results = fresh;
            Ok(())
        },
    }
}

/// `after` is `before` with the request to stop, and nothing else changed.
pub open spec fn asked_to_stop(before: ScanResults, after: ScanResults) -> bool {
    after == (ScanResults { cancellation_flag: true, ..before })
}

/// Asks the scan that is under way to stop. Asking again changes nothing,
/// and nothing else in the snapshot is touched.
pub fn cancel_scan(scan_results: &mut ScanResults)
    ensures
        final(scan_results).cancellation_flag,
        asked_to_stop(*old(scan_results), *final(scan_results)),
{
    scan_results.cancellation_flag = true;
}

/// Whether the scan that is under way has been asked to stop.
pub fn is_cancelled(scan_results: &ScanResults) -> (cancelled: bool)
    ensures
        cancelled == scan_results.cancellation_flag,
{
    scan_results.cancellation_flag
}

/// How a scan ended: what the command answers, and the event that closes the
/// stream of progress. A scan that was asked to stop closes without an event.
#[derive(Debug)]
pub struct ScanEnd {
    pub outcome: Result<(), CommandError>,
    pub event: Option<ScanProgress>,
}

/// The event that closes a scan that went through with the totals of
/// `after`.
pub open spec fn completed_event(after: ScanResults, estimated_total_size: u64) -> ProgressModel {
    ProgressModel {
        files_analyzed: after.total_files,
        total_size: after.total_size,
        folders_analyzed: after.total_folders,
        current_path: "Scan completed!"@,
        progress_permille: COMPLETE_PERMILLE,
        estimated_total_size,
    }
}

/// The event that closes a scan that failed.
pub open spec fn failed_event(estimated_total_size: u64) -> ProgressModel {
    ProgressModel {
        files_analyzed: 0,
        total_size: 0,
        folders_analyzed: 0,
        current_path: "Scan failed!"@,
        progress_permille: 0,
        estimated_total_size,
    }
}

/// How a scan ends. `ended` says what came of it and `after` is the
/// snapshot then.
///
/// A scan that was asked to stop ends without a result and without an
/// event; that is no failure. A scan whose root could not be listed has
/// failed with the path of the root, whatever the workers gathered. A scan
/// whose totals do not fit has failed too. In these cases the snapshot is as
/// before, and a failure closes with the event of a failed scan. Otherwise
/// the snapshot is what the workers' parts merge into, under the path that
/// the scan started with, and the closing event gives the final counts at
/// 100 percent.
pub open spec fn ends_as(
    before: ScanResults,
    parts: Seq<ThreadScanResult>,
    root_readable: bool,
    scan_time_millis: u64,
    estimated_total_size: u64,
    limit: u32,
    after: ScanResults,
    ended: ScanEnd,
) -> bool {
    if before.cancellation_flag {
        ended.outcome is Ok && ended.event is None && after == before
    } else if !root_readable {
        &&& ended.outcome matches Err(CommandError::CannotReadDirectory(p)) && p@
            == before.scan_path@
        &&& ended.event matches Some(event) && event@ == failed_event(estimated_total_size)
        &&& after == before
    } else if !parts_fit(parts) {
        &&& ended.outcome matches Err(e) && is_overflow(e)
        &&& ended.event matches Some(event) && event@ == failed_event(estimated_total_size)
        &&& after == before
    } else {
        &&& ended.outcome is Ok
        &&& ended.event matches Some(event) && event@ == completed_event(
            after,
            estimated_total_size,
        )
        &&& is_consolidated(parts, after, before.scan_path@, scan_time_millis, limit)
    }
}

/// Ends a scan with what the workers gathered: see [`ends_as`].
/// `root_readable` says whether the root of the scan could be listed.
pub fn finish_scan(
    scan_results: &mut ScanResults,
    thread_results: Vec<ThreadScanResult>,
    root_readable: bool,
    scan_time_millis: u64,
    estimated_total_size: u64,
    limit: u32,
) -> (ended: ScanEnd)
    requires
        parts_wf(thread_results@),
    ensures
        ends_as(
            *old(scan_results),
            thread_results@,
            root_readable,
            scan_time_millis,
            estimated_total_size,
            limit,
            *final(scan_results),
            ended,
        ),
{
    if scan_results.cancellation_flag {
        return ScanEnd { outcome: Ok(()), event: None };
    }
    if !root_readable {
        return ScanEnd {
            outcome: Err(CommandError::CannotReadDirectory(scan_results.scan_path.clone())),
            event: Some(ScanProgress::failed(estimated_total_size)),
        };
    }
    match consolidate(thread_results, scan_results.scan_path.as_str(), scan_time_millis, limit) {
        Err(e) => ScanEnd {
            outcome: Err(e),
            event: Some(ScanProgress::failed(estimated_total_size)),
        },
        Ok(merged) => {
            let event = ScanProgress::completed(
                merged.total_files,
                merged.total_size,
                merged.total_folders,
                estimated_total_size,
            );
            *scan_results = merged;
            ScanEnd { outcome: Ok(()), event: Some(event) }
        },
    }
}

/// A scan that was asked to stop leaves the snapshot as it was when it was
/// asked, whatever the workers had gathered by then and whether or not the
/// root could be listed: no totals, no files and no folders of theirs reach
/// it, and the scan has not failed.
pub proof fn lemma_cancelled_scan_leaves_snapshot(
    running: ScanResults,
    stopping: ScanResults,
    parts: Seq<ThreadScanResult>,
    root_readable: bool,
    scan_time_millis: u64,
    estimated_total_size: u64,
    limit: u32,
    after: ScanResults,
    ended: ScanEnd,
)
    requires
        asked_to_stop(running, stopping),
        ends_as(
            stopping,
            parts,
            root_readable,
            scan_time_millis,
            estimated_total_size,
            limit,
            after,
            ended,
        ),
    ensures
        ended.outcome is Ok,
        ended.event is None,
        after == stopping,
        after == (ScanResults { cancellation_flag: true, ..running }),
{
}

/// A scan whose root could not be listed fails with the path of the root,
/// unless it was asked to stop, and leaves the snapshot as the start of the
/// scan made it: empty, under the path of the scan.
pub proof fn lemma_unreadable_root_fails(
    started: ScanResults,
    parts: Seq<ThreadScanResult>,
    scan_time_millis: u64,
    estimated_total_size: u64,
    limit: u32,
    after: ScanResults,
    ended: ScanEnd,
)
    requires
        started.is_empty(),
        !started.cancellation_flag,
        ends_as(started, parts, false, scan_time_millis, estimated_total_size, limit, after, ended),
    ensures
        ended.outcome matches Err(CommandError::CannotReadDirectory(p)) && p@ == started.scan_path@,
        ended.event matches Some(event) && event@.current_path == "Scan failed!"@,
        after.is_empty(),
        after.scan_path@ == started.scan_path@,
{
}

/// Asking a scan to stop a second time changes nothing.
pub proof fn lemma_cancel_is_idempotent(first: ScanResults, second: ScanResults, third: ScanResults)
    requires
        asked_to_stop(first, second),
        asked_to_stop(second, third),
    ensures
        third == second,
{
}

} // verus!
