//! The work of one worker on the directories that fall to it, and what the
//! census of a tree comes to however the directories are shared out.

use crate::counters::capped_sum;
use crate::counters::AtomicCounters;
use crate::errors::is_overflow;
use crate::errors::totals_do_not_fit;
use crate::errors::CommandError;
use crate::models::FileModel;
use crate::models::FolderModel;
use crate::models::ScanProgress;
use crate::paths::PathModel;
use crate::paths::ScanPath;
use crate::progress::ProgressThrottle;
use crate::results::ThreadScanResult;
use crate::scan::category_counts;
use crate::scan::category_seen;
use crate::scan::category_sizes;
use crate::scan::dir_bytes;
use crate::scan::dir_files;
use crate::scan::kept_files;
use crate::scan::measure_directory;
use crate::scan::scan_single_directory_optimized;
use crate::scan::trace;
use crate::scan::DirectoryEntry;
use crate::scan::EntryModel;
use crate::scan::ScanTrace;
use crate::seqs::models_of;
use crate::sums::sum;
use vstd::prelude::*;
use vstd::string::StringExecFns;

verus! {

/// A directory and what was read from it: its entries, or nothing where it
/// could not be read.
#[derive(Debug)]
pub struct DirectoryListing {
    pub path: ScanPath,
    pub entries: Option<Vec<DirectoryEntry>>,
}

/// A listing as the contracts speak of it.
pub struct ListingModel {
    pub path: PathModel,
    pub entries: Option<Seq<EntryModel>>,
}

impl View for DirectoryListing {
    type V = ListingModel;

    open spec fn view(&self) -> ListingModel {
        ListingModel {
            path: self.path@,
            entries: match self.entries {
                Some(entries) => Some(models_of(entries@)),
                None => None,
            },
        }
    }
}

impl ListingModel {
    /// The bytes of the files directly in the directory; none where it
    /// could not be read.
    pub open spec fn bytes(self) -> nat {
        match self.entries {
            Some(entries) => dir_bytes(entries),
            None => 0,
        }
    }

    /// The number of the files directly in the directory.
    pub open spec fn files(self) -> nat {
        match self.entries {
            Some(entries) => dir_files(entries),
            None => 0,
        }
    }

    /// The bytes of the files of `category` directly in the directory.
    pub open spec fn bytes_in(self, category: Seq<char>) -> nat {
        match self.entries {
            Some(entries) => sum(category_sizes(entries, category)),
            None => 0,
        }
    }

    /// The number of the files of `category` directly in the directory.
    pub open spec fn files_in(self, category: Seq<char>) -> nat {
        match self.entries {
            Some(entries) => sum(category_counts(entries, category)),
            None => 0,
        }
    }

    /// Some file directly in the directory falls under `category`.
    pub open spec fn holds(self, category: Seq<char>) -> bool {
        match self.entries {
            Some(entries) => category_seen(entries, category),
            None => false,
        }
    }

    /// The files of the directory that are kept.
    pub open spec fn kept(self) -> Seq<FileModel> {
        match self.entries {
            Some(entries) => kept_files(self.path, entries),
            None => Seq::empty(),
        }
    }

    /// The records of the directory: one with its direct totals, none where
    /// it could not be read.
    pub open spec fn records(self) -> Seq<FolderModel> {
        match self.entries {
            Some(entries) => seq![
                FolderModel {
                    name: self.path.name(),
                    path: self.path,
                    size: dir_bytes(entries) as u64,
                    file_count: dir_files(entries) as u32,
                },
            ],
            None => Seq::empty(),
        }
    }

    /// One where the directory could be read, else nothing.
    pub open spec fn readable(self) -> nat {
        if self.entries is Some {
            1
        } else {
            0
        }
    }
}

/// What a worker does next with what reached it.
#[derive(Clone, Copy, Debug, PartialEq, Eq, Structural)]
pub enum WorkerStep {
    /// The worker is done and hands back what it has gathered.
    Stop,
    /// The directory is passed over and the worker waits for the next.
    Skip,
    /// The directory is taken into the books of the worker.
    Scan,
}

/// What a worker does with one thing that it tried to read, a directory
/// from the queue or an entry of a directory: once the scan has been asked
/// to stop, the worker stops at it; what could not be read is passed over,
/// and the worker goes on with the next; anything else is taken.
pub open spec fn step_for(cancelled: bool, readable: bool) -> WorkerStep {
    if cancelled {
        WorkerStep::Stop
    } else if readable {
        WorkerStep::Scan
    } else {
        WorkerStep::Skip
    }
}

/// The step of a worker at one entry of a directory, or at anything else
/// that it tried to read: see [`step_for`]. `cancelled` says whether the
/// scan has been asked to stop, `readable` whether the reading went well.
pub fn entry_step(cancelled: bool, readable: bool) -> (step: WorkerStep)
    ensures
        step == step_for(cancelled, readable),
{
    if cancelled {
        WorkerStep::Stop
    } else if readable {
        WorkerStep::Scan
    } else {
        WorkerStep::Skip
    }
}

/// What a worker does when the queue of directories has answered.
/// `received` is the directory that came with what was read from it, or
/// nothing where the queue is closed and empty; `cancelled` says whether the
/// scan had been asked to stop by the time the directory was read.
///
/// A worker that finds the queue closed is done. With a directory the
/// worker does as [`step_for`] says: it is done once the scan has been
/// asked to stop, and a directory whose reading was overtaken by the
/// request is not taken into the books; a directory that could not be read
/// is passed over and the worker goes on; any other directory is scanned.
pub open spec fn step_after(cancelled: bool, received: Option<ListingModel>) -> WorkerStep {
    match received {
        None => WorkerStep::Stop,
        Some(listing) => step_for(cancelled, listing.entries is Some),
    }
}

/// The next step of a worker: see [`step_after`].
pub fn next_step(cancelled: bool, received: Option<&DirectoryListing>) -> (step: WorkerStep)
    ensures
        step == step_after(
            cancelled,
            match received {
                Some(listing) => Some(listing@),
                None => None,
            },
        ),
{
    match received {
        None => WorkerStep::Stop,
        Some(listing) => entry_step(cancelled, listing.entries.is_some()),
    }
}

/// A worker of a scan that was asked to stop is done at its next step,
/// whatever reached it and whether or not it could be read: it takes no
/// further directory into its books and no further entry.
pub proof fn lemma_cancelled_worker_stops(received: Option<ListingModel>, readable: bool)
    ensures
        step_after(true, received) == WorkerStep::Stop,
        step_for(true, readable) == WorkerStep::Stop,
{
}

/// The worker is done at round `n` of its run and at no round before it,
/// where `cancelled(m)` says whether the scan had been asked to stop when
/// round `m` was decided and `received(m)` what had reached the worker then.
pub open spec fn stops_at(
    cancelled: spec_fn(nat) -> bool,
    received: spec_fn(nat) -> Option<ListingModel>,
    n: nat,
) -> bool {
    &&& step_after(cancelled(n), received(n)) == WorkerStep::Stop
    &&& forall|m: nat| m < n ==> step_after(#[trigger] cancelled(m), received(m)) != WorkerStep::Stop
}

/// A run with a round at which the worker is done has a first such round.
proof fn lemma_first_stop(
    cancelled: spec_fn(nat) -> bool,
    received: spec_fn(nat) -> Option<ListingModel>,
    done: nat,
)
    requires
        step_after(cancelled(done), received(done)) == WorkerStep::Stop,
    ensures
        exists|n: nat| n <= done && #[trigger] stops_at(cancelled, received, n),
    decreases done,
{
    if forall|m: nat|
        m < done ==> step_after(#[trigger] cancelled(m), received(m)) != WorkerStep::Stop {
        assert(stops_at(cancelled, received, done));
    } else {
        let m = choose|m: nat|
            m < done && step_after(#[trigger] cancelled(m), received(m)) == WorkerStep::Stop;
        lemma_first_stop(cancelled, received, m);
        let n = choose|n: nat| n <= m && #[trigger] stops_at(cancelled, received, n);
        assert(n <= done && stops_at(cancelled, received, n));
    }
}

/// A worker comes to its end within one step of the request to stop: where
/// the scan has been asked to stop by the time round `asked` is decided,
/// the run of the worker ends at that round or before it, whatever reaches
/// the worker and however long the queue is. A pool of workers is thus over
/// once each worker has decided one more round.
pub proof fn lemma_worker_stops_once_asked(
    cancelled: spec_fn(nat) -> bool,
    received: spec_fn(nat) -> Option<ListingModel>,
    asked: nat,
)
    requires
        cancelled(asked),
    ensures
        exists|n: nat| n <= asked && #[trigger] stops_at(cancelled, received, n),
{
    lemma_first_stop(cancelled, received, asked);
}

/// The bytes of all files of the listings.
pub open spec fn census_bytes(listings: Seq<ListingModel>) -> nat
    decreases listings.len(),
{
    if listings.len() == 0 {
        0
    } else {
        census_bytes(listings.drop_last()) + listings.last().bytes()
    }
}

/// The number of all files of the listings.
pub open spec fn census_files(listings: Seq<ListingModel>) -> nat
    decreases listings.len(),
{
    if listings.len() == 0 {
        0
    } else {
        census_files(listings.drop_last()) + listings.last().files()
    }
}

/// The bytes of all files of `category` of the listings.
pub open spec fn census_bytes_in(listings: Seq<ListingModel>, category: Seq<char>) -> nat
    decreases listings.len(),
{
    if listings.len() == 0 {
        0
    } else {
        census_bytes_in(listings.drop_last(), category) + listings.last().bytes_in(category)
    }
}

/// The number of all files of `category` of the listings.
pub open spec fn census_files_in(listings: Seq<ListingModel>, category: Seq<char>) -> nat
    decreases listings.len(),
{
    if listings.len() == 0 {
        0
    } else {
        census_files_in(listings.drop_last(), category) + listings.last().files_in(category)
    }
}

/// Some file of the listings falls under `category`.
pub open spec fn census_holds(listings: Seq<ListingModel>, category: Seq<char>) -> bool
    decreases listings.len(),
{
    if listings.len() == 0 {
        false
    } else {
        census_holds(listings.drop_last(), category) || listings.last().holds(category)
    }
}

/// The files of the listings that are kept, directory after directory.
pub open spec fn census_kept(listings: Seq<ListingModel>) -> Seq<FileModel>
    decreases listings.len(),
{
    if listings.len() == 0 {
        Seq::empty()
    } else {
        census_kept(listings.drop_last()) + listings.last().kept()
    }
}

/// The records of the directories that could be read, in their order.
pub open spec fn census_records(listings: Seq<ListingModel>) -> Seq<FolderModel>
    decreases listings.len(),
{
    if listings.len() == 0 {
        Seq::empty()
    } else {
        census_records(listings.drop_last()) + listings.last().records()
    }
}

/// The number of the directories that could be read.
pub open spec fn census_readable(listings: Seq<ListingModel>) -> nat
    decreases listings.len(),
{
    if listings.len() == 0 {
        0
    } else {
        census_readable(listings.drop_last()) + listings.last().readable()
    }
}

/// The path of the last directory that could be read, written out, or
/// `otherwise` where none could.
pub open spec fn census_current(listings: Seq<ListingModel>, otherwise: Seq<char>) -> Seq<char>
    decreases listings.len(),
{
    if listings.len() == 0 {
        otherwise
    } else if listings.last().entries is Some {
        listings.last().path.text()
    } else {
        census_current(listings.drop_last(), otherwise)
    }
}

/// What a worker reports while it reads the listings, and its throttle
/// after them. The counters stand at `files`, `bytes` and `folders` before
/// the first directory.
pub open spec fn census_trace(
    start: ProgressThrottle,
    files: u32,
    bytes: u64,
    folders: u32,
    estimated: u64,
    listings: Seq<ListingModel>,
) -> ScanTrace
    decreases listings.len(),
{
    if listings.len() == 0 {
        ScanTrace { events: Seq::empty(), throttle: start }
    } else {
        let earlier = listings.drop_last();
        let before = census_trace(start, files, bytes, folders, estimated, earlier);
        match listings.last().entries {
            None => before,
            Some(entries) => {
                let here = trace(
                    before.throttle,
                    capped_sum(files as nat, census_files(earlier), u32::MAX as nat) as u32,
                    capped_sum(bytes as nat, census_bytes(earlier), u64::MAX as nat) as u64,
                    capped_sum(folders as nat, census_readable(earlier) + 1, u32::MAX as nat) as u32,
                    listings.last().path.text(),
                    estimated,
                    entries,
                );
                ScanTrace { events: before.events + here.events, throttle: here.throttle }
            },
        }
    }
}

/// `result` is what a worker gathers from `listings`: the files kept and the
/// records of the directories read, in the order of the listings, and a
/// histogram that holds every file of the listings under its category.
pub open spec fn gathers(listings: Seq<ListingModel>, result: ThreadScanResult) -> bool {
    &&& models_of(result.files@) == census_kept(listings)
    &&& models_of(result.folders@) == census_records(listings)
    &&& result.file_type_distribution.wf()
    &&& result.file_type_distribution.total_bytes() == census_bytes(listings)
    &&& result.file_type_distribution.total_files() == census_files(listings)
    &&& forall|c: Seq<char>|
        #![trigger result.file_type_distribution.bytes_in(c)]
        result.file_type_distribution.bytes_in(c) == census_bytes_in(listings, c)
    &&& forall|c: Seq<char>|
        #![trigger result.file_type_distribution.files_in(c)]
        result.file_type_distribution.files_in(c) == census_files_in(listings, c)
    &&& forall|c: Seq<char>|
        #![trigger result.file_type_distribution.has(c)]
        result.file_type_distribution.has(c) <==> census_holds(listings, c)
}

/// The census of a leading part of the listings is at most that of all.
pub proof fn lemma_census_grows(listings: Seq<ListingModel>, k: int)
    requires
        0 <= k <= listings.len(),
    ensures
        census_bytes(listings.take(k)) <= census_bytes(listings),
        census_files(listings.take(k)) <= census_files(listings),
    decreases listings.len() - k,
{
    if k < listings.len() {
        assert(listings.take(k + 1).drop_last() =~= listings.take(k));
        lemma_census_grows(listings, k + 1);
    } else {
        assert(listings.take(k) =~= listings);
    }
}

/// The bytes and the number of all files of the listings, or `None` where
/// one of the two does not fit its type.
pub fn measure_census(listings: &Vec<DirectoryListing>) -> (totals: Option<(u64, u32)>)
    ensures
        totals is Some <==> census_bytes(models_of(listings@)) <= u64::MAX && census_files(
            models_of(listings@),
        ) <= u32::MAX,
        totals matches Some(t) ==> t.0 == census_bytes(models_of(listings@)) && t.1
            == census_files(models_of(listings@)),
{
    let ghost all = models_of(listings@);
    let n = listings.len();
    let mut bytes: u64 = 0;
    let mut files: u32 = 0;
    let mut i: usize = 0;
    while i < n
        invariant
            i <= n,
            n == listings@.len(),
            all == models_of(listings@),
            bytes == census_bytes(all.take(i as int)),
            files == census_files(all.take(i as int)),
        decreases n - i,
    {
        proof {
            assert(all.take(i + 1).drop_last() =~= all.take(i as int));
            assert(all.take(i + 1).last() == listings@[i as int]@);
            lemma_census_grows(all, i + 1);
        }
        match &listings[i].entries {
            Some(entries) => {
                match measure_directory(entries) {
                    Some(here) => {
                        if here.0 > u64::MAX - bytes || here.1 > u32::MAX - files {
                            return None;
                        }
                        bytes = bytes + here.0;
                        files = files + here.1;
                    },
                    None => {
                        return None;
                    },
                }
            },
            None => {},
        }
        i += 1;
    }
    proof {
        assert(all.take(n as int) =~= all);
    }
    Some((bytes, files))
}

/// Reads the directories that fall to one worker, in their order, into a
/// result of its own.
///
/// A directory that could not be read is passed over: it adds nothing, and
/// the directories before and after it count as they are. That holds of
/// the root of the scan too, as far as the worker goes: that a scan whose
/// root could not be read has failed is said where the scan ends, by
/// [`crate::session::finish_scan`]. Each of the other directories
/// is taken into the books as [`crate::scan::entries_scanned`] says. The
/// result holds the files kept, one record for each directory read, and the
/// histogram; the events to send are returned in order.
///
/// Where the bytes or the files of the listings do not fit a `u64` and a
/// `u32`, the work fails and the counters stay as they are.
pub fn worker_thread_optimized(
    listings: &Vec<DirectoryListing>,
    counters: &mut AtomicCounters,
    estimated_total_size: u64,
) -> (outcome: Result<(ThreadScanResult, Vec<ScanProgress>), CommandError>)
    ensures
        outcome is Ok <==> census_bytes(models_of(listings@)) <= u64::MAX && census_files(
            models_of(listings@),
        ) <= u32::MAX,
        outcome matches Err(e) ==> is_overflow(e) && *final(counters) == *old(counters),
        outcome matches Ok(done) ==> {
            let all = models_of(listings@);
            let result = done.0;
            let run = census_trace(
                ProgressThrottle { files_since_emit: 0, last_emit_permille: 0 },
                old(counters).files_analyzed,
                old(counters).total_size,
                old(counters).folder_count,
                estimated_total_size,
                all,
            );
            &&& gathers(all, result)
            &&& final(counters).files_analyzed == capped_sum(
                old(counters).files_analyzed as nat,
                census_files(all),
                u32::MAX as nat,
            )
            &&& final(counters).total_size == capped_sum(
                old(counters).total_size as nat,
                census_bytes(all),
                u64::MAX as nat,
            )
            &&& final(counters).folder_count == capped_sum(
                old(counters).folder_count as nat,
                census_readable(all),
                u32::MAX as nat,
            )
            &&& final(counters).current_path@ == census_current(all, old(counters).current_path@)
            &&& models_of(done.1@) == run.events
        },
{
    let ghost all = models_of(listings@);
    let ghost start = ProgressThrottle { files_since_emit: 0, last_emit_permille: 0 };
    let ghost files0 = counters.files_analyzed;
    let ghost bytes0 = counters.total_size;
    let ghost folders0 = counters.folder_count;
    let ghost path0 = counters.current_path@;
    if measure_census(listings).is_none() {
        return Err(totals_do_not_fit());
    }
    let mut result = ThreadScanResult::new();
    let mut throttle = ProgressThrottle::new();
    let mut events: Vec<ScanProgress> = Vec::new();
    let n = listings.len();
    let mut i: usize = 0;
    proof {
        assert(models_of(result.files@) =~= census_kept(all.take(0)));
        assert(models_of(result.folders@) =~= census_records(all.take(0)));
        assert(models_of(events@) =~= census_trace(
            start,
            files0,
            bytes0,
            folders0,
            estimated_total_size,
            all.take(0),
        ).events);
        assert forall|c: Seq<char>|
            #![trigger result.file_type_distribution.bytes_in(c)]
            result.file_type_distribution.bytes_in(c) == 0 by {
            crate::sums::lemma_sum_zeros(
                crate::histogram::sizes_for(result.file_type_distribution.entries@, c),
            );
        }
        assert forall|c: Seq<char>|
            #![trigger result.file_type_distribution.files_in(c)]
            result.file_type_distribution.files_in(c) == 0 by {
            crate::sums::lemma_sum_zeros(
                crate::histogram::counts_for(result.file_type_distribution.entries@, c),
            );
        }
    }
    while i < n
        invariant
            i <= n,
            n == listings@.len(),
            all == models_of(listings@),
            census_bytes(all) <= u64::MAX,
            census_files(all) <= u32::MAX,
            models_of(result.files@) == census_kept(all.take(i as int)),
            models_of(result.folders@) == census_records(all.take(i as int)),
            result.file_type_distribution.wf(),
            result.file_type_distribution.total_bytes() == census_bytes(all.take(i as int)),
            result.file_type_distribution.total_files() == census_files(all.take(i as int)),
            forall|c: Seq<char>|
                #![trigger result.file_type_distribution.bytes_in(c)]
                result.file_type_distribution.bytes_in(c) == census_bytes_in(
                    all.take(i as int),
                    c,
                ),
            forall|c: Seq<char>|
                #![trigger result.file_type_distribution.files_in(c)]
                result.file_type_distribution.files_in(c) == census_files_in(
                    all.take(i as int),
                    c,
                ),
            forall|c: Seq<char>|
                #![trigger result.file_type_distribution.has(c)]
                result.file_type_distribution.has(c) <==> census_holds(all.take(i as int), c),
            counters.files_analyzed == capped_sum(
                files0 as nat,
                census_files(all.take(i as int)),
                u32::MAX as nat,
            ),
            counters.total_size == capped_sum(
                bytes0 as nat,
                census_bytes(all.take(i as int)),
                u64::MAX as nat,
            ),
            counters.folder_count == capped_sum(
                folders0 as nat,
                census_readable(all.take(i as int)),
                u32::MAX as nat,
            ),
            counters.current_path@ == census_current(all.take(i as int), path0),
            models_of(events@) == census_trace(
                start,
                files0,
                bytes0,
                folders0,
                estimated_total_size,
                all.take(i as int),
            ).events,
            throttle == census_trace(
                start,
                files0,
                bytes0,
                folders0,
                estimated_total_size,
                all.take(i as int),
            ).throttle,
        decreases n - i,
    {
        proof {
            assert(all.take(i + 1).drop_last() =~= all.take(i as int));
            assert(all.take(i + 1).last() == listings@[i as int]@);
            lemma_census_grows(all, i + 1);
        }
        let ghost hist_before = result.file_type_distribution;
        let ghost files_before = models_of(result.files@);
        let ghost folders_before = models_of(result.folders@);
        let ghost events_before = models_of(events@);
        let listing = &listings[i];
        let read: Option<&Vec<DirectoryEntry>> = match &listing.entries {
            Some(entries) => Some(entries),
            None => None,
        };
        let scanned = scan_single_directory_optimized(
            false,
            &listing.path,
            read,
            &mut result.files,
            &mut result.folders,
            &mut result.file_type_distribution,
            counters,
            estimated_total_size,
            &mut throttle,
        );
        match scanned {
            Ok(sent) => {
                let mut sent = sent;
                let ghost sent_models = models_of(sent@);
                let ghost sent_before = sent@;
                let ghost kept_before = events@;
                events.append(&mut sent);
                proof {
                    assert(events@ == kept_before + sent_before);
                    if listing.entries is Some {
                        assert(models_of(events@) =~= events_before + sent_models);
                        assert(models_of(result.folders@) =~= folders_before
                            + listings@[i as int]@.records());
                        assert forall|c: Seq<char>|
                            #![trigger result.file_type_distribution.bytes_in(c)]
                            result.file_type_distribution.bytes_in(c) == census_bytes_in(
                                all.take(i + 1),
                                c,
                            ) by {
                            assert(hist_before.bytes_in(c) == census_bytes_in(
                                all.take(i as int),
                                c,
                            ));
                        }
                        assert forall|c: Seq<char>|
                            #![trigger result.file_type_distribution.files_in(c)]
                            result.file_type_distribution.files_in(c) == census_files_in(
                                all.take(i + 1),
                                c,
                            ) by {
                            assert(hist_before.files_in(c) == census_files_in(
                                all.take(i as int),
                                c,
                            ));
                        }
                        assert forall|c: Seq<char>|
                            #![trigger result.file_type_distribution.has(c)]
                            result.file_type_distribution.has(c) <==> census_holds(
                                all.take(i + 1),
                                c,
                            ) by {
                            assert(hist_before.has(c) <==> census_holds(all.take(i as int), c));
                        }
                    } else {
                        assert(models_of(events@) =~= events_before);
                        assert forall|c: Seq<char>|
                            #![trigger result.file_type_distribution.bytes_in(c)]
                            result.file_type_distribution.bytes_in(c) == census_bytes_in(
                                all.take(i + 1),
                                c,
                            ) by {
                            assert(hist_before.bytes_in(c) == census_bytes_in(all.take(i as int), c));
                        }
                        assert forall|c: Seq<char>|
                            #![trigger result.file_type_distribution.files_in(c)]
                            result.file_type_distribution.files_in(c) == census_files_in(
                                all.take(i + 1),
                                c,
                            ) by {
                            assert(hist_before.files_in(c) == census_files_in(all.take(i as int), c));
                        }
                        assert forall|c: Seq<char>|
                            #![trigger result.file_type_distribution.has(c)]
                            result.file_type_distribution.has(c) <==> census_holds(
                                all.take(i + 1),
                                c,
                            ) by {
                            assert(hist_before.has(c) <==> census_holds(all.take(i as int), c));
                        }
                        assert(models_of(result.files@) =~= census_kept(all.take(i + 1)));
                        assert(models_of(result.folders@) =~= census_records(all.take(i + 1)));
                    }
                }
            },
            Err(e) => {
                return Err(e);
            },
        }
        i += 1;
    }
    proof {
        assert(all.take(n as int) =~= all);
    }
    Ok((result, events))
}

/// A directory that could not be read adds nothing to the census: without
/// it among the listings, every total, every record and every file kept is
/// the same.
pub proof fn lemma_unreadable_adds_nothing(listings: Seq<ListingModel>, at: int)
    requires
        0 <= at < listings.len(),
        listings[at].entries is None,
    ensures
        census_bytes(listings) == census_bytes(listings.remove(at)),
        census_files(listings) == census_files(listings.remove(at)),
        census_kept(listings) == census_kept(listings.remove(at)),
        census_records(listings) == census_records(listings.remove(at)),
        census_readable(listings) == census_readable(listings.remove(at)),
        forall|c: Seq<char>|
            census_bytes_in(listings, c) == #[trigger] census_bytes_in(listings.remove(at), c),
        forall|c: Seq<char>|
            census_files_in(listings, c) == #[trigger] census_files_in(listings.remove(at), c),
        forall|c: Seq<char>|
            census_holds(listings, c) == #[trigger] census_holds(listings.remove(at), c),
    decreases listings.len(),
{
    let without = listings.remove(at);
    if at == listings.len() - 1 {
        assert(without =~= listings.drop_last());
        assert(census_kept(listings) =~= census_kept(without));
        assert(census_records(listings) =~= census_records(without));
    } else {
        assert(without.drop_last() =~= listings.drop_last().remove(at));
        assert(without.last() == listings.last());
        lemma_unreadable_adds_nothing(listings.drop_last(), at);
        assert forall|c: Seq<char>|
            census_bytes_in(listings, c) == #[trigger] census_bytes_in(without, c) by {
            assert(census_bytes_in(listings.drop_last(), c) == census_bytes_in(
                listings.drop_last().remove(at),
                c,
            ));
        }
        assert forall|c: Seq<char>|
            census_files_in(listings, c) == #[trigger] census_files_in(without, c) by {
            assert(census_files_in(listings.drop_last(), c) == census_files_in(
                listings.drop_last().remove(at),
                c,
            ));
        }
        assert forall|c: Seq<char>|
            census_holds(listings, c) == #[trigger] census_holds(without, c) by {
            assert(census_holds(listings.drop_last(), c) == census_holds(
                listings.drop_last().remove(at),
                c,
            ));
        }
    }
}

/// The listings that fall to `worker` when the listing at each place `i`
/// goes to the worker `owner(i)`, in their order.
pub open spec fn share(listings: Seq<ListingModel>, owner: spec_fn(int) -> int, worker: int) -> Seq<
    ListingModel,
>
    decreases listings.len(),
{
    if listings.len() == 0 {
        Seq::empty()
    } else if owner(listings.len() - 1) == worker {
        share(listings.drop_last(), owner, worker).push(listings.last())
    } else {
        share(listings.drop_last(), owner, worker)
    }
}

/// The bytes that each of `workers` workers counts.
pub open spec fn share_bytes(
    listings: Seq<ListingModel>,
    owner: spec_fn(int) -> int,
    workers: nat,
) -> Seq<nat> {
    Seq::new(workers, |w: int| census_bytes(share(listings, owner, w)))
}

/// The files that each of `workers` workers counts.
pub open spec fn share_files(
    listings: Seq<ListingModel>,
    owner: spec_fn(int) -> int,
    workers: nat,
) -> Seq<nat> {
    Seq::new(workers, |w: int| census_files(share(listings, owner, w)))
}

/// Nothing is lost and nothing counts twice, however the directories are
/// shared out: whichever worker each listing goes to, and however many
/// workers there are, what the workers count adds up to the bytes and the
/// files of all listings.
pub proof fn lemma_conservation(
    listings: Seq<ListingModel>,
    owner: spec_fn(int) -> int,
    workers: nat,
)
    requires
        forall|i: int| 0 <= i < listings.len() ==> 0 <= #[trigger] owner(i) < workers,
    ensures
        sum(share_bytes(listings, owner, workers)) == census_bytes(listings),
        sum(share_files(listings, owner, workers)) == census_files(listings),
    decreases listings.len(),
{
    if listings.len() == 0 {
        crate::sums::lemma_sum_zeros(share_bytes(listings, owner, workers));
        crate::sums::lemma_sum_zeros(share_files(listings, owner, workers));
    } else {
        let earlier = listings.drop_last();
        let last = listings.last();
        let o = owner(listings.len() - 1);
        lemma_conservation(earlier, owner, workers);
        let bytes_before = share_bytes(earlier, owner, workers);
        let files_before = share_files(earlier, owner, workers);
        let grown = share(earlier, owner, o).push(last);
        assert(grown.drop_last() =~= share(earlier, owner, o));
        assert(share_bytes(listings, owner, workers) =~= bytes_before.update(
            o,
            bytes_before[o] + last.bytes(),
        ));
        assert(share_files(listings, owner, workers) =~= files_before.update(
            o,
            files_before[o] + last.files(),
        ));
        crate::sums::lemma_sum_update(bytes_before, o, bytes_before[o] + last.bytes());
        crate::sums::lemma_sum_update(files_before, o, files_before[o] + last.files());
    }
}

/// No two of the listings are of the same directory.
pub open spec fn listed_once(listings: Seq<ListingModel>) -> bool {
    forall|i: int, j: int|
        0 <= i < j < listings.len() ==> (#[trigger] listings[i]).path != (
        #[trigger] listings[j]).path
}

/// The bytes of all files in the directory `d` and anywhere below it.
pub open spec fn census_bytes_within(listings: Seq<ListingModel>, d: PathModel) -> nat
    decreases listings.len(),
{
    if listings.len() == 0 {
        0
    } else {
        census_bytes_within(listings.drop_last(), d) + if listings.last().path.is_within(d) {
            listings.last().bytes()
        } else {
            0
        }
    }
}

/// The number of all files in the directory `d` and anywhere below it.
pub open spec fn census_files_within(listings: Seq<ListingModel>, d: PathModel) -> nat
    decreases listings.len(),
{
    if listings.len() == 0 {
        0
    } else {
        census_files_within(listings.drop_last(), d) + if listings.last().path.is_within(d) {
            listings.last().files()
        } else {
            0
        }
    }
}

/// Each record of the census is the record of one of the listings.
proof fn lemma_records_come_from_listings(listings: Seq<ListingModel>, k: int) -> (i: int)
    requires
        0 <= k < census_records(listings).len(),
    ensures
        0 <= i < listings.len(),
        listings[i].entries is Some,
        census_records(listings)[k] == listings[i].records()[0],
        k == census_records(listings.take(i)).len(),
    decreases listings.len(),
{
    let earlier = listings.drop_last();
    if k < census_records(earlier).len() {
        let i = lemma_records_come_from_listings(earlier, k);
        assert(earlier.take(i) =~= listings.take(i));
        i
    } else {
        assert(earlier =~= listings.take(listings.len() - 1));
        listings.len() - 1
    }
}

/// The records of a leading part of the listings lead the records of all.
proof fn lemma_records_grow(listings: Seq<ListingModel>, i: int)
    requires
        0 <= i <= listings.len(),
    ensures
        census_records(listings.take(i)).len() <= census_records(listings).len(),
        i < listings.len() ==> census_records(listings.take(i)).len() + listings[i].records().len()
            <= census_records(listings).len(),
    decreases listings.len() - i,
{
    if i < listings.len() {
        assert(listings.take(i + 1).drop_last() =~= listings.take(i));
        lemma_records_grow(listings, i + 1);
    } else {
        assert(listings.take(i) =~= listings);
    }
}

/// Where each directory is listed once, each has one record.
proof fn lemma_records_once(listings: Seq<ListingModel>)
    requires
        listed_once(listings),
    ensures
        forall|a: int, b: int|
            0 <= a < b < census_records(listings).len() ==> (#[trigger] census_records(
                listings,
            )[a]).path != (#[trigger] census_records(listings)[b]).path,
{
    let records = census_records(listings);
    assert forall|a: int, b: int| 0 <= a < b < records.len() implies (#[trigger] records[a]).path
        != (#[trigger] records[b]).path by {
        let i = lemma_records_come_from_listings(listings, a);
        let j = lemma_records_come_from_listings(listings, b);
        if i == j {
        } else if i < j {
        } else {
            lemma_records_grow(listings.take(i), j);
            assert(listings.take(i).take(j) =~= listings.take(j));
            assert(listings.take(i)[j] == listings[j]);
        }
    }
}

/// The totals that folding gives a directory are the bytes and the number
/// of all files in it and anywhere below it, as the listings show them:
/// where each directory is listed once and the totals fit their types, the
/// records of the census fold to the census of each subtree.
pub proof fn lemma_totals_cover_subtree(listings: Seq<ListingModel>, d: PathModel)
    requires
        listed_once(listings),
        census_bytes(listings) <= u64::MAX,
        census_files(listings) <= u32::MAX,
    ensures
        crate::folders::recursive_bytes(census_records(listings), d) == census_bytes_within(
            listings,
            d,
        ),
        crate::folders::recursive_files(census_records(listings), d) == census_files_within(
            listings,
            d,
        ),
    decreases listings.len(),
{
    let records = census_records(listings);
    lemma_records_once(listings);
    assert forall|k: int| 0 <= k < records.len() implies crate::folders::is_latest(records, k) by {}
    if listings.len() == 0 {
    } else {
        let earlier = listings.drop_last();
        let last = listings.last();
        assert(earlier =~= listings.take(listings.len() - 1));
        lemma_census_grows(listings, listings.len() - 1);
        assert(listed_once(earlier)) by {
            assert forall|i: int, j: int| 0 <= i < j < earlier.len() implies (
            #[trigger] earlier[i]).path != (#[trigger] earlier[j]).path by {
                assert(earlier[i] == listings[i] && earlier[j] == listings[j]);
            }
        }
        lemma_totals_cover_subtree(earlier, d);
        let before = census_records(earlier);
        lemma_records_once(earlier);
        assert forall|k: int| 0 <= k < before.len() implies crate::folders::is_latest(before, k) by {}
        let bytes_now = crate::folders::bytes_toward(records, d);
        let bytes_before = crate::folders::bytes_toward(before, d);
        let files_now = crate::folders::files_toward(records, d);
        let files_before = crate::folders::files_toward(before, d);
        match last.entries {
            None => {
                assert(records =~= before);
            },
            Some(entries) => {
                let record = last.records()[0];
                assert(records =~= before.push(record));
                let more_bytes = if record.path.is_within(d) {
                    record.size as nat
                } else {
                    0nat
                };
                let more_files = if record.path.is_within(d) {
                    record.file_count as nat
                } else {
                    0nat
                };
                assert(bytes_now =~= bytes_before.push(more_bytes)) by {
                    assert forall|k: int| 0 <= k < before.len() implies bytes_now[k]
                        == bytes_before[k] by {
                        assert(crate::folders::is_latest(records, k));
                        assert(crate::folders::is_latest(before, k));
                    }
                    assert(crate::folders::is_latest(records, before.len() as int));
                }
                assert(files_now =~= files_before.push(more_files)) by {
                    assert forall|k: int| 0 <= k < before.len() implies files_now[k]
                        == files_before[k] by {
                        assert(crate::folders::is_latest(records, k));
                        assert(crate::folders::is_latest(before, k));
                    }
                    assert(crate::folders::is_latest(records, before.len() as int));
                }
                crate::sums::lemma_sum_push(bytes_before, more_bytes);
                crate::sums::lemma_sum_push(files_before, more_files);
            },
        }
    }
}

} // verus!
