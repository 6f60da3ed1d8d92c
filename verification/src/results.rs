//! The result of a scan: what each worker hands back, and the one snapshot
//! that they are merged into.

use crate::seqs::models_of;
use crate::errors::is_overflow;
use crate::errors::totals_do_not_fit;
use crate::errors::CommandError;
use crate::folders::calculate_recursive_folder_data;
use crate::folders::direct_counts;
use crate::folders::direct_sizes;
use crate::folders::is_folded;
use crate::folders::totals_fit;
use crate::histogram::FileTypeHistogram;
use crate::models::ScannedFile;
use crate::models::ScannedFolder;
use crate::ranking::head;
use crate::ranking::is_ranked;
use crate::ranking::ranked;
use crate::ranking::Ranked;
use crate::ranking::reversed;
use crate::ranking::top_ranked;
use crate::sums::lemma_sum_take_all;
use crate::sums::lemma_sum_take_le;
use crate::sums::lemma_sum_take_next;
use crate::sums::sum;
use vstd::prelude::*;
use vstd::string::StringExecFns;

verus! {

/// What one worker has gathered: the files it kept, one record for each
/// directory it read, and its histogram.
#[derive(Debug)]
pub struct ThreadScanResult {
    pub files: Vec<ScannedFile>,
    pub folders: Vec<ScannedFolder>,
    pub file_type_distribution: FileTypeHistogram,
}

impl ThreadScanResult {
    /// The result of a worker that has read nothing yet.
    pub fn new() -> (result: ThreadScanResult)
        ensures
            result.files@.len() == 0,
            result.folders@.len() == 0,
            result.file_type_distribution.wf(),
            result.file_type_distribution.entries@.len() == 0,
            result.file_type_distribution.total_bytes() == 0,
            result.file_type_distribution.total_files() == 0,
    {
        ThreadScanResult {
            files: Vec::new(),
            folders: Vec::new(),
            file_type_distribution: FileTypeHistogram::new(),
        }
    }
}

/// The snapshot of a scan: the totals, how long the scan took in
/// milliseconds, where it started, the largest files, the directories with
/// the totals of their subtrees, and the histogram of file types.
/// `cancellation_flag` says whether the scan that is under way has been
/// asked to stop.
#[derive(Debug)]
pub struct ScanResults {
    pub total_files: u32,
    pub total_folders: u32,
    pub total_size: u64,
    pub scan_time_millis: u64,
    pub scan_path: String,
    pub largest_files: Vec<ScannedFile>,
    pub folders: Vec<ScannedFolder>,
    pub all_folders: Vec<ScannedFolder>,
    pub file_type_distribution: FileTypeHistogram,
    pub cancellation_flag: bool,
}

impl ScanResults {
    /// The snapshot holds nothing: no scan has filled it.
    pub open spec fn is_empty(&self) -> bool {
        &&& self.total_files == 0
        &&& self.total_folders == 0
        &&& self.total_size == 0
        &&& self.scan_time_millis == 0
        &&& self.largest_files@.len() == 0
        &&& self.folders@.len() == 0
        &&& self.all_folders@.len() == 0
        &&& self.file_type_distribution.entries@.len() == 0
    }
}

impl Default for ScanResults {
    /// The empty snapshot, with no path and no request to stop.
    fn default() -> (results: ScanResults)
        ensures
            results.is_empty(),
            results.scan_path@.len() == 0,
            !results.cancellation_flag,
            results.file_type_distribution.wf(),
    {
        ScanResults {
            total_files: 0,
            total_folders: 0,
            total_size: 0,
            scan_time_millis: 0,
            scan_path: String::new(),
            largest_files: Vec::new(),
            folders: Vec::new(),
            all_folders: Vec::new(),
            file_type_distribution: FileTypeHistogram::new(),
            cancellation_flag: false,
        }
    }
}

/// The files of all workers, worker after worker.
pub open spec fn gathered_files(parts: Seq<ThreadScanResult>) -> Seq<ScannedFile>
    decreases parts.len(),
{
    if parts.len() == 0 {
        Seq::empty()
    } else {
        gathered_files(parts.drop_last()) + parts.last().files@
    }
}

/// The directory records of all workers, worker after worker.
pub open spec fn gathered_folders(parts: Seq<ThreadScanResult>) -> Seq<ScannedFolder>
    decreases parts.len(),
{
    if parts.len() == 0 {
        Seq::empty()
    } else {
        gathered_folders(parts.drop_last()) + parts.last().folders@
    }
}

/// The bytes that each worker counted.
pub open spec fn part_bytes(parts: Seq<ThreadScanResult>) -> Seq<nat> {
    Seq::new(parts.len(), |r: int| parts[r].file_type_distribution.total_bytes())
}

/// The files that each worker counted.
pub open spec fn part_files(parts: Seq<ThreadScanResult>) -> Seq<nat> {
    Seq::new(parts.len(), |r: int| parts[r].file_type_distribution.total_files())
}

/// The bytes that each worker counted under `category`.
pub open spec fn part_bytes_in(parts: Seq<ThreadScanResult>, category: Seq<char>) -> Seq<nat> {
    Seq::new(parts.len(), |r: int| parts[r].file_type_distribution.bytes_in(category))
}

/// The files that each worker counted under `category`.
pub open spec fn part_files_in(parts: Seq<ThreadScanResult>, category: Seq<char>) -> Seq<nat> {
    Seq::new(parts.len(), |r: int| parts[r].file_type_distribution.files_in(category))
}

/// Some worker among the first `upto` holds `category`.
pub open spec fn part_has(parts: Seq<ThreadScanResult>, upto: int, category: Seq<char>) -> bool {
    exists|r: int| 0 <= r < upto && (#[trigger] parts[r]).file_type_distribution.has(category)
}

/// The histogram of every worker is well formed.
pub open spec fn parts_wf(parts: Seq<ThreadScanResult>) -> bool {
    forall|r: int| 0 <= r < parts.len() ==> (#[trigger] parts[r]).file_type_distribution.wf()
}

/// The totals of all workers together fit the types of the snapshot.
pub open spec fn parts_fit(parts: Seq<ThreadScanResult>) -> bool {
    &&& sum(part_bytes(parts)) <= u64::MAX
    &&& sum(part_files(parts)) <= u32::MAX
    &&& sum(direct_sizes(models_of(gathered_folders(parts)))) <= u64::MAX
    &&& sum(direct_counts(models_of(gathered_folders(parts)))) <= u32::MAX
    &&& gathered_folders(parts).len() <= u32::MAX
}

/// `results` is what the workers' `parts` merge into, for a scan of
/// `scan_path` that took `scan_time_millis` and keeps `limit` files.
pub open spec fn is_consolidated(
    parts: Seq<ThreadScanResult>,
    results: ScanResults,
    scan_path: Seq<char>,
    scan_time_millis: u64,
    limit: u32,
) -> bool {
    let histogram = results.file_type_distribution;
    &&& histogram.wf()
    &&& results.total_size == histogram.total_bytes()
    &&& results.total_files == histogram.total_files()
    &&& histogram.total_bytes() == sum(part_bytes(parts))
    &&& histogram.total_files() == sum(part_files(parts))
    &&& forall|c: Seq<char>|
        #![trigger histogram.bytes_in(c)]
        histogram.bytes_in(c) == sum(part_bytes_in(parts, c))
    &&& forall|c: Seq<char>|
        #![trigger histogram.files_in(c)]
        histogram.files_in(c) == sum(part_files_in(parts, c))
    &&& forall|c: Seq<char>|
        #![trigger histogram.has(c)]
        histogram.has(c) <==> part_has(parts, parts.len() as int, c)
    &&& results.total_folders == gathered_folders(parts).len()
    &&& models_of(results.largest_files@) == head(
        ranked::<ScannedFile>(models_of(gathered_files(parts))),
        limit as int,
    )
    &&& is_ranked::<ScannedFile>(models_of(results.largest_files@))
    &&& results.largest_files@.len() <= limit
    &&& is_folded(models_of(gathered_folders(parts)), models_of(results.all_folders@))
    &&& models_of(results.folders@) == models_of(results.all_folders@)
    &&& results.scan_path@ == scan_path
    &&& results.scan_time_millis == scan_time_millis
    &&& !results.cancellation_flag
}

/// A copy of a list of directory records.
fn copy_folders(folders: &Vec<ScannedFolder>) -> (copy: Vec<ScannedFolder>)
    ensures
        models_of(copy@) == models_of(folders@),
{
    let mut copy: Vec<ScannedFolder> = Vec::new();
    let n = folders.len();
    let mut i: usize = 0;
    while i < n
        invariant
            i <= n,
            n == folders@.len(),
            copy@.len() == i,
            forall|k: int| 0 <= k < i ==> copy@[k]@ == folders@[k]@,
        decreases n - i,
    {
        copy.push(folders[i].duplicate());
        i += 1;
    }
    assert(models_of(copy@) =~= models_of(folders@));
    copy
}

/// Merges what the workers gathered into one snapshot.
///
/// The files of all workers are ranked by size and the `limit` largest are
/// kept. The histograms are added up category by category, and the totals
/// of the snapshot are the totals of the merged histogram. The directory
/// records of all workers are folded into the totals of their subtrees.
///
/// Where the totals do not fit the types of the snapshot, the scan has
/// failed.
pub fn consolidate(
    thread_results: Vec<ThreadScanResult>,
    scan_path: &str,
    scan_time_millis: u64,
    limit: u32,
) -> (outcome: Result<ScanResults, CommandError>)
    requires
        parts_wf(thread_results@),
    ensures
        outcome is Ok <==> parts_fit(thread_results@),
        outcome matches Err(e) ==> is_overflow(e),
        outcome matches Ok(results) ==> is_consolidated(
            thread_results@,
            results,
            scan_path@,
            scan_time_millis,
            limit,
        ),
{
    let ghost parts = thread_results@;
    let mut rest = reversed(thread_results);
    let mut all_files: Vec<ScannedFile> = Vec::new();
    let mut all_folders: Vec<ScannedFolder> = Vec::new();
    let mut histogram = FileTypeHistogram::new();
    let mut fits = true;
    let ghost mut done: int = 0;
    proof {
        assert forall|c: Seq<char>| #![trigger histogram.bytes_in(c)] histogram.bytes_in(c) == 0 by {
            crate::sums::lemma_sum_zeros(crate::histogram::sizes_for(histogram.entries@, c));
        }
        assert forall|c: Seq<char>| #![trigger histogram.files_in(c)] histogram.files_in(c) == 0 by {
            crate::sums::lemma_sum_zeros(crate::histogram::counts_for(histogram.entries@, c));
        }
    }
    loop
        invariant
            0 <= done <= parts.len(),
            rest@.len() + done == parts.len(),
            rest@ == parts.reverse().take(rest@.len() as int),
            parts_wf(parts),
            all_files@ == gathered_files(parts.take(done)),
            all_folders@ == gathered_folders(parts.take(done)),
            histogram.wf(),
            fits ==> histogram.total_bytes() == sum(part_bytes(parts).take(done)),
            fits ==> histogram.total_files() == sum(part_files(parts).take(done)),
            fits ==> forall|c: Seq<char>|
                #![trigger histogram.bytes_in(c)]
                histogram.bytes_in(c) == sum(part_bytes_in(parts, c).take(done)),
            fits ==> forall|c: Seq<char>|
                #![trigger histogram.files_in(c)]
                histogram.files_in(c) == sum(part_files_in(parts, c).take(done)),
            fits ==> forall|c: Seq<char>|
                #![trigger histogram.has(c)]
                histogram.has(c) <==> part_has(parts, done, c),
            !fits ==> sum(part_bytes(parts)) > u64::MAX || sum(part_files(parts)) > u32::MAX,
        ensures
            done == parts.len(),
            all_files@ == gathered_files(parts),
            all_folders@ == gathered_folders(parts),
            histogram.wf(),
            fits ==> histogram.total_bytes() == sum(part_bytes(parts)),
            fits ==> histogram.total_files() == sum(part_files(parts)),
            fits ==> forall|c: Seq<char>|
                #![trigger histogram.bytes_in(c)]
                histogram.bytes_in(c) == sum(part_bytes_in(parts, c)),
            fits ==> forall|c: Seq<char>|
                #![trigger histogram.files_in(c)]
                histogram.files_in(c) == sum(part_files_in(parts, c)),
            fits ==> forall|c: Seq<char>|
                #![trigger histogram.has(c)]
                histogram.has(c) <==> part_has(parts, parts.len() as int, c),
            !fits ==> sum(part_bytes(parts)) > u64::MAX || sum(part_files(parts)) > u32::MAX,
        decreases rest@.len(),
    {
        match rest.pop() {
            Some(part) => {
                let ghost before = histogram;
                proof {
                    assert(part == parts[done]);
                    assert(parts.take(done + 1).drop_last() =~= parts.take(done));
                    assert(parts.take(done + 1).last() == parts[done]);
                    lemma_sum_take_next(part_bytes(parts), done);
                    lemma_sum_take_next(part_files(parts), done);
                    lemma_sum_take_le(part_bytes(parts), done + 1);
                    lemma_sum_take_le(part_files(parts), done + 1);
                }
                let mut files = part.files;
                let mut folders = part.folders;
                let other = part.file_type_distribution;
                all_files.append(&mut files);
                all_folders.append(&mut folders);
                if fits && histogram.can_merge(&other) {
                    histogram.merge(&other);
                    proof {
                        assert forall|c: Seq<char>|
                            #![trigger histogram.bytes_in(c)]
                            histogram.bytes_in(c) == sum(
                                part_bytes_in(parts, c).take(done + 1),
                            ) by {
                            assert(before.bytes_in(c) == sum(part_bytes_in(parts, c).take(done)));
                            lemma_sum_take_next(part_bytes_in(parts, c), done);
                        }
                        assert forall|c: Seq<char>|
                            #![trigger histogram.files_in(c)]
                            histogram.files_in(c) == sum(
                                part_files_in(parts, c).take(done + 1),
                            ) by {
                            assert(before.files_in(c) == sum(part_files_in(parts, c).take(done)));
                            lemma_sum_take_next(part_files_in(parts, c), done);
                        }
                        assert forall|c: Seq<char>|
                            #![trigger histogram.has(c)]
                            histogram.has(c) <==> part_has(parts, done + 1, c) by {
                            assert(before.has(c) <==> part_has(parts, done, c));
                            if part_has(parts, done, c) {
                                let r = choose|r: int|
                                    0 <= r < done && (
                                    #[trigger] parts[r]).file_type_distribution.has(c);
                                assert(parts[r].file_type_distribution.has(c));
                            }
                            if other.has(c) {
                                assert(parts[done].file_type_distribution.has(c));
                            }
                        }
                    }
                } else {
                    fits = false;
                }
                proof {
                    done = done + 1;
                }
            },
            None => {
                proof {
                    assert(parts.take(done) =~= parts);
                    lemma_sum_take_all(part_bytes(parts));
                    lemma_sum_take_all(part_files(parts));
                    if fits {
                        assert forall|c: Seq<char>|
                            #![trigger histogram.bytes_in(c)]
                            histogram.bytes_in(c) == sum(part_bytes_in(parts, c)) by {
                            lemma_sum_take_all(part_bytes_in(parts, c));
                        }
                        assert forall|c: Seq<char>|
                            #![trigger histogram.files_in(c)]
                            histogram.files_in(c) == sum(part_files_in(parts, c)) by {
                            lemma_sum_take_all(part_files_in(parts, c));
                        }
                    }
                }
                break ;
            },
        }
    }
    if !fits || !totals_fit(&all_folders) || all_folders.len() > u32::MAX as usize {
        return Err(totals_do_not_fit());
    }
    let total_folders = all_folders.len() as u32;
    let total_size = histogram.total_size();
    let total_files = histogram.total_count();
    let recursive = calculate_recursive_folder_data(all_folders);
    let folders = copy_folders(&recursive);
    let largest_files = top_ranked(all_files, limit as usize);
    Ok(
        ScanResults {
            total_files,
            total_folders,
            total_size,
            scan_time_millis,
            scan_path: String::from_str(scan_path),
            largest_files,
            folders,
            all_folders: recursive,
            file_type_distribution: histogram,
            cancellation_flag: false,
        },
    )
}

/// Among files of which no two have the same size, the largest files are
/// in strictly falling order of size, and there are at most `limit` of them.
pub proof fn lemma_largest_files_fall(files: Seq<crate::models::FileModel>, limit: int)
    requires
        0 <= limit,
        forall|i: int, j: int|
            0 <= i < files.len() && 0 <= j < files.len() && i != j ==> (#[trigger] files[i]).size
                != (#[trigger] files[j]).size,
    ensures
        head(ranked::<ScannedFile>(files), limit).len() <= limit,
        forall|a: int, b: int|
            0 <= a < b < head(ranked::<ScannedFile>(files), limit).len() ==> (#[trigger] head(
                ranked::<ScannedFile>(files),
                limit,
            )[a]).size > (#[trigger] head(ranked::<ScannedFile>(files), limit)[b]).size,
{
    crate::ranking::lemma_ranked_strictly::<ScannedFile>(files);
    crate::ranking::lemma_ranked::<ScannedFile>(files);
    let sorted = ranked::<ScannedFile>(files);
    let top = head(sorted, limit);
    assert forall|a: int, b: int| 0 <= a < b < top.len() implies (#[trigger] top[a]).size > (
    #[trigger] top[b]).size by {
        assert(top[a] == sorted[a] && top[b] == sorted[b]);
    }
}

/// The largest files are in falling order of size whatever the sizes are,
/// and none of the files left out is larger than one that was kept.
pub proof fn lemma_largest_files_lead(files: Seq<crate::models::FileModel>, limit: int)
    requires
        0 <= limit,
    ensures
        is_ranked::<ScannedFile>(head(ranked::<ScannedFile>(files), limit)),
        forall|a: int, b: int|
            0 <= a < head(ranked::<ScannedFile>(files), limit).len() <= b < files.len() ==> (
            #[trigger] ranked::<ScannedFile>(files)[a]).size >= (#[trigger] ranked::<ScannedFile>(
                files,
            )[b]).size,
{
    crate::ranking::lemma_ranked::<ScannedFile>(files);
    let sorted = ranked::<ScannedFile>(files);
    let top = head(sorted, limit);
    assert forall|a: int, b: int| 0 <= a < b < top.len() implies ScannedFile::before(
        #[trigger] top[a],
        #[trigger] top[b],
    ) by {
        assert(top[a] == sorted[a] && top[b] == sorted[b]);
    }
}

/// In a merged snapshot the bytes of the categories add up to the total
/// size, and their files to the total number of files.
pub proof fn lemma_categories_add_up(
    parts: Seq<ThreadScanResult>,
    results: ScanResults,
    scan_path: Seq<char>,
    scan_time_millis: u64,
    limit: u32,
)
    requires
        is_consolidated(parts, results, scan_path, scan_time_millis, limit),
    ensures
        sum(crate::histogram::sizes(results.file_type_distribution.entries@))
            == results.total_size,
        sum(crate::histogram::counts(results.file_type_distribution.entries@))
            == results.total_files,
        results.total_size == sum(part_bytes(parts)),
        results.total_files == sum(part_files(parts)),
{
}

} // verus!
