//! The work of one worker on one directory: what each entry adds to the
//! counters, to the histogram, to the list of files worth keeping and to the
//! directory's own record, and which progress events go out on the way.

use crate::seqs::models_of;
use crate::classify::category_of;
use crate::classify::get_file_type_cached;
use crate::classify::lowercase;
use crate::classify::to_lowercase;
use crate::counters::capped_sum;
use crate::counters::AtomicCounters;
use crate::errors::is_overflow;
use crate::errors::totals_do_not_fit;
use crate::errors::CommandError;
use crate::histogram::FileTypeHistogram;
use crate::models::FileModel;
use crate::models::FolderModel;
use crate::models::ScanProgress;
use crate::models::ScannedFile;
use crate::models::ScannedFolder;
use crate::paths::PathModel;
use crate::paths::ScanPath;
use crate::progress::permille_of;
use crate::progress::progress_permille;
use crate::progress::ProgressModel;
use crate::progress::ProgressThrottle;
use crate::sums::lemma_sum_push;
use crate::sums::sum;
use crate::worker::WorkerStep;
use vstd::prelude::*;
use vstd::string::StringExecFns;

verus! {

/// A file is kept in the list of files only if it is larger than this many
/// bytes. Smaller files count in every total all the same.
pub const MIN_FILE_SIZE_THRESHOLD: u64 = 100_000;

/// One entry of a directory as it was read: its name, its extension as it
/// is written, whether it is a file or a directory, and its size in bytes
/// where the metadata could be read.
#[derive(Debug)]
pub struct DirectoryEntry {
    pub name: String,
    pub extension: String,
    pub is_file: bool,
    pub is_dir: bool,
    pub size: Option<u64>,
}

/// An entry as the contracts speak of it.
pub struct EntryModel {
    pub name: Seq<char>,
    pub extension: Seq<char>,
    pub is_file: bool,
    pub is_dir: bool,
    pub size: Option<u64>,
}

impl View for DirectoryEntry {
    type V = EntryModel;

    open spec fn view(&self) -> EntryModel {
        EntryModel {
            name: self.name@,
            extension: self.extension@,
            is_file: self.is_file,
            is_dir: self.is_dir,
            size: self.size,
        }
    }
}

impl EntryModel {
    /// The entry is a file whose size is known. Anything else is passed
    /// over.
    pub open spec fn counted(self) -> bool {
        self.is_file && self.size is Some
    }

    /// The bytes that the entry adds to the totals.
    pub open spec fn bytes(self) -> nat {
        if self.counted() {
            self.size->0 as nat
        } else {
            0
        }
    }

    /// The files that the entry adds to the totals: one or none.
    pub open spec fn files(self) -> nat {
        if self.counted() {
            1
        } else {
            0
        }
    }

    /// The category of the entry, by its extension in lower case.
    pub open spec fn category(self) -> Seq<char> {
        category_of(lowercase(self.extension))
    }

    /// The entry is a file large enough to be kept in the list of files.
    pub open spec fn kept(self) -> bool {
        self.counted() && self.size->0 > MIN_FILE_SIZE_THRESHOLD
    }

    /// The record of the entry as a file of the directory `dir`.
    pub open spec fn as_file(self, dir: PathModel) -> FileModel {
        FileModel {
            name: self.name,
            path: dir.child(self.name),
            size: self.size->0,
            file_type: self.category(),
            extension: lowercase(self.extension),
        }
    }
}

/// The bytes that each entry adds.
pub open spec fn entry_sizes(entries: Seq<EntryModel>) -> Seq<nat> {
    Seq::new(entries.len(), |i: int| entries[i].bytes())
}

/// The files that each entry adds.
pub open spec fn entry_counts(entries: Seq<EntryModel>) -> Seq<nat> {
    Seq::new(entries.len(), |i: int| entries[i].files())
}

/// The bytes of the files directly in a directory.
pub open spec fn dir_bytes(entries: Seq<EntryModel>) -> nat {
    sum(entry_sizes(entries))
}

/// The number of the files directly in a directory.
pub open spec fn dir_files(entries: Seq<EntryModel>) -> nat {
    sum(entry_counts(entries))
}

/// The bytes that each entry adds to `category`.
pub open spec fn category_sizes(entries: Seq<EntryModel>, category: Seq<char>) -> Seq<nat> {
    Seq::new(
        entries.len(),
        |i: int|
            if entries[i].category() == category {
                entries[i].bytes()
            } else {
                0nat
            },
    )
}

/// The files that each entry adds to `category`.
pub open spec fn category_counts(entries: Seq<EntryModel>, category: Seq<char>) -> Seq<nat> {
    Seq::new(
        entries.len(),
        |i: int|
            if entries[i].category() == category {
                entries[i].files()
            } else {
                0nat
            },
    )
}

/// Some file among the entries falls under `category`.
pub open spec fn category_seen(entries: Seq<EntryModel>, category: Seq<char>) -> bool {
    exists|i: int|
        0 <= i < entries.len() && (#[trigger] entries[i]).counted() && entries[i].category()
            == category
}

/// The files of a directory that are kept, in the order of the listing.
pub open spec fn kept_files(dir: PathModel, entries: Seq<EntryModel>) -> Seq<FileModel>
    decreases entries.len(),
{
    if entries.len() == 0 {
        Seq::empty()
    } else if entries.last().kept() {
        kept_files(dir, entries.drop_last()).push(entries.last().as_file(dir))
    } else {
        kept_files(dir, entries.drop_last())
    }
}

/// The progress events of a stretch of work and the throttle after it.
pub struct ScanTrace {
    pub events: Seq<ProgressModel>,
    pub throttle: ProgressThrottle,
}

/// The event that goes out after a file when a report is due.
pub open spec fn event_at(
    files: u32,
    bytes: u64,
    folders: u32,
    current_path: Seq<char>,
    estimated: u64,
) -> ProgressModel {
    ProgressModel {
        files_analyzed: files,
        total_size: bytes,
        folders_analyzed: folders,
        current_path,
        progress_permille: permille_of(bytes, estimated),
        estimated_total_size: estimated,
    }
}

/// What a worker reports while it reads `entries`, and its throttle after
/// them. The counters stand at `files`, `bytes` and `folders` before the
/// first entry; after each file the throttle decides, at the progress that
/// the counters then show.
pub open spec fn trace(
    start: ProgressThrottle,
    files: u32,
    bytes: u64,
    folders: u32,
    current_path: Seq<char>,
    estimated: u64,
    entries: Seq<EntryModel>,
) -> ScanTrace
    decreases entries.len(),
{
    if entries.len() == 0 {
        ScanTrace { events: Seq::empty(), throttle: start }
    } else {
        let before = trace(
            start,
            files,
            bytes,
            folders,
            current_path,
            estimated,
            entries.drop_last(),
        );
        if !entries.last().counted() {
            before
        } else {
            let files_now = capped_sum(files as nat, dir_files(entries), u32::MAX as nat) as u32;
            let bytes_now = capped_sum(bytes as nat, dir_bytes(entries), u64::MAX as nat) as u64;
            let permille = permille_of(bytes_now, estimated);
            ScanTrace {
                events: if before.throttle.due(permille) {
                    before.events.push(
                        event_at(files_now, bytes_now, folders, current_path, estimated),
                    )
                } else {
                    before.events
                },
                throttle: before.throttle.after(permille),
            }
        }
    }
}

/// What one more entry adds to the totals of a listing.
pub proof fn lemma_listing_step(entries: Seq<EntryModel>, i: int)
    requires
        0 <= i < entries.len(),
    ensures
        dir_bytes(entries.take(i + 1)) == dir_bytes(entries.take(i)) + entries[i].bytes(),
        dir_files(entries.take(i + 1)) == dir_files(entries.take(i)) + entries[i].files(),
        entries.take(i + 1).drop_last() == entries.take(i),
        entries.take(i + 1).last() == entries[i],
        forall|c: Seq<char>|
            sum(#[trigger] category_sizes(entries.take(i + 1), c)) == sum(
                category_sizes(entries.take(i), c),
            ) + if entries[i].category() == c {
                entries[i].bytes()
            } else {
                0nat
            },
        forall|c: Seq<char>|
            sum(#[trigger] category_counts(entries.take(i + 1), c)) == sum(
                category_counts(entries.take(i), c),
            ) + if entries[i].category() == c {
                entries[i].files()
            } else {
                0nat
            },
        forall|c: Seq<char>|
            category_seen(entries.take(i + 1), c) <==> category_seen(entries.take(i), c) || (
            entries[i].counted() && entries[i].category() == c),
{
    let more = entries.take(i + 1);
    let less = entries.take(i);
    assert(more.drop_last() =~= less);
    assert(entry_sizes(more) =~= entry_sizes(less).push(entries[i].bytes()));
    lemma_sum_push(entry_sizes(less), entries[i].bytes());
    assert(entry_counts(more) =~= entry_counts(less).push(entries[i].files()));
    lemma_sum_push(entry_counts(less), entries[i].files());
    assert forall|c: Seq<char>|
        sum(#[trigger] category_sizes(more, c)) == sum(category_sizes(less, c)) + if entries[i].category()
            == c {
            entries[i].bytes()
        } else {
            0nat
        } by {
        let x = if entries[i].category() == c {
            entries[i].bytes()
        } else {
            0nat
        };
        assert(category_sizes(more, c) =~= category_sizes(less, c).push(x));
        lemma_sum_push(category_sizes(less, c), x);
    }
    assert forall|c: Seq<char>|
        sum(#[trigger] category_counts(more, c)) == sum(category_counts(less, c)) + if entries[i].category()
            == c {
            entries[i].files()
        } else {
            0nat
        } by {
        let x = if entries[i].category() == c {
            entries[i].files()
        } else {
            0nat
        };
        assert(category_counts(more, c) =~= category_counts(less, c).push(x));
        lemma_sum_push(category_counts(less, c), x);
    }
    assert forall|c: Seq<char>|
        category_seen(more, c) <==> category_seen(less, c) || (entries[i].counted()
            && entries[i].category() == c) by {
        if category_seen(less, c) {
            let k = choose|k: int|
                0 <= k < less.len() && (#[trigger] less[k]).counted() && less[k].category() == c;
            assert(more[k].counted() && more[k].category() == c);
        }
        if entries[i].counted() && entries[i].category() == c {
            assert(more[i].counted() && more[i].category() == c);
        }
        if category_seen(more, c) {
            let k = choose|k: int|
                0 <= k < more.len() && (#[trigger] more[k]).counted() && more[k].category() == c;
            if k < i {
                assert(less[k].counted() && less[k].category() == c);
            }
        }
    }
}

/// The bytes and the number of the files directly in a directory, or `None`
/// where one of the two does not fit its type.
pub fn measure_directory(entries: &Vec<DirectoryEntry>) -> (totals: Option<(u64, u32)>)
    ensures
        totals is Some <==> dir_bytes(models_of(entries@)) <= u64::MAX && dir_files(
            models_of(entries@),
        ) <= u32::MAX,
        totals matches Some(t) ==> t.0 == dir_bytes(models_of(entries@)) && t.1 == dir_files(
            models_of(entries@),
        ),
{
    let ghost listing = models_of(entries@);
    let n = entries.len();
    let mut bytes: u64 = 0;
    let mut files: u32 = 0;
    let mut i: usize = 0;
    while i < n
        invariant
            i <= n,
            n == entries@.len(),
            listing == models_of(entries@),
            bytes == dir_bytes(listing.take(i as int)),
            files == dir_files(listing.take(i as int)),
        decreases n - i,
    {
        proof {
            lemma_listing_step(listing, i as int);
            lemma_listing_grows(listing, i + 1);
        }
        let entry = &entries[i];
        if entry.is_file {
            match entry.size {
                Some(size) => {
                    if size > u64::MAX - bytes || files == u32::MAX {
                        return None;
                    }
                    bytes = bytes + size;
                    files = files + 1;
                },
                None => {},
            }
        }
        i += 1;
    }
    proof {
        assert(listing.take(n as int) =~= listing);
    }
    Some((bytes, files))
}

/// The totals of a leading part of a listing are at most those of the whole.
pub proof fn lemma_listing_grows(entries: Seq<EntryModel>, k: int)
    requires
        0 <= k <= entries.len(),
    ensures
        dir_bytes(entries.take(k)) <= dir_bytes(entries),
        dir_files(entries.take(k)) <= dir_files(entries),
{
    assert(entry_sizes(entries.take(k)) =~= entry_sizes(entries).take(k));
    assert(entry_counts(entries.take(k)) =~= entry_counts(entries).take(k));
    crate::sums::lemma_sum_take_le(entry_sizes(entries), k);
    crate::sums::lemma_sum_take_le(entry_counts(entries), k);
}

/// The histogram has room for the files of a directory: with them its
/// totals still fit their types.
pub open spec fn directory_fits(histogram: &FileTypeHistogram, entries: Seq<EntryModel>) -> bool {
    &&& histogram.total_bytes() + dir_bytes(entries) <= u64::MAX
    &&& histogram.total_files() + dir_files(entries) <= u32::MAX
}

/// Takes one file into the books of a worker: the counters, the histogram,
/// and the list of files if the file is large enough. Returns the progress
/// event to send, if one is due now.
pub fn record_file(
    dir_path: &ScanPath,
    entry: &DirectoryEntry,
    thread_files: &mut Vec<ScannedFile>,
    file_type_distribution: &mut FileTypeHistogram,
    counters: &mut AtomicCounters,
    estimated_total_size: u64,
    throttle: &mut ProgressThrottle,
) -> (event: Option<ScanProgress>)
    requires
        entry@.counted(),
        old(file_type_distribution).wf(),
        old(file_type_distribution).total_bytes() + entry@.bytes() <= u64::MAX,
        old(file_type_distribution).total_files() + 1 <= u32::MAX,
    ensures
        final(file_type_distribution).wf(),
        final(file_type_distribution).total_bytes() == old(file_type_distribution).total_bytes()
            + entry@.bytes(),
        final(file_type_distribution).total_files() == old(file_type_distribution).total_files()
            + 1,
        forall|c: Seq<char>|
            #![trigger final(file_type_distribution).bytes_in(c)]
            final(file_type_distribution).bytes_in(c) == old(file_type_distribution).bytes_in(c)
                + if c == entry@.category() {
                entry@.bytes()
            } else {
                0nat
            },
        forall|c: Seq<char>|
            #![trigger final(file_type_distribution).files_in(c)]
            final(file_type_distribution).files_in(c) == old(file_type_distribution).files_in(c)
                + if c == entry@.category() {
                1nat
            } else {
                0nat
            },
        forall|c: Seq<char>|
            #![trigger final(file_type_distribution).has(c)]
            final(file_type_distribution).has(c) <==> old(file_type_distribution).has(c) || c
                == entry@.category(),
        models_of(final(thread_files)@) == if entry@.kept() {
            models_of(old(thread_files)@).push(entry@.as_file(dir_path@))
        } else {
            models_of(old(thread_files)@)
        },
        final(counters).files_analyzed == capped_sum(
            old(counters).files_analyzed as nat,
            1,
            u32::MAX as nat,
        ),
        final(counters).total_size == capped_sum(
            old(counters).total_size as nat,
            entry@.bytes(),
            u64::MAX as nat,
        ),
        final(counters).folder_count == old(counters).folder_count,
        final(counters).current_path == old(counters).current_path,
        *final(throttle) == old(throttle).after(
            permille_of(final(counters).total_size, estimated_total_size),
        ),
        match event {
            Some(e) => old(throttle).due(
                permille_of(final(counters).total_size, estimated_total_size),
            ) && e@ == event_at(
                final(counters).files_analyzed,
                final(counters).total_size,
                final(counters).folder_count,
                dir_path@.text(),
                estimated_total_size,
            ),
            None => !old(throttle).due(
                permille_of(final(counters).total_size, estimated_total_size),
            ),
        },
{
    let size = match entry.size {
        Some(size) => size,
        None => 0,
    };
    let extension = to_lowercase(entry.extension.as_str());
    record_classified_file(
        dir_path,
        entry.name.as_str(),
        extension,
        size,
        thread_files,
        file_type_distribution,
        counters,
        estimated_total_size,
        throttle,
    )
}

/// The record of a file of the directory `dir`, given its name, its
/// extension in lower case and its size.
pub open spec fn classified_file(
    dir: PathModel,
    name: Seq<char>,
    extension: Seq<char>,
    size: u64,
) -> FileModel {
    FileModel {
        name,
        path: dir.child(name),
        size,
        file_type: category_of(extension),
        extension,
    }
}

/// Takes one file into the books of a worker, given its name, its
/// extension in lower case and its size: the counters grow by the file, the
/// histogram by the file under the category of the extension, and the file
/// joins the list of files if it is larger than `MIN_FILE_SIZE_THRESHOLD`.
/// Returns the progress event to send, if one is due now.
pub fn record_classified_file(
    dir_path: &ScanPath,
    name: &str,
    extension: String,
    size: u64,
    thread_files: &mut Vec<ScannedFile>,
    file_type_distribution: &mut FileTypeHistogram,
    counters: &mut AtomicCounters,
    estimated_total_size: u64,
    throttle: &mut ProgressThrottle,
) -> (event: Option<ScanProgress>)
    requires
        old(file_type_distribution).wf(),
        old(file_type_distribution).total_bytes() + size <= u64::MAX,
        old(file_type_distribution).total_files() + 1 <= u32::MAX,
    ensures
        final(file_type_distribution).wf(),
        final(file_type_distribution).total_bytes() == old(file_type_distribution).total_bytes()
            + size,
        final(file_type_distribution).total_files() == old(file_type_distribution).total_files()
            + 1,
        forall|c: Seq<char>|
            #![trigger final(file_type_distribution).bytes_in(c)]
            final(file_type_distribution).bytes_in(c) == old(file_type_distribution).bytes_in(c)
                + if c == category_of(extension@) {
                size as nat
            } else {
                0nat
            },
        forall|c: Seq<char>|
            #![trigger final(file_type_distribution).files_in(c)]
            final(file_type_distribution).files_in(c) == old(file_type_distribution).files_in(c)
                + if c == category_of(extension@) {
                1nat
            } else {
                0nat
            },
        forall|c: Seq<char>|
            #![trigger final(file_type_distribution).has(c)]
            final(file_type_distribution).has(c) <==> old(file_type_distribution).has(c) || c
                == category_of(extension@),
        models_of(final(thread_files)@) == if size > MIN_FILE_SIZE_THRESHOLD {
            models_of(old(thread_files)@).push(
                classified_file(dir_path@, name@, extension@, size),
            )
        } else {
            models_of(old(thread_files)@)
        },
        final(counters).files_analyzed == capped_sum(
            old(counters).files_analyzed as nat,
            1,
            u32::MAX as nat,
        ),
        final(counters).total_size == capped_sum(
            old(counters).total_size as nat,
            size as nat,
            u64::MAX as nat,
        ),
        final(counters).folder_count == old(counters).folder_count,
        final(counters).current_path == old(counters).current_path,
        *final(throttle) == old(throttle).after(
            permille_of(final(counters).total_size, estimated_total_size),
        ),
        match event {
            Some(e) => old(throttle).due(
                permille_of(final(counters).total_size, estimated_total_size),
            ) && e@ == event_at(
                final(counters).files_analyzed,
                final(counters).total_size,
                final(counters).folder_count,
                dir_path@.text(),
                estimated_total_size,
            ),
            None => !old(throttle).due(
                permille_of(final(counters).total_size, estimated_total_size),
            ),
        },
{
    counters.record_file(size);
    let file_type = get_file_type_cached(extension.as_str());
    file_type_distribution.add(file_type.as_str(), size);
    if size > MIN_FILE_SIZE_THRESHOLD {
        let file = ScannedFile {
            name: String::from_str(name),
            path: dir_path.join(name),
            size,
            file_type,
            extension,
        };
        thread_files.push(file);
        assert(models_of(thread_files@) =~= models_of(old(thread_files)@).push(
            classified_file(dir_path@, name@, extension@, size),
        ));
    }
    let values = counters.get_values();
    let permille = progress_permille(values.1, estimated_total_size);
    if throttle.observe(permille) {
        Some(
            ScanProgress {
                files_analyzed: values.0,
                total_size: values.1,
                folders_analyzed: values.2,
                current_path: dir_path.to_text(),
                progress_permille: permille,
                estimated_total_size,
            },
        )
    } else {
        None
    }
}

/// What taking a directory into the books of a worker comes to. `dir` is the
/// directory and `listing` what was read from it; the files kept, the
/// folders, the histogram, the counters and the throttle are given as they
/// were before and as they are after, and `events` are the events to send.
///
/// The directory is counted and named as the current one. Each file whose
/// size is known adds to the counters and to the histogram, under the
/// category of its extension in lower case; files larger than
/// `MIN_FILE_SIZE_THRESHOLD` join the list of files. Other entries are
/// passed over. The directory joins the list of folders with the bytes and
/// the number of the files directly in it.
pub open spec fn entries_scanned(
    dir: PathModel,
    listing: Seq<EntryModel>,
    estimated: u64,
    files_before: Seq<FileModel>,
    files_after: Seq<FileModel>,
    folders_before: Seq<FolderModel>,
    folders_after: Seq<FolderModel>,
    histogram_before: FileTypeHistogram,
    histogram_after: FileTypeHistogram,
    counters_before: AtomicCounters,
    counters_after: AtomicCounters,
    throttle_before: ProgressThrottle,
    throttle_after: ProgressThrottle,
    events: Seq<ProgressModel>,
) -> bool {
    let folders_now = capped_sum(counters_before.folder_count as nat, 1, u32::MAX as nat) as u32;
    let run = trace(
        throttle_before,
        counters_before.files_analyzed,
        counters_before.total_size,
        folders_now,
        dir.text(),
        estimated,
        listing,
    );
    &&& files_after == files_before + kept_files(dir, listing)
    &&& folders_after == folders_before.push(
        FolderModel {
            name: dir.name(),
            path: dir,
            size: dir_bytes(listing) as u64,
            file_count: dir_files(listing) as u32,
        },
    )
    &&& histogram_after.total_bytes() == histogram_before.total_bytes() + dir_bytes(listing)
    &&& histogram_after.total_files() == histogram_before.total_files() + dir_files(listing)
    &&& forall|c: Seq<char>|
        #![trigger histogram_after.bytes_in(c)]
        histogram_after.bytes_in(c) == histogram_before.bytes_in(c) + sum(
            category_sizes(listing, c),
        )
    &&& forall|c: Seq<char>|
        #![trigger histogram_after.files_in(c)]
        histogram_after.files_in(c) == histogram_before.files_in(c) + sum(
            category_counts(listing, c),
        )
    &&& forall|c: Seq<char>|
        #![trigger histogram_after.has(c)]
        histogram_after.has(c) <==> histogram_before.has(c) || category_seen(listing, c)
    &&& counters_after.files_analyzed == capped_sum(
        counters_before.files_analyzed as nat,
        dir_files(listing),
        u32::MAX as nat,
    )
    &&& counters_after.total_size == capped_sum(
        counters_before.total_size as nat,
        dir_bytes(listing),
        u64::MAX as nat,
    )
    &&& counters_after.folder_count == folders_now
    &&& counters_after.current_path@ == dir.text()
    &&& events == run.events
    &&& throttle_after == run.throttle
}

/// Takes one directory into the books of a worker, given the entries that
/// were read from it: see [`entries_scanned`]. The events to send are
/// returned in order.
///
/// Where the histogram has no room for the files of the directory, the scan
/// of it fails and nothing is changed.
pub fn scan_entries(
    dir_path: &ScanPath,
    entries: &Vec<DirectoryEntry>,
    thread_files: &mut Vec<ScannedFile>,
    thread_folders: &mut Vec<ScannedFolder>,
    file_type_distribution: &mut FileTypeHistogram,
    counters: &mut AtomicCounters,
    estimated_total_size: u64,
    throttle: &mut ProgressThrottle,
) -> (outcome: Result<Vec<ScanProgress>, CommandError>)
    requires
        old(file_type_distribution).wf(),
    ensures
        final(file_type_distribution).wf(),
        outcome is Ok <==> directory_fits(old(file_type_distribution), models_of(entries@)),
        outcome matches Err(e) ==> {
            &&& is_overflow(e)
            &&& final(thread_files)@ == old(thread_files)@
            &&& final(thread_folders)@ == old(thread_folders)@
            &&& final(file_type_distribution).entries@ == old(file_type_distribution).entries@
            &&& *final(counters) == *old(counters)
            &&& *final(throttle) == *old(throttle)
        },
        outcome matches Ok(events) ==> entries_scanned(
            dir_path@,
            models_of(entries@),
            estimated_total_size,
            models_of(old(thread_files)@),
            models_of(final(thread_files)@),
            models_of(old(thread_folders)@),
            models_of(final(thread_folders)@),
            *old(file_type_distribution),
            *final(file_type_distribution),
            *old(counters),
            *final(counters),
            *old(throttle),
            *final(throttle),
            models_of(events@),
        ),
{
    let ghost listing = models_of(entries@);
    let ghost old_files = models_of(thread_files@);
    let ghost old_hist = *file_type_distribution;
    let ghost start = *throttle;
    let ghost files0 = counters.files_analyzed;
    let ghost bytes0 = counters.total_size;
    let (dir_size, dir_count, fits) = match measure_directory(entries) {
        Some(totals) => {
            let bytes = file_type_distribution.total_size();
            let files = file_type_distribution.total_count();
            (totals.0, totals.1, totals.0 <= u64::MAX - bytes && totals.1 <= u32::MAX - files)
        },
        None => (0, 0, false),
    };
    if !fits {
        return Err(totals_do_not_fit());
    }
    counters.record_folder();
    let text = dir_path.to_text();
    counters.update_current_path(text.as_str());
    let ghost folders_now = counters.folder_count;
    let mut events: Vec<ScanProgress> = Vec::new();
    let n = entries.len();
    let mut i: usize = 0;
    while i < n
        invariant
            i <= n,
            n == entries@.len(),
            listing == models_of(entries@),
            directory_fits(&old_hist, listing),
            dir_size == dir_bytes(listing),
            dir_count == dir_files(listing),
            old_hist.wf(),
            file_type_distribution.wf(),
            models_of(thread_files@) == old_files + kept_files(dir_path@, listing.take(i as int)),
            file_type_distribution.total_bytes() == old_hist.total_bytes() + dir_bytes(
                listing.take(i as int),
            ),
            file_type_distribution.total_files() == old_hist.total_files() + dir_files(
                listing.take(i as int),
            ),
            forall|c: Seq<char>|
                #![trigger file_type_distribution.bytes_in(c)]
                file_type_distribution.bytes_in(c) == old_hist.bytes_in(c) + sum(
                    category_sizes(listing.take(i as int), c),
                ),
            forall|c: Seq<char>|
                #![trigger file_type_distribution.files_in(c)]
                file_type_distribution.files_in(c) == old_hist.files_in(c) + sum(
                    category_counts(listing.take(i as int), c),
                ),
            forall|c: Seq<char>|
                #![trigger file_type_distribution.has(c)]
                file_type_distribution.has(c) <==> old_hist.has(c) || category_seen(
                    listing.take(i as int),
                    c,
                ),
            counters.files_analyzed == capped_sum(
                files0 as nat,
                dir_files(listing.take(i as int)),
                u32::MAX as nat,
            ),
            counters.total_size == capped_sum(
                bytes0 as nat,
                dir_bytes(listing.take(i as int)),
                u64::MAX as nat,
            ),
            counters.folder_count == folders_now,
            counters.current_path@ == dir_path@.text(),
            models_of(events@) == trace(
                start,
                files0,
                bytes0,
                folders_now,
                dir_path@.text(),
                estimated_total_size,
                listing.take(i as int),
            ).events,
            *throttle == trace(
                start,
                files0,
                bytes0,
                folders_now,
                dir_path@.text(),
                estimated_total_size,
                listing.take(i as int),
            ).throttle,
        decreases n - i,
    {
        proof {
            lemma_listing_step(listing, i as int);
            lemma_listing_grows(listing, i + 1);
        }
        let ghost hist_before = *file_type_distribution;
        let ghost events_before = events@;
        let entry = &entries[i];
        assert(entry@ == listing[i as int]);
        if entry.is_file && entry.size.is_some() {
            let event = record_file(
                dir_path,
                entry,
                thread_files,
                file_type_distribution,
                counters,
                estimated_total_size,
                throttle,
            );
            match event {
                Some(e) => {
                    events.push(e);
                    assert(models_of(events@) =~= models_of(events_before).push(e@));
                },
                None => {},
            }
            proof {
                assert forall|c: Seq<char>|
                    #![trigger file_type_distribution.bytes_in(c)]
                    file_type_distribution.bytes_in(c) == old_hist.bytes_in(c) + sum(
                        category_sizes(listing.take(i + 1), c),
                    ) by {
                    assert(hist_before.bytes_in(c) == old_hist.bytes_in(c) + sum(
                        category_sizes(listing.take(i as int), c),
                    ));
                }
                assert forall|c: Seq<char>|
                    #![trigger file_type_distribution.files_in(c)]
                    file_type_distribution.files_in(c) == old_hist.files_in(c) + sum(
                        category_counts(listing.take(i + 1), c),
                    ) by {
                    assert(hist_before.files_in(c) == old_hist.files_in(c) + sum(
                        category_counts(listing.take(i as int), c),
                    ));
                }
                assert forall|c: Seq<char>|
                    #![trigger file_type_distribution.has(c)]
                    file_type_distribution.has(c) <==> old_hist.has(c) || category_seen(
                        listing.take(i + 1),
                        c,
                    ) by {
                    assert(hist_before.has(c) <==> old_hist.has(c) || category_seen(
                        listing.take(i as int),
                        c,
                    ));
                    assert(category_seen(listing.take(i + 1), c) <==> category_seen(
                        listing.take(i as int),
                        c,
                    ) || (listing[i as int].counted() && listing[i as int].category() == c));
                }
                assert(models_of(thread_files@) =~= old_files + kept_files(
                    dir_path@,
                    listing.take(i + 1),
                ));
            }
        } else {
            proof {
                assert(!listing[i as int].counted());
                assert forall|c: Seq<char>|
                    #![trigger file_type_distribution.has(c)]
                    file_type_distribution.has(c) <==> old_hist.has(c) || category_seen(
                        listing.take(i + 1),
                        c,
                    ) by {
                    assert(hist_before.has(c) <==> old_hist.has(c) || category_seen(
                        listing.take(i as int),
                        c,
                    ));
                    assert(category_seen(listing.take(i + 1), c) <==> category_seen(
                        listing.take(i as int),
                        c,
                    ) || (listing[i as int].counted() && listing[i as int].category() == c));
                }
                assert forall|c: Seq<char>|
                    #![trigger file_type_distribution.bytes_in(c)]
                    file_type_distribution.bytes_in(c) == old_hist.bytes_in(c) + sum(
                        category_sizes(listing.take(i + 1), c),
                    ) by {
                    assert(hist_before.bytes_in(c) == old_hist.bytes_in(c) + sum(
                        category_sizes(listing.take(i as int), c),
                    ));
                }
                assert forall|c: Seq<char>|
                    #![trigger file_type_distribution.files_in(c)]
                    file_type_distribution.files_in(c) == old_hist.files_in(c) + sum(
                        category_counts(listing.take(i + 1), c),
                    ) by {
                    assert(hist_before.files_in(c) == old_hist.files_in(c) + sum(
                        category_counts(listing.take(i as int), c),
                    ));
                }
            }
        }
        i += 1;
    }
    proof {
        assert(listing.take(n as int) =~= listing);
    }
    let ghost folders_before = models_of(thread_folders@);
    thread_folders.push(
        ScannedFolder {
            name: dir_path.file_name(),
            path: dir_path.duplicate(),
            size: dir_size,
            file_count: dir_count,
        },
    );
    proof {
        assert(models_of(thread_folders@) =~= folders_before.push(
            FolderModel {
                name: dir_path@.name(),
                path: dir_path@,
                size: dir_bytes(listing) as u64,
                file_count: dir_files(listing) as u32,
            },
        ));
    }
    Ok(events)
}

/// Scans one directory for a worker, given whether the scan has been asked
/// to stop and what reading the directory gave.
///
/// Once the scan has been asked to stop nothing is done, and a directory
/// that could not be read is passed over: in both cases the scan of the
/// directory has not failed, no event goes out, and the files, the folders,
/// the histogram, the counters and the throttle stay as they are. Any other
/// directory is taken into the books as [`entries_scanned`] says, and the
/// events to send are returned in order.
///
/// Where the histogram has no room for the files of the directory, the scan
/// of it fails and nothing is changed.
pub fn scan_single_directory_optimized(
    cancelled: bool,
    dir_path: &ScanPath,
    entries: Option<&Vec<DirectoryEntry>>,
    thread_files: &mut Vec<ScannedFile>,
    thread_folders: &mut Vec<ScannedFolder>,
    file_type_distribution: &mut FileTypeHistogram,
    counters: &mut AtomicCounters,
    estimated_total_size: u64,
    throttle: &mut ProgressThrottle,
) -> (outcome: Result<Vec<ScanProgress>, CommandError>)
    requires
        old(file_type_distribution).wf(),
    ensures
        final(file_type_distribution).wf(),
        outcome is Err <==> !cancelled && (entries matches Some(listing) && !directory_fits(
            old(file_type_distribution),
            models_of(listing@),
        )),
        outcome matches Err(e) ==> is_overflow(e),
        cancelled || entries is None || outcome is Err ==> {
            &&& final(thread_files)@ == old(thread_files)@
            &&& final(thread_folders)@ == old(thread_folders)@
            &&& final(file_type_distribution).entries@ == old(file_type_distribution).entries@
            &&& *final(counters) == *old(counters)
            &&& *final(throttle) == *old(throttle)
        },
        cancelled || entries is None ==> (outcome matches Ok(events) && events@.len() == 0),
        !cancelled ==> match (entries, outcome) {
            (Some(listing), Ok(events)) => entries_scanned(
                dir_path@,
                models_of(listing@),
                estimated_total_size,
                models_of(old(thread_files)@),
                models_of(final(thread_files)@),
                models_of(old(thread_folders)@),
                models_of(final(thread_folders)@),
                *old(file_type_distribution),
                *final(file_type_distribution),
                *old(counters),
                *final(counters),
                *old(throttle),
                *final(throttle),
                models_of(events@),
            ),
            _ => true,
        },
{
    match crate::worker::entry_step(cancelled, entries.is_some()) {
        WorkerStep::Scan => match entries {
            Some(listing) => scan_entries(
                dir_path,
                listing,
                thread_files,
                thread_folders,
                file_type_distribution,
                counters,
                estimated_total_size,
                throttle,
            ),
            None => Ok(Vec::new()),
        },
        _ => Ok(Vec::new()),
    }
}

} // verus!
