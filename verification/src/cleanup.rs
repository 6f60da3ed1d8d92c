//! What could be cleaned up after a scan: files that look like copies,
//! backups and temporary files, large files that were not touched for a
//! year, and empty folders. The same rules say what a suggestion amounts to
//! and which files and folders it stands for.

use crate::classify::lowercase;
use crate::classify::to_lowercase;
use crate::models::CleanupSuggestionItem;
use crate::models::FileModel;
use crate::models::FolderModel;
use crate::models::ScannedFile;
use crate::models::ScannedFolder;
use crate::models::SuggestionModel;
use crate::ranking::ranked;
use crate::ranking::sort_ranked;
use crate::seqs::models_of;
use crate::sums::lemma_sum_pointwise_le;
use crate::sums::lemma_sum_take_all;
use crate::sums::lemma_sum_take_le;
use crate::sums::lemma_sum_take_next;
use crate::sums::sum;
use crate::text::str_contains;
use crate::text::str_ends_with;
use crate::text::str_equals;
use crate::text::str_starts_with;
use crate::text::text_contains;
use crate::text::text_ends_with;
use crate::text::text_starts_with;
use std::collections::HashSet;
use vstd::prelude::*;
use vstd::string::StringExecFns;

verus! {

/// Files of the same size count as copies only above this many bytes.
pub const DUPLICATE_MIN_SIZE: u64 = 10_000;

/// A file counts as large above this many bytes.
pub const OLD_FILE_MIN_SIZE: u64 = 100_000_000;

/// A file counts as old when it was last changed more than this many
/// seconds ago: a year of 365 days.
pub const OLD_FILE_MIN_AGE: u64 = 31_536_000;

/// The kinds of suggestion.
#[derive(Clone, Copy, Debug, PartialEq, Eq, Structural)]
pub enum CleanupKind {
    Duplicates,
    Backups,
    EmptyFolders,
    OldLargeFiles,
    TemporaryFiles,
}

impl CleanupKind {
    /// The name under which the kind is shown.
    pub open spec fn label(self) -> Seq<char> {
        match self {
            CleanupKind::Duplicates => "Potential Duplicate Files"@,
            CleanupKind::Backups => "Backup Files"@,
            CleanupKind::EmptyFolders => "Empty Folders"@,
            CleanupKind::OldLargeFiles => "Old Large Files (>1 year)"@,
            CleanupKind::TemporaryFiles => "Temporary Files"@,
        }
    }

    /// The color under which the kind is shown.
    pub open spec fn color(self) -> Seq<char> {
        match self {
            CleanupKind::Duplicates => "blue"@,
            CleanupKind::Backups => "green"@,
            CleanupKind::EmptyFolders => "yellow"@,
            CleanupKind::OldLargeFiles => "red"@,
            CleanupKind::TemporaryFiles => "orange"@,
        }
    }

    /// The kind with the given name, if there is one.
    pub open spec fn named(label: Seq<char>) -> Option<CleanupKind> {
        if label == "Potential Duplicate Files"@ {
            Some(CleanupKind::Duplicates)
        } else if label == "Backup Files"@ {
            Some(CleanupKind::Backups)
        } else if label == "Empty Folders"@ {
            Some(CleanupKind::EmptyFolders)
        } else if label == "Old Large Files (>1 year)"@ {
            Some(CleanupKind::OldLargeFiles)
        } else if label == "Temporary Files"@ {
            Some(CleanupKind::TemporaryFiles)
        } else {
            None
        }
    }

    /// The kind with the given name, if there is one.
    pub fn from_label(label: &str) -> (kind: Option<CleanupKind>)
        ensures
            kind == CleanupKind::named(label@),
    {
        if str_equals(label, "Potential Duplicate Files") {
            Some(CleanupKind::Duplicates)
        } else if str_equals(label, "Backup Files") {
            Some(CleanupKind::Backups)
        } else if str_equals(label, "Empty Folders") {
            Some(CleanupKind::EmptyFolders)
        } else if str_equals(label, "Old Large Files (>1 year)") {
            Some(CleanupKind::OldLargeFiles)
        } else if str_equals(label, "Temporary Files") {
            Some(CleanupKind::TemporaryFiles)
        } else {
            None
        }
    }
}

/// A name in lower case looks like that of a backup: it holds `backup`,
/// `bak`, `~`, `copy` or `temp`, or ends with `.old`.
pub open spec fn is_backup_text(lower: Seq<char>) -> bool {
    ||| text_contains(lower, "backup"@)
    ||| text_contains(lower, "bak"@)
    ||| text_contains(lower, "~"@)
    ||| text_ends_with(lower, ".old"@)
    ||| text_contains(lower, "copy"@)
    ||| text_contains(lower, "temp"@)
}

/// The name looks like that of a backup, whatever its case.
pub open spec fn is_backup_name(name: Seq<char>) -> bool {
    is_backup_text(lowercase(name))
}

/// A file looks temporary, given its name and its path in lower case and
/// its extension: the name starts with `tmp` or `temp`, a directory `tmp` or
/// `temp` is on the path, or the extension is `tmp` or `temp`.
pub open spec fn has_temp_marks(name: Seq<char>, path: Seq<char>, extension: Seq<char>) -> bool {
    ||| text_starts_with(name, "tmp"@)
    ||| text_starts_with(name, "temp"@)
    ||| text_contains(path, "/tmp/"@)
    ||| text_contains(path, "/temp/"@)
    ||| text_contains(path, "\\tmp\\"@)
    ||| text_contains(path, "\\temp\\"@)
    ||| extension == "tmp"@
    ||| extension == "temp"@
}

/// The file looks temporary: by its name, by a directory `tmp` or `temp` on
/// its path, or by its extension.
pub open spec fn is_temp_file(file: FileModel) -> bool {
    has_temp_marks(lowercase(file.name), lowercase(file.path.text()), file.extension)
}

/// The file at `i` has the size of a file before it and is large enough to
/// count as its copy. The first file of each size is no copy.
pub open spec fn is_extra_copy(files: Seq<FileModel>, i: int) -> bool {
    files[i].size > DUPLICATE_MIN_SIZE && exists|j: int|
        0 <= j < i && (#[trigger] files[j]).size == files[i].size
}

/// The age in seconds of the file at `i`, where it is known.
pub open spec fn age_at(ages: Seq<Option<u64>>, i: int) -> Option<u64> {
    if 0 <= i < ages.len() {
        ages[i]
    } else {
        None
    }
}

/// The file at `i` is large and has not been changed for a year.
pub open spec fn is_old_large(files: Seq<FileModel>, ages: Seq<Option<u64>>, i: int) -> bool {
    files[i].size > OLD_FILE_MIN_SIZE && (age_at(ages, i) matches Some(age) && age
        > OLD_FILE_MIN_AGE)
}

/// A suggestion of `kind` stands for the file at `i`.
pub open spec fn selects_file(
    kind: CleanupKind,
    files: Seq<FileModel>,
    ages: Seq<Option<u64>>,
    i: int,
) -> bool {
    match kind {
        CleanupKind::Duplicates => is_extra_copy(files, i),
        CleanupKind::Backups => is_backup_name(files[i].name),
        CleanupKind::EmptyFolders => false,
        CleanupKind::OldLargeFiles => is_old_large(files, ages, i),
        CleanupKind::TemporaryFiles => is_temp_file(files[i]),
    }
}

/// A suggestion of `kind` stands for the folder at `i`.
pub open spec fn selects_folder(kind: CleanupKind, folders: Seq<FolderModel>, i: int) -> bool {
    kind == CleanupKind::EmptyFolders && folders[i].file_count == 0
}

/// For each file the bytes that it adds to a suggestion of `kind`.
pub open spec fn selected_sizes(
    kind: CleanupKind,
    files: Seq<FileModel>,
    ages: Seq<Option<u64>>,
) -> Seq<nat> {
    Seq::new(
        files.len(),
        |i: int|
            if selects_file(kind, files, ages, i) {
                files[i].size as nat
            } else {
                0nat
            },
    )
}

/// For each file what it adds to the count of a suggestion of `kind`.
pub open spec fn selected_files(
    kind: CleanupKind,
    files: Seq<FileModel>,
    ages: Seq<Option<u64>>,
) -> Seq<nat> {
    Seq::new(
        files.len(),
        |i: int|
            if selects_file(kind, files, ages, i) {
                1nat
            } else {
                0nat
            },
    )
}

/// For each folder what it adds to the count of a suggestion of `kind`.
pub open spec fn selected_folders(kind: CleanupKind, folders: Seq<FolderModel>) -> Seq<nat> {
    Seq::new(
        folders.len(),
        |i: int|
            if selects_folder(kind, folders, i) {
                1nat
            } else {
                0nat
            },
    )
}

/// The bytes of each file.
pub open spec fn file_sizes(files: Seq<FileModel>) -> Seq<nat> {
    Seq::new(files.len(), |i: int| files[i].size as nat)
}

/// The suggestion of `kind`: the bytes of the files it stands for, and the
/// number of the files and folders it stands for.
pub open spec fn suggestion_of(
    kind: CleanupKind,
    files: Seq<FileModel>,
    folders: Seq<FolderModel>,
    ages: Seq<Option<u64>>,
) -> SuggestionModel {
    SuggestionModel {
        cleanup_type: kind.label(),
        size: sum(selected_sizes(kind, files, ages)) as u64,
        count: (sum(selected_files(kind, files, ages)) + sum(selected_folders(kind, folders)))
            as u32,
        color_class: kind.color(),
    }
}

/// The suggestions of all kinds, in the order in which the kinds are looked
/// at.
pub open spec fn candidates(
    files: Seq<FileModel>,
    folders: Seq<FolderModel>,
    ages: Seq<Option<u64>>,
) -> Seq<SuggestionModel> {
    seq![
        suggestion_of(CleanupKind::Duplicates, files, folders, ages),
        suggestion_of(CleanupKind::Backups, files, folders, ages),
        suggestion_of(CleanupKind::EmptyFolders, files, folders, ages),
        suggestion_of(CleanupKind::OldLargeFiles, files, folders, ages),
        suggestion_of(CleanupKind::TemporaryFiles, files, folders, ages),
    ]
}

/// The suggestions that stand for anything at all.
pub open spec fn with_any(suggestions: Seq<SuggestionModel>) -> Seq<SuggestionModel>
    decreases suggestions.len(),
{
    if suggestions.len() == 0 {
        Seq::empty()
    } else if suggestions.last().count > 0 {
        with_any(suggestions.drop_last()).push(suggestions.last())
    } else {
        with_any(suggestions.drop_last())
    }
}

/// Whether a name in lower case looks like that of a backup.
pub fn backup_text(lower: &str) -> (backup: bool)
    ensures
        backup == is_backup_text(lower@),
{
    str_contains(lower, "backup") || str_contains(lower, "bak") || str_contains(lower, "~")
        || str_ends_with(lower, ".old") || str_contains(lower, "copy") || str_contains(
        lower,
        "temp",
    )
}

/// Whether the name looks like that of a backup.
pub fn backup_name(name: &str) -> (backup: bool)
    ensures
        backup == is_backup_name(name@),
{
    let lower = to_lowercase(name);
    backup_text(lower.as_str())
}

/// Whether a file looks temporary, given its name and its path in lower
/// case and its extension.
pub fn temp_marks(name: &str, path: &str, extension: &str) -> (temporary: bool)
    ensures
        temporary == has_temp_marks(name@, path@, extension@),
{
    str_starts_with(name, "tmp") || str_starts_with(name, "temp") || str_contains(path, "/tmp/")
        || str_contains(path, "/temp/") || str_contains(path, "\\tmp\\") || str_contains(
        path,
        "\\temp\\",
    ) || str_equals(extension, "tmp") || str_equals(extension, "temp")
}

/// Whether the file looks temporary.
pub fn temp_file(file: &ScannedFile) -> (temporary: bool)
    ensures
        temporary == is_temp_file(file@),
{
    let name = to_lowercase(file.name.as_str());
    let text = file.path.to_text();
    let path = to_lowercase(text.as_str());
    temp_marks(name.as_str(), path.as_str(), file.extension.as_str())
}

/// `copies` says of each file whether it counts as a copy of a file before
/// it.
pub open spec fn marks_copies(files: Seq<FileModel>, copies: Seq<bool>) -> bool {
    &&& copies.len() == files.len()
    &&& forall|i: int| 0 <= i < files.len() ==> #[trigger] copies[i] == is_extra_copy(files, i)
}

/// For each file whether it counts as a copy of a file before it. The sizes
/// met on the way are kept in a set, so that each file is looked at once.
fn extra_copies(files: &Vec<ScannedFile>) -> (copies: Vec<bool>)
    ensures
        marks_copies(models_of(files@), copies@),
{
    let ghost all = models_of(files@);
    let n = files.len();
    let mut seen: HashSet<u64> = HashSet::new();
    let mut copies: Vec<bool> = Vec::new();
    let mut i: usize = 0;
    while i < n
        invariant
            i <= n,
            n == files@.len(),
            all == models_of(files@),
            copies@.len() == i,
            forall|size: u64|
                seen@.contains(size) <==> exists|j: int|
                    0 <= j < i && (#[trigger] all[j]).size == size,
            forall|k: int| 0 <= k < i ==> #[trigger] copies@[k] == is_extra_copy(all, k),
        decreases n - i,
    {
        let size = files[i].size;
        let ghost before = seen@;
        let fresh = seen.insert(size);
        copies.push(size > DUPLICATE_MIN_SIZE && !fresh);
        proof {
            assert(all[i as int].size == size);
            assert(fresh == !before.contains(size));
            assert forall|other: u64|
                seen@.contains(other) <==> exists|j: int|
                    0 <= j < i + 1 && (#[trigger] all[j]).size == other by {
                if before.contains(other) {
                    let j = choose|j: int| 0 <= j < i && (#[trigger] all[j]).size == other;
                    assert(0 <= j < i + 1 && all[j].size == other);
                }
                if exists|j: int| 0 <= j < i + 1 && (#[trigger] all[j]).size == other {
                    let j = choose|j: int| 0 <= j < i + 1 && (#[trigger] all[j]).size == other;
                    if j < i {
                        assert(before.contains(other));
                    }
                }
            }
        }
        i += 1;
    }
    copies
}

/// Whether a suggestion of `kind` stands for the file at `at`.
fn file_selected(
    kind: CleanupKind,
    files: &Vec<ScannedFile>,
    copies: &Vec<bool>,
    ages: &Vec<Option<u64>>,
    at: usize,
) -> (selected: bool)
    requires
        at < files@.len(),
        marks_copies(models_of(files@), copies@),
    ensures
        selected == selects_file(kind, models_of(files@), ages@, at as int),
{
    assert(models_of(files@)[at as int] == files@[at as int]@);
    match kind {
        CleanupKind::Duplicates => copies[at],
        CleanupKind::Backups => backup_name(files[at].name.as_str()),
        CleanupKind::EmptyFolders => false,
        CleanupKind::OldLargeFiles => {
            if files[at].size > OLD_FILE_MIN_SIZE && at < ages.len() {
                match ages[at] {
                    Some(age) => age > OLD_FILE_MIN_AGE,
                    None => false,
                }
            } else {
                false
            }
        },
        CleanupKind::TemporaryFiles => temp_file(&files[at]),
    }
}

/// The suggestion of `kind`.
fn tally(
    kind: CleanupKind,
    files: &Vec<ScannedFile>,
    folders: &Vec<ScannedFolder>,
    ages: &Vec<Option<u64>>,
) -> (item: CleanupSuggestionItem)
    requires
        sum(file_sizes(models_of(files@))) <= u64::MAX,
        files@.len() + folders@.len() <= u32::MAX,
    ensures
        item@ == suggestion_of(kind, models_of(files@), models_of(folders@), ages@),
{
    let ghost all = models_of(files@);
    let ghost dirs = models_of(folders@);
    let ghost sizes = selected_sizes(kind, all, ages@);
    let ghost ones = selected_files(kind, all, ages@);
    let ghost empties = selected_folders(kind, dirs);
    let n = files.len();
    let copies = extra_copies(files);
    let mut size: u64 = 0;
    let mut count: u32 = 0;
    let mut i: usize = 0;
    while i < n
        invariant
            i <= n,
            n == files@.len(),
            all == models_of(files@),
            marks_copies(all, copies@),
            sizes == selected_sizes(kind, all, ages@),
            ones == selected_files(kind, all, ages@),
            sum(file_sizes(all)) <= u64::MAX,
            files@.len() + folders@.len() <= u32::MAX,
            size == sum(sizes.take(i as int)),
            count == sum(ones.take(i as int)),
            count <= i,
        decreases n - i,
    {
        proof {
            lemma_sum_take_next(sizes, i as int);
            lemma_sum_take_next(ones, i as int);
            lemma_sum_take_le(sizes, i + 1);
            lemma_sum_pointwise_le(sizes, file_sizes(all));
        }
        if file_selected(kind, files, &copies, ages, i) {
            size = size + files[i].size;
            count = count + 1;
        }
        i += 1;
    }
    proof {
        lemma_sum_take_all(sizes);
        lemma_sum_take_all(ones);
    }
    let m = folders.len();
    let ghost from_files = count;
    let mut j: usize = 0;
    while j < m
        invariant
            j <= m,
            m == folders@.len(),
            n == files@.len(),
            dirs == models_of(folders@),
            empties == selected_folders(kind, dirs),
            files@.len() + folders@.len() <= u32::MAX,
            from_files <= n,
            count == from_files + sum(empties.take(j as int)),
            count <= from_files + j,
        decreases m - j,
    {
        proof {
            lemma_sum_take_next(empties, j as int);
            assert(dirs[j as int] == folders@[j as int]@);
        }
        let empty = match kind {
            CleanupKind::EmptyFolders => folders[j].file_count == 0,
            _ => false,
        };
        if empty {
            count = count + 1;
        }
        j += 1;
    }
    proof {
        lemma_sum_take_all(empties);
    }
    let (label, color) = match kind {
        CleanupKind::Duplicates => ("Potential Duplicate Files", "blue"),
        CleanupKind::Backups => ("Backup Files", "green"),
        CleanupKind::EmptyFolders => ("Empty Folders", "yellow"),
        CleanupKind::OldLargeFiles => ("Old Large Files (>1 year)", "red"),
        CleanupKind::TemporaryFiles => ("Temporary Files", "orange"),
    };
    CleanupSuggestionItem {
        cleanup_type: String::from_str(label),
        size,
        count,
        color_class: String::from_str(color),
    }
}

/// The suggestions for a snapshot, the one that frees most first.
///
/// `files` are the largest files of the snapshot and `folders` its folders;
/// `ages` gives for each file, in the same order, the seconds since it was
/// last changed, where that is known. A kind that stands for nothing is left
/// out.
///
/// The bytes of the files together must fit a `u64`, and the number of
/// files and folders together a `u32`.
pub fn get_cleanup_suggestions(
    files: &Vec<ScannedFile>,
    folders: &Vec<ScannedFolder>,
    ages: &Vec<Option<u64>>,
) -> (suggestions: Vec<CleanupSuggestionItem>)
    requires
        sum(file_sizes(models_of(files@))) <= u64::MAX,
        files@.len() + folders@.len() <= u32::MAX,
    ensures
        models_of(suggestions@) == ranked::<CleanupSuggestionItem>(
            with_any(candidates(models_of(files@), models_of(folders@), ages@)),
        ),
{
    let ghost all = candidates(models_of(files@), models_of(folders@), ages@);
    let mut found: Vec<CleanupSuggestionItem> = Vec::new();
    let mut k: usize = 0;
    assert(models_of(found@) =~= with_any(all.take(0)));
    while k < 5
        invariant
            k <= 5,
            all == candidates(models_of(files@), models_of(folders@), ages@),
            sum(file_sizes(models_of(files@))) <= u64::MAX,
            files@.len() + folders@.len() <= u32::MAX,
            models_of(found@) == with_any(all.take(k as int)),
        decreases 5 - k,
    {
        let kind = if k == 0 {
            CleanupKind::Duplicates
        } else if k == 1 {
            CleanupKind::Backups
        } else if k == 2 {
            CleanupKind::EmptyFolders
        } else if k == 3 {
            CleanupKind::OldLargeFiles
        } else {
            CleanupKind::TemporaryFiles
        };
        let item = tally(kind, files, folders, ages);
        proof {
            assert(all.take(k + 1).drop_last() =~= all.take(k as int));
            assert(all.take(k + 1).last() == item@);
        }
        if item.count > 0 {
            let ghost before = models_of(found@);
            found.push(item);
            assert(models_of(found@) =~= before.push(item@));
        }
        k += 1;
    }
    assert(all.take(5) =~= all);
    sort_ranked(found)
}

/// The places of the files among the first `upto` that a suggestion of
/// `kind` stands for, in rising order.
pub open spec fn chosen_files(
    kind: CleanupKind,
    files: Seq<FileModel>,
    ages: Seq<Option<u64>>,
    upto: int,
) -> Seq<usize>
    decreases upto,
{
    if upto <= 0 {
        Seq::empty()
    } else if selects_file(kind, files, ages, upto - 1) {
        chosen_files(kind, files, ages, upto - 1).push((upto - 1) as usize)
    } else {
        chosen_files(kind, files, ages, upto - 1)
    }
}

/// The places of the folders among the first `upto` that a suggestion of
/// `kind` stands for, in rising order.
pub open spec fn chosen_folders(kind: CleanupKind, folders: Seq<FolderModel>, upto: int) -> Seq<
    usize,
>
    decreases upto,
{
    if upto <= 0 {
        Seq::empty()
    } else if selects_folder(kind, folders, upto - 1) {
        chosen_folders(kind, folders, upto - 1).push((upto - 1) as usize)
    } else {
        chosen_folders(kind, folders, upto - 1)
    }
}

/// What a suggestion stands for: the places of its files and of its
/// folders in the lists of the snapshot.
#[derive(Debug)]
pub struct CleanupTargets {
    pub files: Vec<usize>,
    pub folders: Vec<usize>,
}

/// The files and folders that the suggestion named `cleanup_type` stands
/// for. A name that is no kind of suggestion stands for nothing.
pub fn cleanup_targets(
    cleanup_type: &str,
    files: &Vec<ScannedFile>,
    folders: &Vec<ScannedFolder>,
    ages: &Vec<Option<u64>>,
) -> (targets: CleanupTargets)
    ensures
        match CleanupKind::named(cleanup_type@) {
            Some(kind) => {
                &&& targets.files@ == chosen_files(
                    kind,
                    models_of(files@),
                    ages@,
                    files@.len() as int,
                )
                &&& targets.folders@ == chosen_folders(
                    kind,
                    models_of(folders@),
                    folders@.len() as int,
                )
            },
            None => targets.files@.len() == 0 && targets.folders@.len() == 0,
        },
{
    let mut chosen: Vec<usize> = Vec::new();
    let mut empty: Vec<usize> = Vec::new();
    match CleanupKind::from_label(cleanup_type) {
        None => {},
        Some(kind) => {
            let ghost all = models_of(files@);
            let ghost dirs = models_of(folders@);
            let n = files.len();
            let copies = extra_copies(files);
            let mut i: usize = 0;
            while i < n
                invariant
                    i <= n,
                    n == files@.len(),
                    all == models_of(files@),
                    marks_copies(all, copies@),
                    chosen@ == chosen_files(kind, all, ages@, i as int),
                decreases n - i,
            {
                if file_selected(kind, files, &copies, ages, i) {
                    chosen.push(i);
                }
                i += 1;
            }
            let m = folders.len();
            let mut j: usize = 0;
            while j < m
                invariant
                    j <= m,
                    m == folders@.len(),
                    dirs == models_of(folders@),
                    empty@ == chosen_folders(kind, dirs, j as int),
                decreases m - j,
            {
                assert(dirs[j as int] == folders@[j as int]@);
                let is_empty = match kind {
                    CleanupKind::EmptyFolders => folders[j].file_count == 0,
                    _ => false,
                };
                if is_empty {
                    empty.push(j);
                }
                j += 1;
            }
        },
    }
    CleanupTargets { files: chosen, folders: empty }
}

} // verus!
