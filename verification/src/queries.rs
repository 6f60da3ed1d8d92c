//! What is shown of a snapshot: the lists of files and folders, the
//! distribution of file types and the charts drawn from it, the growth
//! curves, and the free space of the volume that was scanned.

use crate::classify::get_file_type;
use crate::classify::lowercase;
use crate::classify::to_lowercase;
use crate::errors::CommandError;
use crate::histogram::HistogramEntry;
use crate::models::TrashInfo;
use crate::scan::EntryModel;
use crate::worker::DirectoryListing;
use crate::models::DistributionModel;
use crate::models::FileItem;
use crate::models::FileItemModel;
use crate::models::FileModel;
use crate::models::FileTypeDistributionItem;
use crate::models::FolderItem;
use crate::models::FolderItemModel;
use crate::models::FolderModel;
use crate::models::GrowthDataItem;
use crate::models::GrowthModel;
use crate::models::PieChartDataItem;
use crate::models::ScannedFile;
use crate::models::ScannedFolder;
use crate::models::SliceModel;
use crate::paths::PathModel;
use crate::ranking::head;
use crate::ranking::ranked;
use crate::ranking::Ranked;
use crate::ranking::sort_ranked;
use crate::results::ScanResults;
use crate::seqs::models_of;
use crate::text::decimal;
use crate::text::decimal_text;
use crate::text::str_equals;
use crate::text::str_starts_with;
use crate::text::text_starts_with;
use vstd::prelude::*;
use vstd::string::StringExecFns;

verus! {

/// A volume of the machine: where it is mounted and how many bytes are free
/// on it.
#[derive(Debug)]
pub struct DiskInfo {
    pub mount_point: String,
    pub available_space: u64,
}

/// The free bytes of the first volume whose mount point leads `path`.
pub open spec fn space_where_mounted(disks: Seq<DiskInfo>, path: Seq<char>) -> Option<u64>
    decreases disks.len(),
{
    if disks.len() == 0 {
        None
    } else if text_starts_with(path, disks[0].mount_point@) {
        Some(disks[0].available_space)
    } else {
        space_where_mounted(disks.drop_first(), path)
    }
}

/// The free bytes of the first volume that is mounted at `/`.
pub open spec fn space_at_root(disks: Seq<DiskInfo>) -> Option<u64>
    decreases disks.len(),
{
    if disks.len() == 0 {
        None
    } else if disks[0].mount_point@ == "/"@ {
        Some(disks[0].available_space)
    } else {
        space_at_root(disks.drop_first())
    }
}

/// The free bytes that go with a scan of `path`: those of the first volume
/// whose mount point leads the path; failing that, those of the volume at
/// `/`; failing that, none.
pub open spec fn free_space_of(disks: Seq<DiskInfo>, path: Seq<char>) -> u64 {
    match space_where_mounted(disks, path) {
        Some(space) => space,
        None => match space_at_root(disks) {
            Some(space) => space,
            None => 0,
        },
    }
}

/// The free bytes of the volume that `scan_path` lies on.
pub fn free_space_for(scan_path: &str, disks: &Vec<DiskInfo>) -> (space: u64)
    ensures
        space == free_space_of(disks@, scan_path@),
{
    let n = disks.len();
    let mut i: usize = 0;
    assert(disks@.skip(0) =~= disks@);
    while i < n
        invariant
            i <= n,
            n == disks@.len(),
            space_where_mounted(disks@, scan_path@) == space_where_mounted(
                disks@.skip(i as int),
                scan_path@,
            ),
        decreases n - i,
    {
        if str_starts_with(scan_path, disks[i].mount_point.as_str()) {
            return disks[i].available_space;
        }
        assert(disks@.skip(i as int).drop_first() =~= disks@.skip(i + 1));
        i += 1;
    }
    let mut j: usize = 0;
    while j < n
        invariant
            j <= n,
            n == disks@.len(),
            space_where_mounted(disks@, scan_path@) is None,
            space_at_root(disks@) == space_at_root(disks@.skip(j as int)),
        decreases n - j,
    {
        if str_equals(disks[j].mount_point.as_str(), "/") {
            return disks[j].available_space;
        }
        assert(disks@.skip(j as int).drop_first() =~= disks@.skip(j + 1));
        j += 1;
    }
    0
}

/// The directory that holds `path`, written out; nothing for a path
/// without a parent.
pub open spec fn holder_text(path: PathModel) -> Seq<char> {
    match path.parent() {
        Some(parent) => parent.text(),
        None => Seq::empty(),
    }
}

/// The file at place `i` of the list, as it is shown.
pub open spec fn file_item(i: int, file: FileModel) -> FileItemModel {
    FileItemModel {
        id: (i + 1) as u32,
        name: file.name,
        path: holder_text(file.path),
        size: file.size,
        file_type: file.file_type,
        extension: file.extension,
    }
}

/// The directory at place `i` of the list, as it is shown.
pub open spec fn folder_item(i: int, folder: FolderModel) -> FolderItemModel {
    FolderItemModel {
        id: (i + 1) as u32,
        name: folder.name,
        path: folder.path.text(),
        size: folder.size,
        file_count: folder.file_count,
    }
}

/// The files of a list as they are shown, numbered from 1 in their order;
/// nothing where they are too many to number.
pub open spec fn listed_largest(files: Seq<FileModel>) -> Option<Seq<FileItemModel>> {
    if files.len() <= u32::MAX {
        Some(Seq::new(files.len(), |i: int| file_item(i, files[i])))
    } else {
        None
    }
}

/// The directories of a list as they are shown, numbered from 1 in their
/// order; nothing where they are too many to number.
pub open spec fn listed_folders(folders: Seq<FolderModel>) -> Option<Seq<FolderItemModel>> {
    if folders.len() <= u32::MAX {
        Some(Seq::new(folders.len(), |i: int| folder_item(i, folders[i])))
    } else {
        None
    }
}

/// What a list says when it holds more than can be numbered.
pub open spec fn too_many_to_number() -> Seq<char> {
    "too many items to number"@
}

/// The failure of a list that holds more than can be numbered.
fn cannot_number() -> (error: CommandError)
    ensures
        error matches CommandError::InternalError(text) && text@ == too_many_to_number(),
{
    CommandError::InternalError(String::from_str("too many items to number"))
}

/// The largest files of the snapshot, numbered from 1 in their order, each
/// with the directory that holds it. A list that holds more files than can
/// be numbered is refused.
pub fn get_largest_files(scan_results: &ScanResults) -> (listing: Result<Vec<FileItem>, CommandError>)
    ensures
        match listing {
            Ok(items) => listed_largest(models_of(scan_results.largest_files@)) == Some(
                models_of(items@),
            ),
            Err(e) => listed_largest(models_of(scan_results.largest_files@)) is None && (
            e matches CommandError::InternalError(text) && text@ == too_many_to_number()),
        },
{
    let files = &scan_results.largest_files;
    let n = files.len();
    if n > u32::MAX as usize {
        return Err(cannot_number());
    }
    let mut items: Vec<FileItem> = Vec::new();
    let mut i: usize = 0;
    while i < n
        invariant
            i <= n,
            n == files@.len(),
            n <= u32::MAX,
            items@.len() == i,
            forall|k: int| 0 <= k < i ==> (#[trigger] items@[k])@ == file_item(k, files@[k]@),
        decreases n - i,
    {
        let file = &files[i];
        let path = match file.path.parent() {
            Some(parent) => parent.to_text(),
            None => String::new(),
        };
        items.push(
            FileItem {
                id: (i as u32) + 1,
                name: file.name.clone(),
                path,
                size: file.size,
                file_type: file.file_type.clone(),
                extension: file.extension.clone(),
            },
        );
        i += 1;
    }
    assert(listed_largest(models_of(files@))->0 =~= models_of(items@));
    Ok(items)
}

/// The directories of a list, numbered from 1 in their order. A list that
/// holds more directories than can be numbered is refused.
fn folder_items(folders: &Vec<ScannedFolder>) -> (listing: Result<Vec<FolderItem>, CommandError>)
    ensures
        match listing {
            Ok(items) => listed_folders(models_of(folders@)) == Some(models_of(items@)),
            Err(e) => listed_folders(models_of(folders@)) is None && (
            e matches CommandError::InternalError(text) && text@ == too_many_to_number()),
        },
{
    let n = folders.len();
    if n > u32::MAX as usize {
        return Err(cannot_number());
    }
    let mut items: Vec<FolderItem> = Vec::new();
    let mut i: usize = 0;
    while i < n
        invariant
            i <= n,
            n == folders@.len(),
            n <= u32::MAX,
            items@.len() == i,
            forall|k: int| 0 <= k < i ==> (#[trigger] items@[k])@ == folder_item(k, folders@[k]@),
        decreases n - i,
    {
        let folder = &folders[i];
        items.push(
            FolderItem {
                id: (i as u32) + 1,
                name: folder.name.clone(),
                path: folder.path.to_text(),
                size: folder.size,
                file_count: folder.file_count,
            },
        );
        i += 1;
    }
    assert(listed_folders(models_of(folders@))->0 =~= models_of(items@));
    Ok(items)
}

/// The folders of the snapshot, numbered from 1 in their order.
pub fn get_folders(scan_results: &ScanResults) -> (listing: Result<Vec<FolderItem>, CommandError>)
    ensures
        match listing {
            Ok(items) => listed_folders(models_of(scan_results.folders@)) == Some(models_of(items@)),
            Err(e) => listed_folders(models_of(scan_results.folders@)) is None && (
            e matches CommandError::InternalError(text) && text@ == too_many_to_number()),
        },
{
    folder_items(&scan_results.folders)
}

/// All folders of the snapshot, numbered from 1 in their order.
pub fn get_all_folders(scan_results: &ScanResults) -> (listing: Result<
    Vec<FolderItem>,
    CommandError,
>)
    ensures
        match listing {
            Ok(items) => listed_folders(models_of(scan_results.all_folders@)) == Some(
                models_of(items@),
            ),
            Err(e) => listed_folders(models_of(scan_results.all_folders@)) is None && (
            e matches CommandError::InternalError(text) && text@ == too_many_to_number()),
        },
{
    folder_items(&scan_results.all_folders)
}

/// The list of the largest files of a merged snapshot is in falling order
/// of size, strictly where the sizes differ, and holds at most as many
/// files as the scan keeps: a snapshot that the workers' parts were merged
/// into always has a list, whatever the number of files that the workers
/// kept.
pub proof fn lemma_largest_listing_falls(
    parts: Seq<crate::results::ThreadScanResult>,
    results: ScanResults,
    scan_path: Seq<char>,
    scan_time_millis: u64,
    limit: u32,
)
    requires
        crate::results::is_consolidated(parts, results, scan_path, scan_time_millis, limit),
    ensures
        listed_largest(models_of(results.largest_files@)) matches Some(items) && {
            &&& items.len() <= limit
            &&& forall|i: int, j: int|
                0 <= i < j < items.len() ==> (#[trigger] items[i]).size >= (#[trigger] items[j]).size
            &&& forall|i: int| 0 <= i < items.len() ==> (#[trigger] items[i]).id == i + 1
        },
{
    let files = models_of(results.largest_files@);
    let items = listed_largest(files)->0;
    assert forall|i: int, j: int| 0 <= i < j < items.len() implies (#[trigger] items[i]).size >= (
    #[trigger] items[j]).size by {
        assert(ScannedFile::before(files[i], files[j]));
    }
}

/// The file with the number `file_id`, as [`get_largest_files`] numbers
/// them: from 1. There is none with the number 0 or past the end, and the
/// error says which number was asked for.
pub fn file_by_id(scan_results: &ScanResults, file_id: u32) -> (file: Result<
    &ScannedFile,
    CommandError,
>)
    ensures
        file is Ok <==> 1 <= file_id <= scan_results.largest_files@.len(),
        file matches Ok(f) ==> *f == scan_results.largest_files@[file_id - 1],
        file matches Err(e) ==> (e matches CommandError::InternalError(text) && text@
            == "File with ID "@ + decimal(file_id as nat) + " not found"@),
{
    if file_id >= 1 {
        let index = (file_id - 1) as usize;
        if index < scan_results.largest_files.len() {
            return Ok(&scan_results.largest_files[index]);
        }
    }
    let mut text = String::from_str("File with ID ");
    text.append(decimal_text(file_id).as_str());
    text.append(" not found");
    Err(CommandError::InternalError(text))
}

/// The color of the category at place `i`: eight colors, taken in turn.
pub open spec fn palette(i: int) -> Seq<char> {
    let k = i % 8;
    if k == 0 {
        "#3b82f6"@
    } else if k == 1 {
        "#10b981"@
    } else if k == 2 {
        "#f59e0b"@
    } else if k == 3 {
        "#8b5cf6"@
    } else if k == 4 {
        "#ef4444"@
    } else if k == 5 {
        "#06b6d4"@
    } else if k == 6 {
        "#84cc16"@
    } else {
        "#f97316"@
    }
}

/// The color of the category at place `i`.
fn color_at(i: usize) -> (color: String)
    ensures
        color@ == palette(i as int),
{
    let k = i % 8;
    if k == 0 {
        String::from_str("#3b82f6")
    } else if k == 1 {
        String::from_str("#10b981")
    } else if k == 2 {
        String::from_str("#f59e0b")
    } else if k == 3 {
        String::from_str("#8b5cf6")
    } else if k == 4 {
        String::from_str("#ef4444")
    } else if k == 5 {
        String::from_str("#06b6d4")
    } else if k == 6 {
        String::from_str("#84cc16")
    } else {
        String::from_str("#f97316")
    }
}

/// The categories of a histogram as they are shown, in the order of the
/// histogram, each with the color of its place.
pub open spec fn distribution_of(entries: Seq<HistogramEntry>) -> Seq<DistributionModel> {
    Seq::new(
        entries.len(),
        |i: int|
            DistributionModel {
                file_type: entries[i].category@,
                size: entries[i].size,
                count: entries[i].count,
                color: palette(i),
            },
    )
}

/// The distribution of file types: each category of the histogram with its
/// bytes, its number of files and its color, the largest first.
pub fn get_file_type_distribution(scan_results: &ScanResults) -> (items: Vec<
    FileTypeDistributionItem,
>)
    ensures
        models_of(items@) == ranked::<FileTypeDistributionItem>(
            distribution_of(scan_results.file_type_distribution.entries@),
        ),
{
    let entries = &scan_results.file_type_distribution.entries;
    let n = entries.len();
    let mut items: Vec<FileTypeDistributionItem> = Vec::new();
    let mut i: usize = 0;
    while i < n
        invariant
            i <= n,
            n == entries@.len(),
            items@.len() == i,
            forall|k: int|
                0 <= k < i ==> (#[trigger] items@[k])@ == distribution_of(entries@)[k],
        decreases n - i,
    {
        let entry = &entries[i];
        items.push(
            FileTypeDistributionItem {
                file_type: entry.category.clone(),
                size: entry.size,
                count: entry.count,
                color: color_at(i),
            },
        );
        i += 1;
    }
    assert(models_of(items@) =~= distribution_of(entries@));
    sort_ranked(items)
}

/// The number of slices that the pie chart shows.
pub const PIE_SLICES: usize = 6;

/// The number of slices that the doughnut chart shows before the rest is
/// gathered in one.
pub const DOUGHNUT_SLICES: usize = 3;

/// The slices of a chart: the categories of the histogram that hold any
/// bytes, in the order of the histogram, each with the color of its place.
pub open spec fn chart_slices(entries: Seq<HistogramEntry>) -> Seq<SliceModel>
    decreases entries.len(),
{
    if entries.len() == 0 {
        Seq::empty()
    } else if entries.last().size > 0 {
        chart_slices(entries.drop_last()).push(
            SliceModel {
                name: entries.last().category@,
                value: entries.last().size,
                color: palette(entries.len() - 1),
            },
        )
    } else {
        chart_slices(entries.drop_last())
    }
}

/// The slices of the snapshot's histogram, not yet in order.
fn slices_of(scan_results: &ScanResults) -> (slices: Vec<PieChartDataItem>)
    ensures
        models_of(slices@) == chart_slices(scan_results.file_type_distribution.entries@),
{
    let entries = &scan_results.file_type_distribution.entries;
    let n = entries.len();
    let mut slices: Vec<PieChartDataItem> = Vec::new();
    let mut i: usize = 0;
    assert(models_of(slices@) =~= chart_slices(entries@.take(0)));
    while i < n
        invariant
            i <= n,
            n == entries@.len(),
            models_of(slices@) == chart_slices(entries@.take(i as int)),
        decreases n - i,
    {
        let entry = &entries[i];
        proof {
            assert(entries@.take(i + 1).drop_last() =~= entries@.take(i as int));
            assert(entries@.take(i + 1).last() == entries@[i as int]);
        }
        if entry.size > 0 {
            let ghost before = models_of(slices@);
            let slice = PieChartDataItem {
                name: entry.category.clone(),
                value: entry.size,
                color: color_at(i),
            };
            slices.push(slice);
            assert(models_of(slices@) =~= before.push(slice@));
        }
        i += 1;
    }
    assert(entries@.take(n as int) =~= entries@);
    slices
}

/// The pie chart of file types: the categories that hold any bytes, the
/// largest first, at most `PIE_SLICES` of them. The value of a slice is its
/// bytes.
pub fn get_pie_chart_data(scan_results: &ScanResults) -> (items: Vec<PieChartDataItem>)
    ensures
        models_of(items@) == head(
            ranked::<PieChartDataItem>(
                chart_slices(scan_results.file_type_distribution.entries@),
            ),
            PIE_SLICES as int,
        ),
{
    crate::ranking::top_ranked(slices_of(scan_results), PIE_SLICES)
}

/// The values of the slices from place `from` on.
pub open spec fn values_from(slices: Seq<SliceModel>, from: int) -> Seq<nat> {
    Seq::new((slices.len() - from) as nat, |i: int| slices[from + i].value as nat)
}

/// The doughnut made of sorted slices: the first `DOUGHNUT_SLICES` as they
/// are, and one slice `Other` for the bytes of the rest, if there are any.
/// The value of `Other` stops at the top of its type.
pub open spec fn doughnut_of(sorted: Seq<SliceModel>) -> Seq<SliceModel> {
    if sorted.len() > DOUGHNUT_SLICES {
        let rest = crate::sums::sum(values_from(sorted, DOUGHNUT_SLICES as int));
        if rest > 0 {
            sorted.take(DOUGHNUT_SLICES as int).push(
                SliceModel {
                    name: "Other"@,
                    value: if rest > u64::MAX {
                        u64::MAX
                    } else {
                        rest as u64
                    },
                    color: "#6b7280"@,
                },
            )
        } else {
            sorted.take(DOUGHNUT_SLICES as int)
        }
    } else {
        sorted
    }
}

/// The doughnut chart of file types: the three largest categories that hold
/// any bytes, and the rest as `Other`.
pub fn get_doughnut_data(scan_results: &ScanResults) -> (items: Vec<PieChartDataItem>)
    ensures
        models_of(items@) == doughnut_of(
            ranked::<PieChartDataItem>(
                chart_slices(scan_results.file_type_distribution.entries@),
            ),
        ),
{
    let mut items = sort_ranked(slices_of(scan_results));
    let ghost sorted = models_of(items@);
    let n = items.len();
    if n > DOUGHNUT_SLICES {
        let ghost values = values_from(sorted, DOUGHNUT_SLICES as int);
        let mut others: u64 = 0;
        let mut i: usize = DOUGHNUT_SLICES;
        while i < n
            invariant
                DOUGHNUT_SLICES <= i <= n,
                n == items@.len(),
                sorted == models_of(items@),
                values == values_from(sorted, DOUGHNUT_SLICES as int),
                others == if crate::sums::sum(values.take(i - DOUGHNUT_SLICES)) > u64::MAX {
                    u64::MAX as nat
                } else {
                    crate::sums::sum(values.take(i - DOUGHNUT_SLICES))
                },
            decreases n - i,
        {
            proof {
                crate::sums::lemma_sum_take_next(values, i - DOUGHNUT_SLICES);
                assert(values[i - DOUGHNUT_SLICES] == items@[i as int].value);
            }
            others = others.saturating_add(items[i].value);
            i += 1;
        }
        proof {
            crate::sums::lemma_sum_take_all(values);
        }
        items.truncate(DOUGHNUT_SLICES);
        assert(models_of(items@) =~= sorted.take(DOUGHNUT_SLICES as int));
        if others > 0 {
            let ghost before = models_of(items@);
            let other = PieChartDataItem {
                name: String::from_str("Other"),
                value: others,
                color: String::from_str("#6b7280"),
            };
            items.push(other);
            assert(models_of(items@) =~= before.push(other@));
        }
    }
    items
}

/// The size in whole gigabytes of a thousand million bytes, at most the top
/// of a `u32`.
pub open spec fn whole_gigabytes(bytes: u64) -> u32 {
    if bytes / 1_000_000_000 > u32::MAX {
        u32::MAX
    } else {
        (bytes / 1_000_000_000) as u32
    }
}

/// The growth of one step of a curve: the given share of the size, and at
/// least `least`.
pub open spec fn growth_step(size: u32, share: int, least: int) -> int {
    if size as int / share > least {
        size as int / share
    } else {
        least
    }
}

/// The size `steps` steps back, and nothing where that would be below
/// zero.
pub open spec fn size_back(size: u32, step: int, steps: int) -> u32 {
    if size - step * steps < 0 {
        0
    } else {
        (size - step * steps) as u32
    }
}

/// A point of a curve.
pub open spec fn point(name: Seq<char>, value: u32) -> GrowthModel {
    GrowthModel { name, value }
}

/// The curve of a week: seven days, growing by a fiftieth of the size a
/// day, at least by 1.
pub open spec fn week_curve(size: u32) -> Seq<GrowthModel> {
    let step = growth_step(size, 50, 1);
    seq![
        point("Mon"@, size_back(size, step, 6)),
        point("Tue"@, size_back(size, step, 5)),
        point("Wed"@, size_back(size, step, 4)),
        point("Thu"@, size_back(size, step, 3)),
        point("Fri"@, size_back(size, step, 2)),
        point("Sat"@, size_back(size, step, 1)),
        point("Sun"@, size),
    ]
}

/// The curve of a month: four weeks, growing by a twentieth of the size a
/// week, at least by 1.
pub open spec fn month_curve(size: u32) -> Seq<GrowthModel> {
    let step = growth_step(size, 20, 1);
    seq![
        point("Week 1"@, size_back(size, step, 3)),
        point("Week 2"@, size_back(size, step, 2)),
        point("Week 3"@, size_back(size, step, 1)),
        point("Week 4"@, size),
    ]
}

/// The curve of a quarter: three months, growing by a tenth of the size a
/// month, at least by 1.
pub open spec fn quarter_curve(size: u32) -> Seq<GrowthModel> {
    let step = growth_step(size, 10, 1);
    seq![
        point("Jan"@, size_back(size, step, 2)),
        point("Feb"@, size_back(size, step, 1)),
        point("Mar"@, size),
    ]
}

/// The curve for a period: `7D`, `90D`, and the month for `30D` and for
/// anything else.
pub open spec fn trend_of(period: Seq<char>, size: u32) -> Seq<GrowthModel> {
    if period == "7D"@ {
        week_curve(size)
    } else if period == "90D"@ {
        quarter_curve(size)
    } else {
        month_curve(size)
    }
}

/// The curve of half a year: six months, growing by a tenth of the size a
/// month, at least by 5.
pub open spec fn growth_of(size: u32) -> Seq<GrowthModel> {
    let step = growth_step(size, 10, 5);
    seq![
        point("Jan 2025"@, size_back(size, step, 5)),
        point("Feb 2025"@, size_back(size, step, 4)),
        point("Mar 2025"@, size_back(size, step, 3)),
        point("Apr 2025"@, size_back(size, step, 2)),
        point("May 2025"@, size_back(size, step, 1)),
        point("Jun 2025"@, size),
    ]
}

/// The size of the snapshot in whole gigabytes.
fn gigabytes(scan_results: &ScanResults) -> (size: u32)
    ensures
        size == whole_gigabytes(scan_results.total_size),
{
    let whole = scan_results.total_size / 1_000_000_000;
    if whole > 0xffff_ffff {
        u32::MAX
    } else {
        whole as u32
    }
}

/// A point of a curve: the size `steps` steps of `step` back.
fn point_back(name: &str, size: u32, step: u32, steps: u32) -> (item: GrowthDataItem)
    requires
        step * steps <= u32::MAX,
    ensures
        item@ == point(name@, size_back(size, step as int, steps as int)),
{
    GrowthDataItem { name: String::from_str(name), value: size.saturating_sub(step * steps) }
}

/// The larger of a share of the size and `least`.
fn step_of(size: u32, share: u32, least: u32) -> (step: u32)
    requires
        share > 0,
    ensures
        step == growth_step(size, share as int, least as int),
{
    let part = size / share;
    if part > least {
        part
    } else {
        least
    }
}

/// The trend of the scanned size over a period, drawn back from the size of
/// the snapshot in whole gigabytes. Without a period the month is taken.
pub fn get_trend_data(period: Option<String>, scan_results: &ScanResults) -> (items: Vec<
    GrowthDataItem,
>)
    ensures
        models_of(items@) == trend_of(
            match period {
                Some(p) => p@,
                None => "30D"@,
            },
            whole_gigabytes(scan_results.total_size),
        ),
{
    let size = gigabytes(scan_results);
    let period = match period {
        Some(p) => p,
        None => String::from_str("30D"),
    };
    let mut items: Vec<GrowthDataItem> = Vec::new();
    if str_equals(period.as_str(), "7D") {
        let step = step_of(size, 50, 1);
        items.push(point_back("Mon", size, step, 6));
        items.push(point_back("Tue", size, step, 5));
        items.push(point_back("Wed", size, step, 4));
        items.push(point_back("Thu", size, step, 3));
        items.push(point_back("Fri", size, step, 2));
        items.push(point_back("Sat", size, step, 1));
        items.push(point_back("Sun", size, step, 0));
        assert(models_of(items@) =~= week_curve(size));
    } else if str_equals(period.as_str(), "90D") {
        let step = step_of(size, 10, 1);
        items.push(point_back("Jan", size, step, 2));
        items.push(point_back("Feb", size, step, 1));
        items.push(point_back("Mar", size, step, 0));
        assert(models_of(items@) =~= quarter_curve(size));
    } else {
        let step = step_of(size, 20, 1);
        items.push(point_back("Week 1", size, step, 3));
        items.push(point_back("Week 2", size, step, 2));
        items.push(point_back("Week 3", size, step, 1));
        items.push(point_back("Week 4", size, step, 0));
        assert(models_of(items@) =~= month_curve(size));
    }
    items
}

/// The growth of the scanned size over half a year, drawn back from the
/// size of the snapshot in whole gigabytes.
pub fn get_growth_data(scan_results: &ScanResults) -> (items: Vec<GrowthDataItem>)
    ensures
        models_of(items@) == growth_of(whole_gigabytes(scan_results.total_size)),
{
    let size = gigabytes(scan_results);
    let step = step_of(size, 10, 5);
    let mut items: Vec<GrowthDataItem> = Vec::new();
    items.push(point_back("Jan 2025", size, step, 5));
    items.push(point_back("Feb 2025", size, step, 4));
    items.push(point_back("Mar 2025", size, step, 3));
    items.push(point_back("Apr 2025", size, step, 2));
    items.push(point_back("May 2025", size, step, 1));
    items.push(point_back("Jun 2025", size, step, 0));
    assert(models_of(items@) =~= growth_of(size));
    items
}

/// The first file among the entries whose size is not known, if there is
/// one.
pub open spec fn first_unmeasured(entries: Seq<EntryModel>) -> Option<EntryModel>
    decreases entries.len(),
{
    if entries.len() == 0 {
        None
    } else if entries[0].is_file && entries[0].size is None {
        Some(entries[0])
    } else {
        first_unmeasured(entries.drop_first())
    }
}

/// The files among the entries of the folder `dir` as they are shown, in
/// the order of the entries and numbered from 1 in that order, each under
/// its own path and with the category of its extension in lower case.
pub open spec fn listed_files(dir: PathModel, entries: Seq<EntryModel>) -> Seq<FileItemModel>
    decreases entries.len(),
{
    if entries.len() == 0 {
        Seq::empty()
    } else if entries.last().counted() {
        let before = listed_files(dir, entries.drop_last());
        before.push(
            FileItemModel {
                id: (before.len() + 1) as u32,
                name: entries.last().name,
                path: dir.child(entries.last().name).text(),
                size: entries.last().size->0,
                file_type: entries.last().category(),
                extension: lowercase(entries.last().extension),
            },
        )
    } else {
        listed_files(dir, entries.drop_last())
    }
}

/// The files of one folder, given what was read from it: the largest
/// first, each with the number it had in the order of the entries. Entries
/// that are no files are passed over.
///
/// A folder that could not be read fails the listing with its path. A file
/// whose size could not be read fails it with the name of the first such
/// file.
pub fn get_folder_files(folder: &DirectoryListing) -> (listing: Result<Vec<FileItem>, CommandError>)
    requires
        folder.entries matches Some(entries) ==> entries@.len() <= u32::MAX,
    ensures
        listing is Ok <==> (folder@.entries matches Some(entries) && first_unmeasured(entries)
            is None),
        folder@.entries is None ==> (listing matches Err(CommandError::CannotReadDirectory(path))
            && path@ == folder@.path.text()),
        folder@.entries matches Some(entries) ==> match first_unmeasured(entries) {
            Some(entry) => listing matches Err(CommandError::CannotGetMetadata(name)) && name@
                == entry.name,
            None => listing matches Ok(items) && models_of(items@) == ranked::<FileItem>(
                listed_files(folder@.path, entries),
            ),
        },
{
    let entries = match &folder.entries {
        None => {
            return Err(CommandError::CannotReadDirectory(folder.path.to_text()));
        },
        Some(entries) => entries,
    };
    let folder_path = &folder.path;
    let ghost all = models_of(entries@);
    let n = entries.len();
    let mut items: Vec<FileItem> = Vec::new();
    let mut i: usize = 0;
    assert(all.skip(0) =~= all);
    assert(models_of(items@) =~= listed_files(folder_path@, all.take(0)));
    while i < n
        invariant
            i <= n,
            n == entries@.len(),
            n <= u32::MAX,
            all == models_of(entries@),
            folder@.entries == Some(all),
            folder_path@ == folder@.path,
            first_unmeasured(all) == first_unmeasured(all.skip(i as int)),
            models_of(items@) == listed_files(folder_path@, all.take(i as int)),
            items@.len() <= i,
        decreases n - i,
    {
        let entry = &entries[i];
        proof {
            assert(entry@ == all[i as int]);
            assert(all.skip(i as int).drop_first() =~= all.skip(i + 1));
            assert(all.take(i + 1).drop_last() =~= all.take(i as int));
            assert(all.take(i + 1).last() == all[i as int]);
        }
        if entry.is_file {
            match entry.size {
                None => {
                    return Err(CommandError::CannotGetMetadata(entry.name.clone()));
                },
                Some(size) => {
                    let ghost before = models_of(items@);
                    let extension = to_lowercase(entry.extension.as_str());
                    let item = FileItem {
                        id: (items.len() as u32) + 1,
                        name: entry.name.clone(),
                        path: folder_path.join(entry.name.as_str()).to_text(),
                        size,
                        file_type: get_file_type(extension.as_str()),
                        extension,
                    };
                    items.push(item);
                    assert(models_of(items@) =~= before.push(item@));
                },
            }
        }
        i += 1;
    }
    assert(all.take(n as int) =~= all);
    Ok(sort_ranked(items))
}

/// The bytes and the number of the files in the trash, given the size of
/// each.
pub fn trash_info(sizes: &Vec<u64>) -> (info: TrashInfo)
    requires
        crate::sums::sum(sizes@.map_values(|s: u64| s as nat)) <= u64::MAX,
        sizes@.len() <= u32::MAX,
    ensures
        info.size == crate::sums::sum(sizes@.map_values(|s: u64| s as nat)),
        info.count == sizes@.len(),
{
    let ghost all = sizes@.map_values(|s: u64| s as nat);
    let n = sizes.len();
    let mut size: u64 = 0;
    let mut i: usize = 0;
    while i < n
        invariant
            i <= n,
            n == sizes@.len(),
            n <= u32::MAX,
            all == sizes@.map_values(|s: u64| s as nat),
            crate::sums::sum(all) <= u64::MAX,
            size == crate::sums::sum(all.take(i as int)),
        decreases n - i,
    {
        proof {
            crate::sums::lemma_sum_take_next(all, i as int);
            crate::sums::lemma_sum_take_le(all, i + 1);
        }
        size = size + sizes[i];
        i += 1;
    }
    proof {
        crate::sums::lemma_sum_take_all(all);
    }
    TrashInfo { size, count: n as u32 }
}

} // verus!
