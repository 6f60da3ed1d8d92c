//! The records of a scan and of what is shown of it.

use crate::paths::PathModel;
use crate::paths::ScanPath;
use crate::ranking::Ranked;
use vstd::prelude::*;

verus! {

/// A file that a scan kept: its name, where it is, its size in bytes, its
/// category and its extension in lower case.
#[derive(Debug)]
pub struct ScannedFile {
    pub name: String,
    pub path: ScanPath,
    pub size: u64,
    pub file_type: String,
    pub extension: String,
}

/// A kept file as the contracts speak of it.
pub struct FileModel {
    pub name: Seq<char>,
    pub path: PathModel,
    pub size: u64,
    pub file_type: Seq<char>,
    pub extension: Seq<char>,
}

impl View for ScannedFile {
    type V = FileModel;

    open spec fn view(&self) -> FileModel {
        FileModel {
            name: self.name@,
            path: self.path@,
            size: self.size,
            file_type: self.file_type@,
            extension: self.extension@,
        }
    }
}

impl ScannedFile {
    /// A copy of this record.
    pub fn duplicate(&self) -> (copy: ScannedFile)
        ensures
            copy@ == self@,
    {
        ScannedFile {
            name: self.name.clone(),
            path: self.path.duplicate(),
            size: self.size,
            file_type: self.file_type.clone(),
            extension: self.extension.clone(),
        }
    }
}

/// A directory of a scan with the bytes and the number of its files: of the
/// files directly in it as a worker reports it, of all files anywhere below
/// it once the totals have been folded.
#[derive(Debug)]
pub struct ScannedFolder {
    pub name: String,
    pub path: ScanPath,
    pub size: u64,
    pub file_count: u32,
}

/// A directory record as the contracts speak of it.
pub struct FolderModel {
    pub name: Seq<char>,
    pub path: PathModel,
    pub size: u64,
    pub file_count: u32,
}

impl View for ScannedFolder {
    type V = FolderModel;

    open spec fn view(&self) -> FolderModel {
        FolderModel {
            name: self.name@,
            path: self.path@,
            size: self.size,
            file_count: self.file_count,
        }
    }
}

impl ScannedFolder {
    /// A copy of this record.
    pub fn duplicate(&self) -> (copy: ScannedFolder)
        ensures
            copy@ == self@,
    {
        ScannedFolder {
            name: self.name.clone(),
            path: self.path.duplicate(),
            size: self.size,
            file_count: self.file_count,
        }
    }
}

/// Files rank by size: the larger file stands first.
impl Ranked for ScannedFile {
    open spec fn before(a: FileModel, b: FileModel) -> bool {
        a.size >= b.size
    }

    fn is_before(&self, other: &Self) -> (first: bool) {
        self.size >= other.size
    }

    proof fn lemma_total(a: FileModel, b: FileModel) {
    }

    proof fn lemma_transitive(a: FileModel, b: FileModel, c: FileModel) {
    }
}

/// Listed files rank by size: the larger file stands first.
impl Ranked for FileItem {
    open spec fn before(a: FileItemModel, b: FileItemModel) -> bool {
        a.size >= b.size
    }

    fn is_before(&self, other: &Self) -> (first: bool) {
        self.size >= other.size
    }

    proof fn lemma_total(a: FileItemModel, b: FileItemModel) {
    }

    proof fn lemma_transitive(a: FileItemModel, b: FileItemModel, c: FileItemModel) {
    }
}

/// A file in a list of files, numbered from 1. In the list of the largest
/// files `path` is the directory that holds the file, written out; in the
/// list of the files of one folder it is the path of the file itself.
#[derive(Debug)]
pub struct FileItem {
    pub id: u32,
    pub name: String,
    pub path: String,
    pub size: u64,
    pub file_type: String,
    pub extension: String,
}

/// A listed file as the contracts speak of it.
pub struct FileItemModel {
    pub id: u32,
    pub name: Seq<char>,
    pub path: Seq<char>,
    pub size: u64,
    pub file_type: Seq<char>,
    pub extension: Seq<char>,
}

impl View for FileItem {
    type V = FileItemModel;

    open spec fn view(&self) -> FileItemModel {
        FileItemModel {
            id: self.id,
            name: self.name@,
            path: self.path@,
            size: self.size,
            file_type: self.file_type@,
            extension: self.extension@,
        }
    }
}

/// A directory in the list of folders, numbered from 1, with its path
/// written out.
#[derive(Debug)]
pub struct FolderItem {
    pub id: u32,
    pub name: String,
    pub path: String,
    pub size: u64,
    pub file_count: u32,
}

/// A listed directory as the contracts speak of it.
pub struct FolderItemModel {
    pub id: u32,
    pub name: Seq<char>,
    pub path: Seq<char>,
    pub size: u64,
    pub file_count: u32,
}

impl View for FolderItem {
    type V = FolderItemModel;

    open spec fn view(&self) -> FolderItemModel {
        FolderItemModel {
            id: self.id,
            name: self.name@,
            path: self.path@,
            size: self.size,
            file_count: self.file_count,
        }
    }
}

/// One category of the distribution of file types.
#[derive(Debug)]
pub struct FileTypeDistributionItem {
    pub file_type: String,
    pub size: u64,
    pub count: u32,
    pub color: String,
}

/// A category of the distribution as the contracts speak of it.
pub struct DistributionModel {
    pub file_type: Seq<char>,
    pub size: u64,
    pub count: u32,
    pub color: Seq<char>,
}

impl View for FileTypeDistributionItem {
    type V = DistributionModel;

    open spec fn view(&self) -> DistributionModel {
        DistributionModel {
            file_type: self.file_type@,
            size: self.size,
            count: self.count,
            color: self.color@,
        }
    }
}

/// Categories rank by their bytes: the larger stands first.
impl Ranked for FileTypeDistributionItem {
    open spec fn before(a: DistributionModel, b: DistributionModel) -> bool {
        a.size >= b.size
    }

    fn is_before(&self, other: &Self) -> (first: bool) {
        self.size >= other.size
    }

    proof fn lemma_total(a: DistributionModel, b: DistributionModel) {
    }

    proof fn lemma_transitive(a: DistributionModel, b: DistributionModel, c: DistributionModel) {
    }
}

/// One slice of a chart of file types, with its bytes as its value.
#[derive(Debug)]
pub struct PieChartDataItem {
    pub name: String,
    pub value: u64,
    pub color: String,
}

/// A slice of a chart as the contracts speak of it.
pub struct SliceModel {
    pub name: Seq<char>,
    pub value: u64,
    pub color: Seq<char>,
}

impl View for PieChartDataItem {
    type V = SliceModel;

    open spec fn view(&self) -> SliceModel {
        SliceModel { name: self.name@, value: self.value, color: self.color@ }
    }
}

/// Slices rank by their value: the larger stands first.
impl Ranked for PieChartDataItem {
    open spec fn before(a: SliceModel, b: SliceModel) -> bool {
        a.value >= b.value
    }

    fn is_before(&self, other: &Self) -> (first: bool) {
        self.value >= other.value
    }

    proof fn lemma_total(a: SliceModel, b: SliceModel) {
    }

    proof fn lemma_transitive(a: SliceModel, b: SliceModel, c: SliceModel) {
    }
}

/// One point of a growth curve.
#[derive(Debug)]
pub struct GrowthDataItem {
    pub name: String,
    pub value: u32,
}

/// A point of a growth curve as the contracts speak of it.
pub struct GrowthModel {
    pub name: Seq<char>,
    pub value: u32,
}

impl View for GrowthDataItem {
    type V = GrowthModel;

    open spec fn view(&self) -> GrowthModel {
        GrowthModel { name: self.name@, value: self.value }
    }
}

/// One suggestion of what could be cleaned up.
#[derive(Debug)]
pub struct CleanupSuggestionItem {
    pub cleanup_type: String,
    pub size: u64,
    pub count: u32,
    pub color_class: String,
}

/// A suggestion as the contracts speak of it.
pub struct SuggestionModel {
    pub cleanup_type: Seq<char>,
    pub size: u64,
    pub count: u32,
    pub color_class: Seq<char>,
}

impl View for CleanupSuggestionItem {
    type V = SuggestionModel;

    open spec fn view(&self) -> SuggestionModel {
        SuggestionModel {
            cleanup_type: self.cleanup_type@,
            size: self.size,
            count: self.count,
            color_class: self.color_class@,
        }
    }
}

/// Suggestions rank by the bytes they would free: the larger stands first.
impl Ranked for CleanupSuggestionItem {
    open spec fn before(a: SuggestionModel, b: SuggestionModel) -> bool {
        a.size >= b.size
    }

    fn is_before(&self, other: &Self) -> (first: bool) {
        self.size >= other.size
    }

    proof fn lemma_total(a: SuggestionModel, b: SuggestionModel) {
    }

    proof fn lemma_transitive(a: SuggestionModel, b: SuggestionModel, c: SuggestionModel) {
    }
}

/// The bytes and the number of entries in the trash.
#[derive(Debug, Clone, Copy, PartialEq, Eq, Structural)]
pub struct TrashInfo {
    pub size: u64,
    pub count: u32,
}

/// One progress event of a scan. `progress_permille` is the share of the
/// estimated total that has been read, in tenths of a percent.
#[derive(Debug)]
pub struct ScanProgress {
    pub files_analyzed: u32,
    pub total_size: u64,
    pub folders_analyzed: u32,
    pub current_path: String,
    pub progress_permille: u32,
    pub estimated_total_size: u64,
}

} // verus!
