//! The category of a file, read off its extension.

use crate::text::str_equals;
use vstd::prelude::*;
use vstd::string::StringExecFns;

verus! {

/// Extensions of video files.
pub open spec fn is_video(ext: Seq<char>) -> bool {
    ext == "mp4"@ || ext == "avi"@ || ext == "mkv"@ || ext == "mov"@ || ext == "wmv"@ || ext
        == "flv"@ || ext == "webm"@ || ext == "m4v"@
}

/// Extensions of images.
pub open spec fn is_image(ext: Seq<char>) -> bool {
    ext == "jpg"@ || ext == "jpeg"@ || ext == "png"@ || ext == "gif"@ || ext == "bmp"@ || ext
        == "tiff"@ || ext == "svg"@ || ext == "webp"@ || ext == "raw"@ || ext == "psd"@
}

/// Extensions of documents.
pub open spec fn is_document(ext: Seq<char>) -> bool {
    ext == "pdf"@ || ext == "doc"@ || ext == "docx"@ || ext == "txt"@ || ext == "rtf"@ || ext
        == "odt"@ || ext == "pages"@
}

/// Extensions of archives.
pub open spec fn is_archive(ext: Seq<char>) -> bool {
    ext == "zip"@ || ext == "rar"@ || ext == "7z"@ || ext == "tar"@ || ext == "gz"@ || ext
        == "bz2"@ || ext == "xz"@
}

/// Extensions of audio files.
pub open spec fn is_audio(ext: Seq<char>) -> bool {
    ext == "mp3"@ || ext == "wav"@ || ext == "flac"@ || ext == "aac"@ || ext == "ogg"@ || ext
        == "m4a"@ || ext == "wma"@
}

/// Extensions of applications and installers.
pub open spec fn is_application(ext: Seq<char>) -> bool {
    ext == "exe"@ || ext == "app"@ || ext == "deb"@ || ext == "rpm"@ || ext == "dmg"@ || ext
        == "msi"@
}

/// The category of an extension in lower case. Every extension has one: what
/// no list holds, the empty extension too, is `Other`.
pub open spec fn category_of(ext: Seq<char>) -> Seq<char> {
    if is_video(ext) {
        "Video Files"@
    } else if is_image(ext) {
        "Images"@
    } else if is_document(ext) {
        "Documents"@
    } else if is_archive(ext) {
        "Archives"@
    } else if is_audio(ext) {
        "Audio Files"@
    } else if is_application(ext) {
        "Applications"@
    } else {
        "Other"@
    }
}

/// `text` in lower case, as `str::to_lowercase` writes it.
pub uninterp spec fn lowercase(text: Seq<char>) -> Seq<char>;

/// `str::to_lowercase` of std: the text with each character in lower case by
/// the rules of Unicode. The result is named, not spelled out.
#[verifier::external_body]
pub(crate) fn to_lowercase(text: &str) -> (lower: String)
    ensures
        lower@ == lowercase(text@),
{
    text.to_lowercase()
}

fn video(e: &str) -> (yes: bool)
    ensures
        yes == is_video(e@),
{
    str_equals(e, "mp4") || str_equals(e, "avi") || str_equals(e, "mkv") || str_equals(e, "mov")
        || str_equals(e, "wmv") || str_equals(e, "flv") || str_equals(e, "webm") || str_equals(
        e,
        "m4v",
    )
}

fn image(e: &str) -> (yes: bool)
    ensures
        yes == is_image(e@),
{
    str_equals(e, "jpg") || str_equals(e, "jpeg") || str_equals(e, "png") || str_equals(e, "gif")
        || str_equals(e, "bmp") || str_equals(e, "tiff") || str_equals(e, "svg") || str_equals(
        e,
        "webp",
    ) || str_equals(e, "raw") || str_equals(e, "psd")
}

fn document(e: &str) -> (yes: bool)
    ensures
        yes == is_document(e@),
{
    str_equals(e, "pdf") || str_equals(e, "doc") || str_equals(e, "docx") || str_equals(e, "txt")
        || str_equals(e, "rtf") || str_equals(e, "odt") || str_equals(e, "pages")
}

fn archive(e: &str) -> (yes: bool)
    ensures
        yes == is_archive(e@),
{
    str_equals(e, "zip") || str_equals(e, "rar") || str_equals(e, "7z") || str_equals(e, "tar")
        || str_equals(e, "gz") || str_equals(e, "bz2") || str_equals(e, "xz")
}

fn audio(e: &str) -> (yes: bool)
    ensures
        yes == is_audio(e@),
{
    str_equals(e, "mp3") || str_equals(e, "wav") || str_equals(e, "flac") || str_equals(e, "aac")
        || str_equals(e, "ogg") || str_equals(e, "m4a") || str_equals(e, "wma")
}

fn application(e: &str) -> (yes: bool)
    ensures
        yes == is_application(e@),
{
    str_equals(e, "exe") || str_equals(e, "app") || str_equals(e, "deb") || str_equals(e, "rpm")
        || str_equals(e, "dmg") || str_equals(e, "msi")
}

/// The category of a file with the given extension. The extension is taken
/// as it stands: callers put it in lower case first.
pub fn get_file_type(extension: &str) -> (category: String)
    ensures
        category@ == category_of(extension@),
{
    if video(extension) {
        String::from_str("Video Files")
    } else if image(extension) {
        String::from_str("Images")
    } else if document(extension) {
        String::from_str("Documents")
    } else if archive(extension) {
        String::from_str("Archives")
    } else if audio(extension) {
        String::from_str("Audio Files")
    } else if application(extension) {
        String::from_str("Applications")
    } else {
        String::from_str("Other")
    }
}

/// The same classification as [`get_file_type`], for the callers on the hot
/// path of a scan.
pub fn get_file_type_cached(extension: &str) -> (category: String)
    ensures
        category@ == category_of(extension@),
{
    get_file_type(extension)
}

/// The category of a file whose extension is written in any case: the
/// extension is put in lower case, then classified.
pub fn classify(extension: &str) -> (category: String)
    ensures
        category@ == category_of(lowercase(extension@)),
{
    let lower = to_lowercase(extension);
    get_file_type_cached(lower.as_str())
}

/// Two extensions that are the same in lower case have the same category.
pub proof fn lemma_classify_ignores_case(a: Seq<char>, b: Seq<char>)
    requires
        lowercase(a) == lowercase(b),
    ensures
        category_of(lowercase(a)) == category_of(lowercase(b)),
{
}

} // verus!
