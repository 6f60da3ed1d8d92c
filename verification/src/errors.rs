//! What a command can fail with.

use vstd::prelude::*;
use vstd::string::StringExecFns;

verus! {

/// The failures that the commands of a scan report. Each carries the path or
/// the detail that the message names.
#[derive(Debug)]
pub enum CommandError {
    /// The scan root is not there.
    PathDoesNotExist(String),
    /// The scan root is there and is not a directory.
    PathIsNotDirectory(String),
    /// A directory could not be listed.
    CannotReadDirectory(String),
    /// The metadata of an entry could not be read.
    CannotGetMetadata(String),
    /// The scan met a failure that it did not expect.
    ScanFailed(String),
    /// Anything else.
    InternalError(String),
}

impl CommandError {
    /// The path or detail that the error carries.
    pub open spec fn detail(self) -> Seq<char> {
        match self {
            CommandError::PathDoesNotExist(s) => s@,
            CommandError::PathIsNotDirectory(s) => s@,
            CommandError::CannotReadDirectory(s) => s@,
            CommandError::CannotGetMetadata(s) => s@,
            CommandError::ScanFailed(s) => s@,
            CommandError::InternalError(s) => s@,
        }
    }

    /// What stands before the detail in the message.
    pub open spec fn prefix(self) -> Seq<char> {
        match self {
            CommandError::PathDoesNotExist(_) => "Path does not exist: "@,
            CommandError::PathIsNotDirectory(_) => "Path is not a directory: "@,
            CommandError::CannotReadDirectory(_) => "Cannot read directory: "@,
            CommandError::CannotGetMetadata(_) => "Cannot get metadata: "@,
            CommandError::ScanFailed(_) => "Scan failed: "@,
            CommandError::InternalError(_) => "Internal error: "@,
        }
    }

    /// The message of the error: what kind it is, then its detail.
    pub fn message(&self) -> (text: String)
        ensures
            text@ == self.prefix() + self.detail(),
    {
        match self {
            CommandError::PathDoesNotExist(s) => String::from_str("Path does not exist: ").concat(
                s.as_str(),
            ),
            CommandError::PathIsNotDirectory(s) => String::from_str(
                "Path is not a directory: ",
            ).concat(s.as_str()),
            CommandError::CannotReadDirectory(s) => String::from_str(
                "Cannot read directory: ",
            ).concat(s.as_str()),
            CommandError::CannotGetMetadata(s) => String::from_str("Cannot get metadata: ").concat(
                s.as_str(),
            ),
            CommandError::ScanFailed(s) => String::from_str("Scan failed: ").concat(s.as_str()),
            CommandError::InternalError(s) => String::from_str("Internal error: ").concat(
                s.as_str(),
            ),
        }
    }
}

/// What a scan says when its totals pass the range of their types.
pub open spec fn totals_out_of_range() -> Seq<char> {
    "the totals of the scan do not fit their types"@
}

/// The failure of a scan whose totals pass the range of their types.
pub fn totals_do_not_fit() -> (error: CommandError)
    ensures
        error matches CommandError::ScanFailed(text) && text@ == totals_out_of_range(),
{
    CommandError::ScanFailed(String::from_str("the totals of the scan do not fit their types"))
}

/// `error` is the failure of a scan whose totals pass the range of their
/// types.
pub open spec fn is_overflow(error: CommandError) -> bool {
    error matches CommandError::ScanFailed(text) && text@ == totals_out_of_range()
}

/// Whether a scan may start at `path`, given what the file system says of it:
/// the root has to exist and to be a directory.
pub fn validate_scan_root(path: &str, exists: bool, is_dir: bool) -> (checked: Result<
    (),
    CommandError,
>)
    ensures
        checked is Ok <==> exists && is_dir,
        !exists ==> (checked matches Err(CommandError::PathDoesNotExist(p)) && p@ == path@),
        exists && !is_dir ==> (checked matches Err(CommandError::PathIsNotDirectory(p)) && p@
            == path@),
{
    if !exists {
        Err(CommandError::PathDoesNotExist(String::from_str(path)))
    } else if !is_dir {
        Err(CommandError::PathIsNotDirectory(String::from_str(path)))
    } else {
        Ok(())
    }
}

} // verus!
