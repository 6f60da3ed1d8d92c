//! A bounded log of what went wrong during a scan. Entries are numbered as
//! they come, stamped with the time, and only the newest are kept.

use crate::seqs::models_of;
use vstd::prelude::*;
use vstd::string::StringExecFns;

verus! {

/// The number of entries that the log keeps.
pub const MAX_LOGS: usize = 1000;

/// One entry of the log.
#[derive(Debug)]
pub struct ErrorLog {
    pub id: u32,
    pub timestamp: String,
    pub level: String,
    pub message: String,
    pub path: Option<String>,
    pub error_code: Option<String>,
}

/// An entry as the contracts speak of it.
pub struct LogModel {
    pub id: u32,
    pub timestamp: Seq<char>,
    pub level: Seq<char>,
    pub message: Seq<char>,
    pub path: Option<Seq<char>>,
    pub error_code: Option<Seq<char>>,
}

/// The characters of an optional string.
pub open spec fn opt_text(s: Option<String>) -> Option<Seq<char>> {
    match s {
        Some(t) => Some(t@),
        None => None,
    }
}

/// The characters of an optional string slice.
pub open spec fn opt_str_text(s: Option<&str>) -> Option<Seq<char>> {
    match s {
        Some(t) => Some(t@),
        None => None,
    }
}

impl View for ErrorLog {
    type V = LogModel;

    open spec fn view(&self) -> LogModel {
        LogModel {
            id: self.id,
            timestamp: self.timestamp@,
            level: self.level@,
            message: self.message@,
            path: opt_text(self.path),
            error_code: opt_text(self.error_code),
        }
    }
}

/// A copy of an optional string.
fn copy_opt(s: &Option<String>) -> (copy: Option<String>)
    ensures
        opt_text(copy) == opt_text(*s),
{
    match s {
        Some(t) => Some(t.clone()),
        None => None,
    }
}

/// An optional string slice as an owned string.
fn own_opt(s: Option<&str>) -> (owned: Option<String>)
    ensures
        opt_text(owned) == opt_str_text(s),
{
    match s {
        Some(t) => Some(String::from_str(t)),
        None => None,
    }
}

impl ErrorLog {
    /// A copy of this entry.
    pub fn duplicate(&self) -> (copy: ErrorLog)
        ensures
            copy@ == self@,
    {
        ErrorLog {
            id: self.id,
            timestamp: self.timestamp.clone(),
            level: self.level.clone(),
            message: self.message.clone(),
            path: copy_opt(&self.path),
            error_code: copy_opt(&self.error_code),
        }
    }
}

/// The newest `MAX_LOGS` entries of `logs`.
pub open spec fn newest(logs: Seq<LogModel>) -> Seq<LogModel> {
    if logs.len() > MAX_LOGS {
        logs.subrange(logs.len() - MAX_LOGS, logs.len() as int)
    } else {
        logs
    }
}

/// The number after `id`; after the last number comes zero.
pub open spec fn next_id(id: u32) -> u32 {
    if id == u32::MAX {
        0
    } else {
        (id + 1) as u32
    }
}

/// The log of a scan.
#[derive(Debug)]
pub struct ErrorLogger {
    pub logs: Vec<ErrorLog>,
    pub current_id: u32,
}

/// The current time in UTC, written as year-month-day hour:minute:second:
/// the time of std's `SystemTime::now()`, turned into chrono's
/// `DateTime<Utc>` by chrono's `From<SystemTime>` and written with chrono's
/// `format`. Nothing is claimed of the text: it depends on the clock.
#[verifier::external_body]
fn current_timestamp() -> (stamp: String) {
    let now = chrono::DateTime::<chrono::Utc>::from(std::time::SystemTime::now());
    now.format("%Y-%m-%d %H:%M:%S").to_string()
}

impl ErrorLogger {
    /// An empty log whose first entry will have the number 1.
    pub fn new() -> (logger: ErrorLogger)
        ensures
            logger.logs@.len() == 0,
            logger.current_id == 1,
    {
        ErrorLogger { logs: Vec::new(), current_id: 1 }
    }

    /// Adds an entry with the given time stamp. The entry gets the current
    /// number, the number moves on, and of more than `MAX_LOGS` entries the
    /// oldest leave.
    pub fn record(
        &mut self,
        timestamp: String,
        level: &str,
        message: &str,
        path: Option<&str>,
        error_code: Option<&str>,
    )
        ensures
            models_of(final(self).logs@) == newest(
                models_of(old(self).logs@).push(
                    LogModel {
                        id: old(self).current_id,
                        timestamp: timestamp@,
                        level: level@,
                        message: message@,
                        path: opt_str_text(path),
                        error_code: opt_str_text(error_code),
                    },
                ),
            ),
            final(self).current_id == next_id(old(self).current_id),
    {
        let id = self.current_id;
        self.current_id = self.current_id.wrapping_add(1);
        let entry = ErrorLog {
            id,
            timestamp,
            level: String::from_str(level),
            message: String::from_str(message),
            path: own_opt(path),
            error_code: own_opt(error_code),
        };
        let ghost all = models_of(self.logs@).push(entry@);
        self.logs.push(entry);
        assert(models_of(self.logs@) =~= all);
        while self.logs.len() > MAX_LOGS
            invariant
                self.logs@.len() <= all.len(),
                self.logs@.len() == all.len() || self.logs@.len() >= MAX_LOGS,
                models_of(self.logs@) == all.subrange(
                    all.len() - self.logs@.len(),
                    all.len() as int,
                ),
                self.current_id == next_id(old(self).current_id),
            decreases self.logs@.len(),
        {
            let ghost before = self.logs@;
            self.logs.remove(0);
            assert(models_of(self.logs@) =~= all.subrange(
                all.len() - self.logs@.len(),
                all.len() as int,
            )) by {
                assert(self.logs@ == before.remove(0));
                assert forall|i: int| 0 <= i < self.logs@.len() implies models_of(self.logs@)[i]
                    == all[all.len() - self.logs@.len() + i] by {
                    assert(self.logs@[i] == before[i + 1]);
                    assert(models_of(before)[i + 1] == before[i + 1]@);
                }
            }
        }
        assert(models_of(self.logs@) =~= newest(all)) by {
            if all.len() <= MAX_LOGS {
                assert(self.logs@.len() == all.len());
            }
        }
    }

    /// Adds an entry stamped with the current time. Which time that is, is not
    /// known before the call: the contract holds of the stamp that was taken.
    fn log(&mut self, level: &str, message: &str, path: Option<&str>, error_code: Option<&str>)
        ensures
            exists|stamp: Seq<char>|
                models_of(final(self).logs@) == newest(
                    models_of(old(self).logs@).push(
                        #[trigger] stamped(
                            old(self).current_id,
                            stamp,
                            level@,
                            message@,
                            opt_str_text(path),
                            opt_str_text(error_code),
                        ),
                    ),
                ),
            final(self).current_id == next_id(old(self).current_id),
    {
        let stamp = current_timestamp();
        let ghost witness = stamped(
            self.current_id,
            stamp@,
            level@,
            message@,
            opt_str_text(path),
            opt_str_text(error_code),
        );
        self.record(stamp, level, message, path, error_code);
        assert(models_of(self.logs@) == newest(models_of(old(self).logs@).push(witness)));
    }

    /// Adds an entry of level `INFO`, stamped with the current time.
    pub fn log_info(&mut self, message: &str, path: Option<&str>)
        ensures
            exists|stamp: Seq<char>|
                models_of(final(self).logs@) == newest(
                    models_of(old(self).logs@).push(
                        #[trigger] stamped(
                            old(self).current_id,
                            stamp,
                            "INFO"@,
                            message@,
                            opt_str_text(path),
                            None,
                        ),
                    ),
                ),
            final(self).current_id == next_id(old(self).current_id),
    {
        self.log("INFO", message, path, None);
    }

    /// Adds an entry of level `ERROR`, stamped with the current time.
    pub fn log_error(&mut self, message: &str, path: Option<&str>, error_code: Option<&str>)
        ensures
            exists|stamp: Seq<char>|
                models_of(final(self).logs@) == newest(
                    models_of(old(self).logs@).push(
                        #[trigger] stamped(
                            old(self).current_id,
                            stamp,
                            "ERROR"@,
                            message@,
                            opt_str_text(path),
                            opt_str_text(error_code),
                        ),
                    ),
                ),
            final(self).current_id == next_id(old(self).current_id),
    {
        self.log("ERROR", message, path, error_code);
    }

    /// Adds an entry of level `WARN`, stamped with the current time.
    pub fn log_warning(&mut self, message: &str, path: Option<&str>)
        ensures
            exists|stamp: Seq<char>|
                models_of(final(self).logs@) == newest(
                    models_of(old(self).logs@).push(
                        #[trigger] stamped(
                            old(self).current_id,
                            stamp,
                            "WARN"@,
                            message@,
                            opt_str_text(path),
                            None,
                        ),
                    ),
                ),
            final(self).current_id == next_id(old(self).current_id),
    {
        self.log("WARN", message, path, None);
    }

    /// A copy of the entries, oldest first.
    pub fn get_logs(&self) -> (logs: Vec<ErrorLog>)
        ensures
            models_of(logs@) == models_of(self.logs@),
    {
        let mut logs: Vec<ErrorLog> = Vec::new();
        let n = self.logs.len();
        let mut i: usize = 0;
        while i < n
            invariant
                i <= n,
                n == self.logs@.len(),
                logs@.len() == i,
                forall|k: int| 0 <= k < i ==> logs@[k]@ == self.logs@[k]@,
            decreases n - i,
        {
            logs.push(self.logs[i].duplicate());
            i += 1;
        }
        assert(models_of(logs@) =~= models_of(self.logs@));
        logs
    }

    /// Empties the log; the next entry has the number 1 again.
    pub fn clear_logs(&mut self)
        ensures
            final(self).logs@.len() == 0,
            final(self).current_id == 1,
    {
        self.logs.clear();
        self.current_id = 1;
    }
}

/// The entry with the given number, time stamp and texts.
pub open spec fn stamped(
    id: u32,
    timestamp: Seq<char>,
    level: Seq<char>,
    message: Seq<char>,
    path: Option<Seq<char>>,
    error_code: Option<Seq<char>>,
) -> LogModel {
    LogModel { id, timestamp, level, message, path, error_code }
}

} // verus!
