//! A quick guess at the size of a tree, made before the scan so that
//! progress can be given as a share. A few directories near the root are
//! sampled, breadth first; the guess may be far off either way, but it is
//! never zero.

use crate::paths::PathModel;
use crate::paths::ScanPath;
use crate::ranking::head;
use crate::scan::dir_bytes;
use crate::scan::dir_files;
use crate::scan::lemma_listing_step;
use crate::scan::DirectoryEntry;
use crate::scan::EntryModel;
use crate::seqs::models_of;
use std::collections::VecDeque;
use vstd::prelude::*;

verus! {

/// The number of directories that are sampled.
pub const MAX_DIRS_TO_SAMPLE: usize = 20;

/// The number of entries that are looked at in each sampled directory.
pub const MAX_ENTRIES_TO_SAMPLE: usize = 50;

/// Subdirectories are queued for sampling while fewer than this many wait.
pub const MAX_QUEUE: usize = 100;

/// A sampled directory with more files than this counts three times: it
/// stands for brothers that were not sampled.
pub const DENSE_FILES: u32 = 10;

/// The factor for a dense directory.
pub const DENSE_FACTOR: u64 = 3;

/// The least estimate.
pub const MIN_ESTIMATE: u64 = 1_000_000;

/// `n`, or the top of a `u64` where it is more.
pub open spec fn capped(n: nat) -> u64 {
    if n > u64::MAX {
        u64::MAX
    } else {
        n as u64
    }
}

/// What a sampled directory adds to the estimate: the bytes of the files
/// among its first entries, three times over where they are many.
pub open spec fn sample_weight(entries: Seq<EntryModel>) -> u64 {
    let seen = head(entries, MAX_ENTRIES_TO_SAMPLE as int);
    if dir_files(seen) > DENSE_FILES {
        capped((DENSE_FACTOR * dir_bytes(seen)) as nat)
    } else {
        capped(dir_bytes(seen))
    }
}

/// The queue after the subdirectories among `entries` have been added to
/// it, each while fewer than `MAX_QUEUE` wait.
pub open spec fn queued(dir: PathModel, entries: Seq<EntryModel>, queue: Seq<PathModel>) -> Seq<
    PathModel,
>
    decreases entries.len(),
{
    if entries.len() == 0 {
        queue
    } else {
        let before = queued(dir, entries.drop_last(), queue);
        let entry = entries.last();
        if !entry.is_file && entry.is_dir && before.len() < MAX_QUEUE {
            before.push(dir.child(entry.name))
        } else {
            before
        }
    }
}

/// The state of an estimate: the directories that wait to be sampled, the
/// bytes guessed so far, and the number of directories sampled.
#[derive(Debug)]
pub struct SizeEstimator {
    pub queue: VecDeque<ScanPath>,
    pub total_size: u64,
    pub dirs_sampled: usize,
}

impl SizeEstimator {
    /// An estimate that starts at `root`.
    pub fn new(root: ScanPath) -> (estimator: SizeEstimator)
        ensures
            models_of(estimator.queue@) == seq![root@],
            estimator.total_size == 0,
            estimator.dirs_sampled == 0,
    {
        let mut queue: VecDeque<ScanPath> = VecDeque::new();
        queue.push_back(root);
        assert(models_of(queue@) =~= seq![root@]);
        SizeEstimator { queue, total_size: 0, dirs_sampled: 0 }
    }

    /// The next directory to sample: the one that has waited longest. There
    /// is none once `MAX_DIRS_TO_SAMPLE` have been sampled or none waits.
    pub fn next_directory(&mut self) -> (next: Option<ScanPath>)
        ensures
            final(self).total_size == old(self).total_size,
            final(self).dirs_sampled == old(self).dirs_sampled,
            next is Some <==> old(self).dirs_sampled < MAX_DIRS_TO_SAMPLE && old(self).queue@.len()
                > 0,
            next matches Some(dir) ==> dir == old(self).queue@[0] && final(self).queue@ == old(
                self,
            ).queue@.drop_first(),
            next is None ==> final(self).queue@ == old(self).queue@,
    {
        if self.dirs_sampled >= MAX_DIRS_TO_SAMPLE {
            None
        } else {
            let next = self.queue.pop_front();
            proof {
                if next is Some {
                    assert(self.queue@ =~= old(self).queue@.drop_first());
                }
            }
            next
        }
    }

    /// Takes the entries that were read from the directory `dir` into the
    /// estimate. Only the first `MAX_ENTRIES_TO_SAMPLE` are looked at: the
    /// files among them add their bytes, weighted as [`sample_weight`] says,
    /// and the subdirectories join the queue while there is room. A
    /// directory that could not be read is not recorded at all.
    pub fn record_sample(&mut self, dir: &ScanPath, entries: &Vec<DirectoryEntry>)
        ensures
            final(self).total_size == capped(
                old(self).total_size as nat + sample_weight(models_of(entries@)) as nat,
            ),
            models_of(final(self).queue@) == queued(
                dir@,
                head(models_of(entries@), MAX_ENTRIES_TO_SAMPLE as int),
                models_of(old(self).queue@),
            ),
            final(self).dirs_sampled == if old(self).dirs_sampled == usize::MAX {
                usize::MAX
            } else {
                (old(self).dirs_sampled + 1) as usize
            },
    {
        let ghost listing = models_of(entries@);
        let ghost seen = head(listing, MAX_ENTRIES_TO_SAMPLE as int);
        let ghost queue0 = models_of(self.queue@);
        let n: usize = if entries.len() < MAX_ENTRIES_TO_SAMPLE {
            entries.len()
        } else {
            MAX_ENTRIES_TO_SAMPLE
        };
        assert(seen =~= listing.take(n as int));
        let mut dir_size: u64 = 0;
        let mut file_count: u32 = 0;
        let mut i: usize = 0;
        while i < n
            invariant
                i <= n,
                n <= entries@.len(),
                n <= MAX_ENTRIES_TO_SAMPLE,
                listing == models_of(entries@),
                dir_size == capped(dir_bytes(listing.take(i as int))),
                file_count == dir_files(listing.take(i as int)),
                file_count <= i,
                models_of(self.queue@) == queued(dir@, listing.take(i as int), queue0),
                self.total_size == old(self).total_size,
                self.dirs_sampled == old(self).dirs_sampled,
            decreases n - i,
        {
            proof {
                lemma_listing_step(listing, i as int);
            }
            let entry = &entries[i];
            assert(entry@ == listing[i as int]);
            if entry.is_file {
                match entry.size {
                    Some(size) => {
                        dir_size = dir_size.saturating_add(size);
                        file_count = file_count + 1;
                    },
                    None => {},
                }
            } else if entry.is_dir && self.queue.len() < MAX_QUEUE {
                let ghost before = models_of(self.queue@);
                let child = dir.join(entry.name.as_str());
                self.queue.push_back(child);
                assert(models_of(self.queue@) =~= before.push(child@));
            }
            i += 1;
        }
        let weight = if file_count > DENSE_FILES {
            if dir_size > u64::MAX / DENSE_FACTOR {
                u64::MAX
            } else {
                dir_size * DENSE_FACTOR
            }
        } else {
            dir_size
        };
        self.total_size = self.total_size.saturating_add(weight);
        if self.dirs_sampled < usize::MAX {
            self.dirs_sampled = self.dirs_sampled + 1;
        }
    }

    /// The estimate: the bytes guessed, and at least `MIN_ESTIMATE`, so that
    /// a share of it can always be taken.
    pub fn estimate(&self) -> (bytes: u64)
        ensures
            bytes == if self.total_size > MIN_ESTIMATE {
                self.total_size
            } else {
                MIN_ESTIMATE
            },
            bytes >= MIN_ESTIMATE,
    {
        if self.total_size > MIN_ESTIMATE {
            self.total_size
        } else {
            MIN_ESTIMATE
        }
    }
}

} // verus!
