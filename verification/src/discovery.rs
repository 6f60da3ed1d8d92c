//! Finding the directories of a tree. The walk keeps the directories still
//! to visit on a stack of its own, so that a deep tree costs memory, not
//! call depth. Reading a directory is the caller's part: the walk says which
//! one is next and picks the subdirectories out of what was read from it.

use crate::paths::PathModel;
use crate::paths::ScanPath;
use crate::scan::DirectoryEntry;
use crate::scan::EntryModel;
use crate::seqs::models_of;
use vstd::prelude::*;

verus! {

/// The subdirectories among the entries of the directory `dir`, each under
/// its own path below `dir`, in the order of the listing. Files and anything
/// else are left out.
pub open spec fn subdirectories(dir: PathModel, entries: Seq<EntryModel>) -> Seq<PathModel>
    decreases entries.len(),
{
    if entries.len() == 0 {
        Seq::empty()
    } else if entries.last().is_dir {
        subdirectories(dir, entries.drop_last()).push(dir.child(entries.last().name))
    } else {
        subdirectories(dir, entries.drop_last())
    }
}

/// Every one of `paths` is `root` or lies below it.
pub open spec fn all_within(paths: Seq<PathModel>, root: PathModel) -> bool {
    forall|i: int| 0 <= i < paths.len() ==> (#[trigger] paths[i]).is_within(root)
}

/// What a walk takes from a listing are the directories of that listing and
/// nothing else: each path taken is the path of an entry of `dir` that is a
/// directory, one name below `dir`, and each such entry is taken.
pub proof fn lemma_subdirectories_are_children(dir: PathModel, entries: Seq<EntryModel>)
    ensures
        subdirectories(dir, entries).len() <= entries.len(),
        forall|k: int|
            0 <= k < subdirectories(dir, entries).len() ==> {
                &&& (#[trigger] subdirectories(dir, entries)[k]).parent() == Some(dir)
                &&& exists|i: int|
                    0 <= i < entries.len() && (#[trigger] entries[i]).is_dir && subdirectories(
                        dir,
                        entries,
                    )[k] == dir.child(entries[i].name)
            },
        forall|i: int|
            0 <= i < entries.len() && (#[trigger] entries[i]).is_dir ==> subdirectories(
                dir,
                entries,
            ).contains(dir.child(entries[i].name)),
    decreases entries.len(),
{
    let found = subdirectories(dir, entries);
    if entries.len() > 0 {
        let earlier = entries.drop_last();
        let before = subdirectories(dir, earlier);
        lemma_subdirectories_are_children(dir, earlier);
        assert forall|k: int| 0 <= k < found.len() implies {
            &&& (#[trigger] found[k]).parent() == Some(dir)
            &&& exists|i: int|
                0 <= i < entries.len() && (#[trigger] entries[i]).is_dir && found[k] == dir.child(
                    entries[i].name,
                )
        } by {
            if k < before.len() {
                assert(found[k] == before[k]);
                let i = choose|i: int|
                    0 <= i < earlier.len() && (#[trigger] earlier[i]).is_dir && before[k]
                        == dir.child(earlier[i].name);
                assert(entries[i] == earlier[i]);
            } else {
                let last = entries.len() - 1;
                assert(entries[last].is_dir);
                assert(found[k] == dir.child(entries[last].name));
                assert(dir.child(entries[last].name).parts.drop_last() =~= dir.parts);
                assert(found[k].parent() == Some(dir));
            }
        }
        assert forall|i: int| 0 <= i < entries.len() && (#[trigger] entries[i]).is_dir implies found.contains(
            dir.child(entries[i].name),
        ) by {
            if i < earlier.len() {
                assert(earlier[i] == entries[i]);
                let k = choose|k: int|
                    0 <= k < before.len() && before[k] == dir.child(entries[i].name);
                assert(found[k] == before[k]);
            } else {
                assert(found[found.len() - 1] == dir.child(entries[i].name));
            }
        }
    }
}

/// A walk never leaves the tree that it started in: where the directories
/// still to visit lie within `root` and `dir` does, so do the directories
/// still to visit once the listing of `dir` has been taken.
pub proof fn lemma_walk_stays_below(
    waiting: Seq<PathModel>,
    dir: PathModel,
    entries: Seq<EntryModel>,
    root: PathModel,
)
    requires
        all_within(waiting, root),
        dir.is_within(root),
    ensures
        all_within(waiting + subdirectories(dir, entries), root),
{
    lemma_subdirectories_are_children(dir, entries);
    let found = subdirectories(dir, entries);
    let grown = waiting + found;
    assert forall|i: int| 0 <= i < grown.len() implies (#[trigger] grown[i]).is_within(root) by {
        if i < waiting.len() {
            assert(grown[i] == waiting[i]);
        } else {
            let k = i - waiting.len();
            assert(grown[i] == found[k]);
            assert(found[k].parent() == Some(dir));
            crate::paths::lemma_within_by_parent(found[k], root);
        }
    }
}

/// The directories that a walk has found and not handed out yet. The last
/// one is the next to go.
#[derive(Debug)]
pub struct DirectoryWalker {
    pub stack: Vec<ScanPath>,
}

impl View for DirectoryWalker {
    type V = Seq<PathModel>;

    /// The directories still to visit, the next one last.
    open spec fn view(&self) -> Seq<PathModel> {
        models_of(self.stack@)
    }
}

impl DirectoryWalker {
    /// A walk that starts at `root`.
    pub fn new(root: ScanPath) -> (walker: DirectoryWalker)
        ensures
            walker@ == seq![root@],
    {
        let mut stack: Vec<ScanPath> = Vec::new();
        stack.push(root);
        assert(models_of(stack@) =~= seq![root@]);
        DirectoryWalker { stack }
    }

    /// The number of directories found and not handed out yet.
    pub fn pending(&self) -> (count: usize)
        ensures
            count == self@.len(),
    {
        self.stack.len()
    }

    /// The next directory to read: the one found last. Once the scan has
    /// been asked to stop, the walk is over at once: nothing is handed out
    /// and what was still to visit is dropped.
    pub fn next_directory(&mut self, cancelled: bool) -> (next: Option<ScanPath>)
        ensures
            next is Some <==> !cancelled && old(self)@.len() > 0,
            next is None ==> final(self)@.len() == 0,
            next matches Some(dir) ==> dir@ == old(self)@.last() && final(self)@ == old(
                self,
            )@.drop_last(),
    {
        if cancelled {
            self.stack.clear();
            None
        } else {
            let next = self.stack.pop();
            proof {
                if next is Some {
                    assert(models_of(self.stack@) =~= models_of(old(self).stack@).drop_last());
                }
            }
            next
        }
    }

    /// Takes the listing of the directory `dir`, which the walk handed out
    /// and the caller read: the subdirectories among the entries join the
    /// directories to visit, each under its path below `dir`, and are
    /// visited before anything found earlier. Files are not taken. A
    /// directory that could not be read has no listing to take: the walk
    /// goes on without its children.
    pub fn take_listing(&mut self, dir: &ScanPath, entries: &Vec<DirectoryEntry>)
        ensures
            final(self)@ == old(self)@ + subdirectories(dir@, models_of(entries@)),
    {
        let ghost listing = models_of(entries@);
        let ghost waiting = models_of(self.stack@);
        let n = entries.len();
        let mut i: usize = 0;
        assert(listing.take(0) =~= Seq::<EntryModel>::empty());
        assert(waiting + subdirectories(dir@, listing.take(0)) =~= waiting);
        while i < n
            invariant
                i <= n,
                n == entries@.len(),
                listing == models_of(entries@),
                models_of(self.stack@) == waiting + subdirectories(dir@, listing.take(i as int)),
            decreases n - i,
        {
            let entry = &entries[i];
            proof {
                assert(listing.take(i + 1).drop_last() =~= listing.take(i as int));
                assert(listing.take(i + 1).last() == entry@);
            }
            if entry.is_dir {
                let ghost before = models_of(self.stack@);
                let child = dir.join(entry.name.as_str());
                self.stack.push(child);
                assert(models_of(self.stack@) =~= before.push(child@));
                assert(before.push(child@) =~= waiting + subdirectories(
                    dir@,
                    listing.take(i as int),
                ).push(child@));
            }
            i += 1;
        }
        assert(listing.take(n as int) =~= listing);
    }
}

/// The number of workers for a machine that offers `available` threads, or
/// does not say: as many as offered, four where it does not say, at least
/// two and at most eight.
pub open spec fn workers_for(available: Option<usize>) -> usize {
    let offered = match available {
        Some(n) => n,
        None => 4,
    };
    if offered < 2 {
        2
    } else if offered > 8 {
        8
    } else {
        offered
    }
}

/// The number of workers of a scan.
pub fn worker_count(available: Option<usize>) -> (workers: usize)
    ensures
        workers == workers_for(available),
        2 <= workers <= 8,
{
    let offered = match available {
        Some(n) => n,
        None => 4,
    };
    if offered < 2 {
        2
    } else if offered > 8 {
        8
    } else {
        offered
    }
}

} // verus!
