//! The walk over a whole tree. A walk hands out one directory at a time and
//! takes the subdirectories that were found in it; here is what that comes
//! to once no directory is left to visit: every directory that can be
//! reached from the root through directories that could be read has been
//! handed out, each once, and nothing else has.

use crate::discovery::lemma_subdirectories_are_children;
use crate::discovery::subdirectories;
use crate::paths::PathModel;
use crate::scan::EntryModel;
use vstd::prelude::*;

verus! {

/// A walk as the contracts speak of it: the directories handed out so far,
/// in their order, and those found and still to visit, the next one last.
pub struct WalkModel {
    pub sent: Seq<PathModel>,
    pub waiting: Seq<PathModel>,
}

/// The directories found in `dir`, given what reading it gave: none where
/// it could not be read.
pub open spec fn found_in(dir: PathModel, read: Option<Seq<EntryModel>>) -> Seq<PathModel> {
    match read {
        Some(entries) => subdirectories(dir, entries),
        None => Seq::empty(),
    }
}

/// One round of a walk, where reading the directory `p` gives `reads(p)`:
/// the directory found last is handed out, as
/// [`crate::discovery::DirectoryWalker::next_directory`] does it, and what
/// is found in it waits to be visited before anything found earlier, as
/// [`crate::discovery::DirectoryWalker::take_listing`] leaves it.
pub open spec fn walk_step(
    w: WalkModel,
    reads: spec_fn(PathModel) -> Option<Seq<EntryModel>>,
) -> WalkModel
    recommends
        w.waiting.len() > 0,
{
    let dir = w.waiting.last();
    WalkModel { sent: w.sent.push(dir), waiting: w.waiting.drop_last() + found_in(dir, reads(dir)) }
}

/// A round of a walker is a round of the walk. The walker hands out the
/// directory found last and keeps the others; the caller reads the
/// directory; where it could be read, the walker takes the listing, and its
/// subdirectories join the others. What then waits is what [`walk_step`]
/// leaves waiting, and what was handed out is what it adds to the
/// directories sent.
pub proof fn lemma_round_is_a_step(
    w: WalkModel,
    reads: spec_fn(PathModel) -> Option<Seq<EntryModel>>,
    handed_out: PathModel,
    kept: Seq<PathModel>,
    waiting: Seq<PathModel>,
)
    requires
        w.waiting.len() > 0,
        handed_out == w.waiting.last(),
        kept == w.waiting.drop_last(),
        waiting == match reads(handed_out) {
            Some(entries) => kept + subdirectories(handed_out, entries),
            None => kept,
        },
    ensures
        walk_step(w, reads) == (WalkModel { sent: w.sent.push(handed_out), waiting }),
{
    assert(kept + Seq::<PathModel>::empty() =~= kept);
}

/// The walk from `root` after `rounds` rounds. A walk with nothing left to
/// visit stays as it is.
pub open spec fn walk_after(
    root: PathModel,
    reads: spec_fn(PathModel) -> Option<Seq<EntryModel>>,
    rounds: nat,
) -> WalkModel
    decreases rounds,
{
    if rounds == 0 {
        WalkModel { sent: Seq::empty(), waiting: seq![root] }
    } else {
        let before = walk_after(root, reads, (rounds - 1) as nat);
        if before.waiting.len() == 0 {
            before
        } else {
            walk_step(before, reads)
        }
    }
}

/// Some entry of the listing is a directory named `name`.
pub open spec fn lists_directory(entries: Seq<EntryModel>, name: Seq<char>) -> bool {
    exists|i: int| 0 <= i < entries.len() && (#[trigger] entries[i]).is_dir && entries[i].name == name
}

/// The directory `d` can be reached from `root`: it is the root, or it is
/// listed as a directory in a directory that can be reached and read.
pub open spec fn reachable(
    root: PathModel,
    reads: spec_fn(PathModel) -> Option<Seq<EntryModel>>,
    d: PathModel,
) -> bool
    decreases d.parts.len(),
{
    d == root || (d.parts.len() > 0 && reachable(
        root,
        reads,
        PathModel { root: d.root, separator: d.separator, parts: d.parts.drop_last() },
    ) && match reads(PathModel { root: d.root, separator: d.separator, parts: d.parts.drop_last() }) {
        Some(entries) => lists_directory(entries, d.parts.last()),
        None => false,
    })
}

/// No two directories of the listing have the same name.
pub open spec fn distinct_directories(entries: Seq<EntryModel>) -> bool {
    forall|i: int, j: int|
        0 <= i < j < entries.len() && (#[trigger] entries[i]).is_dir && (
        #[trigger] entries[j]).is_dir ==> entries[i].name != entries[j].name
}

/// No directory of the tree lists two directories of the same name.
pub open spec fn names_differ(reads: spec_fn(PathModel) -> Option<Seq<EntryModel>>) -> bool {
    forall|p: PathModel| (#[trigger] reads(p)) matches Some(entries) ==> distinct_directories(entries)
}

/// The walk knows of `x`: it has handed it out or has it waiting.
pub open spec fn known(w: WalkModel, x: PathModel) -> bool {
    w.sent.contains(x) || w.waiting.contains(x)
}

/// What holds of a walk from `root` after every round.
pub open spec fn walk_inv(
    root: PathModel,
    reads: spec_fn(PathModel) -> Option<Seq<EntryModel>>,
    w: WalkModel,
) -> bool {
    &&& forall|x: PathModel| #[trigger] known(w, x) ==> reachable(root, reads, x)
    &&& w.sent.no_duplicates()
    &&& w.waiting.no_duplicates()
    &&& forall|x: PathModel| !(#[trigger] w.sent.contains(x) && w.waiting.contains(x))
    &&& if w.sent.len() == 0 {
        w.waiting == seq![root]
    } else {
        w.sent[0] == root
    }
    &&& forall|p: PathModel, c: PathModel|
        w.sent.contains(p) && (#[trigger] found_in(p, reads(p)).contains(c)) ==> known(w, c)
    &&& forall|x: PathModel|
        #[trigger] known(w, x) && x != root ==> x.parent() is Some && w.sent.contains(
            x.parent()->0,
        )
}

/// What can be reached from the root lies within it.
proof fn lemma_reachable_within(
    root: PathModel,
    reads: spec_fn(PathModel) -> Option<Seq<EntryModel>>,
    d: PathModel,
)
    requires
        reachable(root, reads, d),
    ensures
        d.is_within(root),
        d.parts.len() >= root.parts.len(),
    decreases d.parts.len(),
{
    if d != root {
        let p = PathModel { root: d.root, separator: d.separator, parts: d.parts.drop_last() };
        lemma_reachable_within(root, reads, p);
    }
}

/// A list with one more item holds what it held and the item.
proof fn lemma_contains_push(s: Seq<PathModel>, v: PathModel, x: PathModel)
    ensures
        s.push(v).contains(x) <==> s.contains(x) || x == v,
{
    if s.contains(x) {
        let i = choose|i: int| 0 <= i < s.len() && s[i] == x;
        assert(s.push(v)[i] == x);
    }
    if x == v {
        assert(s.push(v)[s.len() as int] == x);
    }
    if s.push(v).contains(x) {
        let i = choose|i: int| 0 <= i < s.push(v).len() && s.push(v)[i] == x;
        if i < s.len() {
            assert(s[i] == x);
        }
    }
}

/// Two lists laid end to end hold what either holds.
proof fn lemma_contains_concat(a: Seq<PathModel>, b: Seq<PathModel>, x: PathModel)
    ensures
        (a + b).contains(x) <==> a.contains(x) || b.contains(x),
{
    if a.contains(x) {
        let i = choose|i: int| 0 <= i < a.len() && a[i] == x;
        assert((a + b)[i] == x);
    }
    if b.contains(x) {
        let i = choose|i: int| 0 <= i < b.len() && b[i] == x;
        assert((a + b)[a.len() + i] == x);
    }
    if (a + b).contains(x) {
        let i = choose|i: int| 0 <= i < (a + b).len() && (a + b)[i] == x;
        if i < a.len() {
            assert(a[i] == x);
        } else {
            assert(b[i - a.len()] == x);
        }
    }
}

/// A list holds what it holds without its last item, and that item.
proof fn lemma_contains_drop_last(s: Seq<PathModel>, x: PathModel)
    requires
        s.len() > 0,
    ensures
        s.contains(x) <==> s.drop_last().contains(x) || x == s.last(),
{
    assert(s =~= s.drop_last().push(s.last()));
    lemma_contains_push(s.drop_last(), s.last(), x);
}

/// Where no two directories of a listing have the same name, no directory
/// is found twice in it.
proof fn lemma_found_once(dir: PathModel, entries: Seq<EntryModel>)
    requires
        distinct_directories(entries),
    ensures
        subdirectories(dir, entries).no_duplicates(),
    decreases entries.len(),
{
    if entries.len() > 0 {
        let earlier = entries.drop_last();
        let last = entries.last();
        assert(distinct_directories(earlier)) by {
            assert forall|i: int, j: int|
                0 <= i < j < earlier.len() && (#[trigger] earlier[i]).is_dir && (
                #[trigger] earlier[j]).is_dir implies earlier[i].name != earlier[j].name by {
                assert(earlier[i] == entries[i] && earlier[j] == entries[j]);
            }
        }
        lemma_found_once(dir, earlier);
        if last.is_dir {
            let before = subdirectories(dir, earlier);
            let child = dir.child(last.name);
            lemma_subdirectories_are_children(dir, earlier);
            if before.contains(child) {
                let k = choose|k: int| 0 <= k < before.len() && before[k] == child;
                let i = choose|i: int|
                    0 <= i < earlier.len() && (#[trigger] earlier[i]).is_dir && before[k]
                        == dir.child(earlier[i].name);
                assert(earlier[i] == entries[i]);
                assert(entries[entries.len() - 1] == last);
                assert(dir.child(earlier[i].name).parts.last() == earlier[i].name);
                assert(child.parts.last() == last.name);
            }
            assert forall|a: int, b: int|
                0 <= a < before.push(child).len() && 0 <= b < before.push(child).len() && a
                    != b implies before.push(child)[a] != before.push(child)[b] by {
                if a < before.len() && b < before.len() {
                } else if a < before.len() {
                    assert(before.contains(before[a]));
                } else {
                    assert(before.contains(before[b]));
                }
            }
        }
    }
}

/// One round keeps what holds of a walk.
proof fn lemma_walk_step_keeps(
    root: PathModel,
    reads: spec_fn(PathModel) -> Option<Seq<EntryModel>>,
    w: WalkModel,
)
    requires
        names_differ(reads),
        walk_inv(root, reads, w),
        w.waiting.len() > 0,
    ensures
        walk_inv(root, reads, walk_step(w, reads)),
{
    let dir = w.waiting.last();
    let rest = w.waiting.drop_last();
    let found = found_in(dir, reads(dir));
    let next = walk_step(w, reads);
    assert(w.waiting.contains(dir)) by {
        assert(w.waiting[w.waiting.len() - 1] == dir);
    }
    assert(known(w, dir));
    lemma_reachable_within(root, reads, dir);
    match reads(dir) {
        Some(entries) => {
            lemma_subdirectories_are_children(dir, entries);
            lemma_found_once(dir, entries);
        },
        None => {},
    }
    assert forall|c: PathModel| found.contains(c) implies {
        &&& c.parent() == Some(dir)
        &&& c != root
        &&& c != dir
        &&& reachable(root, reads, c)
        &&& !known(w, c)
    } by {
        let entries = reads(dir)->0;
        let k = choose|k: int| 0 <= k < found.len() && found[k] == c;
        assert(found[k].parent() == Some(dir));
        let i = choose|i: int|
            0 <= i < entries.len() && (#[trigger] entries[i]).is_dir && found[k] == dir.child(
                entries[i].name,
            );
        assert(c.parts.last() == entries[i].name);
        assert(c.parts.drop_last() =~= dir.parts);
        assert(PathModel { root: c.root, separator: c.separator, parts: c.parts.drop_last() } == dir);
        assert(lists_directory(entries, c.parts.last()));
        assert(c.parts.len() == dir.parts.len() + 1);
        if known(w, c) {
            assert(w.sent.contains(dir));
        }
    }
    assert forall|x: PathModel| known(next, x) <==> known(w, x) || found.contains(x) by {
        lemma_contains_push(w.sent, dir, x);
        lemma_contains_concat(rest, found, x);
        lemma_contains_drop_last(w.waiting, x);
    }
    assert forall|x: PathModel| #[trigger] known(next, x) implies reachable(root, reads, x) by {
        assert(known(w, x) || found.contains(x));
    }
    assert(next.sent.no_duplicates()) by {
        assert(!w.sent.contains(dir));
        assert forall|a: int, b: int|
            0 <= a < next.sent.len() && 0 <= b < next.sent.len() && a != b implies next.sent[a]
            != next.sent[b] by {
            if a < w.sent.len() && b < w.sent.len() {
            } else if a < w.sent.len() {
                assert(w.sent.contains(w.sent[a]));
            } else {
                assert(w.sent.contains(w.sent[b]));
            }
        }
    }
    assert(next.waiting.no_duplicates()) by {
        assert forall|a: int, b: int|
            0 <= a < next.waiting.len() && 0 <= b < next.waiting.len() && a
                != b implies next.waiting[a] != next.waiting[b] by {
            if a < rest.len() && b < rest.len() {
                assert(rest[a] == w.waiting[a] && rest[b] == w.waiting[b]);
            } else if a < rest.len() {
                assert(found.contains(found[b - rest.len()]));
                assert(w.waiting.contains(w.waiting[a]));
                assert(known(w, rest[a]));
            } else if b < rest.len() {
                assert(found.contains(found[a - rest.len()]));
                assert(w.waiting.contains(w.waiting[b]));
                assert(known(w, rest[b]));
            } else {
            }
        }
    }
    assert forall|x: PathModel| !(#[trigger] next.sent.contains(x) && next.waiting.contains(
        x,
    )) by {
        lemma_contains_push(w.sent, dir, x);
        lemma_contains_concat(rest, found, x);
        lemma_contains_drop_last(w.waiting, x);
        if next.sent.contains(x) && next.waiting.contains(x) {
            if x == dir {
                if rest.contains(dir) {
                    let a = choose|a: int| 0 <= a < rest.len() && rest[a] == dir;
                    assert(w.waiting[a] == dir);
                }
            } else {
                assert(w.sent.contains(x));
                assert(known(w, x));
            }
        }
    }
    assert(next.sent[0] == root) by {
        if w.sent.len() == 0 {
            assert(w.waiting[0] == root);
        } else {
            assert(next.sent[0] == w.sent[0]);
        }
    }
    assert forall|p: PathModel, c: PathModel|
        next.sent.contains(p) && (#[trigger] found_in(p, reads(p)).contains(c)) implies known(
        next,
        c,
    ) by {
        lemma_contains_push(w.sent, dir, p);
        if p == dir {
            assert(found.contains(c));
        } else {
            assert(known(w, c));
        }
        assert(known(next, c) <==> known(w, c) || found.contains(c));
    }
    assert forall|x: PathModel| #[trigger] known(next, x) && x != root implies x.parent() is Some
        && next.sent.contains(x.parent()->0) by {
        assert(known(w, x) || found.contains(x));
        if known(w, x) {
            lemma_contains_push(w.sent, dir, x.parent()->0);
        } else {
            lemma_contains_push(w.sent, dir, dir);
        }
    }
}

/// What holds of a walk holds after every round.
proof fn lemma_walk_inv(
    root: PathModel,
    reads: spec_fn(PathModel) -> Option<Seq<EntryModel>>,
    rounds: nat,
)
    requires
        names_differ(reads),
    ensures
        walk_inv(root, reads, walk_after(root, reads, rounds)),
    decreases rounds,
{
    if rounds == 0 {
        let w = walk_after(root, reads, 0);
        assert forall|x: PathModel| #[trigger] known(w, x) implies x == root by {
            if w.waiting.contains(x) {
                let i = choose|i: int| 0 <= i < w.waiting.len() && w.waiting[i] == x;
            }
        }
    } else {
        lemma_walk_inv(root, reads, (rounds - 1) as nat);
        let before = walk_after(root, reads, (rounds - 1) as nat);
        if before.waiting.len() > 0 {
            lemma_walk_step_keeps(root, reads, before);
        }
    }
}

/// A walk with nothing left to visit has handed out all that can be
/// reached.
proof fn lemma_walk_is_complete(
    root: PathModel,
    reads: spec_fn(PathModel) -> Option<Seq<EntryModel>>,
    w: WalkModel,
    d: PathModel,
)
    requires
        walk_inv(root, reads, w),
        w.waiting.len() == 0,
        reachable(root, reads, d),
    ensures
        w.sent.contains(d),
    decreases d.parts.len(),
{
    if d == root {
        assert(w.sent.len() > 0);
        assert(w.sent[0] == root);
    } else {
        let p = PathModel { root: d.root, separator: d.separator, parts: d.parts.drop_last() };
        lemma_walk_is_complete(root, reads, w, p);
        let entries = reads(p)->0;
        let i = choose|i: int|
            0 <= i < entries.len() && (#[trigger] entries[i]).is_dir && entries[i].name
                == d.parts.last();
        lemma_subdirectories_are_children(p, entries);
        assert(p.child(entries[i].name).parts =~= d.parts);
        assert(p.child(entries[i].name) == d);
        assert(found_in(p, reads(p)).contains(d));
        assert(known(w, d));
        if w.waiting.contains(d) {
            let k = choose|k: int| 0 <= k < w.waiting.len() && w.waiting[k] == d;
        }
    }
}

/// A walk that has nothing left to visit has found the whole tree. Where no
/// directory lists two directories of the same name, the directories handed
/// out start with the root and are the directories that can be reached from
/// it through directories that could be read: each of them once, no file and
/// nothing from outside the tree. A directory that could not be read is
/// handed out like the others; what lies below it is not reached, and the
/// walk goes on with the rest.
pub proof fn lemma_walk_finds_every_directory(
    root: PathModel,
    reads: spec_fn(PathModel) -> Option<Seq<EntryModel>>,
    rounds: nat,
)
    requires
        names_differ(reads),
        walk_after(root, reads, rounds).waiting.len() == 0,
    ensures
        walk_after(root, reads, rounds).sent.len() > 0,
        walk_after(root, reads, rounds).sent[0] == root,
        walk_after(root, reads, rounds).sent.no_duplicates(),
        forall|d: PathModel| #[trigger]
            walk_after(root, reads, rounds).sent.contains(d) <==> reachable(root, reads, d),
        forall|d: PathModel| #[trigger]
            walk_after(root, reads, rounds).sent.contains(d) ==> d.is_within(root),
{
    let w = walk_after(root, reads, rounds);
    lemma_walk_inv(root, reads, rounds);
    assert forall|d: PathModel| #[trigger] w.sent.contains(d) <==> reachable(root, reads, d) by {
        if w.sent.contains(d) {
            assert(known(w, d));
        }
        if reachable(root, reads, d) {
            lemma_walk_is_complete(root, reads, w, d);
        }
    }
    assert forall|d: PathModel| #[trigger] w.sent.contains(d) implies d.is_within(root) by {
        assert(known(w, d));
        lemma_reachable_within(root, reads, d);
    }
}

} // verus!
