//! Folding the totals of directories. A worker reports for each directory
//! the bytes and the number of the files directly in it; here each directory
//! gets the totals of everything below it.

use crate::folder_order::comes_first;
use crate::folder_order::in_order;
use crate::folder_order::in_range;
use crate::folder_order::sorted_places;
use crate::models::FolderModel;
use crate::models::ScannedFolder;
use crate::paths::lemma_path_lt_irreflexive;
use crate::paths::lemma_path_lt_transitive;
use crate::paths::lemma_subtree_is_contiguous;
use crate::paths::lemma_within_comes_after;
use crate::paths::PathModel;
use crate::seqs::models_of;
use crate::sums::block;
use crate::sums::lemma_sum_block;
use crate::sums::lemma_sum_picked;
use crate::sums::lemma_sum_pointwise_le;
use crate::sums::lemma_sum_take_all;
use crate::sums::lemma_sum_take_le;
use crate::sums::lemma_sum_take_next;
use crate::sums::picked;
use crate::sums::sum;
use vstd::prelude::*;

verus! {

/// The record at `i` is the one that counts for its directory: no later
/// record names the same path.
pub open spec fn is_latest(folders: Seq<FolderModel>, i: int) -> bool {
    forall|j: int| i < j < folders.len() ==> (#[trigger] folders[j]).path != folders[i].path
}

/// The record at `i` counts, and its directory is `d` or lies below it.
pub open spec fn counts_toward(folders: Seq<FolderModel>, i: int, d: PathModel) -> bool {
    is_latest(folders, i) && folders[i].path.is_within(d)
}

/// For each record the bytes that it adds to the total of `d`.
pub open spec fn bytes_toward(folders: Seq<FolderModel>, d: PathModel) -> Seq<nat> {
    Seq::new(
        folders.len(),
        |i: int|
            if counts_toward(folders, i, d) {
                folders[i].size as nat
            } else {
                0nat
            },
    )
}

/// For each record the number of files that it adds to the total of `d`.
pub open spec fn files_toward(folders: Seq<FolderModel>, d: PathModel) -> Seq<nat> {
    Seq::new(
        folders.len(),
        |i: int|
            if counts_toward(folders, i, d) {
                folders[i].file_count as nat
            } else {
                0nat
            },
    )
}

/// The bytes of all files in `d` and anywhere below it.
pub open spec fn recursive_bytes(folders: Seq<FolderModel>, d: PathModel) -> nat {
    sum(bytes_toward(folders, d))
}

/// The number of all files in `d` and anywhere below it.
pub open spec fn recursive_files(folders: Seq<FolderModel>, d: PathModel) -> nat {
    sum(files_toward(folders, d))
}

/// The bytes of each record.
pub open spec fn direct_sizes(folders: Seq<FolderModel>) -> Seq<nat> {
    Seq::new(folders.len(), |i: int| folders[i].size as nat)
}

/// The number of files of each record.
pub open spec fn direct_counts(folders: Seq<FolderModel>) -> Seq<nat> {
    Seq::new(folders.len(), |i: int| folders[i].file_count as nat)
}

/// Some record of `folders` names the path `p`.
pub open spec fn has_path(folders: Seq<FolderModel>, p: PathModel) -> bool {
    exists|i: int| 0 <= i < folders.len() && (#[trigger] folders[i]).path == p
}

/// `output` is `input` folded: it names the directories of `input`, each
/// once, in the order of their paths; each record holds the totals of its
/// directory and everything below it, and the directory's own name.
pub open spec fn is_folded(input: Seq<FolderModel>, output: Seq<FolderModel>) -> bool {
    &&& forall|i: int, j: int|
        0 <= i < j < output.len() ==> (#[trigger] output[i]).path.lt((#[trigger] output[j]).path)
    &&& forall|k: int| 0 <= k < output.len() ==> has_path(input, (#[trigger] output[k]).path)
    &&& forall|i: int| 0 <= i < input.len() ==> has_path(output, (#[trigger] input[i]).path)
    &&& forall|k: int|
        0 <= k < output.len() ==> {
            &&& (#[trigger] output[k]).size == recursive_bytes(input, output[k].path)
            &&& output[k].file_count == recursive_files(input, output[k].path)
            &&& output[k].name == output[k].path.name()
        }
}

/// Every directory that is named has a record that counts for it.
pub proof fn lemma_latest_exists(folders: Seq<FolderModel>, i: int) -> (j: int)
    requires
        0 <= i < folders.len(),
    ensures
        i <= j < folders.len(),
        is_latest(folders, j),
        folders[j].path == folders[i].path,
    decreases folders.len() - i,
{
    if is_latest(folders, i) {
        i
    } else {
        let next = choose|j: int|
            i < j < folders.len() && (#[trigger] folders[j]).path == folders[i].path;
        lemma_latest_exists(folders, next)
    }
}

/// Whether the bytes and the files of all records together fit a `u64` and
/// a `u32`, as [`calculate_recursive_folder_data`] asks.
pub fn totals_fit(folders: &Vec<ScannedFolder>) -> (fit: bool)
    ensures
        fit == (sum(direct_sizes(models_of(folders@))) <= u64::MAX && sum(
            direct_counts(models_of(folders@)),
        ) <= u32::MAX),
{
    let ghost input = models_of(folders@);
    let n = folders.len();
    let mut size: u64 = 0;
    let mut count: u32 = 0;
    let mut i: usize = 0;
    while i < n
        invariant
            i <= n,
            n == folders@.len(),
            input == models_of(folders@),
            size == sum(direct_sizes(input).take(i as int)),
            count == sum(direct_counts(input).take(i as int)),
        decreases n - i,
    {
        proof {
            lemma_sum_take_next(direct_sizes(input), i as int);
            lemma_sum_take_next(direct_counts(input), i as int);
            lemma_sum_take_le(direct_sizes(input), i + 1);
            lemma_sum_take_le(direct_counts(input), i + 1);
            assert(input[i as int] == folders@[i as int]@);
        }
        if folders[i].size > u64::MAX - size || folders[i].file_count > u32::MAX - count {
            return false;
        }
        size = size + folders[i].size;
        count = count + folders[i].file_count;
        i += 1;
    }
    proof {
        lemma_sum_take_all(direct_sizes(input));
        lemma_sum_take_all(direct_counts(input));
    }
    true
}

/// The place `a` of the sorted order ends a run of records of one path: it
/// is the last place, or the next record has another path.
pub open spec fn ends_run(folders: Seq<FolderModel>, order: Seq<usize>, a: int) -> bool {
    a == order.len() - 1 || folders[order[a + 1] as int].path != folders[order[a] as int].path
}

/// `order` holds each place of `folders` in the order of the records.
pub open spec fn is_sorted_order(folders: Seq<FolderModel>, order: Seq<usize>) -> bool {
    &&& in_order(folders, order)
    &&& in_range(folders, order)
    &&& order.len() == folders.len()
    &&& folders.len() <= usize::MAX
    &&& forall|x: usize| x < folders.len() ==> #[trigger] order.contains(x)
}

/// In the sorted order the record that counts for a directory is the one
/// that ends the run of its path.
pub proof fn lemma_run_end_is_latest(folders: Seq<FolderModel>, order: Seq<usize>, a: int)
    requires
        is_sorted_order(folders, order),
        0 <= a < order.len(),
    ensures
        ends_run(folders, order, a) <==> is_latest(folders, order[a] as int),
{
    let here = order[a] as int;
    let path = folders[here].path;
    lemma_path_lt_irreflexive(path);
    if ends_run(folders, order, a) {
        assert forall|j: int| here < j < folders.len() implies (#[trigger] folders[j]).path
            != path by {
            if folders[j].path == path {
                assert(order.contains(j as usize));
                let b = choose|b: int| 0 <= b < order.len() && order[b] == j as usize;
                if b < a {
                    assert(comes_first(folders, order[b] as int, order[a] as int));
                } else {
                    assert(b != a);
                    assert(comes_first(folders, order[a] as int, order[a + 1] as int));
                    let next = folders[order[a + 1] as int].path;
                    if a + 1 < b {
                        assert(comes_first(folders, order[a + 1] as int, order[b] as int));
                        if path.lt(next) && next.lt(path) {
                            lemma_path_lt_transitive(path, next, path);
                        }
                    }
                }
            }
        }
    } else {
        assert(comes_first(folders, order[a] as int, order[a + 1] as int));
        assert(folders[order[a + 1] as int].path == path);
    }
}

/// `kept` holds the places of the records that count, each once, in the
/// order of their paths.
pub open spec fn is_selection(folders: Seq<FolderModel>, kept: Seq<usize>) -> bool {
    &&& forall|c: int|
        0 <= c < kept.len() ==> #[trigger] kept[c] < folders.len() && is_latest(
            folders,
            kept[c] as int,
        )
    &&& forall|c: int, d: int|
        0 <= c < d < kept.len() ==> folders[#[trigger] kept[c] as int].path.lt(
            folders[#[trigger] kept[d] as int].path,
        )
    &&& forall|x: usize|
        x < folders.len() && is_latest(folders, x as int) ==> #[trigger] kept.contains(x)
}

/// The places of the records that count, in the order of their paths.
fn select_latest(folders: &Vec<ScannedFolder>, order: &Vec<usize>) -> (kept: Vec<usize>)
    requires
        is_sorted_order(models_of(folders@), order@),
    ensures
        is_selection(models_of(folders@), kept@),
{
    let ghost input = models_of(folders@);
    let n = order.len();
    let mut kept: Vec<usize> = Vec::new();
    let ghost mut src: Seq<int> = Seq::empty();
    let mut a: usize = 0;
    while a < n
        invariant
            a <= n,
            n == order@.len(),
            input == models_of(folders@),
            is_sorted_order(input, order@),
            src.len() == kept@.len(),
            forall|c: int|
                0 <= c < src.len() ==> 0 <= #[trigger] src[c] < a && kept@[c] == order@[src[c]]
                    && ends_run(input, order@, src[c]),
            forall|c: int, d: int| 0 <= c < d < src.len() ==> #[trigger] src[c] < #[trigger] src[d],
            forall|b: int|
                0 <= b < a && ends_run(input, order@, b) ==> exists|c: int|
                    0 <= c < src.len() && #[trigger] src[c] == b,
        decreases n - a,
    {
        let here = order[a];
        let ends = if a + 1 == n {
            true
        } else {
            let next = order[a + 1];
            !folders[here].path.same_as(&folders[next].path)
        };
        if ends {
            kept.push(here);
            proof {
                let ghost before = src;
                src = src.push(a as int);
                assert forall|b: int| 0 <= b < a + 1 && ends_run(input, order@, b) implies exists|
                    c: int,
                |
                    0 <= c < src.len() && #[trigger] src[c] == b by {
                    if b < a {
                        let c = choose|c: int| 0 <= c < before.len() && #[trigger] before[c] == b;
                        assert(src[c] == b);
                    } else {
                        assert(src[before.len() as int] == b);
                    }
                }
            }
        }
        a += 1;
    }
    proof {
        assert forall|c: int| 0 <= c < kept@.len() implies #[trigger] kept@[c] < input.len()
            && is_latest(input, kept@[c] as int) by {
            lemma_run_end_is_latest(input, order@, src[c]);
        }
        assert forall|c: int, d: int| 0 <= c < d < kept@.len() implies input[#[trigger] kept@[c] as int].path.lt(
            input[#[trigger] kept@[d] as int].path,
        ) by {
            assert(src[c] < src[d]);
            assert(comes_first(input, order@[src[c]] as int, order@[src[d]] as int));
            lemma_run_end_is_latest(input, order@, src[c]);
        }
        assert forall|x: usize| x < input.len() && is_latest(input, x as int) implies #[trigger] kept@.contains(
            x,
        ) by {
            assert(order@.contains(x));
            let b = choose|b: int| 0 <= b < order@.len() && order@[b] == x;
            lemma_run_end_is_latest(input, order@, b);
            let c = choose|c: int| 0 <= c < src.len() && #[trigger] src[c] == b;
            assert(kept@[c] == x);
        }
    }
    kept
}

/// The places as numbers.
pub open spec fn as_ints(places: Seq<usize>) -> Seq<int> {
    Seq::new(places.len(), |c: int| places[c] as int)
}

/// The bytes of the records at the places `kept`.
pub open spec fn kept_sizes(folders: Seq<FolderModel>, kept: Seq<usize>) -> Seq<nat> {
    Seq::new(kept.len(), |c: int| folders[kept[c] as int].size as nat)
}

/// The number of files of the records at the places `kept`.
pub open spec fn kept_counts(folders: Seq<FolderModel>, kept: Seq<usize>) -> Seq<nat> {
    Seq::new(kept.len(), |c: int| folders[kept[c] as int].file_count as nat)
}

/// The places of a selection are places of the records, each once.
proof fn lemma_selection_picks(folders: Seq<FolderModel>, kept: Seq<usize>)
    requires
        is_selection(folders, kept),
        folders.len() <= usize::MAX,
    ensures
        as_ints(kept).no_duplicates(),
        forall|c: int| 0 <= c < kept.len() ==> 0 <= #[trigger] as_ints(kept)[c] < folders.len(),
        forall|i: int|
            0 <= i < folders.len() && is_latest(folders, i) ==> as_ints(kept).contains(i),
{
    assert forall|c: int, d: int|
        0 <= c < kept.len() && 0 <= d < kept.len() && c != d implies as_ints(kept)[c] != as_ints(
        kept,
    )[d] by {
        lemma_path_lt_irreflexive(folders[kept[c] as int].path);
        if c < d {
            assert(folders[kept[c] as int].path.lt(folders[kept[d] as int].path));
        } else {
            assert(folders[kept[d] as int].path.lt(folders[kept[c] as int].path));
        }
    }
    assert forall|i: int| 0 <= i < folders.len() && is_latest(folders, i) implies as_ints(
        kept,
    ).contains(i) by {
        assert(kept.contains(i as usize));
        let c = choose|c: int| 0 <= c < kept.len() && kept[c] == i as usize;
        assert(as_ints(kept)[c] == i);
    }
}

/// The bytes and the files of the records that count are within those of
/// all records.
proof fn lemma_selection_bounded(folders: Seq<FolderModel>, kept: Seq<usize>)
    requires
        is_selection(folders, kept),
        folders.len() <= usize::MAX,
    ensures
        sum(kept_sizes(folders, kept)) <= sum(direct_sizes(folders)),
        sum(kept_counts(folders, kept)) <= sum(direct_counts(folders)),
{
    lemma_selection_picks(folders, kept);
    let picks = as_ints(kept);
    let sizes = Seq::new(
        folders.len(),
        |i: int|
            if is_latest(folders, i) {
                folders[i].size as nat
            } else {
                0nat
            },
    );
    let counts = Seq::new(
        folders.len(),
        |i: int|
            if is_latest(folders, i) {
                folders[i].file_count as nat
            } else {
                0nat
            },
    );
    lemma_sum_picked(sizes, picks);
    lemma_sum_picked(counts, picks);
    assert(picked(sizes, picks) =~= kept_sizes(folders, kept));
    assert(picked(counts, picks) =~= kept_counts(folders, kept));
    lemma_sum_pointwise_le(sizes, direct_sizes(folders));
    lemma_sum_pointwise_le(counts, direct_counts(folders));
}

/// The running totals of the records that count: at place `k` the bytes
/// and the files of the first `k` of them.
fn running_totals(folders: &Vec<ScannedFolder>, kept: &Vec<usize>) -> (totals: (
    Vec<u64>,
    Vec<u32>,
))
    requires
        is_selection(models_of(folders@), kept@),
        sum(direct_sizes(models_of(folders@))) <= u64::MAX,
        sum(direct_counts(models_of(folders@))) <= u32::MAX,
    ensures
        totals.0@.len() == kept@.len() + 1,
        totals.1@.len() == kept@.len() + 1,
        forall|k: int|
            0 <= k <= kept@.len() ==> #[trigger] totals.0@[k] == sum(
                kept_sizes(models_of(folders@), kept@).take(k),
            ),
        forall|k: int|
            0 <= k <= kept@.len() ==> #[trigger] totals.1@[k] == sum(
                kept_counts(models_of(folders@), kept@).take(k),
            ),
{
    let ghost input = models_of(folders@);
    let ghost sizes = kept_sizes(input, kept@);
    let ghost counts = kept_counts(input, kept@);
    let n = folders.len();
    proof {
        lemma_selection_bounded(input, kept@);
    }
    let m = kept.len();
    let mut bytes: Vec<u64> = Vec::new();
    let mut files: Vec<u32> = Vec::new();
    let mut size: u64 = 0;
    let mut count: u32 = 0;
    bytes.push(size);
    files.push(count);
    let mut c: usize = 0;
    while c < m
        invariant
            c <= m,
            m == kept@.len(),
            input == models_of(folders@),
            is_selection(input, kept@),
            sizes == kept_sizes(input, kept@),
            counts == kept_counts(input, kept@),
            sum(sizes) <= u64::MAX,
            sum(counts) <= u32::MAX,
            size == sum(sizes.take(c as int)),
            count == sum(counts.take(c as int)),
            bytes@.len() == c + 1,
            files@.len() == c + 1,
            forall|k: int| 0 <= k <= c ==> #[trigger] bytes@[k] == sum(sizes.take(k)),
            forall|k: int| 0 <= k <= c ==> #[trigger] files@[k] == sum(counts.take(k)),
        decreases m - c,
    {
        proof {
            lemma_sum_take_next(sizes, c as int);
            lemma_sum_take_next(counts, c as int);
            lemma_sum_take_le(sizes, c + 1);
            lemma_sum_take_le(counts, c + 1);
            assert(kept@[c as int] < input.len());
            assert(input[kept@[c as int] as int] == folders@[kept@[c as int] as int]@);
        }
        let record = &folders[kept[c]];
        size = size + record.size;
        count = count + record.file_count;
        bytes.push(size);
        files.push(count);
        c += 1;
    }
    (bytes, files)
}

/// Where the subtree of the record at place `at` of the selection ends:
/// the records from `at` up to the end are those of its directory and of
/// everything below it.
fn subtree_end(folders: &Vec<ScannedFolder>, kept: &Vec<usize>, at: usize) -> (end: usize)
    requires
        is_selection(models_of(folders@), kept@),
        at < kept@.len(),
    ensures
        at < end <= kept@.len(),
        forall|t: int|
            0 <= t < kept@.len() ==> (at <= t < end <==> models_of(
                folders@,
            )[#[trigger] kept@[t] as int].path.is_within(
                models_of(folders@)[kept@[at as int] as int].path,
            )),
{
    let ghost input = models_of(folders@);
    let ghost top = input[kept@[at as int] as int].path;
    let m = kept.len();
    let mut low: usize = at + 1;
    let mut high: usize = m;
    proof {
        assert(kept@[at as int] < input.len());
    }
    while low < high
        invariant
            at < low <= high <= m,
            m == kept@.len(),
            input == models_of(folders@),
            top == input[kept@[at as int] as int].path,
            is_selection(input, kept@),
            forall|t: int| at <= t < low ==> input[#[trigger] kept@[t] as int].path.is_within(top),
            forall|t: int| high <= t < m ==> !input[#[trigger] kept@[t] as int].path.is_within(top),
        decreases high - low,
    {
        let mid = low + (high - low) / 2;
        proof {
            assert(kept@[mid as int] < input.len());
            assert(kept@[at as int] < input.len());
            assert(input[kept@[mid as int] as int] == folders@[kept@[mid as int] as int]@);
            assert(input[kept@[at as int] as int] == folders@[kept@[at as int] as int]@);
        }
        if folders[kept[mid]].path.is_within(&folders[kept[at]].path) {
            proof {
                assert forall|t: int| at <= t < mid + 1 implies input[#[trigger] kept@[t] as int].path.is_within(
                    top,
                ) by {
                    if at < t < mid {
                        lemma_subtree_is_contiguous(
                            top,
                            input[kept@[t] as int].path,
                            input[kept@[mid as int] as int].path,
                        );
                    }
                }
            }
            low = mid + 1;
        } else {
            proof {
                assert forall|t: int| mid <= t < m implies !input[#[trigger] kept@[t] as int].path.is_within(
                    top,
                ) by {
                    if mid < t && input[kept@[t] as int].path.is_within(top) {
                        lemma_subtree_is_contiguous(
                            top,
                            input[kept@[mid as int] as int].path,
                            input[kept@[t] as int].path,
                        );
                    }
                }
            }
            high = mid;
        }
    }
    proof {
        assert forall|t: int| 0 <= t < at implies !input[#[trigger] kept@[t] as int].path.is_within(
            top,
        ) by {
            let early = input[kept@[t] as int].path;
            if early.is_within(top) {
                assert(early.lt(top));
                lemma_path_lt_irreflexive(early);
                lemma_within_comes_after(early, top);
                lemma_path_lt_transitive(early, top, early);
            }
        }
    }
    low
}

/// Turns the direct totals of directories into the totals of their
/// subtrees. Each directory of `folders` comes out once, with the bytes and
/// the number of the files in it and in every directory of `folders` below
/// it, under its own name, and the list is in the order of the paths. Where a
/// directory is named more than once, its last record counts.
///
/// The bytes and the files of all records together must fit a `u64` and a
/// `u32`.
pub fn calculate_recursive_folder_data(folders: Vec<ScannedFolder>) -> (out: Vec<ScannedFolder>)
    requires
        sum(direct_sizes(models_of(folders@))) <= u64::MAX,
        sum(direct_counts(models_of(folders@))) <= u32::MAX,
    ensures
        is_folded(models_of(folders@), models_of(out@)),
{
    let ghost input = models_of(folders@);
    let n = folders.len();
    let order = sorted_places(&folders);
    let kept = select_latest(&folders, &order);
    let totals = running_totals(&folders, &kept);
    let bytes = totals.0;
    let files = totals.1;
    let ghost sizes = kept_sizes(input, kept@);
    let ghost counts = kept_counts(input, kept@);
    let m = kept.len();
    let mut out: Vec<ScannedFolder> = Vec::new();
    let mut c: usize = 0;
    while c < m
        invariant
            c <= m,
            m == kept@.len(),
            n == folders@.len(),
            input == models_of(folders@),
            is_selection(input, kept@),
            sizes == kept_sizes(input, kept@),
            counts == kept_counts(input, kept@),
            bytes@.len() == m + 1,
            files@.len() == m + 1,
            forall|k: int| 0 <= k <= m ==> #[trigger] bytes@[k] == sum(sizes.take(k)),
            forall|k: int| 0 <= k <= m ==> #[trigger] files@[k] == sum(counts.take(k)),
            out@.len() == c,
            forall|k: int|
                0 <= k < c ==> {
                    let record = (#[trigger] out@[k])@;
                    &&& record.path == input[kept@[k] as int].path
                    &&& record.size == recursive_bytes(input, record.path)
                    &&& record.file_count == recursive_files(input, record.path)
                    &&& record.name == record.path.name()
                },
        decreases m - c,
    {
        let end = subtree_end(&folders, &kept, c);
        let ghost here = kept@[c as int] as int;
        let ghost d = input[here].path;
        proof {
            assert(kept@[c as int] < input.len());
            assert(input[here] == folders@[here]@);
            lemma_selection_picks(input, kept@);
            let picks = as_ints(kept@);
            let toward_bytes = bytes_toward(input, d);
            let toward_files = files_toward(input, d);
            lemma_sum_picked(toward_bytes, picks);
            lemma_sum_picked(toward_files, picks);
            assert(picked(toward_bytes, picks) =~= block(sizes, c as int, end as int)) by {
                assert forall|t: int| 0 <= t < m implies picked(toward_bytes, picks)[t] == block(
                    sizes,
                    c as int,
                    end as int,
                )[t] by {
                    assert(kept@[t] < input.len() && is_latest(input, kept@[t] as int));
                }
            }
            assert(picked(toward_files, picks) =~= block(counts, c as int, end as int)) by {
                assert forall|t: int| 0 <= t < m implies picked(toward_files, picks)[t] == block(
                    counts,
                    c as int,
                    end as int,
                )[t] by {
                    assert(kept@[t] < input.len() && is_latest(input, kept@[t] as int));
                }
            }
            lemma_sum_block(sizes, c as int, end as int);
            lemma_sum_block(counts, c as int, end as int);
            assert(bytes@[end as int] == sum(sizes.take(end as int)));
            assert(bytes@[c as int] == sum(sizes.take(c as int)));
            assert(files@[end as int] == sum(counts.take(end as int)));
            assert(files@[c as int] == sum(counts.take(c as int)));
        }
        let path = &folders[kept[c]].path;
        let record = ScannedFolder {
            name: path.file_name(),
            path: path.duplicate(),
            size: bytes[end] - bytes[c],
            file_count: files[end] - files[c],
        };
        out.push(record);
        c += 1;
    }
    proof {
        let output = models_of(out@);
        assert forall|a: int, b: int| 0 <= a < b < output.len() implies (#[trigger] output[a]).path.lt(
            (#[trigger] output[b]).path,
        ) by {
            assert(out@[a]@.path == input[kept@[a] as int].path);
            assert(out@[b]@.path == input[kept@[b] as int].path);
        }
        assert forall|k: int| 0 <= k < output.len() implies has_path(
            input,
            (#[trigger] output[k]).path,
        ) by {
            assert(out@[k]@.path == input[kept@[k] as int].path);
            assert(kept@[k] < input.len());
        }
        assert forall|i: int| 0 <= i < input.len() implies has_path(
            output,
            (#[trigger] input[i]).path,
        ) by {
            let l = lemma_latest_exists(input, i);
            assert(kept@.contains(l as usize));
            let k = choose|k: int| 0 <= k < kept@.len() && kept@[k] == l as usize;
            assert(output[k].path == input[i].path);
        }
        assert forall|k: int| 0 <= k < output.len() implies (#[trigger] output[k]).size
            == recursive_bytes(input, output[k].path) && output[k].file_count == recursive_files(
            input,
            output[k].path,
        ) && output[k].name == output[k].path.name() by {
            assert(output[k] == out@[k]@);
        }
    }
    out
}

} // verus!
