//! The order in which directory records are folded: by path, and records of
//! the same path in the order they came. The records are not moved; their
//! places are sorted.

use crate::models::FolderModel;
use crate::models::ScannedFolder;
use crate::paths::lemma_path_lt_irreflexive;
use crate::paths::lemma_path_lt_total;
use crate::paths::lemma_path_lt_transitive;
use crate::paths::PathRelation;
use crate::seqs::models_of;
use vstd::prelude::*;

verus! {

/// The record at `i` comes before the record at `j`: its path comes first,
/// or the paths are the same and `i` is the earlier place.
pub open spec fn comes_first(folders: Seq<FolderModel>, i: int, j: int) -> bool {
    folders[i].path.lt(folders[j].path) || (folders[i].path == folders[j].path && i < j)
}

/// The places in `order` stand in the order of their records.
pub open spec fn in_order(folders: Seq<FolderModel>, order: Seq<usize>) -> bool {
    forall|a: int, b: int|
        0 <= a < b < order.len() ==> comes_first(
            folders,
            #[trigger] order[a] as int,
            #[trigger] order[b] as int,
        )
}

/// Every place in `order` is a place of `folders`.
pub open spec fn in_range(folders: Seq<FolderModel>, order: Seq<usize>) -> bool {
    forall|a: int| 0 <= a < order.len() ==> #[trigger] order[a] < folders.len()
}

/// What comes before a record comes before all that the record comes
/// before.
pub proof fn lemma_comes_first_transitive(folders: Seq<FolderModel>, i: int, j: int, k: int)
    requires
        comes_first(folders, i, j),
        comes_first(folders, j, k),
    ensures
        comes_first(folders, i, k),
{
    let a = folders[i].path;
    let b = folders[j].path;
    let c = folders[k].path;
    if a.lt(b) && b.lt(c) {
        lemma_path_lt_transitive(a, b, c);
    }
}

/// Of two records in different places one comes before the other, and not
/// both.
pub proof fn lemma_comes_first_total(folders: Seq<FolderModel>, i: int, j: int)
    requires
        i != j,
    ensures
        comes_first(folders, i, j) != comes_first(folders, j, i),
{
    let a = folders[i].path;
    let b = folders[j].path;
    lemma_path_lt_total(a, b);
    lemma_path_lt_irreflexive(a);
    if a.lt(b) && b.lt(a) {
        lemma_path_lt_transitive(a, b, a);
    }
}

/// Whether the record at `i` comes before the record at `j`.
pub fn index_before(folders: &Vec<ScannedFolder>, i: usize, j: usize) -> (first: bool)
    requires
        i < folders@.len(),
        j < folders@.len(),
    ensures
        first == comes_first(models_of(folders@), i as int, j as int),
{
    proof {
        lemma_path_lt_irreflexive(folders@[i as int].path@);
    }
    match folders[i].path.relation(&folders[j].path) {
        PathRelation::Before => true,
        PathRelation::Same => i < j,
        PathRelation::After => {
            proof {
                let a = folders@[i as int].path@;
                let b = folders@[j as int].path@;
                if a.lt(b) {
                    lemma_path_lt_transitive(a, b, a);
                }
            }
            false
        },
    }
}

/// Two sorted runs of places, merged into one.
fn merge(folders: &Vec<ScannedFolder>, left: &Vec<usize>, right: &Vec<usize>) -> (out: Vec<usize>)
    requires
        in_order(models_of(folders@), left@),
        in_order(models_of(folders@), right@),
        in_range(models_of(folders@), left@),
        in_range(models_of(folders@), right@),
        forall|a: int, b: int|
            0 <= a < left@.len() && 0 <= b < right@.len() ==> left@[a] != right@[b],
    ensures
        in_order(models_of(folders@), out@),
        in_range(models_of(folders@), out@),
        out@.len() == left@.len() + right@.len(),
        forall|x: usize| out@.contains(x) <==> left@.contains(x) || right@.contains(x),
{
    let ghost all = models_of(folders@);
    let n = left.len();
    let m = right.len();
    let mut out: Vec<usize> = Vec::new();
    let mut i: usize = 0;
    let mut j: usize = 0;
    while i < n || j < m
        invariant
            i <= n,
            j <= m,
            n == left@.len(),
            m == right@.len(),
            all == models_of(folders@),
            in_order(all, left@),
            in_order(all, right@),
            in_range(all, left@),
            in_range(all, right@),
            forall|a: int, b: int|
                0 <= a < left@.len() && 0 <= b < right@.len() ==> left@[a] != right@[b],
            out@.len() == i + j,
            in_order(all, out@),
            in_range(all, out@),
            forall|c: int, a: int|
                0 <= c < out@.len() && i <= a < n ==> comes_first(
                    all,
                    #[trigger] out@[c] as int,
                    #[trigger] left@[a] as int,
                ),
            forall|c: int, b: int|
                0 <= c < out@.len() && j <= b < m ==> comes_first(
                    all,
                    #[trigger] out@[c] as int,
                    #[trigger] right@[b] as int,
                ),
            forall|x: usize|
                out@.contains(x) <==> left@.take(i as int).contains(x) || right@.take(
                    j as int,
                ).contains(x),
        decreases (n - i) + (m - j),
    {
        let ghost before = out@;
        let take_left = if i == n {
            false
        } else if j == m {
            true
        } else {
            index_before(folders, left[i], right[j])
        };
        if take_left {
            let x = left[i];
            proof {
                if j < m {
                    assert forall|b: int| j <= b < m implies comes_first(
                        all,
                        x as int,
                        #[trigger] right@[b] as int,
                    ) by {
                        if b > j {
                            assert(comes_first(all, right@[j as int] as int, right@[b] as int));
                            lemma_comes_first_transitive(
                                all,
                                x as int,
                                right@[j as int] as int,
                                right@[b] as int,
                            );
                        }
                    }
                }
            }
            out.push(x);
            proof {
                assert forall|y: usize|
                    out@.contains(y) <==> left@.take(i + 1).contains(y) || right@.take(
                        j as int,
                    ).contains(y) by {
                    lemma_contains_push(before, x, y);
                    lemma_contains_take_next(left@, i as int, y);
                }
            }
            i += 1;
        } else {
            let x = right[j];
            proof {
                if i < n {
                    assert(left@[i as int] != right@[j as int]);
                    lemma_comes_first_total(all, left@[i as int] as int, x as int);
                    assert forall|a: int| i <= a < n implies comes_first(
                        all,
                        x as int,
                        #[trigger] left@[a] as int,
                    ) by {
                        if a > i {
                            assert(comes_first(all, left@[i as int] as int, left@[a] as int));
                            lemma_comes_first_transitive(
                                all,
                                x as int,
                                left@[i as int] as int,
                                left@[a] as int,
                            );
                        }
                    }
                }
            }
            out.push(x);
            proof {
                assert forall|y: usize|
                    out@.contains(y) <==> left@.take(i as int).contains(y) || right@.take(
                        j + 1,
                    ).contains(y) by {
                    lemma_contains_push(before, x, y);
                    lemma_contains_take_next(right@, j as int, y);
                }
            }
            j += 1;
        }
    }
    proof {
        assert(left@.take(n as int) =~= left@);
        assert(right@.take(m as int) =~= right@);
    }
    out
}

/// A list with one more value holds what it held and the value.
proof fn lemma_contains_push(s: Seq<usize>, x: usize, y: usize)
    ensures
        s.push(x).contains(y) <==> s.contains(y) || y == x,
{
    let t = s.push(x);
    if s.contains(y) {
        let k = choose|k: int| 0 <= k < s.len() && s[k] == y;
        assert(t[k] == y);
    }
    if y == x {
        assert(t[s.len() as int] == y);
    }
    if t.contains(y) {
        let k = choose|k: int| 0 <= k < t.len() && t[k] == y;
        if k < s.len() {
            assert(s[k] == y);
        }
    }
}

/// The first `k + 1` values of a list are its first `k` and the next one.
proof fn lemma_contains_take_next(s: Seq<usize>, k: int, y: usize)
    requires
        0 <= k < s.len(),
    ensures
        s.take(k + 1).contains(y) <==> s.take(k).contains(y) || y == s[k],
{
    assert(s.take(k + 1) =~= s.take(k).push(s[k]));
    lemma_contains_push(s.take(k), s[k], y);
}

/// The places of `items` in the order of their records.
fn sort_places(folders: &Vec<ScannedFolder>, items: Vec<usize>) -> (out: Vec<usize>)
    requires
        in_range(models_of(folders@), items@),
        items@.no_duplicates(),
    ensures
        in_order(models_of(folders@), out@),
        in_range(models_of(folders@), out@),
        out@.len() == items@.len(),
        forall|x: usize| out@.contains(x) <==> items@.contains(x),
    decreases items@.len(),
{
    let n = items.len();
    if n <= 1 {
        return items;
    }
    let ghost all = items@;
    let mut left = items;
    let right = left.split_off(n / 2);
    proof {
        assert(left@ =~= all.take((n / 2) as int));
        assert(right@ =~= all.skip((n / 2) as int));
        assert forall|a: int, b: int| 0 <= a < left@.len() && 0 <= b < right@.len() implies left@[a]
            != right@[b] by {
            assert(left@[a] == all[a] && right@[b] == all[n / 2 + b]);
        }
        assert(left@.no_duplicates());
        assert(right@.no_duplicates()) by {
            assert forall|a: int, b: int|
                0 <= a < right@.len() && 0 <= b < right@.len() && a != b implies right@[a]
                != right@[b] by {
                assert(right@[a] == all[n / 2 + a] && right@[b] == all[n / 2 + b]);
            }
        }
    }
    let ghost left_all = left@;
    let ghost right_all = right@;
    let sorted_left = sort_places(folders, left);
    let sorted_right = sort_places(folders, right);
    proof {
        assert forall|a: int, b: int|
            0 <= a < sorted_left@.len() && 0 <= b < sorted_right@.len() implies sorted_left@[a]
            != sorted_right@[b] by {
            assert(sorted_left@.contains(sorted_left@[a]));
            assert(sorted_right@.contains(sorted_right@[b]));
            let x = choose|x: int| 0 <= x < left_all.len() && left_all[x] == sorted_left@[a];
            let y = choose|y: int| 0 <= y < right_all.len() && right_all[y] == sorted_right@[b];
            assert(left_all[x] != right_all[y]);
        }
    }
    let out = merge(folders, &sorted_left, &sorted_right);
    proof {
        assert forall|x: usize| out@.contains(x) <==> all.contains(x) by {
            if all.contains(x) {
                let k = choose|k: int| 0 <= k < all.len() && all[k] == x;
                if k < n / 2 {
                    assert(left_all[k] == x);
                } else {
                    assert(right_all[k - n / 2] == x);
                }
            }
            if left_all.contains(x) {
                let k = choose|k: int| 0 <= k < left_all.len() && left_all[k] == x;
                assert(all[k] == x);
            }
            if right_all.contains(x) {
                let k = choose|k: int| 0 <= k < right_all.len() && right_all[k] == x;
                assert(all[n / 2 + k] == x);
            }
        }
    }
    out
}

/// The places of all records, in the order of the records: each place
/// once, sorted by path, and places of the same path in rising order.
pub fn sorted_places(folders: &Vec<ScannedFolder>) -> (order: Vec<usize>)
    ensures
        in_order(models_of(folders@), order@),
        in_range(models_of(folders@), order@),
        order@.len() == folders@.len(),
        forall|x: usize| x < folders@.len() ==> #[trigger] order@.contains(x),
{
    let n = folders.len();
    let mut places: Vec<usize> = Vec::new();
    let mut i: usize = 0;
    while i < n
        invariant
            i <= n,
            n == folders@.len(),
            places@.len() == i,
            forall|k: int| 0 <= k < i ==> places@[k] == k,
        decreases n - i,
    {
        places.push(i);
        i += 1;
    }
    proof {
        assert forall|x: usize| x < n implies #[trigger] places@.contains(x) by {
            assert(places@[x as int] == x);
        }
    }
    sort_places(folders, places)
}

} // verus!
