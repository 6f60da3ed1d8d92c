//! Sorting by rank. A type says which of two values may stand first; the
//! sorted form of a list is then fixed: each value stands behind all that may
//! stand before it, so values of equal rank keep the order they came in.

use crate::seqs::models_of;
use vstd::prelude::*;

verus! {

/// A type whose values have a rank. The rank is read off the value as the
/// contracts speak of it.
pub trait Ranked: View + Sized {
    /// `a` may stand before `b`: it ranks at least as high.
    spec fn before(a: Self::V, b: Self::V) -> bool;

    /// Whether `self` may stand before `other`.
    fn is_before(&self, other: &Self) -> (first: bool)
        ensures
            first == Self::before(self@, other@),
    ;

    /// Of any two values one may stand before the other.
    proof fn lemma_total(a: Self::V, b: Self::V)
        ensures
            Self::before(a, b) || Self::before(b, a),
    ;

    /// What may stand before a value may stand before all that the value may
    /// stand before.
    proof fn lemma_transitive(a: Self::V, b: Self::V, c: Self::V)
        requires
            Self::before(a, b),
            Self::before(b, c),
        ensures
            Self::before(a, c),
    ;
}

/// Each value of `s` may stand before all that follow it.
pub open spec fn is_ranked<T: Ranked>(s: Seq<T::V>) -> bool {
    forall|i: int, j: int| 0 <= i < j < s.len() ==> T::before(#[trigger] s[i], #[trigger] s[j])
}

/// The number of values at the head of `s` that may stand before `x`.
pub open spec fn slot<T: Ranked>(s: Seq<T::V>, x: T::V) -> int
    decreases s.len(),
{
    if s.len() == 0 || !T::before(s[0], x) {
        0
    } else {
        1 + slot::<T>(s.drop_first(), x)
    }
}

/// `s` with `x` put behind the values at its head that may stand before it.
pub open spec fn insert_ranked<T: Ranked>(s: Seq<T::V>, x: T::V) -> Seq<T::V> {
    s.insert(slot::<T>(s, x), x)
}

/// `s` sorted by rank: its values put in one by one, in the order they came.
pub open spec fn ranked<T: Ranked>(s: Seq<T::V>) -> Seq<T::V>
    decreases s.len(),
{
    if s.len() == 0 {
        Seq::empty()
    } else {
        insert_ranked::<T>(ranked::<T>(s.drop_last()), s.last())
    }
}

/// The first `k` values of `s`, or all of them where there are fewer.
pub open spec fn head<A>(s: Seq<A>, k: int) -> Seq<A> {
    if k < s.len() {
        s.take(k)
    } else {
        s
    }
}

/// The slot of `x` is the one place `p` such that all before it may stand
/// before `x` and the value at it, if there is one, may not.
pub proof fn lemma_slot<T: Ranked>(s: Seq<T::V>, x: T::V, p: int)
    requires
        0 <= p <= s.len(),
        forall|i: int| 0 <= i < p ==> T::before(#[trigger] s[i], x),
        p == s.len() || !T::before(s[p], x),
    ensures
        slot::<T>(s, x) == p,
    decreases s.len(),
{
    if p > 0 {
        assert(T::before(s[0], x));
        let rest = s.drop_first();
        assert forall|i: int| 0 <= i < p - 1 implies T::before(#[trigger] rest[i], x) by {
            assert(rest[i] == s[i + 1]);
        }
        lemma_slot::<T>(rest, x, p - 1);
    }
}

/// The slot lies within the list, all before it may stand before `x`, and
/// the value at it may not.
pub proof fn lemma_slot_bounds<T: Ranked>(s: Seq<T::V>, x: T::V)
    ensures
        0 <= slot::<T>(s, x) <= s.len(),
        forall|i: int| 0 <= i < slot::<T>(s, x) ==> T::before(#[trigger] s[i], x),
        slot::<T>(s, x) == s.len() || !T::before(s[slot::<T>(s, x)], x),
    decreases s.len(),
{
    if s.len() == 0 || !T::before(s[0], x) {
    } else {
        let rest = s.drop_first();
        lemma_slot_bounds::<T>(rest, x);
        assert forall|i: int| 0 <= i < slot::<T>(s, x) implies T::before(#[trigger] s[i], x) by {
            if i > 0 {
                assert(rest[i - 1] == s[i]);
            }
        }
        if slot::<T>(s, x) < s.len() {
            assert(rest[slot::<T>(rest, x)] == s[slot::<T>(s, x)]);
        }
    }
}

/// Putting a value into a sorted list leaves it sorted.
pub proof fn lemma_insert_keeps_ranked<T: Ranked>(s: Seq<T::V>, x: T::V)
    requires
        is_ranked::<T>(s),
    ensures
        is_ranked::<T>(insert_ranked::<T>(s, x)),
        insert_ranked::<T>(s, x).len() == s.len() + 1,
        insert_ranked::<T>(s, x).to_multiset() == s.to_multiset().insert(x),
{
    lemma_slot_bounds::<T>(s, x);
    let p = slot::<T>(s, x);
    let t = insert_ranked::<T>(s, x);
    assert forall|i: int, j: int| 0 <= i < j < t.len() implies T::before(
        #[trigger] t[i],
        #[trigger] t[j],
    ) by {
        if j < p {
            assert(t[i] == s[i] && t[j] == s[j]);
        } else if j == p {
            assert(t[i] == s[i]);
        } else if i < p {
            assert(t[i] == s[i] && t[j] == s[j - 1]);
        } else if i == p {
            let y = s[j - 1];
            assert(t[j] == y);
            assert(!T::before(s[p], x));
            if !T::before(x, y) {
                T::lemma_total(x, y);
                if p < j - 1 {
                    assert(T::before(s[p], s[j - 1]));
                }
                T::lemma_transitive(s[p], y, x);
            }
        } else {
            assert(t[i] == s[i - 1] && t[j] == s[j - 1]);
        }
    }
    vstd::seq_lib::to_multiset_insert(s, p, x);
}

/// The sorted form of a list is sorted and holds the same values, each as
/// often.
pub proof fn lemma_ranked<T: Ranked>(s: Seq<T::V>)
    ensures
        is_ranked::<T>(ranked::<T>(s)),
        ranked::<T>(s).len() == s.len(),
        ranked::<T>(s).to_multiset() == s.to_multiset(),
    decreases s.len(),
{
    if s.len() == 0 {
        assert(s =~= Seq::empty());
    } else {
        lemma_ranked::<T>(s.drop_last());
        lemma_insert_keeps_ranked::<T>(ranked::<T>(s.drop_last()), s.last());
        assert(s =~= s.drop_last().push(s.last()));
        vstd::seq_lib::lemma_multiset_commutative(s.drop_last(), seq![s.last()]);
        assert(s.drop_last().push(s.last()) =~= s.drop_last() + seq![s.last()]);
        assert(seq![s.last()].to_multiset() =~= vstd::multiset::Multiset::empty().insert(
            s.last(),
        )) by {
            vstd::seq_lib::to_multiset_insert(Seq::<T::V>::empty(), 0, s.last());
            assert(Seq::<T::V>::empty().insert(0, s.last()) =~= seq![s.last()]);
            assert(Seq::<T::V>::empty().to_multiset() =~= vstd::multiset::Multiset::empty()) by {
                broadcast use vstd::seq_lib::group_to_multiset_ensures;

            }
        }
        assert(s.to_multiset() =~= s.drop_last().to_multiset().insert(s.last()));
    }
}

/// The sorted form of a list holds what the list holds.
pub proof fn lemma_ranked_contains<T: Ranked>(s: Seq<T::V>, x: T::V)
    ensures
        ranked::<T>(s).contains(x) <==> s.contains(x),
    decreases s.len(),
{
    if s.len() > 0 {
        let init = s.drop_last();
        let t = ranked::<T>(init);
        lemma_ranked_contains::<T>(init, x);
        lemma_slot_bounds::<T>(t, s.last());
        let p = slot::<T>(t, s.last());
        let r = t.insert(p, s.last());
        if r.contains(x) {
            let k = choose|k: int| 0 <= k < r.len() && r[k] == x;
            if k < p {
                assert(t[k] == x);
            } else if k > p {
                assert(t[k - 1] == x);
            }
            if t.contains(x) {
                let i = choose|i: int| 0 <= i < init.len() && init[i] == x;
                assert(s[i] == x);
            } else {
                assert(s[s.len() - 1] == x);
            }
        }
        if s.contains(x) {
            let i = choose|i: int| 0 <= i < s.len() && s[i] == x;
            if i < s.len() - 1 {
                assert(init[i] == x);
                let k = choose|k: int| 0 <= k < t.len() && t[k] == x;
                if k < p {
                    assert(r[k] == x);
                } else {
                    assert(r[k + 1] == x);
                }
            } else {
                assert(r[p] == x);
            }
        }
    }
}

/// Each value of `s` stands strictly before all that follow it.
pub open spec fn is_strictly_ranked<T: Ranked>(s: Seq<T::V>) -> bool {
    forall|i: int, j: int|
        0 <= i < j < s.len() ==> T::before(#[trigger] s[i], #[trigger] s[j]) && !T::before(
            s[j],
            s[i],
        )
}

/// No two values of `s` in different places have the same rank.
pub open spec fn ranks_differ<T: Ranked>(s: Seq<T::V>) -> bool {
    forall|i: int, j: int|
        0 <= i < s.len() && 0 <= j < s.len() && i != j ==> !(T::before(
            #[trigger] s[i],
            #[trigger] s[j],
        ) && T::before(s[j], s[i]))
}

/// Where no two values have the same rank, the sorted form is strictly
/// sorted.
pub proof fn lemma_ranked_strictly<T: Ranked>(s: Seq<T::V>)
    requires
        ranks_differ::<T>(s),
    ensures
        is_strictly_ranked::<T>(ranked::<T>(s)),
        ranks_differ::<T>(ranked::<T>(s)),
    decreases s.len(),
{
    if s.len() > 0 {
        let init = s.drop_last();
        let x = s.last();
        let t = ranked::<T>(init);
        assert(ranks_differ::<T>(init)) by {
            assert forall|i: int, j: int|
                0 <= i < init.len() && 0 <= j < init.len() && i != j implies !(T::before(
                #[trigger] init[i],
                #[trigger] init[j],
            ) && T::before(init[j], init[i])) by {
                assert(init[i] == s[i] && init[j] == s[j]);
            }
        }
        lemma_ranked_strictly::<T>(init);
        lemma_ranked::<T>(init);
        lemma_insert_keeps_ranked::<T>(t, x);
        lemma_slot_bounds::<T>(t, x);
        let p = slot::<T>(t, x);
        let r = insert_ranked::<T>(t, x);
        assert forall|k: int| 0 <= k < t.len() implies !(T::before(#[trigger] t[k], x)
            && T::before(x, t[k])) by {
            lemma_ranked_contains::<T>(init, t[k]);
            assert(t.contains(t[k]));
            let i = choose|i: int| 0 <= i < init.len() && init[i] == t[k];
            assert(s[i] == t[k]);
            assert(!(T::before(s[i], s[s.len() - 1]) && T::before(s[s.len() - 1], s[i])));
        }
        assert forall|i: int, j: int|
            0 <= i < r.len() && 0 <= j < r.len() && i != j implies !(T::before(
            #[trigger] r[i],
            #[trigger] r[j],
        ) && T::before(r[j], r[i])) by {
            let a = if i < p {
                i
            } else {
                i - 1
            };
            let b = if j < p {
                j
            } else {
                j - 1
            };
            if i == p {
                assert(r[j] == t[b]);
            } else if j == p {
                assert(r[i] == t[a]);
            } else {
                assert(r[i] == t[a] && r[j] == t[b]);
            }
        }
    }
}

/// The head of a sorted list after a value was put in depends on the head
/// of the list alone.
pub proof fn lemma_insert_head<T: Ranked>(s: Seq<T::V>, x: T::V, k: int)
    requires
        0 <= k,
    ensures
        head(insert_ranked::<T>(head(s, k), x), k) == head(insert_ranked::<T>(s, x), k),
{
    if k < s.len() {
        lemma_slot_bounds::<T>(s, x);
        let p = slot::<T>(s, x);
        let h = s.take(k);
        if p < k {
            lemma_slot::<T>(h, x, p);
        } else {
            lemma_slot::<T>(h, x, k);
        }
        assert(head(insert_ranked::<T>(h, x), k) =~= head(insert_ranked::<T>(s, x), k));
    }
}

/// Puts `item` into a sorted list, behind the values that may stand before
/// it.
pub fn insert_sorted<T: Ranked>(sorted: &mut Vec<T>, item: T)
    ensures
        models_of(final(sorted)@) == insert_ranked::<T>(models_of(old(sorted)@), item@),
{
    let n = sorted.len();
    let mut i: usize = 0;
    while i < n && sorted[i].is_before(&item)
        invariant
            i <= n,
            n == sorted@.len(),
            sorted@ == old(sorted)@,
            forall|k: int| 0 <= k < i ==> T::before(#[trigger] models_of(sorted@)[k], item@),
        decreases n - i,
    {
        assert(models_of(sorted@)[i as int] == sorted@[i as int]@);
        i += 1;
    }
    proof {
        if i < n {
            assert(models_of(sorted@)[i as int] == sorted@[i as int]@);
        }
        lemma_slot::<T>(models_of(sorted@), item@, i as int);
    }
    sorted.insert(i, item);
    assert(models_of(sorted@) =~= models_of(old(sorted)@).insert(i as int, item@));
}

/// The values of `items` in reverse.
pub fn reversed<A>(items: Vec<A>) -> (out: Vec<A>)
    ensures
        out@ == items@.reverse(),
{
    let mut items = items;
    let ghost all = items@;
    let mut out: Vec<A> = Vec::new();
    loop
        invariant
            items@.len() + out@.len() == all.len(),
            items@ == all.take(items@.len() as int),
            forall|k: int| 0 <= k < out@.len() ==> out@[k] == all[all.len() - 1 - k],
        ensures
            out@.len() == all.len(),
            forall|k: int| 0 <= k < out@.len() ==> out@[k] == all[all.len() - 1 - k],
        decreases items@.len(),
    {
        match items.pop() {
            Some(x) => {
                out.push(x);
            },
            None => {
                break ;
            },
        }
    }
    assert(out@ =~= all.reverse());
    out
}

/// The values of `items` sorted by rank; values of equal rank keep their
/// order.
pub fn sort_ranked<T: Ranked>(items: Vec<T>) -> (out: Vec<T>)
    ensures
        models_of(out@) == ranked::<T>(models_of(items@)),
        is_ranked::<T>(models_of(out@)),
        out@.len() == items@.len(),
        models_of(out@).to_multiset() == models_of(items@).to_multiset(),
{
    let ghost all = models_of(items@);
    let ghost given = items@;
    let mut rest = reversed(items);
    let mut out: Vec<T> = Vec::new();
    let ghost mut done: int = 0;
    assert(models_of(out@) =~= Seq::<T::V>::empty());
    loop
        invariant
            0 <= done <= given.len(),
            all == models_of(given),
            rest@.len() + done == given.len(),
            rest@ == given.reverse().take(rest@.len() as int),
            models_of(out@) == ranked::<T>(all.take(done)),
        ensures
            models_of(out@) == ranked::<T>(all),
        decreases rest@.len(),
    {
        match rest.pop() {
            Some(x) => {
                proof {
                    assert(x == given[done]);
                    assert(x@ == all[done]);
                    assert(all.take(done + 1).drop_last() =~= all.take(done));
                    done = done + 1;
                }
                insert_sorted(&mut out, x);
            },
            None => {
                proof {
                    assert(all.take(done) =~= all);
                }
                break ;
            },
        }
    }
    proof {
        lemma_ranked::<T>(all);
    }
    out
}

/// The `limit` values of `items` that rank highest, sorted by rank; fewer
/// where `items` holds fewer.
pub fn top_ranked<T: Ranked>(items: Vec<T>, limit: usize) -> (out: Vec<T>)
    ensures
        models_of(out@) == head(ranked::<T>(models_of(items@)), limit as int),
        is_ranked::<T>(models_of(out@)),
        out@.len() <= limit,
        out@.len() <= items@.len(),
{
    let ghost all = models_of(items@);
    let ghost given = items@;
    let mut rest = reversed(items);
    let mut out: Vec<T> = Vec::new();
    let ghost mut done: int = 0;
    assert(models_of(out@) =~= Seq::<T::V>::empty());
    loop
        invariant
            0 <= done <= given.len(),
            all == models_of(given),
            rest@.len() + done == given.len(),
            rest@ == given.reverse().take(rest@.len() as int),
            models_of(out@) == head(ranked::<T>(all.take(done)), limit as int),
        ensures
            models_of(out@) == head(ranked::<T>(all), limit as int),
        decreases rest@.len(),
    {
        match rest.pop() {
            Some(x) => {
                proof {
                    assert(x == given[done]);
                    assert(x@ == all[done]);
                    assert(all.take(done + 1).drop_last() =~= all.take(done));
                    lemma_insert_head::<T>(ranked::<T>(all.take(done)), x@, limit as int);
                    lemma_ranked::<T>(all.take(done));
                    lemma_slot_bounds::<T>(models_of(out@), x@);
                    done = done + 1;
                }
                insert_sorted(&mut out, x);
                if out.len() > limit {
                    let ghost long = models_of(out@);
                    out.truncate(limit);
                    assert(models_of(out@) =~= long.take(limit as int));
                }
            },
            None => {
                proof {
                    assert(all.take(done) =~= all);
                }
                break ;
            },
        }
    }
    proof {
        lemma_ranked::<T>(all);
    }
    out
}

} // verus!
