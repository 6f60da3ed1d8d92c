//! Sums over sequences of natural numbers, and the facts about them that the
//! totals of a scan rest on.

use vstd::prelude::*;

verus! {

/// The sum of the numbers in `s`.
pub open spec fn sum(s: Seq<nat>) -> nat
    decreases s.len(),
{
    if s.len() == 0 {
        0
    } else {
        sum(s.drop_last()) + s.last()
    }
}

/// Adding a number at the end adds it to the sum.
pub proof fn lemma_sum_push(s: Seq<nat>, x: nat)
    ensures
        sum(s.push(x)) == sum(s) + x,
{
    assert(s.push(x).drop_last() =~= s);
}

/// The sum of the first `k + 1` numbers is the sum of the first `k` and the
/// next one.
pub proof fn lemma_sum_take_next(s: Seq<nat>, k: int)
    requires
        0 <= k < s.len(),
    ensures
        sum(s.take(k + 1)) == sum(s.take(k)) + s[k],
{
    assert(s.take(k + 1).drop_last() =~= s.take(k));
}

/// Taking all of a sequence changes nothing.
pub proof fn lemma_sum_take_all(s: Seq<nat>)
    ensures
        sum(s.take(s.len() as int)) == sum(s),
{
    assert(s.take(s.len() as int) =~= s);
}

/// The sum of two sequences laid end to end is the sum of their sums.
pub proof fn lemma_sum_concat(a: Seq<nat>, b: Seq<nat>)
    ensures
        sum(a + b) == sum(a) + sum(b),
    decreases b.len(),
{
    if b.len() == 0 {
        assert(a + b =~= a);
    } else {
        assert((a + b).drop_last() =~= a + b.drop_last());
        lemma_sum_concat(a, b.drop_last());
    }
}

/// A leading part sums to no more than the whole.
pub proof fn lemma_sum_take_le(s: Seq<nat>, k: int)
    requires
        0 <= k <= s.len(),
    ensures
        sum(s.take(k)) <= sum(s),
{
    assert(s =~= s.take(k) + s.skip(k));
    lemma_sum_concat(s.take(k), s.skip(k));
}

/// Where each number of `a` is at most the one of `b` in its place, the sum
/// of `a` is at most the sum of `b`.
pub proof fn lemma_sum_pointwise_le(a: Seq<nat>, b: Seq<nat>)
    requires
        a.len() == b.len(),
        forall|i: int| 0 <= i < a.len() ==> a[i] <= b[i],
    ensures
        sum(a) <= sum(b),
    decreases a.len(),
{
    if a.len() > 0 {
        lemma_sum_pointwise_le(a.drop_last(), b.drop_last());
    }
}

/// Replacing one number changes the sum by the difference.
pub proof fn lemma_sum_update(s: Seq<nat>, i: int, x: nat)
    requires
        0 <= i < s.len(),
    ensures
        sum(s.update(i, x)) + s[i] == sum(s) + x,
    decreases s.len(),
{
    if i == s.len() - 1 {
        assert(s.update(i, x).drop_last() =~= s.drop_last());
    } else {
        assert(s.update(i, x).drop_last() =~= s.drop_last().update(i, x));
        lemma_sum_update(s.drop_last(), i, x);
    }
}

/// Each number is at most the sum.
pub proof fn lemma_sum_bounds_each(s: Seq<nat>, i: int)
    requires
        0 <= i < s.len(),
    ensures
        s[i] <= sum(s),
    decreases s.len(),
{
    if i < s.len() - 1 {
        lemma_sum_bounds_each(s.drop_last(), i);
    }
}

/// A sum of zeros is zero.
pub proof fn lemma_sum_zeros(s: Seq<nat>)
    requires
        forall|i: int| 0 <= i < s.len() ==> s[i] == 0,
    ensures
        sum(s) == 0,
    decreases s.len(),
{
    if s.len() > 0 {
        lemma_sum_zeros(s.drop_last());
    }
}

/// Taking one number out lowers the sum by it.
pub proof fn lemma_sum_remove(s: Seq<nat>, i: int)
    requires
        0 <= i < s.len(),
    ensures
        sum(s.remove(i)) + s[i] == sum(s),
    decreases s.len(),
{
    if i == s.len() - 1 {
        assert(s.remove(i) =~= s.drop_last());
    } else {
        assert(s.remove(i).drop_last() =~= s.drop_last().remove(i));
        assert(s.remove(i).last() == s.last());
        lemma_sum_remove(s.drop_last(), i);
    }
}

/// The numbers of `values` at the places `picks`, in the order of the picks.
pub open spec fn picked(values: Seq<nat>, picks: Seq<int>) -> Seq<nat> {
    Seq::new(picks.len(), |c: int| values[picks[c]])
}

/// Summing over picked places loses nothing where every place that holds
/// more than zero is picked, and each place is picked at most once.
pub proof fn lemma_sum_picked(values: Seq<nat>, picks: Seq<int>)
    requires
        picks.no_duplicates(),
        forall|c: int| 0 <= c < picks.len() ==> 0 <= #[trigger] picks[c] < values.len(),
        forall|i: int| 0 <= i < values.len() && values[i] > 0 ==> picks.contains(i),
    ensures
        sum(picked(values, picks)) == sum(values),
    decreases values.len(),
{
    if values.len() == 0 {
        assert(picks.len() == 0) by {
            if picks.len() > 0 {
                assert(picks[0] < values.len());
            }
        }
    } else {
        let last = values.len() - 1;
        let fewer = values.drop_last();
        if picks.contains(last) {
            let at = choose|c: int| 0 <= c < picks.len() && picks[c] == last;
            let rest = picks.remove(at);
            assert forall|c: int| 0 <= c < rest.len() implies 0 <= #[trigger] rest[c]
                < fewer.len() by {
                let from = if c < at {
                    c
                } else {
                    c + 1
                };
                assert(rest[c] == picks[from]);
                assert(picks[from] != picks[at]);
            }
            assert(rest.no_duplicates()) by {
                assert forall|a: int, b: int|
                    0 <= a < rest.len() && 0 <= b < rest.len() && a != b implies rest[a]
                    != rest[b] by {
                    let fa = if a < at {
                        a
                    } else {
                        a + 1
                    };
                    let fb = if b < at {
                        b
                    } else {
                        b + 1
                    };
                    assert(rest[a] == picks[fa] && rest[b] == picks[fb]);
                }
            }
            assert forall|i: int| 0 <= i < fewer.len() && fewer[i] > 0 implies rest.contains(
                i,
            ) by {
                assert(values[i] > 0);
                assert(picks.contains(i));
                let c = choose|c: int| 0 <= c < picks.len() && picks[c] == i;
                if c < at {
                    assert(rest[c] == i);
                } else {
                    assert(c != at);
                    assert(rest[c - 1] == i);
                }
            }
            lemma_sum_picked(fewer, rest);
            assert(picked(values, picks).remove(at) =~= picked(fewer, rest)) by {
                assert forall|c: int| 0 <= c < rest.len() implies picked(values, picks).remove(
                    at,
                )[c] == picked(fewer, rest)[c] by {
                    let from = if c < at {
                        c
                    } else {
                        c + 1
                    };
                    assert(rest[c] == picks[from]);
                    assert(rest[c] < fewer.len());
                }
            }
            lemma_sum_remove(picked(values, picks), at);
        } else {
            assert(values[last] == 0);
            assert forall|c: int| 0 <= c < picks.len() implies 0 <= #[trigger] picks[c]
                < fewer.len() by {
                assert(picks.contains(picks[c]));
            }
            assert forall|i: int| 0 <= i < fewer.len() && fewer[i] > 0 implies picks.contains(
                i,
            ) by {
                assert(values[i] > 0);
                assert(picks.contains(i));
            }
            lemma_sum_picked(fewer, picks);
            assert(picked(values, picks) =~= picked(fewer, picks));
        }
    }
}

/// The numbers of `s` from place `from` up to place `to`, and zeros
/// elsewhere.
pub open spec fn block(s: Seq<nat>, from: int, to: int) -> Seq<nat> {
    Seq::new(
        s.len(),
        |t: int|
            if from <= t < to {
                s[t]
            } else {
                0nat
            },
    )
}

/// The sum of a block is the difference of the sums up to its ends.
pub proof fn lemma_sum_block(s: Seq<nat>, from: int, to: int)
    requires
        0 <= from <= to <= s.len(),
    ensures
        sum(block(s, from, to)) + sum(s.take(from)) == sum(s.take(to)),
    decreases s.len(),
{
    if s.len() == 0 {
        assert(s.take(0) =~= s);
    } else {
        let fewer = s.drop_last();
        if to == s.len() {
            assert(s.take(to) =~= s);
            if from == to {
                lemma_sum_zeros(block(s, from, to));
            } else {
                lemma_sum_block(fewer, from, to - 1);
                assert(block(s, from, to).drop_last() =~= block(fewer, from, to - 1));
                assert(fewer.take(from) =~= s.take(from));
                assert(fewer.take(to - 1) =~= fewer);
            }
        } else {
            lemma_sum_block(fewer, from, to);
            assert(block(s, from, to).drop_last() =~= block(fewer, from, to));
            assert(fewer.take(from) =~= s.take(from));
            assert(fewer.take(to) =~= s.take(to));
        }
    }
}

} // verus!
