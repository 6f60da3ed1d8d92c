//! Lexicographic order on sequences, over any strict total order of their
//! elements, and the proof that it is a strict total order again.

use vstd::prelude::*;

verus! {

/// `lt` is irreflexive, transitive, and holds one way or the other of any two
/// different values.
pub open spec fn strict_total<T>(lt: spec_fn(T, T) -> bool) -> bool {
    &&& forall|x: T| !#[trigger] lt(x, x)
    &&& forall|x: T, y: T, z: T| #[trigger] lt(x, y) && #[trigger] lt(y, z) ==> lt(x, z)
    &&& forall|x: T, y: T| x == y || #[trigger] lt(x, y) || lt(y, x)
}

/// `a` and `b` agree on their first `k` elements, and at `k` either `a` ends
/// while `b` goes on, or `a` holds the smaller element.
pub open spec fn lex_witness<T>(lt: spec_fn(T, T) -> bool, a: Seq<T>, b: Seq<T>, k: int) -> bool {
    &&& 0 <= k <= a.len()
    &&& k <= b.len()
    &&& forall|i: int| 0 <= i < k ==> a[i] == b[i]
    &&& (k == a.len() && k < b.len()) || (k < a.len() && k < b.len() && lt(a[k], b[k]))
}

/// `a` comes strictly before `b` in lexicographic order.
pub open spec fn lex_lt<T>(lt: spec_fn(T, T) -> bool, a: Seq<T>, b: Seq<T>) -> bool {
    exists|k: int| #[trigger] lex_witness(lt, a, b, k)
}

/// Lexicographic order is irreflexive.
pub proof fn lemma_lex_irreflexive<T>(lt: spec_fn(T, T) -> bool, a: Seq<T>)
    requires
        strict_total(lt),
    ensures
        !lex_lt(lt, a, a),
{
    if lex_lt(lt, a, a) {
        let k = choose|k: int| #[trigger] lex_witness(lt, a, a, k);
        assert(lt(a[k], a[k]));
    }
}

/// Lexicographic order is transitive.
pub proof fn lemma_lex_transitive<T>(lt: spec_fn(T, T) -> bool, a: Seq<T>, b: Seq<T>, c: Seq<T>)
    requires
        strict_total(lt),
        lex_lt(lt, a, b),
        lex_lt(lt, b, c),
    ensures
        lex_lt(lt, a, c),
{
    let k1 = choose|k: int| #[trigger] lex_witness(lt, a, b, k);
    let k2 = choose|k: int| #[trigger] lex_witness(lt, b, c, k);
    let k = if k1 <= k2 { k1 } else { k2 };
    assert forall|i: int| 0 <= i < k implies a[i] == c[i] by {
        assert(a[i] == b[i]);
        assert(b[i] == c[i]);
    }
    if k1 < k2 {
        assert(b[k1] == c[k1]);
    } else if k2 < k1 {
        assert(a[k2] == b[k2]);
    } else {
        if k1 < a.len() && k2 < b.len() && k2 < c.len() {
            assert(lt(a[k], b[k]) && lt(b[k], c[k]));
        }
    }
    assert(lex_witness(lt, a, c, k));
}

/// Two sequences that agree before `k` are equal, or one comes before the
/// other.
proof fn lemma_lex_total_from<T>(lt: spec_fn(T, T) -> bool, a: Seq<T>, b: Seq<T>, k: int)
    requires
        strict_total(lt),
        0 <= k <= a.len(),
        k <= b.len(),
        forall|i: int| 0 <= i < k ==> a[i] == b[i],
    ensures
        a == b || lex_lt(lt, a, b) || lex_lt(lt, b, a),
    decreases a.len() - k,
{
    if k == a.len() && k == b.len() {
        assert(a =~= b);
    } else if k == a.len() {
        assert(lex_witness(lt, a, b, k));
    } else if k == b.len() {
        assert(lex_witness(lt, b, a, k));
    } else if a[k] == b[k] {
        lemma_lex_total_from(lt, a, b, k + 1);
    } else if lt(a[k], b[k]) {
        assert(lex_witness(lt, a, b, k));
    } else {
        assert(lt(b[k], a[k]));
        assert(lex_witness(lt, b, a, k));
    }
}

/// Of two different sequences one comes before the other.
pub proof fn lemma_lex_total<T>(lt: spec_fn(T, T) -> bool, a: Seq<T>, b: Seq<T>)
    requires
        strict_total(lt),
    ensures
        a == b || lex_lt(lt, a, b) || lex_lt(lt, b, a),
{
    lemma_lex_total_from(lt, a, b, 0);
}

/// Lexicographic order over a strict total order is a strict total order.
pub proof fn lemma_lex_strict_total<T>(lt: spec_fn(T, T) -> bool)
    requires
        strict_total(lt),
    ensures
        strict_total(|a: Seq<T>, b: Seq<T>| lex_lt(lt, a, b)),
{
    let lifted = |a: Seq<T>, b: Seq<T>| lex_lt(lt, a, b);
    assert forall|x: Seq<T>| !#[trigger] lifted(x, x) by {
        lemma_lex_irreflexive(lt, x);
    }
    assert forall|x: Seq<T>, y: Seq<T>, z: Seq<T>| #[trigger] lifted(x, y) && #[trigger] lifted(
        y,
        z,
    ) implies lifted(x, z) by {
        lemma_lex_transitive(lt, x, y, z);
    }
    assert forall|x: Seq<T>, y: Seq<T>| x == y || #[trigger] lifted(x, y) || lifted(y, x) by {
        lemma_lex_total(lt, x, y);
    }
}

} // verus!
