//! Lists as the contracts speak of them.

use vstd::prelude::*;

verus! {

/// The values of a list, each as the contracts speak of it.
pub open spec fn models_of<T: View>(s: Seq<T>) -> Seq<T::V> {
    Seq::new(s.len(), |i: int| s[i]@)
}

/// The models of two lists laid end to end.
pub proof fn lemma_models_concat<T: View>(a: Seq<T>, b: Seq<T>)
    ensures
        models_of(a + b) == models_of(a) + models_of(b),
{
    assert(models_of(a + b) =~= models_of(a) + models_of(b));
}

} // verus!
