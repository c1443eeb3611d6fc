//! Small sequence facts shared by the store proofs.

use vstd::prelude::*;

verus! {

/// Stepping a prefix: `s.take(i + 1)` is `s.take(i)` with `s[i]` appended.
pub proof fn lemma_take_step<A>(s: Seq<A>, i: int)
    requires
        0 <= i < s.len(),
    ensures
        s.take(i + 1).drop_last() =~= s.take(i),
        s.take(i + 1).last() == s[i],
        s.take(i + 1) =~= s.take(i).push(s[i]),
{
}

/// Taking the whole sequence changes nothing.
pub proof fn lemma_take_all<A>(s: Seq<A>)
    ensures
        s.take(s.len() as int) =~= s,
{
}

/// Pushing onto a vector pushes onto its deep view.
pub proof fn lemma_deep_view_push<T: DeepView>(v1: Vec<T>, v2: Vec<T>, x: T)
    requires
        v2@ == v1@.push(x),
    ensures
        v2.deep_view() =~= v1.deep_view().push(x.deep_view()),
{
    assert forall|i: int| 0 <= i < v2@.len() implies v2.deep_view()[i] == v1.deep_view().push(
        x.deep_view(),
    )[i] by {
        if i < v1@.len() {
            assert(v2@[i] == v1@[i]);
        } else {
            assert(v2@[i] == x);
        }
    }
}

/// Inserting into a vector inserts into its deep view.
pub proof fn lemma_deep_view_insert<T: DeepView>(v1: Vec<T>, v2: Vec<T>, j: int, x: T)
    requires
        0 <= j <= v1@.len(),
        v2@ == v1@.insert(j, x),
    ensures
        v2.deep_view() =~= v1.deep_view().insert(j, x.deep_view()),
{
    assert forall|i: int| 0 <= i < v2@.len() implies v2.deep_view()[i] == v1.deep_view().insert(
        j,
        x.deep_view(),
    )[i] by {
        if i < j {
            assert(v2@[i] == v1@[i]);
        } else if i == j {
            assert(v2@[i] == x);
        } else {
            assert(v2@[i] == v1@[i - 1]);
        }
    }
}

} // verus!
