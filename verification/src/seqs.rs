//! Facts about sequences that the proofs of this library share.

use vstd::prelude::*;

verus! {

/// Filtering and mapping two sequences one after the other is filtering
/// and mapping their concatenation.
pub proof fn lemma_filter_map_concat<A, B>(
    first: Seq<A>,
    second: Seq<A>,
    f: spec_fn(A) -> Option<B>,
)
    ensures
        (first + second).filter_map(f) == first.filter_map(f) + second.filter_map(f),
    decreases second.len(),
{
    if second.len() == 0 {
        assert(first + second =~= first);
        assert(first.filter_map(f) + second.filter_map(f) =~= first.filter_map(f));
    } else {
        let init = second.drop_last();
        lemma_filter_map_concat(first, init, f);
        assert((first + second).drop_last() =~= first + init);
        assert((first + second).last() == second.last());
        assert((first + second).filter_map(f) =~= first.filter_map(f) + second.filter_map(f));
    }
}

/// Filtering and mapping a sequence of one element yields the element's
/// image, if it has one.
pub proof fn lemma_filter_map_one<A, B>(x: A, f: spec_fn(A) -> Option<B>)
    ensures
        seq![x].filter_map(f) == match f(x) {
            Some(y) => seq![y],
            None => Seq::empty(),
        },
{
    assert(seq![x].drop_last() =~= Seq::<A>::empty());
    assert(Seq::<A>::empty().filter_map(f) =~= Seq::<B>::empty());
    assert(seq![x].filter_map(f) =~= match f(x) {
        Some(y) => seq![y],
        None => Seq::empty(),
    });
}

} // verus!
