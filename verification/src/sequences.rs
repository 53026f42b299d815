//! What filtering does to a sequence.

use vstd::prelude::*;
use vstd::seq_lib::{to_multiset_build, to_multiset_len};

verus! {

/// Nothing is left of `s` after filtering where no element passes `test`.
pub(crate) proof fn lemma_filter_none<A>(s: Seq<A>, test: spec_fn(A) -> bool)
    requires
        forall|i: int| 0 <= i < s.len() ==> !test(#[trigger] s[i]),
    ensures
        s.filter(test) == Seq::<A>::empty(),
    decreases s.len(),
{
    reveal(Seq::filter);
    if s.len() > 0 {
        let front = s.drop_last();
        assert forall|i: int| 0 <= i < front.len() implies !test(#[trigger] front[i]) by {
            assert(front[i] == s[i]);
        }
        lemma_filter_none(front, test);
    }
}

/// Filtering a sequence that grew by one element.
pub(crate) proof fn lemma_filter_push<A>(s: Seq<A>, last: A, test: spec_fn(A) -> bool)
    ensures
        s.push(last).filter(test) == if test(last) {
            s.filter(test).push(last)
        } else {
            s.filter(test)
        },
{
    reveal(Seq::filter);
    assert(s.push(last).drop_last() =~= s);
}

/// Filtering keeps every element that passes the test as often as it was
/// there, and nothing else.
pub(crate) proof fn lemma_filter_count<A>(s: Seq<A>, test: spec_fn(A) -> bool, x: A)
    ensures
        s.filter(test).to_multiset().count(x) == if test(x) {
            s.to_multiset().count(x)
        } else {
            0
        },
    decreases s.len(),
{
    if s.len() == 0 {
        lemma_filter_none(s, test);
        to_multiset_len(s);
        to_multiset_len(s.filter(test));
    } else {
        let front = s.drop_last();
        let last = s.last();
        assert(front.push(last) =~= s);
        lemma_filter_count(front, test, x);
        lemma_filter_push(front, last, test);
        to_multiset_build(front, last);
        if test(last) {
            to_multiset_build(front.filter(test), last);
        }
    }
}

} // verus!
