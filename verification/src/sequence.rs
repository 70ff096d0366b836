//! Parts of sequences: where one sequence stands inside another.
use vstd::prelude::*;

verus! {

/// Whether `part` stands in `whole` from position `at` on.
pub open spec fn occurs_at<A>(whole: Seq<A>, at: int, part: Seq<A>) -> bool {
    &&& 0 <= at
    &&& at + part.len() <= whole.len()
    &&& whole.subrange(at, at + part.len()) == part
}

/// Where `part` stands, its items are the items of `whole`.
pub proof fn lemma_occurs_index<A>(whole: Seq<A>, at: int, part: Seq<A>, i: int)
    requires
        occurs_at(whole, at, part),
        0 <= i < part.len(),
    ensures
        whole[at + i] == part[i],
{
    assert(whole.subrange(at, at + part.len())[i] == whole[at + i]);
}

/// Two parts stand one after the other exactly where their concatenation
/// stands.
pub proof fn lemma_occurs_concat<A>(whole: Seq<A>, at: int, first: Seq<A>, second: Seq<A>)
    ensures
        occurs_at(whole, at, first + second) <==> occurs_at(whole, at, first) && occurs_at(
            whole,
            at + first.len(),
            second,
        ),
{
    let both = first + second;
    let mid = at + first.len();
    if occurs_at(whole, at, both) {
        assert forall|i: int| 0 <= i < first.len() implies whole.subrange(at, mid)[i]
            == first[i] by {
            lemma_occurs_index(whole, at, both, i);
        }
        assert(whole.subrange(at, mid) =~= first);
        assert forall|i: int| 0 <= i < second.len() implies whole.subrange(
            mid,
            mid + second.len(),
        )[i] == second[i] by {
            lemma_occurs_index(whole, at, both, first.len() + i);
        }
        assert(whole.subrange(mid, mid + second.len()) =~= second);
    }
    if occurs_at(whole, at, first) && occurs_at(whole, mid, second) {
        assert forall|i: int| 0 <= i < both.len() implies whole.subrange(at, at + both.len())[i]
            == both[i] by {
            if i < first.len() {
                lemma_occurs_index(whole, at, first, i);
            } else {
                lemma_occurs_index(whole, mid, second, i - first.len());
            }
        }
        assert(whole.subrange(at, at + both.len()) =~= both);
    }
}

/// A sequence stands in itself from the start.
pub proof fn lemma_occurs_whole<A>(whole: Seq<A>)
    ensures
        occurs_at(whole, 0, whole),
{
    assert(whole.subrange(0, whole.len() as int) =~= whole);
}

} // verus!
