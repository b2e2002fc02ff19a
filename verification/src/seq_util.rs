//! Facts about sequences that the proofs of this crate share.
use vstd::prelude::*;

verus! {

/// The elements of the first `i` elements of `s` are those of the first `i - 1` and `s[i - 1]`.
pub proof fn lemma_prefix_to_set<A>(s: Seq<A>, i: int)
    requires
        0 < i <= s.len(),
    ensures
        s.subrange(0, i).to_set() == s.subrange(0, i - 1).to_set().insert(s[i - 1]),
{
    let a = s.subrange(0, i);
    let b = s.subrange(0, i - 1);
    assert forall|x: A| a.to_set().contains(x) <==> b.to_set().insert(s[i - 1]).contains(x) by {
        if a.contains(x) {
            let j = choose|j: int| 0 <= j < a.len() && a[j] == x;
            if j < i - 1 {
                assert(b[j] == x);
            }
        }
        if b.contains(x) {
            let j = choose|j: int| 0 <= j < b.len() && b[j] == x;
            assert(a[j] == x);
        }
        if x == s[i - 1] {
            assert(a[i - 1] == x);
        }
    }
    assert(a.to_set() =~= b.to_set().insert(s[i - 1]));
}

/// An element of a sequence without duplicates is not among the elements before it.
pub proof fn lemma_not_in_prefix<A>(s: Seq<A>, i: int)
    requires
        0 <= i < s.len(),
        s.no_duplicates(),
    ensures
        !s.subrange(0, i).to_set().contains(s[i]),
{
    if s.subrange(0, i).contains(s[i]) {
        let j = choose|j: int| 0 <= j < i && s.subrange(0, i)[j] == s[i];
        assert(s[j] == s[i]);
    }
}

} // verus!
