//! Order-preserving removal of repeats, shared by the listings that report
//! each item once.
use vstd::prelude::*;

verus! {

/// `s` with every repeat after an item's first occurrence removed.
pub open spec fn first_occurrences<A>(s: Seq<A>) -> Seq<A>
    decreases s.len(),
{
    if s.len() == 0 {
        seq![]
    } else {
        let d = first_occurrences(s.drop_last());
        if d.contains(s.last()) {
            d
        } else {
            d.push(s.last())
        }
    }
}

/// What a pushed sequence contains.
pub proof fn lemma_push_contains<A>(s: Seq<A>, x: A, g: A)
    ensures
        s.push(x).contains(g) <==> (s.contains(g) || g == x),
{
    if s.contains(g) {
        let j = choose|j: int| 0 <= j < s.len() && s[j] == g;
        assert(s.push(x)[j] == g);
    }
    if g == x {
        assert(s.push(x)[s.len() as int] == g);
    }
    if s.push(x).contains(g) && g != x {
        let j = choose|j: int| 0 <= j < s.push(x).len() && s.push(x)[j] == g;
        assert(s[j] == g);
    }
}

/// The first occurrences hold every item of `s` exactly once.
pub proof fn lemma_first_occurrences<A>(s: Seq<A>)
    ensures
        first_occurrences(s).no_duplicates(),
        forall|x: A| #[trigger] first_occurrences(s).contains(x) <==> s.contains(x),
    decreases s.len(),
{
    if s.len() > 0 {
        let t = s.drop_last();
        lemma_first_occurrences(t);
        assert forall|x: A| #[trigger] s.contains(x) <==> (t.contains(x) || x == s.last()) by {
            assert(s =~= t.push(s.last()));
            lemma_push_contains(t, s.last(), x);
        }
        let d = first_occurrences(t);
        if !d.contains(s.last()) {
            assert forall|x: A| #[trigger] d.push(s.last()).contains(x) <==> (d.contains(x) || x == s.last()) by {
                lemma_push_contains(d, s.last(), x);
            }
            assert forall|i: int, j: int|
                0 <= i < d.push(s.last()).len() && 0 <= j < d.push(s.last()).len() && i != j implies
                d.push(s.last())[i] != d.push(s.last())[j] by {
                if i == d.len() as int {
                    assert(d[j] != s.last());
                } else if j == d.len() as int {
                    assert(d[i] != s.last());
                }
            }
        }
    }
}

} // verus!
