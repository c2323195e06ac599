//! Sequences with an element more.
use vstd::prelude::*;

verus! {

/// What a sequence holds with an element more.
pub proof fn lemma_push_contains<T>(s: Seq<T>, x: T)
    ensures
        forall|y: T| #[trigger] s.push(x).contains(y) <==> y == x || s.contains(y),
{
    assert forall|y: T| #[trigger] s.push(x).contains(y) <==> y == x || s.contains(y) by {
        if s.push(x).contains(y) {
            let i = s.push(x).index_of(y);
            if i < s.len() {
                assert(s[i] == y);
            }
        }
        if s.contains(y) {
            let i = s.index_of(y);
            assert(s.push(x)[i] == y);
        }
        if y == x {
            assert(s.push(x)[s.len() as int] == y);
        }
    }
}

/// An element more that was not there leaves no duplicates.
pub proof fn lemma_push_unique<T>(s: Seq<T>, x: T)
    requires
        s.no_duplicates(),
        !s.contains(x),
    ensures
        s.push(x).no_duplicates(),
{
    let t = s.push(x);
    assert forall|i: int, j: int| 0 <= i < t.len() && 0 <= j < t.len() && i != j implies t[i]
        != t[j] by {
        if i < s.len() {
            assert(t[i] == s[i]);
            assert(s.contains(s[i]));
        }
        if j < s.len() {
            assert(t[j] == s[j]);
            assert(s.contains(s[j]));
        }
    }
}

} // verus!
