//! Sequences in which nothing stands twice.

use vstd::prelude::*;

verus! {

/// Where nothing stands twice, each item is found at its own index.
pub proof fn lemma_index_of<A>(s: Seq<A>, i: int)
    requires
        s.no_duplicates(),
        0 <= i < s.len(),
    ensures
        s.contains(s[i]),
        s.index_of(s[i]) == i,
{
    assert(s.contains(s[i]));
    let j = s.index_of(s[i]);
    assert(s[j] == s[i]);
}

/// A new item keeps a sequence free of duplicates, and leaves each old item where it was.
pub proof fn lemma_push_fresh<A>(s: Seq<A>, x: A)
    requires
        s.no_duplicates(),
        !s.contains(x),
    ensures
        s.push(x).no_duplicates(),
        s.push(x).contains(x),
        s.push(x).index_of(x) == s.len(),
        forall|y: A| s.contains(y) ==> s.push(x).contains(y) && s.push(x).index_of(y) == s.index_of(y),
        forall|y: A| s.push(x).contains(y) ==> s.contains(y) || y == x,
{
    let t = s.push(x);
    assert forall|i: int, j: int| 0 <= i < t.len() && 0 <= j < t.len() && i != j implies t[i]
        != t[j] by {
        if i < s.len() {
            assert(s.contains(s[i]));
        }
        if j < s.len() {
            assert(s.contains(s[j]));
        }
    }
    assert(t[s.len() as int] == x);
    lemma_index_of(t, s.len() as int);
    assert forall|y: A| s.contains(y) implies t.contains(y) && t.index_of(y) == s.index_of(y) by {
        let i = s.index_of(y);
        assert(s[i] == y);
        assert(t[i] == y);
        lemma_index_of(t, i);
    }
    assert forall|y: A| t.contains(y) implies s.contains(y) || y == x by {
        let i = t.index_of(y);
        assert(t[i] == y);
        if i < s.len() {
            assert(s[i] == y);
        }
    }
}

} // verus!
