//! Sequence-level laws relating the list operations.

use vstd::prelude::*;

verus! {

/// Inserting a value at a valid position of a sequence and then removing the
/// element at the same position restores the original sequence; in between,
/// the inserted value stands at that position and the length has grown by
/// exactly one.  This is the abstract face of performing `insert_at(i, x)`
/// and then `remove_at(i)` on a list whose value is `s`.
pub proof fn lemma_insert_then_remove_roundtrip<T>(s: Seq<T>, i: int, x: T)
    requires
        0 <= i <= s.len(),
    ensures
        s.insert(i, x).remove(i) == s,
        s.insert(i, x)[i] == x,
        s.insert(i, x).len() == s.len() + 1,
        forall|j: int| 0 <= j < i ==> s.insert(i, x)[j] == s[j],
        forall|j: int| i <= j < s.len() ==> s.insert(i, x)[j + 1] == s[j],
{
    s.insert_ensures(i, x);
    s.insert(i, x).remove_ensures(i);
    assert(s.insert(i, x).remove(i) =~= s);
}

} // verus!
