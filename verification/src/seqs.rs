//! Facts about sequences and what they hold.

use vstd::multiset::{lemma_multiset_empty_len, Multiset};
use vstd::prelude::*;
use vstd::seq_lib::{to_multiset_contains, to_multiset_len, to_multiset_remove, to_multiset_update};

verus! {

/// A sequence without elements holds nothing.
pub proof fn lemma_empty_holds_nothing<E>(s: Seq<E>)
    requires
        s.len() == 0,
    ensures
        s.to_multiset() == Multiset::<E>::empty(),
{
    to_multiset_len(s);
    lemma_multiset_empty_len(s.to_multiset());
}

/// Dropping the last element takes one occurrence of it from what is held.
pub proof fn lemma_drop_last_takes_last<E>(s: Seq<E>)
    requires
        s.len() > 0,
    ensures
        s.contains(s.last()),
        s.drop_last().len() == s.len() - 1,
        s.drop_last().to_multiset() == s.to_multiset().remove(s.last()),
{
    let last = s.len() - 1;
    to_multiset_remove(s, last);
    assert(s.remove(last) =~= s.drop_last());
    assert(s[last] == s.last());
}

/// Putting the last element in the place of the first and dropping the last
/// takes one occurrence of the first from what is held.
pub proof fn lemma_replace_first_takes_first<E>(s: Seq<E>)
    requires
        s.len() > 0,
    ensures
        s.contains(s[0]),
        s.update(0, s.last()).drop_last().len() == s.len() - 1,
        s.update(0, s.last()).drop_last().to_multiset() == s.to_multiset().remove(s[0]),
{
    broadcast use vstd::multiset::group_multiset_axioms;

    let moved = s.update(0, s.last());
    lemma_drop_last_takes_last(moved);
    to_multiset_update(s, 0, s.last());
    to_multiset_contains(s, s[0]);
    to_multiset_contains(s, s.last());
    assert(s.contains(s[0]));
    assert(s.contains(s.last()));
    assert(moved.to_multiset().remove(moved.last()) =~= s.to_multiset().remove(s[0]));
}

} // verus!
