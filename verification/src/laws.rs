//! What holds of the queue across calls, stated over the buffers that the
//! contracts of `put`, `pop`, `from` and `into_sorted_vec` speak of.

use crate::heap::{
    after_extract, extraction_order, in_order, inserted, inserted_all, is_heap, left_index,
    lemma_after_extract_permutes, lemma_extraction_ascending, lemma_inserted_all_is_heap,
    lemma_inserted_all_permutes, lemma_inserted_permutes, right_index,
};
use crate::order::{
    ascending, at_most, comparable, lawful_among, lemma_not_greater, lemma_part_is_comparable,
    lemma_part_is_within, lemma_within_own_scores, mutually_comparable, scores_of,
};
use crate::seqs::lemma_empty_holds_nothing;
use crate::sort::{lemma_sorted_ascending, lemma_sorted_permutes, sorted_by_score};
use vstd::prelude::*;

verus! {

/// One call on a queue: an entry put in, or an extraction.
pub enum Step<S, T> {
    Put(S, T),
    Pop,
}

/// The buffer after `steps` have been applied to `s`, first to last.
pub open spec fn after_steps<S: PartialOrd, T>(s: Seq<(S, T)>, steps: Seq<Step<S, T>>) -> Seq<
    (S, T),
>
    decreases steps.len(),
{
    if steps.len() == 0 {
        s
    } else {
        let before = after_steps(s, steps.drop_last());
        match steps.last() {
            Step::Put(score, item) => inserted(before, (score, item)),
            Step::Pop => after_extract(before),
        }
    }
}

/// How many of `steps` put an entry in.
pub open spec fn puts<S, T>(steps: Seq<Step<S, T>>) -> nat
    decreases steps.len(),
{
    if steps.len() == 0 {
        0
    } else {
        puts(steps.drop_last()) + if steps.last() is Pop {
            0nat
        } else {
            1nat
        }
    }
}

/// How many of `steps`, applied to `s`, extract from a buffer that holds an
/// entry. An extraction from an empty buffer yields nothing and counts for
/// nothing.
pub open spec fn extractions<S: PartialOrd, T>(s: Seq<(S, T)>, steps: Seq<Step<S, T>>) -> nat
    decreases steps.len(),
{
    if steps.len() == 0 {
        0
    } else {
        extractions(s, steps.drop_last()) + if steps.last() is Pop && after_steps(
            s,
            steps.drop_last(),
        ).len() > 0 {
            1nat
        } else {
            0nat
        }
    }
}

/// Heap order after any sequence of insertions: whatever entries are put
/// into an empty queue, and in whatever order, every node of the buffer is
/// then in order with its parent, as far as the two scores can be compared.
/// The scores put in have to be lawful among themselves.
pub proof fn law_insertions_keep_heap_order<S: PartialOrd, T>(entries: Seq<(S, T)>)
    requires
        lawful_among(entries),
    ensures
        is_heap(inserted_all(Seq::<(S, T)>::empty(), entries)),
        ({
            let held = inserted_all(Seq::<(S, T)>::empty(), entries);
            forall|i: int, c: int|
                0 <= i && c < held.len() && (c == left_index(i) || c == right_index(i))
                    && comparable(#[trigger] held[i].0, #[trigger] held[c].0) ==> at_most(
                    held[i].0,
                    held[c].0,
                )
        }),
{
    let held = inserted_all(Seq::<(S, T)>::empty(), entries);
    lemma_within_own_scores(entries);
    lemma_inserted_all_is_heap(scores_of(entries), Seq::<(S, T)>::empty(), entries);
    assert forall|i: int, c: int|
        0 <= i && c < held.len() && (c == left_index(i) || c == right_index(i)) && comparable(
            held[i].0,
            held[c].0,
        ) implies at_most(#[trigger] held[i].0, #[trigger] held[c].0) by {
        assert(in_order(held, c));
        lemma_not_greater(held[i].0, held[c].0);
    }
}

/// Length accounting: after any sequence of calls the queue holds as many
/// entries as it held before, plus one for each entry put in, less one for
/// each extraction that yielded an entry.
pub proof fn law_length_accounting<S: PartialOrd, T>(s: Seq<(S, T)>, steps: Seq<Step<S, T>>)
    ensures
        extractions(s, steps) <= s.len() + puts(steps),
        after_steps(s, steps).len() == s.len() + puts(steps) - extractions(s, steps),
    decreases steps.len(),
{
    if steps.len() > 0 {
        let before = after_steps(s, steps.drop_last());
        law_length_accounting(s, steps.drop_last());
        match steps.last() {
            Step::Put(score, item) => {
                lemma_inserted_permutes(before, (score, item));
            },
            Step::Pop => {
                if before.len() > 0 {
                    lemma_after_extract_permutes(before);
                }
            },
        }
    }
}

/// Round trip through sorting: entries with lawful, mutually comparable
/// scores that are put into an empty queue come out of `into_sorted_vec`
/// ascending by score, each of them once.
pub proof fn law_sorted_round_trip<S: PartialOrd, T>(entries: Seq<(S, T)>)
    requires
        lawful_among(entries),
        mutually_comparable(entries),
    ensures
        sorted_by_score(inserted_all(Seq::<(S, T)>::empty(), entries)).len() == entries.len(),
        sorted_by_score(inserted_all(Seq::<(S, T)>::empty(), entries)).to_multiset()
            == entries.to_multiset(),
        ascending(sorted_by_score(inserted_all(Seq::<(S, T)>::empty(), entries))),
{
    broadcast use vstd::multiset::group_multiset_axioms;

    let empty = Seq::<(S, T)>::empty();
    let held = inserted_all(empty, entries);
    lemma_inserted_all_permutes(empty, entries);
    lemma_empty_holds_nothing(empty);
    assert(held.to_multiset() =~= entries.to_multiset());
    lemma_part_is_comparable(held, entries);
    lemma_within_own_scores(entries);
    lemma_part_is_within(held, entries, scores_of(entries));
    lemma_sorted_permutes(held);
    lemma_sorted_ascending(scores_of(entries), held);
}

/// Extraction in ascending order: entries with lawful, mutually comparable
/// scores that are put into an empty queue, by `from` or one by one, come out
/// of repeated extraction ascending by score, each of them once.
pub proof fn law_extraction_ascending<S: PartialOrd, T>(entries: Seq<(S, T)>)
    requires
        lawful_among(entries),
        mutually_comparable(entries),
    ensures
        extraction_order(inserted_all(Seq::<(S, T)>::empty(), entries)).len() == entries.len(),
        extraction_order(inserted_all(Seq::<(S, T)>::empty(), entries)).to_multiset()
            == entries.to_multiset(),
        ascending(extraction_order(inserted_all(Seq::<(S, T)>::empty(), entries))),
{
    broadcast use vstd::multiset::group_multiset_axioms;

    let empty = Seq::<(S, T)>::empty();
    let held = inserted_all(empty, entries);
    lemma_inserted_all_permutes(empty, entries);
    lemma_empty_holds_nothing(empty);
    assert(held.to_multiset() =~= entries.to_multiset());
    lemma_part_is_comparable(held, entries);
    lemma_within_own_scores(entries);
    lemma_part_is_within(held, entries, scores_of(entries));
    lemma_inserted_all_is_heap(scores_of(entries), empty, entries);
    lemma_extraction_ascending(scores_of(entries), held);
}

} // verus!
