//! The heap as mathematics: a sequence of entries read as a complete binary
//! tree, what it means for it to be in heap order, and where the two
//! balancing walks leave each entry.

use crate::order::{
    ascending, at_most, comparable, greater, lawful_on, lemma_at_most_excludes,
    lemma_greater_excludes, lemma_less_chain, lemma_never_above_itself, lemma_not_greater,
    lemma_part_is_comparable, lemma_part_is_within, less, mutually_comparable, within,
};
use crate::seqs::{lemma_drop_last_takes_last, lemma_replace_first_takes_first};
use vstd::multiset::Multiset;
use vstd::prelude::*;
use vstd::seq_lib::{to_multiset_build, to_multiset_update};

verus! {

/// The index of the parent of the node at `i`.
pub open spec fn parent_index(i: int) -> int {
    (i - 1) / 2
}

/// The index of the left child of the node at `i`.
pub open spec fn left_index(i: int) -> int {
    2 * i + 1
}

/// The index of the right child of the node at `i`.
pub open spec fn right_index(i: int) -> int {
    2 * i + 2
}

/// `s` with the entries at `i` and `j` exchanged.
pub open spec fn swapped<E>(s: Seq<E>, i: int, j: int) -> Seq<E> {
    s.update(i, s[j]).update(j, s[i])
}

/// The node at `c` does not hold a smaller score than its parent: the two
/// scores are in order, or cannot be compared.
pub open spec fn in_order<S: PartialOrd, T>(s: Seq<(S, T)>, c: int) -> bool {
    !greater(s[parent_index(c)].0, s[c].0)
}

/// Heap order: every node below the root is in order with its parent.
pub open spec fn is_heap<S: PartialOrd, T>(s: Seq<(S, T)>) -> bool {
    forall|c: int| 0 < c < s.len() ==> #[trigger] in_order(s, c)
}

/// Where the walk towards the root leaves the entries: the entry at `i`
/// changes place with its parent for as long as the parent's score is
/// greater. It stops at the root, at a parent that is not greater, and at a
/// parent it cannot be compared with.
pub open spec fn sift_up<S: PartialOrd, T>(s: Seq<(S, T)>, i: int) -> Seq<(S, T)>
    decreases i,
{
    if 0 < i < s.len() && greater(s[parent_index(i)].0, s[i].0) {
        sift_up(swapped(s, parent_index(i), i), parent_index(i))
    } else {
        s
    }
}

/// Among the node at `i` and its children, the index that holds the least
/// score: a child replaces the choice so far only where its score is strictly
/// less, the left child being asked first.
pub open spec fn least_of_three<S: PartialOrd, T>(s: Seq<(S, T)>, i: int) -> int {
    let left = left_index(i);
    let right = right_index(i);
    let first = if left < s.len() && less(s[left].0, s[i].0) {
        left
    } else {
        i
    };
    if right < s.len() && less(s[right].0, s[first].0) {
        right
    } else {
        first
    }
}

/// Where the walk towards the leaves leaves the entries: the entry at `i`
/// changes place with the least of its children for as long as that child's
/// score is strictly less.
pub open spec fn sift_down<S: PartialOrd, T>(s: Seq<(S, T)>, i: int) -> Seq<(S, T)>
    decreases s.len() - i,
{
    if 0 <= i < s.len() && least_of_three(s, i) != i {
        sift_down(swapped(s, i, least_of_three(s, i)), least_of_three(s, i))
    } else {
        s
    }
}

/// `s` after the entry at `i` has changed place with its parent `levels`
/// times over, or as often as there was a parent to change place with.
pub open spec fn raised<E>(s: Seq<E>, i: int, levels: nat) -> Seq<E>
    decreases levels,
{
    if levels == 0 || i <= 0 || i >= s.len() {
        s
    } else {
        raised(swapped(s, parent_index(i), i), parent_index(i), (levels - 1) as nat)
    }
}

/// `s` after the entry at `i` has changed place with a child once for each
/// element of `path`, with the left child where the element is `true` and
/// with the right child where it is `false`, or as often as there was such a
/// child.
pub open spec fn sunk<E>(s: Seq<E>, i: int, path: Seq<bool>) -> Seq<E>
    decreases path.len(),
{
    if path.len() == 0 {
        s
    } else {
        let child = if path[0] {
            left_index(i)
        } else {
            right_index(i)
        };
        if 0 <= i && child < s.len() {
            sunk(swapped(s, i, child), child, path.drop_first())
        } else {
            s
        }
    }
}

/// What putting `entry` into `s` can leave behind, whatever the comparisons
/// of scores answer: the entry is appended and rises some levels towards the
/// root, and nothing else moves but the entries it changes place with.
pub open spec fn insertion_of<E>(s: Seq<E>, entry: E, after: Seq<E>) -> bool {
    exists|levels: nat| after == raised(s.push(entry), s.len() as int, levels)
}

/// What an extraction from a non-empty `s` can yield and leave behind,
/// whatever the comparisons of scores answer: the root is taken and the last
/// entry put in its place, or the last entry is taken, and what then stands
/// at the root sinks along some path towards the leaves.
pub open spec fn extraction_of<E>(s: Seq<E>, entry: E, after: Seq<E>) -> bool {
    ||| entry == s[0] && exists|path: Seq<bool>|
        after == sunk(s.update(0, s.last()).drop_last(), 0, path)
    ||| s.len() > 1 && entry == s.last() && exists|path: Seq<bool>|
        after == sunk(s.drop_last(), 0, path)
}

/// The buffer after `entry` is put into `s`: appended, then walked up.
pub open spec fn inserted<S: PartialOrd, T>(s: Seq<(S, T)>, entry: (S, T)) -> Seq<(S, T)> {
    sift_up(s.push(entry), s.len() as int)
}

/// The root's score cannot be compared with itself and the root is not the
/// only entry: extraction then passes it over.
pub open spec fn root_deferred<S: PartialOrd, T>(s: Seq<(S, T)>) -> bool {
    s.len() > 1 && !comparable(s[0].0, s[0].0)
}

/// The entry that extraction takes from a non-empty `s`: the root, or the
/// last entry where the root is deferred.
pub open spec fn extracted<S: PartialOrd, T>(s: Seq<(S, T)>) -> (S, T) {
    if root_deferred(s) {
        s.last()
    } else {
        s[0]
    }
}

/// The buffer that extraction leaves. Where the root is deferred the last
/// entry goes and the root stays; otherwise the last entry takes the root's
/// place. Either way the root is then walked down.
pub open spec fn after_extract<S: PartialOrd, T>(s: Seq<(S, T)>) -> Seq<(S, T)> {
    if s.len() == 0 {
        s
    } else if root_deferred(s) {
        sift_down(s.drop_last(), 0)
    } else {
        sift_down(s.update(0, s.last()).drop_last(), 0)
    }
}

/// The buffer after each of `entries` is put into `s`, first to last.
pub open spec fn inserted_all<S: PartialOrd, T>(s: Seq<(S, T)>, entries: Seq<(S, T)>) -> Seq<(S, T)>
    decreases entries.len(),
{
    if entries.len() == 0 {
        s
    } else {
        inserted(inserted_all(s, entries.drop_last()), entries.last())
    }
}

/// The entries that come out of `s` when it is extracted from until empty,
/// in the order they come.
pub open spec fn extraction_order<S: PartialOrd, T>(s: Seq<(S, T)>) -> Seq<(S, T)>
    decreases s.len(),
    via extraction_order_decreases::<S, T>
{
    if s.len() == 0 {
        Seq::empty()
    } else {
        seq![extracted(s)] + extraction_order(after_extract(s))
    }
}

#[via_fn]
proof fn extraction_order_decreases<S: PartialOrd, T>(s: Seq<(S, T)>) {
    if s.len() != 0 {
        lemma_after_extract_permutes(s);
    }
}

/// Exchanging two entries changes neither the length nor what is held.
pub proof fn lemma_swapped_permutes<E>(s: Seq<E>, i: int, j: int)
    requires
        0 <= i < s.len(),
        0 <= j < s.len(),
    ensures
        swapped(s, i, j).len() == s.len(),
        swapped(s, i, j).to_multiset() == s.to_multiset(),
{
    broadcast use vstd::multiset::group_multiset_axioms;

    let mid = s.update(i, s[j]);
    to_multiset_update(s, i, s[j]);
    to_multiset_update(mid, j, s[i]);
    assert(s.to_multiset().count(s[i]) > 0) by {
        vstd::seq_lib::to_multiset_contains(s, s[i]);
        assert(s.contains(s[i]));
    }
    assert(s.to_multiset().count(s[j]) > 0) by {
        vstd::seq_lib::to_multiset_contains(s, s[j]);
        assert(s.contains(s[j]));
    }
    assert(swapped(s, i, j).to_multiset() =~= s.to_multiset());
}

/// The walk towards the root changes neither the length nor what is held.
pub proof fn lemma_sift_up_permutes<S: PartialOrd, T>(s: Seq<(S, T)>, i: int)
    ensures
        sift_up(s, i).len() == s.len(),
        sift_up(s, i).to_multiset() == s.to_multiset(),
    decreases i,
{
    if 0 < i < s.len() && greater(s[parent_index(i)].0, s[i].0) {
        lemma_swapped_permutes(s, parent_index(i), i);
        lemma_sift_up_permutes(swapped(s, parent_index(i), i), parent_index(i));
    }
}

/// The walk towards the leaves changes neither the length nor what is held.
pub proof fn lemma_sift_down_permutes<S: PartialOrd, T>(s: Seq<(S, T)>, i: int)
    ensures
        sift_down(s, i).len() == s.len(),
        sift_down(s, i).to_multiset() == s.to_multiset(),
    decreases s.len() - i,
{
    if 0 <= i < s.len() && least_of_three(s, i) != i {
        let m = least_of_three(s, i);
        lemma_swapped_permutes(s, i, m);
        lemma_sift_down_permutes(swapped(s, i, m), m);
    }
}

/// Putting an entry in adds it to what is held, and nothing else changes.
pub proof fn lemma_inserted_permutes<S: PartialOrd, T>(s: Seq<(S, T)>, entry: (S, T))
    ensures
        inserted(s, entry).len() == s.len() + 1,
        inserted(s, entry).to_multiset() == s.to_multiset().insert(entry),
{
    lemma_sift_up_permutes(s.push(entry), s.len() as int);
    to_multiset_build(s, entry);
}

/// Extraction takes one entry that was held, and nothing else changes.
pub proof fn lemma_after_extract_permutes<S: PartialOrd, T>(s: Seq<(S, T)>)
    requires
        s.len() > 0,
    ensures
        after_extract(s).len() == s.len() - 1,
        s.contains(extracted(s)),
        after_extract(s).to_multiset() == s.to_multiset().remove(extracted(s)),
{
    if root_deferred(s) {
        lemma_drop_last_takes_last(s);
        lemma_sift_down_permutes(s.drop_last(), 0);
    } else {
        lemma_replace_first_takes_first(s);
        lemma_sift_down_permutes(s.update(0, s.last()).drop_last(), 0);
    }
}

/// The walk towards the root touches nothing behind the entry it starts
/// from: the entries from `n` on stay, and the first `n` are left as the walk
/// would leave them on their own.
pub proof fn lemma_sift_up_within<S: PartialOrd, T>(s: Seq<(S, T)>, i: int, n: int)
    requires
        0 <= i < n <= s.len(),
    ensures
        sift_up(s, i) == sift_up(s.take(n), i) + s.skip(n),
    decreases i,
{
    if 0 < i && greater(s[parent_index(i)].0, s[i].0) {
        let p = parent_index(i);
        lemma_sift_up_within(swapped(s, p, i), p, n);
        assert(swapped(s, p, i).take(n) =~= swapped(s.take(n), p, i));
        assert(swapped(s, p, i).skip(n) =~= s.skip(n));
    } else {
        assert(s.take(n) + s.skip(n) =~= s);
    }
}

/// Every node but `k` is in order with its parent, and should the entry at
/// `k` have to rise, its children are in order with what then comes down.
spec fn rising<S: PartialOrd, T>(s: Seq<(S, T)>, k: int) -> bool {
    &&& 0 <= k < s.len()
    &&& forall|c: int| 0 < c < s.len() && c != k ==> #[trigger] in_order(s, c)
    &&& k > 0 && greater(s[parent_index(k)].0, s[k].0) ==> forall|c: int|
        0 < c < s.len() && parent_index(c) == k ==> !greater(
            s[parent_index(k)].0,
            (#[trigger] s[c]).0,
        )
}

/// Every node whose parent is not `i` is in order with its parent, and the
/// children of `i` are in order with the parent of `i`.
spec fn sinking<S: PartialOrd, T>(s: Seq<(S, T)>, i: int) -> bool {
    &&& 0 <= i < s.len()
    &&& forall|c: int| 0 < c < s.len() && parent_index(c) != i ==> #[trigger] in_order(s, c)
    &&& i > 0 ==> forall|c: int|
        0 < c < s.len() && parent_index(c) == i ==> !greater(
            s[parent_index(i)].0,
            (#[trigger] s[c]).0,
        )
}

proof fn lemma_rising_step<S: PartialOrd, T>(scores: Set<S>, s: Seq<(S, T)>, k: int)
    requires
        lawful_on(scores),
        within(s, scores),
        rising(s, k),
        k > 0,
        greater(s[parent_index(k)].0, s[k].0),
    ensures
        rising(swapped(s, parent_index(k), k), parent_index(k)),
{
    let p = parent_index(k);
    let t = swapped(s, p, k);
    let up = s[k].0;
    let down = s[p].0;
    lemma_greater_excludes(scores, down, up);
    assert forall|c: int| 0 < c < t.len() && c != p implies #[trigger] in_order(t, c) by {
        if c == k {
        } else if parent_index(c) == k {
            assert(!greater(down, s[c].0));
        } else if parent_index(c) == p {
            assert(in_order(s, c));
            if greater(up, s[c].0) {
                lemma_greater_excludes(scores, up, s[c].0);
                lemma_less_chain(scores, s[c].0, up, down);
                assert(less(s[c].0, down) <==> greater(down, s[c].0));
            }
        } else {
            assert(in_order(s, c));
        }
    }
    if p > 0 && greater(t[parent_index(p)].0, t[p].0) {
        let top = s[parent_index(p)].0;
        assert(in_order(s, p));
        lemma_greater_excludes(scores, top, up);
        assert(comparable(top, up) && comparable(up, down));
        assert(comparable(top, down));
        lemma_not_greater(top, down);
        assert forall|c: int| 0 < c < t.len() && parent_index(c) == p implies !greater(
            t[parent_index(p)].0,
            (#[trigger] t[c]).0,
        ) by {
            if c != k {
                assert(in_order(s, c));
                if greater(top, s[c].0) {
                    lemma_greater_excludes(scores, top, s[c].0);
                    lemma_less_chain(scores, s[c].0, top, down);
                    assert(less(s[c].0, down) <==> greater(down, s[c].0));
                }
            }
        }
    }
}

proof fn lemma_sift_up_orders<S: PartialOrd, T>(scores: Set<S>, s: Seq<(S, T)>, k: int)
    requires
        lawful_on(scores),
        within(s, scores),
        rising(s, k),
    ensures
        is_heap(sift_up(s, k)),
    decreases k,
{
    if k > 0 && greater(s[parent_index(k)].0, s[k].0) {
        lemma_rising_step(scores, s, k);
        lemma_sift_up_orders(scores, swapped(s, parent_index(k), k), parent_index(k));
    } else {
        assert forall|c: int| 0 < c < s.len() implies #[trigger] in_order(s, c) by {}
    }
}

proof fn lemma_sinking_step<S: PartialOrd, T>(scores: Set<S>, s: Seq<(S, T)>, i: int)
    requires
        lawful_on(scores),
        within(s, scores),
        sinking(s, i),
        least_of_three(s, i) != i,
    ensures
        sinking(swapped(s, i, least_of_three(s, i)), least_of_three(s, i)),
{
    let m = least_of_three(s, i);
    let left = left_index(i);
    let right = right_index(i);
    let t = swapped(s, i, m);
    let down = s[i].0;
    let up = s[m].0;
    assert(less(up, down)) by {
        if m == right && left < s.len() && less(s[left].0, s[i].0) {
            lemma_less_chain(scores, s[right].0, s[left].0, s[i].0);
        }
    }
    assert(less(up, down) <==> greater(down, up));
    lemma_greater_excludes(scores, down, up);
    assert forall|c: int| 0 < c < t.len() && parent_index(c) != m implies #[trigger] in_order(
        t,
        c,
    ) by {
        if c == i {
            assert(!greater(s[parent_index(i)].0, s[m].0));
        } else if c == m {
        } else if parent_index(c) == i {
            // the other child of `i`
            let other = s[c].0;
            if greater(up, other) {
                lemma_greater_excludes(scores, up, other);
                if m == left {
                    assert(c == right);
                } else {
                    assert(c == left);
                    if less(s[left].0, s[i].0) {
                        assert(less(s[right].0, s[left].0));
                    } else {
                        lemma_less_chain(scores, other, up, down);
                    }
                }
            }
        } else {
            assert(in_order(s, c));
        }
    }
    assert forall|c: int| 0 < c < t.len() && parent_index(c) == m implies !greater(
        t[parent_index(m)].0,
        (#[trigger] t[c]).0,
    ) by {
        assert(in_order(s, c));
    }
}

proof fn lemma_sift_down_orders<S: PartialOrd, T>(scores: Set<S>, s: Seq<(S, T)>, i: int)
    requires
        lawful_on(scores),
        within(s, scores),
        sinking(s, i),
    ensures
        is_heap(sift_down(s, i)),
    decreases s.len() - i,
{
    let m = least_of_three(s, i);
    if m != i {
        lemma_sinking_step(scores, s, i);
        lemma_sift_down_orders(scores, swapped(s, i, m), m);
    } else {
        assert forall|c: int| 0 < c < s.len() implies #[trigger] in_order(s, c) by {
            if parent_index(c) == i {
                assert(less(s[c].0, s[i].0) <==> greater(s[i].0, s[c].0));
            }
        }
    }
}

/// Putting an entry into a heap leaves a heap, where the scores are lawful.
pub proof fn lemma_inserted_is_heap<S: PartialOrd, T>(scores: Set<S>, s: Seq<(S, T)>, entry: (S, T))
    requires
        lawful_on(scores),
        within(s.push(entry), scores),
        is_heap(s),
    ensures
        is_heap(inserted(s, entry)),
{
    let t = s.push(entry);
    let k = s.len() as int;
    assert forall|c: int| 0 < c < t.len() && c != k implies #[trigger] in_order(t, c) by {
        assert(in_order(s, c));
    }
    lemma_sift_up_orders(scores, t, k);
}

/// Extracting from a heap leaves a heap, where the scores are lawful.
pub proof fn lemma_after_extract_is_heap<S: PartialOrd, T>(scores: Set<S>, s: Seq<(S, T)>)
    requires
        lawful_on(scores),
        within(s, scores),
        is_heap(s),
    ensures
        is_heap(after_extract(s)),
{
    if s.len() > 1 {
        let t = if root_deferred(s) {
            s.drop_last()
        } else {
            s.update(0, s.last()).drop_last()
        };
        assert forall|c: int| 0 < c < t.len() && parent_index(c) != 0 implies #[trigger] in_order(
            t,
            c,
        ) by {
            assert(in_order(s, c));
        }
        lemma_sift_down_orders(scores, t, 0);
    } else if s.len() == 1 {
        let t = s.update(0, s.last()).drop_last();
        assert(t.len() == 0);
        assert(sift_down(t, 0) == t);
    }
}

/// The first `n` entries of a heap are a heap.
pub proof fn lemma_prefix_is_heap<S: PartialOrd, T>(s: Seq<(S, T)>, n: int)
    requires
        is_heap(s),
        0 <= n <= s.len(),
    ensures
        is_heap(s.take(n)),
{
    let t = s.take(n);
    assert forall|c: int| 0 < c < t.len() implies #[trigger] in_order(t, c) by {
        assert(in_order(s, c));
    }
}

/// In a heap of lawful, mutually comparable scores no entry has a lesser
/// score than the root.
pub proof fn lemma_root_is_least<S: PartialOrd, T>(scores: Set<S>, s: Seq<(S, T)>, c: int)
    requires
        lawful_on(scores),
        within(s, scores),
        mutually_comparable(s),
        is_heap(s),
        0 <= c < s.len(),
    ensures
        !greater(s[0].0, s[c].0),
        at_most(s[0].0, s[c].0),
    decreases c,
{
    assert(s.contains(s[0]));
    assert(s.contains(s[c]));
    if c == 0 {
        lemma_never_above_itself(scores, s[0].0);
        lemma_not_greater(s[0].0, s[0].0);
    } else {
        let p = parent_index(c);
        assert(s.contains(s[p]));
        lemma_root_is_least(scores, s, p);
        assert(in_order(s, c));
        lemma_not_greater(s[p].0, s[c].0);
        assert(at_most(s[0].0, s[p].0) && at_most(s[p].0, s[c].0));
        lemma_at_most_excludes(s[0].0, s[c].0);
    }
}

/// A heap of lawful, mutually comparable scores gives its entries out in
/// ascending order of score, each of them once.
pub proof fn lemma_extraction_ascending<S: PartialOrd, T>(scores: Set<S>, s: Seq<(S, T)>)
    requires
        lawful_on(scores),
        within(s, scores),
        mutually_comparable(s),
        is_heap(s),
    ensures
        extraction_order(s).len() == s.len(),
        extraction_order(s).to_multiset() == s.to_multiset(),
        ascending(extraction_order(s)),
    decreases s.len(),
{
    broadcast use vstd::multiset::group_multiset_axioms;

    if s.len() == 0 {
        crate::seqs::lemma_empty_holds_nothing(s);
        crate::seqs::lemma_empty_holds_nothing(extraction_order(s));
    } else {
        let first = extracted(s);
        let rest = after_extract(s);
        let tail = extraction_order(rest);
        let out = extraction_order(s);
        assert(s.contains(s[0]));
        assert(first == s[0]);
        lemma_after_extract_permutes(s);
        lemma_after_extract_is_heap(scores, s);
        assert(rest.to_multiset().subset_of(s.to_multiset()));
        lemma_part_is_comparable(rest, s);
        lemma_part_is_within(rest, s, scores);
        lemma_extraction_ascending(scores, rest);
        assert(out == seq![first] + tail);
        vstd::seq_lib::lemma_multiset_commutative(seq![first], tail);
        assert(seq![first].to_multiset() =~= Multiset::<(S, T)>::empty().insert(first)) by {
            crate::seqs::lemma_empty_holds_nothing(Seq::<(S, T)>::empty());
            to_multiset_build(Seq::<(S, T)>::empty(), first);
            assert(Seq::<(S, T)>::empty().push(first) =~= seq![first]);
        }
        vstd::seq_lib::to_multiset_contains(s, first);
        assert(out.to_multiset() =~= s.to_multiset());
        assert forall|i: int, j: int| 0 <= i < j < out.len() implies !greater(
            #[trigger] out[i].0,
            #[trigger] out[j].0,
        ) by {
            if i == 0 {
                let later = tail[j - 1];
                assert(tail.contains(later));
                vstd::seq_lib::to_multiset_contains(tail, later);
                vstd::seq_lib::to_multiset_contains(rest, later);
                assert(rest.contains(later));
                assert(s.contains(later));
                let c = choose|c: int| 0 <= c < s.len() && s[c] == later;
                lemma_root_is_least(scores, s, c);
            } else {
                assert(!greater(tail[i - 1].0, tail[j - 1].0));
            }
        }
    }
}

/// Putting entries into a heap, one after the other, leaves a heap, where
/// the scores are lawful.
pub proof fn lemma_inserted_all_is_heap<S: PartialOrd, T>(scores: Set<S>, s: Seq<(S, T)>, entries: Seq<(S, T)>)
    requires
        lawful_on(scores),
        within(s, scores),
        within(entries, scores),
        is_heap(s),
    ensures
        is_heap(inserted_all(s, entries)),
    decreases entries.len(),
{
    if entries.len() > 0 {
        let fewer = entries.drop_last();
        lemma_inserted_all_is_heap(scores, s, fewer);
        lemma_inserted_all_permutes(s, fewer);
        vstd::seq_lib::lemma_multiset_commutative(s, fewer);
        assert(within(s + fewer, scores)) by {
            assert forall|i: int| 0 <= i < (s + fewer).len() implies scores.contains(
                (#[trigger] (s + fewer)[i]).0,
            ) by {
                if i < s.len() {
                    assert((s + fewer)[i] == s[i]);
                } else {
                    assert((s + fewer)[i] == fewer[i - s.len()]);
                    assert(fewer[i - s.len()] == entries[i - s.len()]);
                }
            }
        }
        lemma_part_is_within(inserted_all(s, fewer), s + fewer, scores);
        lemma_inserted_is_heap(scores, inserted_all(s, fewer), entries.last());
    }
}

/// Putting entries in, one after the other, adds each of them to what is
/// held, and nothing else changes.
pub proof fn lemma_inserted_all_permutes<S: PartialOrd, T>(s: Seq<(S, T)>, entries: Seq<(S, T)>)
    ensures
        inserted_all(s, entries).len() == s.len() + entries.len(),
        inserted_all(s, entries).to_multiset() == s.to_multiset().add(entries.to_multiset()),
    decreases entries.len(),
{
    broadcast use vstd::multiset::group_multiset_axioms;

    if entries.len() == 0 {
        crate::seqs::lemma_empty_holds_nothing(entries);
        assert(s.to_multiset().add(entries.to_multiset()) =~= s.to_multiset());
    } else {
        lemma_inserted_all_permutes(s, entries.drop_last());
        lemma_inserted_permutes(inserted_all(s, entries.drop_last()), entries.last());
        to_multiset_build(entries.drop_last(), entries.last());
        assert(entries.drop_last().push(entries.last()) =~= entries);
        assert(inserted_all(s, entries).to_multiset() =~= s.to_multiset().add(
            entries.to_multiset(),
        ));
    }
}

} // verus!
