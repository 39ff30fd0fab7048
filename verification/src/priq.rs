//! The priority queue: a binary min-heap of `(score, item)` entries whose
//! scores need only be partially ordered.

use crate::heap::{
    after_extract, extracted, extraction_of, inserted, inserted_all, insertion_of, is_heap,
    lemma_inserted_all_permutes,
    least_of_three, left_index, lemma_after_extract_is_heap, lemma_after_extract_permutes,
    lemma_inserted_all_is_heap, lemma_inserted_is_heap, lemma_inserted_permutes,
    lemma_prefix_is_heap, lemma_root_is_least, lemma_sift_up_within, lemma_swapped_permutes,
    parent_index, raised, right_index, sift_down, sift_up, sunk, swapped,
};
use crate::iter::{Drain, IntoIter};
use crate::order::{
    ascending, at_most, incomparable_to_itself, lawful_among, lemma_part_is_within,
    lemma_within_own_scores, mutually_comparable, obeys_order, scores_of,
};
use crate::rawpq::{
    allocatable, growable, grown, initial_capacity, lemma_max_zst_capacity, shrunk, zero_sized,
    RawPQ, MAX_ZST_CAPACITY,
};
use crate::seqs::{
    lemma_drop_last_takes_last, lemma_empty_holds_nothing, lemma_replace_first_takes_first,
};
use crate::sort::{
    lemma_sorted_ascending, lemma_sorted_stable, ranked_like, sort_entries, sorted_by_score,
};
use core::ops::Range;
use vstd::prelude::*;
use vstd::seq_lib::to_multiset_build;
use vstd::std_specs::ops::AddSpecImpl;

verus! {

/// Extraction gives room back only once the capacity is above this.
pub const SHRINK_THRESHOLD: usize = 1000;

/// The capacity after an extraction that leaves `len` entries in a buffer of
/// capacity `cap`: room is given back once the capacity is above
/// `SHRINK_THRESHOLD` and no more than a quarter of it is in use.
pub open spec fn capacity_after_extract<S, T>(cap: nat, len: nat) -> nat {
    if cap > SHRINK_THRESHOLD && cap / 4 >= len {
        shrunk::<S, T>(cap, len)
    } else {
        cap
    }
}

/// The capacity after one entry is put into a buffer of capacity `cap` that
/// holds `len`: a full buffer grows, any other keeps its capacity.
pub open spec fn capacity_after_put(cap: nat, len: nat) -> nat {
    if len == cap {
        grown(cap)
    } else {
        cap
    }
}

/// A buffer of capacity `cap` that holds `len` entries can take one more:
/// there is a free slot, or the buffer is full and can grow.
pub open spec fn room_for_one<S, T>(cap: nat, len: nat) -> bool {
    len < cap || (len == cap && growable::<S, T>(cap))
}

/// A buffer of capacity `cap` that holds `len` entries can take `more`, one
/// after the other: whenever it is full by then, it can grow.
pub open spec fn room_for<S, T>(cap: nat, len: nat, more: nat) -> bool
    decreases more,
{
    more == 0 || {
        &&& room_for_one::<S, T>(cap, len)
        &&& room_for::<S, T>(capacity_after_put(cap, len), len + 1, (more - 1) as nat)
    }
}

/// The capacity after `more` entries are put, one after the other, into a
/// buffer of capacity `cap` that holds `len`.
pub open spec fn capacity_after_puts(cap: nat, len: nat, more: nat) -> nat
    decreases more,
{
    if more == 0 {
        cap
    } else {
        capacity_after_puts(capacity_after_put(cap, len), len + 1, (more - 1) as nat)
    }
}

/// The capacity after a buffer of capacity `cap` that holds `len` entries has
/// been extracted from until empty.
pub open spec fn capacity_after_extracts<S, T>(cap: nat, len: nat) -> nat
    decreases len,
{
    if len == 0 {
        cap
    } else {
        capacity_after_extracts::<S, T>(
            capacity_after_extract::<S, T>(cap, (len - 1) as nat),
            (len - 1) as nat,
        )
    }
}

/// The buffer `into` after every entry of `from` has been extracted and put
/// into it, in the order of extraction.
pub open spec fn merged_into<S: PartialOrd, T>(into: Seq<(S, T)>, from: Seq<(S, T)>) -> Seq<(S, T)>
    decreases from.len(),
    via merged_into_decreases::<S, T>
{
    if from.len() == 0 {
        into
    } else {
        merged_into(inserted(into, extracted(from)), after_extract(from))
    }
}

#[via_fn]
proof fn merged_into_decreases<S: PartialOrd, T>(into: Seq<(S, T)>, from: Seq<(S, T)>) {
    if from.len() != 0 {
        lemma_after_extract_permutes(from);
    }
}

/// A buffer with free slots for `more` entries can take them.
pub proof fn lemma_room_for<S, T>(cap: nat, len: nat, more: nat)
    requires
        len + more <= cap,
    ensures
        room_for::<S, T>(cap, len, more),
        capacity_after_puts(cap, len, more) == cap,
    decreases more,
{
    if more > 0 {
        lemma_room_for::<S, T>(cap, len + 1, (more - 1) as nat);
    }
}

/// A min-heap of `(score, item)` entries in one growable buffer.
///
/// The view is the buffer in storage order. The node at index `i` has its
/// children at `2i + 1` and `2i + 2`. The least comparable score is kept at
/// the root, index 0, as long as every score can be compared with the others;
/// entries whose scores cannot be compared stay wherever a comparison last
/// left them.
#[derive(Debug)]
pub struct PriorityQueue<S, T> where S: PartialOrd {
    data: RawPQ<S, T>,
}

impl<S, T> View for PriorityQueue<S, T> where S: PartialOrd {
    type V = Seq<(S, T)>;

    /// The entries, in storage order.
    closed spec fn view(&self) -> Seq<(S, T)> {
        self.data@
    }
}

impl<S, T> PriorityQueue<S, T> where S: PartialOrd {
    /// The number of entries.
    pub open spec fn spec_len(&self) -> usize {
        self@.len() as usize
    }

    /// The number of entries the buffer has room for.
    pub closed spec fn spec_cap(&self) -> usize {
        self.data.cap()
    }

    /// One more entry fits: there is a free slot, or the buffer is full and
    /// can grow.
    pub open spec fn has_room(&self) -> bool {
        room_for_one::<S, T>(self.cap() as nat, self@.len())
    }

    /// A queue never holds more than its buffer has room for.
    pub proof fn lemma_length_within_capacity(&self)
        ensures
            self@.len() <= self.cap(),
    {
        self.data.lemma_length_within_capacity();
    }

    /// An empty queue. Nothing is allocated until the first entry is put in.
    pub fn new() -> (pq: Self)
        ensures
            pq@ == Seq::<(S, T)>::empty(),
            pq.cap() == initial_capacity::<S, T>(0),
            pq@.len() <= pq.cap(),
            zero_sized::<S, T>() ==> pq.has_room(),
    {
        proof {
            lemma_max_zst_capacity();
        }
        PriorityQueue { data: RawPQ::new() }
    }

    /// An empty queue with room for `cap` entries: that many can be put in
    /// before the buffer has to grow. So many entries must not take more
    /// bytes than one allocation can have; `can_hold` tells.
    pub fn with_capacity(cap: usize) -> (pq: Self)
        requires
            allocatable::<S, T>(cap as nat),
        ensures
            pq@ == Seq::<(S, T)>::empty(),
            pq.cap() == initial_capacity::<S, T>(cap),
            pq@.len() <= pq.cap(),
    {
        PriorityQueue { data: RawPQ::with_capacity(cap) }
    }

    /// Whether a queue with room for `cap` entries can be asked for, so that
    /// `with_capacity` may be called.
    pub fn can_hold(cap: usize) -> (can: bool)
        ensures
            can == allocatable::<S, T>(cap as nat),
    {
        RawPQ::<S, T>::can_hold(cap)
    }

    /// Whether one more entry fits, so that `put` may be called.
    pub fn can_put(&self) -> (can: bool)
        ensures
            can == self.has_room(),
    {
        let len = self.len();
        let cap = self.cap();
        len < cap || (len == cap && self.data.can_grow())
    }

    /// Puts an entry in: it is appended to the buffer and then rises towards
    /// the root past every parent whose score is greater. A full buffer
    /// grows first, and has to be able to; `can_put` tells.
    pub fn put(&mut self, score: S, item: T)
        requires
            old(self).has_room(),
        ensures
            final(self)@.len() == old(self)@.len() + 1,
            final(self)@.to_multiset() == old(self)@.to_multiset().insert((score, item)),
            insertion_of(old(self)@, (score, item), final(self)@),
            final(self).cap() == capacity_after_put(old(self).cap() as nat, old(self)@.len()),
            final(self)@.len() <= final(self).cap(),
            obeys_order::<S>() ==> final(self)@ == inserted(old(self)@, (score, item)),
            obeys_order::<S>() && lawful_among(old(self)@.push((score, item))) && is_heap(
                old(self)@,
            ) ==> is_heap(final(self)@),
    {
        if self.cap() == self.len() {
            self.data.grow();
        }
        self.data.push((score, item));
        proof {
            to_multiset_build(old(self)@, (score, item));
            lemma_inserted_permutes(old(self)@, (score, item));
            let with_entry = old(self)@.push((score, item));
            if lawful_among(with_entry) && is_heap(old(self)@) {
                lemma_within_own_scores(with_entry);
                lemma_inserted_is_heap(scores_of(with_entry), old(self)@, (score, item));
            }
        }
        self.heapify_up(self.len() - 1);
    }

    /// Takes an entry out, `None` from an empty queue.
    ///
    /// The entry is the root. Only where the root's score cannot be compared
    /// even with itself, and other entries are left, the last entry of the
    /// buffer is taken in its stead and the root stays. What then stands at
    /// the root sinks towards the leaves below every child whose score is
    /// strictly less.
    pub fn pop(&mut self) -> (entry: Option<(S, T)>)
        ensures
            final(self)@.len() <= final(self).cap(),
            old(self)@.len() == 0 ==> {
                &&& entry is None
                &&& final(self)@ == old(self)@
                &&& final(self).cap() == old(self).cap()
            },
            old(self)@.len() > 0 ==> {
                &&& entry is Some
                &&& old(self)@.contains(entry->0)
                &&& final(self)@.len() == old(self)@.len() - 1
                &&& final(self)@.to_multiset() == old(self)@.to_multiset().remove(entry->0)
                &&& extraction_of(old(self)@, entry->0, final(self)@)
                &&& final(self).cap() == capacity_after_extract::<S, T>(
                    old(self).cap() as nat,
                    final(self)@.len(),
                )
            },
            obeys_order::<S>() && old(self)@.len() > 0 ==> {
                &&& entry == Some(extracted(old(self)@))
                &&& final(self)@ == after_extract(old(self)@)
            },
            obeys_order::<S>() && lawful_among(old(self)@) && is_heap(old(self)@) ==> is_heap(
                final(self)@,
            ),
            obeys_order::<S>() && lawful_among(old(self)@) && is_heap(old(self)@)
                && mutually_comparable(old(self)@) ==> forall|i: int|
                0 <= i < old(self)@.len() ==> at_most((entry->0).0, (#[trigger] old(self)@[i]).0),
    {
        if self.len() > 0 {
            let last_ = self.len() - 1;
            let deferred = self.len() > 1 && incomparable_to_itself(&self.data.slots[0].0);
            if deferred {
                self.swap(0, last_);
            }
            let top = self.data.slots.swap_remove(0);
            self.data.release(1);
            proof {
                let s = old(self)@;
                old(self).lemma_length_within_capacity();
                if deferred {
                    lemma_swapped_permutes(s, 0, last_ as int);
                    lemma_drop_last_takes_last(s);
                    assert(self@ =~= s.drop_last());
                    assert(top == s.last());
                } else {
                    lemma_replace_first_takes_first(s);
                    assert(self@ =~= s.update(0, s.last()).drop_last());
                    assert(top == s[0]);
                }
                if obeys_order::<S>() && lawful_among(s) && is_heap(s) {
                    lemma_within_own_scores(s);
                    lemma_after_extract_is_heap(scores_of(s), s);
                    if mutually_comparable(s) {
                        assert(s.contains(s[0]));
                        assert forall|i: int| 0 <= i < s.len() implies at_most(
                            top.0,
                            (#[trigger] s[i]).0,
                        ) by {
                            lemma_root_is_least(scores_of(s), s, i);
                        }
                    }
                }
            }
            let ghost rest = self@;
            if self.len() > 1 {
                self.heapify_down(0);
            }
            proof {
                if rest.len() <= 1 {
                    assert(self@ == sunk(rest, 0, Seq::<bool>::empty()));
                }
                let path = choose|path: Seq<bool>| self@ == sunk(rest, 0, path);
                assert(self@ == sunk(rest, 0, path));
                if deferred {
                    assert(rest == old(self)@.drop_last());
                } else {
                    assert(rest == old(self)@.update(0, old(self)@.last()).drop_last());
                }
            }
            if self.cap() > SHRINK_THRESHOLD && self.cap() / 4 >= self.len() {
                self.data.shrink();
            }
            proof {
                self.lemma_length_within_capacity();
            }
            Some(top)
        } else {
            proof {
                self.lemma_length_within_capacity();
            }
            None
        }
    }

    /// The entry at the root, `None` in an empty queue. Nothing is removed.
    pub fn peek(&self) -> (entry: Option<&(S, T)>)
        ensures
            self@.len() == 0 ==> entry is None,
            self@.len() > 0 ==> entry == Some(&self@[0]),
    {
        if !self.is_empty() {
            Some(&self.data.slots[0])
        } else {
            None
        }
    }

    /// The number of entries.
    #[verifier::when_used_as_spec(spec_len)]
    pub fn len(&self) -> (len: usize)
        ensures
            len == self@.len(),
    {
        self.data.slots.len()
    }

    /// Whether the queue holds no entry.
    pub fn is_empty(&self) -> (empty: bool)
        ensures
            empty == (self@.len() == 0),
    {
        self.data.slots.len() == 0
    }

    /// The number of entries the buffer has room for.
    #[verifier::when_used_as_spec(spec_cap)]
    pub fn cap(&self) -> (cap: usize)
        ensures
            cap == self.spec_cap(),
            self@.len() <= cap,
    {
        self.data.cap()
    }

    /// The index of the left child of the node at `index`.
    fn left_child(&self, index: usize) -> (child: usize)
        requires
            left_index(index as int) <= usize::MAX,
        ensures
            child == left_index(index as int),
    {
        2 * index + 1
    }

    /// The index of the right child of the node at `index`.
    fn right_child(&self, index: usize) -> (child: usize)
        requires
            right_index(index as int) <= usize::MAX,
        ensures
            child == right_index(index as int),
    {
        2 * index + 2
    }

    /// The index of the parent of the node at `index`.
    fn parent(&self, index: usize) -> (parent: usize)
        requires
            index > 0,
        ensures
            parent == parent_index(index as int),
    {
        (index - 1) / 2
    }

    /// Whether the node at `index` has a left child among the entries.
    fn has_left(&self, index: usize) -> (has: bool)
        ensures
            has == (left_index(index as int) < self@.len()),
            has ==> left_index(index as int) <= usize::MAX,
    {
        index < self.len() / 2
    }

    /// Whether the node at `index` has a right child among the entries.
    fn has_right(&self, index: usize) -> (has: bool)
        ensures
            has == (right_index(index as int) < self@.len()),
            has ==> right_index(index as int) <= usize::MAX,
    {
        self.len() > 0 && index < (self.len() - 1) / 2
    }

    /// Exchanges the entries at `i` and `j`.
    fn swap(&mut self, i: usize, j: usize)
        requires
            i < old(self)@.len(),
            j < old(self)@.len(),
        ensures
            final(self)@ == swapped(old(self)@, i as int, j as int),
            final(self).cap() == old(self).cap(),
    {
        if i < j {
            let (head, tail) = self.data.slots.as_mut_slice().split_at_mut(j);
            core::mem::swap(&mut head[i], &mut tail[0]);
        } else if j < i {
            let (head, tail) = self.data.slots.as_mut_slice().split_at_mut(i);
            core::mem::swap(&mut head[j], &mut tail[0]);
        }
        assert(self@ =~= swapped(old(self)@, i as int, j as int));
    }

    /// Lets the entry at `index` rise towards the root.
    fn heapify_up(&mut self, index: usize)
        requires
            index < old(self)@.len(),
        ensures
            final(self)@.len() == old(self)@.len(),
            final(self)@.to_multiset() == old(self)@.to_multiset(),
            final(self).cap() == old(self).cap(),
            exists|levels: nat| final(self)@ == raised(old(self)@, index as int, levels),
            obeys_order::<S>() ==> final(self)@ == sift_up(old(self)@, index as int),
        decreases index,
    {
        if index > 0 {
            let parent_ = self.parent(index);
            if self.data.slots[parent_].0 > self.data.slots[index].0 {
                self.swap(parent_, index);
                let ghost moved = self@;
                proof {
                    lemma_swapped_permutes(old(self)@, parent_ as int, index as int);
                }
                self.heapify_up(parent_);
                proof {
                    let above = choose|levels: nat| self@ == raised(moved, parent_ as int, levels);
                    assert(self@ == raised(old(self)@, index as int, above + 1));
                }
                return ;
            }
        }
        assert(self@ == raised(old(self)@, index as int, 0));
    }

    /// Lets the entry at `index` sink towards the leaves.
    fn heapify_down(&mut self, index: usize)
        requires
            index < old(self)@.len(),
        ensures
            final(self)@.len() == old(self)@.len(),
            final(self)@.to_multiset() == old(self)@.to_multiset(),
            final(self).cap() == old(self).cap(),
            exists|path: Seq<bool>| final(self)@ == sunk(old(self)@, index as int, path),
            obeys_order::<S>() ==> final(self)@ == sift_down(old(self)@, index as int),
        decreases old(self)@.len() - index,
    {
        let mut min_ = index;
        if self.has_left(index) {
            let left = self.left_child(index);
            if self.data.slots[left].0 < self.data.slots[min_].0 {
                min_ = left;
            }
        }
        if self.has_right(index) {
            let right = self.right_child(index);
            if self.data.slots[right].0 < self.data.slots[min_].0 {
                min_ = right;
            }
        }
        assert(obeys_order::<S>() ==> min_ == least_of_three(self@, index as int));
        if min_ != index {
            self.swap(index, min_);
            let ghost moved = self@;
            proof {
                lemma_swapped_permutes(old(self)@, index as int, min_ as int);
            }
            self.heapify_down(min_);
            proof {
                let below = choose|path: Seq<bool>| self@ == sunk(moved, min_ as int, path);
                let path = seq![min_ == left_index(index as int)] + below;
                assert(path.drop_first() =~= below);
                assert(self@ == sunk(old(self)@, index as int, path));
            }
        } else {
            assert(self@ == sunk(old(self)@, index as int, Seq::<bool>::empty()));
        }
    }

    /// Removes every entry. The buffer keeps its capacity.
    pub fn clear(&mut self)
        ensures
            final(self)@ == Seq::<(S, T)>::empty(),
            final(self).cap() == old(self).cap(),
            final(self)@.len() <= final(self).cap(),
    {
        let len = self.len();
        let _ = self.drain(0..len);
    }

    /// Empties the queue and hands out the entries that stood in `range` of
    /// the buffer, in storage order. The entries outside `range` are dropped.
    /// The queue is empty as soon as this returns, whatever becomes of the
    /// entries handed out.
    pub fn drain(&mut self, range: Range<usize>) -> (drained: Drain<S, T>)
        requires
            range.start <= range.end <= old(self)@.len(),
        ensures
            final(self)@ == Seq::<(S, T)>::empty(),
            final(self).cap() == old(self).cap(),
            final(self)@.len() <= final(self).cap(),
            drained@ == old(self)@.subrange(range.start as int, range.end as int),
    {
        let len = self.len();
        self.data.slots.truncate(range.end);
        let taken = self.data.slots.split_off(range.start);
        self.data.slots.clear();
        self.data.release(len);
        proof {
            old(self).lemma_length_within_capacity();
            assert(taken@ =~= old(self)@.subrange(range.start as int, range.end as int));
        }
        Drain::new(taken)
    }

    /// Empties the queue into a vector sorted by score.
    ///
    /// The vector holds the entries that the queue held. Where the scores
    /// are lawful and can all be compared it is in ascending order, and
    /// entries of equal score keep the order they had in the buffer. Where a
    /// comparison has no answer, the sort takes the earlier of the two
    /// entries to sort first.
    pub fn into_sorted_vec(self) -> (sorted: Vec<(S, T)>)
        ensures
            sorted@.len() == self@.len(),
            sorted@.to_multiset() == self@.to_multiset(),
            obeys_order::<S>() ==> sorted@ == sorted_by_score(self@),
            obeys_order::<S>() && lawful_among(self@) && mutually_comparable(self@) ==> {
                &&& ascending(sorted@)
                &&& forall|x: S|
                    scores_of(self@).contains(x) ==> #[trigger] ranked_like(sorted@, x)
                        == ranked_like(self@, x)
            },
    {
        proof {
            if lawful_among(self@) && mutually_comparable(self@) {
                lemma_within_own_scores(self@);
                lemma_sorted_ascending(scores_of(self@), self@);
                assert forall|x: S| scores_of(self@).contains(x) implies #[trigger] ranked_like(
                    sorted_by_score(self@),
                    x,
                ) == ranked_like(self@, x) by {
                    lemma_sorted_stable(scores_of(self@), self@, x);
                }
            }
        }
        sort_entries(self.data.slots)
    }

    /// Keeps the first `len` entries of the buffer and drops the rest. With
    /// `len` not less than the number of entries nothing happens. The first
    /// entries of a heap are a heap, so heap order is kept.
    pub fn truncate(&mut self, len: usize)
        ensures
            final(self)@ == if len <= old(self)@.len() {
                old(self)@.take(len as int)
            } else {
                old(self)@
            },
            final(self).cap() == old(self).cap(),
            final(self)@.len() <= final(self).cap(),
            is_heap(old(self)@) ==> is_heap(final(self)@),
    {
        proof {
            self.lemma_length_within_capacity();
        }
        if len > self.len() {
            return;
        }
        let freed = self.len() - len;
        self.data.slots.truncate(len);
        self.data.release(freed);
        proof {
            if is_heap(old(self)@) {
                lemma_prefix_is_heap(old(self)@, len as int);
            }
        }
    }

    /// Moves every entry of `pq` into this queue: each is extracted from
    /// `pq` and put in here, until `pq` is empty.
    pub fn merge(&mut self, pq: &mut PriorityQueue<S, T>)
        requires
            room_for::<S, T>(old(self).cap() as nat, old(self)@.len(), old(pq)@.len()),
        ensures
            final(self)@.len() <= final(self).cap(),
            final(pq)@.len() <= final(pq).cap(),
            final(pq)@ == Seq::<(S, T)>::empty(),
            final(pq).cap() == capacity_after_extracts::<S, T>(
                old(pq).cap() as nat,
                old(pq)@.len(),
            ),
            final(self)@.len() == old(self)@.len() + old(pq)@.len(),
            final(self)@.to_multiset() == old(self)@.to_multiset().add(old(pq)@.to_multiset()),
            final(self).cap() == capacity_after_puts(
                old(self).cap() as nat,
                old(self)@.len(),
                old(pq)@.len(),
            ),
            obeys_order::<S>() ==> final(self)@ == merged_into(old(self)@, old(pq)@),
            obeys_order::<S>() && lawful_among(old(self)@ + old(pq)@) && is_heap(old(self)@)
                ==> is_heap(final(self)@),
    {
        proof {
            lemma_empty_holds_nothing(Seq::<(S, T)>::empty());
            assert(old(self)@.to_multiset().add(old(pq)@.to_multiset()) =~= self@.to_multiset().add(
                pq@.to_multiset(),
            ));
        }
        while !pq.is_empty()
            invariant
                room_for::<S, T>(self.cap() as nat, self@.len(), pq@.len()),
                capacity_after_extracts::<S, T>(pq.cap() as nat, pq@.len())
                    == capacity_after_extracts::<S, T>(old(pq).cap() as nat, old(pq)@.len()),
                self@.len() + pq@.len() == old(self)@.len() + old(pq)@.len(),
                self@.to_multiset().add(pq@.to_multiset()) == old(self)@.to_multiset().add(
                    old(pq)@.to_multiset(),
                ),
                capacity_after_puts(self.cap() as nat, self@.len(), pq@.len())
                    == capacity_after_puts(
                    old(self).cap() as nat,
                    old(self)@.len(),
                    old(pq)@.len(),
                ),
                obeys_order::<S>() ==> merged_into(self@, pq@) == merged_into(
                    old(self)@,
                    old(pq)@,
                ),
                obeys_order::<S>() && lawful_among(old(self)@ + old(pq)@) && is_heap(old(self)@)
                    ==> is_heap(self@),
            decreases pq@.len(),
        {
            broadcast use vstd::multiset::group_multiset_axioms;

            let ghost into = self@;
            let ghost from = pq@;
            match pq.pop() {
                Some(elem) => {
                    proof {
                        let whole = old(self)@ + old(pq)@;
                        assert(elem == (elem.0, elem.1));
                        vstd::seq_lib::to_multiset_contains(from, elem);
                        vstd::seq_lib::lemma_multiset_commutative(old(self)@, old(pq)@);
                        to_multiset_build(into, elem);
                        lemma_within_own_scores(whole);
                        lemma_part_is_within(into.push(elem), whole, scores_of(whole));
                    }
                    self.put(elem.0, elem.1);
                    proof {
                        assert(self@.to_multiset().add(pq@.to_multiset())
                            =~= into.to_multiset().add(from.to_multiset()));
                    }
                },
                None => {},
            }
        }
        proof {
            lemma_empty_holds_nothing(pq@);
            assert(self@.to_multiset().add(pq@.to_multiset()) =~= self@.to_multiset());
            assert(pq@ =~= Seq::<(S, T)>::empty());
            self.lemma_length_within_capacity();
            pq.lemma_length_within_capacity();
        }
    }

    /// A queue of the entries of a vector or an array, each put in in turn,
    /// first to last. The queue takes the entries over where they stand, so
    /// its capacity is their number. Zero-sized entries have to be fewer than
    /// `MAX_ZST_CAPACITY`, the room that a store of such entries has.
    pub fn from<C: Entries<S, T>>(entries: C) -> (pq: Self)
        requires
            zero_sized::<S, T>() ==> entries.entries().len() < MAX_ZST_CAPACITY,
        ensures
            pq@.len() == entries.entries().len(),
            pq@.to_multiset() == entries.entries().to_multiset(),
            pq.cap() == initial_capacity::<S, T>(entries.entries().len() as usize),
            pq@.len() <= pq.cap(),
            obeys_order::<S>() ==> pq@ == inserted_all(Seq::<(S, T)>::empty(), entries.entries()),
            obeys_order::<S>() && lawful_among(entries.entries()) ==> is_heap(pq@),
    {
        let ghost all = entries.entries();
        let slots = entries.into_vec();
        let len = slots.len();
        let spare: usize = if core::mem::size_of::<(S, T)>() == 0 {
            MAX_ZST_CAPACITY - len
        } else {
            0
        };
        let mut pq = PriorityQueue { data: RawPQ { slots, spare } };
        let mut index: usize = 0;
        proof {
            assert(all.take(0) =~= Seq::<(S, T)>::empty());
            assert(all.skip(0) =~= all);
            assert(Seq::<(S, T)>::empty() + all =~= all);
        }
        while index < len
            invariant
                index <= len == all.len(),
                pq@.len() == len,
                pq@.to_multiset() == all.to_multiset(),
                pq.cap() == initial_capacity::<S, T>(len),
                obeys_order::<S>() ==> pq@ == inserted_all(
                    Seq::<(S, T)>::empty(),
                    all.take(index as int),
                ) + all.skip(index as int),
            decreases len - index,
        {
            let ghost before = pq@;
            pq.heapify_up(index);
            proof {
                if obeys_order::<S>() {
                    let k = index as int;
                    let built = inserted_all(Seq::<(S, T)>::empty(), all.take(k));
                    lemma_inserted_all_permutes(Seq::<(S, T)>::empty(), all.take(k));
                    lemma_sift_up_within(before, k, k + 1);
                    assert(before.take(k + 1) =~= built.push(all[k]));
                    assert(before.skip(k + 1) =~= all.skip(k + 1));
                    assert(all.take(k + 1).drop_last() =~= all.take(k));
                    assert(all.take(k + 1).last() == all[k]);
                }
            }
            index = index + 1;
        }
        proof {
            assert(all.take(len as int) =~= all);
            assert(all.skip(len as int) =~= Seq::<(S, T)>::empty());
            assert(inserted_all(Seq::<(S, T)>::empty(), all) + Seq::<(S, T)>::empty()
                =~= inserted_all(Seq::<(S, T)>::empty(), all));
            if lawful_among(all) {
                lemma_within_own_scores(all);
                lemma_inserted_all_is_heap(scores_of(all), Seq::<(S, T)>::empty(), all);
            }
            pq.lemma_length_within_capacity();
        }
        pq
    }
}

/// A collection of entries that a queue can be built from.
pub trait Entries<S, T>: Sized {
    /// The entries, first to last.
    spec fn entries(self) -> Seq<(S, T)>;

    /// The entries as a vector, in their order.
    fn into_vec(self) -> (entries: Vec<(S, T)>)
        ensures
            entries@ == self.entries(),
    ;
}

impl<S, T> Entries<S, T> for Vec<(S, T)> {
    open spec fn entries(self) -> Seq<(S, T)> {
        self@
    }

    fn into_vec(self) -> (entries: Vec<(S, T)>) {
        self
    }
}

impl<S, T, const N: usize> Entries<S, T> for [(S, T); N] {
    open spec fn entries(self) -> Seq<(S, T)> {
        self@
    }

    fn into_vec(self) -> (entries: Vec<(S, T)>) {
        array_into_vec(self)
    }
}

/// `Vec::from` on an array: a vector of the array's elements, in their order.
#[verifier::external_body]
fn array_into_vec<E, const N: usize>(arr: [E; N]) -> (entries: Vec<E>)
    ensures
        entries@ == arr@,
{
    Vec::from(arr)
}

impl<S, T> Default for PriorityQueue<S, T> where S: PartialOrd {
    /// An empty queue.
    fn default() -> (pq: Self)
        ensures
            pq@ == Seq::<(S, T)>::empty(),
            pq.cap() == initial_capacity::<S, T>(0),
            pq@.len() <= pq.cap(),
    {
        PriorityQueue::new()
    }
}

impl<S, T> core::ops::Deref for PriorityQueue<S, T> where S: PartialOrd {
    type Target = [(S, T)];

    /// The entries as a slice, in storage order.
    fn deref(&self) -> (entries: &[(S, T)])
        ensures
            entries@ == self@,
    {
        self.data.slots.as_slice()
    }
}

impl<S, T> core::ops::DerefMut for PriorityQueue<S, T> where S: PartialOrd {
    /// The entries as a slice that can be written to, in storage order. The
    /// queue takes the slice back as it is left: whoever changes a score
    /// through it answers for heap order.
    fn deref_mut(&mut self) -> (entries: &mut [(S, T)])
        ensures
            entries@ == old(self)@,
            final(self)@ == final(entries)@,
            final(self)@.len() <= final(self).cap(),
            final(entries)@.len() == entries@.len() ==> final(self).cap() == old(self).cap(),
    {
        let entries = self.data.slots.as_mut_slice();
        proof {
            assert(final(entries).len() == final(entries)@.len());
        }
        entries
    }
}

impl<S, T> Clone for PriorityQueue<S, T> where S: PartialOrd + Clone, T: Clone {
    /// A queue of clones of the entries, in the same storage order, with
    /// room for one entry more.
    fn clone(&self) -> (pq: Self)
        ensures
            pq@.len() == self@.len(),
            forall|i: int| 0 <= i < self@.len() ==> cloned::<(S, T)>(self@[i], #[trigger] pq@[i]),
            pq@.len() <= pq.cap(),
            self@.len() < initial_capacity::<S, T>(usize::MAX) ==> {
                pq.cap() == initial_capacity::<S, T>((self@.len() + 1) as usize)
            },
    {
        let slots = self.data.slots.clone();
        let len = slots.len();
        let spare: usize = if core::mem::size_of::<(S, T)>() == 0 {
            if len <= MAX_ZST_CAPACITY {
                MAX_ZST_CAPACITY - len
            } else {
                0
            }
        } else if len < usize::MAX {
            1
        } else {
            0
        };
        let pq = PriorityQueue { data: RawPQ { slots, spare } };
        proof {
            pq.lemma_length_within_capacity();
        }
        pq
    }
}

impl<S, T> core::ops::Add for PriorityQueue<S, T> where S: PartialOrd {
    type Output = Self;

    /// The two queues merged into one: every entry of `rhs` is extracted and
    /// put into `self`.
    fn add(self, rhs: Self) -> (pq: Self)
        ensures
            pq@.len() == self@.len() + rhs@.len(),
            pq@.to_multiset() == self@.to_multiset().add(rhs@.to_multiset()),
            pq.cap() == capacity_after_puts(self.cap() as nat, self@.len(), rhs@.len()),
            pq@.len() <= pq.cap(),
            obeys_order::<S>() ==> pq@ == merged_into(self@, rhs@),
            obeys_order::<S>() && lawful_among(self@ + rhs@) && is_heap(self@) ==> is_heap(pq@),
    {
        let mut res: PriorityQueue<S, T> = self;
        let mut rhs_ = rhs;
        res.merge(&mut rhs_);
        res
    }
}

impl<S, T> AddSpecImpl for PriorityQueue<S, T> where S: PartialOrd {
    /// No value is named beforehand for what `+` returns: the contract of
    /// `add` says what the queue holds.
    open spec fn obeys_add_spec() -> bool {
        false
    }

    /// The left queue has room for the entries of the right one.
    open spec fn add_req(self, rhs: Self) -> bool {
        room_for::<S, T>(self.cap() as nat, self@.len(), rhs@.len())
    }

    open spec fn add_spec(self, rhs: Self) -> Self {
        arbitrary()
    }
}

impl<S, T> IntoIterator for PriorityQueue<S, T> where S: PartialOrd {
    type Item = (S, T);

    type IntoIter = IntoIter<S, T>;

    /// Consumes the queue and hands out every entry, in storage order.
    fn into_iter(self) -> (iter: IntoIter<S, T>)
        ensures
            iter@ == self@,
    {
        IntoIter::new(self.data.slots)
    }
}

} // verus!
