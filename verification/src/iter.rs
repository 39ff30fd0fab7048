//! The sequences that a queue hands its entries out through. Each yields
//! entries in storage order, which is not the order of their scores.

use vstd::prelude::*;
use vstd::std_specs::iter::IteratorSpecImpl;

verus! {

/// Entries that were taken from a buffer, handed out front to back.
#[derive(Debug)]
pub struct RawPQIter<S, T> {
    /// What is still to come, last first.
    rest: Vec<(S, T)>,
}

impl<S, T> View for RawPQIter<S, T> {
    type V = Seq<(S, T)>;

    /// The entries still to come, in the order they will come.
    closed spec fn view(&self) -> Seq<(S, T)> {
        self.rest@.reverse()
    }
}

impl<S, T> RawPQIter<S, T> {
    /// Takes over `entries`, to hand them out first to last.
    pub fn new(entries: Vec<(S, T)>) -> (iter: Self)
        ensures
            iter@ == entries@,
    {
        let ghost all = entries@;
        let mut entries = entries;
        let mut rest: Vec<(S, T)> = Vec::with_capacity(entries.len());
        while entries.len() > 0
            invariant
                entries@ == all.take(entries@.len() as int),
                entries@.len() <= all.len(),
                rest@ == all.skip(entries@.len() as int).reverse(),
            decreases entries@.len(),
        {
            let ghost before = entries@.len() as int;
            match entries.pop() {
                Some(entry) => {
                    rest.push(entry);
                    assert(rest@ =~= all.skip(before - 1).reverse());
                    assert(entries@ =~= all.take(before - 1));
                },
                None => {},
            }
        }
        assert(rest@.reverse() =~= all);
        RawPQIter { rest }
    }
}

impl<S, T> Iterator for RawPQIter<S, T> {
    type Item = (S, T);

    /// The next entry, `None` once all have been handed out.
    fn next(&mut self) -> (entry: Option<(S, T)>)
        ensures
            old(self)@.len() > 0 ==> {
                &&& entry == Some(old(self)@[0])
                &&& final(self)@ == old(self)@.drop_first()
            },
            old(self)@.len() == 0 ==> entry is None && final(self)@ == old(self)@,
    {
        let entry = self.rest.pop();
        assert(old(self)@.len() > 0 ==> self@ =~= old(self)@.drop_first());
        entry
    }

    /// The number of entries still to come, as lower and upper bound.
    fn size_hint(&self) -> (bounds: (usize, Option<usize>))
        ensures
            bounds.0 == self@.len(),
            bounds.1 == Some(bounds.0),
    {
        let len = self.rest.len();
        (len, Some(len))
    }
}

impl<S, T> IteratorSpecImpl for RawPQIter<S, T> {
    open spec fn obeys_prophetic_iter_laws(&self) -> bool {
        true
    }

    open spec fn remaining(&self) -> Seq<(S, T)> {
        self@
    }

    open spec fn will_return_none(&self) -> bool {
        true
    }

    open spec fn decrease(&self) -> Option<nat> {
        Some(self@.len())
    }

    open spec fn initial_value_relation(&self, init: &Self) -> bool {
        init@ == self@
    }

    open spec fn peek(&self, index: int) -> Option<(S, T)> {
        if 0 <= index < self@.len() {
            Some(self@[index])
        } else {
            None
        }
    }
}

/// Every entry of a queue that was consumed, in storage order. Entries not
/// taken by the time it is dropped are dropped with it.
#[derive(Debug)]
pub struct IntoIter<S, T> {
    iter: RawPQIter<S, T>,
}

impl<S, T> View for IntoIter<S, T> {
    type V = Seq<(S, T)>;

    /// The entries still to come, in the order they will come.
    closed spec fn view(&self) -> Seq<(S, T)> {
        self.iter@
    }
}

impl<S, T> IntoIter<S, T> {
    /// Takes over the entries of a consumed queue.
    pub(crate) fn new(entries: Vec<(S, T)>) -> (iter: Self)
        ensures
            iter@ == entries@,
    {
        IntoIter { iter: RawPQIter::new(entries) }
    }
}

impl<S, T> Iterator for IntoIter<S, T> {
    type Item = (S, T);

    /// The next entry, `None` once all have been handed out.
    fn next(&mut self) -> (entry: Option<(S, T)>)
        ensures
            old(self)@.len() > 0 ==> {
                &&& entry == Some(old(self)@[0])
                &&& final(self)@ == old(self)@.drop_first()
            },
            old(self)@.len() == 0 ==> entry is None && final(self)@ == old(self)@,
    {
        self.iter.next()
    }

    /// The number of entries still to come, as lower and upper bound.
    fn size_hint(&self) -> (bounds: (usize, Option<usize>))
        ensures
            bounds.0 == self@.len(),
            bounds.1 == Some(bounds.0),
    {
        self.iter.size_hint()
    }
}

impl<S, T> IteratorSpecImpl for IntoIter<S, T> {
    open spec fn obeys_prophetic_iter_laws(&self) -> bool {
        true
    }

    open spec fn remaining(&self) -> Seq<(S, T)> {
        self@
    }

    open spec fn will_return_none(&self) -> bool {
        true
    }

    open spec fn decrease(&self) -> Option<nat> {
        Some(self@.len())
    }

    open spec fn initial_value_relation(&self, init: &Self) -> bool {
        init@ == self@
    }

    open spec fn peek(&self, index: int) -> Option<(S, T)> {
        if 0 <= index < self@.len() {
            Some(self@[index])
        } else {
            None
        }
    }
}

/// The entries that `drain` removed from a queue, in storage order. The queue
/// is empty from the moment this exists; entries not taken by the time it is
/// dropped are dropped with it.
#[derive(Debug)]
pub struct Drain<S, T> {
    iter: RawPQIter<S, T>,
}

impl<S, T> View for Drain<S, T> {
    type V = Seq<(S, T)>;

    /// The entries still to come, in the order they will come.
    closed spec fn view(&self) -> Seq<(S, T)> {
        self.iter@
    }
}

impl<S, T> Drain<S, T> {
    /// Takes over the entries that were removed.
    pub(crate) fn new(entries: Vec<(S, T)>) -> (iter: Self)
        ensures
            iter@ == entries@,
    {
        Drain { iter: RawPQIter::new(entries) }
    }
}

impl<S, T> Iterator for Drain<S, T> {
    type Item = (S, T);

    /// The next entry, `None` once all have been handed out.
    fn next(&mut self) -> (entry: Option<(S, T)>)
        ensures
            old(self)@.len() > 0 ==> {
                &&& entry == Some(old(self)@[0])
                &&& final(self)@ == old(self)@.drop_first()
            },
            old(self)@.len() == 0 ==> entry is None && final(self)@ == old(self)@,
    {
        self.iter.next()
    }

    /// The number of entries still to come, as lower and upper bound.
    fn size_hint(&self) -> (bounds: (usize, Option<usize>))
        ensures
            bounds.0 == self@.len(),
            bounds.1 == Some(bounds.0),
    {
        self.iter.size_hint()
    }
}

impl<S, T> IteratorSpecImpl for Drain<S, T> {
    open spec fn obeys_prophetic_iter_laws(&self) -> bool {
        true
    }

    open spec fn remaining(&self) -> Seq<(S, T)> {
        self@
    }

    open spec fn will_return_none(&self) -> bool {
        true
    }

    open spec fn decrease(&self) -> Option<nat> {
        Some(self@.len())
    }

    open spec fn initial_value_relation(&self, init: &Self) -> bool {
        init@ == self@
    }

    open spec fn peek(&self, index: int) -> Option<(S, T)> {
        if 0 <= index < self@.len() {
            Some(self@[index])
        } else {
            None
        }
    }
}

} // verus!
