//! The backing store: the buffer that holds the entries, and how much room it
//! has promised to keep for them.
//!
//! The capacity is counted in slots and is never less than the number of
//! entries. A store never asks for more than `isize::MAX` bytes; whether the
//! allocator can give what is asked for within that bound is for the
//! allocator to say, and no contract here speaks of that.

use vstd::prelude::*;

verus! {

/// Slots that the first growth of an empty store provides.
pub const INITIAL_CAPACITY: usize = 10;

/// Each later growth multiplies the capacity by this.
pub const GROWTH_FACTOR: usize = 3;

/// The capacity of a store whose entries take no memory. Such a store never
/// grows.
pub const MAX_ZST_CAPACITY: usize = 1 << (usize::BITS - 1);

/// `MAX_ZST_CAPACITY` is half of what `usize` can count, rounded up.
pub proof fn lemma_max_zst_capacity()
    ensures
        MAX_ZST_CAPACITY == usize::MAX / 2 + 1,
{
    if usize::BITS == 32 {
        assert(1usize << 31 == 0x8000_0000) by (bit_vector)
            requires
                usize::BITS == 32,
        ;
    } else {
        assert(1usize << 63 == 0x8000_0000_0000_0000) by (bit_vector)
            requires
                usize::BITS == 64,
        ;
    }
}

/// The number of bytes that an entry `(S, T)` occupies.
pub open spec fn entry_size<S, T>() -> nat {
    vstd::layout::size_of::<(S, T)>()
}

/// Whether an entry `(S, T)` occupies no memory.
pub open spec fn zero_sized<S, T>() -> bool {
    entry_size::<S, T>() == 0
}

/// The capacity that a store starts with when `n` slots are asked for.
pub open spec fn initial_capacity<S, T>(n: usize) -> usize {
    if zero_sized::<S, T>() {
        MAX_ZST_CAPACITY
    } else {
        n
    }
}

/// `n` slots take no more bytes than one allocation can have.
pub open spec fn allocatable<S, T>(n: nat) -> bool {
    n * entry_size::<S, T>() <= isize::MAX
}

/// The capacity that follows `cap` when the store grows once.
pub open spec fn grown(cap: nat) -> nat {
    if cap == 0 {
        INITIAL_CAPACITY as nat
    } else {
        GROWTH_FACTOR as nat * cap
    }
}

/// A store of capacity `cap` can grow: its entries have a size, and the
/// capacity it would grow to takes no more bytes than one allocation can
/// have.
pub open spec fn growable<S, T>(cap: nat) -> bool {
    !zero_sized::<S, T>() && allocatable::<S, T>(grown(cap))
}

/// The capacity that follows `cap` when a store holding `len` entries gives
/// room back: half, but never less than what is in use. A store of zero-sized
/// entries keeps its capacity.
pub open spec fn shrunk<S, T>(cap: nat, len: nat) -> nat {
    if zero_sized::<S, T>() || cap / 2 < len {
        cap
    } else {
        cap / 2
    }
}

/// `n` slots of `size` bytes each fit into `most` bytes exactly when `n` is
/// no more than `most / size`.
proof fn lemma_slots_within(n: nat, size: nat, most: nat)
    requires
        size > 0,
    ensures
        n * size <= most <==> n <= most / size,
{
    vstd::arithmetic::div_mod::lemma_fundamental_div_mod(most as int, size as int);
    vstd::arithmetic::div_mod::lemma_mod_bound(most as int, size as int);
    let q = most / size;
    if n <= q {
        assert(n * size <= q * size) by (nonlinear_arith)
            requires
                n <= q,
        ;
        assert(q * size == size * q) by (nonlinear_arith);
    } else {
        assert(n * size >= (q + 1) * size) by (nonlinear_arith)
            requires
                n >= q + 1,
        ;
        assert((q + 1) * size == size * q + size) by (nonlinear_arith);
    }
}

/// A growable buffer of entries in storage order, with a capacity that only
/// `grow` and `shrink` change. It knows nothing of the order of scores.
///
/// The store keeps the buffer and the number of slots that are free beyond
/// it, so that its capacity cannot be less than what it holds.
#[derive(Debug)]
pub struct RawPQ<S, T> {
    pub(crate) slots: Vec<(S, T)>,
    pub(crate) spare: usize,
}

impl<S, T> View for RawPQ<S, T> {
    type V = Seq<(S, T)>;

    /// The entries, in storage order.
    open(crate) spec fn view(&self) -> Seq<(S, T)> {
        self.slots@
    }
}

impl<S, T> RawPQ<S, T> {
    /// The number of slots the store has room for: those in use and those
    /// that are free.
    pub open(crate) spec fn spec_cap(&self) -> usize {
        if self.slots@.len() + self.spare <= usize::MAX {
            (self.slots@.len() + self.spare) as usize
        } else {
            usize::MAX
        }
    }

    /// A store never holds more than it has room for.
    pub proof fn lemma_length_within_capacity(&self)
        ensures
            self@.len() <= self.cap(),
    {
        assert(self.slots.len() == self.slots@.len());
    }

    /// Whether `n` slots take no more bytes than one allocation can have, so
    /// that a store with room for `n` entries can be asked for.
    pub fn can_hold(n: usize) -> (can: bool)
        ensures
            can == allocatable::<S, T>(n as nat),
    {
        let size = core::mem::size_of::<(S, T)>();
        if size == 0 {
            assert(n * entry_size::<S, T>() == 0) by (nonlinear_arith)
                requires
                    entry_size::<S, T>() == 0,
            ;
            return true;
        }
        proof {
            lemma_slots_within(n as nat, size as nat, isize::MAX as nat);
        }
        n <= (isize::MAX as usize) / size
    }

    /// An empty store. Nothing is allocated until the first growth.
    pub fn new() -> (store: Self)
        ensures
            store@ == Seq::<(S, T)>::empty(),
            store.cap() == initial_capacity::<S, T>(0),
            store@.len() <= store.cap(),
    {
        let spare: usize = if core::mem::size_of::<(S, T)>() == 0 {
            MAX_ZST_CAPACITY
        } else {
            0
        };
        RawPQ { slots: Vec::new(), spare }
    }

    /// An empty store with room for `n` entries.
    pub fn with_capacity(n: usize) -> (store: Self)
        requires
            allocatable::<S, T>(n as nat),
        ensures
            store@ == Seq::<(S, T)>::empty(),
            store.cap() == initial_capacity::<S, T>(n),
            store@.len() <= store.cap(),
    {
        let spare: usize = if core::mem::size_of::<(S, T)>() == 0 {
            MAX_ZST_CAPACITY
        } else {
            n
        };
        RawPQ { slots: Vec::with_capacity(n), spare }
    }

    /// The number of slots the store has room for.
    #[verifier::when_used_as_spec(spec_cap)]
    pub fn cap(&self) -> (cap: usize)
        ensures
            cap == self.spec_cap(),
            self@.len() <= cap,
    {
        let len = self.slots.len();
        if self.spare <= usize::MAX - len {
            len + self.spare
        } else {
            usize::MAX
        }
    }

    /// Whether the store can grow once more.
    pub fn can_grow(&self) -> (can: bool)
        ensures
            can == growable::<S, T>(self.cap() as nat),
    {
        if core::mem::size_of::<(S, T)>() == 0 {
            return false;
        }
        let cap = self.cap();
        if cap == 0 {
            Self::can_hold(INITIAL_CAPACITY)
        } else if cap <= usize::MAX / GROWTH_FACTOR {
            Self::can_hold(GROWTH_FACTOR * cap)
        } else {
            proof {
                lemma_slots_within(grown(cap as nat), entry_size::<S, T>(), isize::MAX as nat);
                vstd::arithmetic::div_mod::lemma_div_is_ordered_by_denominator(
                    isize::MAX as int,
                    1,
                    entry_size::<S, T>() as int,
                );
            }
            false
        }
    }

    /// Grows the store once: to `INITIAL_CAPACITY` from nothing, else to
    /// `GROWTH_FACTOR` times what it had. The entries stay as they are.
    pub fn grow(&mut self)
        requires
            growable::<S, T>(old(self).cap() as nat),
        ensures
            final(self)@ == old(self)@,
            final(self).cap() == grown(old(self).cap() as nat),
            final(self)@.len() <= final(self).cap(),
    {
        let cap = self.cap();
        proof {
            lemma_slots_within(
                grown(cap as nat),
                entry_size::<S, T>(),
                isize::MAX as nat,
            );
            vstd::arithmetic::div_mod::lemma_div_is_ordered_by_denominator(
                isize::MAX as int,
                1,
                entry_size::<S, T>() as int,
            );
        }
        let new_cap: usize = if cap == 0 {
            INITIAL_CAPACITY
        } else {
            GROWTH_FACTOR * cap
        };
        let spare = new_cap - self.slots.len();
        self.slots.reserve(spare);
        self.spare = spare;
    }

    /// Gives unused room back: the capacity becomes `shrunk` of what it was.
    /// The entries stay as they are.
    pub fn shrink(&mut self)
        ensures
            final(self)@ == old(self)@,
            final(self).cap() == shrunk::<S, T>(old(self).cap() as nat, old(self)@.len()),
            final(self)@.len() <= final(self).cap(),
    {
        let half = self.cap() / 2;
        let len = self.slots.len();
        if core::mem::size_of::<(S, T)>() != 0 && half >= len {
            release_unused(&mut self.slots, half);
            self.spare = half - len;
        }
    }

    /// Appends an entry in a free slot.
    pub(crate) fn push(&mut self, entry: (S, T))
        requires
            old(self)@.len() < old(self).cap(),
        ensures
            final(self)@ == old(self)@.push(entry),
            final(self).cap() == old(self).cap(),
    {
        self.slots.push(entry);
        self.spare = self.spare - 1;
    }

    /// Counts `freed` slots, which entries have just left, as free again.
    pub(crate) fn release(&mut self, freed: usize)
        requires
            old(self)@.len() + freed <= usize::MAX,
        ensures
            final(self)@ == old(self)@,
            final(self).cap() == if old(self)@.len() + freed + old(self).spare <= usize::MAX {
                (old(self)@.len() + freed + old(self).spare) as usize
            } else {
                usize::MAX
            },
    {
        self.spare = if self.spare <= usize::MAX - freed {
            self.spare + freed
        } else {
            usize::MAX
        };
    }
}

/// `Vec::shrink_to`: lowers the vector's capacity towards `keep` and leaves
/// its contents untouched.
#[verifier::external_body]
fn release_unused<E>(slots: &mut Vec<E>, keep: usize)
    ensures
        final(slots)@ == old(slots)@,
{
    slots.shrink_to(keep)
}

} // verus!
