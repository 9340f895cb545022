//! An arena of slots that reuses the slots it frees, and the tiers of a
//! tiered store.

use vstd::prelude::*;

verus! {

/// A slot of an arena: holds a value or nothing.
#[derive(Clone, Copy, Debug, PartialEq, Eq)]
pub enum Slot<T> {
    /// The slot holds a value.
    Occupied(T),
    /// The slot is free.
    Vacant,
}

impl<T: Copy> Slot<T> {
    /// Puts `value` in the slot.
    pub fn occupy(&mut self, value: T)
        ensures
            *final(self) == Slot::Occupied(value),
    {
        *self = Slot::Occupied(value);
    }

    /// Empties the slot.
    pub fn vacate(&mut self)
        ensures
            *final(self) == Slot::<T>::Vacant,
    {
        *self = Slot::Vacant;
    }
}

impl<T> Default for Slot<T> {
    /// A vacant slot.
    fn default() -> (slot: Self)
        ensures
            slot == Slot::<T>::Vacant,
    {
        Slot::Vacant
    }
}

/// The number of occupied slots among `slots`.
pub open spec fn occupied_count<T>(slots: Seq<Slot<T>>) -> nat
    decreases slots.len(),
{
    if slots.len() == 0 {
        0
    } else {
        occupied_count(slots.drop_last()) + if slots.last() is Occupied {
            1nat
        } else {
            0nat
        }
    }
}

/// The index of the first vacant slot of `slots`, or its length if none is.
pub open spec fn first_vacant<T>(slots: Seq<Slot<T>>, i: int) -> bool {
    &&& 0 <= i <= slots.len()
    &&& forall|j: int| 0 <= j < i ==> #[trigger] slots[j] is Occupied
    &&& i < slots.len() ==> slots[i] is Vacant
}

/// The count of occupied slots does not exceed the number of slots.
proof fn lemma_count_bound<T>(slots: Seq<Slot<T>>)
    ensures
        occupied_count(slots) <= slots.len(),
    decreases slots.len(),
{
    if slots.len() > 0 {
        lemma_count_bound(slots.drop_last());
    }
}

/// Setting slot `i` changes the count by what slot `i` held and holds.
proof fn lemma_count_update<T>(slots: Seq<Slot<T>>, i: int, s: Slot<T>)
    requires
        0 <= i < slots.len(),
    ensures
        occupied_count(slots.update(i, s)) + (if slots[i] is Occupied { 1int } else { 0int })
            == occupied_count(slots) + (if s is Occupied { 1int } else { 0int }),
    decreases slots.len(),
{
    if i < slots.len() - 1 {
        lemma_count_update(slots.drop_last(), i, s);
        assert(slots.update(i, s).drop_last() == slots.drop_last().update(i, s));
    } else {
        assert(slots.update(i, s).drop_last() == slots.drop_last());
    }
}

/// A vacant slot at the end adds nothing to the count.
proof fn lemma_count_push_vacant<T>(slots: Seq<Slot<T>>)
    ensures
        occupied_count(slots.push(Slot::Vacant)) == occupied_count(slots),
{
    assert(slots.push(Slot::Vacant).drop_last() == slots);
}

/// Slots with no occupied one count zero.
proof fn lemma_count_all_vacant<T>(slots: Seq<Slot<T>>)
    requires
        forall|j: int| 0 <= j < slots.len() ==> #[trigger] slots[j] is Vacant,
    ensures
        occupied_count(slots) == 0,
    decreases slots.len(),
{
    if slots.len() > 0 {
        lemma_count_all_vacant(slots.drop_last());
    }
}

/// An arena: values in slots, each inserted value at the first free slot.
pub struct Arena<T> {
    slots: Vec<Slot<T>>,
    len: usize,
    next_free: usize,
}

impl<T: Copy> Arena<T> {
    /// The slots of the arena.
    pub closed spec fn slots(&self) -> Seq<Slot<T>> {
        self.slots@
    }

    /// The number of occupied slots is counted, and the next free slot is
    /// the first vacant one.
    pub closed spec fn wf(&self) -> bool {
        &&& self.len == occupied_count(self.slots@)
        &&& first_vacant(self.slots@, self.next_free as int)
    }

    /// An arena with no slots.
    pub fn new() -> (arena: Self)
        ensures
            arena.wf(),
            arena.slots() == Seq::<Slot<T>>::empty(),
    {
        Self { slots: Vec::new(), len: 0, next_free: 0 }
    }

    /// An arena of `capacity` vacant slots.
    pub fn with_capacity(capacity: usize) -> (arena: Self)
        ensures
            arena.wf(),
            arena.slots().len() == capacity,
            forall|j: int| 0 <= j < capacity ==> #[trigger] arena.slots()[j] == Slot::<T>::Vacant,
    {
        let mut slots: Vec<Slot<T>> = Vec::new();
        let mut i: usize = 0;
        while i < capacity
            invariant
                i <= capacity,
                slots@.len() == i,
                forall|j: int| 0 <= j < i ==> #[trigger] slots@[j] == Slot::<T>::Vacant,
            decreases capacity - i,
        {
            slots.push(Slot::Vacant);
            i = i + 1;
        }
        proof {
            lemma_count_all_vacant(slots@);
        }
        Self { slots, len: 0, next_free: 0 }
    }

    /// The number of slots.
    pub fn capacity(&self) -> (n: usize)
        ensures
            n == self.slots().len(),
    {
        self.slots.len()
    }

    /// The number of occupied slots.
    pub fn len(&self) -> (n: usize)
        requires
            self.wf(),
        ensures
            n == occupied_count(self.slots()),
    {
        self.len
    }

    /// Puts `value` in the first vacant slot, adding one at the end if none
    /// is vacant, and returns its index.
    pub fn insert(&mut self, value: T) -> (index: usize)
        requires
            old(self).wf(),
            old(self).slots().len() < usize::MAX,
        ensures
            final(self).wf(),
            first_vacant(old(self).slots(), index as int),
            final(self).slots() == (if index == old(self).slots().len() {
                old(self).slots().push(Slot::Occupied(value))
            } else {
                old(self).slots().update(index as int, Slot::Occupied(value))
            }),
    {
        if self.next_free == self.slots.len() {
            proof {
                lemma_count_push_vacant(self.slots@);
            }
            self.slots.push(Slot::Vacant);
        }
        let ghost before = self.slots@;
        let index = self.next_free;
        proof {
            lemma_count_update(before, index as int, Slot::Occupied(value));
            lemma_count_bound(before.update(index as int, Slot::Occupied(value)));
        }
        self.slots.set(index, Slot::Occupied(value));
        self.len = self.len + 1;
        let mut next = index + 1;
        while next < self.slots.len() && matches!(self.slots[next], Slot::Occupied(_))
            invariant
                index < next <= self.slots@.len(),
                forall|j: int| 0 <= j < next ==> #[trigger] self.slots@[j] is Occupied,
            decreases self.slots@.len() - next,
        {
            next = next + 1;
        }
        self.next_free = next;
        proof {
            if index == old(self).slots@.len() {
                assert(before == old(self).slots@.push(Slot::Vacant));
                assert(self.slots@ == old(self).slots@.push(Slot::Occupied(value)));
            }
        }
        index
    }

    /// Keeps the values for which `predicate` holds and frees the slots of
    /// the others.
    pub fn retain<F: Fn(&T) -> bool>(&mut self, predicate: F)
        requires
            old(self).wf(),
            forall|j: int|
                0 <= j < old(self).slots().len() ==> (#[trigger] old(self).slots()[j] matches Slot::Occupied(v)
                    ==> predicate.requires((&v,))),
        ensures
            final(self).wf(),
            final(self).slots().len() == old(self).slots().len(),
            forall|j: int|
                0 <= j < old(self).slots().len() ==> #[trigger] kept(
                    predicate,
                    old(self).slots()[j],
                    final(self).slots()[j],
                ),
    {
        let mut i: usize = self.slots.len();
        let ghost old_slots = self.slots@;
        assert forall|j: int|
            0 <= j < old_slots.len() implies (#[trigger] old_slots[j] matches Slot::Occupied(v)
                ==> predicate.requires((&v,))) by {
            assert(old_slots[j] == old(self).slots()[j]);
        }
        while i > 0
            invariant
                i <= self.slots@.len(),
                self.slots@.len() == old_slots.len(),
                self.len == occupied_count(self.slots@),
                forall|j: int|
                    0 <= j < old_slots.len() ==> (#[trigger] old_slots[j] matches Slot::Occupied(v)
                        ==> predicate.requires((&v,))),
                forall|j: int| 0 <= j < i ==> #[trigger] self.slots@[j] == old_slots[j],
                forall|j: int| i <= j < old_slots.len() ==> #[trigger] kept(predicate, old_slots[j], self.slots@[j]),
            decreases i,
        {
            i = i - 1;
            let slot = self.slots[i];
            match slot {
                Slot::Vacant => {},
                Slot::Occupied(value) => {
                    if !predicate(&value) {
                        proof {
                            lemma_count_update(self.slots@, i as int, Slot::Vacant);
                        }
                        self.slots.set(i, Slot::Vacant);
                        self.len = self.len - 1;
                    }
                },
            }
        }
        let mut next: usize = 0;
        while next < self.slots.len() && matches!(self.slots[next], Slot::Occupied(_))
            invariant
                next <= self.slots@.len(),
                forall|j: int| 0 <= j < next ==> #[trigger] self.slots@[j] is Occupied,
            decreases self.slots@.len() - next,
        {
            next = next + 1;
        }
        self.next_free = next;
    }
}

/// What `retain` leaves of a slot: a vacant slot stays vacant; an occupied
/// slot stays as it was where the predicate held of its value, and is freed
/// where it did not.
pub open spec fn kept<T, F: Fn(&T) -> bool>(predicate: F, before: Slot<T>, after: Slot<T>) -> bool {
    match before {
        Slot::Vacant => after is Vacant,
        Slot::Occupied(v) => (after == before && predicate.ensures((&v,), true)) || (after is Vacant
            && predicate.ensures((&v,), false)),
    }
}

/// The tier of a node: the log of its side length.
#[derive(Clone, Copy, Debug, PartialEq, Eq, Structural)]
pub struct Tier {
    index: u8,
}

impl Tier {
    /// The highest tier.
    pub const MAX_INDEX: u8 = 63;

    /// The index of the tier.
    pub closed spec fn index(&self) -> u8 {
        self.index
    }

    /// The tier of the given index.
    pub fn new(index: u8) -> (tier: Self)
        ensures
            tier.index() == index,
    {
        Self { index }
    }

    /// The tier below.
    pub fn decrement(&self) -> (tier: Self)
        requires
            self.index() > 0,
        ensures
            tier.index() == self.index() - 1,
    {
        Self::new(self.index - 1)
    }

    /// The tier above.
    pub fn increment(&self) -> (tier: Self)
        requires
            self.index() < u8::MAX,
        ensures
            tier.index() == self.index() + 1,
    {
        Self::new(self.index + 1)
    }
}

} // verus!
