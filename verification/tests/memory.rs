use smeagol::memory::{Arena, Slot, Tier};

#[test]
fn arena() {
    let mut arena = Arena::<char>::with_capacity(5);

    arena.insert('a');
    arena.insert('b');
    arena.insert('c');
    arena.insert('d');
    arena.insert('e');

    assert_eq!(arena.len(), 5);

    arena.retain(|c: &char| (*c as u8) % 2 == 1);

    assert_eq!(arena.len(), 3);

    arena.insert('X');
    arena.insert('Y');
    arena.insert('Z');
}

#[test]
fn arena_reuses_freed_slots() {
    let mut arena = Arena::<u32>::new();
    assert_eq!(arena.capacity(), 0);
    assert_eq!(arena.insert(10), 0);
    assert_eq!(arena.insert(11), 1);
    assert_eq!(arena.insert(12), 2);
    assert_eq!(arena.capacity(), 3);
    arena.retain(|v: &u32| *v != 11);
    assert_eq!(arena.len(), 2);
    // the freed slot is filled first, then the arena grows
    assert_eq!(arena.insert(13), 1);
    assert_eq!(arena.insert(14), 3);
    assert_eq!(arena.len(), 4);
    assert_eq!(arena.capacity(), 4);
    arena.retain(|_: &u32| false);
    assert_eq!(arena.len(), 0);
    assert_eq!(arena.insert(15), 0);
}

#[test]
fn slot_and_tier() {
    let mut slot: Slot<u8> = Slot::default();
    assert_eq!(slot, Slot::Vacant);
    slot.occupy(3);
    assert_eq!(slot, Slot::Occupied(3));
    slot.vacate();
    assert_eq!(slot, Slot::Vacant);
    assert_eq!(Tier::new(4).increment(), Tier::new(5));
    assert_eq!(Tier::new(4).decrement(), Tier::new(3));
}
