use std::cell::Cell;

use arenas::arena::{Arena, TypedArena};
use arenas::chain::Slot;

#[test]
fn typed_arena_runs_the_constructor_once() {
    let runs = Cell::new(0);
    let mut arena: TypedArena<String> = TypedArena::with_capacity(1);
    let slot = arena.allocate(|| {
        runs.set(runs.get() + 1);
        format!("made")
    });
    assert_eq!(runs.get(), 1);
    assert_eq!(arena.get(slot), "made");
}

#[test]
fn typed_arena_addresses_are_stable_and_fresh() {
    let mut arena: TypedArena<u64> = TypedArena::with_capacity(0);
    let mut slots: Vec<Slot> = Vec::new();
    for i in 0..100u64 {
        assert!(arena.fits_allocate());
        let slot = arena.allocate(|| i * i);
        assert!(!slots.contains(&slot));
        slots.push(slot);
    }
    for (i, slot) in slots.iter().enumerate() {
        assert_eq!(*arena.get(*slot), (i * i) as u64);
    }
    *arena.get_mut(slots[3]) += 1;
    assert_eq!(*arena.get(slots[3]), 10);
    assert_eq!(*arena.get(slots[2]), 4);
    assert_eq!(*arena.get(slots[4]), 16);
}

#[test]
fn arena_finalizes_what_was_constructed() {
    let mut arena = Arena::new();
    let mut constructed = Vec::new();
    for k in 0..30usize {
        let size = (k % 4) * 8;
        assert!(arena.fits_allocate(size, 8));
        let slot = arena.allocate(8, size, || if k % 5 == 4 { None } else { Some(vec![k as u8; size]) });
        match slot {
            Some(slot) => {
                assert!(k % 5 != 4);
                assert_eq!(arena.get(slot, size), &vec![k as u8; size][..]);
                constructed.push(slot);
            },
            None => assert!(k % 5 == 4),
        }
    }
    assert_eq!(constructed.len(), 24);
    assert_eq!(arena.teardown(), constructed);
}

#[test]
fn arena_keeps_objects_where_they_are() {
    let mut arena = Arena::new();
    let first = arena.allocate(16, 16, || Some(vec![7; 16])).unwrap();
    for _ in 0..200 {
        arena.allocate(32, 64, || Some(vec![1; 64]));
    }
    assert_eq!(first, Slot { chunk: 0, index: 16 });
    assert_eq!(arena.get(first, 16), &[7; 16]);
}
