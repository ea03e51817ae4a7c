use std::cell::Cell;
use std::rc::Rc;

use arenas::chain::{Chain, Slot};

struct DropType {
    count: Rc<Cell<usize>>,
}

impl DropType {
    fn new(count: &Rc<Cell<usize>>) -> DropType {
        count.set(count.get() + 1);
        DropType { count: count.clone() }
    }
}

impl Drop for DropType {
    fn drop(&mut self) {
        self.count.set(self.count.get() - 1);
    }
}

#[test]
fn drop_type() {
    let count = Rc::new(Cell::new(0usize));
    {
        let mut chain = Chain::new();

        chain.push(DropType::new(&count));
        chain.push(DropType::new(&count));
        chain.push(DropType::new(&count));

        assert_eq!(count.get(), 3);
    }

    assert_eq!(count.get(), 0);
}

#[test]
fn clear_finalizes_every_element_once() {
    let count = Rc::new(Cell::new(0usize));
    let mut chain = Chain::with_capacity(2);
    for _ in 0..7 {
        chain.push(DropType::new(&count));
    }
    assert_eq!(count.get(), 7);
    assert_eq!(chain.chunk_count(), 3);
    chain.clear();
    assert_eq!(count.get(), 0);
    assert_eq!(chain.chunk_count(), 1);
    assert_eq!(chain.len(), 0);
    assert_eq!(chain.chunk_capacity(0), 8);
}

#[test]
fn new_chain_has_one_chunk_of_eight() {
    let chain: Chain<u32> = Chain::new();
    assert_eq!(chain.chunk_count(), 1);
    assert_eq!(chain.chunk_capacity(0), 8);
    assert_eq!(chain.len(), 0);
}

#[test]
fn capacity_zero_becomes_one() {
    let chain: Chain<u32> = Chain::with_capacity(0);
    assert_eq!(chain.chunk_capacity(0), 1);
    let chain: Chain<u32> = Chain::with_capacity(5);
    assert_eq!(chain.chunk_capacity(0), 5);
}

#[test]
fn pushes_come_back_in_order() {
    let mut chain: Chain<u32> = Chain::with_capacity(3);
    for i in 0..50u32 {
        chain.push(i * 3);
    }
    assert_eq!(chain.len(), 50);
    let mut walk = chain.iter();
    for i in 0..50u32 {
        assert_eq!(walk.next(), Some(&(i * 3)));
    }
    assert_eq!(walk.next(), None);
    assert_eq!(walk.next_back(), None);
}

#[test]
fn backward_walk_is_the_reverse() {
    let mut chain: Chain<u32> = Chain::with_capacity(3);
    for i in 0..50u32 {
        chain.push(i);
    }
    let mut walk = chain.iter();
    for i in (0..50u32).rev() {
        assert_eq!(walk.next_back(), Some(&i));
    }
    assert_eq!(walk.next_back(), None);
    assert_eq!(walk.next(), None);
}

#[test]
fn walks_from_both_ends_meet() {
    let mut chain: Chain<u32> = Chain::with_capacity(2);
    for i in 0..9u32 {
        chain.push(i);
    }
    let mut walk = chain.iter();
    assert_eq!(walk.next(), Some(&0));
    assert_eq!(walk.next_back(), Some(&8));
    assert_eq!(walk.next(), Some(&1));
    assert_eq!(walk.next(), Some(&2));
    assert_eq!(walk.next_back(), Some(&7));
    assert_eq!(walk.next_back(), Some(&6));
    assert_eq!(walk.next_back(), Some(&5));
    assert_eq!(walk.next(), Some(&3));
    assert_eq!(walk.next(), Some(&4));
    assert_eq!(walk.next(), None);
    assert_eq!(walk.next_back(), None);
}

#[test]
fn addresses_are_stable_across_growth() {
    let mut chain: Chain<u64> = Chain::with_capacity(2);
    let mut slots = Vec::new();
    for i in 0..5u64 {
        slots.push(chain.push(i + 100));
    }
    let kept = slots[1];
    assert_eq!(kept, Slot { chunk: 0, index: 1 });
    let chunks_then = chain.chunk_count();
    for i in 0..1000u64 {
        chain.push(i);
    }
    assert!(chain.chunk_count() > chunks_then);
    assert_eq!(*chain.get(kept), 101);
    for (i, slot) in slots.iter().enumerate() {
        assert_eq!(*chain.get(*slot), 100 + i as u64);
    }
}

#[test]
fn growth_doubles_the_capacity() {
    let mut chain: Chain<u8> = Chain::with_capacity(4);
    for i in 0..4u8 {
        let slot = chain.push(i);
        assert_eq!(slot, Slot { chunk: 0, index: i as usize });
    }
    assert_eq!(chain.chunk_count(), 1);
    let slot = chain.push(4);
    assert_eq!(slot, Slot { chunk: 1, index: 0 });
    assert_eq!(chain.chunk_count(), 2);
    assert_eq!(chain.chunk_capacity(1), 8);
    for i in 0..8u8 {
        chain.push(i);
    }
    assert_eq!(chain.chunk_count(), 3);
    assert_eq!(chain.chunk_capacity(2), 16);
}

#[test]
fn growth_doubles_until_the_reservation_fits() {
    let mut chain: Chain<u8> = Chain::with_capacity(8);
    let (slot, available) = chain.reserve(100);
    assert_eq!(slot, Slot { chunk: 1, index: 0 });
    assert_eq!(available, 128);
    assert_eq!(chain.chunk_capacity(1), 128);

    let mut chain: Chain<u8> = Chain::with_capacity(8);
    let (_, available) = chain.reserve(16);
    assert_eq!(available, 16);
    let mut chain: Chain<u8> = Chain::with_capacity(8);
    let (_, available) = chain.reserve(17);
    assert_eq!(available, 32);
}

#[test]
fn reserve_within_the_tail_changes_nothing() {
    let mut chain: Chain<u8> = Chain::with_capacity(8);
    chain.push(1);
    let (slot, available) = chain.reserve(7);
    assert_eq!(slot, Slot { chunk: 0, index: 1 });
    assert_eq!(available, 7);
    assert_eq!(chain.chunk_count(), 1);
    let (slot, available) = chain.reserve(0);
    assert_eq!(slot, Slot { chunk: 0, index: 1 });
    assert_eq!(available, 7);
}

#[test]
fn reserve_and_commit() {
    let mut chain: Chain<u8> = Chain::with_capacity(8);
    let (slot, available) = chain.reserve(3);
    assert_eq!(available, 8);
    chain.add_len(vec![7, 8, 9]);
    assert_eq!(chain.len(), 3);
    assert_eq!(chain.chunk(slot.chunk), &[7, 8, 9]);
    let (slot, available) = chain.reserve(1);
    assert_eq!(slot, Slot { chunk: 0, index: 3 });
    assert_eq!(available, 5);
}

#[test]
fn overflowing_reservations_are_told_apart() {
    let chain: Chain<()> = Chain::with_capacity(usize::MAX / 2 + 1);
    assert!(chain.fits_reserve(usize::MAX / 2 + 1));
    assert!(!chain.fits_reserve(usize::MAX));
    let chain: Chain<u64> = Chain::with_capacity(4);
    assert!(chain.fits_reserve(1000));
    assert!(!chain.fits_reserve(usize::MAX / 8));
}

#[test]
fn extend_is_one_contiguous_run() {
    let mut chain: Chain<u16> = Chain::with_capacity(4);
    chain.push(1);
    {
        let run = chain.extend_as_slice(vec![2, 3, 4, 5, 6]);
        assert_eq!(run, &[2, 3, 4, 5, 6]);
    }
    assert_eq!(chain.chunk_count(), 2);
    assert_eq!(chain.chunk(0), &[1]);
    assert_eq!(chain.chunk(1), &[2, 3, 4, 5, 6]);
    let run = chain.extend_as_slice(Vec::new());
    assert_eq!(run.len(), 0);
}

#[test]
fn shrink_gives_back_the_last_reservation() {
    let mut chain: Chain<u8> = Chain::with_capacity(16);
    chain.push(9);
    let (slot, _) = chain.reserve(10);
    chain.add_len(vec![0; 10]);
    assert_eq!(chain.len(), 11);
    chain.shrink_len(slot, 10, 3);
    assert_eq!(chain.len(), 4);
    let (next, available) = chain.reserve(1);
    assert_eq!(next, Slot { chunk: 0, index: 4 });
    assert_eq!(available, 12);
}

#[test]
fn shrink_is_a_no_op_when_something_came_after() {
    let mut chain: Chain<u8> = Chain::with_capacity(16);
    let (slot, _) = chain.reserve(4);
    chain.add_len(vec![1, 2, 3, 4]);
    chain.push(5);
    chain.shrink_len(slot, 4, 1);
    assert_eq!(chain.len(), 5);
    assert_eq!(chain.chunk(0), &[1, 2, 3, 4, 5]);
    chain.shrink_len(Slot { chunk: 0, index: 1 }, 4, 5);
    assert_eq!(chain.len(), 5);
    chain.shrink_len(Slot { chunk: 3, index: 1 }, 4, 0);
    assert_eq!(chain.len(), 5);
    chain.shrink_len(Slot { chunk: 0, index: 1 }, usize::MAX, 0);
    assert_eq!(chain.len(), 5);
}

#[test]
fn chunks_walk_from_both_ends() {
    let mut chain: Chain<u8> = Chain::with_capacity(2);
    for i in 0..7u8 {
        chain.push(i);
    }
    let mut chunks = chain.chunks();
    assert_eq!(chunks.next(), Some(&[0u8, 1][..]));
    assert_eq!(chunks.next_back(), Some(&[6u8][..]));
    assert_eq!(chunks.next(), Some(&[2u8, 3, 4, 5][..]));
    assert_eq!(chunks.next(), None);
    assert_eq!(chunks.next_back(), None);
}

#[test]
fn elements_can_be_written_in_place() {
    let mut chain: Chain<u32> = Chain::with_capacity(2);
    let a = chain.push(1);
    let b = chain.push(2);
    let c = chain.push(3);
    *chain.get_mut(b) = 20;
    assert_eq!(*chain.get(a), 1);
    assert_eq!(*chain.get(b), 20);
    assert_eq!(*chain.get(c), 3);
    chain.write(Slot { chunk: 0, index: 0 }, &[7, 8]);
    assert_eq!(chain.chunk(0), &[7, 8]);
    assert_eq!(chain.chunk(1), &[3]);
}

#[test]
fn mutable_walks_write_through() {
    let mut chain: Chain<u32> = Chain::with_capacity(2);
    for i in 0..5u32 {
        chain.push(i);
    }
    let mut walk = chain.iter_mut();
    while let Some(elem) = walk.next(&mut chain) {
        *elem += 10;
    }
    assert_eq!(chain.chunk(0), &[10, 11]);
    assert_eq!(chain.chunk(1), &[12, 13, 14]);

    let mut walk = chain.iter_mut();
    *walk.next_back(&mut chain).unwrap() = 0;
    *walk.next(&mut chain).unwrap() = 1;
    assert_eq!(chain.chunk(0), &[1, 11]);
    assert_eq!(chain.chunk(1), &[12, 13, 0]);

    let mut chunks = chain.chunks_mut();
    chunks.next_back(&mut chain).unwrap()[0] = 99;
    chunks.next(&mut chain).unwrap()[1] = 98;
    assert!(chunks.next(&mut chain).is_none());
    assert!(chunks.next_back(&mut chain).is_none());
    assert_eq!(chain.chunk(0), &[1, 98]);
    assert_eq!(chain.chunk(1), &[99, 13, 0]);
}

#[test]
fn into_iter_hands_out_by_value_from_both_ends() {
    let mut chain: Chain<String> = Chain::with_capacity(2);
    for i in 0..6 {
        chain.push(format!("item {}", i));
    }
    let mut walk = chain.into_iter();
    assert_eq!(walk.next(), Some(format!("item 0")));
    assert_eq!(walk.next_back(), Some(format!("item 5")));
    assert_eq!(walk.next_back(), Some(format!("item 4")));
    assert_eq!(walk.next(), Some(format!("item 1")));
    assert_eq!(walk.next(), Some(format!("item 2")));
    assert_eq!(walk.next(), Some(format!("item 3")));
    assert_eq!(walk.next(), None);
    assert_eq!(walk.next_back(), None);
}

#[test]
fn into_iter_drops_what_is_left() {
    let count = Rc::new(Cell::new(0usize));
    let mut chain = Chain::with_capacity(2);
    for _ in 0..5 {
        chain.push(DropType::new(&count));
    }
    let mut walk = chain.into_iter();
    let first = walk.next();
    assert!(first.is_some());
    assert_eq!(count.get(), 5);
    drop(first);
    assert_eq!(count.get(), 4);
    drop(walk);
    assert_eq!(count.get(), 0);
}

#[test]
fn empty_chain_walks_give_nothing() {
    let chain: Chain<u8> = Chain::new();
    assert_eq!(chain.iter().next(), None);
    assert_eq!(chain.iter().next_back(), None);
    let mut chunks = chain.chunks();
    assert_eq!(chunks.next(), Some(&[][..]));
    assert_eq!(chunks.next(), None);
    let mut walk = chain.into_iter();
    assert_eq!(walk.next(), None);
}

#[test]
fn capacities_that_overflow_are_told_apart() {
    assert!(arenas::chain::fits_capacity::<u64>(0));
    assert!(arenas::chain::fits_capacity::<u64>(1000));
    assert!(!arenas::chain::fits_capacity::<u64>(usize::MAX / 8));
    assert!(!arenas::chain::fits_capacity::<u64>(usize::MAX));
    assert!(arenas::chain::fits_capacity::<()>(usize::MAX));
    assert!(!arenas::chain::fits_capacity::<u8>(usize::MAX));
}
