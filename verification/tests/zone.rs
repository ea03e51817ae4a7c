use arenas::chain::Slot;
use arenas::zone::{DynZone, Zone};

#[test]
fn zone_push_keeps_addresses() {
    let mut zone: Zone<u64> = Zone::with_capacity(2);
    let first = zone.push(11);
    for i in 0..100 {
        zone.push(i);
    }
    assert_eq!(first, Slot { chunk: 0, index: 0 });
    assert_eq!(*zone.get(first), 11);
    *zone.get_mut(first) = 12;
    assert_eq!(*zone.get(first), 12);
    assert!(zone.fits_reserve(1));
}

#[test]
fn quota_takes_all_the_room_there_is() {
    let mut zone: Zone<u8> = Zone::with_capacity(16);
    zone.push(1);
    let quota = zone.allocate(10, 0);
    assert_eq!(quota.len(), 0);
    assert_eq!(quota.capacity(), 15);
    quota.release(&mut zone);
}

#[test]
fn quota_push_fails_when_full_and_hands_the_value_back() {
    let mut zone: Zone<u32> = Zone::with_capacity(3);
    let mut quota = zone.allocate(3, 0);
    assert_eq!(quota.push(&mut zone, 7), Ok(()));
    assert_eq!(quota.push(&mut zone, 8), Ok(()));
    assert_eq!(quota.push(&mut zone, 9), Ok(()));
    assert_eq!(quota.len(), 3);
    assert_eq!(quota.push(&mut zone, 10), Err(10));
    assert_eq!(quota.len(), 3);
    assert_eq!(quota.into_slice(&mut zone), &[7, 8, 9]);
}

#[test]
fn quota_fill_copies_what_fits() {
    let mut zone: Zone<u8> = Zone::with_capacity(8);
    let mut quota = zone.allocate(8, 0);
    assert_eq!(quota.fill(&mut zone, &[1, 2, 3]), 3);
    assert_eq!(quota.fill(&mut zone, &[]), 0);
    assert_eq!(quota.fill(&mut zone, &[4, 5, 6, 7, 8, 9, 10]), 5);
    assert_eq!(quota.len(), 8);
    assert_eq!(quota.fill(&mut zone, &[11]), 0);
    assert_eq!(quota.into_slice(&mut zone), &[1, 2, 3, 4, 5, 6, 7, 8]);
}

#[test]
fn quota_extend_consumes_until_full() {
    let mut zone: Zone<u16> = Zone::with_capacity(4);
    let mut quota = zone.allocate(4, 0);
    assert_eq!(quota.extend(&mut zone, vec![1, 2]), 2);
    assert_eq!(quota.extend(&mut zone, vec![3, 4, 5, 6]), 2);
    assert_eq!(quota.extend(&mut zone, vec![7]), 0);
    assert_eq!(quota.into_slice(&mut zone), &[1, 2, 3, 4]);
}

#[test]
fn quota_clear_allows_a_new_fill() {
    let mut zone: Zone<u8> = Zone::with_capacity(4);
    let mut quota = zone.allocate(4, 0);
    assert_eq!(quota.fill(&mut zone, &[1, 2, 3, 4, 5]), 4);
    quota.clear();
    assert_eq!(quota.len(), 0);
    assert_eq!(quota.capacity(), 4);
    assert_eq!(quota.fill(&mut zone, &[9, 8]), 2);
    assert_eq!(quota.into_slice(&mut zone), &[9, 8]);
}

#[test]
fn released_quota_gives_its_unused_places_back() {
    let mut zone: Zone<u8> = Zone::with_capacity(10);
    let mut quota = zone.allocate(10, 0);
    assert_eq!(quota.capacity(), 10);
    assert_eq!(quota.fill(&mut zone, &[1, 2, 3]), 3);
    quota.release(&mut zone);

    let next = zone.allocate(7, 0);
    assert_eq!(next.capacity(), 7);
    next.release(&mut zone);
    let slot = zone.push(4);
    assert_eq!(slot, Slot { chunk: 0, index: 3 });
    assert_eq!(*zone.get(Slot { chunk: 0, index: 0 }), 1);
    assert_eq!(*zone.get(Slot { chunk: 0, index: 2 }), 3);
}

#[test]
fn released_empty_quota_gives_its_origin_back() {
    let mut zone: Zone<u8> = Zone::with_capacity(10);
    zone.push(1);
    let mut quota = zone.allocate(5, 0);
    quota.fill(&mut zone, &[1, 2, 3]);
    quota.clear();
    quota.release(&mut zone);
    assert_eq!(zone.push(2), Slot { chunk: 0, index: 1 });
}

#[test]
fn quota_released_late_is_forfeited() {
    let mut zone: Zone<u8> = Zone::with_capacity(10);
    let mut a = zone.allocate(10, 0);
    let mut b = zone.allocate(4, 0);
    assert_eq!(b.capacity(), 20);
    assert_eq!(a.fill(&mut zone, &[1, 2, 3]), 3);
    assert_eq!(b.fill(&mut zone, &[7, 7, 7, 7]), 4);
    a.release(&mut zone);
    assert_eq!(b.fill(&mut zone, &[8]), 1);
    assert_eq!(b.into_slice(&mut zone), &[7, 7, 7, 7, 8]);
    assert_eq!(zone.push(9), Slot { chunk: 1, index: 5 });
    assert_eq!(*zone.get(Slot { chunk: 0, index: 9 }), 0);
    assert_eq!(*zone.get(Slot { chunk: 0, index: 2 }), 3);
}

#[test]
fn str_quota_holds_text() {
    let mut zone: Zone<u8> = Zone::with_capacity(16);
    let mut quota = zone.alloc_str(8);
    assert_eq!(quota.capacity(), 16);
    assert_eq!(quota.fill(&mut zone, "hello"), 5);
    assert_eq!(quota.len(), 5);
    assert_eq!(quota.write_str(&mut zone, ", world"), Ok(()));
    assert_eq!(quota.write_str(&mut zone, " and more"), Err(()));
    assert_eq!(quota.len(), 16);
    assert_eq!(quota.into_slice(&mut zone), Some("hello, world and"));
}

#[test]
fn str_quota_that_cuts_a_character_is_no_text() {
    let mut zone: Zone<u8> = Zone::with_capacity(4);
    let mut quota = zone.alloc_str(4);
    assert_eq!(quota.fill(&mut zone, "ab\u{4e16}"), 4);
    assert_eq!(quota.into_slice(&mut zone), None);

    let mut quota = zone.alloc_str(4);
    assert_eq!(quota.fill(&mut zone, "ab\u{4e16}"), 5);
    quota.clear();
    assert_eq!(quota.fill(&mut zone, "\u{e9}"), 2);
    assert_eq!(quota.into_slice(&mut zone), Some("\u{e9}"));
}

#[test]
fn zone_format_retries_until_the_text_fits() {
    let mut zone: Zone<u8> = Zone::with_capacity(4);
    let long: String = (0..500).map(|i| format!("{} ", i)).collect();
    assert_eq!(zone.format("short"), "short");
    assert_eq!(zone.format(&long), long);
    assert_eq!(zone.format(""), "");
    assert_eq!(zone.format("h\u{e9}llo \u{4e16}\u{754c}"), "h\u{e9}llo \u{4e16}\u{754c}");
    let slot = zone.push(b'!');
    assert_eq!(*zone.get(slot), b'!');
}

#[test]
fn zone_format_gives_unused_room_back() {
    let mut zone: Zone<u8> = Zone::with_capacity(64);
    assert_eq!(zone.format("abc"), "abc");
    assert_eq!(zone.push(b'd'), Slot { chunk: 0, index: 3 });
    assert_eq!(zone.format("efg"), "efg");
    assert_eq!(zone.push(b'h'), Slot { chunk: 0, index: 7 });
}

#[test]
fn dyn_zone_stores_what_the_constructor_gives() {
    let mut zone = DynZone::new();
    assert!(zone.fits_allocate(4, 4));
    let a = zone.allocate(4, || vec![1, 2, 3, 4]);
    let b = zone.allocate(1, || vec![5]);
    assert_eq!(a, Slot { chunk: 0, index: 8 });
    assert_eq!(b, Slot { chunk: 0, index: 24 });
    assert_eq!(zone.teardown(), vec![a, b]);
}

#[test]
fn zone_format_leaves_small_chunks_behind_empty() {
    let mut zone: Zone<u8> = Zone::with_capacity(4);
    let text = "x".repeat(100);
    assert_eq!(zone.format(&text), text);
    assert_eq!(zone.push(b'y'), Slot { chunk: 3, index: 100 });
    let mut zone: Zone<u8> = Zone::with_capacity(4);
    assert_eq!(zone.format("abc"), "abc");
    assert_eq!(zone.push(b'y'), Slot { chunk: 1, index: 3 });
    let mut zone: Zone<u8> = Zone::with_capacity(40);
    zone.push(b'a');
    let text = "x".repeat(41);
    assert_eq!(zone.format(&text), text);
    assert_eq!(zone.push(b'y'), Slot { chunk: 1, index: 41 });
}
