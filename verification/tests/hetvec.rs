use arenas::arena::Forget;
use arenas::chain::Slot;
use arenas::hetvec::{Deref, HetVec, Unsize};

#[test]
fn unsize_trait() {
    let mut vec: HetVec<Vec<u8>, Unsize> = HetVec::new();
    vec.push(4, &42i32.to_le_bytes());
    vec.push(1, "Weasel".as_bytes());
    vec.push(1, "hello, world!".as_bytes());

    let mut seen = Vec::new();
    let mut items = vec.items();
    while let Some(item) = items.next() {
        println!("{:?}", item);
        seen.push(item);
    }
    assert_eq!(seen, vec![42i32.to_le_bytes().to_vec(), b"Weasel".to_vec(), b"hello, world!".to_vec()]);

    let mut seen = Vec::new();
    let mut items = vec.items();
    while let Some(item) = items.next_back() {
        println!("{:?}", item);
        seen.push(item);
    }
    assert_eq!(seen, vec![b"hello, world!".to_vec(), b"Weasel".to_vec(), 42i32.to_le_bytes().to_vec()]);

    for slot in vec.teardown() {
        println!("DROPPED: {:?}", slot);
    }
}

#[test]
fn unsize_slice() {
    let mut vec: HetVec<Vec<u8>, Unsize> = HetVec::new();
    vec.push(1, b"hello");

    let mut items = vec.items();
    let item = items.next().unwrap();
    println!("{}", std::str::from_utf8(&item).unwrap());
    assert_eq!(item, b"hello");
    assert!(items.next().is_none());
}

#[test]
fn deref_str() {
    let mut vec: HetVec<String, Deref> = HetVec::new();
    vec.push(1, format!("Hello").as_bytes());
    vec.push(1, "world".as_bytes());

    let mut seen = Vec::new();
    let mut items = vec.items();
    while let Some(item) = items.next() {
        println!("{}", item);
        seen.push(item);
    }
    assert_eq!(seen, vec![format!("Hello"), format!("world")]);
}

#[test]
fn deref_of_bytes_that_are_no_text_is_empty() {
    let mut vec: HetVec<String, Deref> = HetVec::new();
    vec.push(1, &[0xff, 0xfe, 0x41]);
    vec.push(1, "\u{e9}t\u{e9}".as_bytes());
    let mut items = vec.items();
    assert_eq!(items.next(), Some(String::new()));
    assert_eq!(items.next(), Some(format!("\u{e9}t\u{e9}")));
    assert_eq!(items.next(), None);
}

#[test]
fn forget_shows_nothing_of_an_object() {
    let mut vec: HetVec<(), Forget> = HetVec::new();
    vec.push(8, &[1, 2, 3, 4, 5, 6, 7, 8]);
    vec.push(1, &[9]);
    let mut items = vec.items();
    assert_eq!(items.next(), Some(()));
    assert_eq!(items.next_back(), Some(()));
    assert_eq!(items.next(), None);
}

fn object(seed: usize, size: usize) -> Vec<u8> {
    (0..size).map(|i| (seed * 31 + i * 7) as u8).collect()
}

#[test]
fn objects_of_many_kinds_come_back_in_order() {
    let kinds: [(usize, usize); 10] =
        [(1, 1), (3, 1), (8, 8), (0, 1), (16, 16), (2, 2), (64, 64), (12, 4), (128, 32), (5, 1)];
    let mut vec: HetVec<Vec<u8>, Unsize> = HetVec::with_capacity(16);
    let mut expected = Vec::new();
    let mut slots = Vec::new();
    for round in 0..20 {
        for (k, (size, align)) in kinds.iter().enumerate() {
            let bytes = object(round * 10 + k, *size);
            assert!(vec.fits_push(*size, *align));
            let slot = vec.push(*align, &bytes);
            assert_eq!(slot.index % *align, 0);
            expected.push(bytes);
            slots.push(slot);
        }
    }

    let mut items = vec.items();
    for bytes in expected.iter() {
        assert_eq!(items.next().as_ref(), Some(bytes));
    }
    assert_eq!(items.next(), None);

    let mut items = vec.items();
    for bytes in expected.iter().rev() {
        assert_eq!(items.next_back().as_ref(), Some(bytes));
    }
    assert_eq!(items.next_back(), None);

    for (slot, bytes) in slots.iter().zip(expected.iter()) {
        assert_eq!(vec.get(*slot, bytes.len()), &bytes[..]);
    }
    assert_eq!(vec.teardown(), slots);
}

#[test]
fn walks_from_both_ends_meet_between_objects() {
    let mut vec: HetVec<Vec<u8>, Unsize> = HetVec::with_capacity(32);
    let sizes = [3usize, 5, 1, 7, 2, 9, 4];
    for (k, size) in sizes.iter().enumerate() {
        vec.push(1, &object(k, *size));
    }
    for front in 0..=sizes.len() {
        let mut items = vec.items();
        for k in 0..front {
            assert_eq!(items.next(), Some(object(k, sizes[k])));
        }
        for k in (front..sizes.len()).rev() {
            assert_eq!(items.next_back(), Some(object(k, sizes[k])));
        }
        assert_eq!(items.next_back(), None);
        assert_eq!(items.next(), None);
    }
}

#[test]
fn entries_are_laid_out_behind_their_fenceposts() {
    let mut vec: HetVec<Vec<u8>, Unsize> = HetVec::with_capacity(256);
    assert_eq!(vec.push(1, &[1, 2, 3]), Slot { chunk: 0, index: 8 });
    assert_eq!(vec.push(4, &[4, 4, 4, 4]), Slot { chunk: 0, index: 24 });
    assert_eq!(vec.push(32, &[7; 32]), Slot { chunk: 0, index: 64 });
    assert_eq!(vec.push(1, &[]), Slot { chunk: 0, index: 104 });
    assert_eq!(vec.push(16, &[9; 16]), Slot { chunk: 0, index: 112 });
    assert_eq!(vec.get(Slot { chunk: 0, index: 64 }, 32), &[7; 32]);
}

#[test]
fn a_full_chunk_is_left_behind() {
    let mut vec: HetVec<Vec<u8>, Unsize> = HetVec::with_capacity(1);
    let first = vec.push(1, &[1, 2, 3]);
    assert_eq!(first, Slot { chunk: 1, index: 8 });
    let second = vec.push(8, &[8; 8]);
    assert_eq!(second, Slot { chunk: 2, index: 8 });
    let third = vec.push(64, &[6; 64]);
    assert_eq!(third, Slot { chunk: 3, index: 64 });
    let mut items = vec.items();
    assert_eq!(items.next_back(), Some(vec![6; 64]));
    assert_eq!(items.next_back(), Some(vec![8; 8]));
    assert_eq!(items.next_back(), Some(vec![1, 2, 3]));
    assert_eq!(items.next_back(), None);
}

#[test]
fn failed_construction_leaves_a_stub_that_is_passed_over() {
    let mut vec: HetVec<Vec<u8>, Unsize> = HetVec::new();
    let a = vec.emplace(1, 2, || Some(vec![1, 2]));
    let failed = vec.emplace(16, 32, || None);
    let wrong = vec.emplace(4, 8, || Some(vec![0; 4]));
    let b = vec.emplace(16, 16, || Some(vec![5; 16]));
    let c = vec.push(2, &[3, 4]);
    assert!(a.is_some());
    assert!(failed.is_none());
    assert!(wrong.is_none());
    assert!(b.is_some());

    let mut items = vec.items();
    assert_eq!(items.next(), Some(vec![1, 2]));
    assert_eq!(items.next(), Some(vec![5; 16]));
    assert_eq!(items.next(), Some(vec![3, 4]));
    assert_eq!(items.next(), None);

    let mut items = vec.items();
    assert_eq!(items.next_back(), Some(vec![3, 4]));
    assert_eq!(items.next_back(), Some(vec![5; 16]));
    assert_eq!(items.next_back(), Some(vec![1, 2]));
    assert_eq!(items.next_back(), None);

    assert_eq!(vec.teardown(), vec![a.unwrap(), b.unwrap(), c]);
}

#[test]
fn only_stubs_means_nothing_to_walk_or_finalize() {
    let mut vec: HetVec<Vec<u8>, Unsize> = HetVec::new();
    for _ in 0..5 {
        assert_eq!(vec.emplace(8, 8, || None), None);
    }
    assert_eq!(vec.items().next(), None);
    assert_eq!(vec.items().next_back(), None);
    assert_eq!(vec.teardown(), Vec::new());
}

#[test]
fn empty_vector_has_nothing() {
    let vec: HetVec<Vec<u8>, Unsize> = HetVec::new();
    assert_eq!(vec.items().next(), None);
    assert_eq!(vec.items().next_back(), None);
    assert_eq!(vec.teardown(), Vec::new());
}

#[test]
fn kinds_that_cannot_be_stored_are_told_apart() {
    let vec: HetVec<Vec<u8>, Unsize> = HetVec::new();
    assert!(vec.fits_push(0, 1));
    assert!(vec.fits_push(32768, 32768));
    assert!(!vec.fits_push(4, 3));
    assert!(!vec.fits_push(4, 0));
    assert!(!vec.fits_push(6, 4));
    assert!(!vec.fits_push(65536, 65536));
    assert!(!vec.fits_push(usize::MAX, 1));
}

#[test]
fn each_object_is_finalized_once() {
    let mut vec: HetVec<Vec<u8>, Unsize> = HetVec::with_capacity(8);
    let mut made = 0;
    for k in 0..40usize {
        let fails = k % 3 == 0;
        let slot = vec.emplace(8, 8, || if fails { None } else { Some(vec![k as u8; 8]) });
        if slot.is_some() {
            made += 1;
        }
    }
    let finalized = vec.teardown();
    assert_eq!(finalized.len(), made);
    for (i, a) in finalized.iter().enumerate() {
        for b in finalized.iter().skip(i + 1) {
            assert_ne!(a, b);
        }
    }
}
