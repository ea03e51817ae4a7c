use arenas::chain::Slot;
use arenas::monovec::MonoVec;

#[test]
fn monovec_pushes_come_back_in_order() {
    let mut vec: MonoVec<u32> = MonoVec::new();
    for i in 0..100u32 {
        vec.push(i);
    }
    assert_eq!(vec.len(), 100);
    let mut items = vec.items();
    for i in 0..100u32 {
        assert_eq!(items.next(), Some(&i));
    }
    assert_eq!(items.next(), None);
    let mut items = vec.items();
    for i in (0..100u32).rev() {
        assert_eq!(items.next_back(), Some(&i));
    }
    assert_eq!(items.next_back(), None);
}

#[test]
fn monovec_grows_in_chunks() {
    let mut vec: MonoVec<u8> = MonoVec::with_capacity(0);
    assert_eq!(vec.chunk_count(), 1);
    vec.push(1);
    vec.push(2);
    vec.push(3);
    vec.push(4);
    assert_eq!(vec.chunk_count(), 3);
    let mut chunks = vec.chunks();
    assert_eq!(chunks.next(), Some(&[1u8][..]));
    assert_eq!(chunks.next(), Some(&[2u8, 3][..]));
    assert_eq!(chunks.next(), Some(&[4u8][..]));
    assert_eq!(chunks.next(), None);
    let mut chunks = vec.chunks();
    assert_eq!(chunks.next_back(), Some(&[4u8][..]));
}

#[test]
fn monovec_addresses_are_stable() {
    let mut vec: MonoVec<String> = MonoVec::with_capacity(1);
    let first = vec.push(format!("first"));
    for i in 0..100 {
        vec.push(format!("{}", i));
    }
    assert_eq!(first, Slot { chunk: 0, index: 0 });
    assert_eq!(vec.get(first), "first");
    vec.get_mut(first).push_str(" and more");
    assert_eq!(vec.get(first), "first and more");
}

#[test]
fn monovec_push_as_slice_and_commit() {
    let mut vec: MonoVec<u8> = MonoVec::with_capacity(4);
    assert_eq!(vec.push_as_slice(vec![1, 2, 3]), &[1, 2, 3]);
    assert_eq!(vec.push_as_slice(vec![4, 5, 6]), &[4, 5, 6]);
    assert_eq!(vec.chunk(0), &[1, 2, 3]);
    assert_eq!(vec.chunk(1), &[4, 5, 6]);
    let (slot, available) = vec.reserve(2);
    assert_eq!(slot, Slot { chunk: 1, index: 3 });
    assert_eq!(available, 5);
    vec.add_len(vec![7, 8]);
    vec.write(Slot { chunk: 1, index: 1 }, &[50, 60]);
    assert_eq!(vec.chunk(1), &[4, 50, 60, 7, 8]);
    assert!(vec.fits_reserve(100));
}

#[test]
fn monovec_format_is_contiguous_and_grows() {
    let mut buffer: MonoVec<u8> = MonoVec::with_capacity(4);
    assert_eq!(buffer.format("ab"), "ab");
    assert_eq!(buffer.chunk_count(), 1);
    let long = "a text that is longer than any chunk so far";
    assert_eq!(buffer.format(long), long);
    assert!(buffer.chunk_count() > 1);
    let last = buffer.chunk_count() - 1;
    assert_eq!(buffer.chunk(last), long.as_bytes());
    assert_eq!(buffer.chunk(0), b"ab");
    assert_eq!(buffer.format(""), "");
    assert_eq!(buffer.format("h\u{e9}llo \u{4e16}\u{754c}"), "h\u{e9}llo \u{4e16}\u{754c}");
    assert_eq!(buffer.len(), 2 + long.len() + "h\u{e9}llo \u{4e16}\u{754c}".len());
}

#[test]
fn monovec_format_leaves_small_chunks_behind_empty() {
    let mut buffer: MonoVec<u8> = MonoVec::with_capacity(4);
    let text = "x".repeat(20);
    assert_eq!(buffer.format(&text), text);
    assert_eq!(buffer.chunk_count(), 4);
    assert_eq!(buffer.chunk(0), b"");
    assert_eq!(buffer.chunk(1), b"");
    assert_eq!(buffer.chunk(2), b"");
    assert_eq!(buffer.chunk(3), text.as_bytes());
    assert_eq!(buffer.chunk_capacity(3), 32);
    assert!(buffer.fits_format("more"));

    let mut buffer: MonoVec<u8> = MonoVec::with_capacity(2);
    buffer.push(1);
    buffer.push(2);
    assert_eq!(buffer.format(""), "");
    assert_eq!(buffer.chunk_count(), 2);
    assert_eq!(buffer.chunk_capacity(1), 4);
}
