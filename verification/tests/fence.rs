use arenas::fence::{
    check_align, check_kind, make_backward, make_forward, read_word, round_up,
    word_align, word_size, word_stub, FencePost, MAX_ALIGN, SENTINEL, SIZE_LIMIT, WORD,
};

#[test]
fn alignments_are_powers_of_two_up_to_the_limit() {
    let mut a = 1usize;
    while a <= MAX_ALIGN {
        assert!(check_align(a));
        a *= 2;
    }
    assert!(!check_align(0));
    assert!(!check_align(3));
    assert!(!check_align(24));
    assert!(!check_align(65536));
    assert_eq!(MAX_ALIGN, 32768);
    assert_eq!(WORD, 8);
}

#[test]
fn kinds_need_a_size_that_is_a_multiple_of_the_alignment() {
    assert!(check_kind(0, 8));
    assert!(check_kind(24, 8));
    assert!(check_kind(7, 1));
    assert!(!check_kind(7, 2));
    assert!(!check_kind(8, 16));
    assert!(!check_kind(8, 0));
    assert!(!check_kind(SIZE_LIMIT as usize, 1));
    assert!(check_kind(SIZE_LIMIT as usize - 1, 1));
}

#[test]
fn round_up_gives_the_next_multiple() {
    assert_eq!(round_up(0, 8), 0);
    assert_eq!(round_up(1, 8), 8);
    assert_eq!(round_up(8, 8), 8);
    assert_eq!(round_up(9, 8), 16);
    assert_eq!(round_up(13, 1), 13);
    assert_eq!(round_up(100, 64), 128);
    assert_eq!(round_up(usize::MAX - 7, 8), usize::MAX - 7);
}

#[test]
fn words_carry_their_kind() {
    assert_eq!(make_forward(3, 1, false), (3 * 65536 + 1) * 8 + 1);
    assert_eq!(make_forward(3, 1, true), (3 * 65536 + 1) * 8 + 5);
    assert_eq!(make_backward(3, 1), (3 * 65536 + 1) * 8 + 2);
    for (size, align) in [(0usize, 1usize), (24, 8), (4096, 4096), (1 << 20, 32768)] {
        for stub in [false, true] {
            let forward = make_forward(size, align, stub);
            assert_eq!(word_size(forward), size);
            assert_eq!(word_align(forward), align);
            assert_eq!(word_stub(forward), stub);
        }
        let backward = make_backward(size, align);
        assert_eq!(word_size(backward), size);
        assert_eq!(word_align(backward), align);
        assert_ne!(backward, 0);
    }
}

#[test]
fn a_fencepost_gives_either_word_from_the_other() {
    let forward = make_forward(48, 16, false);
    let before = make_backward(5, 1);
    let fence = FencePost::new(forward, before);
    assert_eq!(fence.to_word(), forward ^ before);
    assert_eq!(fence.forward(before), forward);
    assert_eq!(fence.backward(forward), before);
    assert!(!fence.is_stub());
    assert!(FencePost::new(make_forward(48, 16, true), before).is_stub());
    assert!(FencePost::new(make_forward(48, 16, true), 0).is_stub());
    assert!(!FencePost::new(forward, 0).is_stub());
    assert_eq!(FencePost::from_word(fence.to_word()).forward(before), forward);
    assert_ne!(fence.to_word(), forward ^ SENTINEL);
    assert_ne!(forward, forward ^ SENTINEL);
}

#[test]
fn words_are_read_little_endian() {
    let bytes = [0xaau8, 1, 2, 3, 4, 5, 6, 7, 8, 0xbb];
    assert_eq!(read_word(&bytes, 1), 0x0807060504030201);
    assert_eq!(read_word(&bytes, 0), 0x07060504030201aa);
}
