//! Fenceposts: the one word of metadata that stands before each object of a
//! heterogeneous vector, and the arithmetic of where things lie around it.
//!
//! Every kind of object, that is every pair of a size and an alignment, has a
//! forward word and a backward word. Walking forward resolves the forward word
//! of an entry to where its object starts and ends; walking backward resolves
//! the backward word of an entry to where its fencepost lies. A fencepost holds
//! the forward word of its own entry XOR the backward word of the entry before
//! it, so that either can be had from the other and one word serves both
//! directions.

use vstd::prelude::*;
use vstd::bytes::{spec_u64_from_le_bytes, u64_from_le_bytes};

verus! {

/// Bytes taken by a fencepost, and the alignment it is placed at.
pub const WORD: usize = 8;

/// The largest alignment that an object may ask for.
pub const MAX_ALIGN: usize = 32768;

/// Sizes of objects stay below this.
pub const SIZE_LIMIT: u64 = 0x100_0000_0000;

/// The pattern that, XORed with an entry's forward word, fills the gap
/// between its fencepost and its object.
pub const SENTINEL: u64 = 0xffff_ffff_ffff_ffff;

/// `a` is a power of two that an object may be aligned to.
pub open spec fn is_align(a: int) -> bool {
    a == 1 || a == 2 || a == 4 || a == 8 || a == 16 || a == 32 || a == 64 || a == 128 || a == 256
        || a == 512 || a == 1024 || a == 2048 || a == 4096 || a == 8192 || a == 16384 || a == 32768
}

/// An object of `size` bytes aligned to `align` can be stored: the alignment
/// is a power of two within bounds, and the size a multiple of it below the
/// limit.
pub open spec fn valid_kind(size: int, align: int) -> bool {
    &&& is_align(align)
    &&& 0 <= size < SIZE_LIMIT
    &&& size % align == 0
}

/// The smallest multiple of `a` that is not below `x`.
pub open spec fn align_up(x: int, a: int) -> int {
    if x % a == 0 {
        x
    } else {
        x + a - x % a
    }
}

/// Space that always suffices to place `size` bytes at alignment `align`,
/// wherever the space starts.
pub open spec fn space_for(size: int, align: int) -> int {
    size + align - 1
}

/// The forward word of a kind, for a finished entry or for a stub.
pub open spec fn forward_word(size: int, align: int, stub: bool) -> u64 {
    ((size * 65536 + align) * 8 + 1 + if stub { 4int } else { 0 }) as u64
}

/// The backward word of a kind.
pub open spec fn backward_word(size: int, align: int) -> u64 {
    ((size * 65536 + align) * 8 + 2) as u64
}

/// The word that fills the gap between the fencepost and the object of an
/// entry of this kind.
pub open spec fn filler_word(size: int, align: int) -> u64 {
    forward_word(size, align, false) ^ SENTINEL
}

/// The word that `bytes` holds from `p` on.
pub open spec fn word_at(bytes: Seq<u8>, p: int) -> u64 {
    spec_u64_from_le_bytes(bytes.subrange(p, p + 8))
}

/// `align_up` rounds up to a multiple and adds less than the alignment.
pub proof fn lemma_align_up(x: int, a: int)
    requires
        0 <= x,
        is_align(a),
    ensures
        x <= align_up(x, a) < x + a,
        align_up(x, a) % a == 0,
        x % a == 0 ==> align_up(x, a) == x,
{
    if a == 1 {
    } else if a == 2 {
    } else if a == 4 {
    } else if a == 8 {
    } else if a == 16 {
    } else if a == 32 {
    } else if a == 64 {
    } else if a == 128 {
    } else if a == 256 {
    } else if a == 512 {
    } else if a == 1024 {
    } else if a == 2048 {
    } else if a == 4096 {
    } else if a == 8192 {
    } else if a == 16384 {
    } else {
    }
}

/// A multiple of a coarser alignment is a multiple of each finer one, and a
/// multiple plus a multiple is a multiple.
pub proof fn lemma_align_divides(x: int, y: int, a: int, b: int)
    requires
        0 <= x,
        0 <= y,
        is_align(a),
        is_align(b),
        b <= a,
        x % a == 0,
        y % a == 0,
    ensures
        x % b == 0,
        (x + y) % a == 0,
{
    assert(a % b == 0) by {
        lemma_align_cases(a, b);
    }
    vstd::arithmetic::div_mod::lemma_fundamental_div_mod(x, a);
    vstd::arithmetic::div_mod::lemma_fundamental_div_mod(y, a);
    vstd::arithmetic::div_mod::lemma_fundamental_div_mod(a, b);
    let q = x / a;
    let r = y / a;
    let k = a / b;
    assert(x == (q * k) * b) by (nonlinear_arith)
        requires
            x == a * q,
            a == b * k,
    ;
    vstd::arithmetic::div_mod::lemma_mod_multiples_basic(q * k, b);
    assert(x + y == (q + r) * a) by (nonlinear_arith)
        requires
            x == a * q,
            y == a * r,
    ;
    vstd::arithmetic::div_mod::lemma_mod_multiples_basic(q + r, a);
}

proof fn lemma_align_cases(a: int, b: int)
    requires
        is_align(a),
        is_align(b),
        b <= a,
    ensures
        a % b == 0,
{
    if b == 1 {
    } else if b == 2 {
    } else if b == 4 {
    } else if b == 8 {
    } else if b == 16 {
    } else if b == 32 {
    } else if b == 64 {
    } else if b == 128 {
    } else if b == 256 {
    } else if b == 512 {
    } else if b == 1024 {
    } else if b == 2048 {
    } else if b == 4096 {
    } else if b == 8192 {
    } else if b == 16384 {
    } else {
    }
}

/// The words of a kind are told apart by their last three bits, they are
/// never zero, and they leave the top bits of a word clear.
pub proof fn lemma_word_shape(size: int, align: int, stub: bool)
    requires
        valid_kind(size, align),
    ensures
        forward_word(size, align, stub) == (size * 65536 + align) * 8 + 1 + if stub {
            4int
        } else {
            0
        },
        backward_word(size, align) == (size * 65536 + align) * 8 + 2,
        forward_word(size, align, stub) < 0x1000_0000_0000_0000,
        backward_word(size, align) < 0x1000_0000_0000_0000,
{
}

/// The fencepost's XOR is undone by either of its two words.
pub proof fn lemma_xor_cancel(a: u64, b: u64)
    ensures
        (a ^ b) ^ b == a,
        (a ^ b) ^ a == b,
{
    assert((a ^ b) ^ b == a) by (bit_vector);
    assert((a ^ b) ^ a == b) by (bit_vector);
}

/// A fencepost tells whether its entry is a stub, whatever stands before it,
/// and it is never taken for filler.
pub proof fn lemma_fence_bits(size: int, align: int, stub: bool, before: u64)
    requires
        valid_kind(size, align),
        before == 0 || exists|s: int, a: int| valid_kind(s, a) && before == backward_word(s, a),
    ensures
        ((forward_word(size, align, stub) ^ before) & 4 != 0) == stub,
        (forward_word(size, align, stub) ^ before) != filler_word(size, align),
{
    let f = forward_word(size, align, stub);
    let g = forward_word(size, align, false);
    lemma_word_shape(size, align, stub);
    lemma_word_shape(size, align, false);
    if before != 0 {
        let (s, a) = choose|s: int, a: int| valid_kind(s, a) && before == backward_word(s, a);
        lemma_word_shape(s, a, false);
    }
    assert(before % 8 == 0 || before % 8 == 2);
    assert(f % 8 == 1 || f % 8 == 5);
    assert(((f ^ before) & 4 != 0) == (f % 8 == 5)) by (bit_vector)
        requires
            before % 8 == 0 || before % 8 == 2,
            f % 8 == 1 || f % 8 == 5,
    ;
    assert((f ^ before) != (g ^ 0xffff_ffff_ffff_ffff)) by (bit_vector)
        requires
            f < 0x1000_0000_0000_0000,
            g < 0x1000_0000_0000_0000,
            before < 0x1000_0000_0000_0000,
    ;
}

/// Tells whether `a` is an alignment that an object may ask for.
pub fn check_align(a: usize) -> (r: bool)
    ensures
        r == is_align(a as int),
{
    a == 1 || a == 2 || a == 4 || a == 8 || a == 16 || a == 32 || a == 64 || a == 128 || a == 256
        || a == 512 || a == 1024 || a == 2048 || a == 4096 || a == 8192 || a == 16384 || a == 32768
}

/// Tells whether an object of `size` bytes aligned to `align` can be stored.
pub fn check_kind(size: usize, align: usize) -> (r: bool)
    ensures
        r == valid_kind(size as int, align as int),
{
    check_align(align) && (size as u64) < SIZE_LIMIT && size % align == 0
}

/// `x` rounded up to a multiple of `a`.
pub fn round_up(x: usize, a: usize) -> (r: usize)
    requires
        is_align(a as int),
        align_up(x as int, a as int) <= usize::MAX,
    ensures
        r == align_up(x as int, a as int),
{
    proof {
        lemma_align_up(x as int, a as int);
    }
    let rest: usize = x % a;
    if rest == 0 {
        x
    } else {
        x + (a - rest)
    }
}

/// The forward word of a kind.
pub fn make_forward(size: usize, align: usize, stub: bool) -> (w: u64)
    requires
        valid_kind(size as int, align as int),
    ensures
        w == forward_word(size as int, align as int, stub),
{
    let body: u64 = (size as u64) * 65536 + (align as u64);
    body * 8 + 1 + if stub { 4 } else { 0 }
}

/// The backward word of a kind.
pub fn make_backward(size: usize, align: usize) -> (w: u64)
    requires
        valid_kind(size as int, align as int),
    ensures
        w == backward_word(size as int, align as int),
{
    let body: u64 = (size as u64) * 65536 + (align as u64);
    body * 8 + 2
}

/// The size that a forward or backward word stands for.
pub fn word_size(w: u64) -> (size: usize)
    ensures
        size == (w / 8 / 65536) as usize,
        forall|s: int, a: int, stub: bool|
            valid_kind(s, a) && s <= usize::MAX && (w == #[trigger] forward_word(s, a, stub)) ==> size == s,
        forall|s: int, a: int|
            valid_kind(s, a) && s <= usize::MAX && (w == #[trigger] backward_word(s, a)) ==> size == s,
{
    #[verifier::truncate]
    ((w / 8 / 65536) as usize)
}

/// The alignment that a forward or backward word stands for.
pub fn word_align(w: u64) -> (align: usize)
    ensures
        align == w / 8 % 65536,
        forall|s: int, a: int, stub: bool|
            valid_kind(s, a) && (w == #[trigger] forward_word(s, a, stub)) ==> align == a,
        forall|s: int, a: int|
            valid_kind(s, a) && (w == #[trigger] backward_word(s, a)) ==> align == a,
{
    (w / 8 % 65536) as usize
}

/// Tells whether a forward word is that of a stub.
pub fn word_stub(w: u64) -> (stub: bool)
    ensures
        stub == (w % 8 == 5),
        forall|s: int, a: int, b: bool|
            valid_kind(s, a) && (w == #[trigger] forward_word(s, a, b)) ==> stub == b,
{
    w % 8 == 5
}

/// The one word of metadata of an entry: the forward word of the entry XOR
/// the backward word of the entry before it.
pub struct FencePost {
    word: u64,
}

impl FencePost {
    /// The word that the fencepost is stored as.
    pub closed spec fn word(&self) -> u64 {
        self.word
    }

    /// The fencepost of an entry with the forward word `f` that follows an
    /// entry with the backward word `b`.
    pub fn new(f: u64, b: u64) -> (r: Self)
        ensures
            r.word() == f ^ b,
    {
        FencePost { word: f ^ b }
    }

    /// The fencepost that is stored as `word`.
    pub fn from_word(word: u64) -> (r: Self)
        ensures
            r.word() == word,
    {
        FencePost { word }
    }

    /// The word to store.
    pub fn to_word(&self) -> (w: u64)
        ensures
            w == self.word(),
    {
        self.word
    }

    /// The forward word of the entry, given the backward word `b` of the
    /// entry before it.
    pub fn forward(&self, b: u64) -> (f: u64)
        ensures
            f == self.word() ^ b,
            forall|g: u64| self.word() == #[trigger] (g ^ b) ==> f == g,
    {
        proof {
            assert forall|g: u64| self.word == #[trigger] (g ^ b) implies self.word ^ b == g by {
                lemma_xor_cancel(g, b);
            }
        }
        self.word ^ b
    }

    /// The backward word of the entry before, given the forward word `f`
    /// of the entry itself.
    pub fn backward(&self, f: u64) -> (b: u64)
        ensures
            b == self.word() ^ f,
            forall|g: u64| self.word() == #[trigger] (f ^ g) ==> b == g,
    {
        proof {
            assert forall|g: u64| self.word == #[trigger] (f ^ g) implies self.word ^ f == g by {
                lemma_xor_cancel(f, g);
            }
        }
        self.word ^ f
    }

    /// Tells whether the entry is a stub, whatever it is chained to.
    pub fn is_stub(&self) -> (stub: bool)
        ensures
            stub == (self.word() & 4 != 0),
    {
        self.word & 4 != 0
    }
}

/// The word that `region` holds from `p` on.
pub fn read_word(region: &[u8], p: usize) -> (w: u64)
    requires
        p + 8 <= region@.len(),
    ensures
        w == word_at(region@, p as int),
{
    let len: usize = region.len();
    assert(p + 8 <= len);
    u64_from_le_bytes(vstd::slice::slice_subrange(region, p, p + 8))
}

} // verus!
