//! A heterogeneous vector: objects of differing sizes and alignments packed
//! into one chunked byte buffer, each behind a fencepost that lets the buffer
//! be walked in both directions without a table of its entries.
//!
//! An entry is laid out as padding up to the fencepost's alignment, the
//! fencepost, filler words up to the object's alignment, and the object's
//! bytes. An entry is written as a stub first and finished once its object is
//! there; walks and teardown pass over stubs.

use vstd::prelude::*;
use vstd::bytes::{spec_u64_to_le_bytes, u64_to_le_bytes};
use core::marker::PhantomData;
use crate::chain::{
    committed, keeps_addresses, reservable, reserved_caps, reserved_layout, Slot,
};
use crate::fence::{
    align_up, backward_word, filler_word, forward_word, lemma_align_divides,
    lemma_align_up, lemma_fence_bits, lemma_xor_cancel, make_backward,
    make_forward, read_word, round_up, valid_kind, word_align, word_at, word_size,
    word_stub, FencePost, SENTINEL,
    WORD,
};
use crate::monovec::MonoVec;
use crate::text::copy_of;

verus! {

/// Where one entry of a heterogeneous vector lies and what it holds: the
/// chunk, the place in it where the entry starts, the kind of its object, and
/// whether it still is a stub.
pub struct Entry {
    pub chunk: nat,
    pub start: nat,
    pub size: nat,
    pub align: nat,
    pub stub: bool,
}

impl Entry {
    /// Where the entry's fencepost lies.
    pub open spec fn fence(self) -> int {
        align_up(self.start as int, 8)
    }

    /// Where the entry's object starts.
    pub open spec fn obj(self) -> int {
        align_up(self.fence() + 8, self.align as int)
    }

    /// Where the entry's object ends, which is where the entry ends.
    pub open spec fn end(self) -> int {
        self.obj() + self.size
    }

    /// The address of the entry's object.
    pub open spec fn slot(self) -> Slot {
        Slot { chunk: self.chunk as usize, index: self.obj() as usize }
    }

    /// The bytes of the entry's object in `layout`.
    pub open spec fn bytes(self, layout: Seq<Seq<u8>>) -> Seq<u8> {
        layout[self.chunk as int].subrange(self.obj(), self.end())
    }

    /// The entry once its object is there.
    pub open spec fn finished(self) -> Entry {
        Entry { stub: false, ..self }
    }
}

/// The entries that are no stubs, in order.
pub open spec fn live(entries: Seq<Entry>) -> Seq<Entry>
    decreases entries.len(),
{
    if entries.len() == 0 {
        Seq::empty()
    } else if entries.last().stub {
        live(entries.drop_last())
    } else {
        live(entries.drop_last()).push(entries.last())
    }
}

/// The objects of the entries that are no stubs, in order.
pub open spec fn objects_of(layout: Seq<Seq<u8>>, entries: Seq<Entry>) -> Seq<Seq<u8>> {
    live(entries).map_values(|e: Entry| e.bytes(layout))
}

/// The addresses of the objects of the entries that are no stubs, in order.
pub open spec fn slots_of(entries: Seq<Entry>) -> Seq<Slot> {
    live(entries).map_values(|e: Entry| e.slot())
}

/// `layout` has the bytes `obj` at `at`.
pub open spec fn holds_in(layout: Seq<Seq<u8>>, at: Slot, obj: Seq<u8>) -> bool {
    &&& at.chunk < layout.len()
    &&& at.index + obj.len() <= layout[at.chunk as int].len()
    &&& layout[at.chunk as int].subrange(at.index as int, at.index + obj.len()) == obj
}

/// Address stability: where `new` keeps the addresses of `old`, an object
/// that `old` has at an address is still there, with the same bytes.
pub proof fn lemma_object_stable(old: Seq<Seq<u8>>, new: Seq<Seq<u8>>, at: Slot, obj: Seq<u8>)
    requires
        keeps_addresses(old, new),
        holds_in(old, at, obj),
    ensures
        holds_in(new, at, obj),
{
    assert(old[at.chunk as int].is_prefix_of(new[at.chunk as int]));
    assert(new[at.chunk as int].subrange(at.index as int, at.index + obj.len()) =~= obj);
}

/// Space that always suffices for one entry of this kind.
pub open spec fn entry_space(size: int, align: int) -> int {
    crate::fence::space_for(8, 8) + crate::fence::space_for(size, align)
}

/// The entry that comes to lie at the write position when room for it was
/// reserved in `layout`.
pub open spec fn next_entry(
    layout: Seq<Seq<u8>>,
    caps: Seq<nat>,
    size: nat,
    align: nat,
    stub: bool,
) -> Entry {
    let reserved = reserved_layout(layout, caps, entry_space(size as int, align as int) as nat);
    Entry {
        chunk: (reserved.len() - 1) as nat,
        start: reserved.last().len(),
        size,
        align,
        stub,
    }
}

/// The backward word that is in force where entry `i` starts: that of the
/// entry before it, or zero before the first.
spec fn carried(entries: Seq<Entry>, i: int) -> u64 {
    if i <= 0 {
        0
    } else {
        backward_word(entries[i - 1].size as int, entries[i - 1].align as int)
    }
}

/// `bytes` hold the metadata of `e`: its fencepost, chained to `before`, and
/// filler from the fencepost to the object.
spec fn entry_written(bytes: Seq<u8>, e: Entry, before: u64) -> bool {
    &&& valid_kind(e.size as int, e.align as int)
    &&& e.end() <= bytes.len()
    &&& word_at(bytes, e.fence()) == forward_word(e.size as int, e.align as int, e.stub) ^ before
    &&& forall|p: int|
        e.fence() + 8 <= p < e.obj() && (p - e.fence()) % 8 == 0 ==> #[trigger] word_at(bytes, p)
            == filler_word(e.size as int, e.align as int)
}

/// Entry `i` lies where the entries before it end, in the chunk that the
/// index ranges `firsts` give it, and is written there.
spec fn placed(
    layout: Seq<Seq<u8>>,
    entries: Seq<Entry>,
    firsts: Seq<int>,
    i: int,
) -> bool {
    let e = entries[i];
    let c = e.chunk as int;
    &&& c < layout.len()
    &&& firsts[c] <= i < firsts[c + 1]
    &&& e.start == if i == firsts[c] {
        0
    } else {
        entries[i - 1].end()
    }
    &&& (i + 1 == firsts[c + 1] ==> e.end() == layout[c].len())
    &&& entry_written(layout[c], e, carried(entries, i))
}

/// A chunk without entries holds no bytes.
spec fn unused_is_empty(layout: Seq<Seq<u8>>, firsts: Seq<int>, c: int) -> bool {
    firsts[c] == firsts[c + 1] ==> layout[c].len() == 0
}

/// The entries tile the chunks of `layout`: chunk `c` holds the entries from
/// `firsts[c]` up to `firsts[c + 1]`, one after the other and nothing else.
spec fn packed(layout: Seq<Seq<u8>>, entries: Seq<Entry>, firsts: Seq<int>) -> bool {
    &&& firsts.len() == layout.len() + 1
    &&& firsts[0] == 0
    &&& firsts.last() == entries.len()
    &&& forall|a: int, b: int|
        0 <= a <= b < firsts.len() ==> #[trigger] firsts[a] <= #[trigger] firsts[b]
    &&& forall|c: int| 0 <= c < layout.len() ==> #[trigger] unused_is_empty(layout, firsts, c)
    &&& forall|i: int| 0 <= i < entries.len() ==> #[trigger] placed(layout, entries, firsts, i)
}

/// The first entry comes first among the live ones, unless it is a stub.
proof fn lemma_live_first(entries: Seq<Entry>)
    requires
        entries.len() > 0,
    ensures
        live(entries) == if entries.first().stub {
            live(entries.drop_first())
        } else {
            seq![entries.first()] + live(entries.drop_first())
        },
    decreases entries.len(),
{
    if entries.len() == 1 {
        assert(entries.drop_last() == Seq::<Entry>::empty());
        assert(entries.drop_first() == Seq::<Entry>::empty());
        assert(live(entries.drop_last()) == Seq::<Entry>::empty());
    } else {
        let head = entries.drop_last();
        lemma_live_first(head);
        assert(head.first() == entries.first());
        assert(head.drop_first() == entries.drop_first().drop_last());
        assert(entries.drop_first().last() == entries.last());
        if entries.first().stub {
        } else {
            let rest = live(entries.drop_first().drop_last());
            assert((seq![entries.first()] + rest).push(entries.last()) == seq![entries.first()]
                + rest.push(entries.last()));
        }
    }
}

/// Every entry ends at or after its start, with room for its fencepost.
proof fn lemma_entry_extent(e: Entry)
    requires
        valid_kind(e.size as int, e.align as int),
    ensures
        e.start <= e.fence() < e.start + 8,
        e.fence() % 8 == 0,
        e.fence() + 8 <= e.obj() < e.fence() + 8 + e.align,
        e.obj() % (e.align as int) == 0,
        e.obj() % 8 == 0,
        e.obj() <= e.end(),
        e.align <= 8 ==> e.obj() == e.fence() + 8,
        e.align >= 8 ==> e.end() % 8 == 0,
{
    lemma_align_up(e.start as int, 8);
    lemma_align_up(e.fence() + 8, e.align as int);
    if e.align <= 8 {
        lemma_align_divides(e.fence() + 8, 0, 8, e.align as int);
    } else {
        lemma_align_divides(e.obj(), e.size as int, e.align as int, 8);
        lemma_align_divides(e.size as int, 0, e.align as int, 8);
        assert((e.obj() + e.size) % 8 == 0) by {
            lemma_align_divides(e.obj(), e.size as int, 8, 8);
        }
    }
}

/// Within one chunk, an earlier entry ends where a later one starts, or
/// before.
proof fn lemma_ends_ordered(
    layout: Seq<Seq<u8>>,
    entries: Seq<Entry>,
    firsts: Seq<int>,
    i: int,
    j: int,
)
    requires
        packed(layout, entries, firsts),
        0 <= i < j < entries.len(),
        entries[i].chunk == entries[j].chunk,
    ensures
        entries[i].end() <= entries[j].start,
    decreases j - i,
{
    assert(placed(layout, entries, firsts, i));
    assert(placed(layout, entries, firsts, j));
    assert(placed(layout, entries, firsts, j - 1));
    let c = entries[j].chunk as int;
    lemma_chunk_of(layout, entries, firsts, j - 1, c);
    if i < j - 1 {
        lemma_ends_ordered(layout, entries, firsts, i, j - 1);
        lemma_entry_extent(entries[j - 1]);
    }
}

/// An entry whose index lies in the range of chunk `c` lies in chunk `c`.
proof fn lemma_chunk_of(
    layout: Seq<Seq<u8>>,
    entries: Seq<Entry>,
    firsts: Seq<int>,
    i: int,
    c: int,
)
    requires
        packed(layout, entries, firsts),
        0 <= c < layout.len(),
        firsts[c] <= i < firsts[c + 1],
    ensures
        0 <= i < entries.len(),
        entries[i].chunk == c,
{
    assert(firsts[c + 1] <= firsts[firsts.len() - 1]);
    assert(firsts[0] <= firsts[c]);
    assert(placed(layout, entries, firsts, i));
    let d = entries[i].chunk as int;
    if d < c {
        assert(firsts[d + 1] <= firsts[c]);
    } else if d > c {
        assert(firsts[c + 1] <= firsts[d]);
    }
}

/// `count` bytes that repeat the bytes of `word`.
spec fn filler(word: u64, count: int) -> Seq<u8> {
    Seq::new(count as nat, |k: int| spec_u64_to_le_bytes(word)[k % 8])
}

/// `count` zero bytes.
spec fn zeros(count: int) -> Seq<u8> {
    Seq::new(count as nat, |k: int| 0u8)
}

/// The bytes of an entry whose object is yet to be written: padding, the
/// fencepost chained to `before`, filler, and room for the object.
spec fn entry_image(e: Entry, before: u64) -> Seq<u8> {
    zeros(e.fence() - e.start) + spec_u64_to_le_bytes(
        forward_word(e.size as int, e.align as int, e.stub) ^ before,
    ) + filler(filler_word(e.size as int, e.align as int), e.obj() - e.fence() - 8) + zeros(
        e.size as int,
    )
}

/// Bytes that agree on a word hold the same word.
proof fn lemma_word_kept(b1: Seq<u8>, b2: Seq<u8>, p: int)
    requires
        0 <= p,
        p + 8 <= b1.len(),
        p + 8 <= b2.len(),
        forall|k: int| p <= k < p + 8 ==> b1[k] == b2[k],
    ensures
        word_at(b1, p) == word_at(b2, p),
{
    assert(b1.subrange(p, p + 8) == b2.subrange(p, p + 8));
}

/// An entry stays written in bytes that agree on its metadata.
proof fn lemma_entry_kept(b1: Seq<u8>, b2: Seq<u8>, e: Entry, before: u64)
    requires
        entry_written(b1, e, before),
        e.end() <= b2.len(),
        forall|k: int| e.fence() <= k < e.obj() ==> b1[k] == b2[k],
    ensures
        entry_written(b2, e, before),
{
    lemma_entry_extent(e);
    lemma_word_kept(b1, b2, e.fence());
    assert forall|p: int|
        e.fence() + 8 <= p < e.obj() && (p - e.fence()) % 8 == 0 implies #[trigger] word_at(b2, p)
        == filler_word(e.size as int, e.align as int) by {
        lemma_word_kept(b1, b2, p);
    }
}

/// Bytes that hold the bytes of a word hold that word.
proof fn lemma_word_read(bytes: Seq<u8>, p: int, word: u64)
    requires
        bytes.subrange(p, p + 8) == spec_u64_to_le_bytes(word),
    ensures
        word_at(bytes, p) == word,
{
    vstd::bytes::lemma_auto_spec_u64_to_from_le_bytes();
}

/// Filler holds its word at every eighth byte.
proof fn lemma_filler_read(before: Seq<u8>, word: u64, count: int, after: Seq<u8>, p: int)
    requires
        before.len() <= p,
        p + 8 <= before.len() + count,
        (p - before.len()) % 8 == 0,
    ensures
        word_at(before + filler(word, count) + after, p) == word,
{
    let all = before + filler(word, count) + after;
    let bytes = spec_u64_to_le_bytes(word);
    assert(bytes.len() == 8) by {
        vstd::bytes::lemma_auto_spec_u64_to_from_le_bytes();
    }
    let base = p - before.len();
    assert forall|k: int| 0 <= k < 8 implies #[trigger] all.subrange(p, p + 8)[k] == bytes[k] by {
        assert(all[p + k] == filler(word, count)[base + k]);
        assert((base + k) % 8 == k);
    }
    assert(all.subrange(p, p + 8) =~= bytes);
    lemma_word_read(all, p, word);
}

/// A word holds itself between whatever stands before and after it.
proof fn lemma_fence_read(before: Seq<u8>, word: u64, after: Seq<u8>)
    ensures
        spec_u64_to_le_bytes(word).len() == 8,
        word_at(before + spec_u64_to_le_bytes(word) + after, before.len() as int) == word,
{
    let all = before + spec_u64_to_le_bytes(word) + after;
    let bytes = spec_u64_to_le_bytes(word);
    assert(bytes.len() == 8) by {
        vstd::bytes::lemma_auto_spec_u64_to_from_le_bytes();
    }
    assert(all.subrange(before.len() as int, before.len() as int + 8) =~= bytes);
    lemma_word_read(all, before.len() as int, word);
}

/// The image of an entry, put where the entry starts, is the entry written.
proof fn lemma_image_written(pre: Seq<u8>, e: Entry, before: u64)
    requires
        valid_kind(e.size as int, e.align as int),
        pre.len() == e.start,
    ensures
        entry_image(e, before).len() == e.end() - e.start,
        entry_written(pre + entry_image(e, before), e, before),
        (pre + entry_image(e, before)).subrange(e.obj(), e.end()) == zeros(e.size as int),
{
    lemma_entry_extent(e);
    let word = forward_word(e.size as int, e.align as int, e.stub) ^ before;
    let fill = filler_word(e.size as int, e.align as int);
    let pad = zeros(e.fence() - e.start);
    let fence = spec_u64_to_le_bytes(word);
    let gap = filler(fill, e.obj() - e.fence() - 8);
    let room = zeros(e.size as int);
    let all = pre + entry_image(e, before);
    lemma_fence_read(pre + pad, word, gap + room);
    assert(all =~= (pre + pad) + fence + (gap + room));
    assert(all =~= (pre + pad + fence) + gap + room);
    assert(all.len() == e.end());
    assert forall|p: int|
        e.fence() + 8 <= p < e.obj() && (p - e.fence()) % 8 == 0 implies #[trigger] word_at(all, p)
        == fill by {
        lemma_filler_read(pre + pad + fence, fill, e.obj() - e.fence() - 8, room, p);
    }
    assert(all.subrange(e.obj(), e.end()) =~= room);
}

/// Adds `count` zero bytes to `v`.
fn append_zeros(v: &mut Vec<u8>, count: usize)
    ensures
        final(v)@ == old(v)@ + zeros(count as int),
{
    let mut k: usize = 0;
    assert(v@ == old(v)@ + zeros(0));
    while k < count
        invariant
            k <= count,
            v@ == old(v)@ + zeros(k as int),
        decreases count - k,
    {
        v.push(0u8);
        k = k + 1;
        assert(v@ == old(v)@ + zeros(k as int));
    }
}

/// Adds `count` bytes that repeat the bytes of `word` to `v`.
fn append_filler(v: &mut Vec<u8>, word: u64, count: usize)
    ensures
        final(v)@ == old(v)@ + filler(word, count as int),
{
    let bytes = u64_to_le_bytes(word);
    let mut k: usize = 0;
    assert(v@ == old(v)@ + filler(word, 0));
    while k < count
        invariant
            k <= count,
            bytes@ == spec_u64_to_le_bytes(word),
            bytes@.len() == 8,
            v@ == old(v)@ + filler(word, k as int),
        decreases count - k,
    {
        v.push(bytes[k % 8]);
        k = k + 1;
        assert(v@ == old(v)@ + filler(word, k as int));
    }
}

/// The bytes of a stub of the given kind that starts at `start`, with the
/// places of its fencepost and of its object.
fn build_stub(start: usize, size: usize, align: usize, before: u64) -> (r: (Vec<u8>, usize, usize))
    requires
        valid_kind(size as int, align as int),
        start + entry_space(size as int, align as int) <= usize::MAX,
    ensures
        ({
            let e = Entry {
                chunk: 0,
                start: start as nat,
                size: size as nat,
                align: align as nat,
                stub: true,
            };
            &&& r.0@ == entry_image(e, before)
            &&& r.1 == e.fence()
            &&& r.2 == e.obj()
        }),
{
    let ghost e = Entry {
        chunk: 0,
        start: start as nat,
        size: size as nat,
        align: align as nat,
        stub: true,
    };
    proof {
        lemma_entry_extent(e);
    }
    let fence: usize = round_up(start, WORD);
    let obj: usize = round_up(fence + WORD, align);
    let mut bytes: Vec<u8> = Vec::new();
    append_zeros(&mut bytes, fence - start);
    let mut word = u64_to_le_bytes(FencePost::new(make_forward(size, align, true), before).to_word());
    bytes.append(&mut word);
    append_filler(&mut bytes, make_forward(size, align, false) ^ SENTINEL, obj - fence - WORD);
    append_zeros(&mut bytes, size);
    assert(bytes@ == entry_image(e, before));
    (bytes, fence, obj)
}

/// The index ranges after one more entry came to lie at the write position,
/// in a new chunk where the vector `grew`.
spec fn next_firsts(firsts: Seq<int>, grew: bool) -> Seq<int> {
    if grew {
        firsts.push(firsts.last() + 1)
    } else {
        firsts.update(firsts.len() - 1, firsts.last() + 1)
    }
}

/// An entry written at the write position keeps the entries packed.
proof fn lemma_packed_push(
    layout: Seq<Seq<u8>>,
    caps: Seq<nat>,
    entries: Seq<Entry>,
    firsts: Seq<int>,
    e: Entry,
)
    requires
        packed(layout, entries, firsts),
        layout.len() > 0,
        valid_kind(e.size as int, e.align as int),
        e == next_entry(layout, caps, e.size, e.align, e.stub),
    ensures
        ({
            let space = entry_space(e.size as int, e.align as int) as nat;
            let reserved = reserved_layout(layout, caps, space);
            let image = entry_image(e, carried(entries, entries.len() as int));
            packed(
                committed(reserved, image),
                entries.push(e),
                next_firsts(firsts, reserved.len() > layout.len()),
            )
        }),
{
    let n = entries.len() as int;
    let space = entry_space(e.size as int, e.align as int) as nat;
    let reserved = reserved_layout(layout, caps, space);
    let grew = reserved.len() > layout.len();
    let before = carried(entries, n);
    let image = entry_image(e, before);
    let layout2 = committed(reserved, image);
    let entries2 = entries.push(e);
    let firsts2 = next_firsts(firsts, grew);
    let t = reserved.len() - 1;
    lemma_image_written(reserved.last(), e, before);
    lemma_entry_extent(e);
    assert(firsts[0] <= firsts[firsts.len() - 1]);
    assert forall|a: int, b: int| 0 <= a <= b < firsts2.len() implies #[trigger] firsts2[a]
        <= #[trigger] firsts2[b] by {
        if a < firsts.len() {
            assert(firsts[a] <= firsts[firsts.len() - 1]);
            if b < firsts.len() {
                assert(firsts[a] <= firsts[b]);
            }
        }
    }
    assert forall|c: int| 0 <= c < layout2.len() implies #[trigger] unused_is_empty(
        layout2,
        firsts2,
        c,
    ) by {
        if c < layout.len() {
            assert(unused_is_empty(layout, firsts, c));
        }
    }
    assert forall|i: int| 0 <= i < entries2.len() implies #[trigger] placed(
        layout2,
        entries2,
        firsts2,
        i,
    ) by {
        if i < n {
            assert(placed(layout, entries, firsts, i));
            let c = entries[i].chunk as int;
            assert(carried(entries2, i) == carried(entries, i));
            lemma_entry_kept(layout[c], layout2[c], entries[i], carried(entries, i));
            assert(firsts[c + 1] <= firsts[firsts.len() - 1]);
        } else {
            assert(carried(entries2, n) == before);
            assert(layout2[t] == reserved.last() + image);
            if n == firsts2[t] {
                if !grew {
                    assert(unused_is_empty(layout, firsts, t));
                }
            } else {
                lemma_chunk_of(layout, entries, firsts, n - 1, t);
                assert(placed(layout, entries, firsts, n - 1));
            }
        }
    }
}

/// The objects are those of the entries before the last, and the last
/// entry's own unless it is a stub.
proof fn lemma_objects_last(layout: Seq<Seq<u8>>, entries: Seq<Entry>)
    requires
        entries.len() > 0,
    ensures
        objects_of(layout, entries) == if entries.last().stub {
            objects_of(layout, entries.drop_last())
        } else {
            objects_of(layout, entries.drop_last()).push(entries.last().bytes(layout))
        },
        slots_of(entries) == if entries.last().stub {
            slots_of(entries.drop_last())
        } else {
            slots_of(entries.drop_last()).push(entries.last().slot())
        },
{
    if !entries.last().stub {
        assert(objects_of(layout, entries) =~= objects_of(layout, entries.drop_last()).push(
            entries.last().bytes(layout),
        ));
        assert(slots_of(entries) =~= slots_of(entries.drop_last()).push(entries.last().slot()));
    }
}

/// Layouts that agree on the bytes of every object hold the same objects.
proof fn lemma_objects_kept(l1: Seq<Seq<u8>>, l2: Seq<Seq<u8>>, entries: Seq<Entry>)
    requires
        forall|i: int| 0 <= i < entries.len() ==> (#[trigger] entries[i]).bytes(l1) == entries[i].bytes(l2),
    ensures
        objects_of(l1, entries) == objects_of(l2, entries),
    decreases entries.len(),
{
    if entries.len() > 0 {
        let head = entries.drop_last();
        assert forall|i: int| 0 <= i < head.len() implies (#[trigger] head[i]).bytes(l1)
            == head[i].bytes(l2) by {
            assert(head[i] == entries[i]);
        }
        lemma_objects_kept(l1, l2, head);
        lemma_objects_last(l1, entries);
        lemma_objects_last(l2, entries);
        assert(entries.last() == entries[entries.len() - 1]);
    } else {
        assert(objects_of(l1, entries) =~= objects_of(l2, entries));
    }
}

/// The bytes of one chunk after the stub `e` in it was finished.
spec fn finished_bytes(bytes: Seq<u8>, e: Entry, before: u64, obj: Seq<u8>) -> Seq<u8> {
    let word = spec_u64_to_le_bytes(forward_word(e.size as int, e.align as int, false) ^ before);
    let first = bytes.take(e.obj()) + obj + bytes.skip(e.obj() + obj.len());
    first.take(e.fence()) + word + first.skip(e.fence() + word.len())
}

/// Finishing a stub changes its fencepost and its object and nothing else.
proof fn lemma_finished_bytes(bytes: Seq<u8>, e: Entry, before: u64, obj: Seq<u8>)
    requires
        entry_written(bytes, e, before),
        obj.len() == e.size,
    ensures
        ({
            let after = finished_bytes(bytes, e, before, obj);
            &&& after.len() == bytes.len()
            &&& entry_written(after, e.finished(), before)
            &&& after.subrange(e.obj(), e.end()) == obj
            &&& forall|k: int|
                0 <= k < bytes.len() && !(e.fence() <= k < e.fence() + 8) && !(e.obj() <= k
                    < e.end()) ==> after[k] == bytes[k]
        }),
{
    lemma_entry_extent(e);
    let word = forward_word(e.size as int, e.align as int, false) ^ before;
    let after = finished_bytes(bytes, e, before, obj);
    assert(spec_u64_to_le_bytes(word).len() == 8) by {
        vstd::bytes::lemma_auto_spec_u64_to_from_le_bytes();
    }
    assert(after.subrange(e.fence(), e.fence() + 8) == spec_u64_to_le_bytes(word));
    lemma_word_read(after, e.fence(), word);
    assert(after.subrange(e.obj(), e.end()) == obj);
    assert forall|p: int|
        e.fence() + 8 <= p < e.obj() && (p - e.fence()) % 8 == 0 implies #[trigger] word_at(
        after,
        p,
    ) == filler_word(e.size as int, e.align as int) by {
        lemma_word_kept(bytes, after, p);
    }
}

/// Finishing the last entry keeps the entries packed, puts the object where
/// the entry has it, and leaves every other object as it was.
proof fn lemma_packed_finish(
    layout: Seq<Seq<u8>>,
    entries: Seq<Entry>,
    firsts: Seq<int>,
    obj: Seq<u8>,
)
    requires
        packed(layout, entries, firsts),
        entries.len() > 0,
        obj.len() == entries.last().size,
    ensures
        ({
            let n = entries.len() as int;
            let e = entries.last();
            let t = e.chunk as int;
            let after = layout.update(
                t,
                finished_bytes(layout[t], e, carried(entries, n - 1), obj),
            );
            let entries2 = entries.update(n - 1, e.finished());
            &&& packed(after, entries2, firsts)
            &&& e.bytes(after) == obj
            &&& forall|i: int|
                0 <= i < n - 1 ==> (#[trigger] entries[i]).bytes(after) == entries[i].bytes(layout)
            &&& carried(entries2, n) == carried(entries, n)
        }),
{
    let n = entries.len() as int;
    let e = entries.last();
    let t = e.chunk as int;
    let before = carried(entries, n - 1);
    let after = layout.update(t, finished_bytes(layout[t], e, before, obj));
    let entries2 = entries.update(n - 1, e.finished());
    assert(placed(layout, entries, firsts, n - 1));
    lemma_entry_extent(e);
    lemma_finished_bytes(layout[t], e, before, obj);
    assert forall|i: int| 0 <= i < n - 1 implies (#[trigger] entries[i]).bytes(after)
        == entries[i].bytes(layout) by {
        lemma_other_entry(layout, entries, firsts, i);
        assert(entries[i].bytes(after) =~= entries[i].bytes(layout));
    }
    assert forall|c: int| 0 <= c < after.len() implies #[trigger] unused_is_empty(
        after,
        firsts,
        c,
    ) by {
        assert(unused_is_empty(layout, firsts, c));
    }
    assert forall|i: int| 0 <= i < entries2.len() implies #[trigger] placed(
        after,
        entries2,
        firsts,
        i,
    ) by {
        assert(placed(layout, entries, firsts, i));
        assert(carried(entries2, i) == carried(entries, i));
        if i < n - 1 {
            lemma_other_entry(layout, entries, firsts, i);
            lemma_entry_kept(
                layout[entries[i].chunk as int],
                after[entries[i].chunk as int],
                entries[i],
                carried(entries, i),
            );
        }
    }
}

/// An entry before the last lies in another chunk or ends where the last
/// starts, or before.
proof fn lemma_other_entry(
    layout: Seq<Seq<u8>>,
    entries: Seq<Entry>,
    firsts: Seq<int>,
    i: int,
)
    requires
        packed(layout, entries, firsts),
        0 <= i < entries.len() - 1,
    ensures
        entries[i].chunk != entries.last().chunk || entries[i].end() <= entries.last().start,
        entries[i].chunk < layout.len(),
        0 <= entries[i].fence() <= entries[i].obj() <= entries[i].end() <= layout[entries[i].chunk as int].len(),
        entries.last().start <= entries.last().fence(),
{
    assert(placed(layout, entries, firsts, i));
    lemma_entry_extent(entries[i]);
    assert(placed(layout, entries, firsts, entries.len() - 1));
    lemma_entry_extent(entries.last());
    if entries[i].chunk == entries.last().chunk {
        lemma_ends_ordered(layout, entries, firsts, i, entries.len() - 1);
    }
}

/// What `emplace` leaves for each outcome `made` of the constructor: the
/// finished entry with the object where one of the announced size was made,
/// and a stub where none was.
pub open spec fn emplaced(
    layout: Seq<Seq<u8>>,
    caps: Seq<nat>,
    entries: Seq<Entry>,
    new_layout: Seq<Seq<u8>>,
    new_entries: Seq<Entry>,
    size: nat,
    align: nat,
    made: Option<Vec<u8>>,
    r: Option<Slot>,
) -> bool {
    let e = next_entry(layout, caps, size, align, true);
    if made is Some && made->0@.len() == size {
        &&& r == Some(e.slot())
        &&& new_entries == entries.push(e.finished())
        &&& e.bytes(new_layout) == made->0@
        &&& objects_of(new_layout, new_entries) == objects_of(layout, entries).push(made->0@)
        &&& slots_of(new_entries) == slots_of(entries).push(e.slot())
    } else {
        &&& r is None
        &&& new_entries == entries.push(e)
        &&& objects_of(new_layout, new_entries) == objects_of(layout, entries)
        &&& slots_of(new_entries) == slots_of(entries)
    }
}

/// Where a walk from the front stands in chunk `c` when entry `i` is the
/// next to come.
spec fn front_pos(
    layout: Seq<Seq<u8>>,
    entries: Seq<Entry>,
    firsts: Seq<int>,
    c: int,
    i: int,
) -> int {
    if i < firsts[c + 1] {
        entries[i].start as int
    } else {
        layout[c].len() as int
    }
}

/// Where a walk from the back stands in chunk `c` when entry `j` was the
/// last to come.
spec fn back_pos(
    layout: Seq<Seq<u8>>,
    entries: Seq<Entry>,
    firsts: Seq<int>,
    c: int,
    j: int,
) -> int {
    if j < firsts[c + 1] {
        entries[j].fence()
    } else {
        layout[c].len() as int
    }
}

/// A walk from the front and one from the back, in one chunk, stand less
/// than a fencepost apart exactly when no entry lies between them.
proof fn lemma_gap(
    layout: Seq<Seq<u8>>,
    entries: Seq<Entry>,
    firsts: Seq<int>,
    c: int,
    i: int,
    j: int,
)
    requires
        packed(layout, entries, firsts),
        0 <= c < layout.len(),
        firsts[c] <= i <= j <= firsts[c + 1],
    ensures
        0 <= front_pos(layout, entries, firsts, c, i) <= back_pos(layout, entries, firsts, c, j)
            <= layout[c].len(),
        i == j ==> back_pos(layout, entries, firsts, c, j) - front_pos(
            layout,
            entries,
            firsts,
            c,
            i,
        ) < 8,
        i < j ==> back_pos(layout, entries, firsts, c, j) - front_pos(
            layout,
            entries,
            firsts,
            c,
            i,
        ) >= 8,
{
    if i < firsts[c + 1] {
        lemma_chunk_of(layout, entries, firsts, i, c);
        assert(placed(layout, entries, firsts, i));
        lemma_entry_extent(entries[i]);
    }
    if j < firsts[c + 1] {
        lemma_chunk_of(layout, entries, firsts, j, c);
        assert(placed(layout, entries, firsts, j));
        lemma_entry_extent(entries[j]);
    }
    if i < j {
        lemma_chunk_of(layout, entries, firsts, j - 1, c);
        assert(placed(layout, entries, firsts, j - 1));
        lemma_entry_extent(entries[j - 1]);
        if i < j - 1 {
            lemma_ends_ordered(layout, entries, firsts, i, j - 1);
        }
    }
}

/// The entry that a walk from the front meets in chunk `c` lies there,
/// written, and the walk stands at its end once it is passed.
proof fn lemma_step_front(
    layout: Seq<Seq<u8>>,
    entries: Seq<Entry>,
    firsts: Seq<int>,
    c: int,
    i: int,
)
    requires
        packed(layout, entries, firsts),
        0 <= c < layout.len(),
        firsts[c] <= i < firsts[c + 1],
    ensures
        0 <= i < entries.len(),
        entries[i].chunk == c,
        entry_written(layout[c], entries[i], carried(entries, i)),
        front_pos(layout, entries, firsts, c, i + 1) == entries[i].end(),
{
    lemma_chunk_of(layout, entries, firsts, i, c);
    assert(placed(layout, entries, firsts, i));
    if i + 1 < firsts[c + 1] {
        lemma_chunk_of(layout, entries, firsts, i + 1, c);
        assert(placed(layout, entries, firsts, i + 1));
    }
}

/// The entry that a walk from the back meets in chunk `c` lies there,
/// written, and ends where the walk stands or less than a fencepost before.
proof fn lemma_step_back(
    layout: Seq<Seq<u8>>,
    entries: Seq<Entry>,
    firsts: Seq<int>,
    c: int,
    j: int,
)
    requires
        packed(layout, entries, firsts),
        0 <= c < layout.len(),
        firsts[c] < j <= firsts[c + 1],
    ensures
        0 < j <= entries.len(),
        entries[j - 1].chunk == c,
        entry_written(layout[c], entries[j - 1], carried(entries, j - 1)),
        back_pos(layout, entries, firsts, c, j) == entries[j - 1].end() || back_pos(
            layout,
            entries,
            firsts,
            c,
            j,
        ) == align_up(entries[j - 1].end(), 8),
        back_pos(layout, entries, firsts, c, j) <= layout[c].len(),
        carried(entries, j - 1) == 0 || exists|s: int, a: int|
            valid_kind(s, a) && carried(entries, j - 1) == backward_word(s, a),
{
    lemma_chunk_of(layout, entries, firsts, j - 1, c);
    assert(placed(layout, entries, firsts, j - 1));
    if j < firsts[c + 1] {
        lemma_chunk_of(layout, entries, firsts, j, c);
        assert(placed(layout, entries, firsts, j));
        lemma_entry_extent(entries[j]);
    }
    if j - 1 > 0 {
        assert(placed(layout, entries, firsts, j - 2));
        assert(valid_kind(entries[j - 2].size as int, entries[j - 2].align as int));
    }
}

/// A walk from the front enters a chunk at its start.
proof fn lemma_enter_front(
    layout: Seq<Seq<u8>>,
    entries: Seq<Entry>,
    firsts: Seq<int>,
    c: int,
)
    requires
        packed(layout, entries, firsts),
        0 <= c < layout.len(),
    ensures
        front_pos(layout, entries, firsts, c, firsts[c]) == 0,
{
    assert(unused_is_empty(layout, firsts, c));
    if firsts[c] < firsts[c + 1] {
        lemma_chunk_of(layout, entries, firsts, firsts[c], c);
        assert(placed(layout, entries, firsts, firsts[c]));
    }
}

/// Of a run of entries, the live ones are the first, unless it is a stub,
/// and the live ones of the rest.
proof fn lemma_pending_front(entries: Seq<Entry>, i: int, j: int)
    requires
        0 <= i < j <= entries.len(),
    ensures
        live(entries.subrange(i, j)) == if entries[i].stub {
            live(entries.subrange(i + 1, j))
        } else {
            seq![entries[i]] + live(entries.subrange(i + 1, j))
        },
{
    lemma_live_first(entries.subrange(i, j));
    assert(entries.subrange(i, j).drop_first() == entries.subrange(i + 1, j));
}

/// Of a run of entries, the live ones are those of all but the last, and
/// the last, unless it is a stub.
proof fn lemma_pending_back(entries: Seq<Entry>, i: int, j: int)
    requires
        0 <= i < j <= entries.len(),
    ensures
        live(entries.subrange(i, j)) == if entries[j - 1].stub {
            live(entries.subrange(i, j - 1))
        } else {
            live(entries.subrange(i, j - 1)).push(entries[j - 1])
        },
{
    assert(entries.subrange(i, j).drop_last() == entries.subrange(i, j - 1));
}

/// No two of the entries have their object at the same address.
spec fn distinct_slots(entries: Seq<Entry>) -> bool {
    forall|i: int, j: int|
        0 <= i < j < entries.len() ==> (#[trigger] entries[i]).slot() != (#[trigger] entries[j]).slot()
}

/// Entries that tile a buffer have their objects at different addresses.
proof fn lemma_packed_distinct(layout: Seq<Seq<u8>>, entries: Seq<Entry>, firsts: Seq<int>)
    requires
        packed(layout, entries, firsts),
        layout.len() <= usize::MAX,
        forall|c: int| 0 <= c < layout.len() ==> (#[trigger] layout[c]).len() <= usize::MAX,
    ensures
        distinct_slots(entries),
{
    assert forall|i: int, j: int| 0 <= i < j < entries.len() implies (#[trigger] entries[i]).slot()
        != (#[trigger] entries[j]).slot() by {
        assert(placed(layout, entries, firsts, i));
        assert(placed(layout, entries, firsts, j));
        lemma_entry_extent(entries[i]);
        lemma_entry_extent(entries[j]);
        if entries[i].chunk == entries[j].chunk {
            lemma_ends_ordered(layout, entries, firsts, i, j);
        }
    }
}

/// Each of the live entries is one of the entries.
proof fn lemma_live_within(entries: Seq<Entry>, k: int)
    requires
        0 <= k < live(entries).len(),
    ensures
        exists|i: int| 0 <= i < entries.len() && entries[i] == live(entries)[k],
    decreases entries.len(),
{
    if entries.last().stub || k < live(entries.drop_last()).len() {
        lemma_live_within(entries.drop_last(), k);
        let i = choose|i: int|
            0 <= i < entries.drop_last().len() && entries.drop_last()[i] == live(
                entries.drop_last(),
            )[k];
        assert(entries[i] == live(entries)[k]);
    } else {
        assert(entries[entries.len() - 1] == live(entries)[k]);
    }
}

/// Exactly once: where no two entries have their object at the same
/// address, no address comes twice among those of the finished objects.
proof fn lemma_slots_once(entries: Seq<Entry>)
    requires
        distinct_slots(entries),
    ensures
        slots_of(entries).no_duplicates(),
    decreases entries.len(),
{
    if entries.len() > 0 {
        let head = entries.drop_last();
        assert forall|i: int, j: int| 0 <= i < j < head.len() implies (#[trigger] head[i]).slot()
            != (#[trigger] head[j]).slot() by {
            assert(head[i] == entries[i]);
            assert(head[j] == entries[j]);
        }
        lemma_slots_once(head);
        lemma_objects_last(Seq::empty(), entries);
        if !entries.last().stub {
            let slots = slots_of(head);
            assert forall|k: int| 0 <= k < slots.len() implies slots[k]
                != entries.last().slot() by {
                lemma_live_within(head, k);
                let i = choose|i: int| 0 <= i < head.len() && head[i] == live(head)[k];
                assert(head[i] == entries[i]);
                assert(entries.last() == entries[entries.len() - 1]);
            }
        }
    }
}

/// What a value of one kind is seen as when the vector is walked: the
/// strategy by which a stored object is handed out as the view `E`.
pub trait Erase<E> {
    /// `view` is what the object with these bytes is seen as.
    spec fn erases(obj: Seq<u8>, view: E) -> bool;

    /// The view of the object with the bytes `obj`.
    fn erase(obj: &[u8]) -> (view: E)
        ensures
            Self::erases(obj@, view),
    ;
}

/// The strategy that widens: every object is seen as the run of bytes that
/// it is, whatever its kind.
pub struct Unsize(());

impl Erase<Vec<u8>> for Unsize {
    open spec fn erases(obj: Seq<u8>, view: Vec<u8>) -> bool {
        view@ == obj
    }

    fn erase(obj: &[u8]) -> (view: Vec<u8>) {
        copy_of(obj)
    }
}

/// The strategy that dereferences: every object is a buffer of text and is
/// seen as the text it holds, or as no text where its bytes are not
/// well-formed.
pub struct Deref(());

impl Erase<String> for Deref {
    open spec fn erases(obj: Seq<u8>, view: String) -> bool {
        view@ == if vstd::utf8::valid_utf8(obj) {
            vstd::utf8::decode_utf8(obj)
        } else {
            Seq::empty()
        }
    }

    fn erase(obj: &[u8]) -> (view: String) {
        broadcast use vstd::utf8::encode_utf8_decode_utf8;

        match core::str::from_utf8(obj) {
            Ok(text) => {
                assert(vstd::utf8::decode_utf8(vstd::utf8::encode_utf8(text@)) == text@);
                text.to_owned()
            },
            Err(_) => String::new(),
        }
    }
}

/// A vector of objects of differing kinds, seen through the view `E` that
/// the strategy `S` gives of each.
pub struct HetVec<E, S = Unsize> {
    vec: MonoVec<u8>,
    backward: u64,
    entries: Ghost<Seq<Entry>>,
    firsts: Ghost<Seq<int>>,
    _ph: PhantomData<(E, S)>,
}

impl<E, S> HetVec<E, S> {
    /// The bytes of each chunk of the backing buffer.
    pub closed spec fn layout(&self) -> Seq<Seq<u8>> {
        self.vec.layout()
    }

    /// The capacity of each chunk of the backing buffer.
    pub closed spec fn caps(&self) -> Seq<nat> {
        self.vec.caps()
    }

    /// The entries in the order in which they were written, stubs included.
    pub closed spec fn entries(&self) -> Seq<Entry> {
        self.entries@
    }

    /// The buffer is well-formed and its entries tile it, each behind a
    /// fencepost that is chained to the entry before.
    pub closed spec fn wf(&self) -> bool {
        &&& self.vec.wf()
        &&& packed(self.vec.layout(), self.entries@, self.firsts@)
        &&& self.backward == carried(self.entries@, self.entries@.len() as int)
    }

    /// The finished objects in the order in which they were written.
    pub open spec fn objects(&self) -> Seq<Seq<u8>> {
        objects_of(self.layout(), self.entries())
    }

    /// The addresses of the finished objects, in the same order.
    pub open spec fn slots(&self) -> Seq<Slot> {
        slots_of(self.entries())
    }

    /// Finalization exactly once: the addresses that teardown returns are
    /// those of the finished objects, and none of them comes twice.
    pub proof fn lemma_teardown_once(&self)
        requires
            self.wf(),
        ensures
            self.slots().no_duplicates(),
            self.slots().len() == self.objects().len(),
    {
        lemma_packed_distinct(self.vec.layout(), self.entries@, self.firsts@);
        lemma_slots_once(self.entries@);
    }

    /// An object of this kind can be stored without overflow.
    pub open spec fn can_push(&self, size: nat, align: nat) -> bool {
        &&& valid_kind(size as int, align as int)
        &&& entry_space(size as int, align as int) <= usize::MAX
        &&& reservable::<u8>(
            self.layout(),
            self.caps(),
            entry_space(size as int, align as int) as nat,
        )
    }

    /// An empty vector with room for 128 bytes.
    pub fn new() -> (r: Self)
        ensures
            r.wf(),
            r.entries() == Seq::<Entry>::empty(),
            r.layout() == seq![Seq::<u8>::empty()],
            r.caps() == seq![128nat],
    {
        broadcast use vstd::layout::layout_of_primitives;

        Self::with_capacity(128)
    }

    /// An empty vector with room for `cap` bytes, and for one where `cap`
    /// is zero.
    pub fn with_capacity(cap: usize) -> (r: Self)
        requires
            crate::chain::fits::<u8>(if cap == 0 { 1 } else { cap as nat }),
        ensures
            r.wf(),
            r.entries() == Seq::<Entry>::empty(),
            r.layout() == seq![Seq::<u8>::empty()],
            r.caps() == seq![if cap == 0 { 1 } else { cap as nat }],
    {
        let r = HetVec {
            vec: MonoVec::with_capacity(cap),
            backward: 0,
            entries: Ghost(Seq::empty()),
            firsts: Ghost(Seq::<int>::empty().push(0).push(0)),
            _ph: PhantomData,
        };
        assert(unused_is_empty(r.vec.layout(), r.firsts@, 0));
        r
    }

    /// Space that always suffices to place `size` bytes at alignment
    /// `align`, wherever the space starts.
    fn space_for(size: usize, align: usize) -> (r: usize)
        requires
            0 < align,
            size + align - 1 <= usize::MAX,
        ensures
            r == crate::fence::space_for(size as int, align as int),
    {
        size + (align - 1)
    }

    /// Writes a stub of the given kind at the write position and commits it.
    /// Returns the chunk and the places in it of the stub's fencepost and of
    /// its object.
    fn allocate(&mut self, size: usize, align: usize) -> (r: (usize, usize, usize))
        requires
            old(self).wf(),
            old(self).can_push(size as nat, align as nat),
        ensures
            final(self).wf(),
            ({
                let e = next_entry(
                    old(self).layout(),
                    old(self).caps(),
                    size as nat,
                    align as nat,
                    true,
                );
                let space = entry_space(size as int, align as int) as nat;
                &&& final(self).entries() == old(self).entries().push(e)
                &&& final(self).caps() == reserved_caps(old(self).layout(), old(self).caps(), space)
                &&& final(self).layout() == committed(
                    reserved_layout(old(self).layout(), old(self).caps(), space),
                    entry_image(e, old(self).backward),
                )
                &&& final(self).layout().len() == e.chunk + 1
                &&& final(self).layout().last().len() == e.end()
                &&& r.0 == e.chunk
                &&& r.1 == e.fence()
                &&& r.2 == e.obj()
                &&& e.end() <= usize::MAX
                &&& final(self).backward == carried(final(self).entries(), final(self).entries().len() as int)
                &&& old(self).backward == carried(old(self).entries(), old(self).entries().len() as int)
            }),
            final(self).objects() == old(self).objects(),
            final(self).slots() == old(self).slots(),
            keeps_addresses(old(self).layout(), final(self).layout()),
    {
        let ghost e = next_entry(self.layout(), self.caps(), size as nat, align as nat, true);
        let ghost before = *self;
        let ghost grew = reserved_layout(
            self.layout(),
            self.caps(),
            entry_space(size as int, align as int) as nat,
        ).len() > self.layout().len();
        proof {
            lemma_packed_push(self.vec.layout(), self.vec.caps(), self.entries@, self.firsts@, e);
            lemma_image_written(
                reserved_layout(
                    self.layout(),
                    self.caps(),
                    entry_space(size as int, align as int) as nat,
                ).last(),
                e,
                self.backward,
            );
        }
        let space: usize = Self::space_for(WORD, WORD) + Self::space_for(size, align);
        let (slot, _) = self.vec.reserve(space);
        let (bytes, fence, obj) = build_stub(slot.index, size, align, self.backward);
        assert(bytes@ == entry_image(e, self.backward));
        self.vec.add_len(bytes);
        self.backward = make_backward(size, align);
        proof {
            self.entries@ = self.entries@.push(e);
            self.firsts@ = next_firsts(self.firsts@, grew);
            lemma_objects_last(self.layout(), self.entries@);
            assert(self.entries@.drop_last() =~= before.entries@);
            assert forall|i: int| 0 <= i < before.entries@.len() implies (
            #[trigger] before.entries@[i]).bytes(before.layout()) == before.entries@[i].bytes(
                self.layout(),
            ) by {
                assert(placed(before.vec.layout(), before.entries@, before.firsts@, i));
                lemma_entry_extent(before.entries@[i]);
            }
            lemma_objects_kept(before.layout(), self.layout(), before.entries@);
        }
        (slot.chunk, fence, obj)
    }

    /// Finishes the stub that is the last entry: writes the object's bytes
    /// where the stub has room for them, then replaces the stub's fencepost
    /// by that of a finished entry.
    fn complete(&mut self, at: (usize, usize, usize), align: usize, before: u64, obj: &[u8])
        requires
            old(self).wf(),
            old(self).entries().len() > 0,
            ({
                let e = old(self).entries().last();
                &&& e.stub
                &&& e.chunk == at.0
                &&& e.fence() == at.1
                &&& e.obj() == at.2
                &&& e.size == obj@.len()
                &&& e.align == align
                &&& before == carried(old(self).entries(), old(self).entries().len() - 1)
            }),
        ensures
            final(self).wf(),
            final(self).caps() == old(self).caps(),
            final(self).entries() == old(self).entries().update(
                old(self).entries().len() - 1,
                old(self).entries().last().finished(),
            ),
            final(self).layout() == old(self).layout().update(
                at.0 as int,
                finished_bytes(
                    old(self).layout()[at.0 as int],
                    old(self).entries().last(),
                    before,
                    obj@,
                ),
            ),
            old(self).entries().last().bytes(final(self).layout()) == obj@,
            final(self).objects() == old(self).objects().push(obj@),
            final(self).slots() == old(self).slots().push(old(self).entries().last().slot()),
    {
        let ghost was = *self;
        let ghost e = self.entries@.last();
        let ghost n = self.entries@.len() as int;
        proof {
            lemma_packed_finish(self.vec.layout(), self.entries@, self.firsts@, obj@);
            assert(placed(self.vec.layout(), self.entries@, self.firsts@, n - 1));
            lemma_entry_extent(e);
            vstd::bytes::lemma_auto_spec_u64_to_from_le_bytes();
        }
        self.vec.write(Slot { chunk: at.0, index: at.2 }, obj);
        let word = u64_to_le_bytes(
            FencePost::new(make_forward(obj.len(), align, false), before).to_word(),
        );
        self.vec.write(Slot { chunk: at.0, index: at.1 }, word.as_slice());
        proof {
            self.entries@ = self.entries@.update(n - 1, e.finished());
            assert(self.vec.layout() == was.vec.layout().update(
                at.0 as int,
                finished_bytes(was.vec.layout()[at.0 as int], e, before, obj@),
            ));
            lemma_objects_last(was.layout(), was.entries@);
            lemma_objects_last(self.layout(), self.entries@);
            assert(self.entries@.drop_last() == was.entries@.drop_last());
            assert forall|i: int| 0 <= i < n - 1 implies (#[trigger] was.entries@.drop_last()[i]).bytes(
                was.layout(),
            ) == was.entries@.drop_last()[i].bytes(self.layout()) by {
                assert(was.entries@.drop_last()[i] == was.entries@[i]);
            }
            lemma_objects_kept(was.layout(), self.layout(), was.entries@.drop_last());
        }
    }

    /// Stores an object with the bytes `obj`, aligned to `align`, and returns
    /// its address. The objects that were there stay where they are.
    pub fn push(&mut self, align: usize, obj: &[u8]) -> (r: Slot)
        requires
            old(self).wf(),
            old(self).can_push(obj@.len(), align as nat),
        ensures
            final(self).wf(),
            final(self).entries() == old(self).entries().push(
                next_entry(old(self).layout(), old(self).caps(), obj@.len(), align as nat, false),
            ),
            r == next_entry(
                old(self).layout(),
                old(self).caps(),
                obj@.len(),
                align as nat,
                false,
            ).slot(),
            final(self).caps() == reserved_caps(
                old(self).layout(),
                old(self).caps(),
                entry_space(obj@.len() as int, align as int) as nat,
            ),
            final(self).objects() == old(self).objects().push(obj@),
            final(self).slots() == old(self).slots().push(r),
            final(self).holds(r, obj@),
            keeps_addresses(old(self).layout(), final(self).layout()),
    {
        let before: u64 = self.backward;
        let at = self.allocate(obj.len(), align);
        let ghost mid = *self;
        self.complete(at, align, before, obj);
        proof {
            let e = mid.entries@.last();
            assert(mid.entries@ == old(self).entries().push(e));
            assert(self.entries@ =~= old(self).entries().push(e.finished()));
            assert(placed(mid.vec.layout(), mid.entries@, mid.firsts@, mid.entries@.len() - 1));
            lemma_entry_extent(e);
            lemma_finished_bytes(mid.vec.layout()[at.0 as int], e, before, obj@);
            assert forall|c: int| 0 <= c < old(self).layout().len() implies (#[trigger] old(
                self,
            ).layout()[c]).is_prefix_of(self.layout()[c]) by {
                assert(old(self).layout()[c].is_prefix_of(mid.layout()[c]));
            }
        }
        Slot { chunk: at.0, index: at.2 }
    }

    /// Makes room for an object of `size` bytes aligned to `align`, then has
    /// `make` construct it in that room. Where `make` gives the object, with
    /// the size that was announced, it is stored and its address returned.
    /// Where it fails, the room stays a stub that no walk ever shows.
    pub fn emplace<F: FnOnce() -> Option<Vec<u8>>>(&mut self, align: usize, size: usize, make: F) -> (r:
        Option<Slot>)
        requires
            old(self).wf(),
            old(self).can_push(size as nat, align as nat),
            make.requires(()),
        ensures
            final(self).wf(),
            exists|made: Option<Vec<u8>>|
                make.ensures((), made) && #[trigger] emplaced(
                    old(self).layout(),
                    old(self).caps(),
                    old(self).entries(),
                    final(self).layout(),
                    final(self).entries(),
                    size as nat,
                    align as nat,
                    made,
                    r,
                ),
            final(self).caps() == reserved_caps(
                old(self).layout(),
                old(self).caps(),
                entry_space(size as int, align as int) as nat,
            ),
            keeps_addresses(old(self).layout(), final(self).layout()),
    {
        let before: u64 = self.backward;
        let at = self.allocate(size, align);
        let ghost mid = *self;
        let made = make();
        let r = match &made {
            Some(obj) => {
                if obj.len() == size {
                    self.complete(at, align, before, obj.as_slice());
                    proof {
                        let e = mid.entries@.last();
                        assert(mid.entries@ == old(self).entries().push(e));
            assert(self.entries@ =~= old(self).entries().push(e.finished()));
                        assert(placed(
                            mid.vec.layout(),
                            mid.entries@,
                            mid.firsts@,
                            mid.entries@.len() - 1,
                        ));
                        lemma_entry_extent(e);
                        lemma_finished_bytes(mid.vec.layout()[at.0 as int], e, before, obj@);
                        assert forall|c: int| 0 <= c < old(self).layout().len() implies (
                        #[trigger] old(self).layout()[c]).is_prefix_of(self.layout()[c]) by {
                            assert(old(self).layout()[c].is_prefix_of(mid.layout()[c]));
                        }
                    }
                    Some(Slot { chunk: at.0, index: at.2 })
                } else {
                    None
                }
            },
            None => None,
        };
        assert(emplaced(
            old(self).layout(),
            old(self).caps(),
            old(self).entries(),
            self.layout(),
            self.entries(),
            size as nat,
            align as nat,
            made,
            r,
        ));
        r
    }

    /// The object at `at` has the bytes `obj`.
    pub open spec fn holds(&self, at: Slot, obj: Seq<u8>) -> bool {
        holds_in(self.layout(), at, obj)
    }

    /// The `len` bytes of the object at `at`.
    pub fn get(&self, at: Slot, len: usize) -> (r: &[u8])
        requires
            at.chunk < self.layout().len(),
            at.index + len <= self.layout()[at.chunk as int].len(),
        ensures
            r@ == self.layout()[at.chunk as int].subrange(at.index as int, at.index + len),
    {
        let region = self.vec.chunk(at.chunk);
        let bound: usize = region.len();
        vstd::slice::slice_subrange(region, at.index, at.index + len)
    }

    /// Tells whether an object of this kind can be stored.
    pub fn fits_push(&self, size: usize, align: usize) -> (r: bool)
        requires
            self.wf(),
        ensures
            r == self.can_push(size as nat, align as nat),
    {
        if !crate::fence::check_kind(size, align) {
            return false;
        }
        match size.checked_add(align) {
            Some(n) => match n.checked_add(14) {
                Some(space) => self.vec.fits_reserve(space),
                None => false,
            },
            None => false,
        }
    }

    /// A walk over the finished objects, from the first, from the last, or
    /// from both.
    pub fn items(&self) -> (r: Items<'_, E, S>)
        requires
            self.wf(),
        ensures
            r.wf(),
            r.pending() == live(self.entries()),
            r.layout() == self.layout(),
            r.remaining() == self.objects(),
    {
        let last: usize = self.vec.chunk_count() - 1;
        let r = Items {
            vec: self,
            chunk: 0,
            cur: 0,
            backward: 0,
            back_chunk: last,
            back_cur: self.vec.chunk(last).len(),
            back_backward: self.backward,
            front: Ghost(0),
            back: Ghost(self.entries@.len() as int),
        };
        proof {
            lemma_enter_front(self.vec.layout(), self.entries@, self.firsts@, 0);
            assert(self.entries@.subrange(0, self.entries@.len() as int) =~= self.entries@);
        }
        r
    }

    /// Tears the vector down and returns the addresses of the objects whose
    /// finalizer is to run: each finished object once, in the order in which
    /// they were stored, and no stub.
    pub fn teardown(self) -> (r: Vec<Slot>)
        requires
            self.wf(),
        ensures
            r@ == self.slots(),
    {
        let mut slots: Vec<Slot> = Vec::new();
        let mut walk = self.items();
        loop
            invariant
                walk.wf(),
                slots@ + walk.pending().map_values(|e: Entry| e.slot()) == self.slots(),
            decreases walk.steps_left(),
        {
            match walk.step() {
                Some(at) => {
                    proof {
                        let rest = walk.pending().map_values(|e: Entry| e.slot());
                        assert(slots@.push(Slot { chunk: at.0, index: at.1 }) + rest =~= self.slots());
                    }
                    slots.push(Slot { chunk: at.0, index: at.1 });
                },
                None => {
                    assert(slots@ =~= self.slots());
                    return slots;
                },
            }
        }
    }
}

/// What the forward word of an entry resolves to: where the entry's object
/// starts and ends, whether the entry is a stub, and the backward word of
/// its kind.
struct Forward {
    obj: usize,
    end: usize,
    stub: bool,
    backward: u64,
}

/// What the backward word of an entry resolves to: where the entry's
/// fencepost lies and what lies behind it, and the backward word of the
/// entry before.
struct Backward {
    fence: usize,
    obj: usize,
    end: usize,
    stub: bool,
    before: u64,
}

/// Resolves the entry that starts at `cur`, where `carried` is the backward
/// word of the entry before it.
fn forward(region: &[u8], cur: usize, carried: u64, Ghost(e): Ghost<Entry>) -> (r: Forward)
    requires
        entry_written(region@, e, carried),
        e.start == cur,
    ensures
        r.obj == e.obj(),
        r.end == e.end(),
        r.stub == e.stub,
        r.backward == backward_word(e.size as int, e.align as int),
        cur < r.end,
{
    proof {
        lemma_entry_extent(e);
        lemma_xor_cancel(forward_word(e.size as int, e.align as int, e.stub), carried);
    }
    let bound: usize = region.len();
    let fence: usize = round_up(cur, WORD);
    let word: u64 = FencePost::from_word(read_word(region, fence)).forward(carried);
    let size: usize = word_size(word);
    let align: usize = word_align(word);
    let stub: bool = word_stub(word);
    assert(size == e.size && align == e.align && stub == e.stub);
    let obj: usize = round_up(fence + WORD, align);
    Forward { obj, end: obj + size, stub, backward: make_backward(size, align) }
}

/// Resolves the entry that ends at `end`, or less than a fencepost before
/// it, where `word` is the backward word of the entry's kind. Objects that
/// are aligned no more strictly than a fencepost lie right behind theirs;
/// for the others the filler between the two is walked back.
fn backward(
    region: &[u8],
    end: usize,
    word: u64,
    Ghost(e): Ghost<Entry>,
    Ghost(before): Ghost<u64>,
) -> (r: Backward)
    requires
        entry_written(region@, e, before),
        word == backward_word(e.size as int, e.align as int),
        end == e.end() || end == align_up(e.end(), 8),
        end <= region@.len(),
        before == 0 || exists|s: int, a: int| valid_kind(s, a) && before == backward_word(s, a),
    ensures
        r.fence == e.fence(),
        r.obj == e.obj(),
        r.end == e.end(),
        r.stub == e.stub,
        r.before == before,
        r.fence < end,
{
    proof {
        lemma_entry_extent(e);
        lemma_align_up(e.end(), 8);
        lemma_fence_bits(e.size as int, e.align as int, e.stub, before);
        lemma_xor_cancel(forward_word(e.size as int, e.align as int, e.stub), before);
    }
    let bound: usize = region.len();
    let size: usize = word_size(word);
    let align: usize = word_align(word);
    assert(size == e.size && align == e.align);
    let mut ptr: usize = end - size;
    if align <= WORD {
        ptr = ptr - ptr % WORD;
        ptr = ptr - WORD;
    } else {
        ptr = ptr - WORD;
        let filler: u64 = make_forward(size, align, false) ^ SENTINEL;
        while read_word(region, ptr) == filler
            invariant
                e.fence() <= ptr <= e.obj() - 8,
                (ptr - e.fence()) % 8 == 0,
                0 <= e.fence(),
                e.obj() <= region@.len(),
                filler == filler_word(e.size as int, e.align as int),
                entry_written(region@, e, before),
                word_at(region@, e.fence()) != filler,
            decreases ptr,
        {
            ptr = ptr - WORD;
        }
    }
    assert(ptr == e.fence());
    let fence = FencePost::from_word(read_word(region, ptr));
    let stub: bool = fence.is_stub();
    let obj: usize = round_up(ptr + WORD, align);
    Backward {
        fence: ptr,
        obj,
        end: obj + size,
        stub,
        before: fence.backward(make_forward(size, align, stub)),
    }
}

/// A walk over the finished objects of a heterogeneous vector, from the
/// first, from the last, or from both.
pub struct Items<'a, E, S> {
    vec: &'a HetVec<E, S>,
    chunk: usize,
    cur: usize,
    backward: u64,
    back_chunk: usize,
    back_cur: usize,
    back_backward: u64,
    front: Ghost<int>,
    back: Ghost<int>,
}

impl<'a, E, S> Items<'a, E, S> {
    /// Both ends stand at entries of the vector, each with the backward word
    /// that is in force there, and the front has not passed the back.
    pub closed spec fn wf(&self) -> bool {
        let layout = self.vec.vec.layout();
        let entries = self.vec.entries@;
        let firsts = self.vec.firsts@;
        &&& self.vec.wf()
        &&& 0 <= self.front@ <= self.back@ <= entries.len()
        &&& self.chunk <= self.back_chunk < layout.len()
        &&& firsts[self.chunk as int] <= self.front@ <= firsts[self.chunk + 1]
        &&& firsts[self.back_chunk as int] <= self.back@ <= firsts[self.back_chunk + 1]
        &&& self.cur == front_pos(layout, entries, firsts, self.chunk as int, self.front@)
        &&& self.back_cur == back_pos(layout, entries, firsts, self.back_chunk as int, self.back@)
        &&& self.backward == carried(entries, self.front@)
        &&& self.back_backward == carried(entries, self.back@)
    }

    /// The bytes of each chunk of the vector that is walked.
    pub closed spec fn layout(&self) -> Seq<Seq<u8>> {
        self.vec.vec.layout()
    }

    /// The finished entries that are still to come, in order.
    pub closed spec fn pending(&self) -> Seq<Entry> {
        live(self.vec.entries@.subrange(self.front@, self.back@))
    }

    /// The objects that are still to come, in order.
    pub open spec fn remaining(&self) -> Seq<Seq<u8>> {
        self.pending().map_values(|e: Entry| e.bytes(self.layout()))
    }

    /// A bound on the steps that the walk can still take.
    pub closed spec fn steps_left(&self) -> nat {
        (self.back@ - self.front@) as nat
    }

    /// Resolves the next finished entry from the front and passes it.
    /// Returns its chunk and where its object starts and ends, or `None`
    /// when the front has met the back.
    pub fn step(&mut self) -> (r: Option<(usize, usize, usize)>)
        requires
            old(self).wf(),
        ensures
            final(self).wf(),
            final(self).layout() == old(self).layout(),
            match r {
                Some(at) => {
                    &&& old(self).pending().len() > 0
                    &&& final(self).pending() == old(self).pending().drop_first()
                    &&& final(self).steps_left() < old(self).steps_left()
                    &&& at.0 == old(self).pending().first().chunk
                    &&& at.1 == old(self).pending().first().obj()
                    &&& at.2 == old(self).pending().first().end()
                    &&& at.0 < old(self).layout().len()
                    &&& at.1 <= at.2 <= old(self).layout()[at.0 as int].len()
                },
                None => old(self).pending().len() == 0 && final(self).pending() == old(
                    self,
                ).pending(),
            },
    {
        let ghost layout = self.vec.vec.layout();
        let ghost entries = self.vec.entries@;
        let ghost firsts = self.vec.firsts@;
        loop
            invariant
                self.wf(),
                self.vec == old(self).vec,
                layout == self.vec.vec.layout(),
                entries == self.vec.entries@,
                firsts == self.vec.firsts@,
                self.back@ == old(self).back@,
                self.front@ >= old(self).front@,
                self.pending() == old(self).pending(),
            decreases self.back@ - self.front@, self.back_chunk - self.chunk,
        {
            let region = self.vec.vec.chunk(self.chunk);
            let same: bool = self.chunk == self.back_chunk;
            let upper: usize = if same {
                self.back_cur
            } else {
                region.len()
            };
            let ghost c = self.chunk as int;
            let ghost i = self.front@;
            let ghost j = if same {
                self.back@
            } else {
                firsts[c + 1]
            };
            proof {
                lemma_gap(layout, entries, firsts, c, i, j);
            }
            if upper - self.cur < 8 {
                if same {
                    assert(entries.subrange(i, i) =~= Seq::<Entry>::empty());
                    return None;
                }
                proof {
                    lemma_enter_front(layout, entries, firsts, c + 1);
                    assert(firsts[c + 1] <= firsts[c + 2]);
                }
                self.chunk = self.chunk + 1;
                self.cur = 0;
            } else {
                let ghost e = entries[i];
                proof {
                    lemma_step_front(layout, entries, firsts, c, i);
                    lemma_pending_front(entries, i, self.back@);
                }
                let found = forward(region, self.cur, self.backward, Ghost(e));
                let stub: bool = found.stub;
                let obj: usize = found.obj;
                let end: usize = found.end;
                self.cur = end;
                self.backward = found.backward;
                proof {
                    self.front@ = i + 1;
                }
                if !stub {
                    proof {
                        let rest = live(entries.subrange(i + 1, self.back@));
                        assert((seq![e] + rest).drop_first() == rest);
                    }
                    return Some((self.chunk, obj, end));
                }
            }
        }
    }

    /// Resolves the next finished entry from the back and passes it.
    /// Returns its chunk and where its object starts and ends, or `None`
    /// when the back has met the front.
    pub fn step_back(&mut self) -> (r: Option<(usize, usize, usize)>)
        requires
            old(self).wf(),
        ensures
            final(self).wf(),
            final(self).layout() == old(self).layout(),
            match r {
                Some(at) => {
                    &&& old(self).pending().len() > 0
                    &&& final(self).pending() == old(self).pending().drop_last()
                    &&& final(self).steps_left() < old(self).steps_left()
                    &&& at.0 == old(self).pending().last().chunk
                    &&& at.1 == old(self).pending().last().obj()
                    &&& at.2 == old(self).pending().last().end()
                    &&& at.0 < old(self).layout().len()
                    &&& at.1 <= at.2 <= old(self).layout()[at.0 as int].len()
                },
                None => old(self).pending().len() == 0 && final(self).pending() == old(
                    self,
                ).pending(),
            },
    {
        let ghost layout = self.vec.vec.layout();
        let ghost entries = self.vec.entries@;
        let ghost firsts = self.vec.firsts@;
        loop
            invariant
                self.wf(),
                self.vec == old(self).vec,
                layout == self.vec.vec.layout(),
                entries == self.vec.entries@,
                firsts == self.vec.firsts@,
                self.front@ == old(self).front@,
                self.back@ <= old(self).back@,
                self.pending() == old(self).pending(),
            decreases self.back@ - self.front@, self.back_chunk - self.chunk,
        {
            let region = self.vec.vec.chunk(self.back_chunk);
            let same: bool = self.chunk == self.back_chunk;
            let lower: usize = if same {
                self.cur
            } else {
                0
            };
            let ghost c = self.back_chunk as int;
            let ghost j = self.back@;
            let ghost i = if same {
                self.front@
            } else {
                firsts[c]
            };
            proof {
                lemma_gap(layout, entries, firsts, c, i, j);
                lemma_enter_front(layout, entries, firsts, c);
            }
            if self.back_cur - lower < 8 {
                if same {
                    assert(entries.subrange(j, j) =~= Seq::<Entry>::empty());
                    return None;
                }
                proof {
                    assert(firsts[c - 1] <= firsts[c]);
                }
                self.back_chunk = self.back_chunk - 1;
                self.back_cur = self.vec.vec.chunk(self.back_chunk).len();
            } else {
                let ghost e = entries[j - 1];
                let ghost before = carried(entries, j - 1);
                proof {
                    lemma_step_back(layout, entries, firsts, c, j);
                    lemma_pending_back(entries, self.front@, j);
                }
                let found = backward(region, self.back_cur, self.back_backward, Ghost(e), Ghost(before));
                let ptr: usize = found.fence;
                let stub: bool = found.stub;
                let obj: usize = found.obj;
                let end: usize = found.end;
                self.back_cur = ptr;
                self.back_backward = found.before;
                proof {
                    self.back@ = j - 1;
                }
                if !stub {
                    proof {
                        let rest = live(entries.subrange(self.front@, j - 1));
                        assert(rest.push(e).drop_last() == rest);
                    }
                    return Some((self.back_chunk, obj, end));
                }
            }
        }
    }
}

impl<'a, E, S: Erase<E>> Items<'a, E, S> {
    /// The view of the next object from the front, or `None` when all were
    /// given.
    pub fn next(&mut self) -> (r: Option<E>)
        requires
            old(self).wf(),
        ensures
            final(self).wf(),
            final(self).layout() == old(self).layout(),
            match r {
                Some(view) => old(self).remaining().len() > 0 && S::erases(
                    old(self).remaining().first(),
                    view,
                ) && final(self).remaining() == old(self).remaining().drop_first(),
                None => old(self).remaining().len() == 0 && final(self).remaining() == old(
                    self,
                ).remaining(),
            },
    {
        match self.step() {
            Some(at) => {
                let region = self.vec.vec.chunk(at.0);
                assert(self.remaining() =~= old(self).remaining().drop_first());
                Some(S::erase(vstd::slice::slice_subrange(region, at.1, at.2)))
            },
            None => None,
        }
    }

    /// The view of the next object from the back, or `None` when all were
    /// given.
    pub fn next_back(&mut self) -> (r: Option<E>)
        requires
            old(self).wf(),
        ensures
            final(self).wf(),
            final(self).layout() == old(self).layout(),
            match r {
                Some(view) => old(self).remaining().len() > 0 && S::erases(
                    old(self).remaining().last(),
                    view,
                ) && final(self).remaining() == old(self).remaining().drop_last(),
                None => old(self).remaining().len() == 0 && final(self).remaining() == old(
                    self,
                ).remaining(),
            },
    {
        match self.step_back() {
            Some(at) => {
                let region = self.vec.vec.chunk(at.0);
                assert(self.remaining() =~= old(self).remaining().drop_last());
                Some(S::erase(vstd::slice::slice_subrange(region, at.1, at.2)))
            },
            None => None,
        }
    }
}

} // verus!
