//! The forward-only face of the growth engine: a chunked vector that is only
//! ever appended to and never gives capacity back.

use vstd::prelude::*;
use vstd::string::StringSliceAdditionalSpecFns;
use crate::chain::{
    shaped,
    available_in, committed, cursor_of, fits, keeps_addresses, overwritten, replaced, reservable,
    reserved_caps, reserved_layout, slot_value, valid_slot, Chain, Slot,
};
use crate::chain::Chunks as ChainChunks;
use crate::chain::Iter as ChainIter;
use crate::chain::{doublings, empty_chunks, grown_cap, header_size, lemma_grown_cap_bounds, lemma_reserved_flatten};
use crate::text::{as_text, copy_of};

verus! {

/// An append-only vector made of chunks. Elements are never moved, and no
/// chunk is ever cut down or dropped before the vector is.
pub struct MonoVec<T> {
    chain: Chain<T>,
}

impl<T> View for MonoVec<T> {
    type V = Seq<T>;

    /// The elements in the order in which they were committed.
    open spec fn view(&self) -> Seq<T> {
        self.layout().flatten()
    }
}

impl<T> MonoVec<T> {
    /// The populated region of each chunk, in link order.
    pub closed spec fn layout(&self) -> Seq<Seq<T>> {
        self.chain.layout()
    }

    /// The capacity of each chunk, in link order.
    pub closed spec fn caps(&self) -> Seq<nat> {
        self.chain.caps()
    }

    /// There is at least one chunk, no chunk is without capacity, and none
    /// holds more than its capacity.
    pub open spec fn wf(&self) -> bool {
        shaped(self.layout(), self.caps())
    }

    /// `s` addresses a populated element.
    pub open spec fn valid(&self, s: Slot) -> bool {
        valid_slot(self.layout(), s)
    }

    /// The element that `s` addresses.
    pub open spec fn at(&self, s: Slot) -> T {
        slot_value(self.layout(), s)
    }

    /// The current write position.
    pub open spec fn cursor(&self) -> Slot {
        cursor_of(self.layout())
    }

    /// Free places left in the tail.
    pub open spec fn available(&self) -> nat {
        available_in(self.layout(), self.caps())
    }

    /// A reservation of `len` elements can be served without overflow.
    pub open spec fn can_reserve(&self, len: nat) -> bool {
        reservable::<T>(self.layout(), self.caps(), len)
    }

    /// A vector of one chunk with room for eight elements.
    pub fn new() -> (r: Self)
        requires
            fits::<T>(8),
        ensures
            r.wf(),
            r.layout() == seq![Seq::<T>::empty()],
            r.caps() == seq![8nat],
    {
        MonoVec { chain: Chain::new() }
    }

    /// A vector of one chunk with room for `cap` elements, and for one where
    /// `cap` is zero.
    pub fn with_capacity(cap: usize) -> (r: Self)
        requires
            fits::<T>(if cap == 0 { 1 } else { cap as nat }),
        ensures
            r.wf(),
            r.layout() == seq![Seq::<T>::empty()],
            r.caps() == seq![if cap == 0 { 1 } else { cap as nat }],
    {
        MonoVec { chain: Chain::with_capacity(cap) }
    }

    /// The number of elements in all chunks.
    pub fn len(&self) -> (r: usize)
        requires
            self.wf(),
            self@.len() <= usize::MAX,
        ensures
            r == self@.len(),
    {
        self.chain.len()
    }

    /// Tells whether a reservation of `len` elements can be served.
    pub fn fits_reserve(&self, len: usize) -> (r: bool)
        requires
            self.wf(),
        ensures
            r == self.can_reserve(len as nat),
    {
        self.chain.fits_reserve(len)
    }

    /// Makes room for at least `len` more contiguous elements and returns the
    /// write position with the room that is there, which may be more than
    /// `len`. Where the tail is too small, a chunk of `grown_cap` elements
    /// becomes the new tail; no other chunk is touched.
    pub fn reserve(&mut self, len: usize) -> (r: (Slot, usize))
        requires
            old(self).wf(),
            old(self).can_reserve(len as nat),
        ensures
            final(self).wf(),
            final(self).layout() == reserved_layout(old(self).layout(), old(self).caps(), len as nat),
            final(self).caps() == reserved_caps(old(self).layout(), old(self).caps(), len as nat),
            r.0 == final(self).cursor(),
            r.1 == final(self).available(),
            r.1 >= len,
    {
        self.chain.reserve(len)
    }

    /// Commits `elems` to the tail, after the elements that are there. The
    /// room must have been reserved.
    pub fn add_len(&mut self, elems: Vec<T>)
        requires
            old(self).wf(),
            elems@.len() <= old(self).available(),
        ensures
            final(self).wf(),
            final(self).layout() == committed(old(self).layout(), elems@),
            final(self).caps() == old(self).caps(),
            final(self)@ == old(self)@ + elems@,
    {
        self.chain.add_len(elems)
    }

    /// Appends one element and returns its address. Earlier addresses keep
    /// their elements.
    pub fn push(&mut self, elem: T) -> (r: Slot)
        requires
            old(self).wf(),
            old(self).can_reserve(1),
        ensures
            final(self).wf(),
            final(self).layout() == committed(
                reserved_layout(old(self).layout(), old(self).caps(), 1),
                seq![elem],
            ),
            final(self).caps() == reserved_caps(old(self).layout(), old(self).caps(), 1),
            r == cursor_of(reserved_layout(old(self).layout(), old(self).caps(), 1)),
            final(self).valid(r),
            final(self).at(r) == elem,
            final(self)@ == old(self)@.push(elem),
            keeps_addresses(old(self).layout(), final(self).layout()),
    {
        self.chain.push(elem)
    }

    /// Appends `elems` as one contiguous run and returns the run as it lies
    /// in the tail. Earlier addresses keep their elements.
    pub fn push_as_slice(&mut self, elems: Vec<T>) -> (r: &[T])
        requires
            old(self).wf(),
            old(self).can_reserve(elems@.len()),
        ensures
            final(self).wf(),
            final(self).layout() == committed(
                reserved_layout(old(self).layout(), old(self).caps(), elems@.len()),
                elems@,
            ),
            final(self).caps() == reserved_caps(old(self).layout(), old(self).caps(), elems@.len()),
            r@ == elems@,
            final(self)@ == old(self)@ + elems@,
            keeps_addresses(old(self).layout(), final(self).layout()),
    {
        self.chain.extend_as_slice(elems)
    }

    /// The number of chunks.
    pub fn chunk_count(&self) -> (r: usize)
        ensures
            r == self.layout().len(),
    {
        self.chain.chunk_count()
    }

    /// The populated region of chunk `c`.
    pub fn chunk(&self, c: usize) -> (r: &[T])
        requires
            c < self.layout().len(),
        ensures
            r@ == self.layout()[c as int],
    {
        self.chain.chunk(c)
    }

    /// The capacity of chunk `c`.
    pub fn chunk_capacity(&self, c: usize) -> (r: usize)
        requires
            c < self.layout().len(),
        ensures
            r == self.caps()[c as int],
    {
        self.chain.chunk_capacity(c)
    }

    /// The element at `s`.
    pub fn get(&self, s: Slot) -> (r: &T)
        requires
            self.valid(s),
        ensures
            *r == self.at(s),
    {
        self.chain.get(s)
    }

    /// Exclusive access to the element at `s`. Nothing else changes, and the
    /// element stays where it is.
    pub fn get_mut(&mut self, s: Slot) -> (r: &mut T)
        requires
            old(self).valid(s),
        ensures
            *r == old(self).at(s),
            final(self).caps() == old(self).caps(),
            final(self).layout() == replaced(old(self).layout(), s, *final(r)),
            old(self).wf() ==> final(self).wf(),
    {
        assert forall|value: T| self.wf() implies #[trigger] shaped(
            replaced(self.layout(), s, value),
            self.caps(),
        ) by {
            crate::chain::lemma_replaced_shaped(self.layout(), self.caps(), s, value);
        }
        self.chain.get_mut(s)
    }

    /// Overwrites the committed elements from `at` on with `data`. Nothing
    /// moves and no length changes.
    pub fn write(&mut self, at: Slot, data: &[T]) where T: Copy
        requires
            old(self).wf(),
            at.chunk < old(self).layout().len(),
            at.index + data@.len() <= old(self).layout()[at.chunk as int].len(),
        ensures
            final(self).wf(),
            final(self).caps() == old(self).caps(),
            final(self).layout() == overwritten(old(self).layout(), at, data@),
    {
        self.chain.write(at, data)
    }

    /// The chunks' populated regions, from either end.
    pub fn chunks(&self) -> (r: Chunks<'_, T>)
        requires
            self.wf(),
        ensures
            r.wf(),
            r.remaining() == self.layout(),
    {
        Chunks { inner: self.chain.chunks() }
    }

    /// The elements, from either end.
    pub fn items(&self) -> (r: Items<'_, T>)
        requires
            self.wf(),
        ensures
            r.wf(),
            r.remaining() == self@,
    {
        Items { inner: self.chain.iter() }
    }
}

/// Text of `len` bytes can be formatted into a vector whose tail has capacity
/// `cap`: the largest chunk that this may take can be asked of the memory
/// provider.
pub open spec fn format_room(cap: nat, len: nat) -> bool {
    header_size() + 2 * (if cap >= len { cap } else { len }) <= usize::MAX
}

/// The capacities after text of `len` bytes was formatted into a vector:
/// unchanged where the tail had a free byte and room for the text, and else
/// followed by the doublings of the tail's capacity up to the first that
/// holds the text.
pub open spec fn formatted_caps(layout: Seq<Seq<u8>>, caps: Seq<nat>, len: nat) -> Seq<nat> {
    if available_in(layout, caps) >= 1 && len <= available_in(layout, caps) {
        caps
    } else {
        caps + doublings(caps.last(), len)
    }
}

/// The layout after the text with these bytes was formatted into a vector:
/// the bytes are committed to the tail where it had a free byte and room for
/// the text, and else they are alone in the last of the chunks that were
/// appended; the others of these are empty.
pub open spec fn formatted_layout(layout: Seq<Seq<u8>>, caps: Seq<nat>, bytes: Seq<u8>) -> Seq<
    Seq<u8>,
> {
    if available_in(layout, caps) >= 1 && bytes.len() <= available_in(layout, caps) {
        committed(layout, bytes)
    } else {
        layout + empty_chunks::<u8>((doublings(caps.last(), bytes.len()).len() - 1) as nat) + seq![
            bytes,
        ]
    }
}

/// A chunk of bytes whose capacity, with the header, fits a machine word can
/// be asked of the memory provider.
pub proof fn lemma_byte_chunk_fits(cap: nat)
    requires
        header_size() + cap <= usize::MAX,
    ensures
        fits::<u8>(cap),
{
    broadcast use vstd::layout::layout_of_primitives;

    assert(crate::chain::array_size::<u8>(cap) == cap) by (nonlinear_arith)
        requires
            vstd::layout::size_of::<u8>() == 1,
            crate::chain::array_size::<u8>(cap) == cap * vstd::layout::size_of::<u8>(),
    ;
}

/// Where the attempts to format text of `len` bytes stand: the chunks with
/// the capacities `appended` were appended to what was there, all empty, and
/// what is still to be appended are the doublings that are left.
spec fn formatting(
    start: Seq<Seq<u8>>,
    start_caps: Seq<nat>,
    layout: Seq<Seq<u8>>,
    caps: Seq<nat>,
    appended: Seq<nat>,
    len: nat,
) -> bool {
    let room = available_in(layout, caps);
    &&& caps == start_caps + appended
    &&& layout == start + empty_chunks::<u8>(appended.len())
    &&& caps.last() <= if start_caps.last() >= len {
        start_caps.last()
    } else {
        len
    } || len <= room
    &&& appended.len() > 0 ==> room == caps.last() && !(available_in(start, start_caps) >= 1 && len
        <= available_in(start, start_caps)) && doublings(start_caps.last(), len) == if len > room {
        appended + doublings(room, len)
    } else {
        appended
    }
}

/// One attempt to format, which asks for one byte more than the tail has
/// room for, or for one byte at the start, keeps the attempts where they
/// stand. Returns the capacities that are appended after it.
proof fn lemma_format_step(
    start: Seq<Seq<u8>>,
    start_caps: Seq<nat>,
    layout: Seq<Seq<u8>>,
    caps: Seq<nat>,
    appended: Seq<nat>,
    len: nat,
    needed: nat,
) -> (next: Seq<nat>)
    requires
        shaped(start, start_caps),
        shaped(layout, caps),
        format_room(start_caps.last(), len),
        (appended.len() == 0 && layout == start && caps == start_caps && needed == 1) || (
        formatting(start, start_caps, layout, caps, appended, len) && len > available_in(
            layout,
            caps,
        ) && available_in(layout, caps) >= 1 && needed == available_in(layout, caps) + 1),
    ensures
        reservable::<u8>(layout, caps, needed),
        formatting(
            start,
            start_caps,
            reserved_layout(layout, caps, needed),
            reserved_caps(layout, caps, needed),
            next,
            len,
        ),
        reserved_layout(layout, caps, needed).flatten() == layout.flatten(),
        available_in(reserved_layout(layout, caps, needed), reserved_caps(layout, caps, needed))
            >= 1,
{
    let tail = caps.last();
    let room = available_in(layout, caps);
    lemma_grown_cap_bounds(tail, needed);
    lemma_reserved_flatten(layout, caps, needed);
    if room >= needed {
        assert(caps =~= start_caps + appended);
        assert(layout =~= start + empty_chunks::<u8>(appended.len()));
        appended
    } else {
        assert(grown_cap(tail, needed) == 2 * tail);
        lemma_byte_chunk_fits(2 * tail);
        let next = appended.push(2 * tail);
        assert(reserved_caps(layout, caps, needed) =~= start_caps + next);
        assert(reserved_layout(layout, caps, needed) =~= start + empty_chunks::<u8>(next.len()));
        assert(doublings(tail, len) == if 2 * tail >= len {
            seq![2 * tail]
        } else {
            seq![2 * tail] + doublings(2 * tail, len)
        });
        assert(appended + (seq![2 * tail] + doublings(2 * tail, len)) =~= next + doublings(
            2 * tail,
            len,
        ));
        assert(appended + seq![2 * tail] =~= next);
        next
    }
}

/// Once the text fits, committing it to the tail leaves what the contract
/// of formatting says.
proof fn lemma_format_done(
    start: Seq<Seq<u8>>,
    start_caps: Seq<nat>,
    layout: Seq<Seq<u8>>,
    caps: Seq<nat>,
    appended: Seq<nat>,
    bytes: Seq<u8>,
)
    requires
        shaped(start, start_caps),
        shaped(layout, caps),
        formatting(start, start_caps, layout, caps, appended, bytes.len()),
        bytes.len() <= available_in(layout, caps),
        available_in(layout, caps) >= 1,
        layout.flatten() == start.flatten(),
    ensures
        caps == formatted_caps(start, start_caps, bytes.len()),
        committed(layout, bytes) == formatted_layout(start, start_caps, bytes),
        committed(layout, bytes).flatten() == start.flatten() + bytes,
        keeps_addresses(start, committed(layout, bytes)),
{
    crate::chain::lemma_committed_flatten(layout, bytes);
    let after = committed(layout, bytes);
    if appended.len() > 0 {
        assert(after =~= start + empty_chunks::<u8>((appended.len() - 1) as nat) + seq![bytes]);
    } else {
        assert(caps =~= start_caps);
        assert(layout =~= start);
    }
    assert forall|c: int| 0 <= c < start.len() implies (#[trigger] start[c]).is_prefix_of(
        after[c],
    ) by {}
}

impl MonoVec<u8> {
    /// Tells whether `text` can be formatted into the vector.
    pub fn fits_format(&self, text: &str) -> (r: bool)
        requires
            self.wf(),
        ensures
            r == format_room(self.caps().last(), text.spec_bytes().len()),
    {
        broadcast use vstd::layout::layout_of_primitives;

        let cap: usize = self.chain.chunk_capacity(self.chain.chunk_count() - 1);
        let len: usize = text.as_bytes().len();
        let most: usize = if cap >= len {
            cap
        } else {
            len
        };
        let header: usize = 4 * core::mem::size_of::<usize>();
        most <= (usize::MAX - header) / 2
    }

    /// Copies `text` into the vector as one contiguous run and returns it as
    /// it lies there. A first attempt asks for one byte; each further one asks
    /// for one byte more than the last was given, which doubles the tail,
    /// until the text fits. A chunk that was too small stays behind as it was.
    pub fn format(&mut self, text: &str) -> (r: &str)
        requires
            old(self).wf(),
            format_room(old(self).caps().last(), text.spec_bytes().len()),
        ensures
            final(self).wf(),
            r@ == text@,
            final(self).caps() == formatted_caps(
                old(self).layout(),
                old(self).caps(),
                text.spec_bytes().len(),
            ),
            final(self).layout() == formatted_layout(
                old(self).layout(),
                old(self).caps(),
                text.spec_bytes(),
            ),
            final(self)@ == old(self)@ + text.spec_bytes(),
            keeps_addresses(old(self).layout(), final(self).layout()),
    {
        let bytes = text.as_bytes();
        let len: usize = bytes.len();
        let ghost mut appended: Seq<nat> = Seq::empty();
        proof {
            appended = lemma_format_step(
                self.layout(),
                self.caps(),
                self.layout(),
                self.caps(),
                appended,
                len as nat,
                1,
            );
        }
        let (slot, room) = self.reserve(1);
        let mut slot = slot;
        let mut room = room;
        while len > room
            invariant
                self.wf(),
                old(self).wf(),
                bytes@ == text.spec_bytes(),
                len == bytes@.len(),
                format_room(old(self).caps().last(), len as nat),
                formatting(
                    old(self).layout(),
                    old(self).caps(),
                    self.layout(),
                    self.caps(),
                    appended,
                    len as nat,
                ),
                self@ == old(self)@,
                slot == self.cursor(),
                room == self.available(),
                room >= 1,
            decreases (if room >= len { 0 } else { len - room }),
        {
            proof {
                appended = lemma_format_step(
                    old(self).layout(),
                    old(self).caps(),
                    self.layout(),
                    self.caps(),
                    appended,
                    len as nat,
                    (room + 1) as nat,
                );
            }
            let (next_slot, next_room) = self.reserve(room + 1);
            slot = next_slot;
            room = next_room;
        }
        let ghost mid = *self;
        proof {
            lemma_format_done(
                old(self).layout(),
                old(self).caps(),
                self.layout(),
                self.caps(),
                appended,
                bytes@,
            );
        }
        self.add_len(copy_of(bytes));
        let region = self.chunk(slot.chunk);
        assert(region@ == mid.layout().last() + bytes@);
        let run = vstd::slice::slice_subrange(region, slot.index, slot.index + len);
        assert(run@ == bytes@);
        as_text(run, Ghost(text))
    }
}

/// A walk over the populated regions of a vector's chunks, from the head,
/// from the tail, or from both.
pub struct Chunks<'a, T> {
    inner: ChainChunks<'a, T>,
}

impl<'a, T> Chunks<'a, T> {
    /// The walk's two ends lie inside the vector and have not crossed.
    pub closed spec fn wf(&self) -> bool {
        self.inner.wf()
    }

    /// The regions that are still to come, in link order.
    pub closed spec fn remaining(&self) -> Seq<Seq<T>> {
        self.inner.remaining()
    }

    /// The next region from the head, or `None` when all were given.
    pub fn next(&mut self) -> (r: Option<&'a [T]>)
        requires
            old(self).wf(),
        ensures
            final(self).wf(),
            match r {
                Some(region) => old(self).remaining().len() > 0 && region@ == old(
                    self,
                ).remaining().first() && final(self).remaining() == old(
                    self,
                ).remaining().drop_first(),
                None => old(self).remaining().len() == 0 && final(self).remaining() == old(
                    self,
                ).remaining(),
            },
    {
        self.inner.next()
    }

    /// The next region from the tail, or `None` when all were given.
    pub fn next_back(&mut self) -> (r: Option<&'a [T]>)
        requires
            old(self).wf(),
        ensures
            final(self).wf(),
            match r {
                Some(region) => old(self).remaining().len() > 0 && region@ == old(
                    self,
                ).remaining().last() && final(self).remaining() == old(
                    self,
                ).remaining().drop_last(),
                None => old(self).remaining().len() == 0 && final(self).remaining() == old(
                    self,
                ).remaining(),
            },
    {
        self.inner.next_back()
    }
}

/// A walk over the elements of a vector, from the first, from the last, or
/// from both.
pub struct Items<'a, T> {
    inner: ChainIter<'a, T>,
}

impl<'a, T> Items<'a, T> {
    /// Both ends address places of the vector, and the front has not passed
    /// the back.
    pub closed spec fn wf(&self) -> bool {
        self.inner.wf()
    }

    /// The elements that are still to come, in order.
    pub closed spec fn remaining(&self) -> Seq<T> {
        self.inner.remaining()
    }

    /// The next element from the front, or `None` when all were given.
    pub fn next(&mut self) -> (r: Option<&'a T>)
        requires
            old(self).wf(),
        ensures
            final(self).wf(),
            match r {
                Some(elem) => old(self).remaining().len() > 0 && *elem == old(
                    self,
                ).remaining().first() && final(self).remaining() == old(
                    self,
                ).remaining().drop_first(),
                None => old(self).remaining().len() == 0 && final(self).remaining() == old(
                    self,
                ).remaining(),
            },
    {
        self.inner.next()
    }

    /// The next element from the back, or `None` when all were given.
    pub fn next_back(&mut self) -> (r: Option<&'a T>)
        requires
            old(self).wf(),
        ensures
            final(self).wf(),
            match r {
                Some(elem) => old(self).remaining().len() > 0 && *elem == old(
                    self,
                ).remaining().last() && final(self).remaining() == old(
                    self,
                ).remaining().drop_last(),
                None => old(self).remaining().len() == 0 && final(self).remaining() == old(
                    self,
                ).remaining(),
            },
    {
        self.inner.next_back()
    }
}

} // verus!
