//! Zones: arenas of plain values with bounded write cursors.
//!
//! A `Quota` reserves a run of places in a zone and is filled little by
//! little. When it is released, the places it did not use go back to the zone
//! if nothing was stored after them, and are forfeited otherwise.

use vstd::prelude::*;
use vstd::string::StringSliceAdditionalSpecFns;
use vstd::utf8::valid_utf8;
use crate::chain::{
    shaped,
    available_in, committed, cursor_of, doublings, empty_chunks, fits, grown_cap, header_size,
    keeps_addresses,
    lemma_grown_cap_bounds, lemma_reserved_flatten, overwritten, replaced, reservable,
    reserved_caps, reserved_layout, shrinkable, slot_value, truncated, valid_slot, Chain, Slot,
};
use crate::arena::Forget;
use crate::hetvec::{objects_of, slots_of, Entry, HetVec};

verus! {

/// An arena of values of one type.
pub struct Zone<T> {
    chain: Chain<T>,
}

/// A bounded write cursor into a zone: where its run of places starts, how
/// many of them were written, and how many it reserved.
pub struct Quota {
    origin: Slot,
    len: usize,
    cap: usize,
}

/// A bounded write cursor for text into a zone of bytes.
pub struct StrQuota(Quota);

/// `count` copies of `fill`.
pub open spec fn filled<T>(count: nat, fill: T) -> Seq<T> {
    Seq::new(count, |i: int| fill)
}

/// The layout after a quota of `cap` places at `origin`, of which `len` were
/// written, was released: cut down to what was written where the quota is
/// the last thing in the zone, and unchanged otherwise.
pub open spec fn released<T>(layout: Seq<Seq<T>>, origin: Slot, cap: nat, len: nat) -> Seq<Seq<T>> {
    if shrinkable(layout, origin, cap, len) {
        truncated(layout, (origin.index + len) as nat)
    } else {
        layout
    }
}

/// Shrink-back: releasing a quota that is the last thing in the zone moves
/// the write position back to just behind what the quota wrote, so that the
/// places it did not use are the next to be given out. Where nothing was
/// written, that is the quota's own origin.
pub proof fn lemma_release_reclaims<T>(layout: Seq<Seq<T>>, origin: Slot, cap: nat, len: nat)
    requires
        0 < layout.len() <= usize::MAX,
        shrinkable(layout, origin, cap, len),
        origin.index + len <= usize::MAX,
    ensures
        cursor_of(released(layout, origin, cap, len)) == (Slot {
            chunk: origin.chunk,
            index: (origin.index + len) as usize,
        }),
        keeps_addresses(released(layout, origin, cap, len), layout),
        released(layout, origin, cap, len).len() == layout.len(),
{
    let after = released(layout, origin, cap, len);
    assert forall|c: int| 0 <= c < after.len() implies (#[trigger] after[c]).is_prefix_of(
        layout[c],
    ) by {}
}

/// Forfeit: once anything was reserved after a quota that took all the room
/// of its chunk, the quota is no longer the last thing in the zone, and
/// releasing it changes nothing: its places are neither given out again nor
/// is anything that was stored after it touched.
pub proof fn lemma_release_forfeits<T>(
    layout: Seq<Seq<T>>,
    caps: Seq<nat>,
    origin: Slot,
    cap: nat,
    len: nat,
    later: nat,
    stored: Seq<T>,
)
    requires
        shaped(layout, caps),
        shrinkable(layout, origin, cap, 0),
        available_in(layout, caps) == 0,
        later > 0,
    ensures
        !shrinkable(committed(reserved_layout(layout, caps, later), stored), origin, cap, len),
        released(committed(reserved_layout(layout, caps, later), stored), origin, cap, len)
            == committed(reserved_layout(layout, caps, later), stored),
{
}

impl<T> View for Zone<T> {
    type V = Seq<T>;

    /// The committed places in order.
    open spec fn view(&self) -> Seq<T> {
        self.layout().flatten()
    }
}

impl<T> Zone<T> {
    /// The committed region of each chunk, in link order.
    pub closed spec fn layout(&self) -> Seq<Seq<T>> {
        self.chain.layout()
    }

    /// The capacity of each chunk, in link order.
    pub closed spec fn caps(&self) -> Seq<nat> {
        self.chain.caps()
    }

    /// There is at least one chunk, no chunk is without capacity, and none
    /// holds more than its capacity.
    pub open spec fn wf(&self) -> bool {
        shaped(self.layout(), self.caps())
    }

    /// `s` addresses a committed place.
    pub open spec fn valid(&self, s: Slot) -> bool {
        valid_slot(self.layout(), s)
    }

    /// The value at `s`.
    pub open spec fn at(&self, s: Slot) -> T {
        slot_value(self.layout(), s)
    }

    /// A reservation of `len` places can be served without overflow.
    pub open spec fn can_reserve(&self, len: nat) -> bool {
        reservable::<T>(self.layout(), self.caps(), len)
    }

    /// A zone of one chunk with room for eight values.
    pub fn new() -> (r: Self)
        requires
            fits::<T>(8),
        ensures
            r.wf(),
            r.layout() == seq![Seq::<T>::empty()],
            r.caps() == seq![8nat],
    {
        Self::with_capacity(8)
    }

    /// A zone of one chunk with room for `count` values, and for one where
    /// `count` is zero.
    pub fn with_capacity(count: usize) -> (r: Self)
        requires
            fits::<T>(if count == 0 { 1 } else { count as nat }),
        ensures
            r.wf(),
            r.layout() == seq![Seq::<T>::empty()],
            r.caps() == seq![if count == 0 { 1 } else { count as nat }],
    {
        Zone { chain: Chain::with_capacity(count) }
    }

    /// Tells whether a reservation of `len` places can be served.
    pub fn fits_reserve(&self, len: usize) -> (r: bool)
        requires
            self.wf(),
        ensures
            r == self.can_reserve(len as nat),
    {
        self.chain.fits_reserve(len)
    }

    /// Stores one value and returns its address. Earlier addresses keep
    /// their values.
    pub fn push(&mut self, elem: T) -> (r: Slot)
        requires
            old(self).wf(),
            old(self).can_reserve(1),
        ensures
            final(self).wf(),
            final(self).layout() == committed(
                reserved_layout(old(self).layout(), old(self).caps(), 1),
                seq![elem],
            ),
            final(self).caps() == reserved_caps(old(self).layout(), old(self).caps(), 1),
            r == cursor_of(reserved_layout(old(self).layout(), old(self).caps(), 1)),
            final(self).valid(r),
            final(self).at(r) == elem,
            final(self)@ == old(self)@.push(elem),
            keeps_addresses(old(self).layout(), final(self).layout()),
    {
        self.chain.push(elem)
    }

    /// The value at `s`.
    pub fn get(&self, s: Slot) -> (r: &T)
        requires
            self.valid(s),
        ensures
            *r == self.at(s),
    {
        self.chain.get(s)
    }

    /// Exclusive access to the value at `s`. Nothing else changes, and the
    /// value stays where it is.
    pub fn get_mut(&mut self, s: Slot) -> (r: &mut T)
        requires
            old(self).valid(s),
        ensures
            *r == old(self).at(s),
            final(self).caps() == old(self).caps(),
            final(self).layout() == replaced(old(self).layout(), s, *final(r)),
            old(self).wf() ==> final(self).wf(),
    {
        assert forall|value: T| self.wf() implies #[trigger] shaped(
            replaced(self.layout(), s, value),
            self.caps(),
        ) by {
            crate::chain::lemma_replaced_shaped(self.layout(), self.caps(), s, value);
        }
        self.chain.get_mut(s)
    }

    /// Reserves at least `len` places and commits all the room that is
    /// there, so that nothing else is stored under the quota while it is
    /// filled. The places hold `fill` until they are written.
    pub fn allocate(&mut self, len: usize, fill: T) -> (q: Quota) where T: Copy
        requires
            old(self).wf(),
            old(self).can_reserve(len as nat),
        ensures
            final(self).wf(),
            q.origin() == cursor_of(reserved_layout(old(self).layout(), old(self).caps(), len as nat)),
            q.room() == available_in(
                reserved_layout(old(self).layout(), old(self).caps(), len as nat),
                reserved_caps(old(self).layout(), old(self).caps(), len as nat),
            ),
            q.room() >= len,
            q.written() == 0,
            final(self).caps() == reserved_caps(old(self).layout(), old(self).caps(), len as nat),
            final(self).layout() == committed(
                reserved_layout(old(self).layout(), old(self).caps(), len as nat),
                filled(q.room(), fill),
            ),
            q.held_by(final(self).layout()),
            shrinkable(final(self).layout(), q.origin(), q.room(), 0),
            keeps_addresses(old(self).layout(), final(self).layout()),
    {
        let (origin, cap) = self.chain.reserve(len);
        let mut room: Vec<T> = Vec::with_capacity(cap);
        let mut i: usize = 0;
        while i < cap
            invariant
                i <= cap,
                room@ == filled(i as nat, fill),
            decreases cap - i,
        {
            room.push(fill);
            i = i + 1;
            assert(room@ == filled(i as nat, fill));
        }
        self.chain.add_len(room);
        Quota { origin, len: 0, cap }
    }
}

impl Quota {
    /// Where the quota's run of places starts.
    pub closed spec fn origin(&self) -> Slot {
        self.origin
    }

    /// How many places were written.
    pub closed spec fn written(&self) -> nat {
        self.len as nat
    }

    /// How many places were reserved.
    pub closed spec fn room(&self) -> nat {
        self.cap as nat
    }

    /// The quota's places are committed places of `layout`, and no more were
    /// written than were reserved.
    pub open spec fn held_by<T>(&self, layout: Seq<Seq<T>>) -> bool {
        &&& self.origin().chunk < layout.len()
        &&& self.origin().index + self.room() <= layout[self.origin().chunk as int].len()
        &&& self.written() <= self.room()
    }

    /// The address of the place that is written next.
    pub open spec fn next(&self) -> Slot {
        Slot { chunk: self.origin().chunk, index: (self.origin().index + self.written()) as usize }
    }

    /// The values that were written, as they lie in `layout`.
    pub open spec fn content<T>(&self, layout: Seq<Seq<T>>) -> Seq<T> {
        layout[self.origin().chunk as int].subrange(
            self.origin().index as int,
            self.origin().index + self.written(),
        )
    }

    /// How many places were written.
    pub fn len(&self) -> (r: usize)
        ensures
            r == self.written(),
    {
        self.len
    }

    /// How many places were reserved.
    pub fn capacity(&self) -> (r: usize)
        ensures
            r == self.room(),
    {
        self.cap
    }

    /// Writes `elem` to the next place, or hands it back where the quota is
    /// full; the zone is then untouched.
    pub fn push<T>(&mut self, zone: &mut Zone<T>, elem: T) -> (r: Result<(), T>)
        requires
            old(zone).wf(),
            old(self).held_by(old(zone).layout()),
        ensures
            final(zone).wf(),
            final(zone).caps() == old(zone).caps(),
            final(self).origin() == old(self).origin(),
            final(self).room() == old(self).room(),
            final(self).held_by(final(zone).layout()),
            match r {
                Ok(_) => {
                    &&& old(self).written() < old(self).room()
                    &&& final(self).written() == old(self).written() + 1
                    &&& final(zone).layout() == replaced(old(zone).layout(), old(self).next(), elem)
                },
                Err(back) => {
                    &&& old(self).written() == old(self).room()
                    &&& back == elem
                    &&& final(self).written() == old(self).written()
                    &&& final(zone).layout() == old(zone).layout()
                },
            },
    {
        if self.cap == self.len {
            Err(elem)
        } else {
            let at = Slot { chunk: self.origin.chunk, index: self.origin.index + self.len };
            let place = zone.chain.get_mut(at);
            *place = elem;
            self.len = self.len + 1;
            Ok(())
        }
    }

    /// Copies as many values of `data` as there is room for, from its start,
    /// and tells how many.
    pub fn fill<T: Copy>(&mut self, zone: &mut Zone<T>, data: &[T]) -> (r: usize)
        requires
            old(zone).wf(),
            old(self).held_by(old(zone).layout()),
        ensures
            final(zone).wf(),
            final(zone).caps() == old(zone).caps(),
            final(self).origin() == old(self).origin(),
            final(self).room() == old(self).room(),
            final(self).held_by(final(zone).layout()),
            r == if data@.len() <= old(self).room() - old(self).written() {
                data@.len() as int
            } else {
                old(self).room() - old(self).written()
            },
            final(self).written() == old(self).written() + r,
            final(zone).layout() == overwritten(
                old(zone).layout(),
                old(self).next(),
                data@.take(r as int),
            ),
    {
        let free: usize = self.cap - self.len;
        let count: usize = if data.len() <= free {
            data.len()
        } else {
            free
        };
        let at = Slot { chunk: self.origin.chunk, index: self.origin.index + self.len };
        zone.chain.write(at, vstd::slice::slice_subrange(data, 0, count));
        self.len = self.len + count;
        count
    }

    /// Moves values out of `elems`, from its start, until the quota is full
    /// or `elems` is used up, and tells how many. The rest is dropped.
    pub fn extend<T>(&mut self, zone: &mut Zone<T>, elems: Vec<T>) -> (r: usize)
        requires
            old(zone).wf(),
            old(self).held_by(old(zone).layout()),
        ensures
            final(zone).wf(),
            final(zone).caps() == old(zone).caps(),
            final(self).origin() == old(self).origin(),
            final(self).room() == old(self).room(),
            final(self).held_by(final(zone).layout()),
            r == if elems@.len() <= old(self).room() - old(self).written() {
                elems@.len() as int
            } else {
                old(self).room() - old(self).written()
            },
            final(self).written() == old(self).written() + r,
            final(zone).layout() == overwritten(
                old(zone).layout(),
                old(self).next(),
                elems@.take(r as int),
            ),
    {
        let ghost all = elems@;
        let ghost before = zone.layout();
        let ghost start = self.next();
        let free: usize = self.cap - self.len;
        let count: usize = if elems.len() <= free {
            elems.len()
        } else {
            free
        };
        let mut elems = elems;
        elems.truncate(count);
        let base: usize = self.origin.index + self.len;
        let chunk: usize = self.origin.chunk;
        assert(zone.layout() == before.update(
            chunk as int,
            before[chunk as int].take(base + count) + all.subrange(count as int, count as int)
                + before[chunk as int].skip(base + count),
        )) by {
            assert(before[chunk as int] =~= before[chunk as int].take(base + count) + all.subrange(
                count as int,
                count as int,
            ) + before[chunk as int].skip(base + count));
        }
        while elems.len() > 0
            invariant
                elems@.len() <= count,
                elems@ == all.take(elems@.len() as int),
                count <= all.len(),
                zone.wf(),
                zone.caps() == old(zone).caps(),
                before == old(zone).layout(),
                chunk < before.len(),
                start == (Slot { chunk, index: base }),
                base + count <= before[chunk as int].len(),
                base + count <= usize::MAX,
                zone.layout() == before.update(
                    chunk as int,
                    before[chunk as int].take(base + elems@.len()) + all.subrange(
                        elems@.len() as int,
                        count as int,
                    ) + before[chunk as int].skip(base + count),
                ),
            decreases elems@.len(),
        {
            let ghost mid = zone.layout();
            let k: usize = elems.len() - 1;
            match elems.pop() {
                Some(elem) => {
                    let place = zone.chain.get_mut(Slot { chunk, index: base + k });
                    *place = elem;
                    assert(zone.layout()[chunk as int] =~= before[chunk as int].take(base + k)
                        + all.subrange(k as int, count as int) + before[chunk as int].skip(
                        base + count,
                    ));
                },
                None => {},
            }
        }
        assert(zone.layout() == overwritten(before, start, all.take(count as int))) by {
            assert(zone.layout()[chunk as int] =~= overwritten(
                before,
                start,
                all.take(count as int),
            )[chunk as int]);
        }
        self.len = self.len + count;
        count
    }

    /// Forgets what was written, so that the quota can be filled anew. The
    /// zone is not touched.
    pub fn clear(&mut self)
        ensures
            final(self).origin() == old(self).origin(),
            final(self).room() == old(self).room(),
            final(self).written() == 0,
    {
        self.len = 0;
    }

    /// Releases the quota: the places that were not written go back to the
    /// zone where nothing was committed after the quota, and stay committed
    /// otherwise.
    pub fn release<T>(self, zone: &mut Zone<T>)
        requires
            old(zone).wf(),
        ensures
            final(zone).wf(),
            final(zone).caps() == old(zone).caps(),
            final(zone).layout() == released(
                old(zone).layout(),
                self.origin(),
                self.room(),
                self.written(),
            ),
    {
        zone.chain.shrink_len(self.origin, self.cap, self.len);
    }

    /// Releases the quota and returns what was written as it lies in the
    /// zone.
    pub fn into_slice<'a, T>(self, zone: &'a mut Zone<T>) -> (r: &'a [T])
        requires
            old(zone).wf(),
            self.held_by(old(zone).layout()),
        ensures
            final(zone).wf(),
            final(zone).caps() == old(zone).caps(),
            final(zone).layout() == released(
                old(zone).layout(),
                self.origin(),
                self.room(),
                self.written(),
            ),
            r@ == self.content(old(zone).layout()),
            r@ == self.content(final(zone).layout()),
    {
        zone.chain.shrink_len(self.origin, self.cap, self.len);
        let region = zone.chain.chunk(self.origin.chunk);
        let r = vstd::slice::slice_subrange(region, self.origin.index, self.origin.index + self.len);
        assert(r@ == self.content(old(zone).layout()));
        r
    }
}

/// Text of `len` bytes can be formatted into a zone whose tail has capacity
/// `cap`: the largest chunk that this may take can be asked of the memory
/// provider.
pub open spec fn format_room(cap: nat, len: nat) -> bool {
    header_size() + 2 * (if cap >= len && cap >= 32 {
        cap
    } else if len >= 32 {
        len
    } else {
        32
    }) <= usize::MAX
}

/// The capacities after text of `len` bytes was formatted into a zone. Where
/// the tail has fewer than 32 bytes free, a chunk for 32 bytes is appended
/// first. Where the text does not fit in the room that is then there, the
/// doublings of the tail's capacity are appended, up to the first that holds
/// the text.
pub open spec fn formatted_caps(layout: Seq<Seq<u8>>, caps: Seq<nat>, len: nat) -> Seq<nat> {
    if available_in(layout, caps) >= 32 {
        if len <= available_in(layout, caps) {
            caps
        } else {
            caps + doublings(caps.last(), len)
        }
    } else if len <= grown_cap(caps.last(), 32) {
        caps.push(grown_cap(caps.last(), 32))
    } else {
        caps.push(grown_cap(caps.last(), 32)) + doublings(grown_cap(caps.last(), 32), len)
    }
}

/// The layout after the text with these bytes was formatted into a zone:
/// the bytes are committed to the tail where no chunk had to be appended, and
/// else they are alone in the last of the chunks that were appended; the
/// others of these are empty.
pub open spec fn formatted_layout(layout: Seq<Seq<u8>>, caps: Seq<nat>, bytes: Seq<u8>) -> Seq<
    Seq<u8>,
> {
    let more = formatted_caps(layout, caps, bytes.len()).len() - caps.len();
    if more == 0 {
        committed(layout, bytes)
    } else {
        layout + empty_chunks::<u8>((more - 1) as nat) + seq![bytes]
    }
}

/// Where the attempts to format text of `len` bytes stand: the chunks with
/// the capacities `appended` were appended to what was there, all empty, and
/// what is still to be appended are the doublings that are left.
spec fn formatting(
    start: Seq<Seq<u8>>,
    start_caps: Seq<nat>,
    layout: Seq<Seq<u8>>,
    caps: Seq<nat>,
    appended: Seq<nat>,
    len: nat,
) -> bool {
    let room = available_in(layout, caps);
    &&& caps == start_caps + appended
    &&& layout == start + empty_chunks::<u8>(appended.len())
    &&& room >= 1
    &&& header_size() + 2 * caps.last() <= usize::MAX || len <= room
    &&& appended.len() == 0 ==> room >= 32
    &&& appended.len() > 0 ==> room == caps.last()
    &&& formatted_caps(start, start_caps, len) == if len > room {
        caps + doublings(caps.last(), len)
    } else {
        caps
    }
}

/// The first attempt to format, which reserves 32 bytes, can be served.
/// Returns the capacities that are appended by it.
proof fn lemma_format_start(start: Seq<Seq<u8>>, start_caps: Seq<nat>, len: nat) -> (next: Seq<
    nat,
>)
    requires
        shaped(start, start_caps),
        format_room(start_caps.last(), len),
    ensures
        reservable::<u8>(start, start_caps, 32),
        formatting(
            start,
            start_caps,
            reserved_layout(start, start_caps, 32),
            reserved_caps(start, start_caps, 32),
            next,
            len,
        ),
        reserved_layout(start, start_caps, 32).flatten() == start.flatten(),
{
    let tail = start_caps.last();
    lemma_grown_cap_bounds(tail, 32);
    lemma_reserved_flatten(start, start_caps, 32);
    crate::monovec::lemma_byte_chunk_fits(grown_cap(tail, 32));
    if available_in(start, start_caps) >= 32 {
        assert(start_caps =~= start_caps + Seq::<nat>::empty());
        assert(start =~= start + empty_chunks::<u8>(0));
        Seq::empty()
    } else {
        let next = seq![grown_cap(tail, 32)];
        assert(reserved_caps(start, start_caps, 32) =~= start_caps + next);
        assert(reserved_layout(start, start_caps, 32) =~= start + empty_chunks::<u8>(1));
        next
    }
}

/// A further attempt to format, which reserves one byte more than the tail
/// has room for, can be served and keeps the attempts where they stand.
/// Returns the capacities that are appended after it.
proof fn lemma_format_step(
    start: Seq<Seq<u8>>,
    start_caps: Seq<nat>,
    layout: Seq<Seq<u8>>,
    caps: Seq<nat>,
    appended: Seq<nat>,
    len: nat,
) -> (next: Seq<nat>)
    requires
        shaped(layout, caps),
        format_room(start_caps.last(), len),
        formatting(start, start_caps, layout, caps, appended, len),
        len > available_in(layout, caps),
    ensures
        reservable::<u8>(layout, caps, available_in(layout, caps) + 1),
        formatting(
            start,
            start_caps,
            reserved_layout(layout, caps, available_in(layout, caps) + 1),
            reserved_caps(layout, caps, available_in(layout, caps) + 1),
            next,
            len,
        ),
        reserved_layout(layout, caps, available_in(layout, caps) + 1).flatten()
            == layout.flatten(),
{
    let tail = caps.last();
    let needed = available_in(layout, caps) + 1;
    lemma_grown_cap_bounds(tail, needed);
    lemma_reserved_flatten(layout, caps, needed);
    assert(grown_cap(tail, needed) == 2 * tail);
    crate::monovec::lemma_byte_chunk_fits(2 * tail);
    let next = appended.push(2 * tail);
    assert(reserved_caps(layout, caps, needed) =~= start_caps + next);
    assert(reserved_layout(layout, caps, needed) =~= start + empty_chunks::<u8>(next.len()));
    assert(doublings(tail, len) == if 2 * tail >= len {
        seq![2 * tail]
    } else {
        seq![2 * tail] + doublings(2 * tail, len)
    });
    assert(caps + (seq![2 * tail] + doublings(2 * tail, len)) =~= caps.push(2 * tail) + doublings(
        2 * tail,
        len,
    ));
    assert(caps + seq![2 * tail] =~= caps.push(2 * tail));
    if 2 * tail < len {
        assert(header_size() + 2 * (2 * tail) <= usize::MAX);
    }
    next
}

/// Once the text fits, committing it to the tail leaves what the contract
/// of formatting says.
proof fn lemma_format_done(
    start: Seq<Seq<u8>>,
    start_caps: Seq<nat>,
    layout: Seq<Seq<u8>>,
    caps: Seq<nat>,
    appended: Seq<nat>,
    bytes: Seq<u8>,
)
    requires
        shaped(start, start_caps),
        shaped(layout, caps),
        formatting(start, start_caps, layout, caps, appended, bytes.len()),
        bytes.len() <= available_in(layout, caps),
        layout.flatten() == start.flatten(),
    ensures
        caps == formatted_caps(start, start_caps, bytes.len()),
        committed(layout, bytes) == formatted_layout(start, start_caps, bytes),
        committed(layout, bytes).flatten() == start.flatten() + bytes,
        keeps_addresses(start, committed(layout, bytes)),
{
    crate::chain::lemma_committed_flatten(layout, bytes);
    let after = committed(layout, bytes);
    if appended.len() > 0 {
        assert(after =~= start + empty_chunks::<u8>((appended.len() - 1) as nat) + seq![bytes]);
    } else {
        assert(caps =~= start_caps);
        assert(layout =~= start);
    }
    assert forall|c: int| 0 <= c < start.len() implies (#[trigger] start[c]).is_prefix_of(
        after[c],
    ) by {}
}

impl Zone<u8> {
    /// Tells whether `text` can be formatted into the zone.
    pub fn fits_format(&self, text: &str) -> (r: bool)
        requires
            self.wf(),
        ensures
            r == format_room(self.caps().last(), text.spec_bytes().len()),
    {
        broadcast use vstd::layout::layout_of_primitives;

        let cap: usize = self.chain.chunk_capacity(self.chain.chunk_count() - 1);
        let len: usize = text.as_bytes().len();
        let most: usize = if cap >= len && cap >= 32 {
            cap
        } else if len >= 32 {
            len
        } else {
            32
        };
        let header: usize = 4 * core::mem::size_of::<usize>();
        most <= (usize::MAX - header) / 2
    }

    /// Reserves at least `len` bytes for text.
    pub fn alloc_str(&mut self, len: usize) -> (q: StrQuota)
        requires
            old(self).wf(),
            old(self).can_reserve(len as nat),
        ensures
            final(self).wf(),
            q.quota().origin() == cursor_of(
                reserved_layout(old(self).layout(), old(self).caps(), len as nat),
            ),
            q.quota().room() == available_in(
                reserved_layout(old(self).layout(), old(self).caps(), len as nat),
                reserved_caps(old(self).layout(), old(self).caps(), len as nat),
            ),
            q.quota().room() >= len,
            q.quota().written() == 0,
            final(self).caps() == reserved_caps(old(self).layout(), old(self).caps(), len as nat),
            final(self).layout() == committed(
                reserved_layout(old(self).layout(), old(self).caps(), len as nat),
                filled(q.quota().room(), 0u8),
            ),
            q.quota().held_by(final(self).layout()),
            shrinkable(final(self).layout(), q.quota().origin(), q.quota().room(), 0),
            keeps_addresses(old(self).layout(), final(self).layout()),
    {
        StrQuota(self.allocate(len, 0u8))
    }

    /// Copies `text` into the zone as one contiguous run and returns it as
    /// it lies there. A first attempt reserves 32 bytes; each further one
    /// reserves one byte more than the last was given, which doubles the
    /// tail, until the text fits. What an attempt reserved and did not use
    /// goes back to the zone; a chunk that was too small stays behind as it
    /// was.
    pub fn format(&mut self, text: &str) -> (r: &str)
        requires
            old(self).wf(),
            format_room(old(self).caps().last(), text.spec_bytes().len()),
        ensures
            final(self).wf(),
            r@ == text@,
            final(self).caps() == formatted_caps(
                old(self).layout(),
                old(self).caps(),
                text.spec_bytes().len(),
            ),
            final(self).layout() == formatted_layout(
                old(self).layout(),
                old(self).caps(),
                text.spec_bytes(),
            ),
            final(self)@ == old(self)@ + text.spec_bytes(),
            keeps_addresses(old(self).layout(), final(self).layout()),
    {
        broadcast use vstd::utf8::encode_utf8_valid_utf8;

        let total: usize = text.as_bytes().len();
        let ghost mut reserved = reserved_layout(self.layout(), self.caps(), 32);
        let ghost mut appended: Seq<nat> = Seq::empty();
        proof {
            appended = lemma_format_start(self.layout(), self.caps(), total as nat);
        }
        let mut quota = self.alloc_str(32);
        let mut done: bool = quota.write_str(self, text).is_ok();
        while !done
            invariant
                self.wf(),
                old(self).wf(),
                total == text.spec_bytes().len(),
                format_room(old(self).caps().last(), total as nat),
                formatting(
                    old(self).layout(),
                    old(self).caps(),
                    reserved,
                    self.caps(),
                    appended,
                    total as nat,
                ),
                reserved.flatten() == old(self)@,
                reserved.len() == self.layout().len(),
                self.layout().drop_last() == reserved.drop_last(),
                self.layout().last().take(reserved.last().len() as int) == reserved.last(),
                quota.quota().origin() == cursor_of(reserved),
                self.layout().last().len() == reserved.last().len() + quota.quota().room(),
                self.caps().last() == reserved.last().len() + quota.quota().room(),
                quota.quota().written() <= quota.quota().room(),
                quota.quota().room() >= 1,
                !done ==> quota.quota().room() < total,
                done ==> quota.quota().written() == total && self.layout().last().subrange(
                    reserved.last().len() as int,
                    reserved.last().len() + total,
                ) == text.spec_bytes(),
            decreases (if quota.quota().room() >= total { 0 } else { total - quota.quota().room() }),
        {
            quota.clear();
            let cap: usize = quota.capacity();
            quota.release(self);
            proof {
                assert(self.layout() == reserved) by {
                    assert(self.layout().drop_last() == reserved.drop_last());
                    assert(self.layout() =~= self.layout().drop_last().push(self.layout().last()));
                    assert(reserved =~= reserved.drop_last().push(reserved.last()));
                }
                appended = lemma_format_step(
                    old(self).layout(),
                    old(self).caps(),
                    self.layout(),
                    self.caps(),
                    appended,
                    total as nat,
                );
                reserved = reserved_layout(self.layout(), self.caps(), (cap + 1) as nat);
            }
            quota = self.alloc_str(cap + 1);
            done = quota.write_str(self, text).is_ok();
        }
        proof {
            lemma_format_done(
                old(self).layout(),
                old(self).caps(),
                reserved,
                self.caps(),
                appended,
                text.spec_bytes(),
            );
            assert(self.layout().last().take(reserved.last().len() + total) =~= reserved.last()
                + text.spec_bytes());
            assert(truncated(self.layout(), (reserved.last().len() + total) as nat) =~= committed(
                reserved,
                text.spec_bytes(),
            )) by {
                assert(self.layout() =~= self.layout().drop_last().push(self.layout().last()));
                assert(reserved =~= reserved.drop_last().push(reserved.last()));
            }
        }
        match quota.into_slice(self) {
            Some(r) => {
                proof {
                    crate::text::lemma_same_bytes_same_text(r, text);
                }
                r
            },
            None => vstd::pervasive::unreached(),
        }
    }
}

impl StrQuota {
    /// The cursor over the bytes of the text.
    pub closed spec fn quota(&self) -> Quota {
        self.0
    }

    /// How many bytes were written.
    pub fn len(&self) -> (r: usize)
        ensures
            r == self.quota().written(),
    {
        self.0.len()
    }

    /// How many bytes were reserved.
    pub fn capacity(&self) -> (r: usize)
        ensures
            r == self.quota().room(),
    {
        self.0.capacity()
    }

    /// Copies as many bytes of `data` as there is room for, from its start,
    /// and tells how many.
    pub fn fill(&mut self, zone: &mut Zone<u8>, data: &str) -> (r: usize)
        requires
            old(zone).wf(),
            old(self).quota().held_by(old(zone).layout()),
        ensures
            final(zone).wf(),
            final(zone).caps() == old(zone).caps(),
            final(self).quota().origin() == old(self).quota().origin(),
            final(self).quota().room() == old(self).quota().room(),
            final(self).quota().held_by(final(zone).layout()),
            r == if data.spec_bytes().len() <= old(self).quota().room() - old(
                self,
            ).quota().written() {
                data.spec_bytes().len() as int
            } else {
                old(self).quota().room() - old(self).quota().written()
            },
            final(self).quota().written() == old(self).quota().written() + r,
            final(zone).layout() == overwritten(
                old(zone).layout(),
                old(self).quota().next(),
                data.spec_bytes().take(r as int),
            ),
    {
        self.0.fill(zone, data.as_bytes())
    }

    /// Writes all of `data` or fails: where `data` does not fit, as much of
    /// it as fits is written and `Err` returned.
    pub fn write_str(&mut self, zone: &mut Zone<u8>, data: &str) -> (r: Result<(), ()>)
        requires
            old(zone).wf(),
            old(self).quota().held_by(old(zone).layout()),
        ensures
            final(zone).wf(),
            final(zone).caps() == old(zone).caps(),
            final(self).quota().origin() == old(self).quota().origin(),
            final(self).quota().room() == old(self).quota().room(),
            final(self).quota().held_by(final(zone).layout()),
            r is Ok <==> data.spec_bytes().len() <= old(self).quota().room() - old(
                self,
            ).quota().written(),
            r is Ok ==> final(self).quota().written() == old(self).quota().written()
                + data.spec_bytes().len() && final(zone).layout() == overwritten(
                old(zone).layout(),
                old(self).quota().next(),
                data.spec_bytes(),
            ),
            r is Err ==> final(self).quota().written() == old(self).quota().room()
                && final(zone).layout() == overwritten(
                old(zone).layout(),
                old(self).quota().next(),
                data.spec_bytes().take(old(self).quota().room() - old(self).quota().written()),
            ),
    {
        let count: usize = self.fill(zone, data);
        if count < data.as_bytes().len() {
            Err(())
        } else {
            assert(data.spec_bytes().take(count as int) =~= data.spec_bytes());
            Ok(())
        }
    }

    /// Forgets what was written, so that the quota can be filled anew.
    pub fn clear(&mut self)
        ensures
            final(self).quota().origin() == old(self).quota().origin(),
            final(self).quota().room() == old(self).quota().room(),
            final(self).quota().written() == 0,
    {
        self.0.clear()
    }

    /// Releases the quota: the bytes that were not written go back to the
    /// zone where nothing was committed after the quota.
    pub fn release(self, zone: &mut Zone<u8>)
        requires
            old(zone).wf(),
        ensures
            final(zone).wf(),
            final(zone).caps() == old(zone).caps(),
            final(zone).layout() == released(
                old(zone).layout(),
                self.quota().origin(),
                self.quota().room(),
                self.quota().written(),
            ),
    {
        self.0.release(zone)
    }

    /// Releases the quota and returns what was written as text, as it lies
    /// in the zone, or `None` where the bytes are not well-formed text.
    pub fn into_slice<'a>(self, zone: &'a mut Zone<u8>) -> (r: Option<&'a str>)
        requires
            old(zone).wf(),
            self.quota().held_by(old(zone).layout()),
        ensures
            final(zone).wf(),
            final(zone).caps() == old(zone).caps(),
            final(zone).layout() == released(
                old(zone).layout(),
                self.quota().origin(),
                self.quota().room(),
                self.quota().written(),
            ),
            r is Some <==> valid_utf8(self.quota().content(old(zone).layout())),
            r matches Some(text) ==> text.spec_bytes() == self.quota().content(old(zone).layout()),
    {
        match core::str::from_utf8(self.0.into_slice(zone)) {
            Ok(text) => Some(text),
            Err(_) => None,
        }
    }
}

/// A zone of objects of differing kinds, stored to be finalized together.
pub struct DynZone {
    chain: HetVec<(), Forget>,
}

impl DynZone {
    /// The bytes of each chunk of the backing buffer.
    pub closed spec fn layout(&self) -> Seq<Seq<u8>> {
        self.chain.layout()
    }

    /// The entries in the order in which they were written.
    pub closed spec fn entries(&self) -> Seq<Entry> {
        self.chain.entries()
    }

    /// The zone's buffer is well-formed.
    pub closed spec fn wf(&self) -> bool {
        self.chain.wf()
    }

    /// The capacity of each chunk of the backing buffer.
    pub closed spec fn caps(&self) -> Seq<nat> {
        self.chain.caps()
    }

    /// An object of this kind can be allocated without overflow.
    pub open spec fn can_allocate(&self, size: nat, align: nat) -> bool {
        &&& crate::fence::valid_kind(size as int, align as int)
        &&& crate::hetvec::entry_space(size as int, align as int) <= usize::MAX
        &&& reservable::<u8>(
            self.layout(),
            self.caps(),
            crate::hetvec::entry_space(size as int, align as int) as nat,
        )
    }

    /// The object at `at` has the bytes `obj`.
    pub open spec fn holds(&self, at: Slot, obj: Seq<u8>) -> bool {
        crate::hetvec::holds_in(self.layout(), at, obj)
    }

    /// The objects in the order in which they were allocated.
    pub open spec fn objects(&self) -> Seq<Seq<u8>> {
        objects_of(self.layout(), self.entries())
    }

    /// An empty zone.
    pub fn new() -> (r: Self)
        ensures
            r.wf(),
            r.entries() == Seq::<Entry>::empty(),
            r.layout() == seq![Seq::<u8>::empty()],
            r.caps() == seq![128nat],
    {
        DynZone { chain: HetVec::new() }
    }

    /// Tells whether an object of this kind can be allocated.
    pub fn fits_allocate(&self, size: usize, align: usize) -> (r: bool)
        requires
            self.wf(),
        ensures
            r == self.can_allocate(size as nat, align as nat),
    {
        self.chain.fits_push(size, align)
    }

    /// Runs `make` once and stores the object that it gives, aligned to
    /// `align`. Returns the object's address. The objects that were there
    /// stay where they are.
    pub fn allocate<F: FnOnce() -> Vec<u8>>(&mut self, align: usize, make: F) -> (r: Slot)
        requires
            old(self).wf(),
            make.requires(()),
            forall|made: Vec<u8>|
                make.ensures((), made) ==> old(self).can_allocate(made@.len(), align as nat),
        ensures
            final(self).wf(),
            exists|made: Vec<u8>|
                #![trigger make.ensures((), made)]
                make.ensures((), made) && final(self).holds(r, made@) && final(self).objects()
                    == old(self).objects().push(made@),
            slots_of(final(self).entries()) == slots_of(old(self).entries()).push(r),
            keeps_addresses(old(self).layout(), final(self).layout()),
    {
        let made = make();
        let r = self.chain.push(align, made.as_slice());
        assert(make.ensures((), made) && self.holds(r, made@) && self.objects() == old(
            self,
        ).objects().push(made@));
        r
    }

    /// Tears the zone down and returns the addresses of the objects whose
    /// finalizer is to run: each object once, in the order of allocation.
    pub fn teardown(self) -> (r: Vec<Slot>)
        requires
            self.wf(),
        ensures
            r@ == slots_of(self.entries()),
    {
        self.chain.teardown()
    }
}

} // verus!
