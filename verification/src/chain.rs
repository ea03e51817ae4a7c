//! The growth engine: an append-only vector made of fixed-capacity chunks.
//!
//! A `Chain` owns an ordered list of chunks. New elements go into the last
//! chunk (the tail); when the tail cannot hold a reservation, a larger chunk is
//! appended. Earlier chunks are never touched by growth, which is what keeps
//! every address handed out so far stable.

use vstd::prelude::*;
use vstd::layout::size_of;
use std::collections::VecDeque;

verus! {

/// The address of one element of a chunked vector: the index of the chunk
/// that holds it and its position inside that chunk.
#[derive(Clone, Copy, PartialEq, Eq, Debug, Structural)]
pub struct Slot {
    pub chunk: usize,
    pub index: usize,
}

/// The capacity of the chunk that growth appends after a tail of capacity
/// `cap` when `len` contiguous elements are asked for: `cap` doubled until it
/// is at least `len`, and doubled at least once.
pub open spec fn grown_cap(cap: nat, len: nat) -> nat
    decreases len - cap,
{
    if cap == 0 || 2 * cap >= len {
        2 * cap
    } else {
        grown_cap(2 * cap, len)
    }
}

/// The capacities of the chunks that are appended when a tail of capacity
/// `cap` is doubled, one chunk after the other, until `len` elements fit in
/// one chunk: each is twice the one before, and the last is the first that is
/// large enough.
pub open spec fn doublings(cap: nat, len: nat) -> Seq<nat>
    decreases len - cap,
{
    if cap == 0 || 2 * cap >= len {
        seq![2 * cap]
    } else {
        seq![2 * cap] + doublings(2 * cap, len)
    }
}

/// `count` chunks without elements.
pub open spec fn empty_chunks<T>(count: nat) -> Seq<Seq<T>> {
    Seq::new(count, |c: int| Seq::<T>::empty())
}

/// Bytes taken by the bookkeeping of one chunk: two links, a length and a
/// capacity, one word each.
pub open spec fn header_size() -> nat {
    4 * size_of::<usize>()
}

/// Bytes taken by `len` elements of type `T`.
pub open spec fn array_size<T>(len: nat) -> nat {
    len * size_of::<T>()
}

/// Bytes taken by a chunk of `len` elements of type `T` with its header.
pub open spec fn mem_size<T>(len: nat) -> nat {
    header_size() + array_size::<T>(len)
}

/// A chunk of capacity `cap` can be asked of the memory provider: neither its
/// capacity nor its size in bytes overflows a machine word.
pub open spec fn fits<T>(cap: nat) -> bool {
    cap <= usize::MAX && mem_size::<T>(cap) <= usize::MAX
}

/// Chunks with these contents and capacities make a vector: there is at
/// least one chunk, no chunk is without capacity, and none holds more than
/// its capacity.
pub open spec fn shaped<T>(layout: Seq<Seq<T>>, caps: Seq<nat>) -> bool {
    &&& layout.len() == caps.len()
    &&& 0 < layout.len() <= usize::MAX
    &&& forall|c: int| 0 <= c < layout.len() ==> 0 < #[trigger] caps[c] <= usize::MAX
    &&& forall|c: int| 0 <= c < layout.len() ==> (#[trigger] layout[c]).len() <= caps[c]
}

/// `s` addresses a populated element of `layout`.
pub open spec fn valid_slot<T>(layout: Seq<Seq<T>>, s: Slot) -> bool {
    s.chunk < layout.len() && s.index < layout[s.chunk as int].len()
}

/// The element of `layout` that `s` addresses.
pub open spec fn slot_value<T>(layout: Seq<Seq<T>>, s: Slot) -> T {
    layout[s.chunk as int][s.index as int]
}

/// The write position of `layout`: the first free place of its last chunk.
pub open spec fn cursor_of<T>(layout: Seq<Seq<T>>) -> Slot {
    Slot { chunk: (layout.len() - 1) as usize, index: layout.last().len() as usize }
}

/// Free places left in the last chunk.
pub open spec fn available_in<T>(layout: Seq<Seq<T>>, caps: Seq<nat>) -> nat {
    (caps.last() - layout.last().len()) as nat
}

/// A reservation of `len` elements can be served: either the tail has room, or
/// the chunk that growth would append can be asked of the memory provider.
pub open spec fn reservable<T>(layout: Seq<Seq<T>>, caps: Seq<nat>, len: nat) -> bool {
    available_in(layout, caps) >= len || fits::<T>(grown_cap(caps.last(), len))
}

/// `new` keeps every address of `old`: each chunk of `old` is still there, in
/// the same place, and what it held is a prefix of what it holds now.
pub open spec fn keeps_addresses<T>(old: Seq<Seq<T>>, new: Seq<Seq<T>>) -> bool {
    &&& old.len() <= new.len()
    &&& forall|c: int| 0 <= c < old.len() ==> (#[trigger] old[c]).is_prefix_of(new[c])
}

/// What a reservation of `len` does to the chunks' contents.
pub open spec fn reserved_layout<T>(layout: Seq<Seq<T>>, caps: Seq<nat>, len: nat) -> Seq<Seq<T>> {
    if available_in(layout, caps) >= len {
        layout
    } else {
        layout.push(Seq::empty())
    }
}

/// What a reservation of `len` does to the chunks' capacities.
pub open spec fn reserved_caps<T>(layout: Seq<Seq<T>>, caps: Seq<nat>, len: nat) -> Seq<nat> {
    if available_in(layout, caps) >= len {
        caps
    } else {
        caps.push(grown_cap(caps.last(), len))
    }
}

/// The layout after `elems` were committed to the last chunk.
pub open spec fn committed<T>(layout: Seq<Seq<T>>, elems: Seq<T>) -> Seq<Seq<T>> {
    layout.update(layout.len() - 1, layout.last() + elems)
}

/// The reservation of `old_len` elements at `ptr` is the last thing in
/// `layout`, so that it can be cut down to `new_len` elements.
pub open spec fn shrinkable<T>(layout: Seq<Seq<T>>, ptr: Slot, old_len: nat, new_len: nat) -> bool {
    &&& ptr.chunk == layout.len() - 1
    &&& ptr.index + old_len == layout.last().len()
    &&& new_len <= old_len
}

/// The layout after the last chunk was cut down to `len` elements.
pub open spec fn truncated<T>(layout: Seq<Seq<T>>, len: nat) -> Seq<Seq<T>> {
    layout.update(layout.len() - 1, layout.last().take(len as int))
}

/// The layout after the element at `s` was replaced by `value`.
pub open spec fn replaced<T>(layout: Seq<Seq<T>>, s: Slot, value: T) -> Seq<Seq<T>> {
    layout.update(s.chunk as int, layout[s.chunk as int].update(s.index as int, value))
}

/// The layout after the elements from `at` on were overwritten with `data`.
pub open spec fn overwritten<T>(layout: Seq<Seq<T>>, at: Slot, data: Seq<T>) -> Seq<Seq<T>> {
    let chunk = layout[at.chunk as int];
    layout.update(
        at.chunk as int,
        chunk.take(at.index as int) + data + chunk.skip(at.index + data.len()),
    )
}

/// The chunk that growth appends is at least twice as large as the tail it
/// follows, large enough for the reservation, and no more than twice what
/// either of the two asks for.
pub proof fn lemma_grown_cap_bounds(cap: nat, len: nat)
    requires
        cap > 0,
    ensures
        grown_cap(cap, len) >= 2 * cap,
        grown_cap(cap, len) >= len,
        grown_cap(cap, len) == 2 * cap || grown_cap(cap, len) < 2 * len,
    decreases len - cap,
{
    if 2 * cap < len {
        lemma_grown_cap_bounds(2 * cap, len);
    }
}

/// Committing elements to the last chunk appends them to the flattened
/// contents.
pub proof fn lemma_committed_flatten<T>(layout: Seq<Seq<T>>, elems: Seq<T>)
    requires
        layout.len() > 0,
    ensures
        committed(layout, elems).flatten() == layout.flatten() + elems,
{
    let head = layout.drop_last();
    assert(layout == head.push(layout.last()));
    assert(committed(layout, elems) == head.push(layout.last() + elems));
    head.lemma_flatten_push(layout.last());
    head.lemma_flatten_push(layout.last() + elems);
    assert(head.flatten() + (layout.last() + elems) == (head.flatten() + layout.last()) + elems);
}

/// An empty chunk adds nothing to the flattened contents.
pub proof fn lemma_reserved_flatten<T>(layout: Seq<Seq<T>>, caps: Seq<nat>, len: nat)
    ensures
        reserved_layout(layout, caps, len).flatten() == layout.flatten(),
{
    layout.lemma_flatten_push(Seq::empty());
    assert(layout.flatten() + Seq::<T>::empty() == layout.flatten());
}

/// Replacing one element keeps the shape of a vector.
pub proof fn lemma_replaced_shaped<T>(layout: Seq<Seq<T>>, caps: Seq<nat>, s: Slot, value: T)
    requires
        shaped(layout, caps),
        valid_slot(layout, s),
    ensures
        shaped(replaced(layout, s, value), caps),
{
    let after = replaced(layout, s, value);
    assert forall|c: int| 0 <= c < after.len() implies (#[trigger] after[c]).len() <= caps[c] by {
        assert(layout[c].len() <= caps[c]);
    }
}

/// The first chunks of a layout hold no more elements than all of them.
pub proof fn lemma_flatten_take_len<T>(layout: Seq<Seq<T>>, n: int)
    requires
        0 <= n <= layout.len(),
    ensures
        layout.take(n).flatten().len() <= layout.flatten().len(),
        n < layout.len() ==> layout.take(n + 1).flatten() == layout.take(n).flatten() + layout[n],
    decreases layout.len() - n,
{
    if n < layout.len() {
        assert(layout.take(n + 1) == layout.take(n).push(layout[n]));
        layout.take(n).lemma_flatten_push(layout[n]);
        lemma_flatten_take_len(layout, n + 1);
    } else {
        assert(layout.take(n) == layout);
    }
}

/// The number of elements that come before place `i` of chunk `c`.
pub open spec fn offset_of<T>(layout: Seq<Seq<T>>, c: int, i: int) -> int {
    layout.take(c).flatten().len() + i
}

/// More chunks hold no fewer elements.
pub proof fn lemma_flatten_take_mono<T>(layout: Seq<Seq<T>>, a: int, b: int)
    requires
        0 <= a <= b <= layout.len(),
    ensures
        layout.take(a).flatten().len() <= layout.take(b).flatten().len(),
{
    assert(layout.take(b).take(a) == layout.take(a));
    lemma_flatten_take_len(layout.take(b), a);
}

/// Flattening keeps each element at the offset of its address.
pub proof fn lemma_flatten_index<T>(layout: Seq<Seq<T>>, c: int, i: int)
    requires
        0 <= c < layout.len(),
        0 <= i < layout[c].len(),
    ensures
        0 <= offset_of(layout, c, i) < layout.flatten().len(),
        layout.flatten()[offset_of(layout, c, i)] == layout[c][i],
    decreases layout.len(),
{
    let head = layout.drop_last();
    assert(layout == head.push(layout.last()));
    head.lemma_flatten_push(layout.last());
    if c == layout.len() - 1 {
        assert(layout.take(c) == head);
    } else {
        assert(layout.take(c) == head.take(c));
        lemma_flatten_index(head, c, i);
    }
}

/// What each of `chunks` holds.
pub open spec fn views<T>(chunks: Seq<VecDeque<T>>) -> Seq<Seq<T>> {
    chunks.map_values(|chunk: VecDeque<T>| chunk@)
}

/// Replacing one element replaces it in the flattened contents, at the
/// offset of its address, and changes nothing else.
pub proof fn lemma_replaced_flatten<T>(layout: Seq<Seq<T>>, s: Slot, value: T)
    requires
        valid_slot(layout, s),
    ensures
        replaced(layout, s, value).flatten() == layout.flatten().update(
            offset_of(layout, s.chunk as int, s.index as int),
            value,
        ),
    decreases layout.len(),
{
    let after = replaced(layout, s, value);
    let head = layout.drop_last();
    assert(layout == head.push(layout.last()));
    head.lemma_flatten_push(layout.last());
    lemma_flatten_index(layout, s.chunk as int, s.index as int);
    if s.chunk == layout.len() - 1 {
        assert(layout.take(s.chunk as int) == head);
        assert(after == head.push(layout.last().update(s.index as int, value)));
        head.lemma_flatten_push(layout.last().update(s.index as int, value));
        assert(after.flatten() =~= layout.flatten().update(
            offset_of(layout, s.chunk as int, s.index as int),
            value,
        ));
    } else {
        assert(layout.take(s.chunk as int) == head.take(s.chunk as int));
        lemma_replaced_flatten(head, s, value);
        lemma_flatten_index(head, s.chunk as int, s.index as int);
        assert(after == replaced(head, s, value).push(layout.last()));
        replaced(head, s, value).lemma_flatten_push(layout.last());
        assert(after.flatten() =~= layout.flatten().update(
            offset_of(layout, s.chunk as int, s.index as int),
            value,
        ));
    }
}

/// Address stability: where `new` keeps the addresses of `old`, every address
/// that was valid is still valid and still denotes the same element.
pub proof fn lemma_address_stable<T>(old: Seq<Seq<T>>, new: Seq<Seq<T>>, s: Slot)
    requires
        keeps_addresses(old, new),
        valid_slot(old, s),
    ensures
        valid_slot(new, s),
        slot_value(new, s) == slot_value(old, s),
{
    assert(old[s.chunk as int].is_prefix_of(new[s.chunk as int]));
}

/// Address stability carries over any number of steps: what keeps the
/// addresses of a layout that kept the addresses of another keeps those too.
pub proof fn lemma_keeps_addresses_trans<T>(a: Seq<Seq<T>>, b: Seq<Seq<T>>, c: Seq<Seq<T>>)
    requires
        keeps_addresses(a, b),
        keeps_addresses(b, c),
    ensures
        keeps_addresses(a, c),
{
    assert forall|k: int| 0 <= k < a.len() implies (#[trigger] a[k]).is_prefix_of(c[k]) by {
        assert(a[k].is_prefix_of(b[k]));
        assert(b[k].is_prefix_of(c[k]));
    }
}

/// A reservation and a commit into the room that it made keep every
/// address.
pub proof fn lemma_commit_keeps_addresses<T>(
    layout: Seq<Seq<T>>,
    caps: Seq<nat>,
    len: nat,
    elems: Seq<T>,
)
    requires
        layout.len() > 0,
    ensures
        keeps_addresses(layout, committed(reserved_layout(layout, caps, len), elems)),
{
    let after = committed(reserved_layout(layout, caps, len), elems);
    assert forall|k: int| 0 <= k < layout.len() implies (#[trigger] layout[k]).is_prefix_of(
        after[k],
    ) by {}
}

/// Growth correctness: a reservation that the tail cannot hold appends one
/// chunk, empty, at least twice as large as the tail and large enough for
/// what was asked, and leaves every other chunk and capacity as it was.
pub proof fn lemma_growth_doubles<T>(layout: Seq<Seq<T>>, caps: Seq<nat>, len: nat)
    requires
        shaped(layout, caps),
        available_in(layout, caps) < len,
    ensures
        reserved_layout(layout, caps, len) == layout.push(Seq::empty()),
        reserved_caps(layout, caps, len).len() == caps.len() + 1,
        reserved_caps(layout, caps, len).drop_last() == caps,
        reserved_caps(layout, caps, len).last() >= 2 * caps.last(),
        reserved_caps(layout, caps, len).last() >= len,
        available_in(reserved_layout(layout, caps, len), reserved_caps(layout, caps, len)) >= len,
{
    lemma_grown_cap_bounds(caps.last(), len);
    assert(caps.push(grown_cap(caps.last(), len)).drop_last() == caps);
}

/// The layout after `elems` were pushed one by one.
pub open spec fn pushed_all<T>(layout: Seq<Seq<T>>, caps: Seq<nat>, elems: Seq<T>) -> Seq<Seq<T>>
    decreases elems.len(),
{
    if elems.len() == 0 {
        layout
    } else {
        pushed_all(
            committed(reserved_layout(layout, caps, 1), seq![elems.first()]),
            reserved_caps(layout, caps, 1),
            elems.drop_first(),
        )
    }
}

/// Order preservation: after any sequence of pushes the elements are those
/// that were there, followed by the pushed ones in the order of the pushes,
/// and every address from before is kept.
pub proof fn lemma_pushes_in_order<T>(layout: Seq<Seq<T>>, caps: Seq<nat>, elems: Seq<T>)
    requires
        layout.len() > 0,
    ensures
        pushed_all(layout, caps, elems).flatten() == layout.flatten() + elems,
        keeps_addresses(layout, pushed_all(layout, caps, elems)),
    decreases elems.len(),
{
    if elems.len() == 0 {
        assert(layout.flatten() + elems == layout.flatten());
        assert forall|k: int| 0 <= k < layout.len() implies (#[trigger] layout[k]).is_prefix_of(
            layout[k],
        ) by {}
    } else {
        let next = committed(reserved_layout(layout, caps, 1), seq![elems.first()]);
        lemma_reserved_flatten(layout, caps, 1);
        lemma_committed_flatten(reserved_layout(layout, caps, 1), seq![elems.first()]);
        lemma_commit_keeps_addresses(layout, caps, 1, seq![elems.first()]);
        lemma_pushes_in_order(next, reserved_caps(layout, caps, 1), elems.drop_first());
        lemma_keeps_addresses_trans(
            layout,
            next,
            pushed_all(next, reserved_caps(layout, caps, 1), elems.drop_first()),
        );
        assert(layout.flatten() + seq![elems.first()] + elems.drop_first() == layout.flatten()
            + elems);
    }
}

/// Twice `x`, or `None` where that overflows.
fn twice(x: usize) -> (r: Option<usize>)
    ensures
        match r {
            Some(n) => n == 2 * x,
            None => 2 * x > usize::MAX,
        },
{
    x.checked_add(x)
}

/// Tells whether a vector of elements of type `T` can start with room for
/// `cap` of them, or for one where `cap` is zero.
pub fn fits_capacity<T>(cap: usize) -> (r: bool)
    ensures
        r == fits::<T>(if cap == 0 { 1 } else { cap as nat }),
{
    Chunk::<T>::mem_size(if cap == 0 { 1 } else { cap }).is_some()
}

/// One fixed-capacity block of storage. Its place in the chain's list stands
/// for its links: the chunk before it is its predecessor, the one after it its
/// successor.
struct Chunk<T> {
    cap: usize,
    items: Vec<T>,
}

impl<T> Chunk<T> {
    /// Bytes taken by `len` elements, or `None` where that overflows.
    fn array_size(len: usize) -> (r: Option<usize>)
        ensures
            match r {
                Some(n) => n == array_size::<T>(len as nat),
                None => array_size::<T>(len as nat) > usize::MAX,
            },
    {
        len.checked_mul(core::mem::size_of::<T>())
    }

    /// Bytes taken by a chunk of `len` elements, or `None` where that
    /// overflows.
    fn mem_size(len: usize) -> (r: Option<usize>)
        ensures
            match r {
                Some(n) => n == mem_size::<T>(len as nat),
                None => mem_size::<T>(len as nat) > usize::MAX,
            },
    {
        broadcast use vstd::layout::layout_of_primitives;

        let header: usize = 4 * core::mem::size_of::<usize>();
        match Self::array_size(len) {
            Some(n) => header.checked_add(n),
            None => None,
        }
    }

    /// An empty chunk of capacity `cap`.
    fn new(cap: usize) -> (r: Self)
        requires
            fits::<T>(cap as nat),
        ensures
            r.cap == cap,
            r.items@ == Seq::<T>::empty(),
    {
        match Self::mem_size(cap) {
            Some(_) => Chunk { cap, items: Vec::with_capacity(cap) },
            None => vstd::pervasive::unreached(),
        }
    }
}

/// An append-only vector made of chunks, with backward traversal and
/// shrink-back of the last reservation.
pub struct Chain<T> {
    chunks: Vec<Chunk<T>>,
}

impl<T> View for Chain<T> {
    type V = Seq<T>;

    /// The elements in the order in which they were committed.
    open spec fn view(&self) -> Seq<T> {
        self.layout().flatten()
    }
}

impl<T> Chain<T> {
    /// The populated region of each chunk, in link order.
    pub closed spec fn layout(&self) -> Seq<Seq<T>> {
        Seq::new(self.chunks@.len(), |c: int| self.chunks@[c].items@)
    }

    /// The capacity of each chunk, in link order.
    pub closed spec fn caps(&self) -> Seq<nat> {
        Seq::new(self.chunks@.len(), |c: int| self.chunks@[c].cap as nat)
    }

    /// There is at least one chunk, no chunk is without capacity, and none
    /// holds more than its capacity.
    pub open spec fn wf(&self) -> bool {
        shaped(self.layout(), self.caps())
    }

    /// `s` addresses a populated element.
    pub open spec fn valid(&self, s: Slot) -> bool {
        valid_slot(self.layout(), s)
    }

    /// The element that `s` addresses.
    pub open spec fn at(&self, s: Slot) -> T {
        slot_value(self.layout(), s)
    }

    /// The current write position.
    pub open spec fn cursor(&self) -> Slot {
        cursor_of(self.layout())
    }

    /// Free places left in the tail.
    pub open spec fn available(&self) -> nat {
        available_in(self.layout(), self.caps())
    }

    /// A reservation of `len` elements can be served without overflow.
    pub open spec fn can_reserve(&self, len: nat) -> bool {
        reservable::<T>(self.layout(), self.caps(), len)
    }

    /// A chain of one chunk with room for eight elements.
    pub fn new() -> (r: Self)
        requires
            fits::<T>(8),
        ensures
            r.wf(),
            r.layout() == seq![Seq::<T>::empty()],
            r.caps() == seq![8nat],
    {
        Self::with_capacity(8)
    }

    /// A chain of one chunk with room for `cap` elements, and for one where
    /// `cap` is zero.
    pub fn with_capacity(cap: usize) -> (r: Self)
        requires
            fits::<T>(if cap == 0 { 1 } else { cap as nat }),
        ensures
            r.wf(),
            r.layout() == seq![Seq::<T>::empty()],
            r.caps() == seq![if cap == 0 { 1 } else { cap as nat }],
    {
        let first: usize = if cap == 0 { 1 } else { cap };
        let mut chunks: Vec<Chunk<T>> = Vec::new();
        chunks.push(Chunk::new(first));
        let r = Chain { chunks };
        assert(r.layout() == seq![Seq::<T>::empty()]);
        assert(r.caps() == seq![first as nat]);
        r
    }

    /// Tells whether a reservation of `len` elements can be served.
    pub fn fits_reserve(&self, len: usize) -> (r: bool)
        requires
            self.wf(),
        ensures
            r == self.can_reserve(len as nat),
    {
        let t: usize = self.chunks.len() - 1;
        let cap: usize = self.chunks[t].cap;
        assert(self.caps()[t as int] == cap);
        assert(self.layout()[t as int] == self.chunks@[t as int].items@);
        if cap - self.chunks[t].items.len() >= len {
            return true;
        }
        proof {
            lemma_grown_cap_bounds(cap as nat, len as nat);
        }
        let mut next: usize = match twice(cap) {
            Some(n) => n,
            None => {
                return false;
            },
        };
        while next < len
            invariant
                0 < next <= usize::MAX,
                !(self.available() >= len),
                self.caps().last() == cap,
                grown_cap(cap as nat, len as nat) == if next >= len {
                    next as nat
                } else {
                    grown_cap(next as nat, len as nat)
                },
            decreases (if next >= len { 0 } else { len - next }),
        {
            proof {
                lemma_grown_cap_bounds(next as nat, len as nat);
            }
            match twice(next) {
                Some(n) => {
                    next = n;
                },
                None => {
                    return false;
                },
            }
        }
        match Chunk::<T>::mem_size(next) {
            Some(_) => true,
            None => false,
        }
    }

    /// Makes room for at least `len` more contiguous elements and returns the
    /// write position with the room that is there, which may be more than
    /// `len`. Where the tail is too small, a chunk of `grown_cap` elements
    /// becomes the new tail; no other chunk is touched.
    pub fn reserve(&mut self, len: usize) -> (r: (Slot, usize))
        requires
            old(self).wf(),
            old(self).can_reserve(len as nat),
        ensures
            final(self).wf(),
            final(self).layout() == reserved_layout(old(self).layout(), old(self).caps(), len as nat),
            final(self).caps() == reserved_caps(old(self).layout(), old(self).caps(), len as nat),
            r.0 == final(self).cursor(),
            r.1 == final(self).available(),
            r.1 >= len,
    {
        let t: usize = self.chunks.len() - 1;
        let cap: usize = self.chunks[t].cap;
        assert(self.caps()[t as int] == cap);
        assert(self.layout()[t as int] == self.chunks@[t as int].items@);
        if cap - self.chunks[t].items.len() < len {
            proof {
                lemma_grown_cap_bounds(cap as nat, len as nat);
            }
            let mut next: usize = match twice(cap) {
                Some(n) => n,
                None => vstd::pervasive::unreached(),
            };
            while next < len
                invariant
                    0 < next <= usize::MAX,
                    fits::<T>(grown_cap(cap as nat, len as nat)),
                    grown_cap(cap as nat, len as nat) == if next >= len {
                        next as nat
                    } else {
                        grown_cap(next as nat, len as nat)
                    },
                decreases (if next >= len { 0 } else { len - next }),
            {
                proof {
                    lemma_grown_cap_bounds(next as nat, len as nat);
                }
                match twice(next) {
                    Some(n) => {
                        next = n;
                    },
                    None => vstd::pervasive::unreached(),
                }
            }
            let ghost before = *self;
            self.chunks.push(Chunk::new(next));
            assert(self.layout() == before.layout().push(Seq::empty()));
            assert(self.caps() == before.caps().push(next as nat));
        }
        let t: usize = self.chunks.len() - 1;
        let used: usize = self.chunks[t].items.len();
        assert(self.caps()[t as int] == self.chunks@[t as int].cap);
        assert(self.layout()[t as int] == self.chunks@[t as int].items@);
        (Slot { chunk: t, index: used }, self.chunks[t].cap - used)
    }

    /// Commits `elems` to the tail, after the elements that are there. The
    /// room must have been reserved.
    pub fn add_len(&mut self, elems: Vec<T>)
        requires
            old(self).wf(),
            elems@.len() <= old(self).available(),
        ensures
            final(self).wf(),
            final(self).layout() == committed(old(self).layout(), elems@),
            final(self).caps() == old(self).caps(),
            final(self)@ == old(self)@ + elems@,
    {
        let ghost before = *self;
        let t: usize = self.chunks.len() - 1;
        let ghost added = elems@;
        let mut elems = elems;
        assert(self.caps()[t as int] == self.chunks@[t as int].cap);
        assert(self.layout()[t as int] == self.chunks@[t as int].items@);
        self.chunks[t].items.append(&mut elems);
        assert(self.layout() == committed(before.layout(), added)) by {
            assert forall|c: int| 0 <= c < self.layout().len() implies self.layout()[c]
                == committed(before.layout(), added)[c] by {
                assert(before.layout()[c] == before.chunks@[c].items@);
            }
        }
        assert(self.caps() == before.caps());
        proof {
            lemma_committed_flatten(before.layout(), added);
        }
    }

    /// Appends one element and returns its address. Earlier addresses keep
    /// their elements.
    pub fn push(&mut self, elem: T) -> (r: Slot)
        requires
            old(self).wf(),
            old(self).can_reserve(1),
        ensures
            final(self).wf(),
            final(self).layout() == committed(
                reserved_layout(old(self).layout(), old(self).caps(), 1),
                seq![elem],
            ),
            final(self).caps() == reserved_caps(old(self).layout(), old(self).caps(), 1),
            r == cursor_of(reserved_layout(old(self).layout(), old(self).caps(), 1)),
            final(self).valid(r),
            final(self).at(r) == elem,
            final(self)@ == old(self)@.push(elem),
            keeps_addresses(old(self).layout(), final(self).layout()),
    {
        proof {
            lemma_reserved_flatten(old(self).layout(), old(self).caps(), 1);
        }
        let (slot, _) = self.reserve(1);
        let ghost mid = self.layout();
        let mut one: Vec<T> = Vec::with_capacity(1);
        one.push(elem);
        self.add_len(one);
        assert(old(self)@ + seq![elem] == old(self)@.push(elem));
        assert(self.layout()[slot.chunk as int] == mid.last() + seq![elem]);
        slot
    }

    /// Appends `elems` as one contiguous run and returns the run as it lies
    /// in the tail. Earlier addresses keep their elements.
    pub fn extend_as_slice(&mut self, elems: Vec<T>) -> (r: &[T])
        requires
            old(self).wf(),
            old(self).can_reserve(elems@.len()),
        ensures
            final(self).wf(),
            final(self).layout() == committed(
                reserved_layout(old(self).layout(), old(self).caps(), elems@.len()),
                elems@,
            ),
            final(self).caps() == reserved_caps(old(self).layout(), old(self).caps(), elems@.len()),
            r@ == elems@,
            final(self)@ == old(self)@ + elems@,
            keeps_addresses(old(self).layout(), final(self).layout()),
    {
        proof {
            lemma_reserved_flatten(old(self).layout(), old(self).caps(), elems@.len());
        }
        let len: usize = elems.len();
        let (slot, _) = self.reserve(len);
        let ghost mid = self.layout();
        let ghost added = elems@;
        self.add_len(elems);
        assert(self.layout()[slot.chunk as int] == self.chunks@[slot.chunk as int].items@);
        assert(self.layout()[slot.chunk as int] == mid.last() + added);
        assert((mid.last() + added).subrange(slot.index as int, slot.index + len) == added);
        vstd::slice::slice_subrange(
            self.chunks[slot.chunk].items.as_slice(),
            slot.index,
            slot.index + len,
        )
    }

    /// Cuts the reservation of `old_len` elements at `ptr` down to `new_len`
    /// elements, giving the rest back to the tail, where nothing was
    /// committed after it. Otherwise nothing changes.
    pub fn shrink_len(&mut self, ptr: Slot, old_len: usize, new_len: usize)
        requires
            old(self).wf(),
        ensures
            final(self).wf(),
            final(self).caps() == old(self).caps(),
            final(self).layout() == if shrinkable(
                old(self).layout(),
                ptr,
                old_len as nat,
                new_len as nat,
            ) {
                truncated(old(self).layout(), (ptr.index + new_len) as nat)
            } else {
                old(self).layout()
            },
    {
        let ghost before = *self;
        let t: usize = self.chunks.len() - 1;
        assert(self.layout()[t as int] == self.chunks@[t as int].items@);
        assert(self.caps()[t as int] == self.chunks@[t as int].cap);
        if ptr.chunk == t && new_len <= old_len {
            let used: usize = self.chunks[t].items.len();
            if old_len <= used && ptr.index == used - old_len {
                self.chunks[t].items.truncate(ptr.index + new_len);
                assert(self.layout() == truncated(before.layout(), (ptr.index + new_len) as nat))
                    by {
                    assert forall|c: int| 0 <= c < self.layout().len() implies self.layout()[c]
                        == truncated(before.layout(), (ptr.index + new_len) as nat)[c] by {
                        assert(before.layout()[c] == before.chunks@[c].items@);
                    }
                }
                assert(self.caps() == before.caps());
            }
        }
    }

    /// Drops every element and every chunk but the tail, which stays with its
    /// capacity and without elements. No address from before is valid after.
    pub fn clear(&mut self)
        requires
            old(self).wf(),
        ensures
            final(self).wf(),
            final(self).layout() == seq![Seq::<T>::empty()],
            final(self).caps() == seq![old(self).caps().last()],
    {
        let ghost before = *self;
        assert(self.caps()[self.chunks@.len() - 1] == self.chunks@[self.chunks@.len() - 1].cap);
        match self.chunks.pop() {
            Some(tail) => {
                let mut tail = tail;
                tail.items.clear();
                self.chunks.clear();
                self.chunks.push(tail);
                assert(self.layout() == seq![Seq::<T>::empty()]);
                assert(self.caps() == seq![before.caps().last()]);
            },
            None => vstd::pervasive::unreached(),
        }
    }

    /// The number of elements in all chunks.
    pub fn len(&self) -> (r: usize)
        requires
            self.wf(),
            self@.len() <= usize::MAX,
        ensures
            r == self@.len(),
    {
        let mut total: usize = 0;
        let mut c: usize = 0;
        proof {
            assert(self.layout().take(0) == Seq::<Seq<T>>::empty());
        }
        while c < self.chunks.len()
            invariant
                c <= self.chunks@.len(),
                self.chunks@.len() == self.layout().len(),
                total == self.layout().take(c as int).flatten().len(),
                self@.len() <= usize::MAX,
            decreases self.chunks@.len() - c,
        {
            proof {
                lemma_flatten_take_len(self.layout(), c as int);
                lemma_flatten_take_len(self.layout(), c + 1);
                assert(self.layout()[c as int] == self.chunks@[c as int].items@);
            }
            total = total + self.chunks[c].items.len();
            c = c + 1;
        }
        assert(self.layout().take(c as int) == self.layout());
        total
    }

    /// The number of chunks.
    pub fn chunk_count(&self) -> (r: usize)
        ensures
            r == self.layout().len(),
    {
        self.chunks.len()
    }

    /// The populated region of chunk `c`.
    pub fn chunk(&self, c: usize) -> (r: &[T])
        requires
            c < self.layout().len(),
        ensures
            r@ == self.layout()[c as int],
    {
        self.chunks[c].items.as_slice()
    }

    /// The capacity of chunk `c`.
    pub fn chunk_capacity(&self, c: usize) -> (r: usize)
        requires
            c < self.layout().len(),
        ensures
            r == self.caps()[c as int],
    {
        self.chunks[c].cap
    }

    /// The element at `s`.
    pub fn get(&self, s: Slot) -> (r: &T)
        requires
            self.valid(s),
        ensures
            *r == self.at(s),
    {
        assert(self.layout()[s.chunk as int] == self.chunks@[s.chunk as int].items@);
        &self.chunks[s.chunk].items[s.index]
    }

    /// Exclusive access to the element at `s`. Nothing else changes, and the
    /// element stays where it is.
    pub fn get_mut(&mut self, s: Slot) -> (r: &mut T)
        requires
            old(self).valid(s),
        ensures
            *r == old(self).at(s),
            final(self).caps() == old(self).caps(),
            final(self).layout() == replaced(old(self).layout(), s, *final(r)),
            old(self).wf() ==> final(self).wf(),
    {
        assert forall|value: T| self.wf() implies #[trigger] shaped(
            replaced(self.layout(), s, value),
            self.caps(),
        ) by {
            lemma_replaced_shaped(self.layout(), self.caps(), s, value);
        }
        self.place_mut(s)
    }

    /// The place of the element at `s`.
    fn place_mut(&mut self, s: Slot) -> (r: &mut T)
        requires
            old(self).valid(s),
        ensures
            *r == old(self).at(s),
            final(self).caps() == old(self).caps(),
            final(self).layout() == replaced(old(self).layout(), s, *final(r)),
    {
        assert(self.layout()[s.chunk as int] == self.chunks@[s.chunk as int].items@);
        &mut self.chunks[s.chunk].items[s.index]
    }

    /// Overwrites the committed elements from `at` on with `data`. Nothing
    /// moves and no length changes.
    pub fn write(&mut self, at: Slot, data: &[T]) where T: Copy
        requires
            old(self).wf(),
            at.chunk < old(self).layout().len(),
            at.index + data@.len() <= old(self).layout()[at.chunk as int].len(),
        ensures
            final(self).wf(),
            final(self).caps() == old(self).caps(),
            final(self).layout() == overwritten(old(self).layout(), at, data@),
    {
        let ghost before = *self;
        let mut i: usize = 0;
        assert(self.layout()[at.chunk as int] == self.chunks@[at.chunk as int].items@);
        assert(self.layout() == overwritten(before.layout(), at, data@.take(0))) by {
            assert(self.layout()[at.chunk as int] == overwritten(
                before.layout(),
                at,
                data@.take(0),
            )[at.chunk as int]);
        }
        while i < data.len()
            invariant
                i <= data@.len(),
                before.wf(),
                at.chunk < before.layout().len(),
                at.index + data@.len() <= before.layout()[at.chunk as int].len(),
                self.caps() == before.caps(),
                self.layout() == overwritten(before.layout(), at, data@.take(i as int)),
            decreases data@.len() - i,
        {
            let ghost mid = *self;
            assert(self.layout()[at.chunk as int] == self.chunks@[at.chunk as int].items@);
            self.chunks[at.chunk].items[at.index + i] = data[i];
            assert(self.caps() == before.caps());
            assert(self.layout() == overwritten(before.layout(), at, data@.take(i + 1))) by {
                assert forall|c: int| 0 <= c < self.layout().len() implies self.layout()[c]
                    == overwritten(before.layout(), at, data@.take(i + 1))[c] by {
                    assert(mid.layout()[c] == mid.chunks@[c].items@);
                    if c == at.chunk {
                        assert(self.layout()[c] =~= overwritten(
                            before.layout(),
                            at,
                            data@.take(i + 1),
                        )[c]);
                    }
                }
            }
            i = i + 1;
        }
        assert(data@.take(i as int) == data@);
    }

    /// Turns the chain into a walk that hands its elements out by value,
    /// from either end.
    pub fn into_iter(self) -> (r: IntoIter<T>)
        ensures
            r.remaining() == self@,
    {
        let ghost layout = self.layout();
        let mut chunks = self.chunks;
        let mut out: VecDeque<VecDeque<T>> = VecDeque::new();
        assert(views(out@) =~= layout.skip(chunks@.len() as int));
        loop
            invariant
                chunks@.len() <= layout.len(),
                forall|c: int| 0 <= c < chunks@.len() ==> (#[trigger] chunks@[c]).items@ == layout[c],
                views(out@) == layout.skip(chunks@.len() as int),
            ensures
                views(out@) == layout,
            decreases chunks@.len(),
        {
            let ghost prior = chunks@;
            match chunks.pop() {
                Some(chunk) => {
                    let ghost region = chunk.items@;
                    assert(chunk == prior[prior.len() - 1]);
                    assert(region == layout[chunks@.len() as int]);
                    assert forall|c: int| 0 <= c < chunks@.len() implies (#[trigger] chunks@[c]).items@
                        == layout[c] by {
                        assert(chunks@[c] == prior[c]);
                    }
                    let mut items = chunk.items;
                    let mut moved: VecDeque<T> = VecDeque::new();
                    assert(moved@ =~= region.skip(items@.len() as int));
                    loop
                        invariant
                            items@ == region.take(items@.len() as int),
                            items@.len() <= region.len(),
                            moved@ == region.skip(items@.len() as int),
                        ensures
                            moved@ == region,
                        decreases items@.len(),
                    {
                        match items.pop() {
                            Some(elem) => {
                                moved.push_front(elem);
                                assert(moved@ =~= region.skip(items@.len() as int));
                            },
                            None => {
                                assert(region.skip(0) =~= region);
                                break ;
                            },
                        }
                    }
                    let ghost rest = out@;
                    out.push_front(moved);
                    assert(views(out@) =~= layout.skip(chunks@.len() as int)) by {
                        assert(out@ == seq![moved] + rest);
                        assert(views(rest).len() == layout.len() - chunks@.len() - 1);
                        assert forall|k: int| 0 <= k < out@.len() implies views(out@)[k]
                            == layout.skip(chunks@.len() as int)[k] by {
                            if k > 0 {
                                assert(views(rest)[k - 1] == layout.skip(chunks@.len() as int + 1)[k - 1]);
                            }
                        }
                    }
                },
                None => {
                    assert(layout.skip(0) =~= layout);
                    break ;
                },
            }
        }
        IntoIter { chunks: out }
    }

    /// The chunks' populated regions, from either end.
    pub fn chunks(&self) -> (r: Chunks<'_, T>)
        requires
            self.wf(),
        ensures
            r.wf(),
            r.remaining() == self.layout(),
    {
        let r = Chunks { chain: self, start: 0, end: self.chunks.len() };
        assert(r.remaining() == self.layout());
        r
    }

    /// The elements, from either end.
    pub fn iter(&self) -> (r: Iter<'_, T>)
        requires
            self.wf(),
        ensures
            r.wf(),
            r.remaining() == self@,
    {
        let t: usize = self.chunks.len() - 1;
        let walk = IterMut {
            chunk: 0,
            index: 0,
            back_chunk: t,
            back_index: self.chunks[t].items.len(),
        };
        proof {
            assert(self.layout().take(0) == Seq::<Seq<T>>::empty());
            lemma_flatten_take_len(self.layout(), t as int);
            assert(self.layout().take(t + 1) == self.layout());
            assert(self.layout()[t as int] == self.chunks@[t as int].items@);
            assert(walk.remaining(self.layout()) == self@);
        }
        Iter { chain: self, walk }
    }

    /// A walk over the chunks' populated regions that hands each out for
    /// writing, from either end.
    pub fn chunks_mut(&mut self) -> (r: ChunksMut)
        requires
            old(self).wf(),
        ensures
            final(self).wf(),
            final(self).layout() == old(self).layout(),
            final(self).caps() == old(self).caps(),
            r.wf(final(self).layout()),
            r.remaining(final(self).layout()) == final(self).layout(),
    {
        let r = ChunksMut { start: 0, end: self.chunks.len() };
        assert(r.remaining(self.layout()) == self.layout());
        r
    }

    /// A walk over the elements that hands each out for writing, from
    /// either end.
    pub fn iter_mut(&mut self) -> (r: IterMut)
        requires
            old(self).wf(),
        ensures
            final(self).wf(),
            final(self).layout() == old(self).layout(),
            final(self).caps() == old(self).caps(),
            r.wf(final(self).layout()),
            r.remaining(final(self).layout()) == final(self)@,
    {
        let t: usize = self.chunks.len() - 1;
        let r = IterMut {
            chunk: 0,
            index: 0,
            back_chunk: t,
            back_index: self.chunks[t].items.len(),
        };
        proof {
            assert(self.layout().take(0) == Seq::<Seq<T>>::empty());
            lemma_flatten_take_len(self.layout(), t as int);
            assert(self.layout().take(t + 1) == self.layout());
            assert(self.layout()[t as int] == self.chunks@[t as int].items@);
            assert(r.remaining(self.layout()) == self@);
        }
        r
    }
}

/// A walk over the populated regions of a chain's chunks, from the head, from
/// the tail, or from both.
pub struct Chunks<'a, T> {
    chain: &'a Chain<T>,
    start: usize,
    end: usize,
}

impl<'a, T> Chunks<'a, T> {
    /// The walk's two ends lie inside the chain and have not crossed.
    pub closed spec fn wf(&self) -> bool {
        self.start <= self.end <= self.chain.layout().len()
    }

    /// The regions that are still to come, in link order.
    pub closed spec fn remaining(&self) -> Seq<Seq<T>> {
        self.chain.layout().subrange(self.start as int, self.end as int)
    }

    /// The next region from the head, or `None` when all were given.
    pub fn next(&mut self) -> (r: Option<&'a [T]>)
        requires
            old(self).wf(),
        ensures
            final(self).wf(),
            match r {
                Some(region) => old(self).remaining().len() > 0 && region@ == old(
                    self,
                ).remaining().first() && final(self).remaining() == old(
                    self,
                ).remaining().drop_first(),
                None => old(self).remaining().len() == 0 && final(self).remaining() == old(
                    self,
                ).remaining(),
            },
    {
        if self.start < self.end {
            let c: usize = self.start;
            self.start = c + 1;
            assert(self.remaining() == old(self).remaining().drop_first());
            Some(self.chain.chunk(c))
        } else {
            None
        }
    }

    /// The next region from the tail, or `None` when all were given.
    pub fn next_back(&mut self) -> (r: Option<&'a [T]>)
        requires
            old(self).wf(),
        ensures
            final(self).wf(),
            match r {
                Some(region) => old(self).remaining().len() > 0 && region@ == old(
                    self,
                ).remaining().last() && final(self).remaining() == old(
                    self,
                ).remaining().drop_last(),
                None => old(self).remaining().len() == 0 && final(self).remaining() == old(
                    self,
                ).remaining(),
            },
    {
        if self.start < self.end {
            let c: usize = self.end - 1;
            self.end = c;
            assert(self.remaining() == old(self).remaining().drop_last());
            Some(self.chain.chunk(c))
        } else {
            None
        }
    }
}

/// A walk over the elements of a chain, from the first, from the last, or
/// from both.
pub struct Iter<'a, T> {
    chain: &'a Chain<T>,
    walk: IterMut,
}

impl<'a, T> Iter<'a, T> {
    /// Both ends address places of the chain, and the front has not passed
    /// the back.
    pub closed spec fn wf(&self) -> bool {
        self.chain.wf() && self.walk.wf(self.chain.layout())
    }

    /// The elements that are still to come, in order.
    pub closed spec fn remaining(&self) -> Seq<T> {
        self.walk.remaining(self.chain.layout())
    }

    /// The next element from the front, or `None` when all were given.
    pub fn next(&mut self) -> (r: Option<&'a T>)
        requires
            old(self).wf(),
        ensures
            final(self).wf(),
            match r {
                Some(elem) => old(self).remaining().len() > 0 && *elem == old(
                    self,
                ).remaining().first() && final(self).remaining() == old(
                    self,
                ).remaining().drop_first(),
                None => old(self).remaining().len() == 0 && final(self).remaining() == old(
                    self,
                ).remaining(),
            },
    {
        match self.walk.step(self.chain) {
            Some(s) => Some(self.chain.get(s)),
            None => None,
        }
    }

    /// The next element from the back, or `None` when all were given.
    pub fn next_back(&mut self) -> (r: Option<&'a T>)
        requires
            old(self).wf(),
        ensures
            final(self).wf(),
            match r {
                Some(elem) => old(self).remaining().len() > 0 && *elem == old(
                    self,
                ).remaining().last() && final(self).remaining() == old(
                    self,
                ).remaining().drop_last(),
                None => old(self).remaining().len() == 0 && final(self).remaining() == old(
                    self,
                ).remaining(),
            },
    {
        match self.walk.step_back(self.chain) {
            Some(s) => Some(self.chain.get(s)),
            None => None,
        }
    }
}

/// A walk over the populated regions of a chain's chunks that hands each out
/// for writing, from the head, from the tail, or from both. The walk holds no
/// reference to the chain: each step is made through the chain it belongs to.
pub struct ChunksMut {
    start: usize,
    end: usize,
}

impl ChunksMut {
    /// The chunks that are still to come: from the first of the pair up to
    /// the second.
    pub closed spec fn range(&self) -> (int, int) {
        (self.start as int, self.end as int)
    }

    /// The walk's two ends lie inside `layout` and have not crossed.
    pub open spec fn wf<T>(&self, layout: Seq<Seq<T>>) -> bool {
        0 <= self.range().0 <= self.range().1 <= layout.len()
    }

    /// The regions of `layout` that are still to come, in link order.
    pub open spec fn remaining<T>(&self, layout: Seq<Seq<T>>) -> Seq<Seq<T>> {
        layout.subrange(self.range().0, self.range().1)
    }

    /// The next region from the head, or `None` when all were given. What is
    /// written to the region is written to the chain, and nothing else of the
    /// chain changes.
    pub fn next<'a, T>(&mut self, chain: &'a mut Chain<T>) -> (r: Option<&'a mut [T]>)
        requires
            old(chain).wf(),
            old(self).wf(old(chain).layout()),
        ensures
            final(chain).caps() == old(chain).caps(),
            final(self).range().1 == old(self).range().1,
            match r {
                Some(region) => {
                    &&& old(self).range().0 < old(self).range().1
                    &&& final(self).range().0 == old(self).range().0 + 1
                    &&& region@ == old(chain).layout()[old(self).range().0]
                    &&& final(chain).layout() == old(chain).layout().update(
                        old(self).range().0,
                        final(region)@,
                    )
                },
                None => {
                    &&& old(self).range().0 == old(self).range().1
                    &&& final(self).range().0 == old(self).range().0
                    &&& final(chain).layout() == old(chain).layout()
                },
            },
    {
        if self.start < self.end {
            let c: usize = self.start;
            self.start = c + 1;
            assert(chain.layout()[c as int] == chain.chunks@[c as int].items@);
            Some(chain.chunks[c].items.as_mut_slice())
        } else {
            None
        }
    }

    /// The next region from the tail, or `None` when all were given. What is
    /// written to the region is written to the chain, and nothing else of the
    /// chain changes.
    pub fn next_back<'a, T>(&mut self, chain: &'a mut Chain<T>) -> (r: Option<&'a mut [T]>)
        requires
            old(chain).wf(),
            old(self).wf(old(chain).layout()),
        ensures
            final(chain).caps() == old(chain).caps(),
            final(self).range().0 == old(self).range().0,
            match r {
                Some(region) => {
                    &&& old(self).range().0 < old(self).range().1
                    &&& final(self).range().1 == old(self).range().1 - 1
                    &&& region@ == old(chain).layout()[old(self).range().1 - 1]
                    &&& final(chain).layout() == old(chain).layout().update(
                        old(self).range().1 - 1,
                        final(region)@,
                    )
                },
                None => {
                    &&& old(self).range().0 == old(self).range().1
                    &&& final(self).range().1 == old(self).range().1
                    &&& final(chain).layout() == old(chain).layout()
                },
            },
    {
        if self.start < self.end {
            let c: usize = self.end - 1;
            self.end = c;
            assert(chain.layout()[c as int] == chain.chunks@[c as int].items@);
            Some(chain.chunks[c].items.as_mut_slice())
        } else {
            None
        }
    }
}

/// A walk over the elements of a chain that hands each out for writing, from
/// the first, from the last, or from both. The walk holds no reference to
/// the chain: each step is made through the chain it belongs to.
pub struct IterMut {
    chunk: usize,
    index: usize,
    back_chunk: usize,
    back_index: usize,
}

impl IterMut {
    /// The address of the element that comes next from the front, where one
    /// is left in its chunk.
    pub closed spec fn front(&self) -> Slot {
        Slot { chunk: self.chunk, index: self.index }
    }

    /// The address behind the element that comes next from the back, where
    /// one is left in its chunk.
    pub closed spec fn back(&self) -> Slot {
        Slot { chunk: self.back_chunk, index: self.back_index }
    }

    /// Both ends address places of `layout`, and the front has not passed
    /// the back.
    pub open spec fn wf<T>(&self, layout: Seq<Seq<T>>) -> bool {
        &&& self.front().chunk <= self.back().chunk < layout.len()
        &&& self.front().index <= layout[self.front().chunk as int].len()
        &&& self.back().index <= layout[self.back().chunk as int].len()
        &&& self.front().chunk == self.back().chunk ==> self.front().index <= self.back().index
    }

    /// How many elements of `layout` lie before the front.
    pub open spec fn position<T>(&self, layout: Seq<Seq<T>>) -> int {
        offset_of(layout, self.front().chunk as int, self.front().index as int)
    }

    /// How many elements of `layout` lie before the back.
    pub open spec fn back_position<T>(&self, layout: Seq<Seq<T>>) -> int {
        offset_of(layout, self.back().chunk as int, self.back().index as int)
    }

    /// The elements of `layout` that are still to come, in order.
    pub open spec fn remaining<T>(&self, layout: Seq<Seq<T>>) -> Seq<T> {
        layout.flatten().subrange(self.position(layout), self.back_position(layout))
    }

    /// Passes the next element from the front and returns its address, or
    /// `None` when the front has met the back.
    pub fn step<T>(&mut self, chain: &Chain<T>) -> (r: Option<Slot>)
        requires
            chain.wf(),
            old(self).wf(chain.layout()),
        ensures
            final(self).wf(chain.layout()),
            final(self).back() == old(self).back(),
            final(self).back_position(chain.layout()) == old(self).back_position(chain.layout()),
            0 <= old(self).position(chain.layout()) <= old(self).back_position(chain.layout())
                <= chain@.len(),
            match r {
                Some(s) => {
                    &&& chain.valid(s)
                    &&& old(self).position(chain.layout()) < old(self).back_position(chain.layout())
                    &&& offset_of(chain.layout(), s.chunk as int, s.index as int) == old(
                        self,
                    ).position(chain.layout())
                    &&& final(self).position(chain.layout()) == old(self).position(chain.layout())
                        + 1
                    &&& chain.at(s) == old(self).remaining(chain.layout()).first()
                    &&& final(self).remaining(chain.layout()) == old(self).remaining(
                        chain.layout(),
                    ).drop_first()
                },
                None => {
                    &&& old(self).position(chain.layout()) == old(self).back_position(
                        chain.layout(),
                    )
                    &&& final(self).position(chain.layout()) == old(self).position(chain.layout())
                    &&& final(self).remaining(chain.layout()) == old(self).remaining(
                        chain.layout(),
                    )
                },
            },
    {
        let ghost layout = chain.layout();
        let ghost back = offset_of(layout, self.back_chunk as int, self.back_index as int);
        proof {
            lemma_flatten_take_len(layout, self.back_chunk as int);
            lemma_flatten_take_len(layout, self.back_chunk + 1);
            lemma_flatten_take_len(layout, self.chunk as int);
            if self.chunk < self.back_chunk {
                lemma_flatten_take_mono(layout, self.chunk + 1, self.back_chunk as int);
            }
        }
        loop
            invariant
                chain.wf(),
                self.wf(layout),
                self.back_chunk == old(self).back_chunk,
                self.back_index == old(self).back_index,
                layout == chain.layout(),
                back == offset_of(layout, self.back_chunk as int, self.back_index as int),
                back <= layout.flatten().len(),
                offset_of(layout, self.chunk as int, self.index as int) == offset_of(
                    layout,
                    old(self).chunk as int,
                    old(self).index as int,
                ),
            decreases self.back_chunk - self.chunk,
        {
            let region = chain.chunk(self.chunk);
            let bound: usize = if self.chunk == self.back_chunk {
                self.back_index
            } else {
                region.len()
            };
            proof {
                lemma_flatten_take_len(layout, self.chunk as int);
                if self.chunk < self.back_chunk {
                    lemma_flatten_take_mono(layout, self.chunk + 1, self.back_chunk as int);
                }
            }
            if self.index < bound {
                let i: usize = self.index;
                proof {
                    lemma_flatten_index(layout, self.chunk as int, i as int);
                }
                self.index = i + 1;
                assert(self.remaining(layout) == old(self).remaining(layout).drop_first());
                return Some(Slot { chunk: self.chunk, index: i });
            }
            if self.chunk == self.back_chunk {
                return None;
            }
            self.chunk = self.chunk + 1;
            self.index = 0;
        }
    }

    /// Passes the next element from the back and returns its address, or
    /// `None` when the back has met the front.
    pub fn step_back<T>(&mut self, chain: &Chain<T>) -> (r: Option<Slot>)
        requires
            chain.wf(),
            old(self).wf(chain.layout()),
        ensures
            final(self).wf(chain.layout()),
            final(self).front() == old(self).front(),
            final(self).position(chain.layout()) == old(self).position(chain.layout()),
            0 <= old(self).position(chain.layout()) <= old(self).back_position(chain.layout())
                <= chain@.len(),
            match r {
                Some(s) => {
                    &&& chain.valid(s)
                    &&& old(self).position(chain.layout()) < old(self).back_position(chain.layout())
                    &&& offset_of(chain.layout(), s.chunk as int, s.index as int) == old(
                        self,
                    ).back_position(chain.layout()) - 1
                    &&& final(self).back_position(chain.layout()) == old(self).back_position(
                        chain.layout(),
                    ) - 1
                    &&& chain.at(s) == old(self).remaining(chain.layout()).last()
                    &&& final(self).remaining(chain.layout()) == old(self).remaining(
                        chain.layout(),
                    ).drop_last()
                },
                None => {
                    &&& old(self).position(chain.layout()) == old(self).back_position(
                        chain.layout(),
                    )
                    &&& final(self).back_position(chain.layout()) == old(self).back_position(
                        chain.layout(),
                    )
                    &&& final(self).remaining(chain.layout()) == old(self).remaining(
                        chain.layout(),
                    )
                },
            },
    {
        let ghost layout = chain.layout();
        let ghost front = offset_of(layout, self.chunk as int, self.index as int);
        proof {
            lemma_flatten_take_len(layout, self.back_chunk as int);
            lemma_flatten_take_len(layout, self.back_chunk + 1);
            lemma_flatten_take_len(layout, self.chunk as int);
            if self.chunk < self.back_chunk {
                lemma_flatten_take_mono(layout, self.chunk + 1, self.back_chunk as int);
            }
        }
        loop
            invariant
                chain.wf(),
                self.wf(layout),
                self.chunk == old(self).chunk,
                self.index == old(self).index,
                layout == chain.layout(),
                front == offset_of(layout, self.chunk as int, self.index as int),
                offset_of(layout, self.back_chunk as int, self.back_index as int) == offset_of(
                    layout,
                    old(self).back_chunk as int,
                    old(self).back_index as int,
                ),
            decreases self.back_chunk - self.chunk,
        {
            let region = chain.chunk(self.back_chunk);
            let bound: usize = if self.chunk == self.back_chunk {
                self.index
            } else {
                0
            };
            proof {
                lemma_flatten_take_len(layout, self.chunk as int);
                lemma_flatten_take_len(layout, self.back_chunk as int);
                lemma_flatten_take_len(layout, self.back_chunk + 1);
                if self.chunk < self.back_chunk {
                    lemma_flatten_take_mono(layout, self.chunk + 1, self.back_chunk as int);
                }
            }
            if self.back_index > bound {
                let i: usize = self.back_index - 1;
                proof {
                    lemma_flatten_index(layout, self.back_chunk as int, i as int);
                }
                self.back_index = i;
                assert(self.remaining(layout) == old(self).remaining(layout).drop_last());
                return Some(Slot { chunk: self.back_chunk, index: i });
            }
            if self.chunk == self.back_chunk {
                return None;
            }
            self.back_chunk = self.back_chunk - 1;
            self.back_index = chain.chunk(self.back_chunk).len();
            proof {
                lemma_flatten_take_len(layout, self.back_chunk as int);
            }
        }
    }

    /// The next element from the front, for writing, or `None` when all
    /// were given. What is written to the element is written to the chain,
    /// and nothing else of the chain changes.
    pub fn next<'a, T>(&mut self, chain: &'a mut Chain<T>) -> (r: Option<&'a mut T>)
        requires
            old(chain).wf(),
            old(self).wf(old(chain).layout()),
        ensures
            final(chain).caps() == old(chain).caps(),
            final(self).back() == old(self).back(),
            match r {
                Some(elem) => {
                    &&& old(self).remaining(old(chain).layout()).len() > 0
                    &&& *elem == old(self).remaining(old(chain).layout()).first()
                    &&& final(self).wf(old(chain).layout())
                    &&& final(self).remaining(old(chain).layout()) == old(self).remaining(
                        old(chain).layout(),
                    ).drop_first()
                    &&& final(chain).wf()
                    &&& final(chain)@ == old(chain)@.update(
                        old(self).position(old(chain).layout()),
                        *final(elem),
                    )
                },
                None => {
                    &&& old(self).remaining(old(chain).layout()).len() == 0
                    &&& final(self).wf(old(chain).layout())
                    &&& final(chain).layout() == old(chain).layout()
                },
            },
    {
        match self.step(chain) {
            Some(s) => {
                assert forall|value: T| #[trigger] replaced(chain.layout(), s, value).flatten()
                    == chain@.update(old(self).position(chain.layout()), value) by {
                    lemma_replaced_flatten(chain.layout(), s, value);
                }
                Some(chain.get_mut(s))
            },
            None => None,
        }
    }

    /// The next element from the back, for writing, or `None` when all were
    /// given. What is written to the element is written to the chain, and
    /// nothing else of the chain changes.
    pub fn next_back<'a, T>(&mut self, chain: &'a mut Chain<T>) -> (r: Option<&'a mut T>)
        requires
            old(chain).wf(),
            old(self).wf(old(chain).layout()),
        ensures
            final(chain).caps() == old(chain).caps(),
            final(self).front() == old(self).front(),
            match r {
                Some(elem) => {
                    &&& old(self).remaining(old(chain).layout()).len() > 0
                    &&& *elem == old(self).remaining(old(chain).layout()).last()
                    &&& final(self).wf(old(chain).layout())
                    &&& final(self).remaining(old(chain).layout()) == old(self).remaining(
                        old(chain).layout(),
                    ).drop_last()
                    &&& final(chain).wf()
                    &&& final(chain)@ == old(chain)@.update(
                        old(self).back_position(old(chain).layout()) - 1,
                        *final(elem),
                    )
                },
                None => {
                    &&& old(self).remaining(old(chain).layout()).len() == 0
                    &&& final(self).wf(old(chain).layout())
                    &&& final(chain).layout() == old(chain).layout()
                },
            },
    {
        match self.step_back(chain) {
            Some(s) => {
                assert forall|value: T| #[trigger] replaced(chain.layout(), s, value).flatten()
                    == chain@.update(old(self).back_position(chain.layout()) - 1, value) by {
                    lemma_replaced_flatten(chain.layout(), s, value);
                }
                Some(chain.get_mut(s))
            },
            None => None,
        }
    }
}

/// A walk that hands the elements of a chain out by value, from the first,
/// from the last, or from both. A chunk is dropped as soon as the walk has
/// emptied it.
pub struct IntoIter<T> {
    chunks: VecDeque<VecDeque<T>>,
}

impl<T> IntoIter<T> {
    /// The elements that are still to come, in order.
    pub closed spec fn remaining(&self) -> Seq<T> {
        views(self.chunks@).flatten()
    }

    /// The next element from the front, or `None` when all were given.
    pub fn next(&mut self) -> (r: Option<T>)
        ensures
            match r {
                Some(elem) => old(self).remaining().len() > 0 && elem == old(
                    self,
                ).remaining().first() && final(self).remaining() == old(
                    self,
                ).remaining().drop_first(),
                None => old(self).remaining().len() == 0 && final(self).remaining() == old(
                    self,
                ).remaining(),
            },
    {
        loop
            invariant
                self.remaining() == old(self).remaining(),
            decreases self.chunks@.len(),
        {
            let ghost before = views(self.chunks@);
            match self.chunks.pop_front() {
                Some(chunk) => {
                    let mut chunk = chunk;
                    let ghost rest = views(self.chunks@);
                    let ghost region = chunk@;
                    assert(rest =~= before.drop_first());
                    assert(before.first() == region);
                    match chunk.pop_front() {
                        Some(elem) => {
                            let ghost left = chunk@;
                            self.chunks.push_front(chunk);
                            proof {
                                let after = views(self.chunks@);
                                assert(after.first() == left);
                                assert(after.drop_first() =~= rest);
                                assert(after.flatten() =~= before.flatten().drop_first());
                            }
                            return Some(elem);
                        },
                        None => {
                            assert(before.flatten() =~= rest.flatten());
                        },
                    }
                },
                None => {
                    assert(before =~= Seq::<Seq<T>>::empty());
                    return None;
                },
            }
        }
    }

    /// The next element from the back, or `None` when all were given.
    pub fn next_back(&mut self) -> (r: Option<T>)
        ensures
            match r {
                Some(elem) => old(self).remaining().len() > 0 && elem == old(
                    self,
                ).remaining().last() && final(self).remaining() == old(
                    self,
                ).remaining().drop_last(),
                None => old(self).remaining().len() == 0 && final(self).remaining() == old(
                    self,
                ).remaining(),
            },
    {
        loop
            invariant
                self.remaining() == old(self).remaining(),
            decreases self.chunks@.len(),
        {
            let ghost before = views(self.chunks@);
            match self.chunks.pop_back() {
                Some(chunk) => {
                    let mut chunk = chunk;
                    let ghost rest = views(self.chunks@);
                    let ghost region = chunk@;
                    assert(rest =~= before.drop_last());
                    assert(before =~= rest.push(region));
                    proof {
                        rest.lemma_flatten_push(region);
                    }
                    match chunk.pop_back() {
                        Some(elem) => {
                            let ghost left = chunk@;
                            self.chunks.push_back(chunk);
                            proof {
                                let after = views(self.chunks@);
                                assert(after =~= rest.push(left));
                                rest.lemma_flatten_push(left);
                                assert(after.flatten() =~= before.flatten().drop_last());
                            }
                            return Some(elem);
                        },
                        None => {
                            assert(before.flatten() =~= rest.flatten());
                        },
                    }
                },
                None => {
                    assert(before =~= Seq::<Seq<T>>::empty());
                    return None;
                },
            }
        }
    }
}

} // verus!
