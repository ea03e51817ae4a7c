//! Arenas: allocation of single values with stable addresses and teardown of
//! all of them at once.

use vstd::prelude::*;
use crate::chain::{
    shaped,
    committed, cursor_of, fits, keeps_addresses, replaced, reservable, reserved_caps,
    reserved_layout, slot_value, valid_slot, Slot,
};
use crate::fence::valid_kind;
use crate::hetvec::{emplaced, entry_space, Entry, Erase, HetVec};
use crate::monovec::MonoVec;

verus! {

/// An arena of values of one type.
pub struct TypedArena<T> {
    vec: MonoVec<T>,
}

impl<T> View for TypedArena<T> {
    type V = Seq<T>;

    /// The values in the order in which they were allocated.
    open spec fn view(&self) -> Seq<T> {
        self.layout().flatten()
    }
}

impl<T> TypedArena<T> {
    /// The values of each chunk, in link order.
    pub closed spec fn layout(&self) -> Seq<Seq<T>> {
        self.vec.layout()
    }

    /// The capacity of each chunk, in link order.
    pub closed spec fn caps(&self) -> Seq<nat> {
        self.vec.caps()
    }

    /// There is at least one chunk, no chunk is without capacity, and none
    /// holds more than its capacity.
    pub open spec fn wf(&self) -> bool {
        shaped(self.layout(), self.caps())
    }

    /// `s` addresses an allocated value.
    pub open spec fn valid(&self, s: Slot) -> bool {
        valid_slot(self.layout(), s)
    }

    /// The value at `s`.
    pub open spec fn at(&self, s: Slot) -> T {
        slot_value(self.layout(), s)
    }

    /// One more value can be allocated without overflow.
    pub open spec fn can_allocate(&self) -> bool {
        reservable::<T>(self.layout(), self.caps(), 1)
    }

    /// An arena with room for `count` values, and for one where `count` is
    /// zero.
    pub fn with_capacity(count: usize) -> (r: Self)
        requires
            fits::<T>(if count == 0 { 1 } else { count as nat }),
        ensures
            r.wf(),
            r.layout() == seq![Seq::<T>::empty()],
            r.caps() == seq![if count == 0 { 1 } else { count as nat }],
    {
        TypedArena { vec: MonoVec::with_capacity(count) }
    }

    /// Tells whether one more value can be allocated.
    pub fn fits_allocate(&self) -> (r: bool)
        requires
            self.wf(),
        ensures
            r == self.can_allocate(),
    {
        self.vec.fits_reserve(1)
    }

    /// Runs `make` once and stores what it gives. Returns the address of
    /// the new value, which was never handed out before. Earlier addresses
    /// keep their values.
    pub fn allocate<F: FnOnce() -> T>(&mut self, make: F) -> (r: Slot)
        requires
            old(self).wf(),
            old(self).can_allocate(),
            make.requires(()),
        ensures
            final(self).wf(),
            make.ensures((), final(self).at(r)),
            final(self).layout() == committed(
                reserved_layout(old(self).layout(), old(self).caps(), 1),
                seq![final(self).at(r)],
            ),
            final(self).caps() == reserved_caps(old(self).layout(), old(self).caps(), 1),
            r == cursor_of(reserved_layout(old(self).layout(), old(self).caps(), 1)),
            final(self).valid(r),
            !old(self).valid(r),
            final(self)@ == old(self)@.push(final(self).at(r)),
            keeps_addresses(old(self).layout(), final(self).layout()),
    {
        self.vec.push(make())
    }

    /// The value at `s`.
    pub fn get(&self, s: Slot) -> (r: &T)
        requires
            self.valid(s),
        ensures
            *r == self.at(s),
    {
        self.vec.get(s)
    }

    /// Exclusive access to the value at `s`. Nothing else changes, and the
    /// value stays where it is.
    pub fn get_mut(&mut self, s: Slot) -> (r: &mut T)
        requires
            old(self).valid(s),
        ensures
            *r == old(self).at(s),
            final(self).caps() == old(self).caps(),
            final(self).layout() == replaced(old(self).layout(), s, *final(r)),
            old(self).wf() ==> final(self).wf(),
    {
        assert forall|value: T| self.wf() implies #[trigger] shaped(
            replaced(self.layout(), s, value),
            self.caps(),
        ) by {
            crate::chain::lemma_replaced_shaped(self.layout(), self.caps(), s, value);
        }
        self.vec.get_mut(s)
    }
}

/// The strategy that forgets: every object is seen as nothing at all. It is
/// for objects that are stored to be finalized, never to be looked at.
pub struct Forget(());

impl Erase<()> for Forget {
    open spec fn erases(obj: Seq<u8>, view: ()) -> bool {
        true
    }

    fn erase(obj: &[u8]) -> (view: ()) {
        ()
    }
}

/// An arena of objects of differing kinds, stored to be finalized together.
pub struct Arena {
    vec: HetVec<(), Forget>,
}

impl Arena {
    /// The bytes of each chunk of the backing buffer.
    pub closed spec fn layout(&self) -> Seq<Seq<u8>> {
        self.vec.layout()
    }

    /// The capacity of each chunk of the backing buffer.
    pub closed spec fn caps(&self) -> Seq<nat> {
        self.vec.caps()
    }

    /// The entries in the order in which they were written, stubs included.
    pub closed spec fn entries(&self) -> Seq<Entry> {
        self.vec.entries()
    }

    /// The arena's buffer is well-formed.
    pub closed spec fn wf(&self) -> bool {
        self.vec.wf()
    }

    /// An object of this kind can be allocated without overflow.
    pub open spec fn can_allocate(&self, size: nat, align: nat) -> bool {
        &&& valid_kind(size as int, align as int)
        &&& entry_space(size as int, align as int) <= usize::MAX
        &&& reservable::<u8>(
            self.layout(),
            self.caps(),
            entry_space(size as int, align as int) as nat,
        )
    }

    /// An empty arena.
    pub fn new() -> (r: Self)
        ensures
            r.wf(),
            r.entries() == Seq::<Entry>::empty(),
            r.layout() == seq![Seq::<u8>::empty()],
            r.caps() == seq![128nat],
    {
        Arena { vec: HetVec::new() }
    }

    /// Tells whether an object of this kind can be allocated.
    pub fn fits_allocate(&self, size: usize, align: usize) -> (r: bool)
        requires
            self.wf(),
        ensures
            r == self.can_allocate(size as nat, align as nat),
    {
        self.vec.fits_push(size, align)
    }

    /// Makes room for an object of `size` bytes aligned to `align`, then
    /// has `make` construct it in that room. Where `make` gives the object,
    /// with the size that was announced, its address is returned and the
    /// object is finalized at teardown. Where `make` fails, nothing of it is
    /// ever finalized.
    pub fn allocate<F: FnOnce() -> Option<Vec<u8>>>(&mut self, align: usize, size: usize, make: F) -> (r:
        Option<Slot>)
        requires
            old(self).wf(),
            old(self).can_allocate(size as nat, align as nat),
            make.requires(()),
        ensures
            final(self).wf(),
            exists|made: Option<Vec<u8>>|
                make.ensures((), made) && #[trigger] emplaced(
                    old(self).layout(),
                    old(self).caps(),
                    old(self).entries(),
                    final(self).layout(),
                    final(self).entries(),
                    size as nat,
                    align as nat,
                    made,
                    r,
                ),
            keeps_addresses(old(self).layout(), final(self).layout()),
    {
        let r = self.vec.emplace(align, size, make);
        proof {
            let made = choose|made: Option<Vec<u8>>|
                make.ensures((), made) && #[trigger] emplaced(
                    old(self).vec.layout(),
                    old(self).vec.caps(),
                    old(self).vec.entries(),
                    self.vec.layout(),
                    self.vec.entries(),
                    size as nat,
                    align as nat,
                    made,
                    r,
                );
            assert(emplaced(
                old(self).layout(),
                old(self).caps(),
                old(self).entries(),
                self.layout(),
                self.entries(),
                size as nat,
                align as nat,
                made,
                r,
            ));
        }
        r
    }

    /// The `len` bytes of the object at `at`.
    pub fn get(&self, at: Slot, len: usize) -> (r: &[u8])
        requires
            at.chunk < self.layout().len(),
            at.index + len <= self.layout()[at.chunk as int].len(),
        ensures
            r@ == self.layout()[at.chunk as int].subrange(at.index as int, at.index + len),
    {
        self.vec.get(at, len)
    }

    /// Tears the arena down and returns the addresses of the objects whose
    /// finalizer is to run: each object that was constructed once, in the
    /// order of allocation, and none whose construction failed.
    pub fn teardown(self) -> (r: Vec<Slot>)
        requires
            self.wf(),
        ensures
            r@ == crate::hetvec::slots_of(self.entries()),
    {
        self.vec.teardown()
    }
}

} // verus!
