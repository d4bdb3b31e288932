use vstd::prelude::*;
use vstd::layout::{valid_layout, size_of, align_of, layout_for_type_is_valid};
use crate::allocator::{Alloc, BlockView, live_block, moved_block};

verus! {

broadcast use vstd::map::group_map_axioms;

/// The capacity an array of `capacity` slots grows to when it must hold
/// `new_size` elements: half as much again, or just enough if that is more.
pub open spec fn grown_capacity(capacity: int, new_size: int) -> int {
    if capacity == 0 {
        new_size
    } else if capacity + capacity / 2 < new_size {
        new_size
    } else {
        capacity + capacity / 2
    }
}

/// Bytes of `n` slots of `T`.
pub open spec fn slot_bytes<T>(n: int) -> int {
    n * size_of::<T>()
}

/// A growable array. Its slots are reserved as one block of its allocator,
/// sized for `capacity` elements and moved as the array grows or shrinks;
/// the elements themselves are kept, in order, beside the block.
pub struct DynArray<T, A: Alloc> {
    alloc: A,
    data: usize,
    capacity: usize,
    size: usize,
    elems: Vec<T>,
}

impl<T, A: Alloc> DynArray<T, A> {
    /// The elements, first to last.
    pub closed spec fn view(&self) -> Seq<T> {
        self.elems@
    }

    /// The number of elements it counts as holding.
    pub closed spec fn len(&self) -> usize {
        self.size
    }

    /// The number of slots of its block.
    pub closed spec fn capacity(&self) -> usize {
        self.capacity
    }

    /// The allocator it draws its block from.
    pub closed spec fn allocator(&self) -> A {
        self.alloc
    }

    /// The address of its block, or 0 when it has none.
    pub closed spec fn data_addr(&self) -> usize {
        self.data
    }

    /// The live blocks of its allocator other than its own.
    pub open spec fn other_blocks(&self) -> Map<usize, BlockView> {
        self.allocator().heap().remove(self.data_addr())
    }

    /// The array's invariant: its block is live in its allocator and holds
    /// `capacity` slots, of which the first `len` hold the elements.
    pub closed spec fn wf(&self) -> bool {
        &&& self.slots_ok()
        &&& self.elems@.len() == self.size
    }

    /// The invariant of the block and its slots, while the count of elements
    /// may run ahead of the elements written so far.
    pub closed spec fn slots_ok(&self) -> bool {
        &&& self.alloc.wf()
        &&& valid_layout(size_of::<T>() as usize, align_of::<T>() as usize)
        &&& size_of::<T>() <= usize::MAX
        &&& align_of::<T>() <= usize::MAX
        &&& self.elems@.len() <= self.capacity
        &&& self.elems@.len() <= self.size
        &&& slot_bytes::<T>(self.capacity as int) <= usize::MAX
        &&& self.data == 0 ==> self.capacity == 0
        &&& self.data != 0 ==> live_block(
            self.alloc.heap(),
            self.data,
            slot_bytes::<T>(self.capacity as int) as usize,
            align_of::<T>() as usize,
        )
    }

    /// Growing to hold `new_size` elements asks the allocator only for what
    /// it serves.
    pub open spec fn can_grow_to(&self, new_size: int) -> bool {
        new_size <= self.capacity() || {
            let c = grown_capacity(self.capacity() as int, new_size);
            &&& c <= usize::MAX
            &&& slot_bytes::<T>(c) <= usize::MAX
            &&& A::admits(slot_bytes::<T>(c) as usize, align_of::<T>() as usize)
        }
    }

    /// The allocator has room for what growing to hold `new_size` elements
    /// asks of it.
    pub open spec fn grow_fits(&self, new_size: int) -> bool {
        new_size <= self.capacity() || A::cost(
            slot_bytes::<T>(self.capacity_for(new_size)) as usize,
            align_of::<T>() as usize,
        ) <= self.allocator().room()
    }

    /// `self` has the same allocator and block as `other`.
    pub open spec fn same_block(&self, other: &Self) -> bool {
        &&& self.allocator() == other.allocator()
        &&& self.data_addr() == other.data_addr()
        &&& self.capacity() == other.capacity()
    }

    /// `self` is `other` as far as its elements, its block and the blocks of
    /// its allocator show: what a failed request leaves.
    pub open spec fn unchanged_from(&self, other: &Self) -> bool {
        &&& self@ == other@
        &&& self.len() == other.len()
        &&& self.capacity() == other.capacity()
        &&& self.data_addr() == other.data_addr()
        &&& self.allocator().heap() == other.allocator().heap()
    }

    /// The capacity after growing to hold `new_size` elements.
    pub open spec fn capacity_for(&self, new_size: int) -> int {
        if new_size <= self.capacity() {
            self.capacity() as int
        } else {
            grown_capacity(self.capacity() as int, new_size)
        }
    }

    /// An array never holds more elements than its block has slots.
    pub proof fn lemma_len_within_capacity(&self)
        requires
            self.wf(),
        ensures
            self@.len() <= self.capacity(),
            self@.len() == self.len(),
    {
    }

    /// An array with a block owns a live block of its allocator, of exactly
    /// its capacity's slots; one without has no slots.
    pub proof fn lemma_owns_its_block(&self)
        requires
            self.wf(),
        ensures
            self.data_addr() == 0 ==> self.capacity() == 0,
            self.data_addr() != 0 ==> live_block(
                self.allocator().heap(),
                self.data_addr(),
                slot_bytes::<T>(self.capacity() as int) as usize,
                align_of::<T>() as usize,
            ),
    {
    }

    pub fn new(alloc: A) -> (r: DynArray<T, A>)
        requires
            alloc.wf(),
        ensures
            r.wf(),
            r@ == Seq::<T>::empty(),
            r.capacity() == 0,
            r.data_addr() == 0,
            r.allocator() == alloc,
    {
        layout_for_type_is_valid::<T>();
        DynArray { alloc, data: 0, capacity: 0, size: 0, elems: Vec::new() }
    }

    /// Moves the block to one of `new_capacity` slots, keeping the
    /// elements; nothing changes when the allocator has no memory left.
    fn _grow_capacity(&mut self, new_capacity: usize) -> (r: bool)
        requires
            old(self).slots_ok(),
            new_capacity > old(self).capacity(),
            slot_bytes::<T>(new_capacity as int) <= usize::MAX,
            A::admits(slot_bytes::<T>(new_capacity as int) as usize, align_of::<T>() as usize),
        ensures
            final(self).slots_ok(),
            final(self)@ == old(self)@,
            final(self).len() == old(self).len(),
            final(self).other_blocks() == old(self).other_blocks(),
            r ==> final(self).capacity() == new_capacity,
            A::cost(slot_bytes::<T>(new_capacity as int) as usize, align_of::<T>() as usize)
                <= old(self).allocator().room() ==> r,
            !r ==> final(self).capacity() == old(self).capacity() && final(self).data_addr()
                == old(self).data_addr() && final(self).allocator().heap() == old(self).allocator().heap(),
    {
        let ghost h0 = self.alloc.heap();
        proof {
            self.alloc.lemma_wf();
        }
        let sz = core::mem::size_of::<T>();
        let al = core::mem::align_of::<T>();
        let new_data = if self.data == 0 {
            self.alloc.allocate(new_capacity * sz, al)
        } else {
            self.alloc.realloc(self.data, self.capacity * sz, al, new_capacity * sz, al)
        };
        if new_data == 0 {
            return false;
        }
        let ghost old_data = self.data;
        self.data = new_data;
        self.capacity = new_capacity;
        proof {
            assert(h0.remove(0) =~= h0);
            assert(self.alloc.heap().remove(new_data) =~= h0.remove(old_data));
        }
        true
    }

    /// The capacity to grow to when `new_size` elements must fit.
    fn _get_grown_capacity(&self, new_size: usize) -> (r: usize)
        requires
            grown_capacity(self.capacity() as int, new_size as int) <= usize::MAX,
        ensures
            r == grown_capacity(self.capacity() as int, new_size as int),
    {
        if self.capacity == 0 {
            return new_size;
        }
        let cap = self.capacity;
        let half = cap >> 1;
        assert(half == cap / 2) by (bit_vector)
            requires
                half == cap >> 1,
        ;
        let new_capacity = cap + half;
        if new_capacity < new_size {
            return new_size;
        }
        new_capacity
    }

    /// Grows the capacity if `new_size` elements would not fit, and counts
    /// the array as holding `new_size` elements; the slots from the old
    /// count on are still to be written.
    fn _auto_grow(&mut self, new_size: usize) -> (r: bool)
        requires
            old(self).wf(),
            old(self).len() <= new_size,
            old(self).can_grow_to(new_size as int),
        ensures
            final(self).slots_ok(),
            final(self)@ == old(self)@,
            final(self).other_blocks() == old(self).other_blocks(),
            old(self).grow_fits(new_size as int) ==> r,
            new_size <= old(self).capacity() ==> final(self).same_block(&*old(self)),
            r ==> final(self).len() == new_size,
            r ==> new_size <= final(self).capacity(),
            r ==> final(self).capacity() == old(self).capacity_for(new_size as int),
            !r ==> final(self).unchanged_from(&*old(self)),
    {
        if self.capacity < new_size {
            let c = self._get_grown_capacity(new_size);
            if !self._grow_capacity(c) {
                return false;
            }
        }
        self.size = new_size;
        true
    }

    /// Gives the block back and takes one of `new_capacity` slots, dropping
    /// the elements that no longer fit.
    fn _shrink_capacity(&mut self, new_capacity: usize) -> (r: bool)
        requires
            old(self).slots_ok(),
            new_capacity < old(self).capacity(),
            A::admits(slot_bytes::<T>(new_capacity as int) as usize, align_of::<T>() as usize),
        ensures
            final(self).slots_ok(),
            final(self).len() == old(self).len(),
            final(self).other_blocks() == old(self).other_blocks(),
            r ==> final(self).capacity() == new_capacity,
            A::cost(slot_bytes::<T>(new_capacity as int) as usize, align_of::<T>() as usize)
                <= old(self).allocator().room() ==> r,
            r ==> final(self)@ == if new_capacity < old(self)@.len() {
                old(self)@.take(new_capacity as int)
            } else {
                old(self)@
            },
            !r ==> final(self).unchanged_from(&*old(self)),
    {
        let ghost h0 = self.alloc.heap();
        proof {
            assert(slot_bytes::<T>(new_capacity as int) <= slot_bytes::<T>(self.capacity as int))
                by (nonlinear_arith)
                requires
                    new_capacity < self.capacity,
                    size_of::<T>() >= 0,
            ;
        }
        let sz = core::mem::size_of::<T>();
        let al = core::mem::align_of::<T>();
        let new_data = self.alloc.allocate(new_capacity * sz, al);
        if new_data == 0 {
            return false;
        }
        let ghost old_data = self.data;
        self.alloc.release(self.data, self.capacity * sz, al);
        self.elems.truncate(new_capacity);
        self.data = new_data;
        self.capacity = new_capacity;
        proof {
            assert(self.alloc.heap().remove(new_data) =~= h0.remove(old_data));
        }
        true
    }

    /// Moves the block to one of exactly `len` slots.
    fn _shrink_to_fit(&mut self) -> (r: bool)
        requires
            old(self).wf(),
            old(self).capacity() != old(self)@.len() ==> A::admits(
                slot_bytes::<T>(old(self)@.len() as int) as usize,
                align_of::<T>() as usize,
            ),
        ensures
            final(self).wf(),
            final(self)@ == old(self)@,
            final(self).other_blocks() == old(self).other_blocks(),
            r ==> final(self).capacity() == old(self)@.len(),
            old(self).capacity() == old(self)@.len() ==> r && *final(self) == *old(self),
            old(self).capacity() != old(self)@.len() && A::cost(
                slot_bytes::<T>(old(self)@.len() as int) as usize,
                align_of::<T>() as usize,
            ) <= old(self).allocator().room() ==> r,
            r && old(self).capacity() != old(self)@.len() ==> moved_block(
                old(self).allocator().heap(),
                final(self).allocator().heap(),
                old(self).data_addr(),
                final(self).data_addr(),
                slot_bytes::<T>(old(self)@.len() as int) as usize,
                align_of::<T>() as usize,
            ),
            !r ==> final(self).unchanged_from(&*old(self)),
    {
        let len = self.elems.len();
        if self.capacity == len {
            return true;
        }
        let ghost h0 = self.alloc.heap();
        proof {
            assert(slot_bytes::<T>(len as int) <= slot_bytes::<T>(self.capacity as int))
                by (nonlinear_arith)
                requires
                    len < self.capacity,
                    size_of::<T>() >= 0,
            ;
        }
        let sz = core::mem::size_of::<T>();
        let al = core::mem::align_of::<T>();
        let new_data = self.alloc.realloc(self.data, self.capacity * sz, al, len * sz, al);
        if new_data == 0 {
            return false;
        }
        let ghost old_data = self.data;
        self.data = new_data;
        self.capacity = len;
        proof {
            assert(self.alloc.heap().remove(new_data) =~= h0.remove(old_data));
        }
        true
    }

    /// Makes room for at least `capacity` elements.
    pub fn reserve(&mut self, capacity: usize) -> (r: bool)
        requires
            old(self).wf(),
            capacity > old(self).capacity() ==> slot_bytes::<T>(capacity as int) <= usize::MAX
                && A::admits(slot_bytes::<T>(capacity as int) as usize, align_of::<T>() as usize),
        ensures
            final(self).wf(),
            final(self)@ == old(self)@,
            final(self).other_blocks() == old(self).other_blocks(),
            capacity <= old(self).capacity() ==> r && *final(self) == *old(self),
            capacity > old(self).capacity() && A::cost(
                slot_bytes::<T>(capacity as int) as usize,
                align_of::<T>() as usize,
            ) <= old(self).allocator().room() ==> r,
            r ==> final(self).capacity() == if capacity > old(self).capacity() {
                capacity
            } else {
                old(self).capacity()
            },
            !r ==> final(self).unchanged_from(&*old(self)),
    {
        if self.capacity < capacity {
            return self._grow_capacity(capacity);
        }
        true
    }

    /// Appends `data`; returns the slot it went to, or `None`, leaving the
    /// array as it was, when no memory is left.
    pub fn push_back(&mut self, data: T) -> (r: Option<&mut T>)
        requires
            old(self).wf(),
            old(self).can_grow_to(old(self)@.len() as int + 1),
        ensures
            final(self).wf(),
            final(self).other_blocks() == old(self).other_blocks(),
            old(self).grow_fits(old(self)@.len() as int + 1) ==> r is Some,
            old(self)@.len() < old(self).capacity() ==> final(self).same_block(&*old(self)),
            r is Some ==> {
                &&& *(r->0) == data
                &&& final(self)@ == old(self)@.push(*final(r->0))
                &&& final(self).capacity() == old(self).capacity_for(old(self)@.len() as int + 1)
            },
            r is None ==> final(self).unchanged_from(&*old(self)),
    {
        let size = self.size;
        if !self._auto_grow(size + 1) {
            return None;
        }
        self.elems.push(data);
        Some(&mut self.elems[size])
    }

    /// Puts `data` in front; returns the slot it went to, or `None`, leaving
    /// the array as it was, when no memory is left.
    pub fn push_front(&mut self, data: T) -> (r: Option<&mut T>)
        requires
            old(self).wf(),
            old(self).can_grow_to(old(self)@.len() as int + 1),
        ensures
            final(self).wf(),
            final(self).other_blocks() == old(self).other_blocks(),
            old(self).grow_fits(old(self)@.len() as int + 1) ==> r is Some,
            old(self)@.len() < old(self).capacity() ==> final(self).same_block(&*old(self)),
            r is Some ==> {
                &&& *(r->0) == data
                &&& final(self)@ == seq![*final(r->0)] + old(self)@
                &&& final(self).capacity() == old(self).capacity_for(old(self)@.len() as int + 1)
            },
            r is None ==> final(self).unchanged_from(&*old(self)),
    {
        let size = self.size;
        if !self._auto_grow(size + 1) {
            return None;
        }
        self.elems.insert(0, data);
        proof {
            assert(self.elems@ =~= seq![data] + old(self)@);
        }
        Some(&mut self.elems[0])
    }

    /// Puts `data` at `index`, moving the elements from there one slot on;
    /// returns the slot it went to, or `None`, leaving the array as it was,
    /// when no memory is left.
    pub fn insert(&mut self, index: usize, data: T) -> (r: Option<&mut T>)
        requires
            old(self).wf(),
            index <= old(self)@.len(),
            old(self).can_grow_to(old(self)@.len() as int + 1),
        ensures
            final(self).wf(),
            final(self).other_blocks() == old(self).other_blocks(),
            old(self).grow_fits(old(self)@.len() as int + 1) ==> r is Some,
            old(self)@.len() < old(self).capacity() ==> final(self).same_block(&*old(self)),
            r is Some ==> {
                &&& *(r->0) == data
                &&& final(self)@ == old(self)@.insert(index as int, *final(r->0))
                &&& final(self).capacity() == old(self).capacity_for(old(self)@.len() as int + 1)
            },
            r is None ==> final(self).unchanged_from(&*old(self)),
    {
        let size = self.size;
        if !self._auto_grow(size + 1) {
            return None;
        }
        self.elems.insert(index, data);
        Some(&mut self.elems[index])
    }

    /// Gives back the slots beyond the elements.
    pub fn shrink_to_fit(&mut self) -> (r: bool)
        requires
            old(self).wf(),
            old(self).capacity() != old(self)@.len() ==> A::admits(
                slot_bytes::<T>(old(self)@.len() as int) as usize,
                align_of::<T>() as usize,
            ),
        ensures
            final(self).wf(),
            final(self)@ == old(self)@,
            final(self).other_blocks() == old(self).other_blocks(),
            r ==> final(self).capacity() == old(self)@.len(),
            old(self).capacity() == old(self)@.len() ==> r && *final(self) == *old(self),
            old(self).capacity() != old(self)@.len() && A::cost(
                slot_bytes::<T>(old(self)@.len() as int) as usize,
                align_of::<T>() as usize,
            ) <= old(self).allocator().room() ==> r,
            r && old(self).capacity() != old(self)@.len() ==> moved_block(
                old(self).allocator().heap(),
                final(self).allocator().heap(),
                old(self).data_addr(),
                final(self).data_addr(),
                slot_bytes::<T>(old(self)@.len() as int) as usize,
                align_of::<T>() as usize,
            ),
            !r ==> final(self).unchanged_from(&*old(self)),
    {
        self._shrink_to_fit()
    }

    /// Takes one element off the count: the elements stay in their slots,
    /// so the array keeps its first `len - 1` elements and loses the last.
    pub fn pop_front(&mut self)
        requires
            old(self).wf(),
            old(self)@.len() >= 2,
        ensures
            final(self).wf(),
            final(self)@ == old(self)@.drop_last(),
            final(self).capacity() == old(self).capacity(),
            final(self).data_addr() == old(self).data_addr(),
            final(self).allocator() == old(self).allocator(),
    {
        let _ = self.elems.pop();
        self.size = self.size - 1;
    }

    /// Removes the last element.
    pub fn pop_back(&mut self)
        requires
            old(self).wf(),
            old(self)@.len() > 0,
        ensures
            final(self).wf(),
            final(self)@ == old(self)@.drop_last(),
            final(self).capacity() == old(self).capacity(),
            final(self).data_addr() == old(self).data_addr(),
            final(self).allocator() == old(self).allocator(),
    {
        let _ = self.elems.pop();
        self.size = self.size - 1;
    }

    /// Takes a position of the array and leaves the array as it is.
    pub fn remove(&mut self, position: usize)
        requires
            position <= old(self)@.len(),
        ensures
            *final(self) == *old(self),
    {
    }

    pub fn front_mut(&mut self) -> (r: &mut T)
        requires
            old(self)@.len() > 0,
        ensures
            *r == old(self)@[0],
            final(self)@ == old(self)@.update(0, *final(r)),
            final(self).capacity() == old(self).capacity(),
            final(self).data_addr() == old(self).data_addr(),
            final(self).allocator() == old(self).allocator(),
            old(self).wf() ==> final(self).wf(),
    {
        &mut self.elems[0]
    }

    pub fn back_mut(&mut self) -> (r: &mut T)
        requires
            old(self)@.len() > 0,
        ensures
            *r == old(self)@.last(),
            final(self)@ == old(self)@.update(old(self)@.len() - 1, *final(r)),
            final(self).capacity() == old(self).capacity(),
            final(self).data_addr() == old(self).data_addr(),
            final(self).allocator() == old(self).allocator(),
            old(self).wf() ==> final(self).wf(),
    {
        let index = self.elems.len();
        &mut self.elems[index - 1]
    }

    pub fn front(&self) -> (r: &T)
        requires
            self@.len() > 0,
        ensures
            *r == self@[0],
    {
        &self.elems[0]
    }

    pub fn back(&self) -> (r: &T)
        requires
            self@.len() > 0,
        ensures
            *r == self@.last(),
    {
        let index = self.elems.len();
        &self.elems[index - 1]
    }

    pub fn size(&self) -> (r: usize)
        ensures
            r == self.len(),
            self.wf() ==> r == self@.len(),
    {
        self.size
    }

    /// The address of the block, or 0 when there is none.
    pub fn data(&self) -> (r: usize)
        ensures
            r == self.data_addr(),
    {
        self.data
    }

    /// The address of the block, or 0 when there is none.
    pub fn data_mut(&self) -> (r: usize)
        ensures
            r == self.data_addr(),
    {
        self.data
    }
}

/// `s` cut or filled with `data` to `size` elements.
pub open spec fn resized<T>(s: Seq<T>, size: int, data: T) -> Seq<T> {
    Seq::new(size as nat, |i: int| if i < s.len() { s[i] } else { data })
}

impl<T: Copy, A: Alloc> DynArray<T, A> {
    /// Cuts the array to `size` elements, or fills it up to `size` with
    /// `data`; returns false, leaving the array as it was, when no memory is
    /// left.
    pub fn resize(&mut self, size: usize, data: T) -> (r: bool)
        requires
            old(self).wf(),
            size > old(self).capacity() ==> old(self).can_grow_to(size as int),
            size < old(self)@.len() ==> A::admits(
                slot_bytes::<T>(size as int) as usize,
                align_of::<T>() as usize,
            ),
        ensures
            final(self).wf(),
            final(self).other_blocks() == old(self).other_blocks(),
            old(self)@.len() <= size <= old(self).capacity() ==> r && final(self).same_block(
                &*old(self),
            ),
            size > old(self)@.len() && old(self).grow_fits(size as int) ==> r,
            size < old(self)@.len() && A::cost(
                slot_bytes::<T>(size as int) as usize,
                align_of::<T>() as usize,
            ) <= old(self).allocator().room() ==> r,
            r ==> final(self)@ == resized(old(self)@, size as int, data),
            r ==> final(self).capacity() == if size > old(self)@.len() {
                old(self).capacity_for(size as int)
            } else if size < old(self)@.len() {
                size as int
            } else {
                old(self).capacity() as int
            },
            !r ==> final(self).unchanged_from(&*old(self)),
    {
        let len = self.size;
        if size > len {
            if size > self.capacity {
                if !self._auto_grow(size) {
                    return false;
                }
            }
            self.size = size;
            let ghost s0 = self.elems@;
            let mut i = len;
            while i < size
                invariant
                    self.slots_ok(),
                    self.size == size,
                    len <= i <= size,
                    size <= self.capacity,
                    self.elems@.len() == i,
                    s0 == old(self)@,
                    s0.len() == len,
                    self.elems@ =~= resized(s0, i as int, data),
                    self.other_blocks() == old(self).other_blocks(),
                    self.capacity == old(self).capacity_for(size as int),
                    size <= old(self).capacity() ==> self.same_block(&*old(self)),
                decreases size - i,
            {
                self.elems.push(data);
                i = i + 1;
            }
        } else if size < len {
            if !self._shrink_capacity(size) {
                return false;
            }
            self.size = size;
            assert(self.elems@ =~= resized(old(self)@, size as int, data));
        } else {
            assert(self.elems@ =~= resized(old(self)@, size as int, data));
        }
        true
    }
}

impl<T, A: Alloc> DynArray<T, A> {
    /// An iterator from the first element.
    pub fn begin(&self) -> (r: Iter<'_, T, A>)
        ensures
            r.elements() == self@,
            r.position() == 0,
    {
        Iter::new(self, 0)
    }

    /// An iterator from the first element that hands out the elements to
    /// change.
    pub fn begin_mut(&mut self) -> (r: MutIter<'_, T, A>)
        ensures
            *r.vec == *old(self),
            *final(self) == *final(r.vec),
            r.index == 0,
    {
        MutIter::new(self, 0)
    }

    /// An iterator past the last element.
    pub fn end(&self) -> (r: Iter<'_, T, A>)
        ensures
            r.elements() == self@,
            r.position() == self@.len(),
    {
        let n = self.elems.len();
        Iter::new(self, n)
    }

    /// An iterator past the last element that hands out the elements to
    /// change.
    pub fn end_mut(&mut self) -> (r: MutIter<'_, T, A>)
        ensures
            *r.vec == *old(self),
            *final(self) == *final(r.vec),
            r.index == old(self)@.len(),
    {
        let n = self.elems.len();
        MutIter::new(self, n)
    }
}

/// A position in an array, which hands out its elements in order.
pub struct Iter<'a, T, A: Alloc> {
    vec: &'a DynArray<T, A>,
    index: usize,
}

impl<'a, T, A: Alloc> Iter<'a, T, A> {
    /// The elements of the array it walks.
    pub closed spec fn elements(&self) -> Seq<T> {
        self.vec@
    }

    /// The position of the next element it hands out.
    pub closed spec fn position(&self) -> usize {
        self.index
    }

    pub fn new(vec: &'a DynArray<T, A>, index: usize) -> (r: Self)
        ensures
            r.elements() == vec@,
            r.position() == index,
    {
        Iter { vec: vec, index: index }
    }

    pub fn index_of(&self) -> (r: usize)
        ensures
            r == self.position(),
    {
        self.index
    }

    /// Moves to the next position and hands out the element there, or
    /// `None` past the last element; from the last element there is no next
    /// one to hand out.
    pub fn next(&mut self) -> (r: Option<&'a T>)
        requires
            old(self).position() + 1 != old(self).elements().len(),
        ensures
            final(self).elements() == old(self).elements(),
            old(self).position() < old(self).elements().len() ==> {
                &&& r is Some
                &&& *(r->0) == old(self).elements()[old(self).position() + 1]
                &&& final(self).position() == old(self).position() + 1
            },
            old(self).position() >= old(self).elements().len() ==> r is None && final(self).position() == old(self).position(),
    {
        let v: &'a DynArray<T, A> = self.vec;
        if self.index >= v.elems.len() {
            return None;
        }
        self.index = self.index + 1;
        Some(&v.elems[self.index])
    }
}

/// A position in an array, which hands out its elements in order to change.
pub struct MutIter<'a, T, A: Alloc> {
    pub vec: &'a mut DynArray<T, A>,
    pub index: usize,
}

impl<'a, T, A: Alloc> MutIter<'a, T, A> {
    /// The elements of the array it walks, as they are now.
    pub open spec fn elements(&self) -> Seq<T> {
        self.vec@
    }

    pub fn new(vec: &'a mut DynArray<T, A>, index: usize) -> (r: Self)
        ensures
            *r.vec == *old(vec),
            *final(vec) == *final(r.vec),
            r.index == index,
    {
        MutIter { vec: vec, index: index }
    }

    pub fn index_of(&self) -> (r: usize)
        ensures
            r == self.index,
    {
        self.index
    }

    /// Hands out the element at the position to change and moves past it,
    /// or `None` past the last element.
    pub fn next(&mut self) -> (r: Option<&mut T>)
        ensures
            *final(final(self).vec) == *final(old(self).vec),
            final(self).vec.capacity() == old(self).vec.capacity(),
            final(self).vec.data_addr() == old(self).vec.data_addr(),
            final(self).vec.allocator() == old(self).vec.allocator(),
            old(self).vec.wf() ==> final(self).vec.wf(),
            old(self).index < old(self).elements().len() ==> {
                &&& r is Some
                &&& *(r->0) == old(self).elements()[old(self).index as int]
                &&& final(self).elements() == old(self).elements().update(
                    old(self).index as int,
                    *final(r->0),
                )
                &&& final(self).index == old(self).index + 1
            },
            old(self).index >= old(self).elements().len() ==> r is None && *final(self) == *old(self),
    {
        if self.index >= self.vec.elems.len() {
            return None;
        }
        let k = self.index;
        self.index = k + 1;
        Some(&mut self.vec.elems[k])
    }
}

} // verus!
