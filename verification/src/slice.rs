//! Views over bit regions.
//!
//! A [`BitSlice`] names a region of bits; the storage that holds the bits is
//! handed to each operation. Reading takes the storage shared, writing takes
//! it exclusive. A write changes the bits it names and nothing else, so two
//! views over disjoint regions can be written through in turn without either
//! disturbing the other, even where both reach into the same storage unit.

use crate::bits::{
    count_ones, count_zeros, filled, lemma_count_total, lemma_memory_ext, lemma_reverse_twice,
    lemma_rotate_back, lemma_store_bit, memory_bits, overwrite, rotated_left, rotated_right,
    swapped,
};
use crate::order::BitOrder;
use crate::pointer::{BitPtr, BitPtrError};
use crate::span::{lemma_encode_bound, lemma_len, lemma_locate, lemma_range, BitSpan};
use crate::store::BitStore;
use core::marker::PhantomData;
use vstd::prelude::*;

verus! {

/// A view over a region of bits, read in the bit order `C` from storage
/// units of type `T`.
pub struct BitSlice<C: BitOrder, T: BitStore> {
    ptr: BitPtr<T>,
    _order: PhantomData<C>,
}

impl<C: BitOrder, T: BitStore> Clone for BitSlice<C, T> {
    fn clone(&self) -> (copy: Self)
        ensures
            copy == *self,
    {
        *self
    }
}

impl<C: BitOrder, T: BitStore> Copy for BitSlice<C, T> {

}

impl<C: BitOrder, T: BitStore> View for BitSlice<C, T> {
    type V = BitSpan;

    /// The region that the view names.
    open spec fn view(&self) -> BitSpan {
        self.bitptr()@
    }
}

impl<C: BitOrder, T: BitStore> BitSlice<C, T> {
    /// The descriptor that the view wraps.
    pub closed spec fn bitptr(self) -> BitPtr<T> {
        self.ptr
    }

    /// Whether the view wraps a well-formed descriptor.
    pub open spec fn wf(self) -> bool {
        self.bitptr().wf()
    }

    /// The number of bits in the view.
    pub open spec fn spec_len(self) -> nat {
        self@.len(T::width())
    }

    /// The address of the first bit of the view.
    pub open spec fn start(self) -> int {
        self@.start(T::width()) as int
    }

    /// Whether the view lies inside the storage `mem`.
    pub open spec fn fits(self, mem: Seq<T>) -> bool {
        self@.fits(mem.len())
    }

    /// The bits of the view, read from `mem`.
    pub open spec fn bits(self, mem: Seq<T>) -> Seq<bool> {
        memory_bits::<C, T>(mem).subrange(self.start(), self.start() + self.spec_len())
    }

    /// The bit with index `index`, if the view has one.
    pub open spec fn spec_get(self, mem: Seq<T>, index: int) -> Option<bool> {
        if 0 <= index < self.spec_len() {
            Some(self.bits(mem)[index])
        } else {
            None
        }
    }

    /// Whether `after` is `before` with the bits of the view replaced by
    /// `bits` and every other bit of the storage as it was, so that the view
    /// now reads `bits`.
    pub open spec fn rewritten(self, before: Seq<T>, after: Seq<T>, bits: Seq<bool>) -> bool {
        &&& after.len() == before.len()
        &&& bits.len() == self.spec_len()
        &&& memory_bits::<C, T>(after) == overwrite(
            memory_bits::<C, T>(before),
            self.start(),
            bits,
        )
        &&& self.bits(after) == bits
    }

    /// Whether `left` and `right` are the two halves of the view, cut before
    /// the bit with index `mid`.
    pub open spec fn is_split(self, mid: int, left: Self, right: Self) -> bool {
        &&& left.wf()
        &&& right.wf()
        &&& left@ == self@.range(T::width(), 0, mid as nat)
        &&& right@ == self@.range(T::width(), mid as nat, self.spec_len())
    }

    /// Whether the bit at `address` belongs to the view.
    pub open spec fn covers(self, address: int) -> bool {
        self@.covers(T::width(), address)
    }

    /// Whether the view and `other` have no bit in common.
    pub open spec fn disjoint(self, other: Self) -> bool {
        forall|address: int| !(self.covers(address) && other.covers(address))
    }

    /// A view inside a storage names bits of that storage: its addresses are
    /// addresses of `mem`, and its bit `i` is the bit of `mem` at `start + i`.
    pub proof fn lemma_in_memory(self, mem: Seq<T>)
        requires
            self.wf(),
            self.fits(mem),
        ensures
            0 <= self.start(),
            self.start() + self.spec_len() <= mem.len() * T::width(),
            self.bits(mem).len() == self.spec_len(),
            forall|i: int|
                0 <= i < self.spec_len() ==> #[trigger] self.bits(mem)[i] == memory_bits::<C, T>(
                    mem,
                )[self.start() + i],
    {
        let width = T::width();
        T::lemma_width();
        let span = self@;
        if span.elements != 0 {
            lemma_len(span, width);
            assert(span.start(width) + span.len(width) <= mem.len() * width) by (nonlinear_arith)
                requires
                    span.start(width) == span.ptr * width + span.head,
                    span.len(width) == (span.elements - 1) * width - span.head + span.tail,
                    span.tail <= width,
                    span.ptr + span.elements <= mem.len(),
            {
            }
        } else {
            assert(mem.len() * width >= 0) by (nonlinear_arith)
                requires
                    mem.len() >= 0,
                    width >= 0,
            {
            }
        }
    }

    /// A view names the bits it was made for: where the bits of a storage at
    /// the addresses of the view are replaced, the view reads the bits that
    /// were put there.
    pub proof fn lemma_rewrite(self, before: Seq<T>, after: Seq<T>, bits: Seq<bool>)
        requires
            self.wf(),
            self.fits(before),
            after.len() == before.len(),
            bits.len() == self.spec_len(),
            memory_bits::<C, T>(after) == overwrite(
                memory_bits::<C, T>(before),
                self.start(),
                bits,
            ),
        ensures
            self.rewritten(before, after, bits),
    {
        self.lemma_in_memory(before);
        self.lemma_in_memory(after);
        assert(self.bits(after) =~= bits);
    }

    /// A storage is itself with the bits of any view replaced by themselves.
    pub proof fn lemma_rewritten_same(self, mem: Seq<T>)
        requires
            self.wf(),
            self.fits(mem),
        ensures
            self.rewritten(mem, mem, self.bits(mem)),
    {
        self.lemma_in_memory(mem);
        assert(memory_bits::<C, T>(mem) =~= overwrite(
            memory_bits::<C, T>(mem),
            self.start(),
            self.bits(mem),
        ));
    }

    /// A rewrite that puts back the bits that were there changes nothing.
    pub proof fn lemma_rewritten_unchanged(self, before: Seq<T>, after: Seq<T>)
        requires
            self.wf(),
            self.fits(before),
            self.rewritten(before, after, self.bits(before)),
        ensures
            after == before,
    {
        self.lemma_rewritten_same(before);
        lemma_memory_ext::<C, T>(after, before);
    }

    /// Two rewrites of one view in a row amount to the second.
    pub proof fn lemma_rewritten_twice(
        self,
        first: Seq<T>,
        second: Seq<T>,
        third: Seq<T>,
        bits: Seq<bool>,
        last: Seq<bool>,
    )
        requires
            self.wf(),
            self.fits(first),
            self.rewritten(first, second, bits),
            self.rewritten(second, third, last),
        ensures
            self.rewritten(first, third, last),
    {
        self.lemma_in_memory(first);
        assert(memory_bits::<C, T>(third) =~= overwrite(
            memory_bits::<C, T>(first),
            self.start(),
            last,
        ));
    }

    /// Writing through one view leaves every bit outside it as it was, and so
    /// every view that has no bit in common with it reads what it read
    /// before.
    pub proof fn lemma_rewritten_isolated(
        self,
        other: Self,
        before: Seq<T>,
        after: Seq<T>,
        bits: Seq<bool>,
    )
        requires
            self.wf(),
            self.fits(before),
            self.rewritten(before, after, bits),
            other.wf(),
            other.fits(before),
            self.disjoint(other),
        ensures
            other.fits(after),
            other.bits(after) == other.bits(before),
            forall|address: int|
                0 <= address < before.len() * T::width() && !self.covers(address)
                    ==> #[trigger] memory_bits::<C, T>(after)[address] == memory_bits::<C, T>(
                    before,
                )[address],
    {
        self.lemma_in_memory(before);
        other.lemma_in_memory(before);
        other.lemma_in_memory(after);
        assert forall|i: int| 0 <= i < other.spec_len() implies other.bits(after)[i] == other.bits(
            before,
        )[i] by {
            assert(other.covers(other.start() + i));
            assert(!self.covers(other.start() + i));
        }
        assert(other.bits(after) =~= other.bits(before));
    }

    /// A range of a view is a view over part of the same bits.
    pub proof fn lemma_range_bits(self, part: Self, from: nat, to: nat, mem: Seq<T>)
        requires
            self.wf(),
            self.fits(mem),
            from <= to <= self.spec_len(),
            part@ == self@.range(T::width(), from, to),
        ensures
            part.spec_len() == to - from,
            from < to ==> part.start() == self.start() + from,
            part.fits(mem),
            part.bits(mem) == self.bits(mem).subrange(from as int, to as int),
    {
        T::lemma_width();
        self.lemma_in_memory(mem);
        if from < to {
            lemma_range(self@, T::width(), from, to);
            part.lemma_range_in_memory(mem);
        }
        assert(part.bits(mem) =~= self.bits(mem).subrange(from as int, to as int));
    }

    /// What `lemma_in_memory` states, for a view that is only known by its
    /// region.
    proof fn lemma_range_in_memory(self, mem: Seq<T>)
        requires
            self@.is_region(T::width()),
            self@.fits(mem.len()),
        ensures
            0 <= self.start(),
            self.start() + self.spec_len() <= mem.len() * T::width(),
    {
        let width = T::width();
        let span = self@;
        T::lemma_width();
        lemma_len(span, width);
        assert(span.start(width) + span.len(width) <= mem.len() * width) by (nonlinear_arith)
            requires
                span.start(width) == span.ptr * width + span.head,
                span.len(width) == (span.elements - 1) * width - span.head + span.tail,
                span.tail <= width,
                span.ptr + span.elements <= mem.len(),
        {
        }
    }

    /// A rewrite of a range of a view is a rewrite of the view: the bits of
    /// the range change, the others stay.
    pub proof fn lemma_rewritten_part(
        self,
        part: Self,
        from: nat,
        to: nat,
        before: Seq<T>,
        after: Seq<T>,
        bits: Seq<bool>,
    )
        requires
            self.wf(),
            self.fits(before),
            from <= to <= self.spec_len(),
            part@ == self@.range(T::width(), from, to),
            part.rewritten(before, after, bits),
        ensures
            self.rewritten(before, after, overwrite(self.bits(before), from as int, bits)),
    {
        self.lemma_in_memory(before);
        self.lemma_range_bits(part, from, to, before);
        assert(memory_bits::<C, T>(after) =~= overwrite(
            memory_bits::<C, T>(before),
            self.start(),
            overwrite(self.bits(before), from as int, bits),
        ));
        self.lemma_rewrite(before, after, overwrite(self.bits(before), from as int, bits));
    }

    /// The two halves of a split divide the addresses of the view between
    /// them: each address of the view belongs to exactly one half.
    pub proof fn lemma_split_regions(self, mid: int, left: Self, right: Self)
        requires
            self.wf(),
            0 <= mid <= self.spec_len(),
            self.is_split(mid, left, right),
        ensures
            left.spec_len() == mid,
            right.spec_len() == self.spec_len() - mid,
            left.disjoint(right),
            forall|address: int|
                self.covers(address) <==> left.covers(address) || right.covers(address),
            forall|mem: Seq<T>| self.fits(mem) ==> left.fits(mem) && right.fits(mem),
    {
        T::lemma_width();
        if 0 < mid {
            lemma_range(self@, T::width(), 0, mid as nat);
        }
        if mid < self.spec_len() {
            lemma_range(self@, T::width(), mid as nat, self.spec_len());
        }
    }

    /// The two halves of a split hold the bits of the view between them, each
    /// bit in exactly one half and at the index that the cut leaves it.
    pub proof fn lemma_split(self, mid: int, left: Self, right: Self, mem: Seq<T>)
        requires
            self.wf(),
            self.fits(mem),
            0 <= mid <= self.spec_len(),
            self.is_split(mid, left, right),
        ensures
            left.spec_len() == mid,
            right.spec_len() == self.spec_len() - mid,
            left.fits(mem),
            right.fits(mem),
            left.bits(mem) == self.bits(mem).take(mid),
            right.bits(mem) == self.bits(mem).skip(mid),
            self.bits(mem) == left.bits(mem) + right.bits(mem),
            forall|i: int|
                0 <= i < self.spec_len() ==> #[trigger] self.spec_get(mem, i) == (if i < mid {
                    left.spec_get(mem, i)
                } else {
                    right.spec_get(mem, i - mid)
                }),
            left.disjoint(right),
            forall|address: int|
                self.covers(address) <==> left.covers(address) || right.covers(address),
    {
        self.lemma_range_bits(left, 0, mid as nat, mem);
        self.lemma_range_bits(right, mid as nat, self.spec_len(), mem);
        self.lemma_in_memory(mem);
        assert(self.bits(mem) =~= left.bits(mem) + right.bits(mem));
    }

    /// Writing one bit through a view changes that bit of the storage and no
    /// other: whatever view reads the storage afterwards, overlapping or
    /// not, finds every other bit as it was.
    pub proof fn lemma_set_isolated(
        self,
        other: Self,
        before: Seq<T>,
        after: Seq<T>,
        index: int,
        value: bool,
    )
        requires
            self.wf(),
            self.fits(before),
            0 <= index < self.spec_len(),
            self.rewritten(before, after, self.bits(before).update(index, value)),
            other.wf(),
            other.fits(before),
        ensures
            memory_bits::<C, T>(after) == memory_bits::<C, T>(before).update(
                self.start() + index,
                value,
            ),
            other.fits(after),
            forall|i: int|
                0 <= i < other.spec_len() && other.start() + i != self.start() + index
                    ==> #[trigger] other.bits(after)[i] == other.bits(before)[i],
            forall|i: int|
                0 <= i < other.spec_len() && other.start() + i == self.start() + index
                    ==> #[trigger] other.bits(after)[i] == value,
    {
        self.lemma_in_memory(before);
        other.lemma_in_memory(before);
        other.lemma_in_memory(after);
        assert(memory_bits::<C, T>(after) =~= memory_bits::<C, T>(before).update(
            self.start() + index,
            value,
        ));
    }

    /// Setting every bit to one value twice is setting it once.
    pub proof fn lemma_set_all_twice(
        self,
        first: Seq<T>,
        second: Seq<T>,
        third: Seq<T>,
        value: bool,
    )
        requires
            self.wf(),
            self.fits(first),
            self.rewritten(first, second, filled(self.spec_len(), value)),
            self.rewritten(second, third, filled(self.spec_len(), value)),
        ensures
            third == second,
    {
        self.lemma_rewritten_unchanged(second, third);
    }

    /// Reversing a view twice leaves the storage as it was.
    pub proof fn lemma_reverse_twice(self, first: Seq<T>, second: Seq<T>, third: Seq<T>)
        requires
            self.wf(),
            self.fits(first),
            self.rewritten(first, second, self.bits(first).reverse()),
            self.rewritten(second, third, self.bits(second).reverse()),
        ensures
            third == first,
    {
        lemma_reverse_twice(self.bits(first));
        self.lemma_rewritten_twice(
            first,
            second,
            third,
            self.bits(first).reverse(),
            self.bits(first),
        );
        self.lemma_rewritten_unchanged(first, third);
    }

    /// Rotating a view to the right and then as far to the left leaves the
    /// storage as it was.
    pub proof fn lemma_rotate_back(
        self,
        first: Seq<T>,
        second: Seq<T>,
        third: Seq<T>,
        by: int,
    )
        requires
            self.wf(),
            self.fits(first),
            0 <= by <= self.spec_len(),
            self.rewritten(first, second, rotated_right(self.bits(first), by)),
            self.rewritten(second, third, rotated_left(self.bits(second), by)),
        ensures
            third == first,
    {
        self.lemma_in_memory(first);
        lemma_rotate_back(self.bits(first), by);
        self.lemma_rewritten_twice(
            first,
            second,
            third,
            rotated_right(self.bits(first), by),
            self.bits(first),
        );
        self.lemma_rewritten_unchanged(first, third);
    }

    /// The empty view.
    pub fn empty() -> (view: Self)
        ensures
            view.wf(),
            view@ == BitSpan::empty(),
            view.spec_len() == 0,
    {
        BitSlice { ptr: BitPtr::empty(), _order: PhantomData }
    }

    /// The view over the region that `ptr` describes.
    pub fn from_bitptr(ptr: BitPtr<T>) -> (view: Self)
        ensures
            view.bitptr() == ptr,
    {
        BitSlice { ptr, _order: PhantomData }
    }

    /// The descriptor of the region that the view names.
    pub fn as_bitptr(&self) -> (ptr: BitPtr<T>)
        ensures
            ptr == self.bitptr(),
    {
        self.ptr
    }

    /// The view over `elements` whole units, the first of which is the unit
    /// with index `ptr`. Refused when `elements` is above the capacity of a
    /// descriptor; empty when `elements` is zero.
    pub fn from_span(ptr: usize, elements: usize) -> (made: Result<Self, BitPtrError>)
        ensures
            match made {
                Ok(view) => {
                    &&& view.wf()
                    &&& BitPtr::<T>::encode_spec(ptr as nat, elements as nat, 0, T::width())
                        == Ok::<BitSpan, BitPtrError>(view@)
                },
                Err(reason) => BitPtr::<T>::encode_spec(ptr as nat, elements as nat, 0, T::width())
                    == Err::<BitSpan, BitPtrError>(reason),
            },
    {
        Self::from_span_partial(ptr, elements, 0, T::bits())
    }

    /// The view over the region that starts at the bit `head` of the unit
    /// with index `ptr`, touches `elements` units and ends before the bit
    /// `tail` of the last of them. Refused as `BitPtr::encode` refuses.
    pub fn from_span_partial(ptr: usize, elements: usize, head: u8, tail: u8) -> (made: Result<
        Self,
        BitPtrError,
    >)
        ensures
            match made {
                Ok(view) => {
                    &&& view.wf()
                    &&& BitPtr::<T>::encode_spec(
                        ptr as nat,
                        elements as nat,
                        head as nat,
                        tail as nat,
                    ) == Ok::<BitSpan, BitPtrError>(view@)
                },
                Err(reason) => BitPtr::<T>::encode_spec(
                    ptr as nat,
                    elements as nat,
                    head as nat,
                    tail as nat,
                ) == Err::<BitSpan, BitPtrError>(reason),
            },
    {
        match BitPtr::encode(ptr, elements, head, tail) {
            Ok(ptr) => Ok(BitSlice { ptr, _order: PhantomData }),
            Err(reason) => Err(reason),
        }
    }

    /// The number of bits in the view.
    pub fn len(&self) -> (len: usize)
        requires
            self.wf(),
        ensures
            len as nat == self.spec_len(),
    {
        self.ptr.len()
    }

    /// Whether the view holds no bit.
    pub fn is_empty(&self) -> (empty: bool)
        requires
            self.wf(),
        ensures
            empty <==> self.spec_len() == 0,
            empty <==> self@ == BitSpan::empty(),
    {
        proof {
            T::lemma_width();
            if self@.elements != 0 {
                lemma_len(self@, T::width());
            }
        }
        self.ptr.is_empty()
    }

    /// The index of the first storage unit of the region; zero for the empty
    /// view.
    pub fn as_ptr(&self) -> (ptr: usize)
        requires
            self.wf(),
        ensures
            ptr as nat == self@.ptr,
    {
        self.ptr.pointer()
    }

    /// Whether the view lies inside a storage of `units` units.
    pub fn fits_in(&self, units: usize) -> (inside: bool)
        requires
            self.wf(),
        ensures
            inside == self@.fits(units as nat),
    {
        self.ptr.fits(units)
    }

    /// Where the bit with index `index` lives: the index of its unit and its
    /// physical position in that unit.
    fn locate(&self, index: usize) -> (place: (usize, u8))
        requires
            self.wf(),
            index < self.spec_len(),
        ensures
            place.0 as int == (self.start() + index) / T::width() as int,
            place.1 as nat == C::position(
                ((self.start() + index) % T::width() as int) as nat,
                T::width(),
            ),
            (place.1 as nat) < T::width(),
            self@.ptr <= place.0 < self@.ptr + self@.elements,
    {
        let (ptr, elements, head, _) = self.ptr.decode();
        let width: u8 = T::bits();
        proof {
            T::lemma_width();
            lemma_locate(self@, T::width(), index as nat);
            lemma_encode_bound(self@, T::width());
        }
        let offset: usize = head as usize + index;
        let unit: usize = offset / (width as usize);
        let bit: u8 = (offset % (width as usize)) as u8;
        (ptr + unit, C::at(bit, width))
    }

    /// Reads the bit with index `index`; `None` when the view has no such
    /// bit.
    pub fn get(&self, mem: &[T], index: usize) -> (bit: Option<bool>)
        requires
            self.wf(),
            self.fits(mem@),
        ensures
            bit == self.spec_get(mem@, index as int),
    {
        if index >= self.len() {
            return None;
        }
        let (unit, position) = self.locate(index);
        proof {
            self.lemma_in_memory(mem@);
        }
        Some(mem[unit].load(position))
    }

    /// Writes `value` to the bit with index `index` and to no other bit of
    /// the storage. Does nothing when the view has no such bit.
    pub fn set(&self, mem: &mut [T], index: usize, value: bool)
        requires
            self.wf(),
            self.fits(old(mem)@),
        ensures
            index < self.spec_len() ==> self.rewritten(
                old(mem)@,
                final(mem)@,
                self.bits(old(mem)@).update(index as int, value),
            ),
            index >= self.spec_len() ==> final(mem)@ == old(mem)@,
    {
        if index >= self.len() {
            return ;
        }
        let (unit, position) = self.locate(index);
        let stored: T = mem[unit].store(position, value);
        proof {
            T::lemma_width();
            self.lemma_in_memory(mem@);
            let address = self.start() + index;
            crate::bits::lemma_address_in_memory(address, mem@.len() as int, T::width() as int);
            lemma_store_bit::<C, T>(
                mem@,
                unit as int,
                (address % T::width() as int) as nat,
                stored,
                value,
            );
            assert(memory_bits::<C, T>(mem@).update(address, value) =~= overwrite(
                memory_bits::<C, T>(mem@),
                self.start(),
                self.bits(mem@).update(index as int, value),
            ));
            self.lemma_rewrite(
                mem@,
                mem@.update(unit as int, stored),
                self.bits(mem@).update(index as int, value),
            );
        }
        mem[unit] = stored;
    }
    /// The view over the bits `from..to` of this view.
    pub fn range(&self, from: usize, to: usize) -> (part: Self)
        requires
            self.wf(),
            from <= to <= self.spec_len(),
        ensures
            part.wf(),
            part@ == self@.range(T::width(), from as nat, to as nat),
    {
        if from == to {
            return Self::empty();
        }
        let (ptr, elements, head, _) = self.ptr.decode();
        let width: usize = T::bits() as usize;
        proof {
            T::lemma_width();
            lemma_encode_bound(self@, T::width());
            lemma_range(self@, T::width(), from as nat, to as nat);
        }
        let low: usize = head as usize + from;
        let high: usize = head as usize + to - 1;
        let first: usize = low / width;
        let last: usize = high / width;
        let made = BitPtr::<T>::encode(
            ptr + first,
            last - first + 1,
            (low % width) as u8,
            (high % width) as u8 + 1,
        );
        BitSlice { ptr: made.unwrap(), _order: PhantomData }
    }

    /// Reads the first bit; `None` when the view is empty.
    pub fn first(&self, mem: &[T]) -> (bit: Option<bool>)
        requires
            self.wf(),
            self.fits(mem@),
        ensures
            bit == self.spec_get(mem@, 0),
    {
        self.get(mem, 0)
    }

    /// Reads the last bit; `None` when the view is empty.
    pub fn last(&self, mem: &[T]) -> (bit: Option<bool>)
        requires
            self.wf(),
            self.fits(mem@),
        ensures
            bit == self.spec_get(mem@, self.spec_len() - 1),
    {
        let len = self.len();
        if len == 0 {
            None
        } else {
            self.get(mem, len - 1)
        }
    }

    /// Reads the first bit and gives the view over the rest; `None` when the
    /// view is empty.
    pub fn split_first(&self, mem: &[T]) -> (split: Option<(bool, Self)>)
        requires
            self.wf(),
            self.fits(mem@),
        ensures
            match split {
                Some((bit, rest)) => {
                    &&& self.spec_len() > 0
                    &&& bit == self.bits(mem@)[0]
                    &&& rest.wf()
                    &&& rest@ == self@.range(T::width(), 1, self.spec_len())
                },
                None => self.spec_len() == 0,
            },
    {
        match self.get(mem, 0) {
            Some(bit) => Some((bit, self.range(1, self.len()))),
            None => None,
        }
    }

    /// Reads the last bit and gives the view over the rest; `None` when the
    /// view is empty.
    pub fn split_last(&self, mem: &[T]) -> (split: Option<(bool, Self)>)
        requires
            self.wf(),
            self.fits(mem@),
        ensures
            match split {
                Some((bit, rest)) => {
                    &&& self.spec_len() > 0
                    &&& bit == self.bits(mem@)[self.spec_len() - 1]
                    &&& rest.wf()
                    &&& rest@ == self@.range(T::width(), 0, (self.spec_len() - 1) as nat)
                },
                None => self.spec_len() == 0,
            },
    {
        let len = self.len();
        if len == 0 {
            return None;
        }
        match self.get(mem, len - 1) {
            Some(bit) => Some((bit, self.range(0, len - 1))),
            None => None,
        }
    }

    /// Cuts the view before the bit with index `mid` into the view over the
    /// bits before it and the view over the bits from it on. `None` when
    /// `mid` is above the length.
    ///
    /// The halves have no bit in common, though they may reach into the same
    /// storage unit.
    pub fn split_at(&self, mid: usize) -> (halves: Option<(Self, Self)>)
        requires
            self.wf(),
        ensures
            match halves {
                Some((left, right)) => {
                    &&& mid <= self.spec_len()
                    &&& self.is_split(mid as int, left, right)
                    &&& left.spec_len() == mid
                    &&& right.spec_len() == self.spec_len() - mid
                    &&& left.disjoint(right)
                },
                None => mid > self.spec_len(),
            },
    {
        let len = self.len();
        if mid > len {
            return None;
        }
        let left = self.range(0, mid);
        let right = self.range(mid, len);
        proof {
            self.lemma_split_regions(mid as int, left, right);
        }
        Some((left, right))
    }
    /// Reads the bit with index `index` of a view that has one.
    pub(crate) fn read(&self, mem: &[T], index: usize) -> (bit: bool)
        requires
            self.wf(),
            self.fits(mem@),
            index < self.spec_len(),
        ensures
            bit == self.bits(mem@)[index as int],
    {
        let (unit, position) = self.locate(index);
        proof {
            self.lemma_in_memory(mem@);
        }
        mem[unit].load(position)
    }

    /// Exchanges the bits with the indices `a` and `b`. Does nothing when
    /// the view lacks either.
    pub fn swap(&self, mem: &mut [T], a: usize, b: usize)
        requires
            self.wf(),
            self.fits(old(mem)@),
        ensures
            a < self.spec_len() && b < self.spec_len() ==> self.rewritten(
                old(mem)@,
                final(mem)@,
                swapped(self.bits(old(mem)@), a as int, b as int),
            ),
            !(a < self.spec_len() && b < self.spec_len()) ==> final(mem)@ == old(mem)@,
    {
        let len = self.len();
        if a >= len || b >= len {
            return ;
        }
        let ghost before = mem@;
        let at_a = self.read(mem, a);
        let at_b = self.read(mem, b);
        self.set(mem, a, at_b);
        let ghost between = mem@;
        self.set(mem, b, at_a);
        proof {
            self.lemma_rewritten_twice(
                before,
                between,
                mem@,
                self.bits(before).update(a as int, at_b),
                swapped(self.bits(before), a as int, b as int),
            );
        }
    }

    /// `bits` with its first `done` bits and its last `done` bits exchanged
    /// end for end.
    spec fn ends_reversed(bits: Seq<bool>, done: int) -> Seq<bool> {
        Seq::new(
            bits.len(),
            |i: int|
                if i < done || i >= bits.len() - done {
                    bits[bits.len() - 1 - i]
                } else {
                    bits[i]
                },
        )
    }

    /// Puts the bits of the view in the opposite order.
    pub fn reverse(&self, mem: &mut [T])
        requires
            self.wf(),
            self.fits(old(mem)@),
        ensures
            self.rewritten(old(mem)@, final(mem)@, self.bits(old(mem)@).reverse()),
    {
        let len = self.len();
        let ghost before = mem@;
        let ghost bits = self.bits(before);
        let mut low: usize = 0;
        let mut high: usize = len;
        proof {
            self.lemma_in_memory(before);
            self.lemma_rewritten_same(before);
            assert(Self::ends_reversed(bits, 0) =~= bits);
        }
        while low + 1 < high
            invariant
                self.wf(),
                self.fits(before),
                self.fits(mem@),
                bits == self.bits(before),
                bits.len() == len,
                len == self.spec_len(),
                low <= high <= len,
                low + high == len,
                self.rewritten(before, mem@, Self::ends_reversed(bits, low as int)),
            decreases high - low,
        {
            let ghost entry = mem@;
            self.swap(mem, low, high - 1);
            proof {
                assert(swapped(Self::ends_reversed(bits, low as int), low as int, high - 1)
                    =~= Self::ends_reversed(bits, low + 1));
                self.lemma_rewritten_twice(
                    before,
                    entry,
                    mem@,
                    Self::ends_reversed(bits, low as int),
                    Self::ends_reversed(bits, low + 1),
                );
            }
            low = low + 1;
            high = high - 1;
        }
        proof {
            assert(Self::ends_reversed(bits, low as int) =~= bits.reverse());
        }
    }

    /// Sets every bit of the view to `value`, and no bit outside it.
    pub fn set_all(&self, mem: &mut [T], value: bool)
        requires
            self.wf(),
            self.fits(old(mem)@),
        ensures
            self.rewritten(old(mem)@, final(mem)@, filled(self.spec_len(), value)),
    {
        let len = self.len();
        let ghost before = mem@;
        let ghost bits = self.bits(before);
        let mut index: usize = 0;
        proof {
            self.lemma_in_memory(before);
            self.lemma_rewritten_same(before);
            assert(overwrite(bits, 0, filled(0, value)) =~= bits);
        }
        while index < len
            invariant
                self.wf(),
                self.fits(before),
                self.fits(mem@),
                bits == self.bits(before),
                bits.len() == len,
                len == self.spec_len(),
                index <= len,
                self.rewritten(before, mem@, overwrite(bits, 0, filled(index as nat, value))),
            decreases len - index,
        {
            let ghost entry = mem@;
            let ghost so_far = overwrite(bits, 0, filled(index as nat, value));
            self.set(mem, index, value);
            proof {
                let next = overwrite(bits, 0, filled((index + 1) as nat, value));
                assert(so_far.update(index as int, value) =~= next);
                self.lemma_rewritten_twice(before, entry, mem@, so_far, next);
            }
            index = index + 1;
        }
        proof {
            assert(overwrite(bits, 0, filled(len as nat, value)) =~= filled(
                self.spec_len(),
                value,
            ));
        }
    }

    /// Whether every bit of the view is set. True of the empty view.
    pub fn all(&self, mem: &[T]) -> (all: bool)
        requires
            self.wf(),
            self.fits(mem@),
        ensures
            all <==> (forall|i: int| 0 <= i < self.spec_len() ==> self.bits(mem@)[i]),
    {
        let len = self.len();
        let mut index: usize = 0;
        while index < len
            invariant
                self.wf(),
                self.fits(mem@),
                len == self.spec_len(),
                index <= len,
                forall|i: int| 0 <= i < index ==> self.bits(mem@)[i],
            decreases len - index,
        {
            if !self.read(mem, index) {
                return false;
            }
            index = index + 1;
        }
        true
    }

    /// Whether some bit of the view is set. False of the empty view.
    pub fn any(&self, mem: &[T]) -> (any: bool)
        requires
            self.wf(),
            self.fits(mem@),
        ensures
            any <==> (exists|i: int| 0 <= i < self.spec_len() && self.bits(mem@)[i]),
    {
        let len = self.len();
        let mut index: usize = 0;
        while index < len
            invariant
                self.wf(),
                self.fits(mem@),
                len == self.spec_len(),
                index <= len,
                forall|i: int| 0 <= i < index ==> !self.bits(mem@)[i],
            decreases len - index,
        {
            if self.read(mem, index) {
                return true;
            }
            index = index + 1;
        }
        false
    }

    /// Whether some bit of the view is clear. False of the empty view.
    pub fn not_all(&self, mem: &[T]) -> (not_all: bool)
        requires
            self.wf(),
            self.fits(mem@),
        ensures
            not_all <==> (exists|i: int| 0 <= i < self.spec_len() && !self.bits(mem@)[i]),
    {
        !self.all(mem)
    }

    /// Whether every bit of the view is clear. True of the empty view.
    pub fn not_any(&self, mem: &[T]) -> (not_any: bool)
        requires
            self.wf(),
            self.fits(mem@),
        ensures
            not_any <==> (forall|i: int| 0 <= i < self.spec_len() ==> !self.bits(mem@)[i]),
    {
        !self.any(mem)
    }

    /// Whether the view holds both a set bit and a clear bit.
    pub fn some(&self, mem: &[T]) -> (some: bool)
        requires
            self.wf(),
            self.fits(mem@),
        ensures
            some <==> (exists|i: int| 0 <= i < self.spec_len() && self.bits(mem@)[i]) && (exists|
                i: int,
            |
                0 <= i < self.spec_len() && !self.bits(mem@)[i]),
    {
        self.any(mem) && !self.all(mem)
    }

    /// The number of set bits in the view.
    pub fn count_ones(&self, mem: &[T]) -> (ones: usize)
        requires
            self.wf(),
            self.fits(mem@),
        ensures
            ones as nat == count_ones(self.bits(mem@)),
    {
        let len = self.len();
        let ghost bits = self.bits(mem@);
        let mut ones: usize = 0;
        let mut index: usize = 0;
        proof {
            self.lemma_in_memory(mem@);
        }
        while index < len
            invariant
                self.wf(),
                self.fits(mem@),
                bits == self.bits(mem@),
                bits.len() == len,
                len == self.spec_len(),
                index <= len,
                ones <= index,
                ones as nat == count_ones(bits.take(index as int)),
            decreases len - index,
        {
            let bit = self.read(mem, index);
            proof {
                assert(bits.take(index + 1).drop_last() =~= bits.take(index as int));
            }
            if bit {
                ones = ones + 1;
            }
            index = index + 1;
        }
        proof {
            assert(bits.take(len as int) =~= bits);
        }
        ones
    }

    /// The number of clear bits in the view.
    pub fn count_zeros(&self, mem: &[T]) -> (zeros: usize)
        requires
            self.wf(),
            self.fits(mem@),
        ensures
            zeros as nat == count_zeros(self.bits(mem@)),
    {
        proof {
            self.lemma_in_memory(mem@);
            lemma_count_total(self.bits(mem@));
        }
        self.len() - self.count_ones(mem)
    }
    /// Moves the bits of the view `by` places towards the front; the first
    /// `by` bits follow the others. Does nothing when `by` is above the
    /// length.
    pub fn rotate_left(&self, mem: &mut [T], by: usize)
        requires
            self.wf(),
            self.fits(old(mem)@),
        ensures
            by <= self.spec_len() ==> self.rewritten(
                old(mem)@,
                final(mem)@,
                rotated_left(self.bits(old(mem)@), by as int),
            ),
            by > self.spec_len() ==> final(mem)@ == old(mem)@,
    {
        let len = self.len();
        if by > len {
            return ;
        }
        let ghost before = mem@;
        let ghost bits = self.bits(before);
        let front = self.range(0, by);
        let back = self.range(by, len);
        proof {
            self.lemma_in_memory(before);
            self.lemma_range_bits(front, 0, by as nat, before);
        }
        front.reverse(mem);
        let ghost second = mem@;
        let ghost second_bits = bits.take(by as int).reverse() + bits.skip(by as int);
        proof {
            self.lemma_rewritten_part(
                front,
                0,
                by as nat,
                before,
                second,
                bits.take(by as int).reverse(),
            );
            assert(overwrite(bits, 0, bits.take(by as int).reverse()) =~= second_bits);
            self.lemma_range_bits(back, by as nat, len as nat, second);
            assert(second_bits.subrange(by as int, len as int) =~= bits.skip(by as int));
        }
        back.reverse(mem);
        let ghost third = mem@;
        let ghost third_bits = bits.take(by as int).reverse() + bits.skip(by as int).reverse();
        proof {
            self.lemma_rewritten_part(
                back,
                by as nat,
                len as nat,
                second,
                third,
                bits.skip(by as int).reverse(),
            );
            assert(overwrite(second_bits, by as int, bits.skip(by as int).reverse())
                =~= third_bits);
            self.lemma_rewritten_twice(before, second, third, second_bits, third_bits);
        }
        self.reverse(mem);
        proof {
            assert(third_bits.reverse() =~= rotated_left(bits, by as int));
            self.lemma_rewritten_twice(
                before,
                third,
                mem@,
                third_bits,
                rotated_left(bits, by as int),
            );
        }
    }

    /// Moves the bits of the view `by` places towards the back; the last
    /// `by` bits go before the others. Does nothing when `by` is above the
    /// length.
    pub fn rotate_right(&self, mem: &mut [T], by: usize)
        requires
            self.wf(),
            self.fits(old(mem)@),
        ensures
            by <= self.spec_len() ==> self.rewritten(
                old(mem)@,
                final(mem)@,
                rotated_right(self.bits(old(mem)@), by as int),
            ),
            by > self.spec_len() ==> final(mem)@ == old(mem)@,
    {
        let len = self.len();
        if by > len {
            return ;
        }
        proof {
            self.lemma_in_memory(mem@);
        }
        self.rotate_left(mem, len - by);
    }

    /// Visits the bits in ascending order of index and replaces each by what
    /// `visit` answers for its index and its value.
    pub fn for_each<F: Fn(usize, bool) -> bool>(&self, mem: &mut [T], visit: F)
        requires
            self.wf(),
            self.fits(old(mem)@),
            forall|index: usize, bit: bool|
                index < self.spec_len() ==> call_requires(visit, (index, bit)),
        ensures
            self.rewritten(old(mem)@, final(mem)@, self.bits(final(mem)@)),
            forall|i: int|
                0 <= i < self.spec_len() ==> call_ensures(
                    visit,
                    (i as usize, self.bits(old(mem)@)[i]),
                    #[trigger] self.bits(final(mem)@)[i],
                ),
    {
        let len = self.len();
        let ghost before = mem@;
        let ghost bits = self.bits(before);
        let mut index: usize = 0;
        proof {
            self.lemma_in_memory(before);
            self.lemma_rewritten_same(before);
        }
        while index < len
            invariant
                self.wf(),
                self.fits(before),
                self.fits(mem@),
                bits == self.bits(before),
                bits.len() == len,
                len == self.spec_len(),
                index <= len,
                forall|i: usize, bit: bool| i < self.spec_len() ==> call_requires(visit, (i, bit)),
                self.rewritten(before, mem@, self.bits(mem@)),
                forall|i: int|
                    0 <= i < index ==> call_ensures(
                        visit,
                        (i as usize, bits[i]),
                        #[trigger] self.bits(mem@)[i],
                    ),
                forall|i: int| index <= i < len ==> #[trigger] self.bits(mem@)[i] == bits[i],
            decreases len - index,
        {
            let ghost entry = mem@;
            let ghost entry_bits = self.bits(entry);
            let bit = self.read(mem, index);
            let answer = visit(index, bit);
            self.set(mem, index, answer);
            proof {
                let next = entry_bits.update(index as int, answer);
                self.lemma_rewritten_twice(before, entry, mem@, entry_bits, next);
            }
            index = index + 1;
        }
    }

    /// The storage units that lie whole inside the view: those after a
    /// partly covered first unit and before a partly covered last unit.
    pub fn as_slice<'a>(&self, mem: &'a [T]) -> (units: &'a [T])
        requires
            self.wf(),
            self.fits(mem@),
        ensures
            units@ == mem@.subrange(
                self@.whole_units(T::width()).0 as int,
                self@.whole_units(T::width()).1 as int,
            ),
    {
        let (from, to) = self.whole_units();
        vstd::slice::slice_subrange(mem, from, to)
    }

    /// The storage units that lie whole inside the view, for writing. What
    /// is written to them is written to the storage; the units outside stay.
    pub fn as_mut_slice<'a>(&self, mem: &'a mut [T]) -> (units: &'a mut [T])
        requires
            self.wf(),
            self.fits(old(mem)@),
        ensures
            units@ == old(mem)@.subrange(
                self@.whole_units(T::width()).0 as int,
                self@.whole_units(T::width()).1 as int,
            ),
            final(mem)@ == old(mem)@.subrange(0, self@.whole_units(T::width()).0 as int)
                + final(units)@ + old(mem)@.subrange(
                self@.whole_units(T::width()).1 as int,
                old(mem)@.len() as int,
            ),
    {
        let (from, to) = self.whole_units();
        let (_, rest) = mem.split_at_mut(from);
        let (units, _) = rest.split_at_mut(to - from);
        units
    }

    /// The indices of the first unit that lies whole inside the view and of
    /// the unit after the last such.
    fn whole_units(&self) -> (bounds: (usize, usize))
        requires
            self.wf(),
        ensures
            bounds.0 as nat == self@.whole_units(T::width()).0,
            bounds.1 as nat == self@.whole_units(T::width()).1,
            bounds.0 <= bounds.1,
            self@.elements > 0 ==> self@.ptr <= bounds.0 && bounds.1 <= self@.ptr + self@.elements,
            self@.elements == 0 ==> bounds.1 == 0,
    {
        let (ptr, elements, head, tail) = self.ptr.decode();
        if elements == 0 {
            return (0, 0);
        }
        let from: usize = if head == 0 {
            ptr
        } else {
            ptr + 1
        };
        let to: usize = if tail == T::bits() {
            ptr + elements
        } else {
            ptr + elements - 1
        };
        if from <= to {
            (from, to)
        } else {
            (from, from)
        }
    }
}

} // verus!
