//! The owning, growable bit container.

use crate::bits::{filled, lemma_memory_prefix, memory_bits, overwrite, rotated_left, rotated_right};
use crate::order::BitOrder;
use crate::pointer::BitPtr;
use crate::slice::BitSlice;
use crate::span::{
    lemma_len, lemma_max_elements, lemma_range, lemma_units_for, max_elements, units_for, BitSpan,
};
use crate::store::BitStore;
use core::marker::PhantomData;
use vstd::prelude::*;

verus! {

/// A growable sequence of bits, held in a buffer of storage units of type
/// `T` and read in the bit order `C`.
///
/// The buffer is made of whole units, so the capacity is a multiple of the
/// width. The bits of the buffer after the last live bit have no meaning.
pub struct BitVec<C: BitOrder, T: BitStore> {
    buf: Vec<T>,
    len: usize,
    _order: PhantomData<C>,
}

impl<C: BitOrder, T: BitStore> View for BitVec<C, T> {
    type V = Seq<bool>;

    /// The live bits, in order.
    open spec fn view(&self) -> Seq<bool> {
        memory_bits::<C, T>(self.storage()).take(self.spec_len() as int)
    }
}

/// How many units a buffer of `units` units has after making room for
/// `needed`: as many as before where that is enough, else twice as many or
/// `needed`, whichever is more, and never more than `most` unless `needed`
/// asks for it.
pub open spec fn grown_units(units: nat, needed: nat, most: nat) -> nat {
    if needed <= units {
        units
    } else {
        let double = if 2 * units <= most {
            2 * units
        } else {
            most
        };
        if needed <= double {
            double
        } else {
            needed
        }
    }
}

/// Gives back to the allocator what `units` has allocated beyond its length.
///
/// This is `Vec::shrink_to_fit`. It is taken on trust that the call leaves
/// the elements of the vector as they are.
#[verifier::external_body]
fn release_spare<T>(units: &mut Vec<T>)
    ensures
        final(units)@ == old(units)@,
{
    units.shrink_to_fit();
}

/// The bits of `bits` whose place in `keep` holds `true`, in their order.
pub open spec fn kept(bits: Seq<bool>, keep: Seq<bool>) -> Seq<bool>
    decreases bits.len(),
{
    if bits.len() == 0 {
        Seq::empty()
    } else {
        let front = kept(bits.drop_last(), keep.drop_last());
        if keep.last() {
            front.push(bits.last())
        } else {
            front
        }
    }
}

impl<C: BitOrder, T: BitStore> BitVec<C, T> {
    /// The units of the buffer, live or not.
    pub closed spec fn storage(self) -> Seq<T> {
        self.buf@
    }

    /// The number of live bits.
    pub closed spec fn spec_len(self) -> nat {
        self.len as nat
    }

    /// The number of bits that the buffer holds without growing.
    pub open spec fn spec_capacity(self) -> nat {
        self.storage().len() * T::width()
    }

    /// The largest number of bits that a container can hold: what a region
    /// descriptor can describe.
    pub open spec fn spec_max_bits() -> nat {
        max_elements(T::width()) * T::width()
    }

    /// Whether the live bits lie inside the buffer and the buffer is one
    /// that a region descriptor can describe.
    pub open spec fn wf(self) -> bool {
        &&& self.spec_len() <= self.spec_capacity()
        &&& self.storage().len() <= max_elements(T::width())
    }

    /// The region of the live bits within the buffer.
    pub open spec fn live_span(self) -> BitSpan {
        BitSpan { ptr: 0, elements: self.storage().len(), head: 0, tail: T::width() }.range(
            T::width(),
            0,
            self.spec_len(),
        )
    }

    /// The capacity of a well-formed container is a number of bits that a
    /// machine word can hold.
    pub proof fn lemma_capacity(self)
        requires
            self.wf(),
        ensures
            self.spec_capacity() <= Self::spec_max_bits() <= usize::MAX,
            self@.len() == self.spec_len(),
    {
        let width = T::width();
        T::lemma_width();
        let most = max_elements(width);
        lemma_max_elements(width);
        assert(self.storage().len() * width <= most * width) by (nonlinear_arith)
            requires
                self.storage().len() <= most,
                width >= 0,
        {
        }
    }

    /// Whatever the width and the size of a word, a container has room for
    /// more than eight million bits.
    pub proof fn lemma_max_bits()
        ensures
            0x7f_fff8 <= Self::spec_max_bits() <= usize::MAX,
    {
        T::lemma_width();
        lemma_max_elements(T::width());
        assert(max_elements(T::width()) * T::width() >= 0xf_ffff * 8) by (nonlinear_arith)
            requires
                max_elements(T::width()) >= 0xf_ffff,
                T::width() >= 8,
        {
        }
    }

    /// The largest number of bits that a container can hold.
    pub fn max_bits() -> (most: usize)
        ensures
            most as nat == Self::spec_max_bits(),
    {
        let units = BitPtr::<T>::max_elements();
        proof {
            T::lemma_width();
            lemma_max_elements(T::width());
        }
        units * (T::bits() as usize)
    }

    /// An empty container with no buffer.
    pub fn new() -> (made: Self)
        ensures
            made.wf(),
            made@ == Seq::<bool>::empty(),
            made.spec_len() == 0,
            made.spec_capacity() == 0,
    {
        let made = BitVec { buf: Vec::new(), len: 0, _order: PhantomData };
        proof {
            assert(made.storage().len() * T::width() == 0) by (nonlinear_arith)
                requires
                    made.storage().len() == 0,
            {
            }
            assert(made@ =~= Seq::<bool>::empty());
        }
        made
    }

    /// The number of live bits.
    pub fn len(&self) -> (len: usize)
        ensures
            len as nat == self.spec_len(),
    {
        self.len
    }

    /// Whether the container holds no bit.
    pub fn is_empty(&self) -> (empty: bool)
        ensures
            empty <==> self.spec_len() == 0,
    {
        self.len == 0
    }

    /// The number of bits that the buffer holds without growing.
    pub fn capacity(&self) -> (capacity: usize)
        requires
            self.wf(),
        ensures
            capacity as nat == self.spec_capacity(),
    {
        proof {
            self.lemma_capacity();
        }
        self.buf.len() * (T::bits() as usize)
    }

    /// The number of whole units that it takes to hold `bits` bits.
    fn units_for(bits: usize) -> (units: usize)
        ensures
            units as nat == units_for(bits as nat, T::width()),
    {
        proof {
            T::lemma_width();
        }
        if bits == 0 {
            0
        } else {
            (bits - 1) / (T::bits() as usize) + 1
        }
    }
    /// The view over the live bits reads them from the buffer, and starts at
    /// its first bit.
    pub proof fn lemma_live_view(self, view: BitSlice<C, T>)
        requires
            self.wf(),
            view@ == self.live_span(),
        ensures
            view.spec_len() == self.spec_len(),
            view.fits(self.storage()),
            view.bits(self.storage()) == self@,
            view.start() == 0,
    {
        let width = T::width();
        T::lemma_width();
        let units = self.storage().len();
        let whole = BitSpan { ptr: 0, elements: units, head: 0, tail: width };
        if self.spec_len() > 0 {
            assert(units > 0) by (nonlinear_arith)
                requires
                    self.spec_len() <= units * width,
                    self.spec_len() > 0,
            {
            }
            lemma_len(whole, width);
            assert((units - 1) * width + width == units * width) by (nonlinear_arith);
            lemma_range(whole, width, 0, self.spec_len());
        }
        assert(0 * width == 0) by (nonlinear_arith);
        assert(view.start() == 0);
        assert(view.spec_len() == self.spec_len());
        assert(view.bits(self.storage()) =~= self@);
    }

    /// Units that were equal stay equal in what they hold: a buffer that
    /// keeps its first units keeps its first bits.
    proof fn lemma_same_prefix(self, other: Self)
        requires
            self.wf(),
            self.spec_len() == other.spec_len(),
            self.storage().len() <= other.storage().len(),
            forall|unit: int|
                0 <= unit < self.storage().len() ==> self.storage()[unit] == other.storage()[unit],
        ensures
            self@ == other@,
    {
        lemma_memory_prefix::<C, T>(self.storage(), other.storage());
        assert(self@ =~= other@);
    }

    /// The view over the live bits.
    fn view_of(&self) -> (view: BitSlice<C, T>)
        requires
            self.wf(),
        ensures
            view.wf(),
            view@ == self.live_span(),
            view.spec_len() == self.spec_len(),
            view.fits(self.storage()),
            view.bits(self.storage()) == self@,
            view.start() == 0,
    {
        proof {
            T::lemma_width();
            let units = self.storage().len();
            let whole = BitSpan { ptr: 0, elements: units, head: 0, tail: T::width() };
            if units > 0 {
                lemma_len(whole, T::width());
                assert((units - 1) * T::width() + T::width() == units * T::width())
                    by (nonlinear_arith);
            } else {
                assert(units * T::width() == 0) by (nonlinear_arith)
                    requires
                        units == 0,
                {
                }
            }
        }
        let whole = BitSlice::<C, T>::from_span(0, self.buf.len()).unwrap();
        let view = whole.range(0, self.len);
        proof {
            self.lemma_live_view(view);
        }
        view
    }

    /// The live bits as a view, with the units that the view reads from.
    pub fn as_bitslice(&self) -> (borrowed: (BitSlice<C, T>, &[T]))
        requires
            self.wf(),
        ensures
            borrowed.0.wf(),
            borrowed.0@ == self.live_span(),
            borrowed.0.spec_len() == self.spec_len(),
            borrowed.1@ == self.storage(),
            borrowed.0.fits(borrowed.1@),
            borrowed.0.bits(borrowed.1@) == self@,
    {
        (self.view_of(), self.buf.as_slice())
    }

    /// The live bits as a view, with the units that the view reads from and
    /// writes to. What is written to the units is written to the buffer; the
    /// number of live bits stays.
    pub fn as_mut_bitslice(&mut self) -> (borrowed: (BitSlice<C, T>, &mut [T]))
        requires
            old(self).wf(),
        ensures
            borrowed.0.wf(),
            borrowed.0@ == old(self).live_span(),
            borrowed.0.spec_len() == old(self).spec_len(),
            borrowed.1@ == old(self).storage(),
            borrowed.0.fits(borrowed.1@),
            borrowed.0.bits(borrowed.1@) == old(self)@,
            final(self).storage() == final(borrowed.1)@,
            final(self).spec_len() == old(self).spec_len(),
            final(borrowed.1)@.len() == borrowed.1@.len() ==> final(self).wf(),
    {
        let view = self.view_of();
        (view, self.buf.as_mut_slice())
    }

    /// Brings the buffer to `units` units, if it has fewer.
    fn grow_to(&mut self, units: usize)
        requires
            old(self).wf(),
            units <= max_elements(T::width()),
        ensures
            final(self).wf(),
            final(self)@ == old(self)@,
            final(self).spec_len() == old(self).spec_len(),
            final(self).storage().len() == if units > old(self).storage().len() {
                units as nat
            } else {
                old(self).storage().len()
            },
            forall|unit: int|
                0 <= unit < old(self).storage().len() ==> final(self).storage()[unit] == old(
                    self,
                ).storage()[unit],
    {
        let ghost before = *self;
        if units > self.buf.len() {
            self.buf.reserve(units - self.buf.len());
        }
        while self.buf.len() < units
            invariant
                before.wf(),
                units <= max_elements(T::width()),
                self.len == before.len,
                before.storage().len() <= self.storage().len(),
                self.storage().len() <= units || self.storage().len() == before.storage().len(),
                forall|unit: int|
                    0 <= unit < before.storage().len() ==> self.storage()[unit]
                        == before.storage()[unit],
            decreases units - self.buf.len(),
        {
            self.buf.push(T::splat(false));
        }
        proof {
            assert(before.storage().len() * T::width() <= self.storage().len() * T::width())
                by (nonlinear_arith)
                requires
                    before.storage().len() <= self.storage().len(),
            {
            }
            before.lemma_same_prefix(*self);
        }
    }

    /// An empty container whose buffer holds `bits` bits, rounded up to
    /// whole units.
    pub fn with_capacity(bits: usize) -> (made: Self)
        requires
            bits <= Self::spec_max_bits(),
        ensures
            made.wf(),
            made@ == Seq::<bool>::empty(),
            made.spec_len() == 0,
            made.storage().len() == units_for(bits as nat, T::width()),
            made.spec_capacity() >= bits,
    {
        let mut made = Self::new();
        let units = Self::units_for(bits);
        proof {
            T::lemma_width();
            lemma_units_for(bits as nat, T::width(), max_elements(T::width()));
            lemma_units_for(bits as nat, T::width(), units as nat);
        }
        made.grow_to(units);
        made
    }

    /// Makes room for `additional` more bits. A buffer that has the room
    /// stays as it is; one that has not grows to twice its size, or to what
    /// is asked for where that is more.
    pub fn reserve(&mut self, additional: usize)
        requires
            old(self).wf(),
            old(self).spec_len() + additional <= Self::spec_max_bits(),
        ensures
            final(self).wf(),
            final(self)@ == old(self)@,
            final(self).spec_len() == old(self).spec_len(),
            final(self).storage().len() == grown_units(
                old(self).storage().len(),
                units_for((old(self).spec_len() + additional) as nat, T::width()),
                max_elements(T::width()),
            ),
            final(self).spec_capacity() >= old(self).spec_len() + additional,
            final(self).spec_capacity() >= old(self).spec_capacity(),
    {
        proof {
            T::lemma_width();
            self.lemma_capacity();
            lemma_units_for(
                (self.spec_len() + additional) as nat,
                T::width(),
                max_elements(T::width()),
            );
        }
        let needed = Self::units_for(self.len + additional);
        let units = self.buf.len();
        if needed <= units {
            proof {
                lemma_units_for((self.spec_len() + additional) as nat, T::width(), units as nat);
            }
            return ;
        }
        let most = BitPtr::<T>::max_elements();
        let double = if units <= most / 2 {
            2 * units
        } else {
            most
        };
        let target = if needed <= double {
            double
        } else {
            needed
        };
        self.grow_to(target);
        proof {
            lemma_units_for((self.spec_len() + additional) as nat, T::width(), target as nat);
            assert(units * T::width() <= target * T::width()) by (nonlinear_arith)
                requires
                    units <= target,
            {
            }
        }
    }

    /// Gives up the units of the buffer that hold no live bit.
    pub fn shrink_to_fit(&mut self)
        requires
            old(self).wf(),
        ensures
            final(self).wf(),
            final(self)@ == old(self)@,
            final(self).spec_len() == old(self).spec_len(),
            final(self).storage().len() == units_for(old(self).spec_len(), T::width()),
            final(self).spec_capacity() <= old(self).spec_capacity(),
    {
        let ghost before = *self;
        let units = Self::units_for(self.len);
        proof {
            T::lemma_width();
            lemma_units_for(self.spec_len(), T::width(), self.storage().len());
            lemma_units_for(self.spec_len(), T::width(), units as nat);
        }
        self.buf.truncate(units);
        release_spare(&mut self.buf);
        proof {
            assert(self.storage().len() * T::width() <= before.storage().len() * T::width())
                by (nonlinear_arith)
                requires
                    self.storage().len() <= before.storage().len(),
            {
            }
            self.lemma_same_prefix(before);
        }
    }

    /// Drops the live bits from the index `len` on. Does nothing when there
    /// are no more than `len`. The buffer stays as it is.
    pub fn truncate(&mut self, len: usize)
        requires
            old(self).wf(),
        ensures
            final(self).wf(),
            final(self).storage() == old(self).storage(),
            final(self).spec_len() == if len < old(self).spec_len() {
                len as nat
            } else {
                old(self).spec_len()
            },
            len < old(self).spec_len() ==> final(self)@ == old(self)@.take(len as int),
            len >= old(self).spec_len() ==> final(self)@ == old(self)@,
    {
        if len < self.len {
            self.len = len;
            proof {
                assert(self@ =~= old(self)@.take(len as int));
            }
        }
    }

    /// Drops every live bit. The buffer stays as it is.
    pub fn clear(&mut self)
        requires
            old(self).wf(),
        ensures
            final(self).wf(),
            final(self).storage() == old(self).storage(),
            final(self).spec_len() == 0,
            final(self)@ == Seq::<bool>::empty(),
    {
        self.len = 0;
        proof {
            assert(self@ =~= Seq::<bool>::empty());
        }
    }

    /// Appends `value`. The buffer grows, as `reserve` would have it, only
    /// where it is full.
    pub fn push(&mut self, value: bool)
        requires
            old(self).wf(),
            old(self).spec_len() < Self::spec_max_bits(),
        ensures
            final(self).wf(),
            final(self)@ == old(self)@.push(value),
            final(self).spec_len() == old(self).spec_len() + 1,
            final(self).storage().len() == grown_units(
                old(self).storage().len(),
                units_for(old(self).spec_len() + 1, T::width()),
                max_elements(T::width()),
            ),
            old(self).spec_len() < old(self).spec_capacity() ==> final(self).spec_capacity()
                == old(self).spec_capacity(),
    {
        let ghost before = *self;
        proof {
            T::lemma_width();
            self.lemma_capacity();
            lemma_units_for(self.spec_len() + 1, T::width(), self.storage().len());
        }
        self.reserve(1);
        let ghost grown = *self;
        self.len = self.len + 1;
        let view = self.view_of();
        let index = self.len - 1;
        let ghost bits = view.bits(self.buf@);
        view.set(self.buf.as_mut_slice(), index, value);
        proof {
            self.lemma_live_view(view);
            assert(bits.take(index as int) =~= grown@);
            assert(self@ =~= before@.push(value));
        }
    }

    /// Removes the last bit and gives it; `None` when there is none.
    pub fn pop(&mut self) -> (bit: Option<bool>)
        requires
            old(self).wf(),
        ensures
            final(self).wf(),
            final(self).storage() == old(self).storage(),
            match bit {
                Some(bit) => {
                    &&& old(self).spec_len() > 0
                    &&& bit == old(self)@.last()
                    &&& final(self)@ == old(self)@.drop_last()
                    &&& final(self).spec_len() == old(self).spec_len() - 1
                },
                None => {
                    &&& old(self).spec_len() == 0
                    &&& final(self)@ == old(self)@
                    &&& final(self).spec_len() == 0
                },
            },
    {
        if self.len == 0 {
            return None;
        }
        let view = self.view_of();
        let bit = view.read(self.buf.as_slice(), self.len - 1);
        self.len = self.len - 1;
        proof {
            assert(self@ =~= old(self)@.drop_last());
        }
        Some(bit)
    }
    /// Puts `value` before the bit with index `index`; the bits from there
    /// on move one place back. Does nothing when `index` is above the
    /// length.
    pub fn insert(&mut self, index: usize, value: bool)
        requires
            old(self).wf(),
            index <= old(self).spec_len() ==> old(self).spec_len() < Self::spec_max_bits(),
        ensures
            final(self).wf(),
            index <= old(self).spec_len() ==> final(self)@ == old(self)@.insert(
                index as int,
                value,
            ) && final(self).spec_len() == old(self).spec_len() + 1,
            index <= old(self).spec_len() ==> final(self).storage().len() == grown_units(
                old(self).storage().len(),
                units_for(old(self).spec_len() + 1, T::width()),
                max_elements(T::width()),
            ),
            index > old(self).spec_len() ==> final(self)@ == old(self)@ && final(self).storage()
                == old(self).storage() && final(self).spec_len() == old(self).spec_len(),
    {
        if index > self.len {
            return ;
        }
        let ghost before = self@;
        proof {
            self.lemma_capacity();
        }
        self.push(value);
        let view = self.view_of();
        let part = view.range(index, self.len);
        let ghost pushed = self.storage();
        let ghost moving = part.bits(pushed);
        proof {
            view.lemma_range_bits(part, index as nat, self.len as nat, pushed);
            assert(moving =~= before.skip(index as int).push(value));
        }
        part.rotate_right(self.buf.as_mut_slice(), 1);
        proof {
            let moved = rotated_right(moving, 1);
            view.lemma_rewritten_part(
                part,
                index as nat,
                self.len as nat,
                pushed,
                self.storage(),
                moved,
            );
            self.lemma_live_view(view);
            assert(self@ =~= before.insert(index as int, value));
        }
    }

    /// Takes out the bit with index `index` and gives it; the bits after it
    /// move one place forward. `None`, and nothing changed, when there is no
    /// such bit.
    pub fn remove(&mut self, index: usize) -> (bit: Option<bool>)
        requires
            old(self).wf(),
        ensures
            final(self).wf(),
            match bit {
                Some(bit) => {
                    &&& index < old(self).spec_len()
                    &&& bit == old(self)@[index as int]
                    &&& final(self)@ == old(self)@.remove(index as int)
                    &&& final(self).spec_len() == old(self).spec_len() - 1
                    &&& final(self).storage().len() == old(self).storage().len()
                },
                None => {
                    &&& index >= old(self).spec_len()
                    &&& final(self)@ == old(self)@
                    &&& final(self).storage() == old(self).storage()
                    &&& final(self).spec_len() == old(self).spec_len()
                },
            },
    {
        if index >= self.len {
            return None;
        }
        let ghost before = self@;
        let ghost entry = self.storage();
        proof {
            self.lemma_capacity();
        }
        let view = self.view_of();
        let bit = view.read(self.buf.as_slice(), index);
        let part = view.range(index, self.len);
        let ghost moving = part.bits(entry);
        proof {
            view.lemma_range_bits(part, index as nat, self.len as nat, entry);
        }
        part.rotate_left(self.buf.as_mut_slice(), 1);
        proof {
            let moved = rotated_left(moving, 1);
            view.lemma_rewritten_part(
                part,
                index as nat,
                self.len as nat,
                entry,
                self.storage(),
                moved,
            );
        }
        self.len = self.len - 1;
        proof {
            assert(self@ =~= before.remove(index as int));
        }
        Some(bit)
    }

    /// Takes out the bit with index `index` and gives it; the last bit takes
    /// its place. `None`, and nothing changed, when there is no such bit.
    pub fn swap_remove(&mut self, index: usize) -> (bit: Option<bool>)
        requires
            old(self).wf(),
        ensures
            final(self).wf(),
            match bit {
                Some(bit) => {
                    &&& index < old(self).spec_len()
                    &&& bit == old(self)@[index as int]
                    &&& final(self)@ == old(self)@.update(
                        index as int,
                        old(self)@.last(),
                    ).drop_last()
                    &&& final(self).spec_len() == old(self).spec_len() - 1
                    &&& final(self).storage().len() == old(self).storage().len()
                },
                None => {
                    &&& index >= old(self).spec_len()
                    &&& final(self)@ == old(self)@
                    &&& final(self).storage() == old(self).storage()
                    &&& final(self).spec_len() == old(self).spec_len()
                },
            },
    {
        if index >= self.len {
            return None;
        }
        let ghost before = self@;
        let ghost entry = self.storage();
        proof {
            self.lemma_capacity();
        }
        let view = self.view_of();
        let bit = view.read(self.buf.as_slice(), index);
        let last = view.read(self.buf.as_slice(), self.len - 1);
        view.set(self.buf.as_mut_slice(), index, last);
        self.len = self.len - 1;
        proof {
            assert(self@ =~= before.update(index as int, before.last()).drop_last());
        }
        Some(bit)
    }

    /// Keeps the bits for which `keep` answers `true`, in their order, and
    /// drops the others. Each bit is asked about once, in ascending order of
    /// index.
    pub fn retain<F: Fn(bool) -> bool>(&mut self, keep: F)
        requires
            old(self).wf(),
            forall|bit: bool| call_requires(keep, (bit,)),
        ensures
            final(self).wf(),
            final(self).storage().len() == old(self).storage().len(),
            exists|answers: Seq<bool>|
                {
                    &&& answers.len() == old(self).spec_len()
                    &&& forall|i: int|
                        0 <= i < answers.len() ==> call_ensures(
                            keep,
                            (old(self)@[i],),
                            #[trigger] answers[i],
                        )
                    &&& final(self)@ == kept(old(self)@, answers)
                },
    {
        let ghost before = self@;
        let ghost entry = self.storage();
        proof {
            self.lemma_capacity();
        }
        let view = self.view_of();
        let len = self.len;
        let mut read: usize = 0;
        let mut write: usize = 0;
        let ghost mut answers: Seq<bool> = Seq::empty();
        proof {
            view.lemma_rewritten_same(entry);
        }
        while read < len
            invariant
                view.wf(),
                view.fits(entry),
                view.fits(self.storage()),
                view.spec_len() == len,
                view.start() == 0,
                before == view.bits(entry),
                before.len() == len,
                self.len == len,
                self.storage().len() == entry.len(),
                forall|bit: bool| call_requires(keep, (bit,)),
                write <= read <= len,
                answers.len() == read,
                forall|i: int|
                    0 <= i < read ==> call_ensures(keep, (before[i],), #[trigger] answers[i]),
                view.rewritten(entry, self.storage(), view.bits(self.storage())),
                view.bits(self.storage()).take(write as int) == kept(
                    before.take(read as int),
                    answers,
                ),
                forall|i: int|
                    read <= i < len ==> #[trigger] view.bits(self.storage())[i] == before[i],
            decreases len - read,
        {
            let ghost current = self.storage();
            let ghost current_bits = view.bits(current);
            let bit = view.read(self.buf.as_slice(), read);
            assert(bit == before[read as int]) by {
                assert(current_bits[read as int] == before[read as int]);
            }
            let answer = keep(bit);
            let ghost prior = answers;
            proof {
                answers = prior.push(answer);
                assert(before.take(read + 1).drop_last() =~= before.take(read as int));
                assert(answers.drop_last() =~= prior);
                assert(before.take(read + 1).last() == bit);
            }
            if answer {
                view.set(self.buf.as_mut_slice(), write, bit);
                proof {
                    let next = current_bits.update(write as int, bit);
                    view.lemma_rewritten_twice(entry, current, self.storage(), current_bits, next);
                    assert(next.take(write + 1) =~= current_bits.take(write as int).push(bit));
                    assert forall|i: int| read < i < len implies #[trigger] next[i] == before[i] by {
                        assert(current_bits[i] == before[i]);
                    }
                }
                write = write + 1;
            }
            read = read + 1;
        }
        self.len = write;
        proof {
            assert(before.take(len as int) =~= before);
            assert(self@ =~= view.bits(self.storage()).take(write as int));
            assert(self.spec_len() <= self.spec_capacity()) by {
                view.lemma_in_memory(self.storage());
            }
        }
    }

    /// Cuts the container before the bit with index `at`: the bits from
    /// there on leave for a new container, the bits before stay. `None`, and
    /// nothing changed, when `at` is above the length.
    pub fn split_off(&mut self, at: usize) -> (tail: Option<Self>)
        requires
            old(self).wf(),
        ensures
            final(self).wf(),
            final(self).storage() == old(self).storage(),
            match tail {
                Some(tail) => {
                    &&& at <= old(self).spec_len()
                    &&& tail.wf()
                    &&& tail@ == old(self)@.skip(at as int)
                    &&& tail.spec_len() == old(self).spec_len() - at
                    &&& tail.storage().len() == units_for(
                        (old(self).spec_len() - at) as nat,
                        T::width(),
                    )
                    &&& final(self)@ == old(self)@.take(at as int)
                    &&& final(self).spec_len() == at
                },
                None => {
                    &&& at > old(self).spec_len()
                    &&& final(self)@ == old(self)@
                    &&& final(self).spec_len() == old(self).spec_len()
                },
            },
    {
        if at > self.len {
            return None;
        }
        proof {
            self.lemma_capacity();
        }
        let ghost before = self@;
        let view = self.view_of();
        let len = self.len;
        let mut tail = Self::with_capacity(len - at);
        let mut index: usize = at;
        while index < len
            invariant
                self.wf(),
                self.len == len,
                before == self@,
                view.wf(),
                view.fits(self.storage()),
                view.bits(self.storage()) == before,
                view.spec_len() == len,
                len <= Self::spec_max_bits(),
                at <= index <= len,
                tail.wf(),
                tail@ == before.subrange(at as int, index as int),
                tail.spec_len() == index - at,
                tail.storage().len() == units_for((len - at) as nat, T::width()),
            decreases len - index,
        {
            let bit = view.read(self.buf.as_slice(), index);
            proof {
                T::lemma_width();
                lemma_units_for((index - at + 1) as nat, T::width(), tail.storage().len());
                lemma_units_for((len - at) as nat, T::width(), tail.storage().len());
            }
            tail.push(bit);
            proof {
                assert(tail@ =~= before.subrange(at as int, index + 1));
            }
            index = index + 1;
        }
        self.len = at;
        proof {
            assert(self@ =~= before.take(at as int));
        }
        Some(tail)
    }

    /// Brings the container to `len` bits: by dropping the bits from `len`
    /// on, or by appending bits that are all `value`.
    pub fn resize(&mut self, len: usize, value: bool)
        requires
            old(self).wf(),
            len <= Self::spec_max_bits(),
        ensures
            final(self).wf(),
            final(self).spec_len() == len,
            final(self).storage().len() == grown_units(
                old(self).storage().len(),
                units_for(len as nat, T::width()),
                max_elements(T::width()),
            ),
            len <= old(self).spec_len() ==> final(self)@ == old(self)@.take(len as int),
            len > old(self).spec_len() ==> final(self)@ == old(self)@ + filled(
                (len - old(self).spec_len()) as nat,
                value,
            ),
    {
        let ghost before = self@;
        proof {
            self.lemma_capacity();
        }
        if len <= self.len {
            proof {
                T::lemma_width();
                lemma_units_for(len as nat, T::width(), self.storage().len());
            }
            self.len = len;
            proof {
                assert(self@ =~= before.take(len as int));
            }
            return ;
        }
        let start = self.len;
        self.reserve(len - start);
        self.len = len;
        let view = self.view_of();
        let part = view.range(start, len);
        let ghost entry = self.storage();
        proof {
            view.lemma_range_bits(part, start as nat, len as nat, entry);
            assert(view.bits(entry).take(start as int) =~= before);
        }
        part.set_all(self.buf.as_mut_slice(), value);
        proof {
            let fill = filled((len - start) as nat, value);
            view.lemma_rewritten_part(part, start as nat, len as nat, entry, self.storage(), fill);
            self.lemma_live_view(view);
            assert(self@ =~= before + fill);
        }
    }

    /// Sets every unit of the buffer to `element`, live or not. The number
    /// of live bits stays; what they hold is what `element` holds.
    pub fn set_elements(&mut self, element: T)
        requires
            old(self).wf(),
        ensures
            final(self).wf(),
            final(self).spec_len() == old(self).spec_len(),
            final(self).storage() == Seq::new(old(self).storage().len(), |unit: int| element),
    {
        let units = self.buf.len();
        let mut unit: usize = 0;
        while unit < units
            invariant
                self.len == old(self).len,
                self.storage().len() == units,
                units == old(self).storage().len(),
                unit <= units,
                forall|done: int| 0 <= done < unit ==> self.storage()[done] == element,
            decreases units - unit,
        {
            self.buf[unit] = element;
            unit = unit + 1;
        }
        proof {
            assert(self.storage() =~= Seq::new(old(self).storage().len(), |unit: int| element));
        }
    }
}

impl<C: BitOrder, T: BitStore> Clone for BitVec<C, T> {
    /// A container of its own with the same units and the same live bits.
    fn clone(&self) -> (copy: Self)
        ensures
            copy.storage() == self.storage(),
            copy.spec_len() == self.spec_len(),
            copy@ == self@,
            self.wf() ==> copy.wf(),
    {
        let units = self.buf.len();
        let mut buf: Vec<T> = Vec::with_capacity(units);
        let mut unit: usize = 0;
        while unit < units
            invariant
                units == self.buf@.len(),
                unit <= units,
                buf@ == self.buf@.take(unit as int),
            decreases units - unit,
        {
            buf.push(self.buf[unit]);
            proof {
                assert(buf@ =~= self.buf@.take(unit + 1));
            }
            unit = unit + 1;
        }
        proof {
            assert(self.buf@.take(units as int) =~= self.buf@);
        }
        BitVec { buf, len: self.len, _order: PhantomData }
    }
}

} // verus!
