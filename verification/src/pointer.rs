//! The packed region descriptor.
//!
//! A [`BitPtr`] holds a region in two machine words: the index of the first
//! storage unit, and a length word that packs the unit count, the tail and
//! the head. All packing and unpacking happens here.

use crate::span::{
    decode_words, encode_word, lemma_decode_encode, lemma_encode_bound, lemma_len,
    lemma_max_elements, max_elements, BitSpan,
};
use crate::store::BitStore;
use core::marker::PhantomData;
use vstd::prelude::*;

verus! {

/// Why a region cannot be described.
#[derive(Clone, Copy, Debug, PartialEq, Eq, Structural)]
pub enum BitPtrError {
    /// The region spans more units than the length word has room to count.
    TooManyElements,
    /// The region reaches past the last unit that an index can name.
    AddressOverflow,
    /// The head is not an index into a unit: it must be below the width.
    HeadOutOfRange,
    /// The tail is zero or above the width.
    TailOutOfRange,
    /// The region lies in one unit and its tail is not after its head.
    TailBeforeHead,
}

/// A region descriptor, packed into a pointer word and a length word.
///
/// The descriptor does not own the storage it describes. Its pointer is the
/// index of a unit in whatever storage the region is read from.
pub struct BitPtr<T: BitStore> {
    ptr: usize,
    len: usize,
    _ty: PhantomData<T>,
}

impl<T: BitStore> Clone for BitPtr<T> {
    fn clone(&self) -> (copy: Self)
        ensures
            copy == *self,
    {
        *self
    }
}

impl<T: BitStore> Copy for BitPtr<T> {

}

impl<T: BitStore> View for BitPtr<T> {
    type V = BitSpan;

    /// The region that the two words stand for.
    open spec fn view(&self) -> BitSpan {
        decode_words(self.words().0, self.words().1, T::width())
    }
}

impl<T: BitStore> BitPtr<T> {
    /// The pointer word and the length word.
    pub closed spec fn words(self) -> (nat, nat) {
        (self.ptr as nat, self.len as nat)
    }

    /// Whether the words describe a region: either both are zero, or the
    /// length word unpacks to a region of at least one bit, within the
    /// capacity, whose units all have an index.
    pub open spec fn wf(self) -> bool {
        if self.words().1 == 0 {
            self.words().0 == 0
        } else {
            &&& self@.is_region(T::width())
            &&& self@.elements <= max_elements(T::width())
            &&& self@.ptr + self@.elements <= usize::MAX
        }
    }

    /// What `encode` answers: the region, or the first rule it breaks.
    pub open spec fn encode_spec(ptr: nat, elements: nat, head: nat, tail: nat) -> Result<
        BitSpan,
        BitPtrError,
    > {
        if elements == 0 {
            Ok(BitSpan::empty())
        } else if elements > max_elements(T::width()) {
            Err(BitPtrError::TooManyElements)
        } else if ptr + elements > usize::MAX {
            Err(BitPtrError::AddressOverflow)
        } else if head >= T::width() {
            Err(BitPtrError::HeadOutOfRange)
        } else if tail == 0 || tail > T::width() {
            Err(BitPtrError::TailOutOfRange)
        } else if elements == 1 && tail <= head {
            Err(BitPtrError::TailBeforeHead)
        } else {
            Ok(BitSpan { ptr, elements, head, tail })
        }
    }

    /// Unpacking a region that was packed gives the region back: its first
    /// unit, its unit count, its head and its tail.
    pub proof fn lemma_round_trip(ptr: nat, elements: nat, head: nat, tail: nat)
        requires
            elements > 0,
            Self::encode_spec(ptr, elements, head, tail) is Ok,
        ensures
            ({
                let span = BitSpan { ptr, elements, head, tail };
                &&& Self::encode_spec(ptr, elements, head, tail) == Ok::<BitSpan, BitPtrError>(
                    span,
                )
                &&& decode_words(ptr, encode_word(span, T::width()), T::width()) == span
                &&& encode_word(span, T::width()) <= usize::MAX
            }),
    {
        T::lemma_width();
        let span = BitSpan { ptr, elements, head, tail };
        lemma_decode_encode(span, T::width());
        lemma_encode_bound(span, T::width());
    }

    /// A descriptor holds no bit exactly when it is the canonical empty
    /// descriptor; any other holds `(elements - 1) * width - head + tail`
    /// bits.
    pub proof fn lemma_len(self)
        requires
            self.wf(),
        ensures
            self@.len(T::width()) == 0 <==> self.words() == (0nat, 0nat),
            self@.len(T::width()) == 0 <==> self@ == BitSpan::empty(),
            self@ != BitSpan::empty() ==> self@.len(T::width()) == (self@.elements - 1)
                * T::width() - self@.head + self@.tail,
    {
        T::lemma_width();
        lemma_len(self@, T::width());
    }

    /// The largest number of units that a region can span.
    pub fn max_elements() -> (most: usize)
        ensures
            most as nat == max_elements(T::width()),
            most >= 0xf_ffff,
    {
        proof {
            T::lemma_width();
            lemma_max_elements(T::width());
        }
        let width: usize = T::bits() as usize;
        assert(1 <= width * width <= 4096) by (nonlinear_arith)
            requires
                1 <= width <= 64,
        {
        }
        let square: usize = width * width;
        (usize::MAX - (square - 1)) / square
    }

    /// The canonical empty descriptor: both words zero.
    pub fn empty() -> (empty: Self)
        ensures
            empty.wf(),
            empty@ == BitSpan::empty(),
            empty.words() == (0nat, 0nat),
    {
        BitPtr { ptr: 0, len: 0, _ty: PhantomData }
    }

    /// Packs a region into a descriptor.
    ///
    /// A region of no units is the empty region, whatever the other values
    /// are. Any other region is refused when it spans more units than the
    /// length word can count, when its last unit would have no index, when
    /// `head` is not below the width, when `tail` is zero or above the width,
    /// or when it lies in one unit and `tail` is not after `head`.
    pub fn encode(ptr: usize, elements: usize, head: u8, tail: u8) -> (packed: Result<
        Self,
        BitPtrError,
    >)
        ensures
            match packed {
                Ok(region) => {
                    &&& Self::encode_spec(ptr as nat, elements as nat, head as nat, tail as nat)
                        == Ok::<BitSpan, BitPtrError>(region@)
                    &&& region.wf()
                    &&& region.words().1 == encode_word(region@, T::width())
                    &&& elements > 0 ==> region.words().0 == ptr
                },
                Err(reason) => Self::encode_spec(
                    ptr as nat,
                    elements as nat,
                    head as nat,
                    tail as nat,
                ) == Err::<BitSpan, BitPtrError>(reason),
            },
    {
        let width: u8 = T::bits();
        proof {
            T::lemma_width();
        }
        if elements == 0 {
            return Ok(Self::empty());
        }
        if elements > Self::max_elements() {
            return Err(BitPtrError::TooManyElements);
        }
        if ptr > usize::MAX - elements {
            return Err(BitPtrError::AddressOverflow);
        }
        if head >= width {
            return Err(BitPtrError::HeadOutOfRange);
        }
        if tail == 0 || tail > width {
            return Err(BitPtrError::TailOutOfRange);
        }
        if elements == 1 && tail <= head {
            return Err(BitPtrError::TailBeforeHead);
        }
        let ghost span = BitSpan {
            ptr: ptr as nat,
            elements: elements as nat,
            head: head as nat,
            tail: tail as nat,
        };
        proof {
            lemma_encode_bound(span, width as nat);
            lemma_decode_encode(span, width as nat);
            assert(elements * width + (tail - 1) <= (elements * width + (tail - 1)) * width)
                by (nonlinear_arith)
                requires
                    width >= 1,
                    tail >= 1,
            {
            }
            assert(width as nat * width as nat > 0) by (nonlinear_arith)
                requires
                    width > 0,
            {
            }
        }
        let upper: usize = elements * (width as usize) + (tail - 1) as usize;
        let len: usize = upper * (width as usize) + head as usize;
        Ok(BitPtr { ptr, len, _ty: PhantomData })
    }

    /// Unpacks the descriptor into the index of its first unit, its unit
    /// count, its head and its tail. The empty descriptor unpacks to zeros.
    pub fn decode(&self) -> (parts: (usize, usize, u8, u8))
        requires
            self.wf(),
        ensures
            parts.0 as nat == self@.ptr,
            parts.1 as nat == self@.elements,
            parts.2 as nat == self@.head,
            parts.3 as nat == self@.tail,
    {
        if self.len == 0 {
            return (0, 0, 0, 0);
        }
        proof {
            T::lemma_width();
        }
        let width: usize = T::bits() as usize;
        let upper: usize = self.len / width;
        let head: usize = self.len % width;
        let tail: usize = upper % width + 1;
        (self.ptr, upper / width, head as u8, tail as u8)
    }

    /// The index of the first storage unit of the region; zero for the empty
    /// region.
    pub fn pointer(&self) -> (ptr: usize)
        requires
            self.wf(),
        ensures
            ptr as nat == self@.ptr,
    {
        self.decode().0
    }

    /// The number of storage units that the region touches.
    pub fn elements(&self) -> (elements: usize)
        requires
            self.wf(),
        ensures
            elements as nat == self@.elements,
    {
        self.decode().1
    }

    /// The index of the first live bit in the first unit.
    pub fn head(&self) -> (head: u8)
        requires
            self.wf(),
        ensures
            head as nat == self@.head,
    {
        self.decode().2
    }

    /// The index one past the last live bit in the last unit.
    pub fn tail(&self) -> (tail: u8)
        requires
            self.wf(),
        ensures
            tail as nat == self@.tail,
    {
        self.decode().3
    }

    /// Whether this is the canonical empty descriptor, and no other.
    pub fn is_empty(&self) -> (empty: bool)
        ensures
            empty <==> self.words() == (0nat, 0nat),
            self.wf() ==> (empty <==> self@ == BitSpan::empty()),
    {
        self.ptr == 0 && self.len == 0
    }

    /// The number of bits in the region.
    pub fn len(&self) -> (len: usize)
        requires
            self.wf(),
        ensures
            len as nat == self@.len(T::width()),
    {
        let (_, elements, head, tail) = self.decode();
        if elements == 0 {
            return 0;
        }
        proof {
            T::lemma_width();
            lemma_encode_bound(self@, T::width());
            lemma_len(self@, T::width());
            assert((elements - 1) * T::width() <= elements * T::width()) by (nonlinear_arith);
        }
        let width: usize = T::bits() as usize;
        (elements - 1) * width + tail as usize - head as usize
    }

    /// Whether the region lies inside a storage of `units` units.
    pub fn fits(&self, units: usize) -> (inside: bool)
        requires
            self.wf(),
        ensures
            inside == self@.fits(units as nat),
    {
        let (ptr, elements, _, _) = self.decode();
        elements == 0 || (elements <= units && ptr <= units - elements)
    }
}

} // verus!
