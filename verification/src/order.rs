//! Bit orders: where in a storage unit the bit with a given index lives.

use vstd::prelude::*;

verus! {

/// A policy that maps the index of a bit within one storage unit to its
/// physical position, counted from the least significant bit.
///
/// For every width the mapping is a bijection on `0..width`; `index` is its
/// inverse.
pub trait BitOrder: Sized {
    /// The physical position of the bit with index `index` in a unit of
    /// `width` bits.
    spec fn position(index: nat, width: nat) -> nat;

    /// The index of the bit at physical position `position`.
    spec fn index(position: nat, width: nat) -> nat;

    /// Positions stay inside the unit, and `index` undoes `position`.
    proof fn lemma_position(index: nat, width: nat)
        requires
            index < width,
        ensures
            Self::position(index, width) < width,
            Self::index(Self::position(index, width), width) == index,
    ;

    /// Indices stay inside the unit, and `position` undoes `index`.
    proof fn lemma_index(position: nat, width: nat)
        requires
            position < width,
        ensures
            Self::index(position, width) < width,
            Self::position(Self::index(position, width), width) == position,
    ;

    /// Computes the physical position of the bit with index `index`.
    fn at(index: u8, width: u8) -> (position: u8)
        requires
            index < width,
        ensures
            position as nat == Self::position(index as nat, width as nat),
            position < width,
    ;
}

/// Index 0 is the most significant bit of a unit.
#[derive(Clone, Copy, Debug, PartialEq, Eq)]
pub struct BigEndian;

/// Index 0 is the least significant bit of a unit.
#[derive(Clone, Copy, Debug, PartialEq, Eq)]
pub struct LittleEndian;

impl BitOrder for BigEndian {
    open spec fn position(index: nat, width: nat) -> nat {
        if index < width {
            (width - 1 - index) as nat
        } else {
            index
        }
    }

    open spec fn index(position: nat, width: nat) -> nat {
        if position < width {
            (width - 1 - position) as nat
        } else {
            position
        }
    }

    proof fn lemma_position(index: nat, width: nat) {
    }

    proof fn lemma_index(position: nat, width: nat) {
    }

    fn at(index: u8, width: u8) -> (position: u8) {
        width - 1 - index
    }
}

impl BitOrder for LittleEndian {
    open spec fn position(index: nat, width: nat) -> nat {
        index
    }

    open spec fn index(position: nat, width: nat) -> nat {
        position
    }

    proof fn lemma_position(index: nat, width: nat) {
    }

    proof fn lemma_index(position: nat, width: nat) {
    }

    fn at(index: u8, width: u8) -> (position: u8) {
        index
    }
}

/// Two distinct indices of one unit never share a physical position.
pub proof fn lemma_position_injective<C: BitOrder>(a: nat, b: nat, width: nat)
    requires
        a < width,
        b < width,
        C::position(a, width) == C::position(b, width),
    ensures
        a == b,
{
    C::lemma_position(a, width);
    C::lemma_position(b, width);
}

/// Every physical position of a unit is the position of some index.
pub proof fn lemma_position_surjective<C: BitOrder>(position: nat, width: nat)
    requires
        position < width,
    ensures
        exists|index: nat| index < width && #[trigger] C::position(index, width) == position,
{
    C::lemma_index(position, width);
    let index = C::index(position, width);
    assert(index < width && C::position(index, width) == position);
}

} // verus!
