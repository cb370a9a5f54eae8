//! Bit-addressable views and growable containers over storage units.
//!
//! Bits are packed into storage units: unsigned integers of 8, 16, 32 or 64
//! bits ([`BitStore`]). A bit order ([`BitOrder`]) says where in a unit the
//! bit with a given index lives; [`BigEndian`] starts at the most significant
//! bit, [`LittleEndian`] at the least significant.
//!
//! A region of bits is described by a [`BitPtr`]: the index of its first
//! storage unit, the number of units it touches, and the offsets of its first
//! live and first dead bit, packed into two words. A [`BitSlice`] is a view
//! over such a region. It does not hold the storage: each operation is handed
//! the units to read or write, and a write changes the bit it names and no
//! other. A [`BitVec`] owns a buffer of units together with a length in bits.
//!
//! [`Tristate`] flattens an optional boolean into three states, for callers
//! that cannot hold an `Option`.

pub mod bits;
pub mod order;
pub mod pointer;
pub mod slice;
pub mod span;
pub mod store;
pub mod tristate;
pub mod vector;

pub use order::{BigEndian, BitOrder, LittleEndian};
pub use pointer::{BitPtr, BitPtrError};
pub use slice::BitSlice;
pub use span::BitSpan;
pub use store::BitStore;
pub use tristate::Tristate;
pub use vector::BitVec;
