//! Storage units: the unsigned integers that back a bit region.

use vstd::prelude::*;

verus! {

/// An unsigned integer of 8, 16, 32 or 64 bits that holds packed bits.
///
/// A unit is read and written one bit at a time. A write changes the bit it
/// names and no other bit of the unit.
pub trait BitStore: Copy + Sized {
    /// The number of bits in one unit.
    spec fn width() -> nat;

    /// The bit at physical position `position`, counted from the least
    /// significant bit.
    spec fn bit(self, position: nat) -> bool;

    /// The width is one of the four supported widths.
    proof fn lemma_width()
        ensures
            Self::width() == 8 || Self::width() == 16 || Self::width() == 32 || Self::width()
                == 64,
    ;

    /// Two units that agree on every bit are the same unit.
    proof fn lemma_same_bits(a: Self, b: Self)
        requires
            forall|position: nat| position < Self::width() ==> a.bit(position) == b.bit(position),
        ensures
            a == b,
    ;

    /// The number of bits in one unit.
    fn bits() -> (width: u8)
        ensures
            width as nat == Self::width(),
    ;

    /// Reads the bit at `position`.
    fn load(self, position: u8) -> (bit: bool)
        requires
            (position as nat) < Self::width(),
        ensures
            bit == self.bit(position as nat),
    ;

    /// The unit with the bit at `position` set to `value` and every other bit
    /// as in `self`.
    fn store(self, position: u8, value: bool) -> (unit: Self)
        requires
            (position as nat) < Self::width(),
        ensures
            forall|p: nat|
                p < Self::width() ==> #[trigger] unit.bit(p) == (if p == position as nat {
                    value
                } else {
                    self.bit(p)
                }),
    ;

    /// The unit whose every bit is `value`.
    fn splat(value: bool) -> (unit: Self)
        ensures
            forall|p: nat| p < Self::width() ==> #[trigger] unit.bit(p) == value,
    ;
}

impl BitStore for u8 {
    open spec fn width() -> nat {
        8
    }

    open spec fn bit(self, position: nat) -> bool {
        position < 8 && (self >> (position as u8)) & 1u8 == 1u8
    }

    proof fn lemma_width() {
    }

    proof fn lemma_same_bits(a: Self, b: Self) {
        lemma_same_tail_u8(a, b, 0);
        assert(a >> 0u8 == a && b >> 0u8 == b) by (bit_vector);
    }

    fn bits() -> (width: u8) {
        8
    }

    fn load(self, position: u8) -> (bit: bool) {
        (self >> position) & 1u8 == 1u8
    }

    fn store(self, position: u8, value: bool) -> (unit: Self) {
        let mask: u8 = 1u8 << position;
        let unit: u8 = if value {
            self | mask
        } else {
            self & !mask
        };
        proof {
            let at: u8 = position as u8;
            assert forall|p: nat| p < 8 implies #[trigger] unit.bit(p) == (if p == position as nat {
                value
            } else {
                self.bit(p)
            }) by {
                let q: u8 = p as u8;
                assert(((self | (1u8 << at)) >> q) & 1u8 == 1u8 <==> (q == at || (self >> q)
                    & 1u8 == 1u8)) by (bit_vector)
                    requires
                        at < 8,
                        q < 8,
                ;
                assert(((self & !(1u8 << at)) >> q) & 1u8 == 1u8 <==> (q != at && (self >> q)
                    & 1u8 == 1u8)) by (bit_vector)
                    requires
                        at < 8,
                        q < 8,
                ;
            }
        }
        unit
    }

    fn splat(value: bool) -> (unit: Self) {
        let unit: u8 = if value {
            0xffu8
        } else {
            0u8
        };
        proof {
            assert forall|p: nat| p < 8 implies #[trigger] unit.bit(p) == value by {
                let q: u8 = p as u8;
                assert((0xffu8 >> q) & 1u8 == 1u8 && (0u8 >> q) & 1u8 != 1u8) by (bit_vector)
                    requires
                        q < 8,
                ;
            }
        }
        unit
    }
}

/// Two units that agree on every bit agree on what is left after dropping
/// their `from` low bits.
proof fn lemma_same_tail_u8(a: u8, b: u8, from: u8)
    requires
        from < 8,
        forall|position: nat| position < 8 ==> a.bit(position) == b.bit(position),
    ensures
        a >> from == b >> from,
    decreases 8 - from,
{
    assert(a.bit(from as nat) == b.bit(from as nat));
    if from == 7 {
        assert(a >> from == b >> from) by (bit_vector)
            requires
                from == 7,
                ((a >> from) & 1u8 == 1u8) == ((b >> from) & 1u8 == 1u8),
        ;
    } else {
        let next: u8 = (from + 1) as u8;
        lemma_same_tail_u8(a, b, next);
        assert(a >> from == b >> from) by (bit_vector)
            requires
                from < 7,
                next == from + 1,
                a >> next == b >> next,
                ((a >> from) & 1u8 == 1u8) == ((b >> from) & 1u8 == 1u8),
        ;
    }
}

impl BitStore for u16 {
    open spec fn width() -> nat {
        16
    }

    open spec fn bit(self, position: nat) -> bool {
        position < 16 && (self >> (position as u16)) & 1u16 == 1u16
    }

    proof fn lemma_width() {
    }

    proof fn lemma_same_bits(a: Self, b: Self) {
        lemma_same_tail_u16(a, b, 0);
        assert(a >> 0u16 == a && b >> 0u16 == b) by (bit_vector);
    }

    fn bits() -> (width: u8) {
        16
    }

    fn load(self, position: u8) -> (bit: bool) {
        (self >> position) & 1u16 == 1u16
    }

    fn store(self, position: u8, value: bool) -> (unit: Self) {
        let mask: u16 = 1u16 << position;
        let unit: u16 = if value {
            self | mask
        } else {
            self & !mask
        };
        proof {
            let at: u16 = position as u16;
            assert forall|p: nat| p < 16 implies #[trigger] unit.bit(p) == (if p == position as nat {
                value
            } else {
                self.bit(p)
            }) by {
                let q: u16 = p as u16;
                assert(((self | (1u16 << at)) >> q) & 1u16 == 1u16 <==> (q == at || (self >> q)
                    & 1u16 == 1u16)) by (bit_vector)
                    requires
                        at < 16,
                        q < 16,
                ;
                assert(((self & !(1u16 << at)) >> q) & 1u16 == 1u16 <==> (q != at && (self >> q)
                    & 1u16 == 1u16)) by (bit_vector)
                    requires
                        at < 16,
                        q < 16,
                ;
            }
        }
        unit
    }

    fn splat(value: bool) -> (unit: Self) {
        let unit: u16 = if value {
            0xffffu16
        } else {
            0u16
        };
        proof {
            assert forall|p: nat| p < 16 implies #[trigger] unit.bit(p) == value by {
                let q: u16 = p as u16;
                assert((0xffffu16 >> q) & 1u16 == 1u16 && (0u16 >> q) & 1u16 != 1u16) by (bit_vector)
                    requires
                        q < 16,
                ;
            }
        }
        unit
    }
}

/// Two units that agree on every bit agree on what is left after dropping
/// their `from` low bits.
proof fn lemma_same_tail_u16(a: u16, b: u16, from: u16)
    requires
        from < 16,
        forall|position: nat| position < 16 ==> a.bit(position) == b.bit(position),
    ensures
        a >> from == b >> from,
    decreases 16 - from,
{
    assert(a.bit(from as nat) == b.bit(from as nat));
    if from == 15 {
        assert(a >> from == b >> from) by (bit_vector)
            requires
                from == 15,
                ((a >> from) & 1u16 == 1u16) == ((b >> from) & 1u16 == 1u16),
        ;
    } else {
        let next: u16 = (from + 1) as u16;
        lemma_same_tail_u16(a, b, next);
        assert(a >> from == b >> from) by (bit_vector)
            requires
                from < 15,
                next == from + 1,
                a >> next == b >> next,
                ((a >> from) & 1u16 == 1u16) == ((b >> from) & 1u16 == 1u16),
        ;
    }
}

impl BitStore for u32 {
    open spec fn width() -> nat {
        32
    }

    open spec fn bit(self, position: nat) -> bool {
        position < 32 && (self >> (position as u32)) & 1u32 == 1u32
    }

    proof fn lemma_width() {
    }

    proof fn lemma_same_bits(a: Self, b: Self) {
        lemma_same_tail_u32(a, b, 0);
        assert(a >> 0u32 == a && b >> 0u32 == b) by (bit_vector);
    }

    fn bits() -> (width: u8) {
        32
    }

    fn load(self, position: u8) -> (bit: bool) {
        (self >> position) & 1u32 == 1u32
    }

    fn store(self, position: u8, value: bool) -> (unit: Self) {
        let mask: u32 = 1u32 << position;
        let unit: u32 = if value {
            self | mask
        } else {
            self & !mask
        };
        proof {
            let at: u32 = position as u32;
            assert forall|p: nat| p < 32 implies #[trigger] unit.bit(p) == (if p == position as nat {
                value
            } else {
                self.bit(p)
            }) by {
                let q: u32 = p as u32;
                assert(((self | (1u32 << at)) >> q) & 1u32 == 1u32 <==> (q == at || (self >> q)
                    & 1u32 == 1u32)) by (bit_vector)
                    requires
                        at < 32,
                        q < 32,
                ;
                assert(((self & !(1u32 << at)) >> q) & 1u32 == 1u32 <==> (q != at && (self >> q)
                    & 1u32 == 1u32)) by (bit_vector)
                    requires
                        at < 32,
                        q < 32,
                ;
            }
        }
        unit
    }

    fn splat(value: bool) -> (unit: Self) {
        let unit: u32 = if value {
            0xffff_ffffu32
        } else {
            0u32
        };
        proof {
            assert forall|p: nat| p < 32 implies #[trigger] unit.bit(p) == value by {
                let q: u32 = p as u32;
                assert((0xffff_ffffu32 >> q) & 1u32 == 1u32 && (0u32 >> q) & 1u32 != 1u32) by (bit_vector)
                    requires
                        q < 32,
                ;
            }
        }
        unit
    }
}

/// Two units that agree on every bit agree on what is left after dropping
/// their `from` low bits.
proof fn lemma_same_tail_u32(a: u32, b: u32, from: u32)
    requires
        from < 32,
        forall|position: nat| position < 32 ==> a.bit(position) == b.bit(position),
    ensures
        a >> from == b >> from,
    decreases 32 - from,
{
    assert(a.bit(from as nat) == b.bit(from as nat));
    if from == 31 {
        assert(a >> from == b >> from) by (bit_vector)
            requires
                from == 31,
                ((a >> from) & 1u32 == 1u32) == ((b >> from) & 1u32 == 1u32),
        ;
    } else {
        let next: u32 = (from + 1) as u32;
        lemma_same_tail_u32(a, b, next);
        assert(a >> from == b >> from) by (bit_vector)
            requires
                from < 31,
                next == from + 1,
                a >> next == b >> next,
                ((a >> from) & 1u32 == 1u32) == ((b >> from) & 1u32 == 1u32),
        ;
    }
}

impl BitStore for u64 {
    open spec fn width() -> nat {
        64
    }

    open spec fn bit(self, position: nat) -> bool {
        position < 64 && (self >> (position as u64)) & 1u64 == 1u64
    }

    proof fn lemma_width() {
    }

    proof fn lemma_same_bits(a: Self, b: Self) {
        lemma_same_tail_u64(a, b, 0);
        assert(a >> 0u64 == a && b >> 0u64 == b) by (bit_vector);
    }

    fn bits() -> (width: u8) {
        64
    }

    fn load(self, position: u8) -> (bit: bool) {
        (self >> position) & 1u64 == 1u64
    }

    fn store(self, position: u8, value: bool) -> (unit: Self) {
        let mask: u64 = 1u64 << position;
        let unit: u64 = if value {
            self | mask
        } else {
            self & !mask
        };
        proof {
            let at: u64 = position as u64;
            assert forall|p: nat| p < 64 implies #[trigger] unit.bit(p) == (if p == position as nat {
                value
            } else {
                self.bit(p)
            }) by {
                let q: u64 = p as u64;
                assert(((self | (1u64 << at)) >> q) & 1u64 == 1u64 <==> (q == at || (self >> q)
                    & 1u64 == 1u64)) by (bit_vector)
                    requires
                        at < 64,
                        q < 64,
                ;
                assert(((self & !(1u64 << at)) >> q) & 1u64 == 1u64 <==> (q != at && (self >> q)
                    & 1u64 == 1u64)) by (bit_vector)
                    requires
                        at < 64,
                        q < 64,
                ;
            }
        }
        unit
    }

    fn splat(value: bool) -> (unit: Self) {
        let unit: u64 = if value {
            0xffff_ffff_ffff_ffffu64
        } else {
            0u64
        };
        proof {
            assert forall|p: nat| p < 64 implies #[trigger] unit.bit(p) == value by {
                let q: u64 = p as u64;
                assert((0xffff_ffff_ffff_ffffu64 >> q) & 1u64 == 1u64 && (0u64 >> q) & 1u64 != 1u64) by (bit_vector)
                    requires
                        q < 64,
                ;
            }
        }
        unit
    }
}

/// Two units that agree on every bit agree on what is left after dropping
/// their `from` low bits.
proof fn lemma_same_tail_u64(a: u64, b: u64, from: u64)
    requires
        from < 64,
        forall|position: nat| position < 64 ==> a.bit(position) == b.bit(position),
    ensures
        a >> from == b >> from,
    decreases 64 - from,
{
    assert(a.bit(from as nat) == b.bit(from as nat));
    if from == 63 {
        assert(a >> from == b >> from) by (bit_vector)
            requires
                from == 63,
                ((a >> from) & 1u64 == 1u64) == ((b >> from) & 1u64 == 1u64),
        ;
    } else {
        let next: u64 = (from + 1) as u64;
        lemma_same_tail_u64(a, b, next);
        assert(a >> from == b >> from) by (bit_vector)
            requires
                from < 63,
                next == from + 1,
                a >> next == b >> next,
                ((a >> from) & 1u64 == 1u64) == ((b >> from) & 1u64 == 1u64),
        ;
    }
}

} // verus!
