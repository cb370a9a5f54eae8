//! The mathematical model of a bit region.
//!
//! Storage units lie end to end; the bit with index `i` of unit `u` has the
//! address `u * width + i`. A region is a run of consecutive addresses.

use vstd::arithmetic::div_mod::{lemma_fundamental_div_mod, lemma_fundamental_div_mod_converse};
use vstd::prelude::*;

verus! {

/// A region of bits: where it starts and how far it reaches.
pub struct BitSpan {
    /// Index of the first storage unit of the region.
    pub ptr: nat,
    /// Number of storage units that the region touches.
    pub elements: nat,
    /// Index, within the first unit, of the first live bit.
    pub head: nat,
    /// Index, within the last unit, one past the last live bit.
    pub tail: nat,
}

impl BitSpan {
    /// The canonical empty region.
    pub open spec fn empty() -> BitSpan {
        BitSpan { ptr: 0, elements: 0, head: 0, tail: 0 }
    }

    /// Whether `self` describes at least one bit of units `width` bits wide.
    pub open spec fn is_region(self, width: nat) -> bool {
        &&& 1 <= self.elements
        &&& self.head < width
        &&& 1 <= self.tail <= width
        &&& self.elements == 1 ==> self.head < self.tail
    }

    /// Whether `self` is the empty region or describes at least one bit.
    pub open spec fn valid(self, width: nat) -> bool {
        self == BitSpan::empty() || self.is_region(width)
    }

    /// The number of bits in the region.
    pub open spec fn len(self, width: nat) -> nat {
        if self.elements == 0 {
            0
        } else {
            ((self.elements - 1) * width - self.head + self.tail) as nat
        }
    }

    /// The address of the first bit of the region.
    pub open spec fn start(self, width: nat) -> nat {
        self.ptr * width + self.head
    }

    /// The address one past the last bit of the region.
    pub open spec fn end(self, width: nat) -> nat {
        self.start(width) + self.len(width)
    }

    /// Whether the region lies inside a storage of `units` units.
    pub open spec fn fits(self, units: nat) -> bool {
        self.elements == 0 || self.ptr + self.elements <= units
    }

    /// Whether the bit at `address` belongs to the region.
    pub open spec fn covers(self, width: nat, address: int) -> bool {
        self.start(width) <= address < self.end(width)
    }

    /// The indices of the first unit that lies whole inside the region and of
    /// the unit after the last such. A first unit entered after its first
    /// bit, or a last unit left before its last bit, is not whole.
    pub open spec fn whole_units(self, width: nat) -> (nat, nat) {
        if self.elements == 0 {
            (0, 0)
        } else {
            let from = if self.head == 0 {
                self.ptr
            } else {
                self.ptr + 1
            };
            let to = if self.tail == width {
                self.ptr + self.elements
            } else {
                (self.ptr + self.elements - 1) as nat
            };
            if from <= to {
                (from, to)
            } else {
                (from, from)
            }
        }
    }

    /// The region made of the bits `from..to` of `self`; the canonical empty
    /// region where `from == to`.
    pub open spec fn range(self, width: nat, from: nat, to: nat) -> BitSpan {
        if from >= to {
            BitSpan::empty()
        } else {
            let first = (self.head + from) / width;
            let last = ((self.head + to - 1) as nat) / width;
            BitSpan {
                ptr: self.ptr + first,
                elements: (last - first + 1) as nat,
                head: (self.head + from) % width,
                tail: ((self.head + to - 1) as nat) % width + 1,
            }
        }
    }
}

/// The number of whole units that it takes to hold `bits` bits.
pub open spec fn units_for(bits: nat, width: nat) -> nat {
    if bits == 0 {
        0
    } else {
        ((bits - 1) as nat) / width + 1
    }
}

/// `units_for` rounds up: the units hold the bits, one unit fewer would not,
/// and as many units as hold the bits are enough.
pub proof fn lemma_units_for(bits: nat, width: nat, units: nat)
    requires
        width > 0,
    ensures
        bits <= units_for(bits, width) * width < bits + width,
        bits <= units * width <==> units_for(bits, width) <= units,
{
    if bits > 0 {
        let last = (bits - 1) as int;
        let w = width as int;
        lemma_fundamental_div_mod(last, w);
        let q = last / w;
        assert(bits <= (q + 1) * w < bits + w) by (nonlinear_arith)
            requires
                last == w * q + last % w,
                0 <= last % w < w,
                last == bits - 1,
        {
        }
        assert(q >= 0) by (nonlinear_arith)
            requires
                last == w * q + last % w,
                0 <= last % w < w,
                last >= 0,
                w > 0,
        {
        }
        assert(bits <= units * w <==> q + 1 <= units) by (nonlinear_arith)
            requires
                last == w * q + last % w,
                0 <= last % w < w,
                last == bits - 1,
                w > 0,
        {
        }
    } else {
        assert(units * width >= 0) by (nonlinear_arith)
            requires
                units >= 0,
                width >= 0,
        {
        }
    }
}

/// The largest number of units that a packed region of `width`-bit units can
/// span: what is left of a word after both offsets took their share.
pub open spec fn max_elements(width: nat) -> nat {
    ((usize::MAX - (width * width - 1)) / (width * width) as int) as nat
}

/// The capacity leaves room for more than a million units whatever the
/// width and the size of a word, and a region of as many units as the
/// capacity allows holds a number of bits that fits a word.
pub proof fn lemma_max_elements(width: nat)
    requires
        0 < width <= 64,
    ensures
        max_elements(width) >= 0xf_ffff,
        max_elements(width) * width <= usize::MAX,
{
    let square = (width * width) as int;
    assert(0 < square <= 4096 && width <= square) by (nonlinear_arith)
        requires
            0 < width <= 64,
            square == width * width,
    {
    }
    let room = usize::MAX - (square - 1);
    lemma_fundamental_div_mod(room, square);
    let most = room / square;
    assert(most * width <= usize::MAX) by (nonlinear_arith)
        requires
            room == square * most + room % square,
            0 <= room % square < square,
            room >= 2 * square,
            room <= usize::MAX,
            0 < width <= square,
    {
    }
    assert(most >= 0xf_ffff) by (nonlinear_arith)
        requires
            room == square * most + room % square,
            0 <= room % square < square,
            room >= 0xffff_ffff - 4095,
            0 < square <= 4096,
    {
    }
}

/// The length word that packs a region: the unit count above the tail, the
/// tail above the head. The empty region packs to zero.
pub open spec fn encode_word(span: BitSpan, width: nat) -> nat {
    if span.elements == 0 {
        0
    } else {
        ((span.elements * width + (span.tail - 1)) * width + span.head) as nat
    }
}

/// The region that a pointer word and a length word stand for.
pub open spec fn decode_words(ptr: nat, word: nat, width: nat) -> BitSpan {
    if word == 0 {
        BitSpan::empty()
    } else {
        BitSpan {
            ptr,
            elements: (word / width) / width,
            head: word % width,
            tail: (word / width) % width + 1,
        }
    }
}

/// Decoding undoes encoding: a region that is packed and unpacked again is
/// the region that went in.
pub proof fn lemma_decode_encode(span: BitSpan, width: nat)
    requires
        width > 0,
        span.is_region(width),
    ensures
        encode_word(span, width) >= width * width,
        decode_words(span.ptr, encode_word(span, width), width) == span,
{
    let upper = span.elements * width + (span.tail - 1);
    let word = encode_word(span, width);
    assert(word == upper * width + span.head);
    lemma_fundamental_div_mod_converse(word as int, width as int, upper as int, span.head as int);
    lemma_fundamental_div_mod_converse(
        upper as int,
        width as int,
        span.elements as int,
        span.tail - 1,
    );
    assert(upper >= width) by (nonlinear_arith)
        requires
            upper == span.elements * width + (span.tail - 1),
            span.elements >= 1,
            span.tail >= 1,
            width > 0,
    {
    }
    assert(upper * width >= width * width) by (nonlinear_arith)
        requires
            upper >= width,
            width > 0,
    {
    }
}

/// Only the empty region packs to the zero word, so no region of at least one
/// bit can be mistaken for it.
pub proof fn lemma_encode_zero(span: BitSpan, width: nat)
    requires
        width > 0,
        span.valid(width),
    ensures
        encode_word(span, width) == 0 <==> span == BitSpan::empty(),
{
    if span.elements != 0 {
        lemma_decode_encode(span, width);
        assert(width * width > 0) by (nonlinear_arith)
            requires
                width > 0,
        {
        }
    }
}

/// A region within the capacity packs into one machine word.
pub proof fn lemma_encode_bound(span: BitSpan, width: nat)
    requires
        0 < width <= 64,
        span.is_region(width),
        span.elements <= max_elements(width),
    ensures
        encode_word(span, width) <= usize::MAX,
        span.elements * width <= usize::MAX,
        span.head + span.len(width) <= span.elements * width,
{
    lemma_len(span, width);
    let square = (width * width) as int;
    assert(0 < square <= 4096) by (nonlinear_arith)
        requires
            0 < width <= 64,
            square == width * width,
    {
    }
    let room = usize::MAX - (square - 1);
    lemma_fundamental_div_mod(room, square);
    let most = room / square;
    assert(square * most <= room);
    assert(span.elements * square <= most * square) by (nonlinear_arith)
        requires
            span.elements <= most,
            square > 0,
    {
    }
    assert(most * square == square * most) by (nonlinear_arith);
    assert((span.elements * width + (span.tail - 1)) * width + span.head <= span.elements * square
        + square - 1) by (nonlinear_arith)
        requires
            square == width * width,
            span.tail <= width,
            span.head < width,
            width > 0,
    {
    }
    assert(span.elements * width <= span.elements * square) by (nonlinear_arith)
        requires
            square == width * width,
            width > 0,
    {
    }
    assert((span.elements - 1) * width + span.tail <= span.elements * width) by (nonlinear_arith)
        requires
            span.tail <= width,
            span.elements >= 1,
    {
    }
}

/// The length of a region is zero exactly for the empty region; any other
/// valid region holds `(elements - 1) * width - head + tail` bits, at least
/// one.
pub proof fn lemma_len(span: BitSpan, width: nat)
    requires
        width > 0,
        span.valid(width),
    ensures
        span.len(width) == 0 <==> span == BitSpan::empty(),
        span.is_region(width) ==> span.len(width) == (span.elements - 1) * width - span.head
            + span.tail,
        span.is_region(width) ==> span.len(width) >= 1,
{
    if span.is_region(width) {
        assert((span.elements - 1) * width - span.head + span.tail >= 1) by (nonlinear_arith)
            requires
                span.is_region(width),
                width > 0,
        {
        }
    }
}

/// Where the bit with index `index` of a region lies: its unit and its index
/// within that unit.
pub proof fn lemma_locate(span: BitSpan, width: nat, index: nat)
    requires
        width > 0,
        span.is_region(width),
        index < span.len(width),
    ensures
        (span.start(width) + index) / width == span.ptr + (span.head + index) / width,
        (span.start(width) + index) % width == (span.head + index) % width,
        (span.head + index) / width < span.elements,
        (span.head + index) % width < width,
{
    lemma_len(span, width);
    let offset = (span.head + index) as int;
    let unit = offset / width as int;
    let bit = offset % width as int;
    lemma_fundamental_div_mod(offset, width as int);
    assert(span.ptr * width + offset == (span.ptr + unit) * width + bit) by (nonlinear_arith)
        requires
            offset == width * unit + bit,
    {
    }
    lemma_fundamental_div_mod_converse(
        span.ptr * width + offset,
        width as int,
        span.ptr + unit,
        bit,
    );
    assert(unit < span.elements) by (nonlinear_arith)
        requires
            offset == width * unit + bit,
            0 <= bit,
            offset < (span.elements - 1) * width + span.tail,
            span.tail <= width,
            width > 0,
    {
    }
}

/// The whole units of a region are the units that it covers from their first
/// bit to their last: every bit of a whole unit belongs to the region, and a
/// unit all of whose bits belong to the region is whole.
pub proof fn lemma_whole_units(span: BitSpan, width: nat, unit: nat)
    requires
        width > 0,
        span.valid(width),
    ensures
        span.whole_units(width).0 <= unit < span.whole_units(width).1 <==> (forall|index: int|
            0 <= index < width ==> #[trigger] span.covers(width, unit * width + index)),
        span.whole_units(width).0 <= span.whole_units(width).1,
        span.elements > 0 ==> span.ptr <= span.whole_units(width).0 && span.whole_units(width).1
            <= span.ptr + span.elements,
{
    let w = width as int;
    let first = unit * w;
    let last = unit * w + (w - 1);
    if span.elements == 0 {
        assert(!span.covers(width, first + 0));
    } else {
        lemma_len(span, width);
        let start = span.start(width) as int;
        let end = span.end(width) as int;
        assert(end == (span.ptr + span.elements - 1) * w + span.tail) by (nonlinear_arith)
            requires
                start == span.ptr * w + span.head,
                end == start + ((span.elements - 1) * w - span.head + span.tail),
        {
        }
        let from = span.whole_units(width).0;
        let to = span.whole_units(width).1;
        let ptr = span.ptr as int;
        let elements = span.elements as int;
        let from_unit: int = if span.head == 0 {
            ptr
        } else {
            ptr + 1
        };
        let to_unit: int = if span.tail == w {
            ptr + elements
        } else {
            ptr + elements - 1
        };
        assert(start <= first <==> from_unit <= unit) by (nonlinear_arith)
            requires
                start == span.ptr * w + span.head,
                first == unit * w,
                0 <= span.head < w,
                from_unit == (if span.head == 0 {
                    ptr
                } else {
                    ptr + 1
                }),
                ptr == span.ptr,
        {
        }
        assert(last < end <==> unit < to_unit) by (nonlinear_arith)
            requires
                end == (span.ptr + span.elements - 1) * w + span.tail,
                last == unit * w + (w - 1),
                1 <= span.tail <= w,
                to_unit == (if span.tail == w {
                    ptr + elements
                } else {
                    ptr + elements - 1
                }),
                ptr == span.ptr,
                elements == span.elements,
        {
        }
        if from <= unit < to {
            assert forall|index: int| 0 <= index < width implies #[trigger] span.covers(
                width,
                unit * width + index,
            ) by {}
        } else {
            if start <= first {
                assert(!span.covers(width, first + (w - 1)));
            } else {
                assert(!span.covers(width, first + 0));
            }
        }
    }
}

/// A range of a region is a region of its own: it starts `from` bits into
/// `span`, holds `to - from` bits, and touches no unit that `span` does not.
pub proof fn lemma_range(span: BitSpan, width: nat, from: nat, to: nat)
    requires
        width > 0,
        span.is_region(width),
        from < to <= span.len(width),
    ensures
        span.range(width, from, to).is_region(width),
        span.range(width, from, to).start(width) == span.start(width) + from,
        span.range(width, from, to).len(width) == to - from,
        span.range(width, from, to).elements <= span.elements,
        span.range(width, from, to).ptr >= span.ptr,
        span.range(width, from, to).ptr + span.range(width, from, to).elements <= span.ptr
            + span.elements,
        (span.head + from) / width <= ((span.head + to - 1) as nat) / width,
{
    let sub = span.range(width, from, to);
    let lo = (span.head + from) as int;
    let hi = (span.head + to - 1) as int;
    let w = width as int;
    lemma_fundamental_div_mod(lo, w);
    lemma_fundamental_div_mod(hi, w);
    lemma_locate(span, width, from);
    lemma_locate(span, width, (to - 1) as nat);
    let first = lo / w;
    let last = hi / w;
    assert(first <= last) by (nonlinear_arith)
        requires
            lo == w * first + lo % w,
            hi == w * last + hi % w,
            0 <= lo % w < w,
            0 <= hi % w < w,
            lo <= hi,
    {
    }
    assert(first == last ==> lo % w <= hi % w) by (nonlinear_arith)
        requires
            lo == w * first + lo % w,
            hi == w * last + hi % w,
            lo <= hi,
    {
    }
    assert(sub.ptr * w + sub.head == span.ptr * w + lo) by (nonlinear_arith)
        requires
            sub.ptr == span.ptr + first,
            sub.head == lo % w,
            lo == w * first + lo % w,
    {
    }
    assert((sub.elements - 1) * w - sub.head + sub.tail == hi - lo + 1) by (nonlinear_arith)
        requires
            sub.elements - 1 == last - first,
            sub.head == lo % w,
            sub.tail == hi % w + 1,
            lo == w * first + lo % w,
            hi == w * last + hi % w,
    {
    }
}

} // verus!
