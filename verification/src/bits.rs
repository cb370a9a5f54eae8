//! Storage seen as one long sequence of bits.

use crate::order::{lemma_position_injective, BitOrder};
use crate::store::BitStore;
use vstd::arithmetic::div_mod::{lemma_fundamental_div_mod, lemma_fundamental_div_mod_converse};
use vstd::prelude::*;

verus! {

/// The bit at `address` of `mem`: the bit with index `address % width` of the
/// unit `address / width`, found where the bit order `C` puts it.
pub open spec fn bit_at<C: BitOrder, T: BitStore>(mem: Seq<T>, address: int) -> bool {
    mem[address / T::width() as int].bit(
        C::position((address % T::width() as int) as nat, T::width()),
    )
}

/// All bits of `mem`, by address.
pub open spec fn memory_bits<C: BitOrder, T: BitStore>(mem: Seq<T>) -> Seq<bool> {
    Seq::new(mem.len() * T::width(), |address: int| bit_at::<C, T>(mem, address))
}

/// `bits` with the run that starts at `at` replaced by `with`.
pub open spec fn overwrite(bits: Seq<bool>, at: int, with: Seq<bool>) -> Seq<bool> {
    Seq::new(
        bits.len(),
        |i: int|
            if at <= i < at + with.len() {
                with[i - at]
            } else {
                bits[i]
            },
    )
}

/// `bits` with the bits at `a` and `b` exchanged.
pub open spec fn swapped(bits: Seq<bool>, a: int, b: int) -> Seq<bool> {
    bits.update(a, bits[b]).update(b, bits[a])
}

/// `bits` moved towards the front by `by` places, the first `by` bits
/// following the others.
pub open spec fn rotated_left(bits: Seq<bool>, by: int) -> Seq<bool> {
    bits.skip(by) + bits.take(by)
}

/// `bits` moved towards the back by `by` places, the last `by` bits going
/// before the others.
pub open spec fn rotated_right(bits: Seq<bool>, by: int) -> Seq<bool> {
    bits.skip(bits.len() - by) + bits.take(bits.len() - by)
}

/// `len` bits that are all `value`.
pub open spec fn filled(len: nat, value: bool) -> Seq<bool> {
    Seq::new(len, |i: int| value)
}

/// The number of `true` bits in `bits`.
pub open spec fn count_ones(bits: Seq<bool>) -> nat
    decreases bits.len(),
{
    if bits.len() == 0 {
        0
    } else {
        count_ones(bits.drop_last()) + if bits.last() {
            1nat
        } else {
            0nat
        }
    }
}

/// The number of `false` bits in `bits`.
pub open spec fn count_zeros(bits: Seq<bool>) -> nat
    decreases bits.len(),
{
    if bits.len() == 0 {
        0
    } else {
        count_zeros(bits.drop_last()) + if bits.last() {
            0nat
        } else {
            1nat
        }
    }
}

/// Addresses split into a unit and an index within it, and back.
pub proof fn lemma_address(unit: int, index: int, width: int)
    requires
        0 <= index < width,
    ensures
        (unit * width + index) / width == unit,
        (unit * width + index) % width == index,
{
    lemma_fundamental_div_mod_converse(unit * width + index, width, unit, index);
}

/// An address below `units * width` lies in one of the first `units` units.
pub proof fn lemma_address_in_memory(address: int, units: int, width: int)
    requires
        0 < width,
        0 <= address < units * width,
    ensures
        0 <= address / width < units,
        0 <= address % width < width,
        address == (address / width) * width + address % width,
{
    lemma_fundamental_div_mod(address, width);
    let unit = address / width;
    let index = address % width;
    assert(0 <= unit < units) by (nonlinear_arith)
        requires
            address == width * unit + index,
            0 <= index < width,
            0 <= address < units * width,
    {
    }
    assert(width * unit == unit * width) by (nonlinear_arith);
}

/// Writing one bit of one unit changes one bit of the storage: the one at
/// the address of that unit and index. Every other bit, of that unit and of
/// every other, stays as it was.
pub proof fn lemma_store_bit<C: BitOrder, T: BitStore>(
    mem: Seq<T>,
    unit: int,
    index: nat,
    stored: T,
    value: bool,
)
    requires
        0 <= unit < mem.len(),
        index < T::width(),
        forall|p: nat|
            p < T::width() ==> #[trigger] stored.bit(p) == (if p == C::position(
                index,
                T::width(),
            ) {
                value
            } else {
                mem[unit].bit(p)
            }),
    ensures
        memory_bits::<C, T>(mem.update(unit, stored)) == memory_bits::<C, T>(mem).update(
            unit * T::width() + index,
            value,
        ),
{
    let width = T::width();
    let after = mem.update(unit, stored);
    let target = unit * width + index;
    assert(mem.len() * width == after.len() * width);
    lemma_address(unit, index as int, width as int);
    assert(0 <= target < mem.len() * width) by (nonlinear_arith)
        requires
            0 <= unit < mem.len(),
            0 <= index < width,
            target == unit * width + index,
    {
    }
    assert forall|address: int| 0 <= address < mem.len() * width implies #[trigger] bit_at::<C, T>(
        after,
        address,
    ) == (if address == target {
        value
    } else {
        bit_at::<C, T>(mem, address)
    }) by {
        lemma_address_in_memory(address, mem.len() as int, width as int);
        let u = address / width as int;
        let i = (address % width as int) as nat;
        C::lemma_position(i, width);
        C::lemma_position(index, width);
        if u == unit {
            if i != index {
                if C::position(i, width) == C::position(index, width) {
                    lemma_position_injective::<C>(i, index, width);
                }
            }
        }
    }
    assert(memory_bits::<C, T>(after) =~= memory_bits::<C, T>(mem).update(target, value));
}

/// The bits of a storage do not depend on the units that follow it: a
/// storage that starts with the units of `short` starts with its bits.
pub proof fn lemma_memory_prefix<C: BitOrder, T: BitStore>(short: Seq<T>, long: Seq<T>)
    requires
        short.len() <= long.len(),
        forall|unit: int| 0 <= unit < short.len() ==> short[unit] == long[unit],
    ensures
        short.len() * T::width() <= long.len() * T::width(),
        memory_bits::<C, T>(long).take((short.len() * T::width()) as int) == memory_bits::<C, T>(
            short,
        ),
{
    let width = T::width();
    T::lemma_width();
    assert(short.len() * width <= long.len() * width) by (nonlinear_arith)
        requires
            short.len() <= long.len(),
            width >= 0,
    {
    }
    assert forall|address: int| 0 <= address < short.len() * width implies bit_at::<C, T>(
        long,
        address,
    ) == bit_at::<C, T>(short, address) by {
        lemma_address_in_memory(address, short.len() as int, width as int);
    }
    assert(memory_bits::<C, T>(long).take((short.len() * width) as int) =~= memory_bits::<C, T>(
        short,
    ));
}

/// Storage is determined by its bits: two storages of the same size with the
/// same bits at every address are the same storage.
pub proof fn lemma_memory_ext<C: BitOrder, T: BitStore>(a: Seq<T>, b: Seq<T>)
    requires
        a.len() == b.len(),
        memory_bits::<C, T>(a) == memory_bits::<C, T>(b),
    ensures
        a == b,
{
    let width = T::width();
    T::lemma_width();
    assert forall|unit: int| 0 <= unit < a.len() implies a[unit] == b[unit] by {
        assert forall|p: nat| p < width implies a[unit].bit(p) == b[unit].bit(p) by {
            C::lemma_index(p, width);
            let index = C::index(p, width);
            let address = unit * width + index;
            lemma_address(unit, index as int, width as int);
            assert(0 <= address < a.len() * width) by (nonlinear_arith)
                requires
                    0 <= unit < a.len(),
                    0 <= index < width,
                    address == unit * width + index,
            {
            }
            assert(memory_bits::<C, T>(a)[address] == bit_at::<C, T>(a, address));
            assert(memory_bits::<C, T>(b)[address] == bit_at::<C, T>(b, address));
        }
        T::lemma_same_bits(a[unit], b[unit]);
    }
    assert(a =~= b);
}

/// Reversing twice gives the bits back.
pub proof fn lemma_reverse_twice(bits: Seq<bool>)
    ensures
        bits.reverse().reverse() == bits,
{
    assert(bits.reverse().reverse() =~= bits);
}

/// A rotation one way undoes the rotation by as much the other way.
pub proof fn lemma_rotate_back(bits: Seq<bool>, by: int)
    requires
        0 <= by <= bits.len(),
    ensures
        rotated_left(rotated_right(bits, by), by) == bits,
        rotated_right(rotated_left(bits, by), by) == bits,
        rotated_right(bits, by) == rotated_left(bits, bits.len() - by),
{
    assert(rotated_left(rotated_right(bits, by), by) =~= bits);
    assert(rotated_right(rotated_left(bits, by), by) =~= bits);
}

/// Every bit is either set or clear.
pub proof fn lemma_count_total(bits: Seq<bool>)
    ensures
        count_ones(bits) + count_zeros(bits) == bits.len(),
    decreases bits.len(),
{
    if bits.len() > 0 {
        lemma_count_total(bits.drop_last());
    }
}

/// No bit is clear exactly when every bit is set.
pub proof fn lemma_count_zeros_none(bits: Seq<bool>)
    ensures
        count_zeros(bits) == 0 <==> (forall|i: int| 0 <= i < bits.len() ==> bits[i]),
    decreases bits.len(),
{
    if bits.len() > 0 {
        let front = bits.drop_last();
        lemma_count_zeros_none(front);
        if count_zeros(bits) == 0 {
            assert forall|i: int| 0 <= i < bits.len() implies bits[i] by {
                if i < front.len() {
                    assert(front[i]);
                }
            }
        } else if forall|i: int| 0 <= i < bits.len() ==> bits[i] {
            assert forall|i: int| 0 <= i < front.len() implies front[i] by {
                assert(bits[i]);
            }
            assert(bits.last());
        }
    }
}

/// Some bit is set exactly when the count of set bits is not zero.
pub proof fn lemma_count_ones_some(bits: Seq<bool>)
    ensures
        count_ones(bits) > 0 <==> (exists|i: int| 0 <= i < bits.len() && bits[i]),
    decreases bits.len(),
{
    if bits.len() > 0 {
        let front = bits.drop_last();
        lemma_count_ones_some(front);
        if count_ones(bits) > 0 {
            if bits.last() {
                assert(0 <= bits.len() - 1 < bits.len() && bits[bits.len() - 1]);
            } else {
                let i = choose|i: int| 0 <= i < front.len() && front[i];
                assert(0 <= i < bits.len() && bits[i]);
            }
        } else if exists|i: int| 0 <= i < bits.len() && bits[i] {
            let i = choose|i: int| 0 <= i < bits.len() && bits[i];
            if i < front.len() {
                assert(0 <= i < front.len() && front[i]);
            }
        }
    }
}

} // verus!
