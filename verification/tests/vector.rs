use bitvec::{BigEndian, BitVec, LittleEndian};

type Bits = BitVec<BigEndian, u8>;

fn contents<C: bitvec::BitOrder, T: bitvec::BitStore>(bits: &BitVec<C, T>) -> Vec<bool> {
    let (view, units) = bits.as_bitslice();
    (0..view.len()).map(|index| view.get(units, index).unwrap()).collect()
}

fn from_bools(values: &[bool]) -> Bits {
    let mut bits = Bits::new();
    for value in values {
        bits.push(*value);
    }
    bits
}

fn pattern(len: usize) -> Vec<bool> {
    (0..len).map(|index| index % 3 == 0 || index % 7 == 2).collect()
}

#[test]
fn new_is_empty() {
    let bits = Bits::new();
    assert!(bits.is_empty());
    assert_eq!(bits.len(), 0);
    assert_eq!(bits.capacity(), 0);
    assert_eq!(contents(&bits), Vec::<bool>::new());
}

#[test]
fn push_three_then_pop() {
    let mut bits = Bits::new();
    bits.push(true);
    bits.push(true);
    bits.push(true);
    assert_eq!(bits.pop(), Some(true));
    assert_eq!(bits.len(), 2);
}

#[test]
fn pop_on_empty_gives_nothing() {
    let mut bits = Bits::new();
    assert_eq!(bits.pop(), None);
    assert_eq!(bits.len(), 0);
    bits.push(false);
    assert_eq!(bits.pop(), Some(false));
    assert_eq!(bits.pop(), None);
}

#[test]
fn push_and_pop_are_last_in_first_out() {
    let values = pattern(100);
    let mut bits = from_bools(&values);
    assert_eq!(bits.len(), 100);
    assert_eq!(contents(&bits), values);
    for value in values.iter().rev() {
        assert_eq!(bits.pop(), Some(*value));
    }
    assert!(bits.is_empty());
}

#[test]
fn with_capacity_rounds_up_to_whole_units() {
    assert_eq!(Bits::with_capacity(0).capacity(), 0);
    assert_eq!(Bits::with_capacity(1).capacity(), 8);
    assert_eq!(Bits::with_capacity(8).capacity(), 8);
    assert_eq!(Bits::with_capacity(9).capacity(), 16);
    assert_eq!(BitVec::<LittleEndian, u64>::with_capacity(65).capacity(), 128);
    assert_eq!(BitVec::<LittleEndian, u32>::with_capacity(32).capacity(), 32);
    assert!(Bits::with_capacity(77).is_empty());
}

#[test]
fn push_grows_only_a_full_buffer() {
    let mut bits = Bits::with_capacity(16);
    for _ in 0..16 {
        bits.push(true);
        assert_eq!(bits.capacity(), 16);
    }
    bits.push(false);
    assert_eq!(bits.capacity(), 32);
    assert_eq!(bits.len(), 17);
}

#[test]
fn growth_doubles() {
    let mut bits = Bits::new();
    let mut seen = Vec::new();
    for _ in 0..70 {
        bits.push(true);
        if seen.last() != Some(&bits.capacity()) {
            seen.push(bits.capacity());
        }
    }
    assert_eq!(seen, vec![8, 16, 32, 64, 128]);
}

#[test]
fn reserve_makes_room() {
    let mut bits = from_bools(&pattern(5));
    assert_eq!(bits.capacity(), 8);
    bits.reserve(3);
    assert_eq!(bits.capacity(), 8);
    bits.reserve(4);
    assert_eq!(bits.capacity(), 16);
    bits.reserve(100);
    assert_eq!(bits.capacity(), 112);
    assert_eq!(contents(&bits), pattern(5));
    let capacity = bits.capacity();
    for _ in 0..100 {
        bits.push(true);
    }
    assert_eq!(bits.capacity(), capacity);
}

#[test]
fn shrink_to_fit_keeps_the_bits() {
    let mut bits = Bits::with_capacity(200);
    for value in pattern(13) {
        bits.push(value);
    }
    assert_eq!(bits.capacity(), 200);
    bits.shrink_to_fit();
    assert_eq!(bits.capacity(), 16);
    assert_eq!(contents(&bits), pattern(13));
    bits.clear();
    bits.shrink_to_fit();
    assert_eq!(bits.capacity(), 0);
}

#[test]
fn truncate_drops_the_end() {
    let mut bits = from_bools(&pattern(20));
    let capacity = bits.capacity();
    bits.truncate(25);
    assert_eq!(contents(&bits), pattern(20));
    bits.truncate(20);
    assert_eq!(contents(&bits), pattern(20));
    bits.truncate(7);
    assert_eq!(contents(&bits), pattern(20)[..7].to_vec());
    assert_eq!(bits.capacity(), capacity);
    bits.truncate(0);
    assert!(bits.is_empty());
}

#[test]
fn clear_keeps_the_buffer() {
    let mut bits = from_bools(&pattern(20));
    let capacity = bits.capacity();
    bits.clear();
    assert!(bits.is_empty());
    assert_eq!(bits.capacity(), capacity);
}

#[test]
fn view_covers_exactly_the_live_bits() {
    let bits = from_bools(&pattern(11));
    let (view, units) = bits.as_bitslice();
    assert_eq!(view.len(), 11);
    assert_eq!(view.get(units, 10), Some(pattern(11)[10]));
    assert_eq!(view.get(units, 11), None);
    assert_eq!(view.as_bitptr().decode(), (0, 2, 0, 3));
    let empty = Bits::with_capacity(40);
    let (view, _) = empty.as_bitslice();
    assert!(view.is_empty());
}

#[test]
fn writes_through_the_view_reach_the_container() {
    let mut bits = from_bools(&[false; 12]);
    {
        let (view, units) = bits.as_mut_bitslice();
        view.set(units, 3, true);
        view.set(units, 11, true);
        view.set(units, 12, true);
    }
    let mut expected = vec![false; 12];
    expected[3] = true;
    expected[11] = true;
    assert_eq!(contents(&bits), expected);
    assert_eq!(bits.len(), 12);
}

#[test]
fn insert_moves_the_rest_back() {
    for index in 0..=10 {
        for value in [false, true] {
            let mut bits = from_bools(&pattern(10));
            bits.insert(index, value);
            let mut expected = pattern(10);
            expected.insert(index, value);
            assert_eq!(contents(&bits), expected);
        }
    }
}

#[test]
fn insert_past_the_end_is_refused() {
    let mut bits = from_bools(&pattern(10));
    bits.insert(11, true);
    assert_eq!(contents(&bits), pattern(10));
}

#[test]
fn insert_into_a_full_buffer_grows_it() {
    let mut bits = from_bools(&pattern(8));
    assert_eq!(bits.capacity(), 8);
    bits.insert(0, true);
    assert_eq!(bits.capacity(), 16);
    assert_eq!(bits.len(), 9);
}

#[test]
fn remove_moves_the_rest_forward() {
    for index in 0..10 {
        let mut bits = from_bools(&pattern(10));
        let mut expected = pattern(10);
        assert_eq!(bits.remove(index), Some(expected.remove(index)));
        assert_eq!(contents(&bits), expected);
    }
}

#[test]
fn remove_out_of_range_is_refused() {
    let mut bits = from_bools(&pattern(10));
    assert_eq!(bits.remove(10), None);
    assert_eq!(bits.remove(usize::MAX), None);
    assert_eq!(contents(&bits), pattern(10));
    assert_eq!(Bits::new().remove(0), None);
}

#[test]
fn swap_remove_puts_the_last_bit_in_place() {
    for index in 0..10 {
        let mut bits = from_bools(&pattern(10));
        let mut expected = pattern(10);
        assert_eq!(bits.swap_remove(index), Some(expected.swap_remove(index)));
        assert_eq!(contents(&bits), expected);
    }
    let mut bits = from_bools(&pattern(10));
    assert_eq!(bits.swap_remove(10), None);
    assert_eq!(contents(&bits), pattern(10));
}

#[test]
fn retain_keeps_the_order() {
    let mut bits = from_bools(&pattern(30));
    bits.retain(|bit| bit);
    let ones = pattern(30).iter().filter(|bit| **bit).count();
    assert_eq!(contents(&bits), vec![true; ones]);
    let mut bits = from_bools(&pattern(30));
    bits.retain(|bit| !bit);
    assert_eq!(contents(&bits), vec![false; 30 - ones]);
    let mut bits = from_bools(&pattern(30));
    bits.retain(|_| true);
    assert_eq!(contents(&bits), pattern(30));
    bits.retain(|_| false);
    assert!(bits.is_empty());
}

#[test]
fn split_off_at_four_of_ten() {
    let mut bits = from_bools(&pattern(10));
    let tail = bits.split_off(4).unwrap();
    assert_eq!(bits.len(), 4);
    assert_eq!(tail.len(), 6);
    let mut joined = contents(&bits);
    joined.extend(contents(&tail));
    assert_eq!(joined, pattern(10));
}

#[test]
fn split_off_everywhere() {
    for at in 0..=20 {
        let mut bits = from_bools(&pattern(20));
        let tail = bits.split_off(at).unwrap();
        assert_eq!(contents(&bits), pattern(20)[..at].to_vec());
        assert_eq!(contents(&tail), pattern(20)[at..].to_vec());
    }
}

#[test]
fn split_off_past_the_end_is_refused() {
    let mut bits = from_bools(&pattern(10));
    assert!(bits.split_off(11).is_none());
    assert_eq!(contents(&bits), pattern(10));
}

#[test]
fn resize_grows_with_the_value_and_shrinks() {
    let mut bits = from_bools(&pattern(5));
    bits.resize(12, true);
    let mut expected = pattern(5);
    expected.extend([true; 7]);
    assert_eq!(contents(&bits), expected);
    bits.resize(14, false);
    expected.extend([false; 2]);
    assert_eq!(contents(&bits), expected);
    bits.resize(3, true);
    assert_eq!(contents(&bits), pattern(5)[..3].to_vec());
    bits.resize(3, false);
    assert_eq!(bits.len(), 3);
    bits.resize(0, true);
    assert!(bits.is_empty());
}

#[test]
fn set_elements_fills_every_unit() {
    let mut bits = Bits::with_capacity(24);
    bits.resize(10, false);
    bits.set_elements(0b1100_0101);
    assert_eq!(bits.len(), 10);
    assert_eq!(bits.capacity(), 24);
    assert_eq!(
        contents(&bits),
        vec![true, true, false, false, false, true, false, true, true, true]
    );
    let (_, units) = bits.as_bitslice();
    assert_eq!(units, &[0b1100_0101u8; 3]);
}

#[test]
fn clone_is_independent() {
    let bits = from_bools(&pattern(19));
    let mut copy = bits.clone();
    assert_eq!(contents(&copy), pattern(19));
    assert_eq!(copy.capacity(), bits.capacity());
    copy.push(true);
    copy.insert(0, true);
    assert_eq!(contents(&bits), pattern(19));
    assert_eq!(copy.len(), 21);
}

#[test]
fn capacity_ceiling() {
    assert_eq!(Bits::max_bits(), ((usize::MAX - 63) / 64) * 8);
    assert_eq!(
        BitVec::<BigEndian, u64>::max_bits(),
        ((usize::MAX - 4095) / 4096) * 64
    );
}

#[test]
fn little_endian_words() {
    let mut bits = BitVec::<LittleEndian, u32>::new();
    for index in 0..40 {
        bits.push(index % 5 == 0);
    }
    assert_eq!(bits.capacity(), 64);
    let expected: Vec<bool> = (0..40).map(|index| index % 5 == 0).collect();
    assert_eq!(contents(&bits), expected);
    let (_, units) = bits.as_bitslice();
    assert_eq!(units[0], 0b0100_0010_0001_0000_1000_0100_0010_0001);
    assert_eq!(units[1] & 0xff, 0b0000_1000);
}
