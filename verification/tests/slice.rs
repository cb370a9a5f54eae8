use bitvec::{BigEndian, BitPtrError, BitSlice, LittleEndian, Tristate};

type Big8 = BitSlice<BigEndian, u8>;
type Little8 = BitSlice<LittleEndian, u8>;

fn read_big(mem: &[u8], address: usize) -> bool {
    (mem[address / 8] >> (7 - address % 8)) & 1 == 1
}

fn read_little(mem: &[u8], address: usize) -> bool {
    (mem[address / 8] >> (address % 8)) & 1 == 1
}

fn bits_of(view: &Big8, mem: &[u8]) -> Vec<bool> {
    (0..view.len()).map(|index| view.get(mem, index).unwrap()).collect()
}

fn sample() -> Vec<u8> {
    vec![0b1010_0000, 0b0110_1001, 0b1111_0000, 0b0000_1111, 0b0101_0101]
}

#[test]
fn one_byte_msb_first() {
    let mut mem = vec![0b1010_0000u8];
    let view = Big8::from_span_partial(0, 1, 0, 8).unwrap();
    assert_eq!(view.len(), 8);
    assert_eq!(view.count_ones(&mem), 2);
    assert_eq!(view.get(&mem, 1), Some(false));
    view.set(&mut mem, 1, true);
    assert_eq!(mem[0], 0b1110_0000);
}

#[test]
fn one_byte_lsb_first() {
    let mut mem = vec![0b0000_0101u8];
    let view = Little8::from_span(0, 1).unwrap();
    assert_eq!(view.get(&mem, 0), Some(true));
    assert_eq!(view.get(&mem, 1), Some(false));
    assert_eq!(view.get(&mem, 2), Some(true));
    view.set(&mut mem, 1, true);
    assert_eq!(mem[0], 0b0000_0111);
    view.set(&mut mem, 7, true);
    assert_eq!(mem[0], 0b1000_0111);
}

#[test]
fn view_with_head_of_eight_is_refused() {
    assert_eq!(Big8::from_span_partial(0, 1, 8, 8).err(), Some(BitPtrError::HeadOutOfRange));
}

#[test]
fn span_of_no_units_is_empty() {
    let view = Big8::from_span(3, 0).unwrap();
    assert!(view.is_empty());
    assert_eq!(view.len(), 0);
    assert_eq!(view.as_ptr(), 0);
}

#[test]
fn empty_view_answers() {
    let mem: Vec<u8> = vec![];
    let view = Big8::empty();
    assert!(view.is_empty());
    assert_eq!(view.len(), 0);
    assert_eq!(view.get(&mem, 0), None);
    assert_eq!(view.first(&mem), None);
    assert_eq!(view.last(&mem), None);
    assert!(view.split_first(&mem).is_none());
    assert!(view.split_last(&mem).is_none());
    assert!(view.all(&mem));
    assert!(!view.any(&mem));
    assert!(!view.not_all(&mem));
    assert!(view.not_any(&mem));
    assert!(!view.some(&mem));
    assert_eq!(view.count_ones(&mem), 0);
    assert_eq!(view.count_zeros(&mem), 0);
    assert_eq!(view.as_slice(&mem).len(), 0);
}

#[test]
fn get_reads_by_address() {
    let mem = sample();
    for head in 0..8u8 {
        for tail in 1..=8u8 {
            let view = Big8::from_span_partial(1, 3, head, tail).unwrap();
            let len = 16 - head as usize + tail as usize;
            assert_eq!(view.len(), len);
            for index in 0..len {
                assert_eq!(
                    view.get(&mem, index),
                    Some(read_big(&mem, 8 + head as usize + index))
                );
            }
            assert_eq!(view.get(&mem, len), None);
            assert_eq!(view.get(&mem, usize::MAX), None);
            let little = Little8::from_span_partial(1, 3, head, tail).unwrap();
            for index in 0..len {
                assert_eq!(
                    little.get(&mem, index),
                    Some(read_little(&mem, 8 + head as usize + index))
                );
            }
        }
    }
}

#[test]
fn first_and_last() {
    let mem = sample();
    let view = Big8::from_span_partial(0, 2, 2, 7).unwrap();
    assert_eq!(view.first(&mem), Some(true));
    assert_eq!(view.last(&mem), Some(false));
    assert_eq!(Tristate::from(view.first(&mem)), Tristate::True);
    assert_eq!(Tristate::from(Big8::empty().first(&mem)), Tristate::Error);
}

#[test]
fn set_out_of_range_changes_nothing() {
    let mut mem = sample();
    let view = Big8::from_span_partial(1, 2, 3, 5).unwrap();
    view.set(&mut mem, view.len(), true);
    view.set(&mut mem, usize::MAX, false);
    assert_eq!(mem, sample());
}

#[test]
fn set_changes_one_bit_of_the_storage() {
    for head in 0..8u8 {
        let view = Big8::from_span_partial(1, 3, head, 5).unwrap();
        for index in 0..view.len() {
            for value in [false, true] {
                let mut mem = sample();
                view.set(&mut mem, index, value);
                let address = 8 + head as usize + index;
                for other in 0..40 {
                    if other == address {
                        assert_eq!(read_big(&mem, other), value);
                    } else {
                        assert_eq!(read_big(&mem, other), read_big(&sample(), other));
                    }
                }
            }
        }
    }
}

#[test]
fn writes_through_one_half_leave_the_other_alone() {
    let whole = Big8::from_span(0, 5).unwrap();
    for mid in 0..=40 {
        let (left, right) = whole.split_at(mid).unwrap();
        let mut mem = sample();
        let right_before = bits_of(&right, &mem);
        left.set_all(&mut mem, true);
        assert_eq!(bits_of(&right, &mem), right_before);
        assert!(left.all(&mem));
        let left_before = bits_of(&left, &mem);
        right.reverse(&mut mem);
        right.set_all(&mut mem, false);
        assert_eq!(bits_of(&left, &mem), left_before);
        assert!(right.not_any(&mem));
    }
}

#[test]
fn split_at_is_exact() {
    let mem = sample();
    for head in 0..8u8 {
        for tail in 1..=8u8 {
            let view = Big8::from_span_partial(1, 3, head, tail).unwrap();
            let len = view.len();
            let bits = bits_of(&view, &mem);
            for mid in 0..=len {
                let (left, right) = view.split_at(mid).unwrap();
                assert_eq!(left.len(), mid);
                assert_eq!(right.len(), len - mid);
                for index in 0..len {
                    let half = if index < mid {
                        left.get(&mem, index)
                    } else {
                        right.get(&mem, index - mid)
                    };
                    assert_eq!(half, Some(bits[index]));
                }
                assert_eq!(left.get(&mem, mid), None);
                assert_eq!(right.get(&mem, len - mid), None);
            }
            assert!(view.split_at(len + 1).is_none());
        }
    }
}

#[test]
fn split_first_and_last() {
    let mem = sample();
    let view = Big8::from_span_partial(0, 2, 2, 7).unwrap();
    let bits = bits_of(&view, &mem);
    let (first, rest) = view.split_first(&mem).unwrap();
    assert_eq!(first, bits[0]);
    assert_eq!(bits_of(&rest, &mem), bits[1..].to_vec());
    let (last, rest) = view.split_last(&mem).unwrap();
    assert_eq!(last, bits[bits.len() - 1]);
    assert_eq!(bits_of(&rest, &mem), bits[..bits.len() - 1].to_vec());
    let single = Big8::from_span_partial(4, 1, 6, 7).unwrap();
    let (bit, rest) = single.split_first(&mem).unwrap();
    assert!(!bit);
    assert!(rest.is_empty());
}

#[test]
fn split_first_walks_the_whole_view() {
    let mem = sample();
    let mut view = Big8::from_span_partial(1, 2, 5, 3).unwrap();
    let bits = bits_of(&view, &mem);
    let mut seen = Vec::new();
    while let Some((bit, rest)) = view.split_first(&mem) {
        seen.push(bit);
        view = rest;
    }
    assert_eq!(seen, bits);
}

#[test]
fn range_gives_the_bits_between() {
    let mem = sample();
    let view = Big8::from_span_partial(0, 5, 3, 6).unwrap();
    let bits = bits_of(&view, &mem);
    for from in 0..=view.len() {
        for to in from..=view.len() {
            let part = view.range(from, to);
            assert_eq!(bits_of(&part, &mem), bits[from..to].to_vec());
        }
    }
}

#[test]
fn swap_exchanges_two_bits() {
    let mut mem = vec![0b1000_0000u8, 0];
    let view = Big8::from_span(0, 2).unwrap();
    view.swap(&mut mem, 0, 15);
    assert_eq!(mem, vec![0, 1]);
    view.swap(&mut mem, 15, 15);
    assert_eq!(mem, vec![0, 1]);
    view.swap(&mut mem, 15, 16);
    view.swap(&mut mem, 16, 0);
    assert_eq!(mem, vec![0, 1]);
}

#[test]
fn reverse_turns_the_bits_around() {
    let mut mem = vec![0b1100_1010u8];
    let view = Big8::from_span(0, 1).unwrap();
    view.reverse(&mut mem);
    assert_eq!(mem[0], 0b0101_0011);
    let mut mem = vec![0b1100_1010u8];
    let inner = Big8::from_span_partial(0, 1, 1, 6).unwrap();
    inner.reverse(&mut mem);
    assert_eq!(mem[0], 0b1010_0110);
}

#[test]
fn reverse_twice_is_the_identity() {
    for head in 0..8u8 {
        for tail in 1..=8u8 {
            let view = Big8::from_span_partial(1, 3, head, tail).unwrap();
            let mut mem = sample();
            let bits = bits_of(&view, &mem);
            view.reverse(&mut mem);
            let mut turned = bits.clone();
            turned.reverse();
            assert_eq!(bits_of(&view, &mem), turned);
            view.reverse(&mut mem);
            assert_eq!(mem, sample());
        }
    }
}

#[test]
fn rotate_left_matches_the_naive_rotation() {
    let view = Big8::from_span_partial(0, 3, 3, 5).unwrap();
    let len = view.len();
    for by in 0..=len {
        let mut mem = sample();
        let mut bits = bits_of(&view, &mem);
        view.rotate_left(&mut mem, by);
        bits.rotate_left(by);
        assert_eq!(bits_of(&view, &mem), bits);
        assert_eq!(mem[3..], sample()[3..]);
        assert_eq!(mem[0] & 0b1110_0000, sample()[0] & 0b1110_0000);
        assert_eq!(mem[2] & 0b0000_0111, sample()[2] & 0b0000_0111);
    }
}

#[test]
fn rotate_right_matches_the_naive_rotation() {
    let view = Big8::from_span_partial(1, 4, 6, 1).unwrap();
    let len = view.len();
    for by in 0..=len {
        let mut mem = sample();
        let mut bits = bits_of(&view, &mem);
        view.rotate_right(&mut mem, by);
        bits.rotate_right(by);
        assert_eq!(bits_of(&view, &mem), bits);
    }
}

#[test]
fn rotate_by_more_than_the_length_is_refused() {
    let view = Big8::from_span_partial(1, 2, 1, 4).unwrap();
    let mut mem = sample();
    view.rotate_left(&mut mem, view.len() + 1);
    assert_eq!(mem, sample());
    view.rotate_right(&mut mem, usize::MAX);
    assert_eq!(mem, sample());
}

#[test]
fn rotate_by_nothing_or_everything_changes_nothing() {
    let view = Big8::from_span_partial(1, 2, 1, 4).unwrap();
    let mut mem = sample();
    view.rotate_left(&mut mem, 0);
    assert_eq!(mem, sample());
    view.rotate_left(&mut mem, view.len());
    assert_eq!(mem, sample());
    view.rotate_right(&mut mem, 0);
    assert_eq!(mem, sample());
    view.rotate_right(&mut mem, view.len());
    assert_eq!(mem, sample());
}

#[test]
fn rotate_right_then_left_is_the_identity() {
    let view = Big8::from_span_partial(0, 5, 2, 7).unwrap();
    for by in 0..=view.len() {
        let mut mem = sample();
        view.rotate_right(&mut mem, by);
        view.rotate_left(&mut mem, by);
        assert_eq!(mem, sample());
    }
}

#[test]
fn set_all_stays_inside_the_view() {
    let view = Big8::from_span_partial(1, 2, 3, 5).unwrap();
    let mut mem = vec![0u8; 4];
    view.set_all(&mut mem, true);
    assert_eq!(mem, vec![0, 0b0001_1111, 0b1111_1000, 0]);
    let mut mem = vec![0xffu8; 4];
    view.set_all(&mut mem, false);
    assert_eq!(mem, vec![0xff, 0b1110_0000, 0b0000_0111, 0xff]);
}

#[test]
fn set_all_twice_is_set_all_once() {
    let view = Big8::from_span_partial(1, 3, 7, 1).unwrap();
    let mut once = sample();
    view.set_all(&mut once, true);
    let mut twice = once.clone();
    view.set_all(&mut twice, true);
    assert_eq!(once, twice);
}

#[test]
fn predicates_on_uniform_and_mixed_views() {
    let view = Big8::from_span_partial(0, 1, 2, 6).unwrap();
    let ones = vec![0b0011_1100u8];
    assert!(view.all(&ones));
    assert!(view.any(&ones));
    assert!(!view.not_all(&ones));
    assert!(!view.not_any(&ones));
    assert!(!view.some(&ones));
    let zeros = vec![0b1100_0011u8];
    assert!(!view.all(&zeros));
    assert!(!view.any(&zeros));
    assert!(view.not_all(&zeros));
    assert!(view.not_any(&zeros));
    assert!(!view.some(&zeros));
    let mixed = vec![0b0001_0000u8];
    assert!(!view.all(&mixed));
    assert!(view.any(&mixed));
    assert!(view.not_all(&mixed));
    assert!(!view.not_any(&mixed));
    assert!(view.some(&mixed));
}

#[test]
fn counts_add_up() {
    let mem = sample();
    for head in 0..8u8 {
        for tail in 1..=8u8 {
            let view = Big8::from_span_partial(0, 5, head, tail).unwrap();
            let bits = bits_of(&view, &mem);
            let ones = bits.iter().filter(|bit| **bit).count();
            assert_eq!(view.count_ones(&mem), ones);
            assert_eq!(view.count_zeros(&mem), bits.len() - ones);
            assert_eq!(view.count_ones(&mem) + view.count_zeros(&mem), view.len());
            assert_eq!(view.all(&mem), view.count_zeros(&mem) == 0);
            assert_eq!(view.any(&mem), view.count_ones(&mem) > 0);
            assert_eq!(view.some(&mem), view.any(&mem) && view.not_all(&mem));
        }
    }
}

#[test]
fn for_each_replaces_each_bit() {
    let view = Big8::from_span_partial(0, 2, 4, 4).unwrap();
    let mut mem = vec![0b1010_1010u8, 0b1010_1010];
    view.for_each(&mut mem, |_, bit| !bit);
    assert_eq!(mem, vec![0b1010_0101, 0b0101_1010]);
    view.for_each(&mut mem, |index, _| index % 2 == 0);
    assert_eq!(mem, vec![0b1010_1010, 0b1010_1010]);
    view.for_each(&mut mem, |index, bit| bit && index < 4);
    assert_eq!(mem, vec![0b1010_1010, 0b0000_1010]);
}

#[test]
fn as_slice_gives_only_whole_units() {
    let mem = sample();
    let whole = Big8::from_span(1, 3).unwrap();
    assert_eq!(whole.as_slice(&mem), &mem[1..4]);
    let late = Big8::from_span_partial(1, 3, 1, 8).unwrap();
    assert_eq!(late.as_slice(&mem), &mem[2..4]);
    let early = Big8::from_span_partial(1, 3, 0, 7).unwrap();
    assert_eq!(early.as_slice(&mem), &mem[1..3]);
    let both = Big8::from_span_partial(1, 3, 1, 7).unwrap();
    assert_eq!(both.as_slice(&mem), &mem[2..3]);
    let two = Big8::from_span_partial(1, 2, 1, 7).unwrap();
    assert_eq!(two.as_slice(&mem).len(), 0);
    let one = Big8::from_span_partial(1, 1, 1, 7).unwrap();
    assert_eq!(one.as_slice(&mem).len(), 0);
    let full_one = Big8::from_span_partial(4, 1, 0, 8).unwrap();
    assert_eq!(full_one.as_slice(&mem), &mem[4..5]);
}

#[test]
fn as_mut_slice_writes_whole_units() {
    let mut mem = sample();
    let view = Big8::from_span_partial(1, 3, 1, 8).unwrap();
    {
        let units = view.as_mut_slice(&mut mem);
        assert_eq!(units.len(), 2);
        units[0] = 0xaa;
        units[1] = 0xbb;
    }
    assert_eq!(mem, vec![0b1010_0000, 0b0110_1001, 0xaa, 0xbb, 0b0101_0101]);
}

#[test]
fn wider_units() {
    let mut mem = vec![0u16; 3];
    let view = BitSlice::<BigEndian, u16>::from_span_partial(0, 3, 12, 4).unwrap();
    assert_eq!(view.len(), 24);
    view.set_all(&mut mem, true);
    assert_eq!(mem, vec![0x000f, 0xffff, 0xf000]);
    let mut mem = vec![0u32; 2];
    let view = BitSlice::<LittleEndian, u32>::from_span_partial(0, 2, 31, 1).unwrap();
    assert_eq!(view.len(), 2);
    view.set(&mut mem, 0, true);
    view.set(&mut mem, 1, true);
    assert_eq!(mem, vec![0x8000_0000, 1]);
    let mut mem = vec![0u64; 2];
    let view = BitSlice::<BigEndian, u64>::from_span(0, 2).unwrap();
    view.set(&mut mem, 64, true);
    view.set(&mut mem, 63, true);
    assert_eq!(mem, vec![1, 1 << 63]);
    assert_eq!(view.count_ones(&mem), 2);
    view.reverse(&mut mem);
    assert_eq!(mem, vec![1, 1 << 63]);
    view.rotate_left(&mut mem, 1);
    assert_eq!(mem, vec![3, 0]);
}

#[test]
fn view_and_descriptor_convert() {
    let view = Big8::from_span_partial(2, 3, 1, 4).unwrap();
    let ptr = view.as_bitptr();
    assert_eq!(ptr.decode(), (2, 3, 1, 4));
    let again = Big8::from_bitptr(ptr);
    assert_eq!(again.len(), view.len());
    assert_eq!(again.as_ptr(), 2);
    assert!(view.fits_in(5));
    assert!(!view.fits_in(4));
}
