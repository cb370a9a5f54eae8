use bitvec::{BigEndian, BitOrder, BitStore, LittleEndian};

#[test]
fn big_endian_counts_from_the_top() {
    assert_eq!(BigEndian::at(0, 8), 7);
    assert_eq!(BigEndian::at(7, 8), 0);
    assert_eq!(BigEndian::at(1, 16), 14);
    assert_eq!(BigEndian::at(0, 32), 31);
    assert_eq!(BigEndian::at(63, 64), 0);
}

#[test]
fn little_endian_counts_from_the_bottom() {
    assert_eq!(LittleEndian::at(0, 8), 0);
    assert_eq!(LittleEndian::at(7, 8), 7);
    assert_eq!(LittleEndian::at(15, 16), 15);
    assert_eq!(LittleEndian::at(63, 64), 63);
}

#[test]
fn orders_are_bijections() {
    for width in [8u8, 16, 32, 64] {
        let mut seen_big = vec![false; width as usize];
        let mut seen_little = vec![false; width as usize];
        for index in 0..width {
            let big = BigEndian::at(index, width);
            let little = LittleEndian::at(index, width);
            assert!(big < width);
            assert!(little < width);
            assert!(!seen_big[big as usize]);
            assert!(!seen_little[little as usize]);
            seen_big[big as usize] = true;
            seen_little[little as usize] = true;
        }
        assert!(seen_big.iter().all(|seen| *seen));
        assert!(seen_little.iter().all(|seen| *seen));
    }
}

#[test]
fn widths_of_the_four_units() {
    assert_eq!(<u8 as BitStore>::bits(), 8);
    assert_eq!(<u16 as BitStore>::bits(), 16);
    assert_eq!(<u32 as BitStore>::bits(), 32);
    assert_eq!(<u64 as BitStore>::bits(), 64);
}

#[test]
fn load_reads_one_bit() {
    assert!(0b0000_0100u8.load(2));
    assert!(!0b0000_0100u8.load(3));
    assert!(0x8000u16.load(15));
    assert!(!0x8000u16.load(0));
    assert!(0x8000_0000u32.load(31));
    assert!(0x8000_0000_0000_0000u64.load(63));
    assert!(!0x8000_0000_0000_0000u64.load(62));
}

#[test]
fn store_changes_one_bit_of_a_byte() {
    for unit in 0..=255u8 {
        for position in 0..8u8 {
            let set = unit.store(position, true);
            let clear = unit.store(position, false);
            assert_eq!(set, unit | (1 << position));
            assert_eq!(clear, unit & !(1 << position));
            for other in 0..8u8 {
                if other != position {
                    assert_eq!(set.load(other), unit.load(other));
                    assert_eq!(clear.load(other), unit.load(other));
                }
            }
        }
    }
}

#[test]
fn store_changes_one_bit_of_wider_units() {
    assert_eq!(0u16.store(9, true), 0x0200);
    assert_eq!(0xffffu16.store(9, false), 0xfdff);
    assert_eq!(0u32.store(31, true), 0x8000_0000);
    assert_eq!(0xffff_ffffu32.store(0, false), 0xffff_fffe);
    assert_eq!(0u64.store(40, true), 1u64 << 40);
    assert_eq!(u64::MAX.store(63, false), u64::MAX >> 1);
    assert_eq!(5u64.store(0, true), 5);
}

#[test]
fn splat_fills_a_unit() {
    assert_eq!(<u8 as BitStore>::splat(true), 0xff);
    assert_eq!(<u8 as BitStore>::splat(false), 0);
    assert_eq!(<u16 as BitStore>::splat(true), 0xffff);
    assert_eq!(<u32 as BitStore>::splat(true), 0xffff_ffff);
    assert_eq!(<u64 as BitStore>::splat(true), u64::MAX);
    assert_eq!(<u64 as BitStore>::splat(false), 0);
}
