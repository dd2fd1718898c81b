use board_kernel::bitboard::{unfold_occupancy, Bitboard};

#[test]
fn shifts_move_bits_both_ways() {
    assert_eq!(Bitboard(0b1).lsh(3).0, 0b1000);
    assert_eq!(Bitboard(0b1000).rsh(3).0, 0b1);
    assert_eq!(Bitboard(0xFF00).rsh(8).0, 0xFF);
}

#[test]
fn and_or_neg() {
    assert_eq!(Bitboard(0b1100).and(Bitboard(0b1010)).0, 0b1000);
    assert_eq!(Bitboard(0b1100).or(Bitboard(0b1010)).0, 0b1110);
    assert_eq!(Bitboard(0).neg().0, u64::MAX);
    assert_eq!(Bitboard(0xFFFF_0000_FFFF_0000).neg().0, 0x0000_FFFF_0000_FFFF);
}

#[test]
fn set_and_clear_single_squares() {
    let mut b = Bitboard(0);
    b.set_bit(63);
    b.set_bit(0);
    assert_eq!(b.0, 0x8000_0000_0000_0001);
    assert!(b.has_entry_at(63));
    assert!(!b.has_entry_at(62));
    b.clear_bit(63);
    assert_eq!(b.0, 1);
    b.clear_bit(5);
    assert_eq!(b.0, 1);
}

#[test]
fn lowest_square_and_its_removal() {
    assert_eq!(Bitboard(0).tzcnt(), 64);
    assert_eq!(Bitboard(0b1011000).tzcnt(), 3);
    assert_eq!(Bitboard(0b1011000).blsr().0, 0b1010000);
    assert_eq!(Bitboard(0).blsr().0, 0);
}

#[test]
fn iterating_squares_in_increasing_order() {
    let mut b = Bitboard(0x8000_0000_0001_0104);
    let mut seen = Vec::new();
    while b.has_bits() {
        seen.push(b.tzcnt());
        b = b.blsr();
    }
    assert_eq!(seen, vec![2, 8, 16, 63]);
}

#[test]
fn population_count() {
    assert_eq!(Bitboard(0).number_of_set_bits(), 0);
    assert_eq!(Bitboard(u64::MAX).number_of_set_bits(), 64);
    assert_eq!(Bitboard(0xFF00).number_of_set_bits(), 8);
}

#[test]
fn compaction_gathers_selected_squares() {
    assert_eq!(Bitboard(0b1010).const_pext(Bitboard(0b1110)), 0b101);
    assert_eq!(Bitboard(u64::MAX).const_pext(Bitboard(0x8000_0000_0000_0001)), 0b11);
    assert_eq!(Bitboard(0x8000_0000_0000_0000).const_pext(Bitboard(0x8000_0000_0000_0001)), 0b10);
    assert_eq!(Bitboard(0x1234).const_pext(Bitboard(0)), 0);
}

#[test]
fn unfolding_inverts_compaction() {
    assert_eq!(unfold_occupancy(0b101, Bitboard(0b1110)).0, 0b1010);
    let mask = Bitboard(0x0001_0101_0101_7E00);
    for v in [0u64, u64::MAX, 0x0123_4567_89AB_CDEF, 0x0000_0100_0000_1200] {
        let x = Bitboard(v).const_pext(mask);
        assert_eq!(unfold_occupancy(x, mask).0, v & mask.0);
    }
    for x in 0..64u64 {
        let occ = unfold_occupancy(x, mask);
        assert_eq!(occ.const_pext(mask), x);
    }
}
