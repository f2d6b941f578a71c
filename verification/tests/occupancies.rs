use std::collections::HashSet;

use magic_bitboards::{
    count_bits, generate_bishop_mask, generate_occupancies, generate_rook_mask, set_occupancy,
};

#[test]
fn set_occupancy_copies_index_bits_onto_mask_squares() {
    let mask: u64 = 0b1011_0000;
    assert_eq!(set_occupancy(0, &mask), 0x00);
    assert_eq!(set_occupancy(1, &mask), 0x10);
    assert_eq!(set_occupancy(2, &mask), 0x20);
    assert_eq!(set_occupancy(3, &mask), 0x30);
    assert_eq!(set_occupancy(4, &mask), 0x80);
    assert_eq!(set_occupancy(5, &mask), 0x90);
    assert_eq!(set_occupancy(7, &mask), 0xB0);
}

#[test]
fn set_occupancy_ignores_index_bits_beyond_the_mask() {
    let mask: u64 = 0b1011_0000;
    assert_eq!(set_occupancy(8, &mask), 0);
    assert_eq!(set_occupancy(13, &mask), 0x90);
    assert_eq!(set_occupancy(u64::MAX, &0xF0F0), 0xF0F0);
}

#[test]
fn set_occupancy_of_the_empty_and_the_full_mask() {
    assert_eq!(set_occupancy(0, &0), 0);
    assert_eq!(set_occupancy(u64::MAX, &0), 0);
    assert_eq!(set_occupancy(0xDEAD_BEEF_0BAD_F00D, &u64::MAX), 0xDEAD_BEEF_0BAD_F00D);
}

#[test]
fn set_occupancy_on_a_rook_mask() {
    let mask = generate_rook_mask(&27);
    assert_eq!(set_occupancy(0b101, &mask), 0x0200_0800);
    assert_eq!(set_occupancy(0x155, &mask), 0x0000_0800_5200_0800);
    assert_eq!(set_occupancy(0x3FF, &mask), mask);
}

#[test]
fn generate_occupancies_of_a_small_mask() {
    let occupancies = generate_occupancies(&0b1011_0000);
    assert_eq!(occupancies, vec![0x00, 0x10, 0x20, 0x30, 0x80, 0x90, 0xA0, 0xB0]);
}

#[test]
fn generate_occupancies_of_the_empty_mask() {
    assert_eq!(generate_occupancies(&0), vec![0]);
}

#[test]
fn generate_occupancies_is_a_bijection_onto_the_subsets() {
    for square in [0i32, 1, 27, 36, 63] {
        for mask in [generate_rook_mask(&square), generate_bishop_mask(&square)] {
            let occupancies = generate_occupancies(&mask);
            assert_eq!(occupancies.len(), 1usize << count_bits(mask));
            let distinct: HashSet<u64> = occupancies.iter().copied().collect();
            assert_eq!(distinct.len(), occupancies.len());
            for (index, occupancy) in occupancies.iter().enumerate() {
                assert_eq!(occupancy & !mask, 0);
                assert_eq!(*occupancy, set_occupancy(index as u64, &mask));
            }
            assert_eq!(occupancies[0], 0);
            assert_eq!(occupancies[occupancies.len() - 1], mask);
        }
    }
}

#[test]
fn generate_occupancies_sizes() {
    assert_eq!(generate_occupancies(&generate_rook_mask(&0)).len(), 4096);
    assert_eq!(generate_occupancies(&generate_rook_mask(&27)).len(), 1024);
    assert_eq!(generate_occupancies(&generate_bishop_mask(&27)).len(), 512);
    assert_eq!(generate_occupancies(&generate_bishop_mask(&1)).len(), 32);
}
