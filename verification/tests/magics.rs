use std::collections::HashMap;

use magic_bitboards::{
    count_bits, find_legal_bishop_moves, find_legal_rook_moves, find_magic_for_square,
    find_magic_number,
    generate_bishop_mask, generate_occupancies, generate_rook_mask, hashmap_to_bitboard_array,
    magic_hash, record_attacks, try_draws, verify_candidate, ATTACK_ARRAY_SIZE,
};

const ROOK_D4_MAGIC: u64 = 0x0A18_1001_0008_2100;
const ROOK_A1_MAGIC: u64 = 0x0BA0_1244_0020_0000;
const BISHOP_D4_MAGIC: u64 = 0x0120_0800_8900_4108;
const BISHOP_A1_MAGIC: u64 = 0x24E2_206C_0914_4000;

fn attacks(square: i32, is_bishop: bool, occupancy: u64) -> u64 {
    if is_bishop {
        find_legal_bishop_moves(&square, &occupancy)
    } else {
        find_legal_rook_moves(&square, &occupancy)
    }
}

fn assert_round_trip(
    square: i32,
    is_bishop: bool,
    mask: u64,
    magic: u64,
    relevant_bits: u32,
    table: &[u64; ATTACK_ARRAY_SIZE],
) {
    let mut used = vec![false; ATTACK_ARRAY_SIZE];
    for occupancy in generate_occupancies(&mask) {
        let slot = (occupancy.wrapping_mul(magic) >> (64 - relevant_bits)) as usize;
        assert_eq!(table[slot], attacks(square, is_bishop, occupancy));
        used[slot] = true;
    }
    for slot in 0..ATTACK_ARRAY_SIZE {
        if !used[slot] {
            assert_eq!(table[slot], 0);
        }
    }
}

#[test]
fn magic_hash_keeps_the_top_bits_of_the_wrapped_product() {
    let mask = generate_rook_mask(&27);
    assert_eq!(magic_hash(mask, ROOK_D4_MAGIC, 10), 1023);
    assert_eq!(magic_hash(0x0000_0800_5200_0800, ROOK_D4_MAGIC, 10), 334);
    assert_eq!(magic_hash(0x0008_0008_2408_0000, ROOK_D4_MAGIC, 10), 689);
    assert_eq!(magic_hash(0, ROOK_D4_MAGIC, 10), 0);
    assert_eq!(magic_hash(u64::MAX, 1, 12), 4095);
    assert_eq!(magic_hash(u64::MAX, 1, 1), 1);
    assert_eq!(magic_hash(1 << 63, 2, 12), 0);
}

#[test]
fn hashmap_to_bitboard_array_fills_recorded_slots() {
    let mut recorded: HashMap<usize, u64> = HashMap::new();
    recorded.insert(3, 5);
    recorded.insert(0, 0xFFFF);
    recorded.insert(4095, 7);
    let table = hashmap_to_bitboard_array(&recorded);
    assert_eq!(table.len(), 4096);
    assert_eq!(table[0], 0xFFFF);
    assert_eq!(table[3], 5);
    assert_eq!(table[4095], 7);
    for slot in 0..ATTACK_ARRAY_SIZE {
        if slot != 0 && slot != 3 && slot != 4095 {
            assert_eq!(table[slot], 0);
        }
    }
}

#[test]
fn hashmap_to_bitboard_array_of_the_empty_mapping() {
    let table = hashmap_to_bitboard_array(&HashMap::new());
    assert!(table.iter().all(|attacks| *attacks == 0));
}

#[test]
fn record_attacks_accepts_a_known_magic() {
    let mask = generate_rook_mask(&27);
    let occupancies = generate_occupancies(&mask);
    let recorded = record_attacks(27, false, &occupancies, 10, ROOK_D4_MAGIC);
    let recorded = match recorded {
        Some(recorded) => recorded,
        None => panic!("a known magic was rejected"),
    };
    assert_eq!(recorded.len(), 1024);
    for occupancy in &occupancies {
        let slot = magic_hash(*occupancy, ROOK_D4_MAGIC, 10);
        assert_eq!(recorded[&slot], find_legal_rook_moves(&27, occupancy));
    }
}

#[test]
fn record_attacks_rejects_a_multiplier_that_maps_everything_to_one_slot() {
    let mask = generate_rook_mask(&27);
    let occupancies = generate_occupancies(&mask);
    assert!(record_attacks(27, false, &occupancies, 10, 0).is_none());
}

#[test]
fn record_attacks_of_no_occupancies_is_empty() {
    let recorded = record_attacks(27, false, &Vec::new(), 10, 0);
    assert_eq!(recorded.map(|recorded| recorded.len()), Some(0));
}

#[test]
fn record_attacks_shares_a_slot_between_equal_attack_sets() {
    let occupancies = vec![0u64, 1 << 63, 0];
    let recorded = record_attacks(27, false, &occupancies, 10, 0);
    let recorded = match recorded {
        Some(recorded) => recorded,
        None => panic!("occupancies with one attack set were kept apart"),
    };
    assert_eq!(recorded.len(), 1);
    assert_eq!(recorded[&0], find_legal_rook_moves(&27, &0));
}

#[test]
fn verify_candidate_accepts_known_magics() {
    let cases = [
        (27, false, ROOK_D4_MAGIC),
        (0, false, ROOK_A1_MAGIC),
        (27, true, BISHOP_D4_MAGIC),
        (0, true, BISHOP_A1_MAGIC),
    ];
    for (square, is_bishop, magic) in cases {
        let mask = if is_bishop {
            generate_bishop_mask(&square)
        } else {
            generate_rook_mask(&square)
        };
        let occupancies = generate_occupancies(&mask);
        let relevant_bits = count_bits(mask);
        let table = verify_candidate(square, &mask, is_bishop, &occupancies, relevant_bits, magic);
        match table {
            Some(table) => assert_round_trip(square, is_bishop, mask, magic, relevant_bits, &table),
            None => panic!("a known magic was rejected"),
        }
    }
}

#[test]
fn verify_candidate_rejects_a_candidate_that_fails_the_quick_test() {
    let mask = generate_rook_mask(&27);
    let occupancies = generate_occupancies(&mask);
    assert_eq!((mask.wrapping_mul(1) & 0xFF00_0000_0000_0000).count_ones(), 0);
    assert!(verify_candidate(27, &mask, false, &occupancies, 10, 1).is_none());
    // The same multiplier hashes a single occupancy consistently: only the
    // quick test turns it down.
    assert!(record_attacks(27, false, &vec![0], 10, 1).is_some());
    assert!(verify_candidate(27, &mask, false, &vec![0], 10, 1).is_none());
}

#[test]
fn verify_candidate_rejects_a_candidate_with_conflicting_slots() {
    let mask = generate_rook_mask(&27);
    let occupancies = generate_occupancies(&mask);
    let candidate: u64 = 0x0000_4002_0200_0002;
    assert!((mask.wrapping_mul(candidate) & 0xFF00_0000_0000_0000).count_ones() >= 6);
    assert!(verify_candidate(27, &mask, false, &occupancies, 10, candidate).is_none());
}

#[test]
fn accepted_magic_gives_equal_attacks_to_occupancies_that_share_a_slot() {
    let mask = generate_bishop_mask(&27);
    let occupancies = generate_occupancies(&mask);
    let mut slots: HashMap<usize, u64> = HashMap::new();
    for occupancy in &occupancies {
        let slot = magic_hash(*occupancy, BISHOP_D4_MAGIC, 9);
        let attack_set = find_legal_bishop_moves(&27, occupancy);
        assert_eq!(*slots.entry(slot).or_insert(attack_set), attack_set);
    }
}

#[test]
fn find_magic_number_without_attempts_finds_nothing() {
    let mask = generate_bishop_mask(&0);
    assert!(find_magic_number(0, &mask, true, 0).is_none());
}

#[test]
fn find_magic_number_for_a_bishop_in_the_corner() {
    let mask = generate_bishop_mask(&0);
    let found = find_magic_number(0, &mask, true, 50_000_000);
    let (found_mask, magic, relevant_bits, table) = match found {
        Some(found) => found,
        None => panic!("no magic number within the budget"),
    };
    assert_eq!(found_mask, mask);
    assert_eq!(relevant_bits, 6);
    assert!((mask.wrapping_mul(magic) & 0xFF00_0000_0000_0000).count_ones() >= 6);
    assert_round_trip(0, true, mask, magic, relevant_bits, &table);
}

#[test]
fn find_magic_number_for_bishops_on_the_rim() {
    for square in [1i32, 8, 62] {
        let mask = generate_bishop_mask(&square);
        let found = find_magic_number(square, &mask, true, 50_000_000);
        let (found_mask, magic, relevant_bits, table) = match found {
            Some(found) => found,
            None => panic!("no magic number within the budget"),
        };
        assert_eq!(found_mask, mask);
        assert_eq!(relevant_bits, 5);
        assert_round_trip(square, true, mask, magic, relevant_bits, &table);
        let occupancies = generate_occupancies(&mask);
        assert!(verify_candidate(square, &mask, true, &occupancies, 5, magic).is_some());
    }
}

#[test]
fn table_of_a_known_magic_answers_for_whole_boards() {
    let mask = generate_rook_mask(&27);
    let occupancies = generate_occupancies(&mask);
    let table = match verify_candidate(27, &mask, false, &occupancies, 10, ROOK_D4_MAGIC) {
        Some(table) => table,
        None => panic!("a known magic was rejected"),
    };
    let mut board: u64 = 0x0F1E_2D3C_4B5A_6978;
    for _ in 0..500 {
        board = board.wrapping_mul(0x5851_F42D_4C95_7F2D).wrapping_add(0x1405_7B7E_F767_814F);
        let slot = magic_hash(board & mask, ROOK_D4_MAGIC, 10);
        assert_eq!(table[slot], find_legal_rook_moves(&27, &board));
    }
}

#[test]
fn quick_test_asks_for_six_bits_in_the_top_byte() {
    let mask = generate_bishop_mask(&1);
    let occupancies = generate_occupancies(&mask);
    let five: u64 = 0x0C30_2200_910A_0800;
    let six: u64 = 0x0008_0109_1401_1100;
    assert_eq!((mask.wrapping_mul(five) & 0xFF00_0000_0000_0000).count_ones(), 5);
    assert_eq!((mask.wrapping_mul(six) & 0xFF00_0000_0000_0000).count_ones(), 6);
    // Both multipliers hash the occupancies consistently.
    assert!(record_attacks(1, true, &occupancies, 5, five).is_some());
    assert!(record_attacks(1, true, &occupancies, 5, six).is_some());
    assert!(verify_candidate(1, &mask, true, &occupancies, 5, five).is_none());
    match verify_candidate(1, &mask, true, &occupancies, 5, six) {
        Some(table) => assert_round_trip(1, true, mask, six, 5, &table),
        None => panic!("a multiplier with six top bits was rejected"),
    }
}

#[test]
fn find_magic_for_square_answers_for_whole_boards() {
    for square in [0i32, 1, 7, 15, 56, 63] {
        let found = find_magic_for_square(square, true, 50_000_000);
        let (mask, magic, relevant_bits, table) = match found {
            Some(found) => found,
            None => panic!("no magic number within the budget"),
        };
        assert_eq!(mask, generate_bishop_mask(&square));
        assert_eq!(relevant_bits, count_bits(mask));
        assert_round_trip(square, true, mask, magic, relevant_bits, &table);
        let mut board: u64 = 0x243F_6A88_85A3_08D3;
        for _ in 0..200 {
            board = board.wrapping_mul(0x5851_F42D_4C95_7F2D).wrapping_add(0x1405_7B7E_F767_814F);
            let slot = magic_hash(board & mask, magic, relevant_bits);
            assert_eq!(table[slot], find_legal_bishop_moves(&square, &board));
        }
    }
}

#[test]
fn find_magic_for_square_without_attempts_finds_nothing() {
    assert!(find_magic_for_square(27, false, 0).is_none());
    assert!(find_magic_for_square(27, true, 0).is_none());
}

#[test]
fn try_draws_tests_the_conjunction_of_the_draws() {
    let mask = generate_rook_mask(&27);
    let occupancies = generate_occupancies(&mask);
    let first = ROOK_D4_MAGIC | 0x0000_0000_0000_00F0;
    let second = ROOK_D4_MAGIC | 0x0000_0000_0000_0F0F;
    let third = ROOK_D4_MAGIC | 0xF000_0000_0000_F00F;
    assert_eq!(first & second & third, ROOK_D4_MAGIC);
    let found = try_draws(27, &mask, false, &occupancies, 10, first, second, third);
    let (found_mask, magic, relevant_bits, table) = match found {
        Some(found) => found,
        None => panic!("draws that come to a known magic were rejected"),
    };
    assert_eq!(found_mask, mask);
    assert_eq!(magic, ROOK_D4_MAGIC);
    assert_eq!(relevant_bits, 10);
    assert_round_trip(27, false, mask, magic, relevant_bits, &table);
}

#[test]
fn try_draws_rejects_an_attempt_with_a_draw_of_zero() {
    let mask = generate_rook_mask(&27);
    let occupancies = generate_occupancies(&mask);
    assert!(try_draws(27, &mask, false, &occupancies, 10, 0, ROOK_D4_MAGIC, u64::MAX).is_none());
    assert!(try_draws(27, &mask, false, &occupancies, 10, ROOK_D4_MAGIC, 0, u64::MAX).is_none());
    assert!(try_draws(27, &mask, false, &occupancies, 10, ROOK_D4_MAGIC, u64::MAX, 0).is_none());
    assert!(try_draws(27, &mask, false, &occupancies, 10, ROOK_D4_MAGIC, u64::MAX, u64::MAX)
        .is_some());
}

#[test]
fn try_draws_rejects_draws_that_come_to_a_conflicting_candidate() {
    let mask = generate_rook_mask(&27);
    let occupancies = generate_occupancies(&mask);
    let candidate: u64 = 0x0000_4002_0200_0002;
    assert!(try_draws(27, &mask, false, &occupancies, 10, candidate, u64::MAX, candidate | 1)
        .is_none());
}
