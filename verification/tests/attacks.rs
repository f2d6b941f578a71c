use magic_bitboards::rays::{attack_ray, far_edge, mask_ray, ray_step};
use magic_bitboards::{
    find_legal_bishop_moves, find_legal_rook_moves, generate_bishop_mask, generate_rook_mask,
};

const FILE_A: u64 = 0x0101_0101_0101_0101;
const RANK_1: u64 = 0x0000_0000_0000_00FF;

#[test]
fn rook_on_a1_on_the_empty_board() {
    let attacks = find_legal_rook_moves(&0, &0);
    // Six squares along the rank and six along the file: h1 and a8 lie seven
    // steps away, beyond the reach of a ray.
    assert_eq!(attacks, 0x0001_0101_0101_017E);
    for square in 1..=6 {
        assert_ne!(attacks & (1u64 << square), 0);
        assert_ne!(attacks & (1u64 << (8 * square)), 0);
    }
    assert_eq!(attacks & !(FILE_A | RANK_1), 0);
    assert_eq!(attacks & 1, 0);
}

#[test]
fn rook_on_a1_blocked_on_a2() {
    let blocker: u64 = 1 << 8;
    let attacks = find_legal_rook_moves(&0, &blocker);
    assert_eq!(attacks, 0x0000_0000_0000_017E);
    assert_ne!(attacks & blocker, 0);
    for rank in 2..8 {
        assert_eq!(attacks & (1u64 << (8 * rank)), 0);
    }
    for file in 1..=6 {
        assert_ne!(attacks & (1u64 << file), 0);
    }
}

#[test]
fn rook_in_the_centre_reaches_every_edge() {
    assert_eq!(find_legal_rook_moves(&27, &0), 0x0808_0808_F708_0808);
}

#[test]
fn rook_in_the_centre_stops_on_blockers() {
    let occupancy: u64 = (1 << 29) | (1 << 43) | (1 << 3) | (1 << 24);
    assert_eq!(occupancy, 0x0000_0800_2100_0008);
    assert_eq!(find_legal_rook_moves(&27, &occupancy), 0x0000_0808_3708_0808);
}

#[test]
fn rook_on_the_rim() {
    assert_eq!(find_legal_rook_moves(&7, &0), 0x0080_8080_8080_807E);
    assert_eq!(find_legal_rook_moves(&24, &0), 0x0101_0101_7E01_0101);
    assert_eq!(find_legal_rook_moves(&63, &0), 0x7E80_8080_8080_8000);
}

#[test]
fn rook_ignores_its_own_square_and_far_pieces() {
    let own: u64 = 1 << 27;
    assert_eq!(find_legal_rook_moves(&27, &own), find_legal_rook_moves(&27, &0));
    let elsewhere: u64 = (1 << 0) | (1 << 63) | (1 << 36);
    assert_eq!(find_legal_rook_moves(&27, &elsewhere), find_legal_rook_moves(&27, &0));
}

#[test]
fn bishop_on_the_empty_board() {
    assert_eq!(find_legal_bishop_moves(&27, &0), 0x8041_2214_0014_2241);
    assert_eq!(find_legal_bishop_moves(&0, &0), 0x0040_2010_0804_0200);
    assert_eq!(find_legal_bishop_moves(&7, &0), 0x0002_0408_1020_4000);
}

#[test]
fn bishop_stops_on_blockers() {
    let occupancy: u64 = (1 << 45) | (1 << 9) | (1 << 20);
    assert_eq!(occupancy, 0x0000_2000_0010_0200);
    assert_eq!(find_legal_bishop_moves(&27, &occupancy), 0x0001_2214_0014_0200);
    assert_eq!(find_legal_bishop_moves(&2, &(1u64 << 11)), 0x0000_0000_0001_0A00);
}

#[test]
fn attacks_depend_only_on_the_squares_of_the_mask() {
    let mut board: u64 = 0x0123_4567_89AB_CDEF;
    for square in 0..64i32 {
        let rook_mask = generate_rook_mask(&square);
        let bishop_mask = generate_bishop_mask(&square);
        for _ in 0..20 {
            board = board.wrapping_mul(0x5851_F42D_4C95_7F2D).wrapping_add(0x1405_7B7E_F767_814F);
            let occupancy = board & board.rotate_left(23);
            assert_eq!(
                find_legal_rook_moves(&square, &occupancy),
                find_legal_rook_moves(&square, &(occupancy & rook_mask))
            );
            assert_eq!(
                find_legal_bishop_moves(&square, &occupancy),
                find_legal_bishop_moves(&square, &(occupancy & bishop_mask))
            );
        }
    }
}

#[test]
fn attacks_on_the_empty_board_hold_the_mask() {
    for square in 0..64i32 {
        let rook = find_legal_rook_moves(&square, &0);
        let bishop = find_legal_bishop_moves(&square, &0);
        assert_eq!(rook & generate_rook_mask(&square), generate_rook_mask(&square));
        assert_eq!(bishop & generate_bishop_mask(&square), generate_bishop_mask(&square));
        assert_eq!(rook & (1u64 << square), 0);
        assert_eq!(bishop & (1u64 << square), 0);
    }
}

#[test]
fn attacks_are_the_same_on_every_call() {
    let occupancy: u64 = 0x00FF_0000_2400_FF00;
    for square in 0..64i32 {
        assert_eq!(
            find_legal_rook_moves(&square, &occupancy),
            find_legal_rook_moves(&square, &occupancy)
        );
        assert_eq!(
            find_legal_bishop_moves(&square, &occupancy),
            find_legal_bishop_moves(&square, &occupancy)
        );
    }
}

#[test]
fn rays_in_single_directions() {
    assert_eq!(attack_ray(0, 1, 0), 0x7E);
    assert_eq!(attack_ray(0, -1, 0), 0);
    assert_eq!(attack_ray(0, 8, 0), 0x0001_0101_0101_0100);
    assert_eq!(attack_ray(0, -8, 0), 0);
    assert_eq!(attack_ray(27, 1, 0), 0xF000_0000);
    assert_eq!(attack_ray(27, -1, 0), 0x0700_0000);
    assert_eq!(attack_ray(27, 9, 0), 0x8040_2010_0000_0000);
    assert_eq!(attack_ray(27, -9, 0), 0x0004_0201);
    assert_eq!(attack_ray(27, 7, 0), 0x0001_0204_0000_0000);
    assert_eq!(attack_ray(27, -7, 0), 0x0010_2040);
    assert_eq!(attack_ray(27, 1, 1 << 29), 0x3000_0000);
    assert_eq!(mask_ray(27, 1), 0x7000_0000);
    assert_eq!(mask_ray(27, -1), 0x0600_0000);
    assert_eq!(mask_ray(0, 1), 0x7E);
    assert_eq!(mask_ray(7, 1), 0);
    assert_eq!(mask_ray(6, 1), 0);
}

#[test]
fn ray_steps_and_edges() {
    assert_eq!(ray_step(0, 1, 6), 1 << 6);
    assert_eq!(ray_step(63, -9, 7), 1);
    assert_eq!(ray_step(27, 7, 3), 1 << 48);
    assert_eq!(ray_step(27, -8, 2), 1 << 11);
    assert_eq!(far_edge(1), 0x8080_8080_8080_8080);
    assert_eq!(far_edge(-1), 0x0101_0101_0101_0101);
    assert_eq!(far_edge(8), 0xFF00_0000_0000_0000);
    assert_eq!(far_edge(-8), 0x0000_0000_0000_00FF);
    assert_eq!(far_edge(9), 0xFF80_8080_8080_8080);
    assert_eq!(far_edge(7), 0xFF01_0101_0101_0101);
    assert_eq!(far_edge(-7), 0x8080_8080_8080_80FF);
    assert_eq!(far_edge(-9), 0x0101_0101_0101_01FF);
}

/// The squares reached by walking the board by file and rank, at most six
/// steps in each direction, up to and including the first occupied square.
fn walk_attacks(square: i32, steps: &[(i32, i32)], occupancy: u64) -> u64 {
    let mut attacks: u64 = 0;
    for (file_step, rank_step) in steps {
        for distance in 1..=6 {
            let file = square % 8 + distance * file_step;
            let rank = square / 8 + distance * rank_step;
            if !(0..8).contains(&file) || !(0..8).contains(&rank) {
                break;
            }
            let target = 1u64 << (rank * 8 + file);
            attacks |= target;
            if occupancy & target != 0 {
                break;
            }
        }
    }
    attacks
}

/// The squares of the rays that have another square of the board behind them.
fn walk_mask(square: i32, steps: &[(i32, i32)]) -> u64 {
    let mut mask: u64 = 0;
    for (file_step, rank_step) in steps {
        for distance in 1..=6 {
            let file = square % 8 + (distance + 1) * file_step;
            let rank = square / 8 + (distance + 1) * rank_step;
            if !(0..8).contains(&file) || !(0..8).contains(&rank) {
                break;
            }
            mask |= 1u64 << ((rank - rank_step) * 8 + file - file_step);
        }
    }
    mask
}

const ROOK_STEPS: [(i32, i32); 4] = [(1, 0), (-1, 0), (0, 1), (0, -1)];
const BISHOP_STEPS: [(i32, i32); 4] = [(1, 1), (-1, 1), (1, -1), (-1, -1)];

#[test]
fn attacks_agree_with_a_walk_by_file_and_rank() {
    let mut board: u64 = 0x6A09_E667_F3BC_C908;
    for square in 0..64i32 {
        for round in 0..300 {
            board = board.wrapping_mul(0x5851_F42D_4C95_7F2D).wrapping_add(0x1405_7B7E_F767_814F);
            let occupancy = match round % 3 {
                0 => board,
                1 => board & board.rotate_left(29),
                _ => board & board.rotate_left(29) & board.rotate_left(47),
            };
            assert_eq!(
                find_legal_rook_moves(&square, &occupancy),
                walk_attacks(square, &ROOK_STEPS, occupancy)
            );
            assert_eq!(
                find_legal_bishop_moves(&square, &occupancy),
                walk_attacks(square, &BISHOP_STEPS, occupancy)
            );
        }
    }
}

#[test]
fn masks_agree_with_a_walk_by_file_and_rank() {
    for square in 0..64i32 {
        assert_eq!(generate_rook_mask(&square), walk_mask(square, &ROOK_STEPS));
        assert_eq!(generate_bishop_mask(&square), walk_mask(square, &BISHOP_STEPS));
    }
}

#[test]
fn reach_of_six_squares_ends_short_of_the_opposite_rim() {
    // From the rim a ray along the rank or the file has seven squares.
    assert_eq!(find_legal_rook_moves(&0, &0) & (1 << 7), 0);
    assert_eq!(find_legal_rook_moves(&0, &0) & (1 << 56), 0);
    assert_eq!(find_legal_rook_moves(&31, &0) & (1 << 24), 0);
    assert_eq!(find_legal_rook_moves(&59, &0) & (1 << 3), 0);
    // So has the long diagonal from a corner.
    assert_eq!(find_legal_bishop_moves(&0, &0) & (1 << 63), 0);
    assert_eq!(find_legal_bishop_moves(&56, &0) & (1 << 7), 0);
    // One file or rank in from the rim every ray ends on the rim.
    assert_eq!(find_legal_rook_moves(&9, &0), 0x0202_0202_0202_FD02);
    assert_eq!(find_legal_bishop_moves(&9, &0), 0x8040_2010_0805_0005);
}
