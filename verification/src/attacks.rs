//! Attack sets: the squares a rook or a bishop attacks on an occupied board.

use vstd::prelude::*;
use crate::bitboard::{
    board, has_bit, is_square, lemma_board, lemma_board_unique, lemma_intersection,
    lemma_same_squares, lemma_union,
};
use crate::masks::{bishop_mask_squares, mask_of, rook_mask_squares};
use crate::rays::{
    attack_ray, is_direction, lemma_ray_offset, ray_attacks, ray_inner, ray_masks, ray_reaches,
    ray_square,
};

verus! {

/// A rook on `sq` attacks `t` on a board occupied by `occ`: `t` is reached
/// along the rank or the file of `sq`.
pub open spec fn rook_attacks_square(sq: int, occ: u64, t: int) -> bool {
    ray_attacks(sq, 1, occ, t) || ray_attacks(sq, -1, occ, t) || ray_attacks(sq, 8, occ, t)
        || ray_attacks(sq, -8, occ, t)
}

/// A bishop on `sq` attacks `t` on a board occupied by `occ`: `t` is reached
/// along one of the two diagonals of `sq`.
pub open spec fn bishop_attacks_square(sq: int, occ: u64, t: int) -> bool {
    ray_attacks(sq, 9, occ, t) || ray_attacks(sq, 7, occ, t) || ray_attacks(sq, -7, occ, t)
        || ray_attacks(sq, -9, occ, t)
}

/// Membership in the attack set of a rook, as a predicate on squares.
pub open spec fn rook_attack_squares(sq: int, occ: u64) -> spec_fn(int) -> bool {
    |t: int| rook_attacks_square(sq, occ, t)
}

/// Membership in the attack set of a bishop, as a predicate on squares.
pub open spec fn bishop_attack_squares(sq: int, occ: u64) -> spec_fn(int) -> bool {
    |t: int| bishop_attacks_square(sq, occ, t)
}

/// The attack set of a rook on `sq` on a board occupied by `occ`.
pub open spec fn rook_attacks(sq: int, occ: u64) -> u64 {
    board(rook_attack_squares(sq, occ))
}

/// The attack set of a bishop on `sq` on a board occupied by `occ`.
pub open spec fn bishop_attacks(sq: int, occ: u64) -> u64 {
    board(bishop_attack_squares(sq, occ))
}

/// The attack set of the piece chosen by `is_bishop`.
pub open spec fn attack_set(sq: int, is_bishop: bool, occ: u64) -> u64 {
    if is_bishop {
        bishop_attacks(sq, occ)
    } else {
        rook_attacks(sq, occ)
    }
}

/// The squares that a rook on `square` attacks when the squares of `occupancy`
/// are occupied. A blocker is attacked; the squares behind it are not. Each of
/// the four rays is followed for at most `RAY_STEPS` squares.
pub fn find_legal_rook_moves(square: &i32, occupancy: &u64) -> (moves: u64)
    requires
        is_square(*square as int),
    ensures
        moves == rook_attacks(*square as int, *occupancy),
        forall|t: int| has_bit(moves, t) <==> rook_attacks_square(*square as int, *occupancy, t),
{
    let east = attack_ray(*square, 1, *occupancy);
    let west = attack_ray(*square, -1, *occupancy);
    let north = attack_ray(*square, 8, *occupancy);
    let south = attack_ray(*square, -8, *occupancy);
    let mut moves: u64 = 0;
    moves |= east;
    moves |= west;
    moves |= north;
    moves |= south;
    proof {
        let sq = *square as int;
        assert(moves == (((0u64 | east) | west) | north) | south);
        assert forall|t: int| has_bit(moves, t) <==> rook_attacks_square(sq, *occupancy, t) by {
            lemma_union(0, east, t);
            lemma_union(0u64 | east, west, t);
            lemma_union((0u64 | east) | west, north, t);
            lemma_union(((0u64 | east) | west) | north, south, t);
            crate::bitboard::lemma_empty_board(t);
        }
        lemma_board_unique(rook_attack_squares(sq, *occupancy), moves);
    }
    moves
}

/// The squares that a bishop on `square` attacks when the squares of
/// `occupancy` are occupied. A blocker is attacked; the squares behind it are
/// not. Each of the four rays is followed for at most `RAY_STEPS` squares.
pub fn find_legal_bishop_moves(square: &i32, occupancy: &u64) -> (moves: u64)
    requires
        is_square(*square as int),
    ensures
        moves == bishop_attacks(*square as int, *occupancy),
        forall|t: int|
            has_bit(moves, t) <==> bishop_attacks_square(*square as int, *occupancy, t),
{
    let north_east = attack_ray(*square, 9, *occupancy);
    let north_west = attack_ray(*square, 7, *occupancy);
    let south_east = attack_ray(*square, -7, *occupancy);
    let south_west = attack_ray(*square, -9, *occupancy);
    let mut moves: u64 = 0;
    moves |= north_east;
    moves |= north_west;
    moves |= south_east;
    moves |= south_west;
    proof {
        let sq = *square as int;
        assert(moves == (((0u64 | north_east) | north_west) | south_east) | south_west);
        assert forall|t: int| has_bit(moves, t) <==> bishop_attacks_square(sq, *occupancy, t) by {
            lemma_union(0, north_east, t);
            lemma_union(0u64 | north_east, north_west, t);
            lemma_union((0u64 | north_east) | north_west, south_east, t);
            lemma_union(((0u64 | north_east) | north_west) | south_east, south_west, t);
            crate::bitboard::lemma_empty_board(t);
        }
        lemma_board_unique(bishop_attack_squares(sq, *occupancy), moves);
    }
    moves
}

/// A board that holds exactly the attacked squares is the attack set: the
/// attack set of a piece on a square of an occupied board is one value.
pub proof fn lemma_attacks_determined(
    sq: int,
    is_bishop: bool,
    occ: u64,
    first: u64,
    second: u64,
)
    requires
        forall|t: int|
            has_bit(first, t) <==> if is_bishop {
                bishop_attacks_square(sq, occ, t)
            } else {
                rook_attacks_square(sq, occ, t)
            },
        forall|t: int|
            has_bit(second, t) <==> if is_bishop {
                bishop_attacks_square(sq, occ, t)
            } else {
                rook_attacks_square(sq, occ, t)
            },
    ensures
        first == second,
        first == attack_set(sq, is_bishop, occ),
{
    lemma_same_squares(first, second);
    if is_bishop {
        lemma_board_unique(bishop_attack_squares(sq, occ), first);
    } else {
        lemma_board_unique(rook_attack_squares(sq, occ), first);
    }
}

/// Along a ray only the occupancy of the relevant squares matters: squares
/// outside a board that holds them all can be emptied.
pub proof fn lemma_ray_attacks_masked(sq: int, d: int, occ: u64, mask: u64, t: int)
    requires
        is_square(sq),
        is_direction(d),
        forall|u: int| ray_masks(sq, d, u) ==> has_bit(mask, u),
    ensures
        ray_attacks(sq, d, occ & mask, t) == ray_attacks(sq, d, occ, t),
{
    if ray_attacks(sq, d, occ & mask, t) {
        let k = choose|k: int|
            #[trigger] ray_reaches(sq, d, occ & mask, k) && t == ray_square(sq, d, k);
        lemma_ray_offset(sq, d, k);
        assert forall|j: int| 1 <= j < k implies !has_bit(occ, #[trigger] ray_square(sq, d, j)) by {
            assert(ray_inner(sq, d, j));
            lemma_intersection(occ, mask, ray_square(sq, d, j));
        }
        assert(ray_reaches(sq, d, occ, k));
    }
    if ray_attacks(sq, d, occ, t) {
        let k = choose|k: int| #[trigger] ray_reaches(sq, d, occ, k) && t == ray_square(sq, d, k);
        assert forall|j: int| 1 <= j < k implies !has_bit(
            occ & mask,
            #[trigger] ray_square(sq, d, j),
        ) by {
            lemma_intersection(occ, mask, ray_square(sq, d, j));
        }
        assert(ray_reaches(sq, d, occ & mask, k));
    }
}

/// The mask holds every square whose occupancy can change the attack set: the
/// attack set on a board is the attack set on the part of it inside the mask.
pub proof fn lemma_attacks_masked(sq: int, is_bishop: bool, occ: u64)
    requires
        is_square(sq),
    ensures
        attack_set(sq, is_bishop, occ & mask_of(sq, is_bishop)) == attack_set(sq, is_bishop, occ),
{
    let mask = mask_of(sq, is_bishop);
    let masked = attack_set(sq, is_bishop, occ & mask);
    let whole = attack_set(sq, is_bishop, occ);
    assert forall|t: int| 0 <= t < 64 implies has_bit(masked, t) == has_bit(whole, t) by {
        if is_bishop {
            assert forall|u: int| bishop_mask_squares(sq)(u) implies has_bit(mask, u) by {
                lemma_relevant_on_board(sq, u);
                lemma_board(bishop_mask_squares(sq), u);
            }
            lemma_ray_attacks_masked(sq, 9, occ, mask, t);
            lemma_ray_attacks_masked(sq, 7, occ, mask, t);
            lemma_ray_attacks_masked(sq, -7, occ, mask, t);
            lemma_ray_attacks_masked(sq, -9, occ, mask, t);
            lemma_board(bishop_attack_squares(sq, occ & mask), t);
            lemma_board(bishop_attack_squares(sq, occ), t);
        } else {
            assert forall|u: int| rook_mask_squares(sq)(u) implies has_bit(mask, u) by {
                lemma_relevant_on_board(sq, u);
                lemma_board(rook_mask_squares(sq), u);
            }
            lemma_ray_attacks_masked(sq, 1, occ, mask, t);
            lemma_ray_attacks_masked(sq, -1, occ, mask, t);
            lemma_ray_attacks_masked(sq, 8, occ, mask, t);
            lemma_ray_attacks_masked(sq, -8, occ, mask, t);
            lemma_board(rook_attack_squares(sq, occ & mask), t);
            lemma_board(rook_attack_squares(sq, occ), t);
        }
    }
    lemma_same_squares(masked, whole);
}

/// A relevant square is a square of the board.
proof fn lemma_relevant_on_board(sq: int, u: int)
    requires
        is_square(sq),
    ensures
        forall|d: int| is_direction(d) && #[trigger] ray_masks(sq, d, u) ==> is_square(u),
{
    assert forall|d: int| is_direction(d) && #[trigger] ray_masks(sq, d, u) implies is_square(
        u,
    ) by {
        let k = choose|k: int| #[trigger] ray_inner(sq, d, k) && u == ray_square(sq, d, k);
        lemma_ray_offset(sq, d, k + 1);
        lemma_ray_offset(sq, d, k);
    }
}

} // verus!
