//! Relevant-occupancy masks: the squares whose occupancy can change what a
//! rook or a bishop attacks.

use vstd::prelude::*;
use crate::bitboard::{
    board, file_of, has_bit, is_square, lemma_board, lemma_board_unique, lemma_machine_count,
    lemma_same_squares, lemma_union, machine_count, popcount, rank_of,
};
use crate::rays::{lemma_ray_masks_geometry, mask_ray, ray_masks};

verus! {

/// The square `t` is relevant to a rook on `sq`: it lies on the rank or the
/// file of `sq` and is not the last square of its ray.
pub open spec fn rook_masks_square(sq: int, t: int) -> bool {
    ray_masks(sq, 1, t) || ray_masks(sq, -1, t) || ray_masks(sq, 8, t) || ray_masks(sq, -8, t)
}

/// The square `t` is relevant to a bishop on `sq`: it lies on a diagonal of
/// `sq` and is not the last square of its ray.
pub open spec fn bishop_masks_square(sq: int, t: int) -> bool {
    ray_masks(sq, 9, t) || ray_masks(sq, 7, t) || ray_masks(sq, -7, t) || ray_masks(sq, -9, t)
}

/// Membership in the mask of a rook, as a predicate on squares.
pub open spec fn rook_mask_squares(sq: int) -> spec_fn(int) -> bool {
    |t: int| rook_masks_square(sq, t)
}

/// Membership in the mask of a bishop, as a predicate on squares.
pub open spec fn bishop_mask_squares(sq: int) -> spec_fn(int) -> bool {
    |t: int| bishop_masks_square(sq, t)
}

/// The relevant-occupancy mask of a rook on `sq`.
pub open spec fn rook_mask(sq: int) -> u64 {
    board(rook_mask_squares(sq))
}

/// The relevant-occupancy mask of a bishop on `sq`.
pub open spec fn bishop_mask(sq: int) -> u64 {
    board(bishop_mask_squares(sq))
}

/// The relevant-occupancy mask of a rook on `square`.
pub fn generate_rook_mask(square: &i32) -> (moves: u64)
    requires
        is_square(*square as int),
    ensures
        moves == rook_mask(*square as int),
        forall|t: int| has_bit(moves, t) <==> rook_masks_square(*square as int, t),
        popcount(moves) == rook_mask_size(*square as int),
{
    let east = mask_ray(*square, 1);
    let west = mask_ray(*square, -1);
    let north = mask_ray(*square, 8);
    let south = mask_ray(*square, -8);
    let mut moves: u64 = 0;
    moves |= east;
    moves |= west;
    moves |= north;
    moves |= south;
    proof {
        let sq = *square as int;
        assert(moves == (((0u64 | east) | west) | north) | south);
        assert forall|t: int| has_bit(moves, t) <==> rook_masks_square(sq, t) by {
            lemma_union(0, east, t);
            lemma_union(0u64 | east, west, t);
            lemma_union((0u64 | east) | west, north, t);
            lemma_union(((0u64 | east) | west) | north, south, t);
            crate::bitboard::lemma_empty_board(t);
        }
        lemma_board_unique(rook_mask_squares(sq), moves);
        lemma_rook_mask_count(sq);
    }
    moves
}

/// The relevant-occupancy mask of a bishop on `square`.
pub fn generate_bishop_mask(square: &i32) -> (moves: u64)
    requires
        is_square(*square as int),
    ensures
        moves == bishop_mask(*square as int),
        forall|t: int| has_bit(moves, t) <==> bishop_masks_square(*square as int, t),
        popcount(moves) == bishop_mask_size(*square as int),
{
    let north_east = mask_ray(*square, 9);
    let north_west = mask_ray(*square, 7);
    let south_east = mask_ray(*square, -7);
    let south_west = mask_ray(*square, -9);
    let mut moves: u64 = 0;
    moves |= north_east;
    moves |= north_west;
    moves |= south_east;
    moves |= south_west;
    proof {
        let sq = *square as int;
        assert(moves == (((0u64 | north_east) | north_west) | south_east) | south_west);
        assert forall|t: int| has_bit(moves, t) <==> bishop_masks_square(sq, t) by {
            lemma_union(0, north_east, t);
            lemma_union(0u64 | north_east, north_west, t);
            lemma_union((0u64 | north_east) | north_west, south_east, t);
            lemma_union(((0u64 | north_east) | north_west) | south_east, south_west, t);
            crate::bitboard::lemma_empty_board(t);
        }
        lemma_board_unique(bishop_mask_squares(sq), moves);
        lemma_bishop_mask_count(sq);
    }
    moves
}

/// The relevant-occupancy mask of the piece chosen by `is_bishop`.
pub open spec fn mask_of(sq: int, is_bishop: bool) -> u64 {
    if is_bishop {
        bishop_mask(sq)
    } else {
        rook_mask(sq)
    }
}

/// The squares relevant to a rook, by file and rank: the other squares of its
/// rank that are not on file A or H, and the other squares of its file that are
/// not on rank 1 or 8.
pub open spec fn rook_relevant(sq: int, t: int) -> bool {
    &&& is_square(t)
    &&& t != sq
    &&& (rank_of(t) == rank_of(sq) && 1 <= file_of(t) <= 6) || (file_of(t) == file_of(sq) && 1
        <= rank_of(t) <= 6)
}

/// The squares relevant to a bishop, by file and rank: the other squares of its
/// two diagonals that are not on the rim of the board.
pub open spec fn bishop_relevant(sq: int, t: int) -> bool {
    &&& is_square(t)
    &&& t != sq
    &&& 1 <= file_of(t) <= 6
    &&& 1 <= rank_of(t) <= 6
    &&& file_of(t) + rank_of(sq) == rank_of(t) + file_of(sq) || file_of(t) + rank_of(t)
        == file_of(sq) + rank_of(sq)
}

/// Edge exclusion for the rook: its mask holds the squares of its rank and file
/// short of the rim in each direction.
pub proof fn lemma_rook_mask_geometry(sq: int, t: int)
    requires
        is_square(sq),
    ensures
        rook_masks_square(sq, t) == rook_relevant(sq, t),
        has_bit(rook_mask(sq), t) == rook_relevant(sq, t),
{
    lemma_ray_masks_geometry(sq, 1, t);
    lemma_ray_masks_geometry(sq, -1, t);
    lemma_ray_masks_geometry(sq, 8, t);
    lemma_ray_masks_geometry(sq, -8, t);
    lemma_board(rook_mask_squares(sq), t);
}

/// Edge exclusion for the bishop: its mask holds the squares of its diagonals
/// that are not on the rim.
pub proof fn lemma_bishop_mask_geometry(sq: int, t: int)
    requires
        is_square(sq),
    ensures
        bishop_masks_square(sq, t) == bishop_relevant(sq, t),
        has_bit(bishop_mask(sq), t) == bishop_relevant(sq, t),
{
    lemma_ray_masks_geometry(sq, 9, t);
    lemma_ray_masks_geometry(sq, 7, t);
    lemma_ray_masks_geometry(sq, -7, t);
    lemma_ray_masks_geometry(sq, -9, t);
    lemma_board(bishop_mask_squares(sq), t);
}

/// The rook's mask as a formula: six squares of its rank and six of its file,
/// without its own square.
pub open spec fn rook_mask_value(sq: u64) -> u64 {
    ((0x7Eu64 << (sq & 56)) | (0x0001010101010100u64 << (sq & 7))) & !(1u64 << sq)
}

/// The bishop's mask as a formula: its two diagonals, shifted into place from
/// the long diagonals, without the rim and its own square.
pub open spec fn bishop_mask_value(sq: u64) -> u64 {
    let f = sq & 7;
    let r = sq >> 3;
    let diagonal = if r >= f {
        0x8040201008040201u64 << ((8 * (r - f)) as u64)
    } else {
        0x8040201008040201u64 >> ((8 * (f - r)) as u64)
    };
    let antidiagonal = if f + r >= 7 {
        0x0102040810204080u64 << ((8 * (f + r - 7)) as u64)
    } else {
        0x0102040810204080u64 >> ((8 * (7 - f - r)) as u64)
    };
    (diagonal | antidiagonal) & 0x007E7E7E7E7E7E00u64 & !(1u64 << sq)
}

/// How far a square is from the rim of the board.
pub open spec fn ring_of(sq: int) -> int {
    let f = if file_of(sq) <= 7 - file_of(sq) {
        file_of(sq)
    } else {
        7 - file_of(sq)
    };
    let r = if rank_of(sq) <= 7 - rank_of(sq) {
        rank_of(sq)
    } else {
        7 - rank_of(sq)
    };
    if f <= r {
        f
    } else {
        r
    }
}

/// Whether a square is one of the four corners.
pub open spec fn is_corner(sq: int) -> bool {
    sq == 0 || sq == 7 || sq == 56 || sq == 63
}

/// The number of squares relevant to a rook: twelve, less one for its rank if
/// it stands off the A and H files, less one for its file if it stands off the
/// first and eighth ranks.
pub open spec fn rook_mask_size(sq: int) -> int {
    12 - (if 1 <= file_of(sq) <= 6 {
        1int
    } else {
        0int
    }) - (if 1 <= rank_of(sq) <= 6 {
        1int
    } else {
        0int
    })
}

/// The number of squares relevant to a bishop: nine on the four central
/// squares, seven on the ring around them, five further out, and six in a
/// corner.
pub open spec fn bishop_mask_size(sq: int) -> int {
    if ring_of(sq) >= 3 {
        9
    } else if ring_of(sq) == 2 {
        7
    } else if is_corner(sq) {
        6
    } else {
        5
    }
}

/// The squares of the rook formula, by file and rank.
proof fn lemma_bv_rook_mask(sq: u64, t: u64)
    by (bit_vector)
    requires
        sq < 64,
        t < 64,
    ensures
        ((rook_mask_value(sq) >> t) & 1 == 1) <==> (t != sq && ((t / 8 == sq / 8 && 1 <= t % 8 && t
            % 8 <= 6) || (t % 8 == sq % 8 && 1 <= t / 8 && t / 8 <= 6))),
{
}

/// The squares of the bishop formula, by file and rank.
proof fn lemma_bv_bishop_mask(sq: u64, t: u64)
    by (bit_vector)
    requires
        sq < 64,
        t < 64,
    ensures
        ((bishop_mask_value(sq) >> t) & 1 == 1) <==> (t != sq && 1 <= t % 8 && t % 8 <= 6 && 1 <= t
            / 8 && t / 8 <= 6 && (t % 8 + sq / 8 == t / 8 + sq % 8 || t % 8 + t / 8 == sq % 8 + sq
            / 8)),
{
}

/// The number of squares of the rook formula.
proof fn lemma_bv_rook_count(sq: u64)
    by (bit_vector)
    requires
        sq < 64,
    ensures
        machine_count(rook_mask_value(sq), 64) + (if 1 <= sq % 8 && sq % 8 <= 6 {
            1u64
        } else {
            0u64
        }) + (if 1 <= sq / 8 && sq / 8 <= 6 {
            1u64
        } else {
            0u64
        }) == 12,
{
}

/// The number of squares of the bishop formula.
proof fn lemma_bv_bishop_count(sq: u64)
    by (bit_vector)
    requires
        sq < 64,
    ensures
        machine_count(bishop_mask_value(sq), 64) == (if 3 <= sq % 8 && sq % 8 <= 4 && 3 <= sq / 8
            && sq / 8 <= 4 {
            9u64
        } else if 2 <= sq % 8 && sq % 8 <= 5 && 2 <= sq / 8 && sq / 8 <= 5 {
            7u64
        } else if sq == 0 || sq == 7 || sq == 56 || sq == 63 {
            6u64
        } else {
            5u64
        }),
{
}

/// The formula gives the rook's mask.
pub proof fn lemma_rook_mask_value(sq: int)
    requires
        is_square(sq),
    ensures
        rook_mask(sq) == rook_mask_value(sq as u64),
{
    let value = rook_mask_value(sq as u64);
    assert forall|t: int| 0 <= t < 64 implies has_bit(value, t) == rook_mask_squares(sq)(t) by {
        lemma_bv_rook_mask(sq as u64, t as u64);
        lemma_rook_mask_geometry(sq, t);
    }
    lemma_board_unique(rook_mask_squares(sq), value);
}

/// The formula gives the bishop's mask.
pub proof fn lemma_bishop_mask_value(sq: int)
    requires
        is_square(sq),
    ensures
        bishop_mask(sq) == bishop_mask_value(sq as u64),
{
    let value = bishop_mask_value(sq as u64);
    assert forall|t: int| 0 <= t < 64 implies has_bit(value, t) == bishop_mask_squares(sq)(t) by {
        lemma_bv_bishop_mask(sq as u64, t as u64);
        lemma_bishop_mask_geometry(sq, t);
    }
    lemma_board_unique(bishop_mask_squares(sq), value);
}

/// The size of the rook's mask: ten squares off the rim, twelve in a corner,
/// eleven elsewhere on the rim.
pub proof fn lemma_rook_mask_count(sq: int)
    requires
        is_square(sq),
    ensures
        popcount(rook_mask(sq)) == rook_mask_size(sq),
        ring_of(sq) >= 1 ==> popcount(rook_mask(sq)) == 10,
        is_corner(sq) ==> popcount(rook_mask(sq)) == 12,
        10 <= popcount(rook_mask(sq)) <= 12,
{
    lemma_rook_mask_value(sq);
    lemma_bv_rook_count(sq as u64);
    lemma_machine_count(rook_mask_value(sq as u64), 64);
}

/// The size of the bishop's mask: between five and nine squares, nine of them
/// on the four central squares.
pub proof fn lemma_bishop_mask_count(sq: int)
    requires
        is_square(sq),
    ensures
        popcount(bishop_mask(sq)) == bishop_mask_size(sq),
        5 <= popcount(bishop_mask(sq)) <= 9,
        sq == 27 || sq == 28 || sq == 35 || sq == 36 ==> popcount(bishop_mask(sq)) == 9,
{
    lemma_bishop_mask_value(sq);
    lemma_bv_bishop_count(sq as u64);
    lemma_machine_count(bishop_mask_value(sq as u64), 64);
}

/// A board that holds exactly the squares of a mask is that mask: the mask of a
/// piece on a square is one value.
pub proof fn lemma_mask_determined(sq: int, is_bishop: bool, first: u64, second: u64)
    requires
        forall|t: int|
            has_bit(first, t) <==> if is_bishop {
                bishop_masks_square(sq, t)
            } else {
                rook_masks_square(sq, t)
            },
        forall|t: int|
            has_bit(second, t) <==> if is_bishop {
                bishop_masks_square(sq, t)
            } else {
                rook_masks_square(sq, t)
            },
    ensures
        first == second,
        first == mask_of(sq, is_bishop),
{
    lemma_same_squares(first, second);
    if is_bishop {
        lemma_board_unique(bishop_mask_squares(sq), first);
    } else {
        lemma_board_unique(rook_mask_squares(sq), first);
    }
}

} // verus!
