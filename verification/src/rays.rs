//! Rays: the squares that a sliding piece passes over in one direction.
//!
//! A direction is one of the eight shift offsets `+1`, `-1`, `+8`, `-8`
//! (along a rank or a file) and `+9`, `+7`, `-7`, `-9` (along a diagonal).
//! A ray never leaves the board: it is followed by file and rank, so a step
//! off the last file does not continue on the neighbouring rank.

use vstd::prelude::*;
use crate::bitboard::{
    has_bit, file_of, rank_of, is_square, lemma_union, lemma_single, lemma_test,
    lemma_shift_single, lemma_empty_board, lemma_edge_squares, FILE_A, FILE_H, RANK_1, RANK_8,
};

verus! {

/// The largest number of steps that a ray is followed.
pub const RAY_STEPS: i32 = 6;

/// The four directions of a rook.
pub open spec fn is_rook_direction(d: int) -> bool {
    d == 1 || d == -1 || d == 8 || d == -8
}

/// The four directions of a bishop.
pub open spec fn is_bishop_direction(d: int) -> bool {
    d == 9 || d == 7 || d == -7 || d == -9
}

/// The eight directions.
pub open spec fn is_direction(d: int) -> bool {
    is_rook_direction(d) || is_bishop_direction(d)
}

/// By how much one step in direction `d` changes the file.
pub open spec fn file_step(d: int) -> int {
    if d == 1 || d == 9 || d == -7 {
        1
    } else if d == -1 || d == 7 || d == -9 {
        -1
    } else {
        0
    }
}

/// By how much one step in direction `d` changes the rank.
pub open spec fn rank_step(d: int) -> int {
    if d == 8 || d == 9 || d == 7 {
        1
    } else if d == -8 || d == -9 || d == -7 {
        -1
    } else {
        0
    }
}

/// `k` steps of size `unit`, where `unit` is -1, 0 or 1.
pub open spec fn steps(k: int, unit: int) -> int {
    if unit == 1 {
        k
    } else if unit == -1 {
        -k
    } else {
        0
    }
}

/// The file reached after `k` steps from `sq` in direction `d`.
pub open spec fn ray_file(sq: int, d: int, k: int) -> int {
    file_of(sq) + steps(k, file_step(d))
}

/// The rank reached after `k` steps from `sq` in direction `d`.
pub open spec fn ray_rank(sq: int, d: int, k: int) -> int {
    rank_of(sq) + steps(k, rank_step(d))
}

/// Whether `k` steps from `sq` in direction `d` stay on the board.
pub open spec fn ray_on_board(sq: int, d: int, k: int) -> bool {
    0 <= ray_file(sq, d, k) < 8 && 0 <= ray_rank(sq, d, k) < 8
}

/// The square reached after `k` steps from `sq` in direction `d`.
pub open spec fn ray_square(sq: int, d: int, k: int) -> int {
    ray_rank(sq, d, k) * 8 + ray_file(sq, d, k)
}

/// The ray from `sq` in direction `d` gets as far as its `k`-th square: that
/// square is on the board, within reach, and no square before it is occupied.
pub open spec fn ray_reaches(sq: int, d: int, occ: u64, k: int) -> bool {
    &&& 1 <= k <= RAY_STEPS
    &&& ray_on_board(sq, d, k)
    &&& forall|j: int| 1 <= j < k ==> !has_bit(occ, #[trigger] ray_square(sq, d, j))
}

/// A piece on `sq` attacks `t` along direction `d` on a board occupied by `occ`.
/// The first occupied square of the ray is attacked; what lies behind it is not.
pub open spec fn ray_attacks(sq: int, d: int, occ: u64, t: int) -> bool {
    exists|k: int| #[trigger] ray_reaches(sq, d, occ, k) && t == ray_square(sq, d, k)
}

/// The `k`-th square of the ray is not its last: one more step stays on the board.
pub open spec fn ray_inner(sq: int, d: int, k: int) -> bool {
    1 <= k && ray_on_board(sq, d, k + 1)
}

/// The square `t` is relevant to a piece on `sq` along direction `d`: it lies on
/// the ray and is not the ray's last square.
pub open spec fn ray_masks(sq: int, d: int, t: int) -> bool {
    exists|k: int| #[trigger] ray_inner(sq, d, k) && t == ray_square(sq, d, k)
}

/// The edge of the board on which a ray in direction `d` ends.
pub open spec fn far_edge_board(d: int) -> u64 {
    if d == 1 {
        FILE_H
    } else if d == -1 {
        FILE_A
    } else if d == 8 {
        RANK_8
    } else if d == -8 {
        RANK_1
    } else if d == 9 {
        FILE_H | RANK_8
    } else if d == 7 {
        FILE_A | RANK_8
    } else if d == -7 {
        FILE_H | RANK_1
    } else {
        FILE_A | RANK_1
    }
}

/// A square lies on the far edge of a direction exactly if one more step
/// would leave the board.
pub proof fn lemma_far_edge(s: int, d: int)
    requires
        is_square(s),
        is_direction(d),
    ensures
        ((1u64 << (s as u64)) & far_edge_board(d) != 0) == !ray_on_board(s, d, 1),
{
    lemma_edge_squares(s);
}

/// A product with a factor of known value.
proof fn lemma_times(k: int, d: int, c: int)
    by (nonlinear_arith)
    requires
        d == c,
    ensures
        k * d == c * k,
        k * (-d) == -(c * k),
{
}

/// `k` times the offset of a direction, by its file and rank steps.
proof fn lemma_offset_product(d: int, k: int)
    requires
        is_direction(d),
    ensures
        k * d == 8 * steps(k, rank_step(d)) + steps(k, file_step(d)),
        k * (-d) == -(k * d),
{
    let by_steps = 8 * steps(k, rank_step(d)) + steps(k, file_step(d));
    if d == 1 {
        lemma_times(k, d, 1);
        assert(k * d == by_steps && k * (-d) == -(k * d));
    } else if d == -1 {
        lemma_times(k, d, -1);
        assert(k * d == by_steps && k * (-d) == -(k * d));
    } else if d == 8 {
        lemma_times(k, d, 8);
        assert(k * d == by_steps && k * (-d) == -(k * d));
    } else if d == -8 {
        lemma_times(k, d, -8);
        assert(k * d == by_steps && k * (-d) == -(k * d));
    } else if d == 9 {
        lemma_times(k, d, 9);
        assert(k * d == by_steps && k * (-d) == -(k * d));
    } else if d == 7 {
        lemma_times(k, d, 7);
        assert(k * d == by_steps && k * (-d) == -(k * d));
    } else if d == -7 {
        lemma_times(k, d, -7);
        assert(k * d == by_steps && k * (-d) == -(k * d));
    } else {
        lemma_times(k, d, -9);
        assert(k * d == by_steps && k * (-d) == -(k * d));
    }
}

/// What `k` steps on the board come to in squares: `k` times the offset.
pub proof fn lemma_ray_offset(sq: int, d: int, k: int)
    requires
        is_square(sq),
        is_direction(d),
        0 <= k,
        ray_on_board(sq, d, k),
    ensures
        ray_square(sq, d, k) == sq + k * d,
        is_square(ray_square(sq, d, k)),
        file_of(ray_square(sq, d, k)) == ray_file(sq, d, k),
        rank_of(ray_square(sq, d, k)) == ray_rank(sq, d, k),
        k <= 7,
        forall|j: int| 0 <= j <= k ==> ray_on_board(sq, d, j),
        d > 0 ==> 0 <= k * d < 64 - sq,
        d < 0 ==> 0 <= k * (-d) <= sq && k * (-d) == -(k * d),
{
    lemma_offset_product(d, k);
    let file = ray_file(sq, d, k);
    let rank = ray_rank(sq, d, k);
    assert(sq == rank_of(sq) * 8 + file_of(sq));
    assert(ray_square(sq, d, k) == rank * 8 + file);
    assert(ray_square(sq, d, k) == sq + k * d);
    assert((rank * 8 + file) % 8 == file && (rank * 8 + file) / 8 == rank);
    assert(d > 0 ==> steps(k, rank_step(d)) >= 0 && (rank_step(d) == 0 ==> steps(
        k,
        file_step(d),
    ) >= 0));
    assert(d < 0 ==> steps(k, rank_step(d)) <= 0 && (rank_step(d) == 0 ==> steps(
        k,
        file_step(d),
    ) <= 0));
}

/// The edge constant on which a ray in the given direction ends.
pub fn far_edge(direction: i32) -> (edge: u64)
    requires
        is_direction(direction as int),
    ensures
        edge == far_edge_board(direction as int),
{
    if direction == 1 {
        FILE_H
    } else if direction == -1 {
        FILE_A
    } else if direction == 8 {
        RANK_8
    } else if direction == -8 {
        RANK_1
    } else if direction == 9 {
        FILE_H | RANK_8
    } else if direction == 7 {
        FILE_A | RANK_8
    } else if direction == -7 {
        FILE_H | RANK_1
    } else {
        FILE_A | RANK_1
    }
}

/// The board with the one square that lies `shift` steps from `square` in the
/// given direction.
pub fn ray_step(square: i32, direction: i32, shift: i32) -> (new_square: u64)
    requires
        is_square(square as int),
        is_direction(direction as int),
        1 <= shift <= 7,
        ray_on_board(square as int, direction as int, shift as int),
    ensures
        new_square == 1u64 << (ray_square(square as int, direction as int, shift as int) as u64),
{
    proof {
        lemma_ray_offset(square as int, direction as int, shift as int);
    }
    let piece_bitboard: u64 = 1u64 << square;
    if direction > 0 {
        proof {
            lemma_shift_single(square as int, shift * direction);
        }
        piece_bitboard << (shift * direction)
    } else {
        proof {
            lemma_shift_single(square as int, shift * (-direction));
        }
        piece_bitboard >> (shift * (-direction))
    }
}

/// How many king steps apart two squares are.
pub open spec fn distance(sq: int, t: int) -> int {
    let df = if file_of(t) >= file_of(sq) {
        file_of(t) - file_of(sq)
    } else {
        file_of(sq) - file_of(t)
    };
    let dr = if rank_of(t) >= rank_of(sq) {
        rank_of(t) - rank_of(sq)
    } else {
        rank_of(sq) - rank_of(t)
    };
    if df >= dr {
        df
    } else {
        dr
    }
}

/// The square `t` lies on the ray from `sq` in direction `d`.
pub open spec fn on_ray(sq: int, d: int, t: int) -> bool {
    &&& is_square(t)
    &&& distance(sq, t) >= 1
    &&& file_of(t) == ray_file(sq, d, distance(sq, t))
    &&& rank_of(t) == ray_rank(sq, d, distance(sq, t))
}

/// A square is relevant along a ray exactly if it lies on the ray and one more
/// step from it stays on the board.
pub proof fn lemma_ray_masks_geometry(sq: int, d: int, t: int)
    requires
        is_square(sq),
        is_direction(d),
    ensures
        ray_masks(sq, d, t) == (on_ray(sq, d, t) && ray_on_board(t, d, 1)),
{
    if ray_masks(sq, d, t) {
        let k = choose|k: int| #[trigger] ray_inner(sq, d, k) && t == ray_square(sq, d, k);
        lemma_ray_offset(sq, d, k + 1);
        lemma_ray_offset(sq, d, k);
        assert(distance(sq, t) == k);
    }
    if on_ray(sq, d, t) && ray_on_board(t, d, 1) {
        let k = distance(sq, t);
        assert(ray_inner(sq, d, k));
        assert(t == ray_square(sq, d, k));
    }
}

/// A piece on `sq` sees `t` along direction `d`: `t` lies on the ray, however
/// far, and no square before it is occupied.
pub open spec fn ray_sees(sq: int, d: int, occ: u64, t: int) -> bool {
    exists|k: int|
        1 <= k && #[trigger] ray_on_board(sq, d, k) && t == ray_square(sq, d, k) && forall|j: int|
            1 <= j < k ==> !has_bit(occ, #[trigger] ray_square(sq, d, j))
}

/// A piece sees what it attacks, and it attacks what it sees but for the
/// seventh square of a ray: the reach of `RAY_STEPS` squares cuts short only a
/// ray that has seven squares on the board.
pub proof fn lemma_reach(sq: int, d: int, occ: u64, t: int)
    requires
        is_square(sq),
        is_direction(d),
    ensures
        ray_attacks(sq, d, occ, t) ==> ray_sees(sq, d, occ, t),
        ray_sees(sq, d, occ, t) && !ray_on_board(sq, d, RAY_STEPS + 1) ==> ray_attacks(
            sq,
            d,
            occ,
            t,
        ),
        ray_sees(sq, d, occ, t) && t != ray_square(sq, d, RAY_STEPS + 1) ==> ray_attacks(
            sq,
            d,
            occ,
            t,
        ),
{
    if ray_attacks(sq, d, occ, t) {
        let k = choose|k: int| #[trigger] ray_reaches(sq, d, occ, k) && t == ray_square(sq, d, k);
        assert(ray_on_board(sq, d, k));
    }
    if ray_sees(sq, d, occ, t) {
        let k = choose|k: int|
            1 <= k && #[trigger] ray_on_board(sq, d, k) && t == ray_square(sq, d, k) && forall|
                j: int,
            | 1 <= j < k ==> !has_bit(occ, #[trigger] ray_square(sq, d, j));
        lemma_ray_offset(sq, d, k);
        if k <= RAY_STEPS {
            assert(ray_reaches(sq, d, occ, k));
        }
    }
}

/// The square `t` is one of the first `n` squares of the ray.
pub open spec fn ray_prefix(sq: int, d: int, n: int, t: int) -> bool {
    exists|j: int| 1 <= j <= n && (#[trigger] ray_square(sq, d, j)) == t
}

/// A walk that stopped on the ray's `last` square, at a blocker, at the edge or
/// at the end of its reach, has collected exactly the attacked squares.
proof fn lemma_attack_walk(sq: int, d: int, occ: u64, ray: u64, last: int)
    requires
        is_square(sq),
        is_direction(d),
        1 <= last <= RAY_STEPS,
        ray_on_board(sq, d, last),
        forall|j: int| 1 <= j < last ==> !has_bit(occ, #[trigger] ray_square(sq, d, j)),
        forall|t: int| has_bit(ray, t) <==> ray_prefix(sq, d, last, t),
        last == RAY_STEPS || has_bit(occ, ray_square(sq, d, last)) || !ray_on_board(
            sq,
            d,
            last + 1,
        ),
    ensures
        forall|t: int| has_bit(ray, t) <==> ray_attacks(sq, d, occ, t),
{
    lemma_ray_offset(sq, d, last);
    assert forall|t: int| has_bit(ray, t) <==> ray_attacks(sq, d, occ, t) by {
        if has_bit(ray, t) {
            let j = choose|j: int| 1 <= j <= last && (#[trigger] ray_square(sq, d, j)) == t;
            assert(ray_reaches(sq, d, occ, j));
        }
        if ray_attacks(sq, d, occ, t) {
            let k = choose|k: int| #[trigger] ray_reaches(sq, d, occ, k) && t == ray_square(sq, d, k);
            if k > last {
                lemma_ray_offset(sq, d, k);
                assert(!has_bit(occ, ray_square(sq, d, last)));
                assert(ray_on_board(sq, d, last + 1));
            }
            assert(ray_square(sq, d, k) == t);
        }
    }
}

/// A walk that stopped before the ray's `last` square, which is the final
/// square on the board, has collected exactly the relevant squares.
proof fn lemma_mask_walk(sq: int, d: int, ray: u64, last: int)
    requires
        is_square(sq),
        is_direction(d),
        1 <= last,
        ray_on_board(sq, d, last),
        !ray_on_board(sq, d, last + 1),
        forall|t: int| has_bit(ray, t) <==> ray_prefix(sq, d, last - 1, t),
    ensures
        forall|t: int| has_bit(ray, t) <==> ray_masks(sq, d, t),
{
    lemma_ray_offset(sq, d, last);
    assert forall|t: int| has_bit(ray, t) <==> ray_masks(sq, d, t) by {
        if has_bit(ray, t) {
            let j = choose|j: int| 1 <= j <= last - 1 && (#[trigger] ray_square(sq, d, j)) == t;
            assert(ray_inner(sq, d, j));
        }
        if ray_masks(sq, d, t) {
            let k = choose|k: int| #[trigger] ray_inner(sq, d, k) && t == ray_square(sq, d, k);
            if k + 1 > last {
                lemma_ray_offset(sq, d, k + 1);
            }
            assert(ray_square(sq, d, k) == t);
        }
    }
}

/// No ray leaves a square that lies on the far edge of the direction.
proof fn lemma_no_walk(sq: int, d: int, occ: u64)
    requires
        is_square(sq),
        is_direction(d),
        !ray_on_board(sq, d, 1),
    ensures
        forall|t: int| !ray_attacks(sq, d, occ, t),
        forall|t: int| !ray_masks(sq, d, t),
{
    assert forall|t: int| !ray_attacks(sq, d, occ, t) by {
        if ray_attacks(sq, d, occ, t) {
            let k = choose|k: int| #[trigger] ray_reaches(sq, d, occ, k) && t == ray_square(sq, d, k);
            lemma_ray_offset(sq, d, k);
        }
    }
    assert forall|t: int| !ray_masks(sq, d, t) by {
        if ray_masks(sq, d, t) {
            let k = choose|k: int| #[trigger] ray_inner(sq, d, k) && t == ray_square(sq, d, k);
            lemma_ray_offset(sq, d, k + 1);
        }
    }
}

/// The squares attacked from `square` along one direction: the ray is followed
/// for up to `RAY_STEPS` squares and ends on the first occupied square or on the
/// edge of the board, which are both part of it.
pub fn attack_ray(square: i32, direction: i32, occupancy: u64) -> (ray: u64)
    requires
        is_square(square as int),
        is_direction(direction as int),
    ensures
        forall|t: int| has_bit(ray, t) <==> ray_attacks(square as int, direction as int, occupancy, t),
{
    let ghost sq = square as int;
    let ghost d = direction as int;
    let piece_bitboard: u64 = 1u64 << square;
    let edge = far_edge(direction);
    let mut ray: u64 = 0;
    proof {
        lemma_far_edge(sq, d);
        assert forall|t: int| !has_bit(0, t) by {
            lemma_empty_board(t);
        }
    }
    if piece_bitboard & edge != 0 {
        proof {
            lemma_no_walk(sq, d, occupancy);
        }
        return ray;
    }
    let mut shift: i32 = 1;
    let ghost mut last: int = 0;
    while shift <= RAY_STEPS
        invariant_except_break
            1 <= shift <= RAY_STEPS + 1,
            last == shift - 1,
            shift <= RAY_STEPS ==> ray_on_board(sq, d, shift as int),
        invariant
            is_square(sq),
            is_direction(d),
            sq == square,
            d == direction,
            edge == far_edge_board(d),
            0 <= last <= RAY_STEPS,
            ray_on_board(sq, d, last),
            forall|j: int| 1 <= j < last ==> !has_bit(occupancy, #[trigger] ray_square(sq, d, j)),
            last < shift ==> !has_bit(occupancy, ray_square(sq, d, last)) || last == 0,
            forall|t: int| has_bit(ray, t) <==> ray_prefix(sq, d, last, t),
        ensures
            1 <= last,
            last == RAY_STEPS || has_bit(occupancy, ray_square(sq, d, last)) || !ray_on_board(
                sq,
                d,
                last + 1,
            ),
        decreases RAY_STEPS + 1 - shift,
    {
        let new_square = ray_step(square, direction, shift);
        let ghost s = ray_square(sq, d, shift as int);
        let ghost before = ray;
        ray |= new_square;
        proof {
            lemma_ray_offset(sq, d, shift as int);
            lemma_test(occupancy, s);
            lemma_far_edge(s, d);
            assert forall|t: int| has_bit(ray, t) <==> ray_prefix(sq, d, shift as int, t) by {
                lemma_union(before, new_square, t);
                lemma_single(s, t);
            }
            last = shift as int;
        }
        if new_square & occupancy != 0 {
            break ;
        }
        if new_square & edge != 0 {
            break ;
        }
        shift += 1;
    }
    proof {
        lemma_attack_walk(sq, d, occupancy, ray, last);
    }
    ray
}

/// The squares relevant to a piece on `square` along one direction: the ray up
/// to, and without, its last square on the board.
pub fn mask_ray(square: i32, direction: i32) -> (ray: u64)
    requires
        is_square(square as int),
        is_direction(direction as int),
    ensures
        forall|t: int| has_bit(ray, t) <==> ray_masks(square as int, direction as int, t),
{
    let ghost sq = square as int;
    let ghost d = direction as int;
    let piece_bitboard: u64 = 1u64 << square;
    let edge = far_edge(direction);
    let mut ray: u64 = 0;
    proof {
        lemma_far_edge(sq, d);
        assert forall|t: int| !has_bit(0, t) by {
            lemma_empty_board(t);
        }
    }
    if piece_bitboard & edge != 0 {
        proof {
            lemma_no_walk(sq, d, 0);
        }
        return ray;
    }
    let mut shift: i32 = 1;
    while shift <= RAY_STEPS
        invariant
            is_square(sq),
            is_direction(d),
            sq == square,
            d == direction,
            edge == far_edge_board(d),
            1 <= shift <= RAY_STEPS + 1,
            ray_on_board(sq, d, shift as int),
            forall|t: int| has_bit(ray, t) <==> ray_prefix(sq, d, shift - 1, t),
        ensures
            !ray_on_board(sq, d, shift + 1),
        decreases RAY_STEPS + 1 - shift,
    {
        let new_square = ray_step(square, direction, shift);
        let ghost s = ray_square(sq, d, shift as int);
        proof {
            lemma_ray_offset(sq, d, shift as int);
            lemma_far_edge(s, d);
        }
        if new_square & edge != 0 {
            break ;
        }
        let ghost before = ray;
        ray |= new_square;
        proof {
            assert forall|t: int| has_bit(ray, t) <==> ray_prefix(sq, d, shift as int, t) by {
                lemma_union(before, new_square, t);
                lemma_single(s, t);
            }
        }
        shift += 1;
    }
    proof {
        if ray_on_board(sq, d, shift + 1) {
            lemma_ray_offset(sq, d, shift + 1);
        }
        lemma_mask_walk(sq, d, ray, shift as int);
    }
    ray
}

} // verus!
