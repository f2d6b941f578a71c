//! The bitboard model: membership of a square, counting, and the bit-level
//! facts on which the rest of the crate reasons.

use vstd::prelude::*;
use vstd::std_specs::bits::{axiom_u64_trailing_zeros, u64_trailing_zeros};

verus! {

/// All squares of file A.
pub const FILE_A: u64 = 0x0101010101010101;

/// All squares of file H.
pub const FILE_H: u64 = 0x8080808080808080;

/// All squares of rank 1.
pub const RANK_1: u64 = 0x00000000000000FF;

/// All squares of rank 8.
pub const RANK_8: u64 = 0xFF00000000000000;

/// Whether bit `i` of `b` is set, that is whether square `i` is on the board `b`.
pub open spec fn has_bit(b: u64, i: int) -> bool {
    0 <= i < 64 && (b >> (i as u64)) & 1 == 1
}

/// The file (0 = A .. 7 = H) of a square.
pub open spec fn file_of(sq: int) -> int {
    sq % 8
}

/// The rank (0 = first .. 7 = eighth) of a square.
pub open spec fn rank_of(sq: int) -> int {
    sq / 8
}

/// Whether `sq` names one of the 64 squares.
pub open spec fn is_square(sq: int) -> bool {
    0 <= sq < 64
}

/// The number of set bits of `b` among the bits `0 .. n`.
pub open spec fn count_below(b: u64, n: int) -> nat
    decreases n,
{
    if n <= 0 {
        0
    } else {
        count_below(b, n - 1) + if has_bit(b, n - 1) { 1nat } else { 0nat }
    }
}

/// The number of squares on the board `b`.
pub open spec fn popcount(b: u64) -> nat {
    count_below(b, 64)
}

/// One board is contained in another.
pub open spec fn is_subset(a: u64, b: u64) -> bool {
    forall|i: int| has_bit(a, i) ==> has_bit(b, i)
}

/// The board made of the squares below `n` that satisfy `p`.
pub closed spec fn board_below(p: spec_fn(int) -> bool, n: int) -> u64
    decreases n,
{
    if n <= 0 {
        0
    } else {
        board_below(p, n - 1) | if p(n - 1) { 1u64 << ((n - 1) as u64) } else { 0u64 }
    }
}

/// The board made of exactly the squares that satisfy `p`.
pub open spec fn board(p: spec_fn(int) -> bool) -> u64 {
    board_below(p, 64)
}

/// Membership of a square in a union, an intersection, a single-square board
/// and the empty board, and the test of a square by masking.
proof fn lemma_bv_membership(a: u64, b: u64, s: u64, i: u64)
    by (bit_vector)
    requires
        s < 64,
        i < 64,
    ensures
        ((a | b) >> i) & 1 == 1 <==> ((a >> i) & 1 == 1 || (b >> i) & 1 == 1),
        ((a & b) >> i) & 1 == 1 <==> ((a >> i) & 1 == 1 && (b >> i) & 1 == 1),
        ((1u64 << s) >> i) & 1 == 1 <==> s == i,
        (0u64 >> i) & 1 == 0,
        a & (1u64 << s) != 0 <==> (a >> s) & 1 == 1,
        (1u64 << s) & a != 0 <==> (a >> s) & 1 == 1,
        (a >> i) & 1 == 0 || (a >> i) & 1 == 1,
{
}

/// Where the exclusive or of two boards has a square, the boards differ on it.
proof fn lemma_bv_difference(a: u64, b: u64, i: u64)
    by (bit_vector)
    requires
        i < 64,
        ((a ^ b) >> i) & 1 == 1,
    ensures
        ((a >> i) & 1 == 1) != ((b >> i) & 1 == 1),
{
}

/// Shifts of a single-square board, and its meeting with the edges.
proof fn lemma_bv_shifts(s: u64, n: u64)
    by (bit_vector)
    requires
        s < 64,
        n < 64,
    ensures
        s + n < 64 ==> (1u64 << s) << n == 1u64 << ((s + n) as u64),
        n <= s ==> (1u64 << s) >> n == 1u64 << ((s - n) as u64),
        (1u64 << s) & 0x8080808080808080 != 0 <==> s % 8 == 7,
        (1u64 << s) & 0x0101010101010101 != 0 <==> s % 8 == 0,
        (1u64 << s) & 0xFF00000000000000 != 0 <==> s / 8 == 7,
        (1u64 << s) & 0x00000000000000FF != 0 <==> s / 8 == 0,
        (1u64 << s) & (0x8080808080808080u64 | 0xFF00000000000000u64) != 0 <==> s % 8 == 7 || s / 8 == 7,
        (1u64 << s) & (0x0101010101010101u64 | 0xFF00000000000000u64) != 0 <==> s % 8 == 0 || s / 8 == 7,
        (1u64 << s) & (0x8080808080808080u64 | 0x00000000000000FFu64) != 0 <==> s % 8 == 7 || s / 8 == 0,
        (1u64 << s) & (0x0101010101010101u64 | 0x00000000000000FFu64) != 0 <==> s % 8 == 0 || s / 8 == 0,
{
}

/// The empty board holds no square.
pub proof fn lemma_empty_board(i: int)
    ensures
        !has_bit(0, i),
{
    if 0 <= i < 64 {
        lemma_bv_membership(0, 0, 0, i as u64);
    }
}

/// A square is on the union of two boards exactly if it is on one of them.
pub proof fn lemma_union(a: u64, b: u64, i: int)
    ensures
        has_bit(a | b, i) == (has_bit(a, i) || has_bit(b, i)),
{
    if 0 <= i < 64 {
        lemma_bv_membership(a, b, 0, i as u64);
    }
}

/// A square is on the intersection of two boards exactly if it is on both.
pub proof fn lemma_intersection(a: u64, b: u64, i: int)
    ensures
        has_bit(a & b, i) == (has_bit(a, i) && has_bit(b, i)),
{
    if 0 <= i < 64 {
        lemma_bv_membership(a, b, 0, i as u64);
    }
}

/// The board `1 << s` holds the square `s` and no other.
pub proof fn lemma_single(s: int, i: int)
    requires
        is_square(s),
    ensures
        has_bit(1u64 << (s as u64), i) == (i == s),
{
    if 0 <= i < 64 {
        lemma_bv_membership(0, 0, s as u64, i as u64);
    }
}

/// Masking a board with `1 << s` tests the square `s`.
pub proof fn lemma_test(b: u64, s: int)
    requires
        is_square(s),
    ensures
        (b & (1u64 << (s as u64)) != 0) == has_bit(b, s),
        ((1u64 << (s as u64)) & b != 0) == has_bit(b, s),
{
    lemma_bv_membership(b, 0, s as u64, 0);
}

/// Shifting a single-square board moves its square by the shift amount.
pub proof fn lemma_shift_single(s: int, n: int)
    requires
        is_square(s),
        0 <= n < 64,
    ensures
        s + n < 64 ==> (1u64 << (s as u64)) << (n as u64) == 1u64 << ((s + n) as u64),
        n <= s ==> (1u64 << (s as u64)) >> (n as u64) == 1u64 << ((s - n) as u64),
{
    lemma_bv_shifts(s as u64, n as u64);
}

/// A single-square board meets an edge constant, or the union of two of them,
/// exactly if its square lies on that edge.
pub proof fn lemma_edge_squares(s: int)
    requires
        is_square(s),
    ensures
        ((1u64 << (s as u64)) & FILE_H != 0) == (file_of(s) == 7),
        ((1u64 << (s as u64)) & FILE_A != 0) == (file_of(s) == 0),
        ((1u64 << (s as u64)) & RANK_8 != 0) == (rank_of(s) == 7),
        ((1u64 << (s as u64)) & RANK_1 != 0) == (rank_of(s) == 0),
        ((1u64 << (s as u64)) & (FILE_H | RANK_8) != 0) == (file_of(s) == 7 || rank_of(s) == 7),
        ((1u64 << (s as u64)) & (FILE_A | RANK_8) != 0) == (file_of(s) == 0 || rank_of(s) == 7),
        ((1u64 << (s as u64)) & (FILE_H | RANK_1) != 0) == (file_of(s) == 7 || rank_of(s) == 0),
        ((1u64 << (s as u64)) & (FILE_A | RANK_1) != 0) == (file_of(s) == 0 || rank_of(s) == 0),
{
    lemma_bv_shifts(s as u64, 0);
}

/// Two boards that hold the same squares are the same value.
pub proof fn lemma_same_squares(a: u64, b: u64)
    requires
        forall|i: int| 0 <= i < 64 ==> has_bit(a, i) == has_bit(b, i),
    ensures
        a == b,
{
    if a != b {
        let z = a ^ b;
        assert(z != 0) by (bit_vector)
            requires
                z == a ^ b,
                a != b,
        ;
        axiom_u64_trailing_zeros(z);
        let i = u64_trailing_zeros(z) as u64;
        lemma_bv_difference(a, b, i);
        assert(has_bit(a, i as int) != has_bit(b, i as int));
    }
}

/// `board_below(p, n)` holds exactly the squares below `n` that satisfy `p`.
pub proof fn lemma_board_below(p: spec_fn(int) -> bool, n: int, i: int)
    requires
        0 <= n <= 64,
    ensures
        has_bit(board_below(p, n), i) == (0 <= i < n && p(i)),
    decreases n,
{
    if n <= 0 {
        lemma_empty_board(i);
    } else {
        lemma_board_below(p, n - 1, i);
        let rest = board_below(p, n - 1);
        let top = if p(n - 1) { 1u64 << ((n - 1) as u64) } else { 0u64 };
        lemma_union(rest, top, i);
        lemma_single(n - 1, i);
        lemma_empty_board(i);
    }
}

/// `board(p)` holds exactly the squares that satisfy `p`.
pub proof fn lemma_board(p: spec_fn(int) -> bool, i: int)
    ensures
        has_bit(board(p), i) == (is_square(i) && p(i)),
{
    lemma_board_below(p, 64, i);
}

/// A board whose squares are exactly those that satisfy `p` is `board(p)`.
pub proof fn lemma_board_unique(p: spec_fn(int) -> bool, b: u64)
    requires
        forall|i: int| 0 <= i < 64 ==> has_bit(b, i) == p(i),
    ensures
        b == board(p),
{
    assert forall|i: int| 0 <= i < 64 implies has_bit(b, i) == has_bit(board(p), i) by {
        lemma_board(p, i);
    }
    lemma_same_squares(b, board(p));
}

/// At most `n` bits are set among the bits `0 .. n`.
pub proof fn lemma_count_below_bound(b: u64, n: int)
    requires
        0 <= n,
    ensures
        count_below(b, n) <= n,
    decreases n,
{
    if n > 0 {
        lemma_count_below_bound(b, n - 1);
    }
}

/// Counts the squares on a board.
pub fn count_bits(bitboard: u64) -> (count: u32)
    ensures
        count == popcount(bitboard),
        count <= 64,
{
    let mut count: u32 = 0;
    let mut i: u32 = 0;
    while i < 64
        invariant
            i <= 64,
            count <= i,
            count == count_below(bitboard, i as int),
        decreases 64 - i,
    {
        if (bitboard >> i) & 1 == 1 {
            count += 1;
        }
        i += 1;
    }
    count
}

/// The count of the bits `0 .. n` in machine arithmetic: the form in which the
/// bit-vector solver can count the squares of a board given by a formula.
pub open spec fn machine_count(b: u64, n: u64) -> u64
    decreases n,
{
    if n == 0 {
        0
    } else {
        (machine_count(b, (n - 1) as u64) + ((b >> ((n - 1) as u64)) & 1)) as u64
    }
}

/// The count in machine arithmetic is the count of the model.
pub proof fn lemma_machine_count(b: u64, n: u64)
    requires
        n <= 64,
    ensures
        machine_count(b, n) == count_below(b, n as int),
    decreases n,
{
    if n > 0 {
        lemma_machine_count(b, (n - 1) as u64);
        lemma_count_below_bound(b, n - 1);
        lemma_bv_membership(b, 0, 0, (n - 1) as u64);
    }
}

} // verus!
