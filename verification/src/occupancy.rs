//! Occupancies: the subsets of a mask, numbered by copying the bits of an
//! index onto the squares of the mask in increasing order.

use vstd::prelude::*;
use vstd::arithmetic::power2::{lemma2_to64_rest, lemma_pow2_strictly_increases, pow2};
use vstd::bits::{lemma_u64_pow2_no_overflow, lemma_u64_shl_is_mul};
use crate::bitboard::{
    board, count_below, count_bits, has_bit, is_subset, lemma_board, lemma_board_unique,
    lemma_count_below_bound, lemma_empty_board, lemma_same_squares, lemma_single, lemma_test,
    lemma_union, popcount,
};

verus! {

/// The square `t` is occupied in the subset of `mask` numbered `index`: it is a
/// square of the mask, and the bit of `index` that belongs to it, counted by
/// the squares of the mask below it, is set.
pub open spec fn occupancy_square(mask: u64, index: u64, t: int) -> bool {
    has_bit(mask, t) && has_bit(index, count_below(mask, t) as int)
}

/// Membership in the subset of `mask` numbered `index`, as a predicate on
/// squares.
pub open spec fn occupancy_squares(mask: u64, index: u64) -> spec_fn(int) -> bool {
    |t: int| occupancy_square(mask, index, t)
}

/// The subset of `mask` numbered `index`.
pub open spec fn occupancy_at(mask: u64, index: u64) -> u64 {
    board(occupancy_squares(mask, index))
}

/// How many subsets a mask has.
pub open spec fn occupancy_count(mask: u64) -> nat {
    pow2(popcount(mask))
}

/// All the subsets of `mask`, by ascending index.
pub open spec fn all_occupancies(mask: u64) -> Seq<u64> {
    Seq::new(occupancy_count(mask), |i: int| occupancy_at(mask, i as u64))
}

/// An index below `1 << n` has no bit set from bit `n` on.
proof fn lemma_bv_index(x: u64, n: u64, b: u64)
    by (bit_vector)
    requires
        n <= b < 64,
        x < (1u64 << n),
    ensures
        (x >> b) & 1 == 0,
{
}

/// An index below `2^n` has no bit set from bit `n` on.
pub proof fn lemma_index_bits(x: u64, n: nat, b: int)
    requires
        x < pow2(n),
        n <= b,
    ensures
        !has_bit(x, b),
{
    if b < 64 {
        lemma_u64_pow2_no_overflow(n);
        lemma_u64_shl_is_mul(1, n as u64);
        lemma_bv_index(x, n as u64, b as u64);
    }
}

/// Every subset of a mask lies inside the mask.
pub proof fn lemma_occupancy_subset(mask: u64, index: u64)
    ensures
        is_subset(occupancy_at(mask, index), mask),
{
    assert forall|t: int| has_bit(occupancy_at(mask, index), t) implies has_bit(mask, t) by {
        lemma_board(occupancy_squares(mask, index), t);
    }
}

/// The square of `mask` that has exactly `b` squares of the mask below it.
pub proof fn lemma_select(mask: u64, n: int, b: int) -> (s: int)
    requires
        0 <= n <= 64,
        0 <= b < count_below(mask, n),
    ensures
        0 <= s < n,
        has_bit(mask, s),
        count_below(mask, s) == b,
    decreases n,
{
    if b < count_below(mask, n - 1) {
        lemma_select(mask, n - 1, b)
    } else {
        n - 1
    }
}

/// Two different indices below the number of subsets give different subsets.
pub proof fn lemma_occupancy_injective(mask: u64, i: u64, j: u64)
    requires
        i < occupancy_count(mask),
        j < occupancy_count(mask),
        i != j,
    ensures
        occupancy_at(mask, i) != occupancy_at(mask, j),
{
    let n = popcount(mask);
    if forall|b: int| 0 <= b < 64 ==> has_bit(i, b) == has_bit(j, b) {
        lemma_same_squares(i, j);
    }
    let b = choose|b: int| 0 <= b < 64 && has_bit(i, b) != has_bit(j, b);
    if n <= b {
        lemma_index_bits(i, n, b);
        lemma_index_bits(j, n, b);
    }
    let s = lemma_select(mask, 64, b);
    lemma_board(occupancy_squares(mask, i), s);
    lemma_board(occupancy_squares(mask, j), s);
}

/// The squares of a mask are counted in strictly increasing order.
pub proof fn lemma_count_increases(mask: u64, s: int, t: int)
    requires
        0 <= s < t,
        has_bit(mask, s),
    ensures
        count_below(mask, s) < count_below(mask, t),
    decreases t - s,
{
    if s + 1 < t {
        lemma_count_increases(mask, s, t - 1);
    }
}

/// The square `s` of the mask is occupied in `o` and stands for bit `b` of an
/// index.
pub open spec fn picks_bit(mask: u64, o: u64, s: int, b: int) -> bool {
    has_bit(mask, s) && has_bit(o, s) && count_below(mask, s) == b
}

/// The index of a subset, gathered from the squares below `n`: the square of
/// the mask that has `b` squares of the mask below it gives bit `b`.
pub open spec fn index_below(mask: u64, o: u64, n: int) -> u64
    decreases n,
{
    if n <= 0 {
        0
    } else {
        index_below(mask, o, n - 1) | if has_bit(mask, n - 1) && has_bit(o, n - 1) {
            1u64 << (count_below(mask, n - 1) as u64)
        } else {
            0u64
        }
    }
}

/// The index of the subset `o` of `mask`.
pub open spec fn index_of(mask: u64, o: u64) -> u64 {
    index_below(mask, o, 64)
}

/// Setting bit `r` of a value below `1 << r` gives a value below `1 << (r + 1)`.
proof fn lemma_bv_index_grows(x: u64, r: u64)
    by (bit_vector)
    requires
        r < 63,
        x < (1u64 << r),
    ensures
        (x | (1u64 << r)) < (1u64 << ((r + 1) as u64)),
{
}

/// Bit `b` of the gathered index is set exactly if a square below `n` gives it.
proof fn lemma_index_below_bits(mask: u64, o: u64, n: int, b: int)
    requires
        0 <= n <= 64,
    ensures
        has_bit(index_below(mask, o, n), b) <==> exists|s: int|
            0 <= s < n && #[trigger] picks_bit(mask, o, s, b),
    decreases n,
{
    if n <= 0 {
        lemma_empty_board(b);
    } else {
        let rest = index_below(mask, o, n - 1);
        let r = count_below(mask, n - 1) as int;
        let top = if has_bit(mask, n - 1) && has_bit(o, n - 1) {
            1u64 << (r as u64)
        } else {
            0u64
        };
        lemma_index_below_bits(mask, o, n - 1, b);
        lemma_count_below_bound(mask, n - 1);
        lemma_union(rest, top, b);
        lemma_single(r, b);
        lemma_empty_board(b);
        if has_bit(rest, b) {
            let s = choose|s: int| 0 <= s < n - 1 && #[trigger] picks_bit(mask, o, s, b);
            assert(picks_bit(mask, o, s, b));
        }
        if has_bit(top, b) {
            assert(picks_bit(mask, o, n - 1, b));
        }
        if exists|s: int| 0 <= s < n && #[trigger] picks_bit(mask, o, s, b) {
            let s = choose|s: int| 0 <= s < n && #[trigger] picks_bit(mask, o, s, b);
            if s < n - 1 {
                assert(picks_bit(mask, o, s, b));
            }
        }
    }
}

/// The index gathered from the squares below `n` has as many bits as the mask
/// has squares below `n`.
proof fn lemma_index_below_bound(mask: u64, o: u64, n: int)
    requires
        0 <= n <= 64,
    ensures
        index_below(mask, o, n) < pow2(count_below(mask, n)),
    decreases n,
{
    lemma2_to64_rest();
    vstd::arithmetic::power2::lemma2_to64();
    if n > 0 {
        let rest = index_below(mask, o, n - 1);
        let r = count_below(mask, n - 1);
        lemma_index_below_bound(mask, o, n - 1);
        lemma_count_below_bound(mask, n - 1);
        assert(rest | 0 == rest) by (bit_vector);
        if has_bit(mask, n - 1) {
            lemma_pow2_strictly_increases(r, r + 1);
            if has_bit(o, n - 1) && r < 63 {
                lemma_u64_pow2_no_overflow(r);
                lemma_u64_pow2_no_overflow(r + 1);
                lemma_u64_shl_is_mul(1, r as u64);
                lemma_u64_shl_is_mul(1, (r + 1) as u64);
                lemma_bv_index_grows(rest, r as u64);
            }
        }
    }
}

/// Every subset of a mask is enumerated: it is the subset numbered by its
/// index, and its index is below the number of subsets.
pub proof fn lemma_occupancy_surjective(mask: u64, o: u64)
    requires
        is_subset(o, mask),
    ensures
        index_of(mask, o) < occupancy_count(mask),
        occupancy_at(mask, index_of(mask, o)) == o,
{
    let index = index_of(mask, o);
    lemma_index_below_bound(mask, o, 64);
    assert forall|t: int| 0 <= t < 64 implies has_bit(o, t) == occupancy_squares(mask, index)(
        t,
    ) by {
        let b = count_below(mask, t) as int;
        lemma_index_below_bits(mask, o, 64, b);
        if has_bit(o, t) {
            assert(picks_bit(mask, o, t, b));
        }
        if occupancy_square(mask, index, t) {
            let s = choose|s: int| 0 <= s < 64 && #[trigger] picks_bit(mask, o, s, b);
            if s < t {
                lemma_count_increases(mask, s, t);
            }
            if t < s {
                lemma_count_increases(mask, t, s);
            }
        }
    }
    lemma_board_unique(occupancy_squares(mask, index), o);
}

/// The value `(1 << n) - 1` has every bit below `n` set.
proof fn lemma_bv_low_bits(n: u64, b: u64)
    by (bit_vector)
    requires
        b < n < 64,
    ensures
        ((((1u64 << n) - 1) as u64) >> b) & 1 == 1,
{
}

/// The last subset of a mask is the mask itself, and no earlier one is: every
/// subset but the last is a proper part of the mask.
pub proof fn lemma_last_occupancy(mask: u64, i: u64)
    requires
        popcount(mask) < 64,
        i < occupancy_count(mask),
    ensures
        occupancy_at(mask, i) == mask <==> i == occupancy_count(mask) - 1,
{
    let n = popcount(mask);
    lemma_u64_pow2_no_overflow(n);
    lemma_u64_shl_is_mul(1, n as u64);
    let last = (occupancy_count(mask) - 1) as u64;
    assert forall|t: int| 0 <= t < 64 implies has_bit(mask, t) == occupancy_squares(mask, last)(
        t,
    ) by {
        if has_bit(mask, t) {
            lemma_count_increases(mask, t, 64);
            lemma_bv_low_bits(n as u64, count_below(mask, t) as u64);
        }
    }
    lemma_board_unique(occupancy_squares(mask, last), mask);
    if i != last {
        lemma_occupancy_injective(mask, i, last);
    }
}

/// The subset of `attack_mask` numbered `index`: bit `k` of `index` is copied
/// to the `k`-th square of the mask, the squares taken in increasing order.
pub fn set_occupancy(index: u64, attack_mask: &u64) -> (occupancy: u64)
    ensures
        occupancy == occupancy_at(*attack_mask, index),
        forall|t: int| has_bit(occupancy, t) <==> occupancy_square(*attack_mask, index, t),
{
    let mut occupancy: u64 = 0;
    let mut bit_index: u32 = 0;
    proof {
        assert forall|t: int| !has_bit(0, t) by {
            lemma_empty_board(t);
        }
    }
    for square in 0..64u32
        invariant
            bit_index <= square,
            bit_index == count_below(*attack_mask, square as int),
            forall|t: int|
                has_bit(occupancy, t) <==> t < square && occupancy_square(*attack_mask, index, t),
    {
        proof {
            lemma_test(*attack_mask, square as int);
            lemma_test(index, bit_index as int);
        }
        if *attack_mask & (1u64 << square) != 0 {
            if index & (1u64 << bit_index) != 0 {
                let ghost before = occupancy;
                occupancy |= 1u64 << square;
                proof {
                    assert forall|t: int|
                        has_bit(occupancy, t) <==> t < square + 1 && occupancy_square(
                            *attack_mask,
                            index,
                            t,
                        ) by {
                        lemma_union(before, 1u64 << square, t);
                        lemma_single(square as int, t);
                    }
                }
            }
            bit_index += 1;
        }
    }
    proof {
        lemma_board_unique(occupancy_squares(*attack_mask, index), occupancy);
    }
    occupancy
}

/// All the subsets of `attack_mask`, by ascending index.
pub fn generate_occupancies(attack_mask: &u64) -> (occupancies: Vec<u64>)
    requires
        popcount(*attack_mask) < 64,
    ensures
        occupancies@ == all_occupancies(*attack_mask),
        occupancies@.len() == pow2(popcount(*attack_mask)),
        forall|i: int| 0 <= i < occupancies@.len() ==> is_subset(#[trigger] occupancies@[i], *attack_mask),
        forall|i: int, j: int|
            0 <= i < j < occupancies@.len() ==> occupancies@[i] != occupancies@[j],
        forall|i: int|
            0 <= i < occupancies@.len() ==> (#[trigger] occupancies@[i] == *attack_mask <==> i
                == occupancies@.len() - 1),
{
    let mut occupancies: Vec<u64> = Vec::new();
    let bits = count_bits(*attack_mask);
    proof {
        lemma_u64_pow2_no_overflow(bits as nat);
        lemma_u64_shl_is_mul(1, bits as u64);
    }
    let count: u64 = 1u64 << bits;
    for index in 0..count
        invariant
            count == occupancy_count(*attack_mask),
            occupancies@.len() == index,
            forall|i: int|
                0 <= i < index ==> #[trigger] occupancies@[i] == occupancy_at(*attack_mask, i as u64),
    {
        let occupancy = set_occupancy(index, attack_mask);
        occupancies.push(occupancy);
    }
    proof {
        assert(occupancies@ =~= all_occupancies(*attack_mask));
        assert forall|i: int| 0 <= i < occupancies@.len() implies is_subset(
            #[trigger] occupancies@[i],
            *attack_mask,
        ) by {
            lemma_occupancy_subset(*attack_mask, i as u64);
        }
        assert forall|i: int, j: int| 0 <= i < j < occupancies@.len() implies occupancies@[i]
            != occupancies@[j] by {
            lemma_occupancy_injective(*attack_mask, i as u64, j as u64);
        }
        assert forall|i: int| 0 <= i < occupancies@.len() implies (#[trigger] occupancies@[i]
            == *attack_mask <==> i == occupancies@.len() - 1) by {
            lemma_last_occupancy(*attack_mask, i as u64);
        }
    }
    occupancies
}

} // verus!
