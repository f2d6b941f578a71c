//! Generation of magic-bitboard lookup tables for sliding chess pieces.
//!
//! A bitboard is a `u64` in which bit `i` stands for square `i`, with
//! `square = rank * 8 + file`, file A = 0 .. H = 7 and rank 1 = 0 .. 8 = 7.
//! For a rook or a bishop on a square the crate derives the relevant-occupancy
//! mask, enumerates every occupancy inside that mask, computes the exact attack
//! set for each, and searches for a multiplier that hashes every occupancy to a
//! slot of a fixed-size attack table without conflicting entries.

pub mod attacks;
pub mod bitboard;
pub mod magic;
pub mod masks;
pub mod occupancy;
pub mod rays;

pub use attacks::{find_legal_bishop_moves, find_legal_rook_moves};
pub use bitboard::count_bits;
pub use magic::{
    find_magic_for_square, find_magic_number, hashmap_to_bitboard_array, magic_hash,
    record_attacks, try_draws, verify_candidate, ATTACK_ARRAY_SIZE,
};
pub use masks::{generate_bishop_mask, generate_rook_mask};
pub use occupancy::{generate_occupancies, set_occupancy};
