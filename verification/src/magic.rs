//! The search for magic numbers: multipliers that hash every occupancy of a
//! mask to a slot of the attack table so that occupancies sharing a slot share
//! their attack set.

use vstd::prelude::*;
use vstd::std_specs::iter::IteratorSpec;
use std::collections::HashMap;
use crate::attacks::{
    attack_set, find_legal_bishop_moves, find_legal_rook_moves, lemma_attacks_masked,
};
use crate::bitboard::{count_bits, has_bit, is_square, is_subset, lemma_intersection, popcount};
use crate::masks::{generate_bishop_mask, generate_rook_mask, mask_of};
use crate::occupancy::{
    all_occupancies, generate_occupancies, index_of, lemma_occupancy_surjective, occupancy_at,
};

verus! {

broadcast use vstd::std_specs::hash::group_hash_axioms;

/// The number of slots of an attack table: enough for the twelve relevant
/// squares that a rook in a corner has.
pub const ATTACK_ARRAY_SIZE: usize = 4096;

/// The largest number of relevant squares for which every slot index fits the
/// attack table.
pub const MAX_RELEVANT_BITS: u32 = 12;

/// The byte of a product that the quick test of a candidate looks at.
pub const TOP_BYTE: u64 = 0xFF00000000000000;

/// The number of set bits that the quick test asks for in the top byte.
pub const MIN_TOP_BITS: u32 = 6;

/// The slot of an occupancy: the top `relevant_bits` bits of its product with
/// the magic number, the product taken modulo `2^64`.
pub open spec fn magic_index(occupancy: u64, magic: u64, relevant_bits: u32) -> usize {
    (occupancy.wrapping_mul(magic) >> ((64 - relevant_bits) as u64)) as usize
}

/// The quick test of a candidate: its product with the mask has at least
/// `MIN_TOP_BITS` bits set in the top byte.
pub open spec fn passes_prefilter(mask: u64, magic: u64) -> bool {
    popcount(mask.wrapping_mul(magic) & TOP_BYTE) >= MIN_TOP_BITS
}

/// The multiplier hashes the occupancies consistently: any two of them that
/// share a slot have the same attack set.
pub open spec fn is_magic(
    sq: int,
    is_bishop: bool,
    occupancies: Seq<u64>,
    magic: u64,
    relevant_bits: u32,
) -> bool {
    forall|i: int, j: int|
        0 <= i < occupancies.len() && 0 <= j < occupancies.len() && magic_index(
            #[trigger] occupancies[i],
            magic,
            relevant_bits,
        ) == magic_index(#[trigger] occupancies[j], magic, relevant_bits) ==> attack_set(
            sq,
            is_bishop,
            occupancies[i],
        ) == attack_set(sq, is_bishop, occupancies[j])
}

/// Some occupancy of the sequence hashes to the slot `slot`.
pub open spec fn slot_used(
    occupancies: Seq<u64>,
    magic: u64,
    relevant_bits: u32,
    slot: usize,
) -> bool {
    exists|i: int|
        0 <= i < occupancies.len() && magic_index(
            #[trigger] occupancies[i],
            magic,
            relevant_bits,
        ) == slot
}

/// The mapping from slots to attack sets that the occupancies give under a
/// multiplier: its keys are the slots in use, and each occupancy finds its
/// attack set under its slot.
pub open spec fn records_attacks(
    used: Map<usize, u64>,
    sq: int,
    is_bishop: bool,
    occupancies: Seq<u64>,
    magic: u64,
    relevant_bits: u32,
) -> bool {
    &&& forall|slot: usize|
        used.contains_key(slot) <==> slot_used(occupancies, magic, relevant_bits, slot)
    &&& forall|i: int|
        0 <= i < occupancies.len() ==> used[magic_index(
            #[trigger] occupancies[i],
            magic,
            relevant_bits,
        )] == attack_set(sq, is_bishop, occupancies[i])
}

/// The attack table of a multiplier: each occupancy finds its attack set in
/// its slot, and the slots that no occupancy uses are empty.
pub open spec fn is_attack_table(
    table: Seq<u64>,
    sq: int,
    is_bishop: bool,
    occupancies: Seq<u64>,
    magic: u64,
    relevant_bits: u32,
) -> bool {
    &&& table.len() == ATTACK_ARRAY_SIZE
    &&& forall|i: int|
        0 <= i < occupancies.len() ==> magic_index(
            #[trigger] occupancies[i],
            magic,
            relevant_bits,
        ) < ATTACK_ARRAY_SIZE && table[magic_index(occupancies[i], magic, relevant_bits) as int]
            == attack_set(sq, is_bishop, occupancies[i])
    &&& forall|slot: usize|
        slot < ATTACK_ARRAY_SIZE && !slot_used(occupancies, magic, relevant_bits, slot)
            ==> #[trigger] table[slot as int] == 0
}

/// A multiplier is accepted for a mask if it passes the quick test and hashes
/// all the subsets of the mask consistently.
pub open spec fn is_accepted(sq: int, is_bishop: bool, mask: u64, magic: u64) -> bool {
    &&& passes_prefilter(mask, magic)
    &&& is_magic(sq, is_bishop, all_occupancies(mask), magic, popcount(mask) as u32)
}

/// What is left of a shift by 52 or more fits the attack table.
proof fn lemma_bv_slot_bound(x: u64, shift: u64)
    by (bit_vector)
    requires
        52 <= shift < 64,
    ensures
        (x >> shift) < 4096,
{
}

/// One draw of `rand::random::<u64>()`, which asks the thread-local generator
/// of the `rand` crate for a value. Nothing is claimed of the value: any `u64`
/// may come back, and two draws need not agree. The call panics if the
/// operating system cannot seed the generator.
#[verifier::external_body]
fn random_u64() -> u64 {
    rand::random::<u64>()
}

/// The slot of an occupancy under a multiplier.
pub fn magic_hash(occupancy: u64, magic: u64, relevant_bits: u32) -> (slot: usize)
    requires
        1 <= relevant_bits <= MAX_RELEVANT_BITS,
    ensures
        slot == magic_index(occupancy, magic, relevant_bits),
        slot < ATTACK_ARRAY_SIZE,
{
    let shift: u32 = 64 - relevant_bits;
    let product = occupancy.wrapping_mul(magic);
    proof {
        lemma_bv_slot_bound(product, shift as u64);
    }
    (product >> shift) as usize
}

/// The attack table of a mapping from slots to attack sets: the recorded
/// attack set in each recorded slot, the empty board in every other. The order
/// in which the mapping hands out its keys does not show in the table.
pub fn hashmap_to_bitboard_array(hashmap: &HashMap<usize, u64>) -> (bitboards: [u64;
    ATTACK_ARRAY_SIZE])
    requires
        forall|slot: usize| hashmap@.contains_key(slot) ==> slot < ATTACK_ARRAY_SIZE,
    ensures
        forall|slot: usize|
            slot < ATTACK_ARRAY_SIZE ==> #[trigger] bitboards@[slot as int] == (if hashmap@.contains_key(
                slot,
            ) {
                hashmap@[slot]
            } else {
                0
            }),
{
    let mut bitboards: [u64; ATTACK_ARRAY_SIZE] = [0; ATTACK_ARRAY_SIZE];
    let ghost keys: Seq<usize> = hashmap.keys().remaining().unref();
    let ghost mut done: int = 0;
    proof {
        assert(keys.to_set() == hashmap@.dom());
    }
    for key in iter: hashmap.keys()
        invariant
            iter.seq().unref() == keys,
            done == iter.index(),
            0 <= done <= keys.len(),
            keys.to_set() == hashmap@.dom(),
            forall|slot: usize| hashmap@.contains_key(slot) ==> slot < ATTACK_ARRAY_SIZE,
            forall|slot: usize|
                slot < ATTACK_ARRAY_SIZE ==> #[trigger] bitboards@[slot as int] == (if keys.take(
                    done,
                ).contains(slot) {
                    hashmap@[slot]
                } else {
                    0
                }),
    {
        assert(keys[done] == *key);
        assert(keys.to_set().contains(*key));
        match hashmap.get(key) {
            Some(attacks) => {
                bitboards[*key] = *attacks;
            },
            None => {},
        }
        proof {
            let before = keys.take(done);
            let after = keys.take(done + 1);
            assert forall|slot: usize| after.contains(slot) == (before.contains(slot) || slot
                == *key) by {
                if before.contains(slot) {
                    let j = choose|j: int| 0 <= j < before.len() && before[j] == slot;
                    assert(after[j] == slot);
                }
                assert(after[done] == *key);
                if after.contains(slot) {
                    let j = choose|j: int| 0 <= j < after.len() && after[j] == slot;
                    if j < done {
                        assert(before[j] == slot);
                    }
                }
            }
            done = done + 1;
        }
    }
    proof {
        assert(keys.take(done) =~= keys);
        assert forall|slot: usize| keys.contains(slot) == hashmap@.contains_key(slot) by {
            assert(keys.to_set().contains(slot) == keys.contains(slot));
        }
    }
    bitboards
}

/// Hashes every occupancy under the candidate and records its attack set
/// under its slot. The mapping comes back if no two occupancies with different
/// attack sets share a slot; otherwise the candidate is rejected at the first
/// such pair.
pub fn record_attacks(
    square: i32,
    is_bishop: bool,
    occupancies: &Vec<u64>,
    relevant_bits: u32,
    magic_candidate: u64,
) -> (recorded: Option<HashMap<usize, u64>>)
    requires
        is_square(square as int),
        1 <= relevant_bits <= MAX_RELEVANT_BITS,
    ensures
        recorded is Some <==> is_magic(
            square as int,
            is_bishop,
            occupancies@,
            magic_candidate,
            relevant_bits,
        ),
        recorded matches Some(used_attacks) ==> records_attacks(
            used_attacks@,
            square as int,
            is_bishop,
            occupancies@,
            magic_candidate,
            relevant_bits,
        ),
{
    let ghost sq = square as int;
    let mut used_attacks: HashMap<usize, u64> = HashMap::new();
    for n in 0..occupancies.len()
        invariant
            is_square(sq),
            sq == square,
            1 <= relevant_bits <= MAX_RELEVANT_BITS,
            records_attacks(
                used_attacks@,
                sq,
                is_bishop,
                occupancies@.take(n as int),
                magic_candidate,
                relevant_bits,
            ),
    {
        let ghost seen = occupancies@.take(n as int);
        let ghost next = occupancies@.take(n + 1);
        let ghost before = used_attacks@;
        let occupancy = occupancies[n];
        let attack_index = magic_hash(occupancy, magic_candidate, relevant_bits);
        let attacks_bitboard = if is_bishop {
            find_legal_bishop_moves(&square, &occupancy)
        } else {
            find_legal_rook_moves(&square, &occupancy)
        };
        assert(next[n as int] == occupancy);
        assert(forall|i: int| 0 <= i < n ==> seen[i] == next[i]);
        match used_attacks.get(&attack_index) {
            Some(existing_attack) => {
                if *existing_attack != attacks_bitboard {
                    proof {
                        assert(slot_used(seen, magic_candidate, relevant_bits, attack_index));
                        let i = choose|i: int|
                            0 <= i < seen.len() && magic_index(
                                #[trigger] seen[i],
                                magic_candidate,
                                relevant_bits,
                            ) == attack_index;
                        assert(occupancies@[i] == seen[i]);
                        assert(occupancies@[n as int] == occupancy);
                    }
                    return None;
                }
            },
            None => {
                used_attacks.insert(attack_index, attacks_bitboard);
            },
        }
        proof {
            let used = used_attacks@;
            assert forall|slot: usize|
                used.contains_key(slot) <==> slot_used(
                    next,
                    magic_candidate,
                    relevant_bits,
                    slot,
                ) by {
                if slot_used(next, magic_candidate, relevant_bits, slot) {
                    let i = choose|i: int|
                        0 <= i < next.len() && magic_index(
                            #[trigger] next[i],
                            magic_candidate,
                            relevant_bits,
                        ) == slot;
                    if i < n {
                        assert(seen[i] == next[i]);
                        assert(slot_used(seen, magic_candidate, relevant_bits, slot));
                    }
                }
                if used.contains_key(slot) {
                    if slot == attack_index {
                        assert(magic_index(next[n as int], magic_candidate, relevant_bits) == slot);
                    } else {
                        assert(before.contains_key(slot));
                        let i = choose|i: int|
                            0 <= i < seen.len() && magic_index(
                                #[trigger] seen[i],
                                magic_candidate,
                                relevant_bits,
                            ) == slot;
                        assert(next[i] == seen[i]);
                    }
                }
            }
            assert forall|i: int| 0 <= i < next.len() implies used[magic_index(
                #[trigger] next[i],
                magic_candidate,
                relevant_bits,
            )] == attack_set(sq, is_bishop, next[i]) by {
                if i < n {
                    assert(seen[i] == next[i]);
                }
            }
        }
    }
    proof {
        assert(occupancies@.take(occupancies@.len() as int) =~= occupancies@);
    }
    Some(used_attacks)
}

/// Every slot index fits the attack table when at most `MAX_RELEVANT_BITS`
/// bits are kept.
pub proof fn lemma_magic_index_bound(occupancy: u64, magic: u64, relevant_bits: u32)
    requires
        1 <= relevant_bits <= MAX_RELEVANT_BITS,
    ensures
        magic_index(occupancy, magic, relevant_bits) < ATTACK_ARRAY_SIZE,
{
    lemma_bv_slot_bound(occupancy.wrapping_mul(magic), (64 - relevant_bits) as u64);
}

/// Tests one candidate multiplier against a mask and a sequence of
/// occupancies. The attack table comes back exactly if the candidate passes the
/// quick test and hashes the occupancies consistently.
pub fn verify_candidate(
    square: i32,
    attack_mask: &u64,
    is_bishop: bool,
    occupancies: &Vec<u64>,
    relevant_bits: u32,
    magic_candidate: u64,
) -> (accepted: Option<[u64; ATTACK_ARRAY_SIZE]>)
    requires
        is_square(square as int),
        1 <= relevant_bits <= MAX_RELEVANT_BITS,
    ensures
        accepted is Some <==> passes_prefilter(*attack_mask, magic_candidate) && is_magic(
            square as int,
            is_bishop,
            occupancies@,
            magic_candidate,
            relevant_bits,
        ),
        accepted matches Some(table) ==> is_attack_table(
            table@,
            square as int,
            is_bishop,
            occupancies@,
            magic_candidate,
            relevant_bits,
        ),
{
    if count_bits(attack_mask.wrapping_mul(magic_candidate) & TOP_BYTE) < MIN_TOP_BITS {
        return None;
    }
    match record_attacks(square, is_bishop, occupancies, relevant_bits, magic_candidate) {
        Some(used_attacks) => {
            proof {
                assert forall|slot: usize| used_attacks@.contains_key(slot) implies slot
                    < ATTACK_ARRAY_SIZE by {
                    let i = choose|i: int|
                        0 <= i < occupancies@.len() && magic_index(
                            #[trigger] occupancies@[i],
                            magic_candidate,
                            relevant_bits,
                        ) == slot;
                    lemma_magic_index_bound(occupancies@[i], magic_candidate, relevant_bits);
                }
            }
            let table = hashmap_to_bitboard_array(&used_attacks);
            proof {
                assert forall|i: int| 0 <= i < occupancies@.len() implies magic_index(
                    #[trigger] occupancies@[i],
                    magic_candidate,
                    relevant_bits,
                ) < ATTACK_ARRAY_SIZE && table@[magic_index(
                    occupancies@[i],
                    magic_candidate,
                    relevant_bits,
                ) as int] == attack_set(square as int, is_bishop, occupancies@[i]) by {
                    let slot = magic_index(occupancies@[i], magic_candidate, relevant_bits);
                    lemma_magic_index_bound(occupancies@[i], magic_candidate, relevant_bits);
                    assert(slot_used(occupancies@, magic_candidate, relevant_bits, slot));
                }
            }
            Some(table)
        },
        None => None,
    }
}

/// Searches for a magic number for the piece on `square` with the given mask:
/// three values are drawn at random and handed to `try_draws`, again and again,
/// until a candidate is accepted or `max_attempts` candidates have been tried.
///
/// On success the mask, the accepted multiplier, the number of relevant
/// squares and the attack table come back; a slot index is
/// `(occupancy * magic) >> (64 - relevant_bits)`, the product taken modulo
/// `2^64`. `None` says that no candidate within the budget was accepted.
pub fn find_magic_number(square: i32, attack_mask: &u64, is_bishop: bool, max_attempts: u64) -> (found:
    Option<(u64, u64, u32, [u64; ATTACK_ARRAY_SIZE])>)
    requires
        is_square(square as int),
        1 <= popcount(*attack_mask) <= MAX_RELEVANT_BITS,
    ensures
        max_attempts == 0 ==> found is None,
        found matches Some((mask, magic, relevant_bits, table)) ==> {
            &&& mask == *attack_mask
            &&& relevant_bits == popcount(mask)
            &&& is_accepted(square as int, is_bishop, mask, magic)
            &&& is_attack_table(
                table@,
                square as int,
                is_bishop,
                all_occupancies(mask),
                magic,
                relevant_bits,
            )
        },
{
    let occupancies = generate_occupancies(attack_mask);
    let relevant_bits = count_bits(*attack_mask);
    let mut attempts: u64 = 0;
    while attempts < max_attempts
        invariant
            is_square(square as int),
            relevant_bits == popcount(*attack_mask),
            1 <= relevant_bits <= MAX_RELEVANT_BITS,
            occupancies@ == all_occupancies(*attack_mask),
        decreases max_attempts - attempts,
    {
        let (first, second, third) = (random_u64(), random_u64(), random_u64());
        let tried = try_draws(
            square,
            attack_mask,
            is_bishop,
            &occupancies,
            relevant_bits,
            first,
            second,
            third,
        );
        if tried.is_some() {
            return tried;
        }
        attempts += 1;
    }
    None
}

/// Every subset of a mask is one of its enumerated occupancies.
pub proof fn lemma_subset_enumerated(mask: u64, o: u64) -> (i: int)
    requires
        is_subset(o, mask),
    ensures
        0 <= i < all_occupancies(mask).len(),
        all_occupancies(mask)[i] == o,
{
    lemma_occupancy_surjective(mask, o);
    let i = index_of(mask, o) as int;
    assert(all_occupancies(mask)[i] == occupancy_at(mask, i as u64));
    i
}

/// Under an accepted multiplier, two subsets of the mask that share a slot have
/// the same attack set.
pub proof fn lemma_accepted_consistent(
    sq: int,
    is_bishop: bool,
    mask: u64,
    magic: u64,
    first: u64,
    second: u64,
)
    requires
        is_accepted(sq, is_bishop, mask, magic),
        is_subset(first, mask),
        is_subset(second, mask),
        magic_index(first, magic, popcount(mask) as u32) == magic_index(
            second,
            magic,
            popcount(mask) as u32,
        ),
    ensures
        attack_set(sq, is_bishop, first) == attack_set(sq, is_bishop, second),
{
    let i = lemma_subset_enumerated(mask, first);
    let j = lemma_subset_enumerated(mask, second);
}

/// The table answers for every board: the slot of the part of an occupancy
/// that lies inside the mask holds the attack set on the whole occupancy.
pub proof fn lemma_table_lookup(
    table: Seq<u64>,
    sq: int,
    is_bishop: bool,
    magic: u64,
    occ: u64,
)
    requires
        is_square(sq),
        is_attack_table(
            table,
            sq,
            is_bishop,
            all_occupancies(mask_of(sq, is_bishop)),
            magic,
            popcount(mask_of(sq, is_bishop)) as u32,
        ),
    ensures
        magic_index(
            occ & mask_of(sq, is_bishop),
            magic,
            popcount(mask_of(sq, is_bishop)) as u32,
        ) < ATTACK_ARRAY_SIZE,
        table[magic_index(
            occ & mask_of(sq, is_bishop),
            magic,
            popcount(mask_of(sq, is_bishop)) as u32,
        ) as int] == attack_set(sq, is_bishop, occ),
{
    let mask = mask_of(sq, is_bishop);
    assert forall|t: int| has_bit(occ & mask, t) implies has_bit(mask, t) by {
        lemma_intersection(occ, mask, t);
    }
    let i = lemma_subset_enumerated(mask, occ & mask);
    lemma_attacks_masked(sq, is_bishop, occ);
}

/// The whole generation for one square: the mask of the piece, then the
/// search for a magic number over the subsets of that mask.
///
/// What comes back answers for every board: the attack set of the piece on an
/// occupancy stands in the slot of the part of the occupancy inside the mask.
/// `None` says that no candidate within the budget was accepted.
pub fn find_magic_for_square(square: i32, is_bishop: bool, max_attempts: u64) -> (found: Option<
    (u64, u64, u32, [u64; ATTACK_ARRAY_SIZE]),
>)
    requires
        is_square(square as int),
    ensures
        max_attempts == 0 ==> found is None,
        found matches Some((mask, magic, relevant_bits, table)) ==> {
            &&& mask == mask_of(square as int, is_bishop)
            &&& relevant_bits == popcount(mask)
            &&& is_accepted(square as int, is_bishop, mask, magic)
            &&& is_attack_table(
                table@,
                square as int,
                is_bishop,
                all_occupancies(mask),
                magic,
                relevant_bits,
            )
            &&& forall|occ: u64|
                table@[magic_index(occ & mask, magic, relevant_bits) as int] == #[trigger] attack_set(
                    square as int,
                    is_bishop,
                    occ,
                )
        },
{
    let mask = if is_bishop {
        generate_bishop_mask(&square)
    } else {
        generate_rook_mask(&square)
    };
    let found = find_magic_number(square, &mask, is_bishop, max_attempts);
    proof {
        if let Some((_, magic, relevant_bits, table)) = found {
            assert forall|occ: u64|
                table@[magic_index(occ & mask, magic, relevant_bits) as int] == #[trigger] attack_set(
                    square as int,
                    is_bishop,
                    occ,
                ) by {
                lemma_table_lookup(table@, square as int, is_bishop, magic, occ);
            }
        }
    }
    found
}

/// One attempt of the search, from the three values drawn for it: the
/// candidate is their conjunction, which leaves few bits set, and it is tested
/// against the mask and the occupancies.
///
/// Exactly if the candidate passes the quick test and hashes the occupancies
/// consistently, the mask, the candidate, the number of relevant squares and
/// the attack table come back.
pub fn try_draws(
    square: i32,
    attack_mask: &u64,
    is_bishop: bool,
    occupancies: &Vec<u64>,
    relevant_bits: u32,
    first: u64,
    second: u64,
    third: u64,
) -> (found: Option<(u64, u64, u32, [u64; ATTACK_ARRAY_SIZE])>)
    requires
        is_square(square as int),
        1 <= relevant_bits <= MAX_RELEVANT_BITS,
    ensures
        found is Some <==> passes_prefilter(*attack_mask, first & second & third) && is_magic(
            square as int,
            is_bishop,
            occupancies@,
            first & second & third,
            relevant_bits,
        ),
        found matches Some((mask, magic, bits, table)) ==> {
            &&& mask == *attack_mask
            &&& magic == first & second & third
            &&& bits == relevant_bits
            &&& is_attack_table(table@, square as int, is_bishop, occupancies@, magic, bits)
        },
{
    let magic_candidate = first & second & third;
    match verify_candidate(
        square,
        attack_mask,
        is_bishop,
        occupancies,
        relevant_bits,
        magic_candidate,
    ) {
        Some(table) => Some((*attack_mask, magic_candidate, relevant_bits, table)),
        None => None,
    }
}

/// The empty board has no squares below any bound.
proof fn lemma_empty_count(n: int)
    ensures
        crate::bitboard::count_below(0, n) == 0,
    decreases n,
{
    if n > 0 {
        lemma_empty_count(n - 1);
        crate::bitboard::lemma_empty_board(n - 1);
    }
}

/// An attempt with a draw of zero is rejected: the candidate is zero, its
/// product with any mask is zero, and that fails the quick test. So no input
/// owes the search a success.
pub proof fn lemma_zero_draw_rejected(
    sq: int,
    is_bishop: bool,
    mask: u64,
    first: u64,
    second: u64,
    third: u64,
)
    requires
        first == 0 || second == 0 || third == 0,
    ensures
        first & second & third == 0,
        !passes_prefilter(mask, first & second & third),
        !is_accepted(sq, is_bishop, mask, first & second & third),
{
    assert(first & second & third == 0) by (bit_vector)
        requires
            first == 0 || second == 0 || third == 0,
    ;
    assert(mask.wrapping_mul(0) == 0) by {
        assert(mask * 0 == 0);
    }
    assert(0u64 & TOP_BYTE == 0) by (bit_vector);
    lemma_empty_count(64);
}

} // verus!
