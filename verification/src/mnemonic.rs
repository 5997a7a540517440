//! Mnemonic codes for the recently-used distance cache: a nibble value can
//! cheaply re-express a cached distance, or a small arithmetic offset from
//! one of the two most recent distances. The sentinel value 15 means "no
//! mnemonic applies".

use vstd::prelude::*;
use vstd::wrapping::u32_specs;

verus! {

/// The distance that mnemonic code `code` (0 to 14) resolves to from the
/// cache: the four cached distances themselves, then offsets of 1 to 3 from
/// the two most recent ones. Arithmetic wraps as the 32-bit machine
/// operations do; a resolved value of zero does not count as a cache hit.
pub open spec fn spec_mnemonic_distance(lru: Seq<u32>, code: int) -> u32 {
    if code == 0 {
        lru[0]
    } else if code == 1 {
        lru[1]
    } else if code == 2 {
        lru[2]
    } else if code == 3 {
        lru[3]
    } else if code == 4 {
        u32_specs::wrapping_add(lru[0], 1)
    } else if code == 5 {
        u32_specs::wrapping_sub(lru[0], 1)
    } else if code == 6 {
        u32_specs::wrapping_add(lru[1], 1)
    } else if code == 7 {
        u32_specs::wrapping_sub(lru[1], 1)
    } else if code == 8 {
        u32_specs::wrapping_add(lru[0], 2)
    } else if code == 9 {
        u32_specs::wrapping_sub(lru[0], 2)
    } else if code == 10 {
        u32_specs::wrapping_add(lru[1], 2)
    } else if code == 11 {
        u32_specs::wrapping_sub(lru[1], 2)
    } else if code == 12 {
        u32_specs::wrapping_add(lru[0], 3)
    } else if code == 13 {
        u32_specs::wrapping_sub(lru[0], 3)
    } else {
        u32_specs::wrapping_add(lru[1], 3)
    }
}

/// Which cache slot mnemonic code `code` references.
pub open spec fn spec_mnemonic_slot(code: int) -> int {
    if code < 4 {
        code
    } else if code == 6 || code == 7 || code == 10 || code == 11 || code == 14 {
        1
    } else {
        0
    }
}

/// Resolves a mnemonic code against the recently-used distance cache,
/// returning the distance, whether it is a genuine cache hit (nonzero), and
/// the cache slot it came from.
pub fn get_distance_from_mnemonic_code(distance_lru: &[u32; 4], code: u8, _num_bytes: u32) -> (r:
    (u32, bool, usize))
    requires
        code < 15,
    ensures
        r.0 == spec_mnemonic_distance(distance_lru@, code as int),
        r.1 == (r.0 != 0),
        r.2 == spec_mnemonic_slot(code as int),
{
    let dist: u32 = match code {
        0 => distance_lru[0],
        1 => distance_lru[1],
        2 => distance_lru[2],
        3 => distance_lru[3],
        4 => distance_lru[0].wrapping_add(1),
        5 => distance_lru[0].wrapping_sub(1),
        6 => distance_lru[1].wrapping_add(1),
        7 => distance_lru[1].wrapping_sub(1),
        8 => distance_lru[0].wrapping_add(2),
        9 => distance_lru[0].wrapping_sub(2),
        10 => distance_lru[1].wrapping_add(2),
        11 => distance_lru[1].wrapping_sub(2),
        12 => distance_lru[0].wrapping_add(3),
        13 => distance_lru[0].wrapping_sub(3),
        _ => distance_lru[1].wrapping_add(3),
    };
    let slot: usize = match code {
        0 => 0,
        1 => 1,
        2 => 2,
        3 => 3,
        6 | 7 | 10 | 11 | 14 => 1,
        _ => 0,
    };
    (dist, dist != 0, slot)
}

/// Whether mnemonic code `code` is a genuine cache hit for distance `d`.
pub open spec fn spec_mnemonic_hits(lru: Seq<u32>, d: u32, code: int) -> bool {
    spec_mnemonic_distance(lru, code) == d && d != 0
}

/// The smallest code at or after `c` that hits `d`, or 15 when none does.
pub open spec fn spec_first_code_from(lru: Seq<u32>, d: u32, c: int) -> int
    decreases 15 - c,
{
    if c >= 15 {
        15
    } else if spec_mnemonic_hits(lru, d, c) {
        c
    } else {
        spec_first_code_from(lru, d, c + 1)
    }
}

/// The cheapest mnemonic code that reproduces `d` from the cache, or the
/// sentinel 15 when no code does.
pub open spec fn spec_mnemonic_code(lru: Seq<u32>, d: u32) -> int {
    spec_first_code_from(lru, d, 0)
}

/// Finds the cheapest mnemonic code reproducing `distance` from the cache,
/// or returns the sentinel 15.
pub fn distance_mnemonic_code(distance_lru: &[u32; 4], distance: u32, num_bytes: u32) -> (r: u8)
    ensures
        r == spec_mnemonic_code(distance_lru@, distance),
        r <= 15,
{
    let mut i: u8 = 0;
    while i < 15
        invariant
            i <= 15,
            spec_first_code_from(distance_lru@, distance, 0) == spec_first_code_from(
                distance_lru@,
                distance,
                i as int,
            ),
        decreases 15 - i,
    {
        let (dist, ok, _slot) = get_distance_from_mnemonic_code(distance_lru, i, num_bytes);
        if dist == distance && ok {
            return i;
        }
        i += 1;
    }
    15
}

/// The mnemonic table is invertible: whenever `distance_mnemonic_code` finds
/// a code below the sentinel, resolving that code through
/// `get_distance_from_mnemonic_code` yields the original distance again, as
/// a genuine cache hit; and no cheaper code resolves to it.
pub proof fn lemma_mnemonic_roundtrip(lru: Seq<u32>, d: u32)
    ensures
        0 <= spec_mnemonic_code(lru, d) <= 15,
        spec_mnemonic_code(lru, d) < 15 ==> spec_mnemonic_hits(lru, d, spec_mnemonic_code(lru, d)),
        forall|c: int|
            0 <= c < spec_mnemonic_code(lru, d) ==> !spec_mnemonic_hits(lru, d, c),
        spec_mnemonic_code(lru, d) == 15 ==> forall|c: int|
            0 <= c < 15 ==> !spec_mnemonic_hits(lru, d, c),
{
    lemma_first_code_from(lru, d, 0);
}

proof fn lemma_first_code_from(lru: Seq<u32>, d: u32, c0: int)
    requires
        0 <= c0 <= 15,
    ensures
        c0 <= spec_first_code_from(lru, d, c0) <= 15,
        spec_first_code_from(lru, d, c0) < 15 ==> spec_mnemonic_hits(
            lru,
            d,
            spec_first_code_from(lru, d, c0),
        ),
        forall|c: int|
            c0 <= c < spec_first_code_from(lru, d, c0) ==> !spec_mnemonic_hits(lru, d, c),
        spec_first_code_from(lru, d, c0) == 15 ==> forall|c: int|
            c0 <= c < 15 ==> !spec_mnemonic_hits(lru, d, c),
    decreases 15 - c0,
{
    if c0 < 15 && !spec_mnemonic_hits(lru, d, c0) {
        lemma_first_code_from(lru, d, c0 + 1);
    }
}

} // verus!
