//! The adaptive copy-command coding engine: a resumable state machine that
//! encodes or decodes one back-reference command nibble by nibble, with a
//! recently-used distance cache, mnemonic shortcut codes, and a logarithmic
//! distance-slot/mantissa decomposition.

use crate::codec::CrossCommandState;
use crate::interface::{
    round_up_mod_4, spec_round_up_mod_4, BillingDesignation, CopyCommand, DivansResult, ErrMsg,
};
use crate::mnemonic::get_distance_from_mnemonic_code;
use crate::priors::CopyCommandNibblePriorType;
use crate::probability::{packed, Speed};
use vstd::arithmetic::power2::{
    lemma_pow2_pos, lemma_pow2_strictly_increases, lemma_pow2_unfold, pow2,
};
use vstd::bits::{lemma_u32_pow2_no_overflow, lemma_u32_shl_is_mul, lemma_u32_shr_is_div};
use vstd::prelude::*;
use vstd::std_specs::bits::{axiom_u32_leading_zeros, u32_leading_zeros};
use vstd::wrapping::u32_specs;

verus! {

broadcast use {
    crate::probability::lemma_nibble_mask_id,
    crate::probability::lemma_nibble_masked,
    crate::probability::lemma_nibble_masked_u32,
    vstd::std_specs::bits::axiom_u32_leading_zeros,
};

/// The states of the copy coding machine, in the order they are normally
/// traversed. The mantissa states carry their partially accumulated values so
/// that a suspension can resume without re-coding any nibble.
#[derive(Copy, Clone, Debug, PartialEq, Eq, Hash, Structural)]
pub enum CopySubstate {
    Begin,
    CountSmall,
    CountLengthFirst,
    /// Length not between 0 and 14 inclusive; the second nibble yields 15-24.
    CountLengthGreater18Less25,
    /// (nibbles decoded, bits remaining, intermediate result)
    CountMantissaNibbles(u8, u8, u32),
    CountDecoded,
    /// References a recently used cached distance.
    DistanceLengthMnemonic,
    DistanceLengthFirst,
    /// Carries the upper 4 bits of the distance slot.
    DistanceLengthGreater14Less25(u8),
    /// (distance slot, nibbles decoded, bits remaining, intermediate result)
    DistanceMantissaNibbles(u32, u8, u8, u32),
    FullyDecoded,
}

/// The machine's working memory while one command is encoded or decoded:
/// the command being assembled (decode) or referenced (encode), the current
/// state tag, and the lookahead byte remembering whether a cheap mnemonic
/// path was taken early.
#[derive(Copy, Clone, Debug)]
pub struct CopyState {
    pub cc: crate::interface::CopyCommand,
    pub state: CopySubstate,
    pub early_mnemonic: u8,
}

/// Bounds on the accumulators a suspended state may carry; every reachable
/// state satisfies them and `encode_or_decode` preserves them.
pub open spec fn substate_wf(s: CopySubstate) -> bool {
    match s {
        CopySubstate::CountMantissaNibbles(len_decoded, len_remaining, _) => 4 <= len_remaining
            <= 32 && len_remaining % 4 == 0 && len_decoded + len_remaining <= 64,
        CopySubstate::DistanceLengthGreater14Less25(upper) => upper < 16,
        CopySubstate::DistanceMantissaNibbles(dist_slot, len_decoded, len_remaining, decoded) => 1
            <= dist_slot <= 63 && 4 <= len_remaining <= 32 && len_remaining % 4 == 0
            && len_decoded + len_remaining <= 64 && (dist_slot < 14 ==> len_remaining <= 8
            && decoded < 0x100),
        _ => true,
    }
}

impl CopyState {
    pub open spec fn wf(self) -> bool {
        substate_wf(self.state) && (self.early_mnemonic < 16 || self.early_mnemonic >= 0xfd)
            && match self.state {
            CopySubstate::CountSmall | CopySubstate::CountLengthFirst
                | CopySubstate::CountLengthGreater18Less25 | CopySubstate::CountMantissaNibbles(
                _,
                _,
                _,
            ) | CopySubstate::CountDecoded => self.early_mnemonic < 16 || self.early_mnemonic
                == 0xff,
            _ => true,
        }
    }
}

/// A well-founded measure on the machine's states: every transition that
/// does not finish the command strictly decreases it (lexicographically with
/// `substate_sub_rank`), so each invocation codes finitely many nibbles.
pub open spec fn substate_rank(s: CopySubstate, early_mnemonic: u8) -> int {
    match s {
        CopySubstate::Begin => 13,
        CopySubstate::DistanceLengthMnemonic => if early_mnemonic == 0xfe || early_mnemonic
            == 0xfd {
            12
        } else {
            5
        },
        CopySubstate::CountSmall => 10,
        CopySubstate::CountLengthFirst => 9,
        CopySubstate::CountLengthGreater18Less25 => 8,
        CopySubstate::CountMantissaNibbles(_, _, _) => 7,
        CopySubstate::CountDecoded => 6,
        CopySubstate::DistanceLengthFirst => 4,
        CopySubstate::DistanceLengthGreater14Less25(_) => 3,
        CopySubstate::DistanceMantissaNibbles(_, _, _, _) => 2,
        CopySubstate::FullyDecoded => 0,
    }
}

/// Tie-breaker for the self-looping length-mantissa state.
pub open spec fn substate_sub_rank(s: CopySubstate) -> int {
    match s {
        CopySubstate::CountMantissaNibbles(_, rem, _) => rem as int,
        _ => 0,
    }
}

/// The per-step progress measure decreased.
pub open spec fn rank_decreases(pre: CopyState, post: CopyState) -> bool {
    substate_rank(post.state, post.early_mnemonic) < substate_rank(pre.state, pre.early_mnemonic)
        || (substate_rank(post.state, post.early_mnemonic) == substate_rank(
        pre.state,
        pre.early_mnemonic,
    ) && substate_sub_rank(post.state) < substate_sub_rank(pre.state))
}

/// Every prior table holds the same distribution afterwards as before;
/// stated cell by cell so that single-cell writes that put back the read
/// value satisfy it directly.
pub open spec fn priors_preserved(pre: CrossCommandState, post: CrossCommandState) -> bool {
    post.bk.copy_priors.cdfs@.len() == pre.bk.copy_priors.cdfs@.len() && (forall|i: int|
        0 <= i < pre.bk.copy_priors.cdfs@.len() ==> #[trigger] post.bk.copy_priors.cdfs@[i]
            == pre.bk.copy_priors.cdfs@[i])
}

/// What any single coding step may do to the shared state: it stays well
/// formed, the session flags and regime are untouched, a decoder only
/// consumes input nibbles, an encoder only appends output nibbles without
/// draining any, and with adaptation off the prior tables are unchanged.
pub open spec fn evolves(pre: CrossCommandState, post: CrossCommandState) -> bool {
    &&& post.wf()
    &&& post.adapt == pre.adapt
    &&& post.coder.is_decoder == pre.coder.is_decoder
    &&& post.bk.prior_algorithm == pre.bk.prior_algorithm
    &&& post.bk.distance_lru@ == pre.bk.distance_lru@
    &&& (!pre.adapt ==> priors_preserved(pre, post))
    &&& (pre.coder.is_decoder ==> post.coder.nibbles@ == pre.coder.nibbles@ && pre.coder.pos
        <= post.coder.pos)
    &&& (!pre.coder.is_decoder ==> pre.coder.nibbles@.is_prefix_of(post.coder.nibbles@)
        && post.coder.pos == pre.coder.pos)
}

/// What the encoder's resumable states promise about the command being
/// encoded: the shortcut nibbles already coded really classified this
/// command, and any taken mnemonic really resolves from the cache. A fresh
/// machine satisfies it trivially, every encoding step preserves it, and
/// under it encoding can never fail.
pub open spec fn enc_ok(st: CopyState, cmd: CopyCommand, sess: CrossCommandState) -> bool {
    let lzma = sess.bk.prior_algorithm == crate::codec::PriorAlgorithm::Lzma;
    let lru = sess.bk.distance_lru@;
    let early_hits = st.early_mnemonic < 15 ==> crate::mnemonic::spec_mnemonic_distance(
        lru,
        st.early_mnemonic as int,
    ) != 0;
    match st.state {
        CopySubstate::CountSmall => early_hits,
        CopySubstate::CountMantissaNibbles(_, _, _) => early_hits,
        CopySubstate::CountDecoded => early_hits,
        CopySubstate::CountLengthFirst => early_hits && if lzma {
            cmd.num_bytes <= 9
        } else {
            cmd.num_bytes >= 15
        },
        CopySubstate::CountLengthGreater18Less25 => early_hits && if lzma {
            10 <= cmd.num_bytes <= 17
        } else {
            cmd.num_bytes >= 0x40000
        },
        CopySubstate::DistanceLengthGreater14Less25(upper) => lzma ==> upper == spec_dist_slot(
            cmd.distance as int,
        ) / 16,
        CopySubstate::DistanceMantissaNibbles(slot, _, _, _) => lzma ==> slot >= 4,
        _ => true,
    }
}

/// Floor of the base-two logarithm.
pub open spec fn floor_log2(n: nat) -> nat
    decreases n,
{
    if n < 2 {
        0
    } else {
        1 + floor_log2(n / 2)
    }
}

/// `floor_log2(n)` is the unique `k` with `2^k <= n < 2^(k+1)`.
pub proof fn lemma_floor_log2_unique(n: nat, k: nat)
    requires
        pow2(k) <= n < pow2(k + 1),
    ensures
        floor_log2(n) == k,
    decreases k,
{
    lemma_pow2_pos(k);
    if k == 0 {
        assert(pow2(0) == 1 && pow2(1) == 2) by {
            vstd::arithmetic::power2::lemma2_to64();
        }
    } else {
        lemma_pow2_unfold(k);
        lemma_pow2_unfold(k + 1);
        lemma_pow2_pos((k - 1) as nat);
        assert(pow2(k) == 2 * pow2((k - 1) as nat));
        assert(pow2(k + 1) == 2 * pow2(k));
        assert(n >= 2);
        assert(pow2((k - 1) as nat) <= n / 2 < pow2(k));
        lemma_floor_log2_unique(n / 2, (k - 1) as nat);
    }
}

/// Conversely, the logarithm brackets its argument by powers of two.
pub proof fn lemma_floor_log2_bounds(n: nat)
    requires
        n >= 1,
    ensures
        pow2(floor_log2(n)) <= n < pow2(floor_log2(n) + 1),
        n < 0x1_0000_0000 ==> floor_log2(n) <= 31,
    decreases n,
{
    if n < 2 {
        vstd::arithmetic::power2::lemma2_to64();
    } else {
        lemma_floor_log2_bounds(n / 2);
        let k = floor_log2(n / 2);
        lemma_pow2_unfold(k + 1);
        lemma_pow2_unfold(k + 2);
        assert(pow2(k + 1) == 2 * pow2(k));
        assert(pow2(k + 2) == 2 * pow2(k + 1));
    }
    if n < 0x1_0000_0000 && floor_log2(n) > 31 {
        let fl = floor_log2(n);
        vstd::arithmetic::power2::lemma2_to64();
        if fl > 32 {
            lemma_pow2_strictly_increases(32, fl);
        }
        assert(pow2(fl) >= 0x1_0000_0000);
        assert(false);
    }
}

/// For a nonzero `u32`, the count of leading zeros determines the floor
/// logarithm: `31 - leading_zeros(i) == floor_log2(i)`.
pub proof fn lemma_leading_zeros_floor_log2(i: u32)
    requires
        i >= 1,
    ensures
        u32_leading_zeros(i) <= 31,
        31 - u32_leading_zeros(i) == floor_log2(i as nat),
{
    axiom_u32_leading_zeros(i);
    let lz = u32_leading_zeros(i);
    let k = (31 - lz) as u32;
    let kp1 = (32 - lz) as u32;
    assert((i >> k) & 1 != 0 ==> i >= (1u32 << k)) by (bit_vector);
    lemma_u32_pow2_no_overflow(k as nat);
    lemma_u32_shl_is_mul(1u32, k);
    assert(pow2(k as nat) <= i);
    if k < 31 {
        assert(i >> kp1 == 0 ==> i < (1u32 << kp1)) by (bit_vector)
            requires
                kp1 == k + 1 && k < 31,
        ;
        lemma_u32_pow2_no_overflow((k + 1) as nat);
        lemma_u32_shl_is_mul(1u32, (k + 1) as u32);
        assert(i < pow2(k as nat + 1));
    } else {
        assert(i < 0x1_0000_0000);
        assert(pow2(32) == 0x1_0000_0000) by {
            vstd::arithmetic::power2::lemma2_to64();
        }
    }
    lemma_floor_log2_unique(i as nat, k as nat);
}

/// The logarithmic bucket of a distance (`dist_p_1 >= 1`): distances up to 5
/// map to buckets 0-4 directly; a larger distance maps to `2k + b` where `k`
/// is the floor logarithm of `distance - 1` and `b` is the bit just below its
/// leading bit.
pub open spec fn spec_dist_slot(dist_p_1: int) -> int {
    let dist = dist_p_1 - 1;
    if dist <= 4 {
        dist
    } else {
        let k = floor_log2(dist as nat);
        2 * k + (dist / pow2((k - 1) as nat) as int) % 2
    }
}

/// Computes the distance slot of a distance.
pub fn get_dist_slot(dist_p_1: u32) -> (slot: u32)
    requires
        dist_p_1 >= 1,
    ensures
        slot == spec_dist_slot(dist_p_1 as int),
        slot <= 63,
        dist_p_1 <= 5 ==> slot == dist_p_1 - 1,
        dist_p_1 > 5 ==> 4 <= slot,
{
    let dist = dist_p_1 - 1;
    if dist <= 4 {
        dist
    } else {
        let i = 31 - dist.leading_zeros();
        proof {
            lemma_leading_zeros_floor_log2(dist);
            let k = floor_log2(dist as nat);
            assert(i == k);
            lemma_floor_log2_bounds(dist as nat);
            if k < 2 {
                vstd::arithmetic::power2::lemma2_to64();
                assert(false);
            }
            let im1 = (i - 1) as u32;
            lemma_u32_shr_is_div(dist, im1);
            assert((dist >> im1) & 1 == (dist >> im1) % 2) by (bit_vector);
            lemma_pow2_pos((k - 1) as nat);
            assert((dist >> im1) == dist as nat / pow2((k - 1) as nat));
            assert(dist as nat / pow2((k - 1) as nat) == dist as int / pow2((k - 1) as nat) as int);
        }
        (i + i) + ((dist >> (i - 1)) & 1)
    }
}

/// How many footer (mantissa) bits a logarithmic distance slot carries.
pub open spec fn spec_slot_footer_bits(s: int) -> int {
    s / 2 - 1
}

/// The smallest `distance - 1` value falling in logarithmic slot `s`.
pub open spec fn spec_slot_base(s: int) -> int {
    (2 + s % 2) * pow2(spec_slot_footer_bits(s) as nat) as int
}

/// Distance-slot decomposition, forward direction: every distance in a
/// logarithmic slot lies within `2^footer_bits` of the slot's base, so its
/// footer value `distance - base - 1` fits in exactly the mantissa bits the
/// decoder will read back.
pub proof fn lemma_dist_slot_decomposition(d: int)
    requires
        1 <= d,
        spec_dist_slot(d) >= 4,
    ensures
        spec_slot_base(spec_dist_slot(d)) + 1 <= d,
        d <= spec_slot_base(spec_dist_slot(d)) + pow2(
            spec_slot_footer_bits(spec_dist_slot(d)) as nat,
        ),
{
    let dist = d - 1;
    vstd::arithmetic::power2::lemma2_to64();
    if dist <= 4 {
        // slot 4 holds the boundary distance 5 directly
        assert(spec_dist_slot(d) == 4 && dist == 4);
        assert(spec_slot_base(4) == 2 * pow2(1));
    } else {
        let k = floor_log2(dist as nat) as int;
        lemma_floor_log2_bounds(dist as nat);
        if k < 2 {
            assert(pow2((k + 1) as nat) <= pow2(2));
            assert(false);
        }
        let p = pow2((k - 1) as nat) as int;
        lemma_pow2_pos((k - 1) as nat);
        lemma_pow2_unfold(k as nat);
        lemma_pow2_unfold((k + 1) as nat);
        assert(2 * p <= dist < 4 * p);
        let q = dist / p;
        let r = dist % p;
        vstd::arithmetic::div_mod::lemma_fundamental_div_mod(dist, p);
        vstd::arithmetic::div_mod::lemma_mod_division_less_than_divisor(dist, p);
        assert(q >= 2) by {
            vstd::arithmetic::div_mod::lemma_div_is_ordered(2 * p, dist, p);
            vstd::arithmetic::div_mod::lemma_div_multiples_vanish(2, p);
        }
        assert(q <= 3) by {
            vstd::arithmetic::div_mod::lemma_div_is_ordered(dist, 4 * p - 1, p);
            vstd::arithmetic::div_mod::lemma_fundamental_div_mod_converse_div(
                4 * p - 1,
                p,
                3,
                p - 1,
            );
        }
        let b = q % 2;
        let s = 2 * k + b;
        assert(s == spec_dist_slot(d));
        assert(s / 2 == k && s % 2 == b);
        assert(q == 2 + b);
        if b == 0 {
            assert(q == 2 && p * q == p * 2);
            assert(dist == 2 * p + r);
            assert(spec_slot_base(s) == 2 * p);
        } else {
            assert(q == 3 && p * q == p * 3);
            assert(dist == 3 * p + r);
            assert(spec_slot_base(s) == 3 * p);
        }
    }
}

/// Distance-slot decomposition, decode direction: reading back any footer
/// value below `2^footer_bits` reconstructs a distance that falls in the
/// very slot it was coded under, so slot and footer round-trip for every
/// distance.
pub proof fn lemma_dist_slot_reconstruct(s: int, v: int)
    requires
        4 <= s <= 63,
        0 <= v < pow2(spec_slot_footer_bits(s) as nat),
    ensures
        spec_dist_slot(spec_slot_base(s) + v + 1) == s,
{
    let f = spec_slot_footer_bits(s);
    let b = s % 2;
    let p = pow2(f as nat) as int;
    lemma_pow2_pos(f as nat);
    vstd::arithmetic::power2::lemma2_to64();
    if f > 1 {
        lemma_pow2_strictly_increases(1, f as nat);
    }
    let dist = spec_slot_base(s) + v;
    if b == 0 {
        assert(dist == 2 * p + v);
    } else {
        assert(dist == 3 * p + v);
    }
    if dist <= 4 {
        // only the boundary case: slot 4 with footer value zero
        assert(p == 2 && b == 0 && v == 0 && dist == 4);
    } else {
        lemma_pow2_unfold((f + 1) as nat);
        lemma_pow2_unfold((f + 2) as nat);
        assert(pow2((f + 1) as nat) == 2 * p && pow2((f + 2) as nat) == 4 * p);
        lemma_floor_log2_unique(dist as nat, (f + 1) as nat);
        vstd::arithmetic::div_mod::lemma_fundamental_div_mod_converse_div(dist, p, 2 + b, v);
        vstd::arithmetic::div_mod::lemma_fundamental_div_mod_converse_mod(2 + b, 2, 1, b);
        assert(spec_dist_slot(dist + 1) == 2 * (f + 1) + b);
    }
}

/// The most-significant-nibble-first accumulate-by-or-and-shift pattern is
/// self-inverse: while `decoded` holds exactly the already-coded high bits
/// of `v` (plus any pre-seeded leading bit of `v`), the next coded nibble is
/// the next four bits of `v`, accumulating it keeps that shape, and once no
/// bits remain the accumulator is `v` itself. This is why the mantissa
/// nibbles an encoder derives from `v` rebuild exactly `v` in the decoder.
pub proof fn lemma_mantissa_accumulate(v: u32, next: u32, rem: u32, decoded: u32)
    by (bit_vector)
    requires
        next <= 28,
        rem == next + 4,
        decoded & v == decoded,
        (v ^ decoded) >> rem == 0,
    ensures
        ((v ^ decoded) >> next) < 16,
        ((v ^ decoded) >> next) & 0xf == (v ^ decoded) >> next,
        (decoded | (((v ^ decoded) >> next) << next)) & v == (decoded | (((v ^ decoded) >> next)
            << next)),
        (v ^ (decoded | (((v ^ decoded) >> next) << next))) >> next == 0,
        next == 0 ==> (decoded | (((v ^ decoded) >> next) << next)) == v,
        next == 0 ==> (v ^ (decoded | (((v ^ decoded) >> next) << next))) == 0,
{
}

/// The accumulate-by-or-and-shift invariant of a mantissa state: `dec`
/// holds only bits of `v`, and every bit where they still disagree lies
/// below the `rem` bits that remain to be coded.
pub open spec fn mantissa_inv(v: u32, dec: u32, rem: int) -> bool {
    dec & v == dec && (v ^ dec) < pow2(rem as nat)
}

/// What each of the encoder's states says about the command being encoded,
/// exactly: partial accumulators hold precisely the already-coded bits of
/// the command's fields, and every shortcut taken really applies to it. A
/// fresh machine satisfies it, encoding preserves it, and at success it
/// pins the assembled command to be the encoded one. In the legacy regime
/// it holds for distances below `2^30`; a larger distance does not fit the
/// legacy distance-length code.
pub open spec fn enc_exact(st: CopyState, cmd: CopyCommand, sess: CrossCommandState) -> bool {
    let lzma = sess.bk.prior_algorithm == crate::codec::PriorAlgorithm::Lzma;
    let lru = sess.bk.distance_lru@;
    let d = cmd.distance;
    let nb = cmd.num_bytes;
    let early_exact = st.early_mnemonic < 15 ==> crate::mnemonic::spec_mnemonic_distance(
        lru,
        st.early_mnemonic as int,
    ) == d;
    match st.state {
        CopySubstate::Begin => true,
        CopySubstate::CountSmall => early_exact,
        CopySubstate::CountLengthFirst => early_exact,
        CopySubstate::CountLengthGreater18Less25 => early_exact,
        CopySubstate::CountMantissaNibbles(_, rem, dec) => early_exact && if lzma {
            nb >= 18 && mantissa_inv((nb - 18) as u32, dec, rem as int)
        } else {
            mantissa_inv(nb, dec, rem as int)
        },
        CopySubstate::CountDecoded => early_exact && st.cc.num_bytes == nb,
        CopySubstate::DistanceLengthMnemonic => (st.early_mnemonic != 0xfe && st.early_mnemonic
            != 0xfd) ==> st.cc.num_bytes == nb,
        CopySubstate::DistanceLengthFirst => st.cc.num_bytes == nb,
        CopySubstate::DistanceLengthGreater14Less25(upper) => st.cc.num_bytes == nb && if lzma {
            upper == spec_dist_slot(d as int) / 16
        } else {
            d >= 0x4000
        },
        CopySubstate::DistanceMantissaNibbles(slot, _, rem, dec) => st.cc.num_bytes == nb
            && if lzma {
            slot == spec_dist_slot(d as int) && slot >= 4 && d as int - spec_slot_base(slot as int)
                - 1 >= 0 && mantissa_inv(
                (d as int - spec_slot_base(slot as int) - 1) as u32,
                dec,
                rem as int,
            )
        } else {
            mantissa_inv(d, dec, rem as int)
        },
        CopySubstate::FullyDecoded => st.cc.distance == d && st.cc.num_bytes == nb,
    }
}

/// One step of an encoding session keeps the exact encoder invariant:
/// whenever the session is an encoder, the command is valid (with a legacy
/// distance below `2^30`) and the state was exact for it, the state stays
/// exact for it.
pub open spec fn enc_exact_preserved(
    pre_self: CopyState,
    post_self: CopyState,
    cmd: CopyCommand,
    pre_sess: CrossCommandState,
    post_sess: CrossCommandState,
) -> bool {
    (!pre_sess.coder.is_decoder && cmd.distance >= 1 && cmd.num_bytes >= 1 && (
    pre_sess.bk.prior_algorithm == crate::codec::PriorAlgorithm::Lzma || cmd.distance
        < 0x40000000) && enc_ok(pre_self, cmd, pre_sess) && enc_exact(pre_self, cmd, pre_sess))
        ==> enc_exact(post_self, cmd, post_sess)
}

/// Two 32-bit values with a zero exclusive-or are equal.
proof fn lemma_xor_zero(x: u32, y: u32)
    requires
        x ^ y == 0,
    ensures
        x == y,
{
    assert(x ^ y == 0 ==> x == y) by (bit_vector);
}

/// Shifting a 32-bit value right by its full width clears it.
proof fn lemma_shr32_zero(x: u32)
    ensures
        x >> 32u32 == 0,
{
    assert(x >> 32u32 == 0) by (bit_vector);
}

/// An empty accumulator holds only bits of the value and disagrees with it
/// exactly on the value's own bits.
proof fn lemma_mantissa_zero_seed(v: u32)
    ensures
        0u32 & v == 0,
        v ^ 0 == v,
{
    assert(0u32 & v == 0 && v ^ 0 == v) by (bit_vector);
}

/// A 32-bit value is zero when shifted right by `n` exactly when it is
/// below `2^n`.
proof fn lemma_shr_zero_iff_below(x: u32, n: u32)
    requires
        n <= 31,
    ensures
        (x >> n == 0) <==> (x < pow2(n as nat)),
{
    lemma_u32_shr_is_div(x, n);
    lemma_pow2_pos(n as nat);
    lemma_u32_pow2_no_overflow(n as nat);
    let p = pow2(n as nat) as int;
    if x < p {
        vstd::arithmetic::div_mod::lemma_basic_div(x as int, p);
    } else {
        vstd::arithmetic::div_mod::lemma_div_is_ordered(p, x as int, p);
        vstd::arithmetic::div_mod::lemma_div_by_self(p);
    }
}

/// The mantissa nibbles still to be coded: most significant first, each
/// the next four bits of `v` not yet in the accumulator `dec`, until `rem`
/// bits remain uncoded.
pub open spec fn mantissa_nibble_seq(v: u32, dec: u32, rem: u32) -> Seq<u8>
    decreases rem,
{
    if rem < 4 {
        Seq::empty()
    } else {
        let next = (rem - 4) as u32;
        let nib = ((v ^ dec) >> next) & 0xf;
        seq![nib as u8] + mantissa_nibble_seq(v, dec | (nib << next), next)
    }
}

/// The nibbles an encoder still has to code from machine state `state` with
/// lookahead byte `early` to represent `cmd` under the given regime and
/// distance history. The adaptive tables steer only learning, never the
/// coded values, so they do not appear. Meaningful on states consistent
/// with `cmd` (see `enc_ok` and `enc_exact`); total everywhere.
pub open spec fn residual_nibbles(
    state: CopySubstate,
    early: u8,
    cmd: CopyCommand,
    lzma: bool,
    lru: Seq<u32>,
) -> Seq<u8>
    decreases substate_rank(state, early), substate_sub_rank(state),
{
    let d = cmd.distance;
    let nb = cmd.num_bytes;
    match state {
        CopySubstate::Begin => if lzma {
            residual_nibbles(CopySubstate::DistanceLengthMnemonic, 0xfe, cmd, lzma, lru)
        } else {
            residual_nibbles(CopySubstate::CountSmall, 0xff, cmd, lzma, lru)
        },
        CopySubstate::CountSmall => if lzma {
            let nib: u8 = if nb >= 18 + 65536 {
                4
            } else if nb >= 18 + 256 {
                3
            } else if nb >= 18 {
                2
            } else if nb > 9 {
                1
            } else {
                0
            };
            seq![nib] + if nib == 0 {
                residual_nibbles(CopySubstate::CountLengthFirst, early, cmd, lzma, lru)
            } else if nib == 1 {
                residual_nibbles(CopySubstate::CountLengthGreater18Less25, early, cmd, lzma, lru)
            } else if nib == 2 {
                residual_nibbles(CopySubstate::CountMantissaNibbles(0, 8, 0), early, cmd, lzma, lru)
            } else if nib == 3 {
                residual_nibbles(
                    CopySubstate::CountMantissaNibbles(0, 16, 0),
                    early,
                    cmd,
                    lzma,
                    lru,
                )
            } else {
                residual_nibbles(
                    CopySubstate::CountMantissaNibbles(0, 32, 0),
                    early,
                    cmd,
                    lzma,
                    lru,
                )
            }
        } else {
            let nib: u8 = if nb < 15 {
                nb as u8
            } else {
                15
            };
            seq![nib] + if nib == 15 {
                residual_nibbles(CopySubstate::CountLengthFirst, early, cmd, lzma, lru)
            } else {
                residual_nibbles(CopySubstate::CountDecoded, early, cmd, lzma, lru)
            }
        },
        CopySubstate::CountLengthFirst => if lzma {
            let nib: u8 = if nb < 10 {
                nb as u8
            } else {
                10
            };
            seq![nib] + residual_nibbles(CopySubstate::CountDecoded, early, cmd, lzma, lru)
        } else {
            let clen = floor_log2(nb as nat) + 1;
            let nib: u8 = if clen - 4 < 15 {
                (clen - 4) as u8
            } else {
                15
            };
            seq![nib] + if nib == 15 {
                residual_nibbles(CopySubstate::CountLengthGreater18Less25, early, cmd, lzma, lru)
            } else {
                residual_nibbles(
                    CopySubstate::CountMantissaNibbles(
                        0,
                        spec_round_up_mod_4(clen - 1) as u8,
                        pow2((clen - 1) as nat) as u32,
                    ),
                    early,
                    cmd,
                    lzma,
                    lru,
                )
            }
        },
        CopySubstate::CountLengthGreater18Less25 => if lzma {
            let nib: u8 = if nb - 9 < 10 {
                (nb - 9) as u8
            } else {
                10
            };
            seq![nib] + residual_nibbles(CopySubstate::CountDecoded, early, cmd, lzma, lru)
        } else {
            let clen = floor_log2(nb as nat) + 1;
            let nib: u8 = (clen - 19) as u8;
            seq![nib] + residual_nibbles(
                CopySubstate::CountMantissaNibbles(
                    0,
                    spec_round_up_mod_4(clen - 1) as u8,
                    pow2((clen - 1) as nat) as u32,
                ),
                early,
                cmd,
                lzma,
                lru,
            )
        },
        CopySubstate::CountMantissaNibbles(_, rem, dec) => {
            let v: u32 = if lzma {
                (nb - 18) as u32
            } else {
                nb
            };
            mantissa_nibble_seq(v, dec, rem as u32) + residual_nibbles(
                CopySubstate::CountDecoded,
                early,
                cmd,
                lzma,
                lru,
            )
        },
        CopySubstate::CountDecoded => if early == 0xff {
            residual_nibbles(CopySubstate::DistanceLengthMnemonic, early, cmd, lzma, lru)
        } else if early == 0xf {
            residual_nibbles(CopySubstate::DistanceLengthFirst, early, cmd, lzma, lru)
        } else {
            Seq::empty()
        },
        CopySubstate::DistanceLengthMnemonic => {
            let code = crate::mnemonic::spec_mnemonic_code(lru, d);
            if early == 0xfe || early == 0xfd {
                let c1: u8 = if code >= 4 && early == 0xfe {
                    15
                } else {
                    code as u8
                };
                let c2: u8 = if c1 >= 14 {
                    15
                } else {
                    c1
                };
                let c3: u8 = if c2 == 0 && nb == 1 {
                    14
                } else {
                    c2
                };
                if c3 == 14 {
                    seq![14u8]
                } else {
                    seq![c3] + residual_nibbles(CopySubstate::CountSmall, c3, cmd, lzma, lru)
                }
            } else {
                if code == 15 {
                    seq![15u8] + residual_nibbles(
                        CopySubstate::DistanceLengthFirst,
                        early,
                        cmd,
                        lzma,
                        lru,
                    )
                } else {
                    seq![code as u8]
                }
            }
        },
        CopySubstate::DistanceLengthFirst => if lzma {
            let slot = spec_dist_slot(d as int);
            let nib: u8 = (slot / 16) as u8;
            seq![nib] + residual_nibbles(
                CopySubstate::DistanceLengthGreater14Less25(nib),
                early,
                cmd,
                lzma,
                lru,
            )
        } else {
            let dlen = floor_log2(d as nat) + 1;
            let m: u8 = if dlen - 1 < 14 {
                (dlen - 1) as u8
            } else {
                14
            };
            let nib: u8 = if u32_specs::wrapping_sub(lru[1], 3) == d {
                15
            } else {
                m
            };
            seq![nib] + if nib == 15 || nib == 0 {
                Seq::empty()
            } else if nib == 14 {
                residual_nibbles(
                    CopySubstate::DistanceLengthGreater14Less25(0),
                    early,
                    cmd,
                    lzma,
                    lru,
                )
            } else {
                residual_nibbles(
                    CopySubstate::DistanceMantissaNibbles(
                        spec_dist_slot(pow2(nib as nat) as int) as u32,
                        0,
                        spec_round_up_mod_4(nib as int) as u8,
                        pow2(nib as nat) as u32,
                    ),
                    early,
                    cmd,
                    lzma,
                    lru,
                )
            }
        },
        CopySubstate::DistanceLengthGreater14Less25(upper) => if lzma {
            let slot = spec_dist_slot(d as int);
            let nib: u8 = (slot % 16) as u8;
            let o = upper as int * 16 + nib as int;
            seq![nib] + if o < 4 {
                Seq::empty()
            } else {
                residual_nibbles(
                    CopySubstate::DistanceMantissaNibbles(
                        o as u32,
                        0,
                        spec_round_up_mod_4(o / 2 - 1) as u8,
                        0,
                    ),
                    early,
                    cmd,
                    lzma,
                    lru,
                )
            }
        } else {
            let dlen = floor_log2(d as nat) + 1;
            let nib: u8 = (dlen - 15) as u8;
            seq![nib] + residual_nibbles(
                CopySubstate::DistanceMantissaNibbles(
                    spec_dist_slot(pow2((dlen - 1) as nat) as int) as u32,
                    0,
                    spec_round_up_mod_4(dlen - 1) as u8,
                    pow2((dlen - 1) as nat) as u32,
                ),
                early,
                cmd,
                lzma,
                lru,
            )
        },
        CopySubstate::DistanceMantissaNibbles(slot, _, rem, dec) => {
            let v: u32 = if lzma {
                (d as int - spec_slot_base(slot as int) - 1) as u32
            } else {
                d
            };
            mantissa_nibble_seq(v, dec, rem as u32)
        },
        CopySubstate::FullyDecoded => Seq::empty(),
    }
}

/// The canonical nibble sequence representing a command: what a fresh
/// machine codes for it under the given regime and distance history. The
/// compressed bytes of a command are exactly these nibbles, packed.
pub open spec fn spec_copy_nibbles(cmd: CopyCommand, lzma: bool, lru: Seq<u32>) -> Seq<u8> {
    residual_nibbles(CopySubstate::Begin, 0xfe, cmd, lzma, lru)
}

/// One step of an encoding session codes exactly the canonical nibbles:
/// under the same conditions as the exact encoder invariant, the nibbles
/// still owed before the step are the nibbles the step appended followed by
/// the nibbles still owed after it.
pub open spec fn enc_trace_preserved(
    pre_self: CopyState,
    post_self: CopyState,
    cmd: CopyCommand,
    pre_sess: CrossCommandState,
    post_sess: CrossCommandState,
) -> bool {
    let lzma = pre_sess.bk.prior_algorithm == crate::codec::PriorAlgorithm::Lzma;
    let lru = pre_sess.bk.distance_lru@;
    (!pre_sess.coder.is_decoder && cmd.distance >= 1 && cmd.num_bytes >= 1 && (lzma
        || cmd.distance < 0x40000000) && enc_ok(pre_self, cmd, pre_sess) && enc_exact(
        pre_self,
        cmd,
        pre_sess,
    )) ==> residual_nibbles(pre_self.state, pre_self.early_mnemonic, cmd, lzma, lru)
        == post_sess.coder.nibbles@.skip(pre_sess.coder.nibbles@.len() as int) + residual_nibbles(
        post_self.state,
        post_self.early_mnemonic,
        cmd,
        lzma,
        lru,
    )
}

/// Appending one element and skipping everything before it leaves exactly
/// that element.
proof fn lemma_skip_push(s: Seq<u8>, x: u8)
    ensures
        s.push(x).skip(s.len() as int) == seq![x],
{
    assert(s.push(x).skip(s.len() as int) =~= seq![x]);
}

/// Skipping a whole sequence leaves nothing.
proof fn lemma_skip_all(s: Seq<u8>)
    ensures
        s.skip(s.len() as int) == Seq::<u8>::empty(),
{
    assert(s.skip(s.len() as int) =~= Seq::<u8>::empty());
}

/// The window appended between two grows splits at any intermediate stage.
proof fn lemma_append_chain(n0: int, s1: Seq<u8>, s2: Seq<u8>)
    requires
        0 <= n0 <= s1.len(),
        s1.is_prefix_of(s2),
    ensures
        s2.skip(n0) == s1.skip(n0) + s2.skip(s1.len() as int),
{
    assert(s2.skip(n0) =~= s1.skip(n0) + s2.skip(s1.len() as int));
}

/// The canonical nibbles still owed and the input nibbles still unconsumed
/// agree as far as both go: one is a prefix of the other. A decoder whose
/// input agrees with a command's canonical stream can only follow that
/// command's trajectory.
pub open spec fn stream_agrees(owed: Seq<u8>, unconsumed: Seq<u8>) -> bool {
    owed.is_prefix_of(unconsumed) || unconsumed.is_prefix_of(owed)
}

/// A decoding session is on the trajectory of `cmd`: the command is valid
/// for the regime, the machine state is exactly what coding `cmd` reaches,
/// and the unconsumed input agrees with the nibbles still owed for `cmd`.
pub open spec fn dec_on_track(st: CopyState, cmd: CopyCommand, sess: CrossCommandState) -> bool {
    let lzma = sess.bk.prior_algorithm == crate::codec::PriorAlgorithm::Lzma;
    let lru = sess.bk.distance_lru@;
    &&& sess.coder.is_decoder
    &&& cmd.distance >= 1
    &&& cmd.num_bytes >= 1
    &&& (lzma || cmd.distance < 0x40000000)
    &&& enc_ok(st, cmd, sess)
    &&& enc_exact(st, cmd, sess)
    &&& stream_agrees(
        residual_nibbles(st.state, st.early_mnemonic, cmd, lzma, lru),
        sess.coder.nibbles@.skip(sess.coder.pos as int),
    )
}

/// One step of a decoding session stays on the trajectory of every command
/// whose canonical stream its input agrees with, and consumes exactly the
/// canonical nibbles it makes progress through.
pub open spec fn dec_trace_preserved(
    pre_self: CopyState,
    post_self: CopyState,
    cmd: CopyCommand,
    pre_sess: CrossCommandState,
    post_sess: CrossCommandState,
) -> bool {
    let lzma = pre_sess.bk.prior_algorithm == crate::codec::PriorAlgorithm::Lzma;
    let lru = pre_sess.bk.distance_lru@;
    dec_on_track(pre_self, cmd, pre_sess) ==> dec_on_track(post_self, cmd, post_sess) && post_sess.coder.pos
        - pre_sess.coder.pos == residual_nibbles(
        pre_self.state,
        pre_self.early_mnemonic,
        cmd,
        lzma,
        lru,
    ).len() - residual_nibbles(post_self.state, post_self.early_mnemonic, cmd, lzma, lru).len()
}

/// When two agreeing streams are both nonempty, their heads coincide and
/// their tails agree.
proof fn lemma_agree_head(owed: Seq<u8>, unconsumed: Seq<u8>)
    requires
        stream_agrees(owed, unconsumed),
        owed.len() >= 1,
        unconsumed.len() >= 1,
    ensures
        owed[0] == unconsumed[0],
        stream_agrees(owed.skip(1), unconsumed.skip(1)),
{
    if owed.is_prefix_of(unconsumed) {
        assert(owed.skip(1) =~= unconsumed.skip(1).subrange(0, owed.len() - 1));
        assert(owed.skip(1).is_prefix_of(unconsumed.skip(1)));
    } else {
        assert(unconsumed.skip(1) =~= owed.skip(1).subrange(0, unconsumed.len() - 1));
        assert(unconsumed.skip(1).is_prefix_of(owed.skip(1)));
    }
}

/// Skipping one more element is skipping past the next position.
proof fn lemma_skip_skip(s: Seq<u8>, a: int)
    requires
        0 <= a < s.len(),
    ensures
        s.skip(a).skip(1) == s.skip(a + 1),
{
    assert(s.skip(a).skip(1) =~= s.skip(a + 1));
}

/// The empty sequence agrees with anything.
proof fn lemma_agree_empty(unconsumed: Seq<u8>)
    ensures
        stream_agrees(Seq::<u8>::empty(), unconsumed),
{
    assert(Seq::<u8>::empty() =~= unconsumed.subrange(0, 0));
}

/// The encoding theorem in stream form: an encoder driven from a fresh
/// machine to success has appended to its nibble stream exactly the
/// canonical nibbles of the command. Its compressed bytes are their packing,
/// so any two encoder runs of the same command under equal regime and
/// distance history emit identical nibbles, whatever the buffer chunking.
pub proof fn lemma_encode_emits_canonical(
    pre_self: CopyState,
    post_self: CopyState,
    cmd: CopyCommand,
    pre_sess: CrossCommandState,
    post_sess: CrossCommandState,
)
    requires
        pre_self.state == CopySubstate::Begin,
        post_self.state == CopySubstate::FullyDecoded,
        !pre_sess.coder.is_decoder,
        cmd.distance >= 1,
        cmd.num_bytes >= 1,
        pre_sess.bk.prior_algorithm == crate::codec::PriorAlgorithm::Lzma || cmd.distance
            < 0x40000000,
        enc_ok(pre_self, cmd, pre_sess),
        enc_exact(pre_self, cmd, pre_sess),
        enc_trace_preserved(pre_self, post_self, cmd, pre_sess, post_sess),
        pre_sess.coder.nibbles@.is_prefix_of(post_sess.coder.nibbles@),
    ensures
        post_sess.coder.nibbles@ == pre_sess.coder.nibbles@ + spec_copy_nibbles(
            cmd,
            pre_sess.bk.prior_algorithm == crate::codec::PriorAlgorithm::Lzma,
            pre_sess.bk.distance_lru@,
        ),
{
    let lzma = pre_sess.bk.prior_algorithm == crate::codec::PriorAlgorithm::Lzma;
    let lru = pre_sess.bk.distance_lru@;
    let appended = post_sess.coder.nibbles@.skip(pre_sess.coder.nibbles@.len() as int);
    assert(residual_nibbles(pre_self.state, pre_self.early_mnemonic, cmd, lzma, lru)
        == spec_copy_nibbles(cmd, lzma, lru));
    assert(residual_nibbles(post_self.state, post_self.early_mnemonic, cmd, lzma, lru) == Seq::<
        u8,
    >::empty());
    assert(spec_copy_nibbles(cmd, lzma, lru) =~= appended);
    assert(post_sess.coder.nibbles@ =~= pre_sess.coder.nibbles@ + appended);
}

/// The decoding theorem in stream form, the mirror of
/// `lemma_encode_emits_canonical`: a decoder driven from a fresh machine to
/// success, whose input from the cursor onward agrees with the canonical
/// nibbles of a valid command, reconstructs exactly that command and
/// consumes exactly those nibbles. With the encoding theorem this closes the
/// round trip: encode then decode under identically seeded sessions gives
/// the command back.
pub proof fn lemma_decode_reconstructs_canonical(
    pre_self: CopyState,
    post_self: CopyState,
    cmd: CopyCommand,
    pre_sess: CrossCommandState,
    post_sess: CrossCommandState,
)
    requires
        pre_self.state == CopySubstate::Begin,
        post_self.state == CopySubstate::FullyDecoded,
        pre_sess.coder.is_decoder,
        cmd.distance >= 1,
        cmd.num_bytes >= 1,
        pre_sess.bk.prior_algorithm == crate::codec::PriorAlgorithm::Lzma || cmd.distance
            < 0x40000000,
        stream_agrees(
            spec_copy_nibbles(
                cmd,
                pre_sess.bk.prior_algorithm == crate::codec::PriorAlgorithm::Lzma,
                pre_sess.bk.distance_lru@,
            ),
            pre_sess.coder.nibbles@.skip(pre_sess.coder.pos as int),
        ),
        dec_trace_preserved(pre_self, post_self, cmd, pre_sess, post_sess),
    ensures
        post_self.cc == cmd,
        post_sess.coder.pos == pre_sess.coder.pos + spec_copy_nibbles(
            cmd,
            pre_sess.bk.prior_algorithm == crate::codec::PriorAlgorithm::Lzma,
            pre_sess.bk.distance_lru@,
        ).len(),
{
    let lzma = pre_sess.bk.prior_algorithm == crate::codec::PriorAlgorithm::Lzma;
    let lru = pre_sess.bk.distance_lru@;
    assert(residual_nibbles(pre_self.state, pre_self.early_mnemonic, cmd, lzma, lru)
        == spec_copy_nibbles(cmd, lzma, lru));
    assert(dec_on_track(pre_self, cmd, pre_sess));
    assert(residual_nibbles(post_self.state, post_self.early_mnemonic, cmd, lzma, lru) == Seq::<
        u8,
    >::empty());
}

/// A nonzero value shifted right by its floor logarithm is exactly one:
/// its leading bit stands alone at that position.
proof fn lemma_leading_bit(d: u32)
    requires
        d >= 1,
    ensures
        floor_log2(d as nat) <= 31,
        d >> (floor_log2(d as nat) as u32) == 1,
{
    lemma_floor_log2_bounds(d as nat);
    let fl = floor_log2(d as nat);
    let p = pow2(fl) as int;
    lemma_pow2_pos(fl);
    lemma_pow2_unfold(fl + 1);
    lemma_u32_shr_is_div(d, fl as u32);
    vstd::arithmetic::div_mod::lemma_div_is_ordered(p, d as int, p);
    vstd::arithmetic::div_mod::lemma_div_by_self(p);
    vstd::arithmetic::div_mod::lemma_div_is_ordered(d as int, 2 * p - 1, p);
    vstd::arithmetic::div_mod::lemma_fundamental_div_mod_converse_div(2 * p - 1, p, 1, p - 1);
}

/// Seeding a mantissa accumulator with the leading bit of the value keeps
/// the accumulate-by-or invariant: the seed holds only bits of the value,
/// and all remaining disagreement is below the seeded bit.
proof fn lemma_preseed(v: u32, n: u32)
    requires
        n <= 31,
        v >> n == 1,
    ensures
        ((1u32 << n) & v) == (1u32 << n),
        (v ^ (1u32 << n)) >> n == 0,
{
    assert(v >> n == 1 && n <= 31 ==> ((1u32 << n) & v) == (1u32 << n) && (v ^ (1u32 << n)) >> n
        == 0) by (bit_vector);
}

/// One step of an encoding session keeps the encoder's promise and cannot
/// fail: whenever the session is an encoder, the command is valid and the
/// state was consistent with it, the state stays consistent and the step's
/// result is no failure.
pub open spec fn enc_preserved(
    pre_self: CopyState,
    post_self: CopyState,
    cmd: CopyCommand,
    pre_sess: CrossCommandState,
    post_sess: CrossCommandState,
    failed: bool,
) -> bool {
    (!pre_sess.coder.is_decoder && cmd.distance >= 1 && enc_ok(pre_self, cmd, pre_sess)) ==> (
    enc_ok(post_self, cmd, post_sess) && !failed)
}

/// The bit-length class `32 - leading_zeros` of a value brackets it by
/// powers of two; in particular class 19 and up means the value needs the
/// second length-overflow nibble.
proof fn lemma_count_class_bounds(nb: u32)
    requires
        nb >= 1,
    ensures
        1 <= 32 - u32_leading_zeros(nb) <= 32,
        nb >= 8 ==> 32 - u32_leading_zeros(nb) >= 4,
        nb >= 0x40000 ==> 32 - u32_leading_zeros(nb) >= 19,
        32 - u32_leading_zeros(nb) >= 19 ==> nb >= 0x40000,
{
    lemma_leading_zeros_floor_log2(nb);
    lemma_floor_log2_bounds(nb as nat);
    vstd::arithmetic::power2::lemma2_to64();
    let fl = floor_log2(nb as nat);
    if nb >= 8 && fl < 3 {
        if fl + 1 < 3 {
            lemma_pow2_strictly_increases(fl + 1, 3);
        }
        assert(false);
    }
    if nb >= 0x40000 && fl < 18 {
        if fl + 1 < 18 {
            lemma_pow2_strictly_increases(fl + 1, 18);
        }
        assert(false);
    }
    if fl >= 18 {
        if fl > 18 {
            lemma_pow2_strictly_increases(18, fl);
        }
        assert(nb >= 0x40000);
    }
}

/// Every sequence is a prefix of itself.
proof fn lemma_prefix_refl(s: Seq<u8>)
    ensures
        s.is_prefix_of(s),
{
    assert(s =~= s.subrange(0, s.len() as int));
}

/// A prefix agrees with the whole on any window inside the prefix.
proof fn lemma_subrange_of_prefix(s1: Seq<u8>, s2: Seq<u8>, a: int, b: int)
    requires
        s1.is_prefix_of(s2),
        0 <= a <= b <= s1.len(),
    ensures
        s2.subrange(a, b) == s1.subrange(a, b),
{
    assert(s2.subrange(a, b) =~= s1.subrange(a, b));
}

/// What one whole invocation may do to the shared session and the output
/// cursor: the session stays well formed with its flags and regime intact; a
/// decoder only consumes supplied input nibbles and leaves the output alone;
/// an encoder only appends nibbles and the bytes appended to the output are
/// exactly the packed drained window of its nibble stream, never past the
/// output cap.
pub open spec fn session_io(
    pre: CrossCommandState,
    post: CrossCommandState,
    out_pre: Vec<u8>,
    out_post: Vec<u8>,
    cap: usize,
) -> bool {
    &&& post.wf()
    &&& post.adapt == pre.adapt
    &&& post.coder.is_decoder == pre.coder.is_decoder
    &&& post.bk.prior_algorithm == pre.bk.prior_algorithm
    &&& post.bk.distance_lru@ == pre.bk.distance_lru@
    &&& (!pre.adapt ==> priors_preserved(pre, post))
    &&& pre.coder.pos <= post.coder.pos
    &&& (pre.coder.is_decoder ==> post.coder.nibbles@ == pre.coder.nibbles@ && out_post@
        == out_pre@)
    &&& (!pre.coder.is_decoder ==> {
        &&& pre.coder.nibbles@.is_prefix_of(post.coder.nibbles@)
        &&& out_post@ == out_pre@ + packed(
            post.coder.nibbles@.subrange(pre.coder.pos as int, post.coder.pos as int),
        )
        &&& out_pre@.len() <= out_post@.len()
        &&& (out_post@.len() > out_pre@.len() ==> out_post@.len() <= cap)
    })
}

/// Doing nothing is a valid session step.
proof fn lemma_session_io_refl(s: CrossCommandState, out: Vec<u8>, cap: usize)
    requires
        s.wf(),
    ensures
        session_io(s, s, out, out, cap),
{
    lemma_prefix_refl(s.coder.nibbles@);
    if !s.coder.is_decoder {
        assert(s.coder.nibbles@.subrange(s.coder.pos as int, s.coder.pos as int) =~= Seq::<
            u8,
        >::empty());
        assert(out@ + packed(Seq::<u8>::empty()) =~= out@);
    }
}

/// A coding step that touches no output is a valid session step.
proof fn lemma_session_io_of_evolves(
    pre: CrossCommandState,
    post: CrossCommandState,
    out: Vec<u8>,
    cap: usize,
)
    requires
        pre.wf(),
        evolves(pre, post),
    ensures
        session_io(pre, post, out, out, cap),
{
    if !pre.coder.is_decoder {
        assert(post.coder.nibbles@.subrange(pre.coder.pos as int, post.coder.pos as int) =~= Seq::<
            u8,
        >::empty());
        assert(out@ + packed(Seq::<u8>::empty()) =~= out@);
    }
}

/// Session steps compose: the bytes accumulated across any sequence of
/// invocations and suspensions are the packed coded nibble stream, so
/// splitting the output buffer into arbitrary chunk sizes produces the same
/// bytes as one unchunked call.
pub proof fn lemma_session_io_trans(
    pre: CrossCommandState,
    mid: CrossCommandState,
    post: CrossCommandState,
    out0: Vec<u8>,
    out1: Vec<u8>,
    out2: Vec<u8>,
    cap: usize,
)
    requires
        pre.wf(),
        session_io(pre, mid, out0, out1, cap),
        session_io(mid, post, out1, out2, cap),
    ensures
        session_io(pre, post, out0, out2, cap),
{
    if !pre.coder.is_decoder {
        let p0 = pre.coder.pos as int;
        let p1 = mid.coder.pos as int;
        let p2 = post.coder.pos as int;
        let n1 = mid.coder.nibbles@;
        let n2 = post.coder.nibbles@;
        assert(pre.coder.nibbles@.is_prefix_of(n2)) by {
            assert(pre.coder.nibbles@ =~= n2.subrange(0, pre.coder.nibbles@.len() as int));
        }
        lemma_subrange_of_prefix(n1, n2, p0, p1);
        assert(n2.subrange(p0, p2) =~= n2.subrange(p0, p1) + n2.subrange(p1, p2));
        crate::probability::lemma_packed_even_append(n2.subrange(p0, p1), n2.subrange(p1, p2));
        assert(out2@ =~= out0@ + packed(n2.subrange(p0, p2)));
    }
}

/// What the two coded slot nibbles of a command's distance reconstruct:
/// together they give back exactly the distance's slot; a direct slot (below
/// four) pins the distance itself, and a logarithmic slot pins the footer
/// value's range and seeds its accumulator.
proof fn lemma_slot_nibbles_track(cmd: CopyCommand, upper: u8, read: u8)
    requires
        cmd.distance >= 1,
        upper as int == spec_dist_slot(cmd.distance as int) / 16,
        read as int == spec_dist_slot(cmd.distance as int) % 16,
    ensures
        ({
            let s = spec_dist_slot(cmd.distance as int);
            &&& 0 <= s <= 63
            &&& upper as int * 16 + read as int == s
            &&& (s < 4 ==> cmd.distance == s + 1)
            &&& (s >= 4 ==> {
                let fv = cmd.distance as int - spec_slot_base(s) - 1;
                &&& 0 <= fv < pow2(spec_slot_footer_bits(s) as nat)
                &&& 0u32 & (fv as u32) == 0
                &&& (fv as u32) ^ 0 == fv as u32
                &&& pow2(spec_slot_footer_bits(s) as nat) <= pow2(
                    spec_round_up_mod_4(spec_slot_footer_bits(s)) as nat,
                )
            })
        }),
{
    let d = cmd.distance;
    let s = spec_dist_slot(d as int);
    vstd::arithmetic::power2::lemma2_to64();
    if d >= 2 {
        lemma_floor_log2_bounds((d - 1) as nat);
        if d - 1 > 4 {
            let k = floor_log2((d - 1) as nat);
            if k < 2 {
                assert(pow2(k + 1) <= pow2(2));
                assert(false);
            }
        }
    }
    assert(s < 4 ==> d == s + 1);
    if s >= 4 {
        lemma_dist_slot_decomposition(d as int);
        let fv = d as int - spec_slot_base(s) - 1;
        lemma_mantissa_zero_seed(fv as u32);
        let f = spec_slot_footer_bits(s);
        if f < spec_round_up_mod_4(f) {
            lemma_pow2_strictly_increases(f as nat, spec_round_up_mod_4(f) as nat);
        }
    }
}

/// The range of distances a logarithmic slot covers: the bases of slot `s`
/// and slot `s + 1` (computed as the machine computes them, by shifting the
/// slot's parity bit pattern) differ by exactly `2^footer_bits`, and the bit
/// length of the largest offset in that range is `footer_bits` itself.
proof fn lemma_slot_range_bits(s: u32)
    requires
        4 <= s <= 63,
    ensures
        ({
            let footer = (s / 2 - 1) as u32;
            let parity = (s % 2) as u32;
            let fp1 = ((s + 1) / 2 - 1) as u32;
            let parity2 = ((s + 1) % 2) as u32;
            let b1 = ((2 + parity) as u64) << (footer as u64);
            let b2 = ((2 + parity2) as u64) << (fp1 as u64);
            &&& b1 == (2 + parity) * pow2(footer as nat)
            &&& b2 - b1 == pow2(footer as nat)
            &&& pow2(footer as nat) >= 2
            &&& b2 - b1 - 1 < 0x1_0000_0000
            &&& 32 - u32_leading_zeros((b2 - b1 - 1) as u32) == footer
        }),
{
    let footer = (s / 2 - 1) as u32;
    let parity = (s % 2) as u32;
    let fp1 = ((s + 1) / 2 - 1) as u32;
    let parity2 = ((s + 1) % 2) as u32;
    let b1 = ((2 + parity) as u64) << (footer as u64);
    let b2 = ((2 + parity2) as u64) << (fp1 as u64);
    vstd::arithmetic::power2::lemma2_to64();
    if (footer as nat) < 31 {
        lemma_pow2_strictly_increases(footer as nat, 31);
    }
    if (fp1 as nat) < 31 {
        lemma_pow2_strictly_increases(fp1 as nat, 31);
    }
    vstd::arithmetic::mul::lemma_mul_upper_bound(
        (2 + parity) as int,
        4,
        pow2(footer as nat) as int,
        0x8000_0000,
    );
    vstd::arithmetic::mul::lemma_mul_upper_bound(
        (2 + parity2) as int,
        4,
        pow2(fp1 as nat) as int,
        0x8000_0000,
    );
    vstd::bits::lemma_u64_shl_is_mul((2 + parity) as u64, footer as u64);
    vstd::bits::lemma_u64_shl_is_mul((2 + parity2) as u64, fp1 as u64);
    assert(b1 == (2 + parity) * pow2(footer as nat));
    assert(b2 == (2 + parity2) * pow2(fp1 as nat));
    assert(parity == 0 ==> parity2 == 1 && fp1 == footer);
    assert(parity == 1 ==> parity2 == 0 && fp1 == footer + 1);
    if parity == 0 {
        assert(b2 - b1 == pow2(footer as nat));
    } else {
        lemma_pow2_unfold(fp1 as nat);
        assert(pow2(fp1 as nat) == 2 * pow2(footer as nat));
        assert(b2 == 2 * pow2(fp1 as nat));
        assert(b1 == 3 * pow2(footer as nat));
        assert(b2 - b1 == pow2(footer as nat));
    }
    if footer > 1 {
        lemma_pow2_strictly_increases(1, footer as nat);
    }
    let diff = (b2 - b1 - 1) as u32;
    lemma_leading_zeros_floor_log2(diff);
    lemma_pow2_unfold(footer as nat);
    lemma_pow2_pos((footer - 1) as nat);
    lemma_floor_log2_unique(diff as nat, (footer - 1) as nat);
}

/// The bucket of a distance one past a power of two: a distance with at
/// least eight mantissa bits lands in the logarithmic slots (14 and up),
/// while fewer bits keep the seed value below the byte range.
proof fn lemma_dist_slot_pow2(bn: u32)
    requires
        1 <= bn <= 29,
    ensures
        bn >= 8 ==> spec_dist_slot((1u32 << bn) as int) >= 14,
        bn <= 7 ==> (1u32 << bn) < 0x100,
        (1u32 << bn) >= 2,
{
    lemma_u32_pow2_no_overflow(bn as nat);
    lemma_u32_shl_is_mul(1u32, bn);
    vstd::arithmetic::power2::lemma2_to64();
    if bn > 1 {
        lemma_pow2_strictly_increases(1, bn as nat);
    }
    if bn <= 7 {
        if bn < 7 {
            lemma_pow2_strictly_increases(bn as nat, 7);
        }
    } else {
        if bn > 8 {
            lemma_pow2_strictly_increases(8, bn as nat);
        }
        let d = (pow2(bn as nat) - 1) as nat;
        lemma_pow2_unfold(bn as nat);
        lemma_pow2_pos((bn - 1) as nat);
        lemma_floor_log2_unique(d, (bn - 1) as nat);
        assert(spec_dist_slot((1u32 << bn) as int) == 2 * (bn - 1) + (d as int / pow2(
            (bn - 2) as nat,
        ) as int) % 2);
        lemma_pow2_pos((bn - 2) as nat);
    }
}

impl CopyState {
    /// A fresh machine for one command, in its initial state; it is
    /// consistent with every command, so encoding can start from it.
    pub fn begin() -> (s: CopyState)
        ensures
            s.wf(),
            s.state == CopySubstate::Begin,
            s.early_mnemonic == 0xfe,
            s.cc == (CopyCommand { distance: 0, num_bytes: 0 }),
            forall|cmd: CopyCommand, sess: CrossCommandState| #[trigger] enc_ok(s, cmd, sess),
            forall|cmd: CopyCommand, sess: CrossCommandState| #[trigger] enc_exact(s, cmd, sess),
    {
        CopyState {
            cc: CopyCommand { distance: 0, num_bytes: 0 },
            state: CopySubstate::Begin,
            early_mnemonic: 0xfe,
        }
    }

    /// Chooses, from the active regime, whether to start from the cheap
    /// mnemonic lookup or from direct length coding. Codes nothing.
    fn step_begin(
        &mut self,
        superstate: &mut CrossCommandState,
        in_cmd: &CopyCommand,
    ) -> (res: Option<DivansResult>)
        requires
            old(self).wf(),
            old(self).state == CopySubstate::Begin,
            old(superstate).wf(),
        ensures
            final(self).wf(),
            *final(superstate) == *old(superstate),
            evolves(*old(superstate), *final(superstate)),
            res is None,
            rank_decreases(*old(self), *final(self)),
            enc_preserved(
                *old(self),
                *final(self),
                *in_cmd,
                *old(superstate),
                *final(superstate),
                false,
            ),
            enc_exact_preserved(
                *old(self),
                *final(self),
                *in_cmd,
                *old(superstate),
                *final(superstate),
            ),
            enc_trace_preserved(
                *old(self),
                *final(self),
                *in_cmd,
                *old(superstate),
                *final(superstate),
            ),
            forall|cmd: CopyCommand| #[trigger] dec_trace_preserved(
                *old(self),
                *final(self),
                cmd,
                *old(superstate),
                *final(superstate),
            ),
    {
        if superstate.bk.prior_algorithm.use_lzma_distance_order() {
            self.early_mnemonic = 0xfe;
        } else {
            self.early_mnemonic = 0xff;
        }
        if self.early_mnemonic != 0xff {
            self.state = CopySubstate::DistanceLengthMnemonic;
        } else {
            self.state = CopySubstate::CountSmall;
        }
        proof {
            lemma_prefix_refl(superstate.coder.nibbles@);
            if !old(superstate).coder.is_decoder && in_cmd.distance >= 1 && in_cmd.num_bytes >= 1 && (
            old(superstate).bk.prior_algorithm == crate::codec::PriorAlgorithm::Lzma
                || in_cmd.distance < 0x40000000) && enc_ok(*old(self), *in_cmd, *old(superstate))
            && enc_exact(*old(self), *in_cmd, *old(superstate)) {
                lemma_skip_all(superstate.coder.nibbles@);
                assert(residual_nibbles(
                    old(self).state,
                    old(self).early_mnemonic,
                    *in_cmd,
                    old(superstate).bk.prior_algorithm == crate::codec::PriorAlgorithm::Lzma,
                    old(superstate).bk.distance_lru@,
                ) =~= superstate.coder.nibbles@.skip(
                    old(superstate).coder.nibbles@.len() as int,
                ) + residual_nibbles(
                    self.state,
                    self.early_mnemonic,
                    *in_cmd,
                    old(superstate).bk.prior_algorithm == crate::codec::PriorAlgorithm::Lzma,
                    old(superstate).bk.distance_lru@,
                ));
            }
        }
        proof {
            assert forall|cmd: CopyCommand| #[trigger] dec_trace_preserved(
                *old(self),
                *self,
                cmd,
                *old(superstate),
                *superstate,
            ) by {
                if dec_on_track(*old(self), cmd, *old(superstate)) {
                    let lzma = old(superstate).bk.prior_algorithm
                        == crate::codec::PriorAlgorithm::Lzma;
                    let lru = old(superstate).bk.distance_lru@;
                    let r0 = residual_nibbles(
                        old(self).state,
                        old(self).early_mnemonic,
                        cmd,
                        lzma,
                        lru,
                    );
                    let un0 = old(superstate).coder.nibbles@.skip(
                        old(superstate).coder.pos as int,
                    );
                    assert(r0 =~= residual_nibbles(
                        self.state,
                        self.early_mnemonic,
                        cmd,
                        lzma,
                        lru,
                    ));
                    assert(dec_on_track(*self, cmd, *superstate));
                }
            }
        }
        None
    }

    /// Codes the capped length-classifying nibble (or the shortcut level in
    /// the alternate regime) and branches on it.
    fn step_count_small(
        &mut self,
        superstate: &mut CrossCommandState,
        in_cmd: &CopyCommand,
    ) -> (res: Option<DivansResult>)
        requires
            old(self).wf(),
            old(self).state == CopySubstate::CountSmall,
            old(superstate).wf(),
            old(superstate).coder.is_decoder ==> old(superstate).coder.pos < old(
                superstate,
            ).coder.nibbles@.len(),
        ensures
            final(self).wf(),
            evolves(*old(superstate), *final(superstate)),
            res is None,
            rank_decreases(*old(self), *final(self)),
            enc_preserved(
                *old(self),
                *final(self),
                *in_cmd,
                *old(superstate),
                *final(superstate),
                false,
            ),
            enc_exact_preserved(
                *old(self),
                *final(self),
                *in_cmd,
                *old(superstate),
                *final(superstate),
            ),
            enc_trace_preserved(
                *old(self),
                *final(self),
                *in_cmd,
                *old(superstate),
                *final(superstate),
            ),
            forall|cmd: CopyCommand| #[trigger] dec_trace_preserved(
                *old(self),
                *final(self),
                cmd,
                *old(superstate),
                *final(superstate),
            ),
    {
        let ctype = superstate.bk.get_command_block_type();
        let billing = BillingDesignation::CopyCommand(CopySubstate::CountSmall);
        if superstate.bk.prior_algorithm.use_lzma_copy_prior() {
            let index = (superstate.bk.byte_index & 3) as usize;
            let mut shortcut_nib: u8 = if in_cmd.num_bytes >= 18 + 65536 {
                4
            } else if in_cmd.num_bytes >= 18 + 256 {
                3
            } else if in_cmd.num_bytes >= 18 {
                2
            } else if in_cmd.num_bytes > 9 {
                1
            } else {
                0
            };
            let mnem = if self.early_mnemonic != 0xf {
                1
            } else {
                0
            };
            let nibble_prob = superstate.bk.copy_priors.get(
                CopyCommandNibblePriorType::CountSmall,
                mnem,
                ctype,
                index,
            );
            superstate.coder.get_or_put_nibble(&mut shortcut_nib, nibble_prob, billing);
            if superstate.adapt {
                nibble_prob.blend(shortcut_nib & 0xf, Speed::new(512, 16384));
            }
            if shortcut_nib == 0 {
                self.state = CopySubstate::CountLengthFirst;
            } else if shortcut_nib == 1 {
                self.state = CopySubstate::CountLengthGreater18Less25;
            } else if shortcut_nib == 2 {
                self.state = CopySubstate::CountMantissaNibbles(0, 8, 0);
            } else if shortcut_nib == 3 {
                self.state = CopySubstate::CountMantissaNibbles(0, 16, 0);
            } else {
                self.state = CopySubstate::CountMantissaNibbles(0, 32, 0);
            }
            proof {
                if !superstate.coder.is_decoder && in_cmd.num_bytes >= 18 {
                    vstd::arithmetic::power2::lemma2_to64();
                    lemma_mantissa_zero_seed((in_cmd.num_bytes - 18) as u32);
                }
            }
        } else {
            let states_feature = ((superstate.bk.last_4_states >> 4) & 3) as usize;
            let llen_m1 = superstate.bk.last_llen - 1;
            let llen_feature = if llen_m1 < 3 {
                llen_m1 as usize
            } else {
                3
            };
            let index = states_feature + 4 * llen_feature;
            let mut shortcut_nib: u8 = if in_cmd.num_bytes < 15 {
                in_cmd.num_bytes as u8
            } else {
                15
            };
            let nibble_prob = superstate.bk.copy_priors.get(
                CopyCommandNibblePriorType::CountSmall,
                0,
                ctype,
                index,
            );
            superstate.coder.get_or_put_nibble(&mut shortcut_nib, nibble_prob, billing);
            if superstate.adapt {
                nibble_prob.blend(shortcut_nib & 0xf, Speed::mud());
            }
            if shortcut_nib == 15 {
                self.state = CopySubstate::CountLengthFirst;
            } else {
                self.cc.num_bytes = shortcut_nib as u32;
                superstate.bk.last_clen = (32 - self.cc.num_bytes.leading_zeros()) as u8;
                self.state = CopySubstate::CountDecoded;
            }
        }
        proof {
            if !old(superstate).coder.is_decoder && in_cmd.distance >= 1 && in_cmd.num_bytes >= 1 && (
            old(superstate).bk.prior_algorithm == crate::codec::PriorAlgorithm::Lzma
                || in_cmd.distance < 0x40000000) && enc_ok(*old(self), *in_cmd, *old(superstate))
            && enc_exact(*old(self), *in_cmd, *old(superstate)) {
                lemma_skip_push(
                    old(superstate).coder.nibbles@,
                    superstate.coder.nibbles@[old(superstate).coder.nibbles@.len() as int],
                );
                assert(residual_nibbles(
                    old(self).state,
                    old(self).early_mnemonic,
                    *in_cmd,
                    old(superstate).bk.prior_algorithm == crate::codec::PriorAlgorithm::Lzma,
                    old(superstate).bk.distance_lru@,
                ) =~= superstate.coder.nibbles@.skip(
                    old(superstate).coder.nibbles@.len() as int,
                ) + residual_nibbles(
                    self.state,
                    self.early_mnemonic,
                    *in_cmd,
                    old(superstate).bk.prior_algorithm == crate::codec::PriorAlgorithm::Lzma,
                    old(superstate).bk.distance_lru@,
                ));
            }
        }
        proof {
            assert forall|cmd: CopyCommand| #[trigger] dec_trace_preserved(
                *old(self),
                *self,
                cmd,
                *old(superstate),
                *superstate,
            ) by {
                if dec_on_track(*old(self), cmd, *old(superstate)) {
                    let lzma = old(superstate).bk.prior_algorithm
                        == crate::codec::PriorAlgorithm::Lzma;
                    let lru = old(superstate).bk.distance_lru@;
                    let r0 = residual_nibbles(
                        old(self).state,
                        old(self).early_mnemonic,
                        cmd,
                        lzma,
                        lru,
                    );
                    let un0 = old(superstate).coder.nibbles@.skip(
                        old(superstate).coder.pos as int,
                    );
                    lemma_agree_head(r0, un0);
                    lemma_skip_skip(
                        old(superstate).coder.nibbles@,
                        old(superstate).coder.pos as int,
                    );
                    vstd::arithmetic::power2::lemma2_to64();
                    if cmd.num_bytes >= 18 {
                        lemma_mantissa_zero_seed((cmd.num_bytes - 18) as u32);
                    }
                    assert(r0.skip(1) =~= residual_nibbles(
                        self.state,
                        self.early_mnemonic,
                        cmd,
                        lzma,
                        lru,
                    ));
                    assert(dec_on_track(*self, cmd, *superstate));
                }
            }
        }
        None
    }

    /// Codes the first overflow nibble of the length.
    fn step_count_length_first(
        &mut self,
        superstate: &mut CrossCommandState,
        in_cmd: &CopyCommand,
    ) -> (res: Option<DivansResult>)
        requires
            old(self).wf(),
            old(self).state == CopySubstate::CountLengthFirst,
            old(superstate).wf(),
            old(superstate).coder.is_decoder ==> old(superstate).coder.pos < old(
                superstate,
            ).coder.nibbles@.len(),
        ensures
            final(self).wf(),
            evolves(*old(superstate), *final(superstate)),
            res is Some ==> res == Some(
                DivansResult::Failure(ErrMsg::InternalInconsistencyInCopyLenSubstateCode(0)),
            ),
            res is None ==> rank_decreases(*old(self), *final(self)),
            enc_preserved(
                *old(self),
                *final(self),
                *in_cmd,
                *old(superstate),
                *final(superstate),
                (res is Some),
            ),
            enc_exact_preserved(
                *old(self),
                *final(self),
                *in_cmd,
                *old(superstate),
                *final(superstate),
            ),
            enc_trace_preserved(
                *old(self),
                *final(self),
                *in_cmd,
                *old(superstate),
                *final(superstate),
            ),
            forall|cmd: CopyCommand| #[trigger] dec_trace_preserved(
                *old(self),
                *final(self),
                cmd,
                *old(superstate),
                *final(superstate),
            ),
            old(superstate).coder.is_decoder && old(superstate).bk.prior_algorithm
                == crate::codec::PriorAlgorithm::Lzma && old(superstate).coder.nibbles@[old(superstate).coder.pos as int]
                == 10 ==> res == Some(
                DivansResult::Failure(ErrMsg::InternalInconsistencyInCopyLenSubstateCode(0)),
            ),
    {
        let ctype = superstate.bk.get_command_block_type();
        let billing = BillingDesignation::CopyCommand(CopySubstate::CountLengthFirst);
        if superstate.bk.prior_algorithm.use_lzma_copy_prior() {
            let index = (superstate.bk.byte_index & 3) as usize;
            let mut shortcut_nib: u8 = if in_cmd.num_bytes < 10 {
                in_cmd.num_bytes as u8
            } else {
                10
            };
            let mnem = if self.early_mnemonic != 0xf {
                1
            } else {
                0
            };
            let nibble_prob = superstate.bk.copy_priors.get(
                CopyCommandNibblePriorType::CountBegNib,
                mnem,
                ctype,
                index,
            );
            superstate.coder.get_or_put_nibble(&mut shortcut_nib, nibble_prob, billing);
            if superstate.adapt {
                nibble_prob.blend(shortcut_nib & 0xf, Speed::new(128, 16384));
            }
            if shortcut_nib == 10 {
                self.state = CopySubstate::CountLengthGreater18Less25;
                proof {
            assert forall|cmd: CopyCommand| #[trigger] dec_trace_preserved(
                *old(self),
                *self,
                cmd,
                *old(superstate),
                *superstate,
            ) by {
                if dec_on_track(*old(self), cmd, *old(superstate)) {
                    let lzma = old(superstate).bk.prior_algorithm
                        == crate::codec::PriorAlgorithm::Lzma;
                    let lru = old(superstate).bk.distance_lru@;
                    let r0 = residual_nibbles(
                        old(self).state,
                        old(self).early_mnemonic,
                        cmd,
                        lzma,
                        lru,
                    );
                    let un0 = old(superstate).coder.nibbles@.skip(
                        old(superstate).coder.pos as int,
                    );
                    lemma_agree_head(r0, un0);
                    lemma_skip_skip(
                        old(superstate).coder.nibbles@,
                        old(superstate).coder.pos as int,
                    );
                    assert(false);
                }
            }
        }
                return Some(
                    DivansResult::Failure(ErrMsg::InternalInconsistencyInCopyLenSubstateCode(0)),
                );
            } else {
                self.cc.num_bytes = shortcut_nib as u32;
                superstate.bk.last_clen = (32 - self.cc.num_bytes.leading_zeros()) as u8;
                self.state = CopySubstate::CountDecoded;
            }
        } else {
            let clen: u8 = (32 - in_cmd.num_bytes.leading_zeros()) as u8;
            let clen_m4 = clen.wrapping_sub(4);
            let mut beg_nib: u8 = if clen_m4 < 15 {
                clen_m4
            } else {
                15
            };
            let nibble_prob = superstate.bk.copy_priors.get(
                CopyCommandNibblePriorType::CountBegNib,
                0,
                ctype,
                0,
            );
            superstate.coder.get_or_put_nibble(&mut beg_nib, nibble_prob, billing);
            if superstate.adapt {
                nibble_prob.blend(beg_nib & 0xf, Speed::fast());
            }
            if beg_nib == 15 {
                proof {
                    if !superstate.coder.is_decoder && in_cmd.num_bytes >= 15 {
                        lemma_count_class_bounds(in_cmd.num_bytes);
                    }
                }
                self.state = CopySubstate::CountLengthGreater18Less25;
            } else {
                superstate.bk.last_clen = beg_nib + 4;
                let nbits = beg_nib + 4 - 1;
                let seed_remaining = round_up_mod_4(nbits);
                let seed = 1u32 << nbits;
                proof {
                    if !superstate.coder.is_decoder && in_cmd.num_bytes >= 15 {
                        lemma_leading_zeros_floor_log2(in_cmd.num_bytes);
                        lemma_count_class_bounds(in_cmd.num_bytes);
                        let fl = floor_log2(in_cmd.num_bytes as nat) as u32;
                        lemma_leading_bit(in_cmd.num_bytes);
                        lemma_preseed(in_cmd.num_bytes, fl);
                        lemma_shr_zero_iff_below(in_cmd.num_bytes ^ (1u32 << fl), fl);
                        if (fl as int) < seed_remaining as int {
                            lemma_pow2_strictly_increases(fl as nat, seed_remaining as nat);
                        }
                    }
                }
                self.state = CopySubstate::CountMantissaNibbles(0, seed_remaining, seed);
            }
        }
        proof {
            if !old(superstate).coder.is_decoder && in_cmd.distance >= 1 && in_cmd.num_bytes >= 1 && (
            old(superstate).bk.prior_algorithm == crate::codec::PriorAlgorithm::Lzma
                || in_cmd.distance < 0x40000000) && enc_ok(*old(self), *in_cmd, *old(superstate))
            && enc_exact(*old(self), *in_cmd, *old(superstate)) {
                lemma_skip_push(
                    old(superstate).coder.nibbles@,
                    superstate.coder.nibbles@[old(superstate).coder.nibbles@.len() as int],
                );
                if old(superstate).bk.prior_algorithm != crate::codec::PriorAlgorithm::Lzma
                    && in_cmd.num_bytes >= 1 {
                    lemma_leading_zeros_floor_log2(in_cmd.num_bytes);
                    let fl = floor_log2(in_cmd.num_bytes as nat) as u32;
                    lemma_u32_pow2_no_overflow(fl as nat);
                    lemma_u32_shl_is_mul(1u32, fl);
                }
                assert(residual_nibbles(
                    old(self).state,
                    old(self).early_mnemonic,
                    *in_cmd,
                    old(superstate).bk.prior_algorithm == crate::codec::PriorAlgorithm::Lzma,
                    old(superstate).bk.distance_lru@,
                ) =~= superstate.coder.nibbles@.skip(
                    old(superstate).coder.nibbles@.len() as int,
                ) + residual_nibbles(
                    self.state,
                    self.early_mnemonic,
                    *in_cmd,
                    old(superstate).bk.prior_algorithm == crate::codec::PriorAlgorithm::Lzma,
                    old(superstate).bk.distance_lru@,
                ));
            }
        }
        proof {
            assert forall|cmd: CopyCommand| #[trigger] dec_trace_preserved(
                *old(self),
                *self,
                cmd,
                *old(superstate),
                *superstate,
            ) by {
                if dec_on_track(*old(self), cmd, *old(superstate)) {
                    let lzma = old(superstate).bk.prior_algorithm
                        == crate::codec::PriorAlgorithm::Lzma;
                    let lru = old(superstate).bk.distance_lru@;
                    let r0 = residual_nibbles(
                        old(self).state,
                        old(self).early_mnemonic,
                        cmd,
                        lzma,
                        lru,
                    );
                    let un0 = old(superstate).coder.nibbles@.skip(
                        old(superstate).coder.pos as int,
                    );
                    lemma_agree_head(r0, un0);
                    lemma_skip_skip(
                        old(superstate).coder.nibbles@,
                        old(superstate).coder.pos as int,
                    );
                    if !lzma {
                        lemma_leading_zeros_floor_log2(cmd.num_bytes);
                        lemma_count_class_bounds(cmd.num_bytes);
                        lemma_floor_log2_bounds(cmd.num_bytes as nat);
                        vstd::arithmetic::power2::lemma2_to64();
                        let fl = floor_log2(cmd.num_bytes as nat) as u32;
                        lemma_leading_bit(cmd.num_bytes);
                        lemma_preseed(cmd.num_bytes, fl);
                        lemma_shr_zero_iff_below(cmd.num_bytes ^ (1u32 << fl), fl);
                        lemma_u32_pow2_no_overflow(fl as nat);
                        lemma_u32_shl_is_mul(1u32, fl);
                        if (fl as int) < spec_round_up_mod_4(fl as int) {
                            lemma_pow2_strictly_increases(
                                fl as nat,
                                spec_round_up_mod_4(fl as int) as nat,
                            );
                        }
                    }
                    assert(r0.skip(1) =~= residual_nibbles(
                        self.state,
                        self.early_mnemonic,
                        cmd,
                        lzma,
                        lru,
                    ));
                    assert(dec_on_track(*self, cmd, *superstate));
                }
            }
        }
        None
    }

    /// Codes the second overflow nibble for longer lengths.
    fn step_count_length_greater(
        &mut self,
        superstate: &mut CrossCommandState,
        in_cmd: &CopyCommand,
    ) -> (res: Option<DivansResult>)
        requires
            old(self).wf(),
            old(self).state == CopySubstate::CountLengthGreater18Less25,
            old(superstate).wf(),
            old(superstate).coder.is_decoder ==> old(superstate).coder.pos < old(
                superstate,
            ).coder.nibbles@.len(),
        ensures
            final(self).wf(),
            evolves(*old(superstate), *final(superstate)),
            res is Some ==> res == Some(
                DivansResult::Failure(ErrMsg::InternalInconsistencyInCopyLenSubstateCode(1)),
            ) || res == Some(
                DivansResult::Failure(ErrMsg::InternalInconsistencyInCopyLenSubstateCode(2)),
            ),
            res is None ==> rank_decreases(*old(self), *final(self)),
            enc_preserved(
                *old(self),
                *final(self),
                *in_cmd,
                *old(superstate),
                *final(superstate),
                (res is Some),
            ),
            enc_exact_preserved(
                *old(self),
                *final(self),
                *in_cmd,
                *old(superstate),
                *final(superstate),
            ),
            enc_trace_preserved(
                *old(self),
                *final(self),
                *in_cmd,
                *old(superstate),
                *final(superstate),
            ),
            forall|cmd: CopyCommand| #[trigger] dec_trace_preserved(
                *old(self),
                *final(self),
                cmd,
                *old(superstate),
                *final(superstate),
            ),
            old(superstate).coder.is_decoder && old(superstate).bk.prior_algorithm
                == crate::codec::PriorAlgorithm::Lzma && old(superstate).coder.nibbles@[old(superstate).coder.pos as int]
                == 10 ==> res == Some(
                DivansResult::Failure(ErrMsg::InternalInconsistencyInCopyLenSubstateCode(1)),
            ),
    {
        let ctype = superstate.bk.get_command_block_type();
        let billing = BillingDesignation::CopyCommand(CopySubstate::CountLengthGreater18Less25);
        if superstate.bk.prior_algorithm.use_lzma_copy_prior() {
            // at this point the length is at least 10 on any encoder path
            let nb_m9 = in_cmd.num_bytes.wrapping_sub(9);
            let mut beg_nib: u8 = if nb_m9 < 10 {
                nb_m9 as u8
            } else {
                10
            };
            let index = (superstate.bk.byte_index & 3) as usize;
            let mnem = if self.early_mnemonic != 0xf {
                1
            } else {
                0
            };
            let nibble_prob = superstate.bk.copy_priors.get(
                CopyCommandNibblePriorType::CountLastNib,
                mnem,
                ctype,
                index,
            );
            superstate.coder.get_or_put_nibble(&mut beg_nib, nibble_prob, billing);
            if superstate.adapt {
                nibble_prob.blend(beg_nib & 0xf, Speed::new(512, 16384));
            }
            if beg_nib == 10 {
                self.state = CopySubstate::CountMantissaNibbles(0, 8, 0);
                proof {
            assert forall|cmd: CopyCommand| #[trigger] dec_trace_preserved(
                *old(self),
                *self,
                cmd,
                *old(superstate),
                *superstate,
            ) by {
                if dec_on_track(*old(self), cmd, *old(superstate)) {
                    let lzma = old(superstate).bk.prior_algorithm
                        == crate::codec::PriorAlgorithm::Lzma;
                    let lru = old(superstate).bk.distance_lru@;
                    let r0 = residual_nibbles(
                        old(self).state,
                        old(self).early_mnemonic,
                        cmd,
                        lzma,
                        lru,
                    );
                    let un0 = old(superstate).coder.nibbles@.skip(
                        old(superstate).coder.pos as int,
                    );
                    lemma_agree_head(r0, un0);
                    lemma_skip_skip(
                        old(superstate).coder.nibbles@,
                        old(superstate).coder.pos as int,
                    );
                    assert(false);
                }
            }
        }
                return Some(
                    DivansResult::Failure(ErrMsg::InternalInconsistencyInCopyLenSubstateCode(1)),
                );
            } else {
                self.cc.num_bytes = beg_nib as u32 + 9;
                superstate.bk.last_clen = (32 - self.cc.num_bytes.leading_zeros()) as u8;
                self.state = CopySubstate::CountDecoded;
            }
        } else {
            let clen: u8 = (32 - in_cmd.num_bytes.leading_zeros()) as u8;
            let mut last_nib = clen.wrapping_sub(19) & 0xf;
            proof {
                if !superstate.coder.is_decoder && in_cmd.num_bytes >= 0x40000 {
                    lemma_count_class_bounds(in_cmd.num_bytes);
                    let d = (clen - 19) as u8;
                    assert(d <= 13 ==> d & 0xf == d) by (bit_vector);
                }
            }
            let nibble_prob = superstate.bk.copy_priors.get(
                CopyCommandNibblePriorType::CountLastNib,
                0,
                ctype,
                0,
            );
            superstate.coder.get_or_put_nibble(&mut last_nib, nibble_prob, billing);
            if superstate.adapt {
                nibble_prob.blend(last_nib & 0xf, Speed::fast());
            }
            if last_nib > 13 {
                proof {
            assert forall|cmd: CopyCommand| #[trigger] dec_trace_preserved(
                *old(self),
                *self,
                cmd,
                *old(superstate),
                *superstate,
            ) by {
                if dec_on_track(*old(self), cmd, *old(superstate)) {
                    let lzma = old(superstate).bk.prior_algorithm
                        == crate::codec::PriorAlgorithm::Lzma;
                    let lru = old(superstate).bk.distance_lru@;
                    let r0 = residual_nibbles(
                        old(self).state,
                        old(self).early_mnemonic,
                        cmd,
                        lzma,
                        lru,
                    );
                    let un0 = old(superstate).coder.nibbles@.skip(
                        old(superstate).coder.pos as int,
                    );
                    lemma_agree_head(r0, un0);
                    lemma_skip_skip(
                        old(superstate).coder.nibbles@,
                        old(superstate).coder.pos as int,
                    );
                    lemma_leading_zeros_floor_log2(cmd.num_bytes);
                    lemma_count_class_bounds(cmd.num_bytes);
                    lemma_floor_log2_bounds(cmd.num_bytes as nat);
                    assert(false);
                }
            }
        }
                // a length class beyond 32 bits is structurally impossible
                return Some(
                    DivansResult::Failure(ErrMsg::InternalInconsistencyInCopyLenSubstateCode(2)),
                );
            }
            superstate.bk.last_clen = last_nib + 19;
            let nbits = last_nib + 18;
            let seed_remaining = round_up_mod_4(nbits);
            let seed = 1u32 << nbits;
            proof {
                if !superstate.coder.is_decoder && in_cmd.num_bytes >= 0x40000 {
                    lemma_leading_zeros_floor_log2(in_cmd.num_bytes);
                    lemma_count_class_bounds(in_cmd.num_bytes);
                    let fl = floor_log2(in_cmd.num_bytes as nat) as u32;
                    lemma_leading_bit(in_cmd.num_bytes);
                    lemma_preseed(in_cmd.num_bytes, fl);
                    lemma_shr_zero_iff_below(in_cmd.num_bytes ^ (1u32 << fl), fl);
                    if (fl as int) < seed_remaining as int {
                        lemma_pow2_strictly_increases(fl as nat, seed_remaining as nat);
                    }
                }
            }
            self.state = CopySubstate::CountMantissaNibbles(0, seed_remaining, seed);
        }
        proof {
            if !old(superstate).coder.is_decoder && in_cmd.distance >= 1 && in_cmd.num_bytes >= 1 && (
            old(superstate).bk.prior_algorithm == crate::codec::PriorAlgorithm::Lzma
                || in_cmd.distance < 0x40000000) && enc_ok(*old(self), *in_cmd, *old(superstate))
            && enc_exact(*old(self), *in_cmd, *old(superstate)) {
                lemma_skip_push(
                    old(superstate).coder.nibbles@,
                    superstate.coder.nibbles@[old(superstate).coder.nibbles@.len() as int],
                );
                if old(superstate).bk.prior_algorithm != crate::codec::PriorAlgorithm::Lzma
                    && in_cmd.num_bytes >= 1 {
                    lemma_leading_zeros_floor_log2(in_cmd.num_bytes);
                    let fl = floor_log2(in_cmd.num_bytes as nat) as u32;
                    lemma_u32_pow2_no_overflow(fl as nat);
                    lemma_u32_shl_is_mul(1u32, fl);
                }
                assert(residual_nibbles(
                    old(self).state,
                    old(self).early_mnemonic,
                    *in_cmd,
                    old(superstate).bk.prior_algorithm == crate::codec::PriorAlgorithm::Lzma,
                    old(superstate).bk.distance_lru@,
                ) =~= superstate.coder.nibbles@.skip(
                    old(superstate).coder.nibbles@.len() as int,
                ) + residual_nibbles(
                    self.state,
                    self.early_mnemonic,
                    *in_cmd,
                    old(superstate).bk.prior_algorithm == crate::codec::PriorAlgorithm::Lzma,
                    old(superstate).bk.distance_lru@,
                ));
            }
        }
        proof {
            assert forall|cmd: CopyCommand| #[trigger] dec_trace_preserved(
                *old(self),
                *self,
                cmd,
                *old(superstate),
                *superstate,
            ) by {
                if dec_on_track(*old(self), cmd, *old(superstate)) {
                    let lzma = old(superstate).bk.prior_algorithm
                        == crate::codec::PriorAlgorithm::Lzma;
                    let lru = old(superstate).bk.distance_lru@;
                    let r0 = residual_nibbles(
                        old(self).state,
                        old(self).early_mnemonic,
                        cmd,
                        lzma,
                        lru,
                    );
                    let un0 = old(superstate).coder.nibbles@.skip(
                        old(superstate).coder.pos as int,
                    );
                    lemma_agree_head(r0, un0);
                    lemma_skip_skip(
                        old(superstate).coder.nibbles@,
                        old(superstate).coder.pos as int,
                    );
                    if !lzma {
                        lemma_leading_zeros_floor_log2(cmd.num_bytes);
                        lemma_count_class_bounds(cmd.num_bytes);
                        lemma_floor_log2_bounds(cmd.num_bytes as nat);
                        vstd::arithmetic::power2::lemma2_to64();
                        let fl = floor_log2(cmd.num_bytes as nat) as u32;
                        lemma_leading_bit(cmd.num_bytes);
                        lemma_preseed(cmd.num_bytes, fl);
                        lemma_shr_zero_iff_below(cmd.num_bytes ^ (1u32 << fl), fl);
                        lemma_u32_pow2_no_overflow(fl as nat);
                        lemma_u32_shl_is_mul(1u32, fl);
                        if (fl as int) < spec_round_up_mod_4(fl as int) {
                            lemma_pow2_strictly_increases(
                                fl as nat,
                                spec_round_up_mod_4(fl as int) as nat,
                            );
                        }
                    }
                    assert(r0.skip(1) =~= residual_nibbles(
                        self.state,
                        self.early_mnemonic,
                        cmd,
                        lzma,
                        lru,
                    ));
                    assert(dec_on_track(*self, cmd, *superstate));
                }
            }
        }
        None
    }

    /// Codes one nibble of the binary length mantissa, most significant
    /// first, accumulating by or-and-shift.
    #[verifier::rlimit(100)]
    #[verifier::spinoff_prover]
    fn step_count_mantissa(
        &mut self,
        superstate: &mut CrossCommandState,
        in_cmd: &CopyCommand,
    ) -> (res: Option<DivansResult>)
        requires
            old(self).wf(),
            old(self).state matches CopySubstate::CountMantissaNibbles(_, _, _),
            old(superstate).wf(),
            old(superstate).coder.is_decoder ==> old(superstate).coder.pos < old(
                superstate,
            ).coder.nibbles@.len(),
        ensures
            final(self).wf(),
            evolves(*old(superstate), *final(superstate)),
            res is None,
            rank_decreases(*old(self), *final(self)),
            enc_preserved(
                *old(self),
                *final(self),
                *in_cmd,
                *old(superstate),
                *final(superstate),
                false,
            ),
            enc_exact_preserved(
                *old(self),
                *final(self),
                *in_cmd,
                *old(superstate),
                *final(superstate),
            ),
            enc_trace_preserved(
                *old(self),
                *final(self),
                *in_cmd,
                *old(superstate),
                *final(superstate),
            ),
            forall|cmd: CopyCommand| #[trigger] dec_trace_preserved(
                *old(self),
                *final(self),
                cmd,
                *old(superstate),
                *final(superstate),
            ),
    {
        let (len_decoded, len_remaining, decoded_so_far) = match self.state {
            CopySubstate::CountMantissaNibbles(a, b, c) => (a, b, c),
            _ => (0, 4, 0),
        };
        let next_len_remaining = len_remaining - 4;
        let ctype = superstate.bk.get_command_block_type();
        let billing = BillingDesignation::CopyCommand(CopySubstate::CountMantissaNibbles(0, 0, 0));
        let next_decoded_so_far: u32;
        if superstate.bk.prior_algorithm.use_lzma_copy_prior() {
            let last_nib_as_u32 = (in_cmd.num_bytes.wrapping_sub(18) ^ decoded_so_far)
                >> next_len_remaining;
            let mut last_nib: u8 = (last_nib_as_u32 & 0xf) as u8;
            let index = (superstate.bk.byte_index % 4) as usize;
            let dec_feature = ((decoded_so_far >> 4) & 0xf) as usize;
            let c_idx = (if len_decoded == 0 {
                0x40
            } else {
                0
            }) + index * 0x10 + dec_feature;
            let mnem = if self.early_mnemonic != 0xf {
                1
            } else {
                0
            };
            let nibble_prob = superstate.bk.copy_priors.get(
                CopyCommandNibblePriorType::CountMantissaNib,
                mnem,
                ctype,
                c_idx,
            );
            superstate.coder.get_or_put_nibble(&mut last_nib, nibble_prob, billing);
            next_decoded_so_far = decoded_so_far | ((last_nib as u32) << next_len_remaining);
            if superstate.adapt {
                nibble_prob.blend(last_nib & 0xf, Speed::slow());
            }
            self.cc.num_bytes = next_decoded_so_far.wrapping_add(18);
        } else {
            let last_nib_as_u32 = (in_cmd.num_bytes ^ decoded_so_far) >> next_len_remaining;
            let mut last_nib: u8 = (last_nib_as_u32 & 0xf) as u8;
            let index = if len_decoded == 0 {
                ((superstate.bk.last_clen % 4) + 1) as usize
            } else {
                0
            };
            let nibble_prob = superstate.bk.copy_priors.get(
                CopyCommandNibblePriorType::CountMantissaNib,
                0,
                ctype,
                index,
            );
            superstate.coder.get_or_put_nibble(&mut last_nib, nibble_prob, billing);
            next_decoded_so_far = decoded_so_far | ((last_nib as u32) << next_len_remaining);
            if superstate.adapt {
                nibble_prob.blend(last_nib & 0xf, Speed::slow());
            }
            self.cc.num_bytes = next_decoded_so_far;
        }
        proof {
            if !superstate.coder.is_decoder && enc_exact(*old(self), *in_cmd, *old(superstate)) {
                let lzma = old(superstate).bk.prior_algorithm == crate::codec::PriorAlgorithm::Lzma;
                let v: u32 = if lzma {
                    (in_cmd.num_bytes - 18) as u32
                } else {
                    in_cmd.num_bytes
                };
                if len_remaining == 32 {
                    lemma_shr32_zero(v ^ decoded_so_far);
                } else {
                    lemma_shr_zero_iff_below(v ^ decoded_so_far, len_remaining as u32);
                }
                lemma_mantissa_accumulate(
                    v,
                    next_len_remaining as u32,
                    len_remaining as u32,
                    decoded_so_far,
                );
                if next_len_remaining > 0 {
                    lemma_shr_zero_iff_below(v ^ next_decoded_so_far, next_len_remaining as u32);
                }
            }
        }
        if next_len_remaining == 0 {
            self.state = CopySubstate::CountDecoded;
        } else {
            self.state = CopySubstate::CountMantissaNibbles(
                len_decoded + 4,
                next_len_remaining,
                next_decoded_so_far,
            );
        }
        proof {
            if !old(superstate).coder.is_decoder && in_cmd.distance >= 1 && in_cmd.num_bytes >= 1 && (
            old(superstate).bk.prior_algorithm == crate::codec::PriorAlgorithm::Lzma
                || in_cmd.distance < 0x40000000) && enc_ok(*old(self), *in_cmd, *old(superstate))
            && enc_exact(*old(self), *in_cmd, *old(superstate)) {
                lemma_skip_push(
                    old(superstate).coder.nibbles@,
                    superstate.coder.nibbles@[old(superstate).coder.nibbles@.len() as int],
                );
                let lzma = old(superstate).bk.prior_algorithm
                    == crate::codec::PriorAlgorithm::Lzma;
                let v: u32 = if lzma {
                    (in_cmd.num_bytes - 18) as u32
                } else {
                    in_cmd.num_bytes
                };
                assert(mantissa_nibble_seq(v, decoded_so_far, len_remaining as u32)
                    == seq![(((v ^ decoded_so_far) >> ((len_remaining - 4) as u32)) & 0xf) as u8]
                    + mantissa_nibble_seq(v, next_decoded_so_far, next_len_remaining as u32));
                if next_len_remaining == 0 {
                    assert(mantissa_nibble_seq(v, next_decoded_so_far, 0) == Seq::<u8>::empty());
                }
                assert(residual_nibbles(
                    old(self).state,
                    old(self).early_mnemonic,
                    *in_cmd,
                    old(superstate).bk.prior_algorithm == crate::codec::PriorAlgorithm::Lzma,
                    old(superstate).bk.distance_lru@,
                ) =~= superstate.coder.nibbles@.skip(
                    old(superstate).coder.nibbles@.len() as int,
                ) + residual_nibbles(
                    self.state,
                    self.early_mnemonic,
                    *in_cmd,
                    old(superstate).bk.prior_algorithm == crate::codec::PriorAlgorithm::Lzma,
                    old(superstate).bk.distance_lru@,
                ));
            }
        }
        proof {
            assert forall|cmd: CopyCommand| #[trigger] dec_trace_preserved(
                *old(self),
                *self,
                cmd,
                *old(superstate),
                *superstate,
            ) by {
                if dec_on_track(*old(self), cmd, *old(superstate)) {
                    let lzma = old(superstate).bk.prior_algorithm
                        == crate::codec::PriorAlgorithm::Lzma;
                    let lru = old(superstate).bk.distance_lru@;
                    let r0 = residual_nibbles(
                        old(self).state,
                        old(self).early_mnemonic,
                        cmd,
                        lzma,
                        lru,
                    );
                    let un0 = old(superstate).coder.nibbles@.skip(
                        old(superstate).coder.pos as int,
                    );
                    lemma_agree_head(r0, un0);
                    lemma_skip_skip(
                        old(superstate).coder.nibbles@,
                        old(superstate).coder.pos as int,
                    );
                    vstd::arithmetic::power2::lemma2_to64();
                    let v: u32 = if lzma {
                        (cmd.num_bytes - 18) as u32
                    } else {
                        cmd.num_bytes
                    };
                    if len_remaining == 32 {
                        lemma_shr32_zero(v ^ decoded_so_far);
                    } else {
                        lemma_shr_zero_iff_below(v ^ decoded_so_far, len_remaining as u32);
                    }
                    lemma_mantissa_accumulate(
                        v,
                        next_len_remaining as u32,
                        len_remaining as u32,
                        decoded_so_far,
                    );
                    if next_len_remaining > 0 {
                        lemma_shr_zero_iff_below(v ^ next_decoded_so_far, next_len_remaining as u32);
                    }
                    if next_len_remaining == 0 {
                        assert(mantissa_nibble_seq(v, next_decoded_so_far, 0) == Seq::<u8>::empty());
                    }
                    assert(mantissa_nibble_seq(v, decoded_so_far, len_remaining as u32)
                        == seq![(((v ^ decoded_so_far) >> ((len_remaining - 4) as u32)) & 0xf) as u8]
                        + mantissa_nibble_seq(v, next_decoded_so_far, next_len_remaining as u32));
                    assert(r0.skip(1) =~= residual_nibbles(
                        self.state,
                        self.early_mnemonic,
                        cmd,
                        lzma,
                        lru,
                    ));
                    assert(dec_on_track(*self, cmd, *superstate));
                }
            }
        }
        None
    }

    /// Dispatches once the length is known: no mnemonic attempted yet means
    /// the mnemonic nibble comes next; a taken "short match" mnemonic
    /// resolves the distance from the cache; a "literal match follows"
    /// mnemonic proceeds to direct distance coding. Codes nothing.
    fn step_count_decoded(
        &mut self,
        superstate: &mut CrossCommandState,
        in_cmd: &CopyCommand,
    ) -> (res: Option<DivansResult>)
        requires
            old(self).wf(),
            old(self).state == CopySubstate::CountDecoded,
            old(superstate).wf(),
        ensures
            final(self).wf(),
            evolves(*old(superstate), *final(superstate)),
            res is Some ==> res matches Some(
                DivansResult::Failure(ErrMsg::CopyDistanceMnemonicCodeBad(_, _)),
            ),
            res is None ==> rank_decreases(*old(self), *final(self)),
            enc_preserved(
                *old(self),
                *final(self),
                *in_cmd,
                *old(superstate),
                *final(superstate),
                (res is Some),
            ),
            enc_exact_preserved(
                *old(self),
                *final(self),
                *in_cmd,
                *old(superstate),
                *final(superstate),
            ),
            old(self).early_mnemonic <= 14 && crate::mnemonic::spec_mnemonic_distance(
                old(superstate).bk.distance_lru@,
                old(self).early_mnemonic as int,
            ) == 0 ==> res == Some(
                DivansResult::Failure(ErrMsg::CopyDistanceMnemonicCodeBad(0, 0)),
            ),
            enc_trace_preserved(
                *old(self),
                *final(self),
                *in_cmd,
                *old(superstate),
                *final(superstate),
            ),
            forall|cmd: CopyCommand| #[trigger] dec_trace_preserved(
                *old(self),
                *final(self),
                cmd,
                *old(superstate),
                *final(superstate),
            ),
    {
        proof {
            lemma_prefix_refl(superstate.coder.nibbles@);
        }
        if self.early_mnemonic == 0xff {
            self.state = CopySubstate::DistanceLengthMnemonic;
        } else if self.early_mnemonic == 0xf {
            superstate.bk.state_summary.obs_match();
            self.state = CopySubstate::DistanceLengthFirst;
        } else {
            superstate.bk.state_summary.obs_long_rep();
            let (dist, ok, _cache_index) = get_distance_from_mnemonic_code(
                &superstate.bk.distance_lru,
                self.early_mnemonic,
                self.cc.num_bytes,
            );
            self.cc.distance = dist;
            if !ok {
                proof {
                    assert(dist == 0 ==> dist >> 8 == 0) by (bit_vector);
                }
                proof {
            assert forall|cmd: CopyCommand| #[trigger] dec_trace_preserved(
                *old(self),
                *self,
                cmd,
                *old(superstate),
                *superstate,
            ) by {
                if dec_on_track(*old(self), cmd, *old(superstate)) {
                    let lzma = old(superstate).bk.prior_algorithm
                        == crate::codec::PriorAlgorithm::Lzma;
                    let lru = old(superstate).bk.distance_lru@;
                    let r0 = residual_nibbles(
                        old(self).state,
                        old(self).early_mnemonic,
                        cmd,
                        lzma,
                        lru,
                    );
                    let un0 = old(superstate).coder.nibbles@.skip(
                        old(superstate).coder.pos as int,
                    );
                    assert(false);
                }
            }
        }
                return Some(
                    DivansResult::Failure(
                        ErrMsg::CopyDistanceMnemonicCodeBad(
                            #[verifier::truncate]
                            (dist as u8),
                            #[verifier::truncate]
                            ((dist >> 8) as u8),
                        ),
                    ),
                );
            }
            superstate.bk.last_dlen = get_dist_slot(self.cc.distance) as u8;
            self.state = CopySubstate::FullyDecoded;
        }
        proof {
            assert forall|cmd: CopyCommand| #[trigger] dec_trace_preserved(
                *old(self),
                *self,
                cmd,
                *old(superstate),
                *superstate,
            ) by {
                if dec_on_track(*old(self), cmd, *old(superstate)) {
                    let lzma = old(superstate).bk.prior_algorithm
                        == crate::codec::PriorAlgorithm::Lzma;
                    let lru = old(superstate).bk.distance_lru@;
                    let r0 = residual_nibbles(
                        old(self).state,
                        old(self).early_mnemonic,
                        cmd,
                        lzma,
                        lru,
                    );
                    let un0 = old(superstate).coder.nibbles@.skip(
                        old(superstate).coder.pos as int,
                    );
                    assert(r0 =~= residual_nibbles(
                        self.state,
                        self.early_mnemonic,
                        cmd,
                        lzma,
                        lru,
                    ));
                    assert(dec_on_track(*self, cmd, *superstate));
                }
            }
        }
        proof {
            if !old(superstate).coder.is_decoder && in_cmd.distance >= 1 && in_cmd.num_bytes >= 1 && (
            old(superstate).bk.prior_algorithm == crate::codec::PriorAlgorithm::Lzma
                || in_cmd.distance < 0x40000000) && enc_ok(*old(self), *in_cmd, *old(superstate))
            && enc_exact(*old(self), *in_cmd, *old(superstate)) {
                lemma_skip_all(superstate.coder.nibbles@);
                assert(residual_nibbles(
                    old(self).state,
                    old(self).early_mnemonic,
                    *in_cmd,
                    old(superstate).bk.prior_algorithm == crate::codec::PriorAlgorithm::Lzma,
                    old(superstate).bk.distance_lru@,
                ) =~= superstate.coder.nibbles@.skip(
                    old(superstate).coder.nibbles@.len() as int,
                ) + residual_nibbles(
                    self.state,
                    self.early_mnemonic,
                    *in_cmd,
                    old(superstate).bk.prior_algorithm == crate::codec::PriorAlgorithm::Lzma,
                    old(superstate).bk.distance_lru@,
                ));
            }
        }
        None
    }

    /// Codes the mnemonic-selection nibble: a cached-distance mnemonic, the
    /// "same distance, length one" shortcut, or "no mnemonic applies".
    #[verifier::rlimit(100)]
    #[verifier::spinoff_prover]
    fn step_distance_length_mnemonic(
        &mut self,
        superstate: &mut CrossCommandState,
        in_cmd: &CopyCommand,
    ) -> (res: Option<DivansResult>)
        requires
            old(self).wf(),
            old(self).state == CopySubstate::DistanceLengthMnemonic,
            old(superstate).wf(),
            old(superstate).coder.is_decoder ==> old(superstate).coder.pos < old(
                superstate,
            ).coder.nibbles@.len(),
        ensures
            final(self).wf(),
            evolves(*old(superstate), *final(superstate)),
            res is Some ==> res matches Some(
                DivansResult::Failure(ErrMsg::CopyDistanceMnemonicCodeBad(_, _)),
            ),
            res is None ==> rank_decreases(*old(self), *final(self)),
            enc_preserved(
                *old(self),
                *final(self),
                *in_cmd,
                *old(superstate),
                *final(superstate),
                (res is Some),
            ),
            enc_exact_preserved(
                *old(self),
                *final(self),
                *in_cmd,
                *old(superstate),
                *final(superstate),
            ),
            old(superstate).coder.is_decoder && old(self).early_mnemonic != 0xfe && old(self).early_mnemonic
                != 0xfd && old(superstate).coder.nibbles@[old(superstate).coder.pos as int] < 15
                && crate::mnemonic::spec_mnemonic_distance(
                old(superstate).bk.distance_lru@,
                old(superstate).coder.nibbles@[old(superstate).coder.pos as int] as int,
            ) == 0 ==> res == Some(
                DivansResult::Failure(ErrMsg::CopyDistanceMnemonicCodeBad(0, 0)),
            ),
            enc_trace_preserved(
                *old(self),
                *final(self),
                *in_cmd,
                *old(superstate),
                *final(superstate),
            ),
            forall|cmd: CopyCommand| #[trigger] dec_trace_preserved(
                *old(self),
                *final(self),
                cmd,
                *old(superstate),
                *final(superstate),
            ),
    {
        proof {
            crate::mnemonic::lemma_mnemonic_roundtrip(
                superstate.bk.distance_lru@,
                in_cmd.distance,
            );
        }
        let billing = BillingDesignation::CopyCommand(CopySubstate::DistanceLengthMnemonic);
        let mut beg_nib: u8 = if superstate.coder.is_decoder {
            15  // the mnemonic cannot be searched for before the command is decoded
        } else {
            superstate.bk.distance_mnemonic_code(in_cmd.distance, self.cc.num_bytes)
        };
        let actual_prior: usize;
        let secondary_prior: usize;
        let speed: Speed;
        if self.early_mnemonic == 0xfe || self.early_mnemonic == 0xfd {
            if beg_nib >= 4 && self.early_mnemonic == 0xfe {
                beg_nib = 15;
            }
            if beg_nib >= 14 {
                beg_nib = 15;
            }
            if beg_nib == 0 && in_cmd.num_bytes == 1 {
                beg_nib = 14;
            }
            actual_prior = superstate.bk.state_summary.as_index() as usize;
            secondary_prior = (superstate.bk.byte_index % 4) as usize;
            speed = Speed::new(128, 16384);
        } else {
            actual_prior = superstate.bk.get_distance_prior(self.cc.num_bytes);
            secondary_prior = if superstate.bk.last_llen < 8 {
                1
            } else {
                0
            };
            speed = Speed::slow();
        }
        let nibble_prob = superstate.bk.copy_priors.get(
            CopyCommandNibblePriorType::DistanceMnemonic,
            actual_prior,
            secondary_prior,
            0,
        );
        superstate.coder.get_or_put_nibble(&mut beg_nib, nibble_prob, billing);
        if superstate.adapt {
            nibble_prob.blend(beg_nib & 0xf, speed);
        }
        if self.early_mnemonic == 0xfe || self.early_mnemonic == 0xfd {
            if beg_nib == 14 {
                // early exit: copy length one, same distance as last time
                let (dist, _ok, _cache_index) = get_distance_from_mnemonic_code(
                    &superstate.bk.distance_lru,
                    0,
                    1,
                );
                self.cc.distance = dist;
                self.cc.num_bytes = 1;
                superstate.bk.state_summary.obs_short_rep();
                superstate.bk.last_dlen = get_dist_slot(self.cc.distance) as u8;
                superstate.bk.last_clen = (32 - self.cc.num_bytes.leading_zeros()) as u8;
                self.state = CopySubstate::FullyDecoded;
            } else {
                self.early_mnemonic = beg_nib;
                self.state = CopySubstate::CountSmall;
            }
        } else if beg_nib == 15 {
            superstate.bk.state_summary.obs_match();
            self.state = CopySubstate::DistanceLengthFirst;
        } else {
            let (dist, ok, _cache_index) = get_distance_from_mnemonic_code(
                &superstate.bk.distance_lru,
                beg_nib,
                self.cc.num_bytes,
            );
            self.cc.distance = dist;
            superstate.bk.last_dlen = (32 - self.cc.distance.leading_zeros()) as u8;
            if !ok {
                proof {
                    assert(dist == 0 ==> dist >> 8 == 0) by (bit_vector);
                }
                proof {
            assert forall|cmd: CopyCommand| #[trigger] dec_trace_preserved(
                *old(self),
                *self,
                cmd,
                *old(superstate),
                *superstate,
            ) by {
                if dec_on_track(*old(self), cmd, *old(superstate)) {
                    let lzma = old(superstate).bk.prior_algorithm
                        == crate::codec::PriorAlgorithm::Lzma;
                    let lru = old(superstate).bk.distance_lru@;
                    let r0 = residual_nibbles(
                        old(self).state,
                        old(self).early_mnemonic,
                        cmd,
                        lzma,
                        lru,
                    );
                    let un0 = old(superstate).coder.nibbles@.skip(
                        old(superstate).coder.pos as int,
                    );
                    lemma_agree_head(r0, un0);
                    lemma_skip_skip(
                        old(superstate).coder.nibbles@,
                        old(superstate).coder.pos as int,
                    );
                    crate::mnemonic::lemma_mnemonic_roundtrip(lru, cmd.distance);
                    assert(false);
                }
            }
        }
                return Some(
                    DivansResult::Failure(
                        ErrMsg::CopyDistanceMnemonicCodeBad(
                            #[verifier::truncate]
                            (dist as u8),
                            #[verifier::truncate]
                            ((dist >> 8) as u8),
                        ),
                    ),
                );
            }
            self.state = CopySubstate::FullyDecoded;
        }
        proof {
            if !old(superstate).coder.is_decoder && in_cmd.distance >= 1 && in_cmd.num_bytes >= 1 && (
            old(superstate).bk.prior_algorithm == crate::codec::PriorAlgorithm::Lzma
                || in_cmd.distance < 0x40000000) && enc_ok(*old(self), *in_cmd, *old(superstate))
            && enc_exact(*old(self), *in_cmd, *old(superstate)) {
                lemma_skip_push(
                    old(superstate).coder.nibbles@,
                    superstate.coder.nibbles@[old(superstate).coder.nibbles@.len() as int],
                );
                assert(residual_nibbles(
                    old(self).state,
                    old(self).early_mnemonic,
                    *in_cmd,
                    old(superstate).bk.prior_algorithm == crate::codec::PriorAlgorithm::Lzma,
                    old(superstate).bk.distance_lru@,
                ) =~= superstate.coder.nibbles@.skip(
                    old(superstate).coder.nibbles@.len() as int,
                ) + residual_nibbles(
                    self.state,
                    self.early_mnemonic,
                    *in_cmd,
                    old(superstate).bk.prior_algorithm == crate::codec::PriorAlgorithm::Lzma,
                    old(superstate).bk.distance_lru@,
                ));
            }
        }
        proof {
            assert forall|cmd: CopyCommand| #[trigger] dec_trace_preserved(
                *old(self),
                *self,
                cmd,
                *old(superstate),
                *superstate,
            ) by {
                if dec_on_track(*old(self), cmd, *old(superstate)) {
                    let lzma = old(superstate).bk.prior_algorithm
                        == crate::codec::PriorAlgorithm::Lzma;
                    let lru = old(superstate).bk.distance_lru@;
                    let r0 = residual_nibbles(
                        old(self).state,
                        old(self).early_mnemonic,
                        cmd,
                        lzma,
                        lru,
                    );
                    let un0 = old(superstate).coder.nibbles@.skip(
                        old(superstate).coder.pos as int,
                    );
                    lemma_agree_head(r0, un0);
                    lemma_skip_skip(
                        old(superstate).coder.nibbles@,
                        old(superstate).coder.pos as int,
                    );
                    crate::mnemonic::lemma_mnemonic_roundtrip(lru, cmd.distance);
                    assert(r0.skip(1) =~= residual_nibbles(
                        self.state,
                        self.early_mnemonic,
                        cmd,
                        lzma,
                        lru,
                    ));
                    assert(dec_on_track(*self, cmd, *superstate));
                }
            }
        }
        None
    }

    /// Codes the leading nibble of the distance's bit length (or the high
    /// nibble of its slot), with the dedicated "previous distance minus
    /// three" shortcut.
    #[verifier::rlimit(100)]
    #[verifier::spinoff_prover]
    fn step_distance_length_first(
        &mut self,
        superstate: &mut CrossCommandState,
        in_cmd: &CopyCommand,
    ) -> (res: Option<DivansResult>)
        requires
            old(self).wf(),
            old(self).state == CopySubstate::DistanceLengthFirst,
            old(superstate).wf(),
            in_cmd.distance >= 1,
            old(superstate).coder.is_decoder ==> old(superstate).coder.pos < old(
                superstate,
            ).coder.nibbles@.len(),
        ensures
            final(self).wf(),
            evolves(*old(superstate), *final(superstate)),
            res is None,
            rank_decreases(*old(self), *final(self)),
            enc_preserved(
                *old(self),
                *final(self),
                *in_cmd,
                *old(superstate),
                *final(superstate),
                false,
            ),
            enc_exact_preserved(
                *old(self),
                *final(self),
                *in_cmd,
                *old(superstate),
                *final(superstate),
            ),
            enc_trace_preserved(
                *old(self),
                *final(self),
                *in_cmd,
                *old(superstate),
                *final(superstate),
            ),
            forall|cmd: CopyCommand| #[trigger] dec_trace_preserved(
                *old(self),
                *final(self),
                cmd,
                *old(superstate),
                *final(superstate),
            ),
    {
        let billing = BillingDesignation::CopyCommand(CopySubstate::DistanceLengthFirst);
        if superstate.bk.prior_algorithm.use_lzma_distance_prior() {
            let i_dist_slot = get_dist_slot(in_cmd.distance);
            proof {
                assert(i_dist_slot <= 63 ==> (i_dist_slot >> 4) < 4 && (i_dist_slot >> 4)
                    == i_dist_slot / 16) by (bit_vector);
            }
            let mut beg_nib: u8 = (i_dist_slot >> 4) as u8;
            let index = if self.cc.num_bytes < 5 {
                self.cc.num_bytes as usize
            } else {
                5
            };
            let nibble_prob = superstate.bk.copy_priors.get(
                CopyCommandNibblePriorType::DistanceBegNib,
                0,
                index,
                0,
            );
            superstate.coder.get_or_put_nibble(&mut beg_nib, nibble_prob, billing);
            if superstate.adapt {
                nibble_prob.blend(beg_nib & 0xf, Speed::rocket());
            }
            self.state = CopySubstate::DistanceLengthGreater14Less25(beg_nib);
        } else {
            let dlen: u8 = (32 - in_cmd.distance.leading_zeros()) as u8;
            let dlen_m1 = dlen - 1;
            let mut beg_nib: u8 = if dlen_m1 < 14 {
                dlen_m1
            } else {
                14
            };
            if superstate.bk.distance_lru[1].wrapping_sub(3) == in_cmd.distance {
                beg_nib = 15;
            }
            let index = ((32 - self.cc.num_bytes.leading_zeros()) as usize) >> 2;
            let actual_prior = superstate.bk.get_distance_prior(self.cc.num_bytes);
            let nibble_prob = superstate.bk.copy_priors.get(
                CopyCommandNibblePriorType::DistanceBegNib,
                actual_prior,
                index,
                0,
            );
            superstate.coder.get_or_put_nibble(&mut beg_nib, nibble_prob, billing);
            if superstate.adapt {
                nibble_prob.blend(beg_nib & 0xf, Speed::slow());
            }
            proof {
                if !superstate.coder.is_decoder {
                    lemma_leading_zeros_floor_log2(in_cmd.distance);
                    lemma_floor_log2_bounds(in_cmd.distance as nat);
                    vstd::arithmetic::power2::lemma2_to64();
                    let fl = floor_log2(in_cmd.distance as nat) as u32;
                    lemma_leading_bit(in_cmd.distance);
                    lemma_preseed(in_cmd.distance, fl);
                    lemma_shr_zero_iff_below(in_cmd.distance ^ (1u32 << fl), fl);
                    if fl > 14 {
                        lemma_pow2_strictly_increases(14, fl as nat);
                    }
                }
            }
            if beg_nib == 14 {
                self.state = CopySubstate::DistanceLengthGreater14Less25(0);
            } else if beg_nib == 15 {
                self.cc.distance = superstate.bk.distance_lru[1].wrapping_sub(3);
                superstate.bk.last_dlen = (32 - self.cc.distance.leading_zeros()) as u8;
                self.state = CopySubstate::FullyDecoded;
            } else {
                superstate.bk.last_dlen = beg_nib + 1;
                if beg_nib == 0 {
                    self.cc.distance = 1;
                    self.state = CopySubstate::FullyDecoded;
                } else {
                    proof {
                        lemma_dist_slot_pow2(beg_nib as u32);
                    }
                    let seed_remaining = round_up_mod_4(beg_nib);
                    let seed = 1u32 << beg_nib;
                    proof {
                        if !superstate.coder.is_decoder {
                            let fl = floor_log2(in_cmd.distance as nat) as u32;
                            if (fl as int) < seed_remaining as int {
                                lemma_pow2_strictly_increases(fl as nat, seed_remaining as nat);
                            }
                        }
                    }
                    self.state = CopySubstate::DistanceMantissaNibbles(
                        get_dist_slot(seed),
                        0,
                        seed_remaining,
                        seed,
                    );
                }
            }
        }
        proof {
            if !old(superstate).coder.is_decoder && in_cmd.distance >= 1 && in_cmd.num_bytes >= 1 && (
            old(superstate).bk.prior_algorithm == crate::codec::PriorAlgorithm::Lzma
                || in_cmd.distance < 0x40000000) && enc_ok(*old(self), *in_cmd, *old(superstate))
            && enc_exact(*old(self), *in_cmd, *old(superstate)) {
                lemma_skip_push(
                    old(superstate).coder.nibbles@,
                    superstate.coder.nibbles@[old(superstate).coder.nibbles@.len() as int],
                );
                if old(superstate).bk.prior_algorithm != crate::codec::PriorAlgorithm::Lzma {
                    let fl = floor_log2(in_cmd.distance as nat) as u32;
                    lemma_u32_pow2_no_overflow(fl as nat);
                    lemma_u32_shl_is_mul(1u32, fl);
                }
                assert(residual_nibbles(
                    old(self).state,
                    old(self).early_mnemonic,
                    *in_cmd,
                    old(superstate).bk.prior_algorithm == crate::codec::PriorAlgorithm::Lzma,
                    old(superstate).bk.distance_lru@,
                ) =~= superstate.coder.nibbles@.skip(
                    old(superstate).coder.nibbles@.len() as int,
                ) + residual_nibbles(
                    self.state,
                    self.early_mnemonic,
                    *in_cmd,
                    old(superstate).bk.prior_algorithm == crate::codec::PriorAlgorithm::Lzma,
                    old(superstate).bk.distance_lru@,
                ));
            }
        }
        proof {
            assert forall|cmd: CopyCommand| #[trigger] dec_trace_preserved(
                *old(self),
                *self,
                cmd,
                *old(superstate),
                *superstate,
            ) by {
                if dec_on_track(*old(self), cmd, *old(superstate)) {
                    let lzma = old(superstate).bk.prior_algorithm
                        == crate::codec::PriorAlgorithm::Lzma;
                    let lru = old(superstate).bk.distance_lru@;
                    let r0 = residual_nibbles(
                        old(self).state,
                        old(self).early_mnemonic,
                        cmd,
                        lzma,
                        lru,
                    );
                    let un0 = old(superstate).coder.nibbles@.skip(
                        old(superstate).coder.pos as int,
                    );
                    lemma_agree_head(r0, un0);
                    lemma_skip_skip(
                        old(superstate).coder.nibbles@,
                        old(superstate).coder.pos as int,
                    );
                    if lzma {
                        vstd::arithmetic::power2::lemma2_to64();
                        if cmd.distance >= 2 {
                            lemma_floor_log2_bounds((cmd.distance - 1) as nat);
                        }
                        if spec_dist_slot(cmd.distance as int) >= 4 {
                            lemma_dist_slot_decomposition(cmd.distance as int);
                            lemma_mantissa_zero_seed(
                                (cmd.distance as int - spec_slot_base(
                                    spec_dist_slot(cmd.distance as int),
                                ) - 1) as u32,
                            );
                        }
                    } else {
                        lemma_leading_zeros_floor_log2(cmd.distance);
                        lemma_floor_log2_bounds(cmd.distance as nat);
                        vstd::arithmetic::power2::lemma2_to64();
                        let fl = floor_log2(cmd.distance as nat) as u32;
                        lemma_leading_bit(cmd.distance);
                        lemma_preseed(cmd.distance, fl);
                        lemma_shr_zero_iff_below(cmd.distance ^ (1u32 << fl), fl);
                        lemma_u32_pow2_no_overflow(fl as nat);
                        lemma_u32_shl_is_mul(1u32, fl);
                        if (fl as int) < spec_round_up_mod_4(fl as int) {
                            lemma_pow2_strictly_increases(
                                fl as nat,
                                spec_round_up_mod_4(fl as int) as nat,
                            );
                        }
                        if fl > 14 {
                            lemma_pow2_strictly_increases(14, fl as nat);
                        }
                    }
                    assert(r0.skip(1) =~= residual_nibbles(
                        self.state,
                        self.early_mnemonic,
                        cmd,
                        lzma,
                        lru,
                    ));
                    assert(dec_on_track(*self, cmd, *superstate));
                }
            }
        }
        None
    }

    /// Codes the low nibble of the distance slot, derives the final slot and
    /// the number of mantissa bits it implies.
    fn step_distance_length_greater(
        &mut self,
        superstate: &mut CrossCommandState,
        in_cmd: &CopyCommand,
    ) -> (res: Option<DivansResult>)
        requires
            old(self).wf(),
            old(self).state matches CopySubstate::DistanceLengthGreater14Less25(_),
            old(superstate).wf(),
            in_cmd.distance >= 1,
            old(superstate).coder.is_decoder ==> old(superstate).coder.pos < old(
                superstate,
            ).coder.nibbles@.len(),
        ensures
            final(self).wf(),
            evolves(*old(superstate), *final(superstate)),
            res is Some ==> res == Some(
                DivansResult::Failure(ErrMsg::InternalInconsistencyInCopyLenSubstateCode(3)),
            ),
            res is None ==> rank_decreases(*old(self), *final(self)),
            enc_preserved(
                *old(self),
                *final(self),
                *in_cmd,
                *old(superstate),
                *final(superstate),
                (res is Some),
            ),
            enc_exact_preserved(
                *old(self),
                *final(self),
                *in_cmd,
                *old(superstate),
                *final(superstate),
            ),
            enc_trace_preserved(
                *old(self),
                *final(self),
                *in_cmd,
                *old(superstate),
                *final(superstate),
            ),
            forall|cmd: CopyCommand| #[trigger] dec_trace_preserved(
                *old(self),
                *final(self),
                cmd,
                *old(superstate),
                *final(superstate),
            ),
    {
        if superstate.bk.prior_algorithm.use_lzma_distance_prior() {
            self.step_distance_length_greater_lzma(superstate, in_cmd)
        } else {
            self.step_distance_length_greater_legacy(superstate, in_cmd)
        }
    }

    /// Regime-specific half of the distance-slot low-nibble step.
    #[verifier::rlimit(100)]
    #[verifier::spinoff_prover]
    fn step_distance_length_greater_lzma(
        &mut self,
        superstate: &mut CrossCommandState,
        in_cmd: &CopyCommand,
    ) -> (res: Option<DivansResult>)
        requires
            old(superstate).bk.prior_algorithm == crate::codec::PriorAlgorithm::Lzma,
            old(self).wf(),
            old(self).state matches CopySubstate::DistanceLengthGreater14Less25(_),
            old(superstate).wf(),
            in_cmd.distance >= 1,
            old(superstate).coder.is_decoder ==> old(superstate).coder.pos < old(
                superstate,
            ).coder.nibbles@.len(),
        ensures
            final(self).wf(),
            evolves(*old(superstate), *final(superstate)),
            res is Some ==> res == Some(
                DivansResult::Failure(ErrMsg::InternalInconsistencyInCopyLenSubstateCode(3)),
            ),
            res is None ==> rank_decreases(*old(self), *final(self)),
            enc_preserved(
                *old(self),
                *final(self),
                *in_cmd,
                *old(superstate),
                *final(superstate),
                (res is Some),
            ),
            enc_exact_preserved(
                *old(self),
                *final(self),
                *in_cmd,
                *old(superstate),
                *final(superstate),
            ),
            enc_trace_preserved(
                *old(self),
                *final(self),
                *in_cmd,
                *old(superstate),
                *final(superstate),
            ),
            forall|cmd: CopyCommand| #[trigger] dec_trace_preserved(
                *old(self),
                *final(self),
                cmd,
                *old(superstate),
                *final(superstate),
            ),
    {
        let upper_slot: u8 = match self.state {
            CopySubstate::DistanceLengthGreater14Less25(u) => u,
            _ => 0,
        };
        let billing = BillingDesignation::CopyCommand(
            CopySubstate::DistanceLengthGreater14Less25(0),
        );
        let i_dist_slot = get_dist_slot(in_cmd.distance);
        let mut last_nib: u8 = (i_dist_slot & 0xf) as u8;
        let index = if self.cc.num_bytes < 5 {
            self.cc.num_bytes as usize
        } else {
            5
        };
        let nibble_prob = superstate.bk.copy_priors.get(
            CopyCommandNibblePriorType::DistanceLastNib,
            upper_slot as usize,
            index,
            0,
        );
        superstate.coder.get_or_put_nibble(&mut last_nib, nibble_prob, billing);
        if superstate.adapt {
            nibble_prob.blend(last_nib & 0xf, Speed::new(32, 4096));
        }
        let o_dist_slot: u8 = (upper_slot << 4) | last_nib;
        proof {
            assert(upper_slot < 16 && last_nib < 16 ==> ((upper_slot << 4) | last_nib) == 16
                * upper_slot + last_nib) by (bit_vector);
            if !superstate.coder.is_decoder && upper_slot as int == spec_dist_slot(
                in_cmd.distance as int,
            ) / 16 {
                assert(((upper_slot << 4) | last_nib) as u32 == i_dist_slot) by (bit_vector)
                    requires
                        i_dist_slot <= 63 && upper_slot as u32 == i_dist_slot / 16 && last_nib
                            == (i_dist_slot & 0xf) as u8,
                ;
            }
            assert(i_dist_slot <= 63 ==> (i_dist_slot & 0xf) == i_dist_slot % 16)
                by (bit_vector);
        }
        superstate.bk.last_dlen = o_dist_slot;
        if o_dist_slot < 4 {
            self.cc.distance = 1 + o_dist_slot as u32;
            self.state = CopySubstate::FullyDecoded;
        } else if o_dist_slot > 63 {
        
    proof {
        assert forall|cmd: CopyCommand| #[trigger] dec_trace_preserved(
            *old(self),
            *self,
            cmd,
            *old(superstate),
            *superstate,
        ) by {
            if dec_on_track(*old(self), cmd, *old(superstate)) {
                let lzma = old(superstate).bk.prior_algorithm
                    == crate::codec::PriorAlgorithm::Lzma;
                let lru = old(superstate).bk.distance_lru@;
                let r0 = residual_nibbles(
                    old(self).state,
                    old(self).early_mnemonic,
                    cmd,
                    lzma,
                    lru,
                );
                let un0 = old(superstate).coder.nibbles@.skip(
                    old(superstate).coder.pos as int,
                );
                lemma_agree_head(r0, un0);
                lemma_skip_skip(
                    old(superstate).coder.nibbles@,
                    old(superstate).coder.pos as int,
                );
                vstd::arithmetic::power2::lemma2_to64();
                if cmd.distance >= 2 {
                    lemma_floor_log2_bounds((cmd.distance - 1) as nat);
                }
                assert(false);
            }
        }
    }
            // no 32-bit distance has a slot this large
            return Some(
                DivansResult::Failure(ErrMsg::InternalInconsistencyInCopyLenSubstateCode(3)),
            );
        } else {
            let dist_slot = o_dist_slot as u32;
            let footer_bits = dist_slot / 2 - 1;
            let parity = dist_slot % 2;
            let footer_p1_bits = (dist_slot + 1) / 2 - 1;
            let parity2 = (dist_slot + 1) % 2;
            let base1: u64 = ((2 + parity) as u64) << (footer_bits as u64);
            let base2: u64 = ((2 + parity2) as u64) << (footer_p1_bits as u64);
            proof {
                lemma_slot_range_bits(dist_slot);
            }
            let diff: u32 = (base2 - base1 - 1) as u32;
            let logrange = 32 - diff.leading_zeros();
            let seed_remaining = round_up_mod_4(logrange as u8);
            proof {
                if !superstate.coder.is_decoder && upper_slot as int == spec_dist_slot(
                    in_cmd.distance as int,
                ) / 16 {
                    lemma_dist_slot_decomposition(in_cmd.distance as int);
                    let fv = in_cmd.distance as int - spec_slot_base(dist_slot as int) - 1;
                    lemma_mantissa_zero_seed(fv as u32);
                    if (footer_bits as int) < seed_remaining as int {
                        lemma_pow2_strictly_increases(footer_bits as nat, seed_remaining as nat);
                    }
                }
            }
            self.state = CopySubstate::DistanceMantissaNibbles(
                dist_slot,
                0,
                seed_remaining,
                0,
            );
        }
        proof {
            if !old(superstate).coder.is_decoder && in_cmd.distance >= 1 && in_cmd.num_bytes >= 1 && (
            old(superstate).bk.prior_algorithm == crate::codec::PriorAlgorithm::Lzma
                || in_cmd.distance < 0x40000000) && enc_ok(*old(self), *in_cmd, *old(superstate))
            && enc_exact(*old(self), *in_cmd, *old(superstate)) {
                lemma_skip_push(
                    old(superstate).coder.nibbles@,
                    superstate.coder.nibbles@[old(superstate).coder.nibbles@.len() as int],
                );
                if old(superstate).bk.prior_algorithm != crate::codec::PriorAlgorithm::Lzma {
                    let fl = floor_log2(in_cmd.distance as nat) as u32;
                    lemma_u32_pow2_no_overflow(fl as nat);
                    lemma_u32_shl_is_mul(1u32, fl);
                }
                assert(residual_nibbles(
                    old(self).state,
                    old(self).early_mnemonic,
                    *in_cmd,
                    old(superstate).bk.prior_algorithm == crate::codec::PriorAlgorithm::Lzma,
                    old(superstate).bk.distance_lru@,
                ) =~= superstate.coder.nibbles@.skip(
                    old(superstate).coder.nibbles@.len() as int,
                ) + residual_nibbles(
                    self.state,
                    self.early_mnemonic,
                    *in_cmd,
                    old(superstate).bk.prior_algorithm == crate::codec::PriorAlgorithm::Lzma,
                    old(superstate).bk.distance_lru@,
                ));
            }
        }
        proof {
            assert forall|cmd: CopyCommand| #[trigger] dec_trace_preserved(
                *old(self),
                *self,
                cmd,
                *old(superstate),
                *superstate,
            ) by {
                if dec_on_track(*old(self), cmd, *old(superstate)) {
                    let lzma = old(superstate).bk.prior_algorithm
                        == crate::codec::PriorAlgorithm::Lzma;
                    let lru = old(superstate).bk.distance_lru@;
                    let r0 = residual_nibbles(
                        old(self).state,
                        old(self).early_mnemonic,
                        cmd,
                        lzma,
                        lru,
                    );
                    let un0 = old(superstate).coder.nibbles@.skip(
                        old(superstate).coder.pos as int,
                    );
                    lemma_agree_head(r0, un0);
                    lemma_skip_skip(
                        old(superstate).coder.nibbles@,
                        old(superstate).coder.pos as int,
                    );
                    lemma_slot_nibbles_track(cmd, upper_slot, r0[0]);
                    assert(r0.skip(1) =~= residual_nibbles(
                        self.state,
                        self.early_mnemonic,
                        cmd,
                        lzma,
                        lru,
                    ));
                    assert(dec_on_track(*self, cmd, *superstate));
                }
            }
        }
        None
    }

    /// Regime-specific half of the distance-slot low-nibble step.
    #[verifier::rlimit(100)]
    #[verifier::spinoff_prover]
    fn step_distance_length_greater_legacy(
        &mut self,
        superstate: &mut CrossCommandState,
        in_cmd: &CopyCommand,
    ) -> (res: Option<DivansResult>)
        requires
            old(superstate).bk.prior_algorithm == crate::codec::PriorAlgorithm::Legacy,
            old(self).wf(),
            old(self).state matches CopySubstate::DistanceLengthGreater14Less25(_),
            old(superstate).wf(),
            in_cmd.distance >= 1,
            old(superstate).coder.is_decoder ==> old(superstate).coder.pos < old(
                superstate,
            ).coder.nibbles@.len(),
        ensures
            final(self).wf(),
            evolves(*old(superstate), *final(superstate)),
            res is Some ==> res == Some(
                DivansResult::Failure(ErrMsg::InternalInconsistencyInCopyLenSubstateCode(3)),
            ),
            res is None ==> rank_decreases(*old(self), *final(self)),
            enc_preserved(
                *old(self),
                *final(self),
                *in_cmd,
                *old(superstate),
                *final(superstate),
                (res is Some),
            ),
            enc_exact_preserved(
                *old(self),
                *final(self),
                *in_cmd,
                *old(superstate),
                *final(superstate),
            ),
            enc_trace_preserved(
                *old(self),
                *final(self),
                *in_cmd,
                *old(superstate),
                *final(superstate),
            ),
            forall|cmd: CopyCommand| #[trigger] dec_trace_preserved(
                *old(self),
                *final(self),
                cmd,
                *old(superstate),
                *final(superstate),
            ),
    {
        let upper_slot: u8 = match self.state {
            CopySubstate::DistanceLengthGreater14Less25(u) => u,
            _ => 0,
        };
        let billing = BillingDesignation::CopyCommand(
            CopySubstate::DistanceLengthGreater14Less25(0),
        );
        let dlen: u8 = (32 - in_cmd.distance.leading_zeros()) as u8;
        let mut last_nib = dlen.wrapping_sub(15) & 0xf;
        let actual_prior = superstate.bk.get_distance_prior(self.cc.num_bytes);
        let nibble_prob = superstate.bk.copy_priors.get(
            CopyCommandNibblePriorType::DistanceLastNib,
            actual_prior,
            0,
            0,
        );
        superstate.coder.get_or_put_nibble(&mut last_nib, nibble_prob, billing);
        if superstate.adapt {
            nibble_prob.blend(last_nib & 0xf, Speed::rocket());
        }
        superstate.bk.last_dlen = (last_nib + 14) + 1;
        proof {
            lemma_dist_slot_pow2((last_nib + 14) as u32);
        }
        let nbits = last_nib + 14;
        let seed_remaining = round_up_mod_4(nbits);
        let seed = 1u32 << nbits;
        proof {
            if !superstate.coder.is_decoder && in_cmd.distance >= 0x4000 && in_cmd.distance
                < 0x40000000 {
                lemma_leading_zeros_floor_log2(in_cmd.distance);
                lemma_floor_log2_bounds(in_cmd.distance as nat);
                vstd::arithmetic::power2::lemma2_to64();
                let fl = floor_log2(in_cmd.distance as nat) as u32;
                if fl < 14 {
                    lemma_pow2_strictly_increases((fl + 1) as nat, 15);
                    assert(false);
                }
                if fl >= 30 {
                    if fl > 30 {
                        lemma_pow2_strictly_increases(30, fl as nat);
                    }
                    assert(false);
                }
                let dm15 = (dlen - 15) as u8;
                assert(dm15 <= 15 ==> dm15 & 0xf == dm15) by (bit_vector);
                lemma_leading_bit(in_cmd.distance);
                lemma_preseed(in_cmd.distance, fl);
                lemma_shr_zero_iff_below(in_cmd.distance ^ (1u32 << fl), fl);
                if (fl as int) < seed_remaining as int {
                    lemma_pow2_strictly_increases(fl as nat, seed_remaining as nat);
                }
            }
        }
        self.state = CopySubstate::DistanceMantissaNibbles(
            get_dist_slot(seed),
            0,
            seed_remaining,
            seed,
        );
        proof {
            if !old(superstate).coder.is_decoder && in_cmd.distance >= 1 && in_cmd.num_bytes >= 1 && (
            old(superstate).bk.prior_algorithm == crate::codec::PriorAlgorithm::Lzma
                || in_cmd.distance < 0x40000000) && enc_ok(*old(self), *in_cmd, *old(superstate))
            && enc_exact(*old(self), *in_cmd, *old(superstate)) {
                lemma_skip_push(
                    old(superstate).coder.nibbles@,
                    superstate.coder.nibbles@[old(superstate).coder.nibbles@.len() as int],
                );
                if old(superstate).bk.prior_algorithm != crate::codec::PriorAlgorithm::Lzma {
                    let fl = floor_log2(in_cmd.distance as nat) as u32;
                    lemma_u32_pow2_no_overflow(fl as nat);
                    lemma_u32_shl_is_mul(1u32, fl);
                }
                assert(residual_nibbles(
                    old(self).state,
                    old(self).early_mnemonic,
                    *in_cmd,
                    old(superstate).bk.prior_algorithm == crate::codec::PriorAlgorithm::Lzma,
                    old(superstate).bk.distance_lru@,
                ) =~= superstate.coder.nibbles@.skip(
                    old(superstate).coder.nibbles@.len() as int,
                ) + residual_nibbles(
                    self.state,
                    self.early_mnemonic,
                    *in_cmd,
                    old(superstate).bk.prior_algorithm == crate::codec::PriorAlgorithm::Lzma,
                    old(superstate).bk.distance_lru@,
                ));
            }
        }
        proof {
            assert forall|cmd: CopyCommand| #[trigger] dec_trace_preserved(
                *old(self),
                *self,
                cmd,
                *old(superstate),
                *superstate,
            ) by {
                if dec_on_track(*old(self), cmd, *old(superstate)) {
                    let lzma = old(superstate).bk.prior_algorithm
                        == crate::codec::PriorAlgorithm::Lzma;
                    let lru = old(superstate).bk.distance_lru@;
                    let r0 = residual_nibbles(
                        old(self).state,
                        old(self).early_mnemonic,
                        cmd,
                        lzma,
                        lru,
                    );
                    let un0 = old(superstate).coder.nibbles@.skip(
                        old(superstate).coder.pos as int,
                    );
                    lemma_agree_head(r0, un0);
                    lemma_skip_skip(
                        old(superstate).coder.nibbles@,
                        old(superstate).coder.pos as int,
                    );
                    lemma_leading_zeros_floor_log2(cmd.distance);
                    lemma_floor_log2_bounds(cmd.distance as nat);
                    vstd::arithmetic::power2::lemma2_to64();
                    let fl = floor_log2(cmd.distance as nat) as u32;
                    lemma_leading_bit(cmd.distance);
                    lemma_preseed(cmd.distance, fl);
                    lemma_shr_zero_iff_below(cmd.distance ^ (1u32 << fl), fl);
                    lemma_u32_pow2_no_overflow(fl as nat);
                    lemma_u32_shl_is_mul(1u32, fl);
                    if (fl as int) < spec_round_up_mod_4(fl as int) {
                        lemma_pow2_strictly_increases(
                            fl as nat,
                            spec_round_up_mod_4(fl as int) as nat,
                        );
                    }
                    if fl > 14 {
                        lemma_pow2_strictly_increases(14, fl as nat);
                    }
                    assert(r0.skip(1) =~= residual_nibbles(
                        self.state,
                        self.early_mnemonic,
                        cmd,
                        lzma,
                        lru,
                    ));
                    assert(dec_on_track(*self, cmd, *superstate));
                }
            }
        }
        None
    }
    /// Codes the remaining mantissa, footer and align nibbles of the
    /// distance, most significant first, draining the byte buffer after each
    /// nibble; always finishes the command or suspends with all progress
    /// captured in the state.
    fn step_distance_mantissa(
        &mut self,
        superstate: &mut CrossCommandState,
        in_cmd: &CopyCommand,
        output_bytes: &mut Vec<u8>,
        output_cap: usize,
    ) -> (res: Option<DivansResult>)
        requires
            old(self).wf(),
            old(self).state matches CopySubstate::DistanceMantissaNibbles(_, _, _, _),
            old(superstate).wf(),
            old(superstate).coder.is_decoder ==> old(superstate).coder.pos < old(
                superstate,
            ).coder.nibbles@.len(),
        ensures
            final(self).wf(),
            session_io(
                *old(superstate),
                *final(superstate),
                *old(output_bytes),
                *final(output_bytes),
                output_cap,
            ),
            res is Some,
            res == Some(DivansResult::Success) ==> final(self).state
                == CopySubstate::FullyDecoded,
            res matches Some(DivansResult::Failure(m)) ==> m
                == ErrMsg::InternalInconsistencyInCopyLenSubstateCode(4),
            res == Some(DivansResult::NeedsMoreInput) ==> old(superstate).coder.is_decoder
                && final(superstate).coder.pos == final(superstate).coder.nibbles@.len(),
            res == Some(DivansResult::NeedsMoreOutput) ==> !old(superstate).coder.is_decoder
                && final(output_bytes)@.len() >= output_cap,
            enc_preserved(
                *old(self),
                *final(self),
                *in_cmd,
                *old(superstate),
                *final(superstate),
                (res matches Some(DivansResult::Failure(_))),
            ),
            enc_exact_preserved(
                *old(self),
                *final(self),
                *in_cmd,
                *old(superstate),
                *final(superstate),
            ),
            enc_trace_preserved(
                *old(self),
                *final(self),
                *in_cmd,
                *old(superstate),
                *final(superstate),
            ),
            forall|cmd: CopyCommand| #[trigger] dec_trace_preserved(
                *old(self),
                *final(self),
                cmd,
                *old(superstate),
                *final(superstate),
            ),
    {
        if superstate.bk.prior_algorithm.use_lzma_distance_prior() {
            self.step_distance_mantissa_lzma(superstate, in_cmd, output_bytes, output_cap)
        } else {
            self.step_distance_mantissa_legacy(superstate, in_cmd, output_bytes, output_cap)
        }
    }

    /// Regime-specific half of the distance-mantissa step.
    #[verifier::loop_isolation(false)]
    #[verifier::rlimit(100)]
    #[verifier::spinoff_prover]
    fn step_distance_mantissa_lzma(
        &mut self,
        superstate: &mut CrossCommandState,
        in_cmd: &CopyCommand,
        output_bytes: &mut Vec<u8>,
        output_cap: usize,
    ) -> (res: Option<DivansResult>)
        requires
            old(superstate).bk.prior_algorithm == crate::codec::PriorAlgorithm::Lzma,
            old(self).wf(),
            old(self).state matches CopySubstate::DistanceMantissaNibbles(_, _, _, _),
            old(superstate).wf(),
            old(superstate).coder.is_decoder ==> old(superstate).coder.pos < old(
                superstate,
            ).coder.nibbles@.len(),
        ensures
            final(self).wf(),
            session_io(
                *old(superstate),
                *final(superstate),
                *old(output_bytes),
                *final(output_bytes),
                output_cap,
            ),
            res is Some,
            res == Some(DivansResult::Success) ==> final(self).state
                == CopySubstate::FullyDecoded,
            res matches Some(DivansResult::Failure(m)) ==> m
                == ErrMsg::InternalInconsistencyInCopyLenSubstateCode(4),
            res == Some(DivansResult::NeedsMoreInput) ==> old(superstate).coder.is_decoder
                && final(superstate).coder.pos == final(superstate).coder.nibbles@.len(),
            res == Some(DivansResult::NeedsMoreOutput) ==> !old(superstate).coder.is_decoder
                && final(output_bytes)@.len() >= output_cap,
            enc_preserved(
                *old(self),
                *final(self),
                *in_cmd,
                *old(superstate),
                *final(superstate),
                (res matches Some(DivansResult::Failure(_))),
            ),
            enc_exact_preserved(
                *old(self),
                *final(self),
                *in_cmd,
                *old(superstate),
                *final(superstate),
            ),
            enc_trace_preserved(
                *old(self),
                *final(self),
                *in_cmd,
                *old(superstate),
                *final(superstate),
            ),
            forall|cmd: CopyCommand| #[trigger] dec_trace_preserved(
                *old(self),
                *final(self),
                cmd,
                *old(superstate),
                *final(superstate),
            ),
    {
        let ghost pre_super = *superstate;
        let ghost pre_out = *output_bytes;
        let ghost pre_self_g = *old(self);
        let ghost exact = !old(superstate).coder.is_decoder && in_cmd.distance >= 1
            && in_cmd.num_bytes >= 1 && (old(superstate).bk.prior_algorithm
            == crate::codec::PriorAlgorithm::Lzma || in_cmd.distance < 0x40000000) && enc_ok(
            *old(self),
            *in_cmd,
            *old(superstate),
        ) && enc_exact(*old(self), *in_cmd, *old(superstate));
        let ghost lzma0 = old(superstate).bk.prior_algorithm == crate::codec::PriorAlgorithm::Lzma;
        let ghost lru0 = old(superstate).bk.distance_lru@;
        let ghost res0 = residual_nibbles(
            old(self).state,
            old(self).early_mnemonic,
            *in_cmd,
            lzma0,
            lru0,
        );
        let ghost len0 = old(superstate).coder.nibbles@.len() as int;
        let (dist_slot, len_decoded0, len_remaining0, decoded0) = match self.state {
            CopySubstate::DistanceMantissaNibbles(a, b, c, d) => (a, b, c, d),
            _ => (4u32, 0u8, 4u8, 0u32),
        };
        let mut rem = len_remaining0;
        let mut ld = len_decoded0;
        let mut dec = decoded0;
        if dist_slot < 2 {
            // no encoder path reaches mantissa coding from a direct slot
            proof {
                lemma_session_io_refl(*superstate, *output_bytes, output_cap);
                assert forall|cmd: CopyCommand| #[trigger] dec_trace_preserved(
                    *old(self),
                    *self,
                    cmd,
                    *old(superstate),
                    *superstate,
                ) by {
                    if dec_on_track(*old(self), cmd, *old(superstate)) {
                        assert(false);
                    }
                }
            }
            return Some(
                DivansResult::Failure(ErrMsg::InternalInconsistencyInCopyLenSubstateCode(4)),
            );
        }
        let footer_bits = dist_slot / 2 - 1;
        let parity = dist_slot % 2;
        let base: u32 = (2 + parity) << footer_bits;
        proof {
            vstd::arithmetic::power2::lemma2_to64();
            if (footer_bits as nat) < 30 {
                lemma_pow2_strictly_increases(footer_bits as nat, 30);
            }
            vstd::arithmetic::mul::lemma_mul_upper_bound(
                (2 + parity) as int,
                3,
                pow2(footer_bits as nat) as int,
                0x4000_0000,
            );
            lemma_u32_shl_is_mul((2 + parity) as u32, footer_bits);
            assert(base == (2 + parity) * pow2(footer_bits as nat));
            if parity == 0 {
                assert(base == 2 * pow2(footer_bits as nat));
            } else {
                assert(base == 3 * pow2(footer_bits as nat));
            }
            assert(dist_slot < 14 ==> base >= dist_slot);
            assert(base == spec_slot_base(dist_slot as int));
        }
        let dist_reduced = in_cmd.distance.wrapping_sub(base + 1);
        proof {
            if exact {
                assert(dist_reduced == (in_cmd.distance as int - spec_slot_base(
                    dist_slot as int,
                ) - 1) as u32);
                lemma_skip_all(superstate.coder.nibbles@);
                assert(res0 =~= superstate.coder.nibbles@.skip(len0) + mantissa_nibble_seq(
                    dist_reduced,
                    dec,
                    rem as u32,
                ));
            }
        }
        while rem > 0
            invariant
                self.wf(),
                *self == *old(self),
                superstate.wf(),
                session_io(pre_super, *superstate, pre_out, *output_bytes, output_cap),
                rem % 4 == 0,
                rem <= 32,
                ld as int + rem as int == len_decoded0 as int + len_remaining0 as int,
                dist_slot < 14 ==> rem <= 8 && dec < 0x100,
                exact ==> mantissa_inv(dist_reduced, dec, rem as int),
                exact ==> res0 == superstate.coder.nibbles@.skip(len0) + mantissa_nibble_seq(
                    dist_reduced,
                    dec,
                    rem as u32,
                ),
                forall|cmd: CopyCommand| #[trigger] dec_on_track(pre_self_g, cmd, pre_super)
                    ==> ({
                    let v = (cmd.distance as int - spec_slot_base(dist_slot as int)
                        - 1) as u32;
                    &&& mantissa_inv(v, dec, rem as int)
                    &&& stream_agrees(
                        mantissa_nibble_seq(v, dec, rem as u32),
                        superstate.coder.nibbles@.skip(superstate.coder.pos as int),
                    )
                    &&& superstate.coder.pos - pre_super.coder.pos == residual_nibbles(
                        pre_self_g.state,
                        pre_self_g.early_mnemonic,
                        cmd,
                        lzma0,
                        lru0,
                    ).len() - mantissa_nibble_seq(v, dec, rem as u32).len()
                }),
                superstate.coder.is_decoder && rem > 0 ==> superstate.coder.pos
                    < superstate.coder.nibbles@.len(),
            decreases rem,
        {
            let next_len_remaining = rem - 4;
            let last_nib_as_u32 = (dist_reduced ^ dec) >> next_len_remaining;
            let mut last_nib: u8 = (last_nib_as_u32 & 0xf) as u8;
            let sr2 = (next_len_remaining / 4) as usize;
            let ghost mid0 = *superstate;
            let ghost out_mid0 = *output_bytes;
            if dist_slot < 14 {
                let a_idx = (base - dist_slot) as usize + dec as usize;
                let nibble_prob = superstate.bk.copy_priors.get(
                    CopyCommandNibblePriorType::DistanceMantissaNib,
                    a_idx,
                    sr2,
                    0,
                );
                superstate.coder.get_or_put_nibble(
                    &mut last_nib,
                    nibble_prob,
                    BillingDesignation::CopyCommand(
                        CopySubstate::DistanceMantissaNibbles(0, 0, 0, 0),
                    ),
                );
                if superstate.adapt {
                    nibble_prob.blend(last_nib & 0xf, Speed::new(512, 16384));
                }
            } else if sr2 == 0 {
                let nibble_prob = superstate.bk.copy_priors.get(
                    CopyCommandNibblePriorType::DistanceAlignNib,
                    0,
                    0,
                    0,
                );
                superstate.coder.get_or_put_nibble(
                    &mut last_nib,
                    nibble_prob,
                    BillingDesignation::CopyCommand(
                        CopySubstate::DistanceMantissaNibbles(1, 0, 0, 0),
                    ),
                );
                if superstate.adapt {
                    nibble_prob.blend(last_nib & 0xf, Speed::new(128, 16384));
                }
            } else {
                let ld_feature = ((ld as usize) + 3) / 4;
                let nibble_prob = superstate.bk.copy_priors.get(
                    CopyCommandNibblePriorType::DistanceDirectNib,
                    dist_slot as usize - 14,
                    ld_feature,
                    0,
                );
                superstate.coder.get_or_put_nibble(
                    &mut last_nib,
                    nibble_prob,
                    BillingDesignation::CopyCommand(
                        CopySubstate::DistanceMantissaNibbles(2, 0, 0, 0),
                    ),
                );
                if superstate.adapt {
                    nibble_prob.blend(last_nib & 0xf, Speed::new(128, 16384));
                }
            }
            let next_decoded_so_far = dec | ((last_nib as u32) << next_len_remaining);
            proof {
                lemma_session_io_of_evolves(mid0, *superstate, out_mid0, output_cap);
                lemma_session_io_trans(
                    pre_super,
                    mid0,
                    *superstate,
                    pre_out,
                    out_mid0,
                    *output_bytes,
                    output_cap,
                );
                if dist_slot < 14 {
                    assert(next_decoded_so_far < 0x100) by (bit_vector)
                        requires
                            dec < 0x100 && last_nib < 16 && next_len_remaining <= 4
                                && next_decoded_so_far == dec | ((last_nib as u32)
                                << next_len_remaining),
                    ;
                }
                if exact {
                    if rem == 32 {
                        lemma_shr32_zero(dist_reduced ^ dec);
                    } else {
                        lemma_shr_zero_iff_below(dist_reduced ^ dec, rem as u32);
                    }
                    lemma_mantissa_accumulate(
                        dist_reduced,
                        next_len_remaining as u32,
                        rem as u32,
                        dec,
                    );
                    if next_len_remaining > 0 {
                        lemma_shr_zero_iff_below(
                            dist_reduced ^ next_decoded_so_far,
                            next_len_remaining as u32,
                        );
                    }
                    lemma_append_chain(len0, mid0.coder.nibbles@, superstate.coder.nibbles@);
                    lemma_skip_push(
                        mid0.coder.nibbles@,
                        superstate.coder.nibbles@[mid0.coder.nibbles@.len() as int],
                    );
                    assert(res0 =~= superstate.coder.nibbles@.skip(len0)
                        + mantissa_nibble_seq(
                        dist_reduced,
                        next_decoded_so_far,
                        next_len_remaining as u32,
                    ));
                }
                assert forall|cmd: CopyCommand| dec_on_track(
                    pre_self_g,
                    cmd,
                    pre_super,
                ) implies ({
                    let v = (cmd.distance as int - spec_slot_base(dist_slot as int)
                        - 1) as u32;
                    &&& mantissa_inv(v, next_decoded_so_far, next_len_remaining as int)
                    &&& stream_agrees(
                        mantissa_nibble_seq(v, next_decoded_so_far, next_len_remaining as u32),
                        superstate.coder.nibbles@.skip(superstate.coder.pos as int),
                    )
                    &&& superstate.coder.pos - pre_super.coder.pos == residual_nibbles(
                        pre_self_g.state,
                        pre_self_g.early_mnemonic,
                        cmd,
                        lzma0,
                        lru0,
                    ).len() - mantissa_nibble_seq(
                        v,
                        next_decoded_so_far,
                        next_len_remaining as u32,
                    ).len()
                }) by {
                    let v = (cmd.distance as int - spec_slot_base(dist_slot as int)
                        - 1) as u32;
                    let ms = mantissa_nibble_seq(v, dec, rem as u32);
                    let un = mid0.coder.nibbles@.skip(mid0.coder.pos as int);
                    lemma_agree_head(ms, un);
                    lemma_skip_skip(mid0.coder.nibbles@, mid0.coder.pos as int);
                    vstd::arithmetic::power2::lemma2_to64();
                    if rem == 32 {
                        lemma_shr32_zero(v ^ dec);
                    } else {
                        lemma_shr_zero_iff_below(v ^ dec, rem as u32);
                    }
                    lemma_mantissa_accumulate(
                        v,
                        next_len_remaining as u32,
                        rem as u32,
                        dec,
                    );
                    if next_len_remaining > 0 {
                        lemma_shr_zero_iff_below(
                            v ^ next_decoded_so_far,
                            next_len_remaining as u32,
                        );
                    }
                }
            }
            let ghost mid1 = *superstate;
            let ghost out_mid1 = *output_bytes;
            match superstate.drain_or_fill_internal_buffer_cmd(output_bytes, output_cap) {
                DivansResult::Success => {
                    proof {
                        lemma_prefix_refl(mid1.coder.nibbles@);
                        lemma_session_io_trans(
                            pre_super,
                            mid1,
                            *superstate,
                            pre_out,
                            out_mid1,
                            *output_bytes,
                            output_cap,
                        );
                    }
                },
                need_something => {
                    if next_len_remaining == 0 {
                        self.cc.distance = next_decoded_so_far.wrapping_add(base + 1);
                        self.state = CopySubstate::FullyDecoded;
                    } else {
                        self.state = CopySubstate::DistanceMantissaNibbles(
                            dist_slot,
                            ld + 4,
                            next_len_remaining,
                            next_decoded_so_far,
                        );
                    }
                    proof {
                        lemma_prefix_refl(mid1.coder.nibbles@);
                        lemma_session_io_trans(
                            pre_super,
                            mid1,
                            *superstate,
                            pre_out,
                            out_mid1,
                            *output_bytes,
                            output_cap,
                        );
                        if exact {
                            if next_len_remaining == 0 {
                                assert(mantissa_nibble_seq(
                                    dist_reduced,
                                    next_decoded_so_far,
                                    0,
                                ) == Seq::<u8>::empty());
                            }
                            assert(res0 =~= superstate.coder.nibbles@.skip(len0)
                                + residual_nibbles(
                                self.state,
                                self.early_mnemonic,
                                *in_cmd,
                                lzma0,
                                lru0,
                            ));
                        }
                        assert forall|cmd: CopyCommand| #[trigger] dec_trace_preserved(
                            pre_self_g,
                            *self,
                            cmd,
                            pre_super,
                            *superstate,
                        ) by {
                            if dec_on_track(pre_self_g, cmd, pre_super) {
                                let v = (cmd.distance as int - spec_slot_base(
                                    dist_slot as int,
                                ) - 1) as u32;
                                vstd::arithmetic::power2::lemma2_to64();
                                if next_len_remaining == 0 {
                                    lemma_xor_zero(v, next_decoded_so_far);
                                    assert(mantissa_nibble_seq(v, next_decoded_so_far, 0)
                                        == Seq::<u8>::empty());
                                    lemma_agree_empty(
                                        superstate.coder.nibbles@.skip(
                                            superstate.coder.pos as int,
                                        ),
                                    );
                                }
                                assert(dec_on_track(*self, cmd, *superstate));
                            }
                        }
                    }
                    return Some(need_something);
                },
            }
            ld = ld + 4;
            dec = next_decoded_so_far;
            rem = next_len_remaining;
        }
        proof {
            if exact {
                lemma_xor_zero(dist_reduced, dec);
                assert(mantissa_nibble_seq(dist_reduced, dec, 0) == Seq::<u8>::empty());
                assert(res0 =~= superstate.coder.nibbles@.skip(len0));
            }
        }
        self.cc.distance = dec.wrapping_add(base + 1);
        proof {
            assert forall|cmd: CopyCommand| dec_on_track(pre_self_g, cmd, pre_super) implies ({
                &&& self.cc.distance == cmd.distance
                &&& self.cc.num_bytes == cmd.num_bytes
                &&& superstate.coder.pos - pre_super.coder.pos == residual_nibbles(
                    pre_self_g.state,
                    pre_self_g.early_mnemonic,
                    cmd,
                    lzma0,
                    lru0,
                ).len()
            }) by {
                let v = (cmd.distance as int - spec_slot_base(dist_slot as int) - 1) as u32;
                vstd::arithmetic::power2::lemma2_to64();
                lemma_xor_zero(v, dec);
                assert(mantissa_nibble_seq(v, dec, 0) == Seq::<u8>::empty());
            }
        }
        self.state = CopySubstate::FullyDecoded;
        proof {
            if exact {
                assert(res0 =~= superstate.coder.nibbles@.skip(len0) + residual_nibbles(
                    self.state,
                    self.early_mnemonic,
                    *in_cmd,
                    lzma0,
                    lru0,
                ));
            }
            assert forall|cmd: CopyCommand| #[trigger] dec_trace_preserved(
                pre_self_g,
                *self,
                cmd,
                pre_super,
                *superstate,
            ) by {
                if dec_on_track(pre_self_g, cmd, pre_super) {
                    lemma_agree_empty(
                        superstate.coder.nibbles@.skip(superstate.coder.pos as int),
                    );
                    assert(dec_on_track(*self, cmd, *superstate));
                }
            }
        }
        Some(DivansResult::Success)
    }


    /// Regime-specific half of the distance-mantissa step.
    #[verifier::loop_isolation(false)]
    #[verifier::rlimit(100)]
    #[verifier::spinoff_prover]
    fn step_distance_mantissa_legacy(
        &mut self,
        superstate: &mut CrossCommandState,
        in_cmd: &CopyCommand,
        output_bytes: &mut Vec<u8>,
        output_cap: usize,
    ) -> (res: Option<DivansResult>)
        requires
            old(superstate).bk.prior_algorithm == crate::codec::PriorAlgorithm::Legacy,
            old(self).wf(),
            old(self).state matches CopySubstate::DistanceMantissaNibbles(_, _, _, _),
            old(superstate).wf(),
            old(superstate).coder.is_decoder ==> old(superstate).coder.pos < old(
                superstate,
            ).coder.nibbles@.len(),
        ensures
            final(self).wf(),
            session_io(
                *old(superstate),
                *final(superstate),
                *old(output_bytes),
                *final(output_bytes),
                output_cap,
            ),
            res is Some,
            res == Some(DivansResult::Success) ==> final(self).state
                == CopySubstate::FullyDecoded,
            res matches Some(DivansResult::Failure(m)) ==> m
                == ErrMsg::InternalInconsistencyInCopyLenSubstateCode(4),
            res == Some(DivansResult::NeedsMoreInput) ==> old(superstate).coder.is_decoder
                && final(superstate).coder.pos == final(superstate).coder.nibbles@.len(),
            res == Some(DivansResult::NeedsMoreOutput) ==> !old(superstate).coder.is_decoder
                && final(output_bytes)@.len() >= output_cap,
            enc_preserved(
                *old(self),
                *final(self),
                *in_cmd,
                *old(superstate),
                *final(superstate),
                (res matches Some(DivansResult::Failure(_))),
            ),
            enc_exact_preserved(
                *old(self),
                *final(self),
                *in_cmd,
                *old(superstate),
                *final(superstate),
            ),
            enc_trace_preserved(
                *old(self),
                *final(self),
                *in_cmd,
                *old(superstate),
                *final(superstate),
            ),
            forall|cmd: CopyCommand| #[trigger] dec_trace_preserved(
                *old(self),
                *final(self),
                cmd,
                *old(superstate),
                *final(superstate),
            ),
    {
        let ghost pre_super = *superstate;
        let ghost pre_out = *output_bytes;
        let ghost pre_self_g = *old(self);
        let ghost exact = !old(superstate).coder.is_decoder && in_cmd.distance >= 1
            && in_cmd.num_bytes >= 1 && (old(superstate).bk.prior_algorithm
            == crate::codec::PriorAlgorithm::Lzma || in_cmd.distance < 0x40000000) && enc_ok(
            *old(self),
            *in_cmd,
            *old(superstate),
        ) && enc_exact(*old(self), *in_cmd, *old(superstate));
        let ghost lzma0 = old(superstate).bk.prior_algorithm == crate::codec::PriorAlgorithm::Lzma;
        let ghost lru0 = old(superstate).bk.distance_lru@;
        let ghost res0 = residual_nibbles(
            old(self).state,
            old(self).early_mnemonic,
            *in_cmd,
            lzma0,
            lru0,
        );
        let ghost len0 = old(superstate).coder.nibbles@.len() as int;
        let (dist_slot, len_decoded0, len_remaining0, decoded0) = match self.state {
            CopySubstate::DistanceMantissaNibbles(a, b, c, d) => (a, b, c, d),
            _ => (4u32, 0u8, 4u8, 0u32),
        };
        let mut rem = len_remaining0;
        let mut ld = len_decoded0;
        let mut dec = decoded0;
        proof {
            if exact {
                lemma_skip_all(superstate.coder.nibbles@);
                assert(res0 =~= superstate.coder.nibbles@.skip(len0) + mantissa_nibble_seq(
                    in_cmd.distance,
                    dec,
                    rem as u32,
                ));
            }
        }
        while rem > 0
            invariant
                self.wf(),
                *self == *old(self),
                superstate.wf(),
                session_io(pre_super, *superstate, pre_out, *output_bytes, output_cap),
                rem % 4 == 0,
                rem <= 32,
                ld as int + rem as int == len_decoded0 as int + len_remaining0 as int,
                dist_slot < 14 ==> rem <= 8 && dec < 0x100,
                exact ==> mantissa_inv(in_cmd.distance, dec, rem as int),
                exact ==> res0 == superstate.coder.nibbles@.skip(len0) + mantissa_nibble_seq(
                    in_cmd.distance,
                    dec,
                    rem as u32,
                ),
                forall|cmd: CopyCommand| #[trigger] dec_on_track(pre_self_g, cmd, pre_super)
                    ==> ({
                    &&& mantissa_inv(cmd.distance, dec, rem as int)
                    &&& stream_agrees(
                        mantissa_nibble_seq(cmd.distance, dec, rem as u32),
                        superstate.coder.nibbles@.skip(superstate.coder.pos as int),
                    )
                    &&& superstate.coder.pos - pre_super.coder.pos == residual_nibbles(
                        pre_self_g.state,
                        pre_self_g.early_mnemonic,
                        cmd,
                        lzma0,
                        lru0,
                    ).len() - mantissa_nibble_seq(cmd.distance, dec, rem as u32).len()
                }),
                superstate.coder.is_decoder && rem > 0 ==> superstate.coder.pos
                    < superstate.coder.nibbles@.len(),
            decreases rem,
        {
            let next_len_remaining = rem - 4;
            let actual_prior = superstate.bk.get_distance_prior(self.cc.num_bytes);
            let last_nib_as_u32 = (in_cmd.distance ^ dec) >> next_len_remaining;
            let mut last_nib: u8 = (last_nib_as_u32 & 0xf) as u8;
            let index = if ld == 0 {
                ((superstate.bk.last_dlen % 4) + 1) as usize
            } else {
                0
            };
            let speed_inc: u16 = if index < 2 {
                4
            } else {
                64
            };
            let ghost mid0 = *superstate;
            let ghost out_mid0 = *output_bytes;
            let nibble_prob = superstate.bk.copy_priors.get(
                CopyCommandNibblePriorType::DistanceMantissaNib,
                actual_prior,
                index,
                0,
            );
            superstate.coder.get_or_put_nibble(
                &mut last_nib,
                nibble_prob,
                BillingDesignation::CopyCommand(
                    CopySubstate::DistanceMantissaNibbles(0, 0, 0, 0),
                ),
            );
            if superstate.adapt {
                nibble_prob.blend(last_nib & 0xf, Speed::new(speed_inc, 0x4000));
            }
            let next_decoded_so_far = dec | ((last_nib as u32) << next_len_remaining);
            proof {
                lemma_session_io_of_evolves(mid0, *superstate, out_mid0, output_cap);
                lemma_session_io_trans(
                    pre_super,
                    mid0,
                    *superstate,
                    pre_out,
                    out_mid0,
                    *output_bytes,
                    output_cap,
                );
                if dist_slot < 14 {
                    assert(next_decoded_so_far < 0x100) by (bit_vector)
                        requires
                            dec < 0x100 && last_nib < 16 && next_len_remaining <= 4
                                && next_decoded_so_far == dec | ((last_nib as u32)
                                << next_len_remaining),
                    ;
                }
                if exact {
                    vstd::arithmetic::power2::lemma2_to64();
                    if rem == 32 {
                        lemma_shr32_zero(in_cmd.distance ^ dec);
                    } else {
                        lemma_shr_zero_iff_below(in_cmd.distance ^ dec, rem as u32);
                    }
                    lemma_mantissa_accumulate(
                        in_cmd.distance,
                        next_len_remaining as u32,
                        rem as u32,
                        dec,
                    );
                    if next_len_remaining > 0 {
                        lemma_shr_zero_iff_below(
                            in_cmd.distance ^ next_decoded_so_far,
                            next_len_remaining as u32,
                        );
                    }
                    lemma_append_chain(len0, mid0.coder.nibbles@, superstate.coder.nibbles@);
                    lemma_skip_push(
                        mid0.coder.nibbles@,
                        superstate.coder.nibbles@[mid0.coder.nibbles@.len() as int],
                    );
                    assert(res0 =~= superstate.coder.nibbles@.skip(len0)
                        + mantissa_nibble_seq(
                        in_cmd.distance,
                        next_decoded_so_far,
                        next_len_remaining as u32,
                    ));
                }
                assert forall|cmd: CopyCommand| dec_on_track(
                    pre_self_g,
                    cmd,
                    pre_super,
                ) implies ({
                    &&& mantissa_inv(cmd.distance, next_decoded_so_far, next_len_remaining as int)
                    &&& stream_agrees(
                        mantissa_nibble_seq(
                            cmd.distance,
                            next_decoded_so_far,
                            next_len_remaining as u32,
                        ),
                        superstate.coder.nibbles@.skip(superstate.coder.pos as int),
                    )
                    &&& superstate.coder.pos - pre_super.coder.pos == residual_nibbles(
                        pre_self_g.state,
                        pre_self_g.early_mnemonic,
                        cmd,
                        lzma0,
                        lru0,
                    ).len() - mantissa_nibble_seq(
                        cmd.distance,
                        next_decoded_so_far,
                        next_len_remaining as u32,
                    ).len()
                }) by {
                    let ms = mantissa_nibble_seq(cmd.distance, dec, rem as u32);
                    let un = mid0.coder.nibbles@.skip(mid0.coder.pos as int);
                    lemma_agree_head(ms, un);
                    lemma_skip_skip(mid0.coder.nibbles@, mid0.coder.pos as int);
                    vstd::arithmetic::power2::lemma2_to64();
                    if rem == 32 {
                        lemma_shr32_zero(cmd.distance ^ dec);
                    } else {
                        lemma_shr_zero_iff_below(cmd.distance ^ dec, rem as u32);
                    }
                    lemma_mantissa_accumulate(
                        cmd.distance,
                        next_len_remaining as u32,
                        rem as u32,
                        dec,
                    );
                    if next_len_remaining > 0 {
                        lemma_shr_zero_iff_below(
                            cmd.distance ^ next_decoded_so_far,
                            next_len_remaining as u32,
                        );
                    }
                }
            }
            let ghost mid1 = *superstate;
            let ghost out_mid1 = *output_bytes;
            match superstate.drain_or_fill_internal_buffer_cmd(output_bytes, output_cap) {
                DivansResult::Success => {
                    proof {
                        lemma_prefix_refl(mid1.coder.nibbles@);
                        lemma_session_io_trans(
                            pre_super,
                            mid1,
                            *superstate,
                            pre_out,
                            out_mid1,
                            *output_bytes,
                            output_cap,
                        );
                    }
                },
                need_something => {
                    if next_len_remaining == 0 {
                        self.cc.distance = next_decoded_so_far;
                        self.state = CopySubstate::FullyDecoded;
                    } else {
                        self.state = CopySubstate::DistanceMantissaNibbles(
                            dist_slot,
                            ld + 4,
                            next_len_remaining,
                            next_decoded_so_far,
                        );
                    }
                    proof {
                        lemma_prefix_refl(mid1.coder.nibbles@);
                        lemma_session_io_trans(
                            pre_super,
                            mid1,
                            *superstate,
                            pre_out,
                            out_mid1,
                            *output_bytes,
                            output_cap,
                        );
                        if exact {
                            if next_len_remaining == 0 {
                                assert(mantissa_nibble_seq(
                                    in_cmd.distance,
                                    next_decoded_so_far,
                                    0,
                                ) == Seq::<u8>::empty());
                            }
                            assert(res0 =~= superstate.coder.nibbles@.skip(len0)
                                + residual_nibbles(
                                self.state,
                                self.early_mnemonic,
                                *in_cmd,
                                lzma0,
                                lru0,
                            ));
                        }
                        assert forall|cmd: CopyCommand| #[trigger] dec_trace_preserved(
                            pre_self_g,
                            *self,
                            cmd,
                            pre_super,
                            *superstate,
                        ) by {
                            if dec_on_track(pre_self_g, cmd, pre_super) {
                                vstd::arithmetic::power2::lemma2_to64();
                                if next_len_remaining == 0 {
                                    lemma_xor_zero(cmd.distance, next_decoded_so_far);
                                    assert(mantissa_nibble_seq(
                                        cmd.distance,
                                        next_decoded_so_far,
                                        0,
                                    ) == Seq::<u8>::empty());
                                    lemma_agree_empty(
                                        superstate.coder.nibbles@.skip(
                                            superstate.coder.pos as int,
                                        ),
                                    );
                                }
                                assert(dec_on_track(*self, cmd, *superstate));
                            }
                        }
                    }
                    return Some(need_something);
                },
            }
            ld = ld + 4;
            dec = next_decoded_so_far;
            rem = next_len_remaining;
        }
        proof {
            if exact {
                vstd::arithmetic::power2::lemma2_to64();
                lemma_xor_zero(in_cmd.distance, dec);
                assert(mantissa_nibble_seq(in_cmd.distance, dec, 0) == Seq::<u8>::empty());
                assert(res0 =~= superstate.coder.nibbles@.skip(len0));
            }
        }
        self.cc.distance = dec;
        proof {
            assert forall|cmd: CopyCommand| dec_on_track(pre_self_g, cmd, pre_super) implies ({
                &&& self.cc.distance == cmd.distance
                &&& self.cc.num_bytes == cmd.num_bytes
                &&& superstate.coder.pos - pre_super.coder.pos == residual_nibbles(
                    pre_self_g.state,
                    pre_self_g.early_mnemonic,
                    cmd,
                    lzma0,
                    lru0,
                ).len()
            }) by {
                vstd::arithmetic::power2::lemma2_to64();
                lemma_xor_zero(cmd.distance, dec);
                assert(mantissa_nibble_seq(cmd.distance, dec, 0) == Seq::<u8>::empty());
            }
        }
        self.state = CopySubstate::FullyDecoded;
        proof {
            if exact {
                assert(res0 =~= superstate.coder.nibbles@.skip(len0) + residual_nibbles(
                    self.state,
                    self.early_mnemonic,
                    *in_cmd,
                    lzma0,
                    lru0,
                ));
            }
            assert forall|cmd: CopyCommand| #[trigger] dec_trace_preserved(
                pre_self_g,
                *self,
                cmd,
                pre_super,
                *superstate,
            ) by {
                if dec_on_track(pre_self_g, cmd, pre_super) {
                    lemma_agree_empty(
                        superstate.coder.nibbles@.skip(superstate.coder.pos as int),
                    );
                    assert(dec_on_track(*self, cmd, *superstate));
                }
            }
        }
        Some(DivansResult::Success)
    }


    /// Encodes (command known) or decodes (command being reconstructed) one
    /// copy command against the shared session, producing or consuming
    /// exactly the nibbles that represent it and adapting the prior tables
    /// as it goes. Returns success once the command is fully processed, a
    /// suspension signal when the caller must drain output or supply input
    /// before re-invoking with the same state, or a fatal failure. A command
    /// with distance zero is rejected before any coding and nothing is
    /// mutated. The machine is restartable: after a suspension all progress
    /// is captured in `self`, and re-invocation resumes without re-coding
    /// any nibble.
    ///
    /// For an encoder started from `begin` on a valid command, coding never
    /// fails, the nibbles appended to the coder are exactly the command's
    /// canonical sequence (`spec_copy_nibbles`, see
    /// `lemma_encode_emits_canonical`), and at success the command the
    /// machine has re-derived from its own coded nibbles is exactly the
    /// command that was encoded. For a decoder whose unconsumed input agrees
    /// with the canonical nibbles of a valid command, every invocation stays
    /// on that command's trajectory and consumes exactly its nibbles, so at
    /// success the reconstructed command is that command (see
    /// `dec_trace_preserved` and `lemma_decode_reconstructs_canonical`);
    /// together the two directions give the encode-then-decode round trip.
    /// In the legacy regime the distance must be below `2^30`: the legacy
    /// distance-length code carries at most 30 bits, so larger distances do
    /// not fit its wire format.
    #[verifier::loop_isolation(false)]
    #[verifier::rlimit(100)]
    #[verifier::spinoff_prover]
    pub fn encode_or_decode(
        &mut self,
        superstate: &mut CrossCommandState,
        in_cmd: &CopyCommand,
        output_bytes: &mut Vec<u8>,
        output_cap: usize,
    ) -> (res: DivansResult)
        requires
            old(self).wf(),
            old(superstate).wf(),
            old(superstate).bk.prior_algorithm == crate::codec::PriorAlgorithm::Lzma
                || in_cmd.distance < 0x40000000,
        ensures
            final(self).wf(),
            final(superstate).wf(),
            session_io(
                *old(superstate),
                *final(superstate),
                *old(output_bytes),
                *final(output_bytes),
                output_cap,
            ),
            !old(superstate).adapt ==> priors_preserved(*old(superstate), *final(superstate)),
            old(self).state == CopySubstate::FullyDecoded && in_cmd.distance >= 1 ==> res
                == DivansResult::Success && *final(self) == *old(self) && *final(superstate)
                == *old(superstate) && *final(output_bytes) == *old(output_bytes),
            old(superstate).coder.is_decoder && old(self).state == CopySubstate::CountLengthFirst
                && old(superstate).bk.prior_algorithm == crate::codec::PriorAlgorithm::Lzma
                && in_cmd.distance >= 1 && old(superstate).coder.pos
                < old(superstate).coder.nibbles@.len()
                && old(superstate).coder.nibbles@[old(superstate).coder.pos as int] == 10 ==> res
                == DivansResult::Failure(ErrMsg::InternalInconsistencyInCopyLenSubstateCode(0)),
            old(superstate).coder.is_decoder && old(self).state
                == CopySubstate::CountLengthGreater18Less25 && old(superstate).bk.prior_algorithm
                == crate::codec::PriorAlgorithm::Lzma && in_cmd.distance >= 1
                && old(superstate).coder.pos < old(superstate).coder.nibbles@.len()
                && old(superstate).coder.nibbles@[old(superstate).coder.pos as int] == 10 ==> res
                == DivansResult::Failure(ErrMsg::InternalInconsistencyInCopyLenSubstateCode(1)),
            old(superstate).coder.is_decoder && old(self).state
                == CopySubstate::DistanceLengthMnemonic && old(self).early_mnemonic != 0xfe
                && old(self).early_mnemonic != 0xfd && in_cmd.distance >= 1
                && old(superstate).coder.pos < old(superstate).coder.nibbles@.len()
                && old(superstate).coder.nibbles@[old(superstate).coder.pos as int] < 15
                && crate::mnemonic::spec_mnemonic_distance(
                old(superstate).bk.distance_lru@,
                old(superstate).coder.nibbles@[old(superstate).coder.pos as int] as int,
            ) == 0 ==> res == DivansResult::Failure(ErrMsg::CopyDistanceMnemonicCodeBad(0, 0)),
            old(superstate).coder.is_decoder && old(self).state == CopySubstate::CountDecoded
                && old(self).early_mnemonic <= 14 && in_cmd.distance >= 1
                && old(superstate).coder.pos < old(superstate).coder.nibbles@.len()
                && crate::mnemonic::spec_mnemonic_distance(
                old(superstate).bk.distance_lru@,
                old(self).early_mnemonic as int,
            ) == 0 ==> res == DivansResult::Failure(ErrMsg::CopyDistanceMnemonicCodeBad(0, 0)),
            in_cmd.distance == 0 ==> res == DivansResult::Failure(ErrMsg::Distance0NotAllowed)
                && *final(self) == *old(self) && *final(superstate) == *old(superstate)
                && *final(output_bytes) == *old(output_bytes),
            res == DivansResult::Success ==> final(self).state == CopySubstate::FullyDecoded,
            old(superstate).coder.is_decoder ==> res != DivansResult::NeedsMoreOutput,
            !old(superstate).coder.is_decoder ==> res != DivansResult::NeedsMoreInput,
            res == DivansResult::NeedsMoreInput ==> final(superstate).coder.pos
                == final(superstate).coder.nibbles@.len(),
            res == DivansResult::NeedsMoreOutput ==> final(output_bytes)@.len() >= output_cap,
            enc_preserved(
                *old(self),
                *final(self),
                *in_cmd,
                *old(superstate),
                *final(superstate),
                (res matches DivansResult::Failure(_)),
            ),
            enc_exact_preserved(
                *old(self),
                *final(self),
                *in_cmd,
                *old(superstate),
                *final(superstate),
            ),
            enc_trace_preserved(
                *old(self),
                *final(self),
                *in_cmd,
                *old(superstate),
                *final(superstate),
            ),
            forall|cmd: CopyCommand| #[trigger] dec_trace_preserved(
                *old(self),
                *final(self),
                cmd,
                *old(superstate),
                *final(superstate),
            ),
            !old(superstate).coder.is_decoder && in_cmd.distance >= 1 && in_cmd.num_bytes >= 1 && (
            old(superstate).bk.prior_algorithm == crate::codec::PriorAlgorithm::Lzma
                || in_cmd.distance < 0x40000000) && enc_ok(*old(self), *in_cmd, *old(superstate))
                && enc_exact(*old(self), *in_cmd, *old(superstate)) && res
                == DivansResult::Success ==> final(self).cc == *in_cmd,
    {
        let dlen: u8 = (32 - in_cmd.distance.leading_zeros()) as u8;
        if dlen == 0 {
            // not allowed to copy from a distance of zero
            proof {
                lemma_session_io_refl(*superstate, *output_bytes, output_cap);
                assert forall|cmd: CopyCommand| #[trigger] dec_trace_preserved(
                    *old(self),
                    *self,
                    cmd,
                    *old(superstate),
                    *superstate,
                ) by {}
            }
            return DivansResult::Failure(ErrMsg::Distance0NotAllowed);
        }
        let ghost pre_super = *superstate;
        let ghost pre_out = *output_bytes;
        let ghost pre_self = *self;
        let ghost tr0 = !pre_super.coder.is_decoder && in_cmd.distance >= 1 && in_cmd.num_bytes
            >= 1 && (pre_super.bk.prior_algorithm == crate::codec::PriorAlgorithm::Lzma
            || in_cmd.distance < 0x40000000) && enc_ok(pre_self, *in_cmd, pre_super) && enc_exact(
            pre_self,
            *in_cmd,
            pre_super,
        );
        let ghost lzma0 = pre_super.bk.prior_algorithm == crate::codec::PriorAlgorithm::Lzma;
        let ghost lru0 = pre_super.bk.distance_lru@;
        let ghost res0 = residual_nibbles(
            pre_self.state,
            pre_self.early_mnemonic,
            *in_cmd,
            lzma0,
            lru0,
        );
        let ghost len0 = pre_super.coder.nibbles@.len() as int;
        proof {
            lemma_skip_all(pre_super.coder.nibbles@);
            assert(res0 =~= pre_super.coder.nibbles@.skip(len0) + res0);
            assert forall|cmd: CopyCommand| #[trigger] dec_trace_preserved(
                pre_self,
                pre_self,
                cmd,
                pre_super,
                pre_super,
            ) by {}
        }
        let ghost first_exit = pre_self.state == CopySubstate::FullyDecoded || (
        pre_super.coder.is_decoder && pre_super.coder.pos < pre_super.coder.nibbles@.len() && {
            let head = pre_super.coder.nibbles@[pre_super.coder.pos as int];
            ||| (pre_self.state == CopySubstate::CountLengthFirst && pre_super.bk.prior_algorithm
                == crate::codec::PriorAlgorithm::Lzma && head == 10)
            ||| (pre_self.state == CopySubstate::CountLengthGreater18Less25
                && pre_super.bk.prior_algorithm == crate::codec::PriorAlgorithm::Lzma && head
                == 10)
            ||| (pre_self.state == CopySubstate::DistanceLengthMnemonic && pre_self.early_mnemonic
                != 0xfe && pre_self.early_mnemonic != 0xfd && head < 15
                && crate::mnemonic::spec_mnemonic_distance(
                pre_super.bk.distance_lru@,
                head as int,
            ) == 0)
            ||| (pre_self.state == CopySubstate::CountDecoded && pre_self.early_mnemonic <= 14
                && crate::mnemonic::spec_mnemonic_distance(
                pre_super.bk.distance_lru@,
                pre_self.early_mnemonic as int,
            ) == 0)
        });
        loop
            invariant
                self.wf(),
                superstate.wf(),
                session_io(pre_super, *superstate, pre_out, *output_bytes, output_cap),
                enc_preserved(pre_self, *self, *in_cmd, pre_super, *superstate, false),
                enc_exact_preserved(pre_self, *self, *in_cmd, pre_super, *superstate),
                first_exit ==> *self == pre_self && *superstate == pre_super && *output_bytes
                    == pre_out,
                tr0 ==> res0 == superstate.coder.nibbles@.skip(len0) + residual_nibbles(
                    self.state,
                    self.early_mnemonic,
                    *in_cmd,
                    lzma0,
                    lru0,
                ),
                forall|cmd: CopyCommand| #[trigger] dec_trace_preserved(
                    pre_self,
                    *self,
                    cmd,
                    pre_super,
                    *superstate,
                ),
            decreases substate_rank(self.state, self.early_mnemonic), substate_sub_rank(self.state),
        {
            if matches!(self.state, CopySubstate::FullyDecoded) {
                return DivansResult::Success;
            }
            let ghost it_super = *superstate;
            let ghost it_out = *output_bytes;
            match superstate.drain_or_fill_internal_buffer_cmd(output_bytes, output_cap) {
                DivansResult::Success => {
                    proof {
                        lemma_prefix_refl(it_super.coder.nibbles@);
                        lemma_session_io_trans(
                            pre_super,
                            it_super,
                            *superstate,
                            pre_out,
                            it_out,
                            *output_bytes,
                            output_cap,
                        );
                    }
                },
                need_something => {
                    proof {
                        lemma_prefix_refl(it_super.coder.nibbles@);
                        lemma_session_io_trans(
                            pre_super,
                            it_super,
                            *superstate,
                            pre_out,
                            it_out,
                            *output_bytes,
                            output_cap,
                        );
                    }
                    return need_something;
                },
            }
            let ghost st_super = *superstate;
            let ghost st_out = *output_bytes;
            let ghost st_self = *self;
            let step_res: Option<DivansResult> = match self.state {
                CopySubstate::Begin => self.step_begin(superstate, in_cmd),
                CopySubstate::CountSmall => self.step_count_small(superstate, in_cmd),
                CopySubstate::CountLengthFirst => self.step_count_length_first(
                    superstate,
                    in_cmd,
                ),
                CopySubstate::CountLengthGreater18Less25 => self.step_count_length_greater(
                    superstate,
                    in_cmd,
                ),
                CopySubstate::CountMantissaNibbles(_, _, _) => self.step_count_mantissa(
                    superstate,
                    in_cmd,
                ),
                CopySubstate::CountDecoded => self.step_count_decoded(superstate, in_cmd),
                CopySubstate::DistanceLengthMnemonic => self.step_distance_length_mnemonic(
                    superstate,
                    in_cmd,
                ),
                CopySubstate::DistanceLengthFirst => self.step_distance_length_first(
                    superstate,
                    in_cmd,
                ),
                CopySubstate::DistanceLengthGreater14Less25(_) => self.step_distance_length_greater(
                    superstate,
                    in_cmd,
                ),
                CopySubstate::DistanceMantissaNibbles(_, _, _, _) => self.step_distance_mantissa(
                    superstate,
                    in_cmd,
                    output_bytes,
                    output_cap,
                ),
                CopySubstate::FullyDecoded => {
                    return DivansResult::Success;
                },
            };
            proof {
                if !session_io(st_super, *superstate, st_out, *output_bytes, output_cap) {
                    lemma_session_io_of_evolves(st_super, *superstate, st_out, output_cap);
                }
                lemma_session_io_trans(
                    pre_super,
                    st_super,
                    *superstate,
                    pre_out,
                    st_out,
                    *output_bytes,
                    output_cap,
                );
                if tr0 {
                    lemma_append_chain(len0, st_super.coder.nibbles@, superstate.coder.nibbles@);
                    assert(res0 =~= superstate.coder.nibbles@.skip(len0) + residual_nibbles(
                        self.state,
                        self.early_mnemonic,
                        *in_cmd,
                        lzma0,
                        lru0,
                    ));
                }
                assert forall|cmd: CopyCommand| #[trigger] dec_trace_preserved(
                    pre_self,
                    *self,
                    cmd,
                    pre_super,
                    *superstate,
                ) by {
                    if dec_on_track(pre_self, cmd, pre_super) {
                        assert(dec_trace_preserved(pre_self, st_self, cmd, pre_super, st_super));
                        assert(dec_trace_preserved(st_self, *self, cmd, st_super, *superstate));
                    }
                }
            }
            match step_res {
                Some(r) => {
                    return r;
                },
                None => {},
            }
        }
    }
}

} // verus!
