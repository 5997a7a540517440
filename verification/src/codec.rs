//! Cross-command shared state: per-stream bookkeeping shared by all command
//! coders (block type, recent length/distance classes, the prior-algorithm
//! mode, the distance cache and the prior tables), together with the helper
//! that drains or fills the coder's byte buffer against the caller-supplied
//! cursor — the sole suspension gate.

use crate::interface::DivansResult;
use crate::mnemonic;
use crate::priors::CopyPriors;
use crate::probability::{packed, NibbleCoder};
use vstd::prelude::*;

verus! {

/// The runtime-selected coding regime: the legacy byte-index-context scheme,
/// or the alternate scheme with different context keys and shortcut
/// thresholds. Both are bit-compatible between encoder and decoder for the
/// same mode.
#[derive(Copy, Clone, Debug, PartialEq, Eq, Structural)]
pub enum PriorAlgorithm {
    Legacy,
    Lzma,
}

impl PriorAlgorithm {
    /// Whether distance coding is attempted before length coding.
    pub fn use_lzma_distance_order(&self) -> (r: bool)
        ensures
            r == (*self == PriorAlgorithm::Lzma),
    {
        match *self {
            PriorAlgorithm::Lzma => true,
            PriorAlgorithm::Legacy => false,
        }
    }

    /// Whether the alternate length-coding contexts and shortcuts are used.
    pub fn use_lzma_copy_prior(&self) -> (r: bool)
        ensures
            r == (*self == PriorAlgorithm::Lzma),
    {
        match *self {
            PriorAlgorithm::Lzma => true,
            PriorAlgorithm::Legacy => false,
        }
    }

    /// Whether the alternate distance-slot coding contexts are used.
    pub fn use_lzma_distance_prior(&self) -> (r: bool)
        ensures
            r == (*self == PriorAlgorithm::Lzma),
    {
        match *self {
            PriorAlgorithm::Lzma => true,
            PriorAlgorithm::Legacy => false,
        }
    }
}

/// A coarse summary of the most recent command kind, used as a context
/// feature for the mnemonic nibble.
#[derive(Copy, Clone, Debug, PartialEq, Eq, Structural)]
pub enum StateSummary {
    Literal,
    Match,
    LongRep,
    ShortRep,
}

pub open spec fn spec_summary_index(s: StateSummary) -> int {
    match s {
        StateSummary::Literal => 0,
        StateSummary::Match => 1,
        StateSummary::LongRep => 2,
        StateSummary::ShortRep => 3,
    }
}

impl StateSummary {
    pub fn as_index(&self) -> (r: u8)
        ensures
            r == spec_summary_index(*self),
            r < 4,
    {
        match *self {
            StateSummary::Literal => 0,
            StateSummary::Match => 1,
            StateSummary::LongRep => 2,
            StateSummary::ShortRep => 3,
        }
    }

    /// Records that a full match (fresh distance) was coded.
    pub fn obs_match(&mut self)
        ensures
            *final(self) == StateSummary::Match,
    {
        *self = StateSummary::Match;
    }

    /// Records that a cached distance was reused.
    pub fn obs_long_rep(&mut self)
        ensures
            *final(self) == StateSummary::LongRep,
    {
        *self = StateSummary::LongRep;
    }

    /// Records a length-one repeat of the most recent distance.
    pub fn obs_short_rep(&mut self)
        ensures
            *final(self) == StateSummary::ShortRep,
    {
        *self = StateSummary::ShortRep;
    }
}

/// Per-stream bookkeeping shared by all command coders; it outlives any
/// single command and is updated in place as nibbles are coded.
#[derive(Debug)]
pub struct CrossCommandBookKeeping {
    /// The four most recently used distances, most recent first.
    pub distance_lru: [u32; 4],
    /// Bit length class of the last coded copy length.
    pub last_clen: u8,
    /// Bit length class (or distance slot) of the last coded distance.
    pub last_dlen: u8,
    /// Length class of the last literal run; always at least one.
    pub last_llen: u8,
    /// Packed recent-state nibbles maintained by the dispatcher.
    pub last_4_states: u8,
    /// Index of the current byte within the stream, maintained externally.
    pub byte_index: u32,
    /// Block type of the current command, maintained externally.
    pub cmd_block_type: u8,
    pub prior_algorithm: PriorAlgorithm,
    pub state_summary: StateSummary,
    pub copy_priors: CopyPriors,
}

impl CrossCommandBookKeeping {
    pub open spec fn wf(self) -> bool {
        self.copy_priors.wf() && self.last_llen >= 1 && (forall|i: int|
            0 <= i < 4 ==> #[trigger] self.distance_lru@[i] >= 1)
    }

    /// Fresh bookkeeping for a new stream under the given coding regime.
    pub fn new(prior_algorithm: PriorAlgorithm) -> (bk: CrossCommandBookKeeping)
        ensures
            bk.wf(),
            bk.prior_algorithm == prior_algorithm,
            bk.distance_lru@ == seq![16u32, 15u32, 11u32, 4u32],
    {
        let bk = CrossCommandBookKeeping {
            distance_lru: [16, 15, 11, 4],
            last_clen: 0,
            last_dlen: 0,
            last_llen: 1,
            last_4_states: 0,
            byte_index: 0,
            cmd_block_type: 0,
            prior_algorithm: prior_algorithm,
            state_summary: StateSummary::Literal,
            copy_priors: CopyPriors::new(),
        };
        proof {
            assert(bk.distance_lru@ =~= seq![16u32, 15u32, 11u32, 4u32]);
        }
        bk
    }

    /// The block type feature of the current command.
    pub fn get_command_block_type(&self) -> (r: usize)
        ensures
            r == self.cmd_block_type as int,
    {
        self.cmd_block_type as usize
    }

    /// The copy-length class used as a distance context feature.
    pub fn get_distance_prior(&self, copy_len: u32) -> (r: usize)
        ensures
            r == if copy_len < 4 {
                copy_len as int
            } else {
                4int
            },
            r <= 4,
    {
        if copy_len < 4 {
            copy_len as usize
        } else {
            4
        }
    }

    /// The cheapest mnemonic code reproducing `distance` from this stream's
    /// cache, or the sentinel 15.
    pub fn distance_mnemonic_code(&self, distance: u32, num_bytes: u32) -> (r: u8)
        ensures
            r == mnemonic::spec_mnemonic_code(self.distance_lru@, distance),
            r <= 15,
    {
        mnemonic::distance_mnemonic_code(&self.distance_lru, distance, num_bytes)
    }

    /// Records a completed command's distance in the cache: a distance other
    /// than the most recent one shifts in at the front.
    pub fn obs_distance(&mut self, distance: u32)
        requires
            old(self).wf(),
            distance >= 1,
        ensures
            final(self).wf(),
            *old(self) == (CrossCommandBookKeeping { distance_lru: old(self).distance_lru, ..*final(self) }),
            distance == old(self).distance_lru@[0] ==> final(self).distance_lru@ == old(
                self,
            ).distance_lru@,
            distance != old(self).distance_lru@[0] ==> final(self).distance_lru@ == seq![
                distance,
                old(self).distance_lru@[0],
                old(self).distance_lru@[1],
                old(self).distance_lru@[2],
            ],
    {
        if distance != self.distance_lru[0] {
            let l0 = self.distance_lru[0];
            let l1 = self.distance_lru[1];
            let l2 = self.distance_lru[2];
            self.distance_lru = [distance, l0, l1, l2];
            proof {
                assert(self.distance_lru@ =~= seq![distance, l0, l1, l2]);
            }
        }
    }
}

/// Everything one invocation of a command coder works against: the coder
/// primitive, the adaptation flag of the specialization, and the shared
/// bookkeeping.
#[derive(Debug)]
pub struct CrossCommandState {
    pub coder: NibbleCoder,
    /// Whether distributions adapt after each coded nibble; decoders in
    /// replay mode may switch adaptation off.
    pub adapt: bool,
    pub bk: CrossCommandBookKeeping,
}

impl CrossCommandState {
    pub open spec fn wf(self) -> bool {
        self.coder.wf() && self.bk.wf()
    }

    /// A fresh encoding session.
    pub fn new_encoder(prior_algorithm: PriorAlgorithm) -> (s: CrossCommandState)
        ensures
            s.wf(),
            !s.coder.is_decoder,
            s.adapt,
            s.coder.nibbles@ == Seq::<u8>::empty(),
            s.coder.pos == 0,
            s.bk.prior_algorithm == prior_algorithm,
            s.bk.distance_lru@ == seq![16u32, 15u32, 11u32, 4u32],
    {
        CrossCommandState {
            coder: NibbleCoder::encoder(),
            adapt: true,
            bk: CrossCommandBookKeeping::new(prior_algorithm),
        }
    }

    /// A fresh decoding session; input bytes are supplied to the coder as
    /// they arrive.
    pub fn new_decoder(prior_algorithm: PriorAlgorithm) -> (s: CrossCommandState)
        ensures
            s.wf(),
            s.coder.is_decoder,
            s.adapt,
            s.coder.nibbles@ == Seq::<u8>::empty(),
            s.coder.pos == 0,
            s.bk.prior_algorithm == prior_algorithm,
            s.bk.distance_lru@ == seq![16u32, 15u32, 11u32, 4u32],
    {
        CrossCommandState {
            coder: NibbleCoder::decoder(),
            adapt: true,
            bk: CrossCommandBookKeeping::new(prior_algorithm),
        }
    }

    /// The sole suspension gate: before each coded nibble, an encoder drains
    /// finished bytes into the caller's output cursor and an in-progress
    /// decoder checks that input remains. Success means one more nibble can
    /// be coded.
    pub fn drain_or_fill_internal_buffer_cmd(
        &mut self,
        output_bytes: &mut Vec<u8>,
        output_cap: usize,
    ) -> (r: DivansResult)
        requires
            old(self).wf(),
        ensures
            final(self).wf(),
            final(self).adapt == old(self).adapt,
            final(self).bk == old(self).bk,
            final(self).coder.is_decoder == old(self).coder.is_decoder,
            old(self).coder.is_decoder ==> final(self).coder == old(self).coder,
            old(self).coder.is_decoder ==> *final(output_bytes) == *old(output_bytes),
            old(self).coder.is_decoder ==> r == DivansResult::Success || r
                == DivansResult::NeedsMoreInput,
            old(self).coder.is_decoder ==> (r == DivansResult::Success <==> old(self).coder.pos
                < old(self).coder.nibbles@.len()),
            !old(self).coder.is_decoder ==> final(self).coder.nibbles@ == old(self).coder.nibbles@,
            !old(self).coder.is_decoder ==> old(self).coder.pos <= final(self).coder.pos,
            !old(self).coder.is_decoder ==> final(output_bytes)@ == old(output_bytes)@ + packed(
                old(self).coder.nibbles@.subrange(
                    old(self).coder.pos as int,
                    final(self).coder.pos as int,
                ),
            ),
            !old(self).coder.is_decoder ==> old(output_bytes)@.len() <= final(output_bytes)@.len(),
            !old(self).coder.is_decoder && final(output_bytes)@.len() > old(output_bytes)@.len()
                ==> final(output_bytes)@.len() <= output_cap,
            !old(self).coder.is_decoder ==> r == DivansResult::Success || r
                == DivansResult::NeedsMoreOutput,
            !old(self).coder.is_decoder && r == DivansResult::Success ==> final(self).coder.pos + 2
                > final(self).coder.nibbles@.len(),
            !old(self).coder.is_decoder && r == DivansResult::NeedsMoreOutput
                ==> final(output_bytes)@.len() >= output_cap,
    {
        if self.coder.is_decoder {
            if self.coder.pos < self.coder.nibbles.len() {
                DivansResult::Success
            } else {
                DivansResult::NeedsMoreInput
            }
        } else {
            let done = self.coder.drain_bytes(output_bytes, output_cap);
            if done {
                DivansResult::Success
            } else {
                DivansResult::NeedsMoreOutput
            }
        }
    }
}

} // verus!
