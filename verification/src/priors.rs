//! The copy coder's adaptive prior tables: one 16-symbol distribution per
//! context, grouped by the kind of nibble being coded and keyed by small
//! context features (block type, byte-index parity, recent length class,
//! nibble position, partial decode value). All tables live in one flat
//! store; each category occupies a fixed range of it.

use crate::probability::Cdf16;
use vstd::prelude::*;

verus! {

/// Which kind of nibble a distribution is for.
#[derive(Copy, Clone, Debug, PartialEq, Eq, Structural)]
pub enum CopyCommandNibblePriorType {
    CountSmall,
    CountBegNib,
    CountLastNib,
    CountMantissaNib,
    DistanceMnemonic,
    DistanceBegNib,
    DistanceLastNib,
    DistanceMantissaNib,
    DistanceAlignNib,
    DistanceDirectNib,
}

pub const COUNT_SMALL_PRIORS: usize = 2 * 4 * 16;

pub const COUNT_BEG_NIB_PRIORS: usize = 2 * 4 * 4;

pub const COUNT_LAST_NIB_PRIORS: usize = 2 * 4 * 4;

pub const COUNT_MANTISSA_NIB_PRIORS: usize = 2 * 4 * 128;

pub const DISTANCE_MNEMONIC_PRIORS: usize = 8 * 4;

pub const DISTANCE_BEG_NIB_PRIORS: usize = 8 * 16;

pub const DISTANCE_LAST_NIB_PRIORS: usize = 16 * 8;

pub const DISTANCE_MANTISSA_NIB_PRIORS: usize = 352 * 8;

pub const DISTANCE_ALIGN_NIB_PRIORS: usize = 1;

pub const DISTANCE_DIRECT_NIB_PRIORS: usize = 50 * 9;

pub const COUNT_SMALL_BASE: usize = 0;

pub const COUNT_BEG_NIB_BASE: usize = COUNT_SMALL_BASE + COUNT_SMALL_PRIORS;

pub const COUNT_LAST_NIB_BASE: usize = COUNT_BEG_NIB_BASE + COUNT_BEG_NIB_PRIORS;

pub const COUNT_MANTISSA_NIB_BASE: usize = COUNT_LAST_NIB_BASE + COUNT_LAST_NIB_PRIORS;

pub const DISTANCE_MNEMONIC_BASE: usize = COUNT_MANTISSA_NIB_BASE + COUNT_MANTISSA_NIB_PRIORS;

pub const DISTANCE_BEG_NIB_BASE: usize = DISTANCE_MNEMONIC_BASE + DISTANCE_MNEMONIC_PRIORS;

pub const DISTANCE_LAST_NIB_BASE: usize = DISTANCE_BEG_NIB_BASE + DISTANCE_BEG_NIB_PRIORS;

pub const DISTANCE_MANTISSA_NIB_BASE: usize = DISTANCE_LAST_NIB_BASE + DISTANCE_LAST_NIB_PRIORS;

pub const DISTANCE_ALIGN_NIB_BASE: usize = DISTANCE_MANTISSA_NIB_BASE + DISTANCE_MANTISSA_NIB_PRIORS;

pub const DISTANCE_DIRECT_NIB_BASE: usize = DISTANCE_ALIGN_NIB_BASE + DISTANCE_ALIGN_NIB_PRIORS;

pub const COPY_PRIOR_TOTAL: usize = DISTANCE_DIRECT_NIB_BASE + DISTANCE_DIRECT_NIB_PRIORS;

/// Clamp to an exclusive bound, keeping an out-of-range context feature in
/// the last cell of its dimension.
pub open spec fn spec_cap(x: int, bound: int) -> int {
    if x < bound {
        x
    } else {
        bound - 1
    }
}

/// The flat table cell that category `t` with context features `(a, b, c)`
/// selects. Both directions of the coder compute contexts through this one
/// function, so encoder and decoder always consult and adapt the same cell.
pub open spec fn spec_prior_index(t: CopyCommandNibblePriorType, a: int, b: int, c: int) -> int {
    match t {
        CopyCommandNibblePriorType::CountSmall => COUNT_SMALL_BASE + spec_cap(a, 2) * 64 + (b % 4)
            * 16 + spec_cap(c, 16),
        CopyCommandNibblePriorType::CountBegNib => COUNT_BEG_NIB_BASE + spec_cap(a, 2) * 16 + (b
            % 4) * 4 + spec_cap(c, 4),
        CopyCommandNibblePriorType::CountLastNib => COUNT_LAST_NIB_BASE + spec_cap(a, 2) * 16 + (b
            % 4) * 4 + spec_cap(c, 4),
        CopyCommandNibblePriorType::CountMantissaNib => COUNT_MANTISSA_NIB_BASE + spec_cap(a, 2)
            * 512 + (b % 4) * 128 + spec_cap(c, 128),
        CopyCommandNibblePriorType::DistanceMnemonic => DISTANCE_MNEMONIC_BASE + spec_cap(a, 8) * 4
            + spec_cap(b, 4),
        CopyCommandNibblePriorType::DistanceBegNib => DISTANCE_BEG_NIB_BASE + spec_cap(a, 8) * 16
            + spec_cap(b, 16),
        CopyCommandNibblePriorType::DistanceLastNib => DISTANCE_LAST_NIB_BASE + spec_cap(a, 16) * 8
            + spec_cap(b, 8),
        CopyCommandNibblePriorType::DistanceMantissaNib => DISTANCE_MANTISSA_NIB_BASE + spec_cap(
            a,
            352,
        ) * 8 + spec_cap(b, 8),
        CopyCommandNibblePriorType::DistanceAlignNib => DISTANCE_ALIGN_NIB_BASE as int,
        CopyCommandNibblePriorType::DistanceDirectNib => DISTANCE_DIRECT_NIB_BASE + spec_cap(a, 50)
            * 9 + spec_cap(b, 9),
    }
}

/// Every context selects a cell inside the store.
pub proof fn lemma_prior_index_in_range(t: CopyCommandNibblePriorType, a: int, b: int, c: int)
    requires
        a >= 0,
        b >= 0,
        c >= 0,
    ensures
        0 <= spec_prior_index(t, a, b, c) < COPY_PRIOR_TOTAL,
{
}

fn cap(x: usize, bound: usize) -> (r: usize)
    requires
        bound >= 1,
    ensures
        r == spec_cap(x as int, bound as int),
{
    if x < bound {
        x
    } else {
        bound - 1
    }
}

/// The stream-wide store of copy-command priors, owned by the cross-command
/// state and outliving any single command.
#[derive(Debug)]
pub struct CopyPriors {
    pub cdfs: Vec<Cdf16>,
}

impl CopyPriors {
    pub open spec fn wf(self) -> bool {
        self.cdfs@.len() == COPY_PRIOR_TOTAL && (forall|i: int|
            0 <= i < self.cdfs@.len() ==> (#[trigger] self.cdfs@[i]).wf())
    }

    /// A fresh store with every distribution uniform.
    pub fn new() -> (p: CopyPriors)
        ensures
            p.wf(),
            forall|i: int|
                0 <= i < p.cdfs@.len() ==> (#[trigger] p.cdfs@[i]).counts@ == Seq::new(
                    16,
                    |j: int| 32u16,
                ),
    {
        let mut cdfs: Vec<Cdf16> = Vec::new();
        let mut i: usize = 0;
        while i < COPY_PRIOR_TOTAL
            invariant
                i == cdfs@.len(),
                i <= COPY_PRIOR_TOTAL,
                forall|k: int| 0 <= k < i ==> (#[trigger] cdfs@[k]).wf(),
                forall|k: int|
                    0 <= k < i ==> (#[trigger] cdfs@[k]).counts@ == Seq::new(16, |j: int| 32u16),
            decreases COPY_PRIOR_TOTAL - i,
        {
            cdfs.push(Cdf16::new());
            i += 1;
        }
        CopyPriors { cdfs }
    }

    /// Borrows the distribution for category `t` under context `(a, b, c)`;
    /// categories with fewer context features ignore the last ones.
    pub fn get(&mut self, t: CopyCommandNibblePriorType, a: usize, b: usize, c: usize) -> (p: &mut
        Cdf16)
        requires
            old(self).wf(),
        ensures
            *p == old(self).cdfs@[spec_prior_index(t, a as int, b as int, c as int)],
            (*p).wf(),
            final(self).cdfs@ == old(self).cdfs@.update(
                spec_prior_index(t, a as int, b as int, c as int),
                *final(p),
            ),
            (*final(p)).wf() ==> final(self).wf(),
    {
        proof {
            lemma_prior_index_in_range(t, a as int, b as int, c as int);
        }
        let idx: usize = match t {
            CopyCommandNibblePriorType::CountSmall => COUNT_SMALL_BASE + cap(a, 2) * 64 + (b % 4)
                * 16 + cap(c, 16),
            CopyCommandNibblePriorType::CountBegNib => COUNT_BEG_NIB_BASE + cap(a, 2) * 16 + (b % 4)
                * 4 + cap(c, 4),
            CopyCommandNibblePriorType::CountLastNib => COUNT_LAST_NIB_BASE + cap(a, 2) * 16 + (b
                % 4) * 4 + cap(c, 4),
            CopyCommandNibblePriorType::CountMantissaNib => COUNT_MANTISSA_NIB_BASE + cap(a, 2)
                * 512 + (b % 4) * 128 + cap(c, 128),
            CopyCommandNibblePriorType::DistanceMnemonic => DISTANCE_MNEMONIC_BASE + cap(a, 8) * 4
                + cap(b, 4),
            CopyCommandNibblePriorType::DistanceBegNib => DISTANCE_BEG_NIB_BASE + cap(a, 8) * 16
                + cap(b, 16),
            CopyCommandNibblePriorType::DistanceLastNib => DISTANCE_LAST_NIB_BASE + cap(a, 16) * 8
                + cap(b, 8),
            CopyCommandNibblePriorType::DistanceMantissaNib => DISTANCE_MANTISSA_NIB_BASE + cap(
                a,
                352,
            ) * 8 + cap(b, 8),
            CopyCommandNibblePriorType::DistanceAlignNib => DISTANCE_ALIGN_NIB_BASE,
            CopyCommandNibblePriorType::DistanceDirectNib => DISTANCE_DIRECT_NIB_BASE + cap(a, 50)
                * 9 + cap(b, 9),
        };
        &mut self.cdfs[idx]
    }
}

} // verus!
