//! Cutting the assembled E/N/Z streams into blocks for filtering.
//!
//! Each block is filtered together with a tail of the previous block in front
//! of it (the *lead*), so the filter has settled by the time it reaches the
//! block's own samples; the lead is then skipped, together with the phase
//! that keeps decimation on the global grid.

use vstd::prelude::*;

use crate::decimation::{decimated_count, decimated_len, decimation_phase, phase_of};

verus! {

/// How one block is cut and processed.
#[derive(Clone, Copy, Debug, PartialEq, Eq)]
pub struct BlockPlan {
    /// Samples taken from the front of each component (shorter components are
    /// padded with missing samples up to this length).
    pub take: usize,
    /// Samples of the previous block's tail placed in front of this block.
    pub lead: usize,
    /// Samples dropped from the front of the filtered block before decimating:
    /// the lead plus the decimation phase.
    pub skip: usize,
    /// Samples kept per component after decimation.
    pub kept: usize,
    /// Length of this block's tail kept as the next block's lead.
    pub context_len: usize,
    /// Global index of the block's first sample.
    pub global_start: usize,
}

/// The longest of the three component buffers.
pub open spec fn longest(e: nat, n: nat, z: nat) -> nat {
    if e >= n && e >= z {
        e
    } else if n >= z {
        n
    } else {
        z
    }
}

/// `longest` is the maximum of the three lengths: no smaller than any of
/// them, and equal to one of them.
pub proof fn lemma_longest_is_max(e: nat, n: nat, z: nat)
    ensures
        longest(e, n, z) >= e,
        longest(e, n, z) >= n,
        longest(e, n, z) >= z,
        longest(e, n, z) == e || longest(e, n, z) == n || longest(e, n, z) == z,
{
}

pub open spec fn min_nat(a: nat, b: nat) -> nat {
    if a <= b {
        a
    } else {
        b
    }
}

/// Tracks where the next block starts in the stream and how much context
/// precedes it.
pub struct BlockCursor {
    global_offset: usize,
    lead: usize,
}

impl BlockCursor {
    /// Global index of the next block's first sample.
    pub closed spec fn next_start(&self) -> nat {
        self.global_offset as nat
    }

    /// Context samples that will precede the next block.
    pub closed spec fn next_lead(&self) -> nat {
        self.lead as nat
    }

    pub fn new() -> (c: Self)
        ensures
            c.next_start() == 0,
            c.next_lead() == 0,
    {
        BlockCursor { global_offset: 0, lead: 0 }
    }

    pub fn global_offset(&self) -> (g: usize)
        ensures
            g == self.next_start(),
    {
        self.global_offset
    }

    pub fn lead(&self) -> (l: usize)
        ensures
            l == self.next_lead(),
    {
        self.lead
    }

    /// The plan for the next block, given how many samples each component
    /// buffer holds: `None` when all are empty; otherwise the block takes
    /// `min(block_len, longest buffer)` samples, keeps the last
    /// `min(context_samples, take)` of them as the next lead, and skips the
    /// current lead plus the decimation phase.
    pub fn plan(
        &self,
        e_len: usize,
        n_len: usize,
        z_len: usize,
        block_len: usize,
        context_samples: usize,
        factor: usize,
    ) -> (p: Option<BlockPlan>)
        requires
            factor > 0,
            self.next_lead() + block_len + factor <= usize::MAX,
        ensures
            longest(e_len as nat, n_len as nat, z_len as nat) == 0 <==> p is None,
            p is None <==> (e_len == 0 && n_len == 0 && z_len == 0),
            p matches Some(plan) ==> {
                // The block takes `min(block_len, max(e_len, n_len, z_len))`
                // samples: no more than `block_len` nor than the longest
                // buffer, and no buffer that fits is cut short.
                &&& plan.take <= block_len
                &&& (plan.take <= e_len || plan.take <= n_len || plan.take <= z_len)
                &&& plan.take >= (if e_len <= block_len { e_len } else { block_len })
                &&& plan.take >= (if n_len <= block_len { n_len } else { block_len })
                &&& plan.take >= (if z_len <= block_len { z_len } else { block_len })
            },
            p matches Some(plan) ==> {
                &&& plan.take == min_nat(block_len as nat, longest(e_len as nat, n_len as nat, z_len as nat))
                &&& plan.lead == self.next_lead()
                &&& plan.skip == self.next_lead() + phase_of(self.next_start(), factor as nat)
                &&& plan.kept == decimated_len(
                    (plan.lead + plan.take) as nat,
                    plan.skip as nat,
                    factor as nat,
                )
                &&& plan.context_len == min_nat(context_samples as nat, plan.take as nat)
                &&& plan.global_start == self.next_start()
            },
    {
        let available = if e_len >= n_len && e_len >= z_len {
            e_len
        } else if n_len >= z_len {
            n_len
        } else {
            z_len
        };
        if available == 0 {
            return None;
        }
        let take = if block_len <= available { block_len } else { available };
        let context_len = if context_samples <= take { context_samples } else { take };
        let phase = decimation_phase(self.global_offset, factor);
        let skip = self.lead + phase;
        let kept = decimated_count(self.lead + take, skip, factor);
        Some(BlockPlan { take, lead: self.lead, skip, kept, context_len, global_start: self.global_offset })
    }

    /// Moves past a processed block: the next block starts right after it,
    /// with its tail as lead.
    pub fn advance(&mut self, plan: &BlockPlan)
        requires
            old(self).next_start() + plan.take <= usize::MAX,
        ensures
            final(self).next_start() == old(self).next_start() + plan.take,
            final(self).next_lead() == plan.context_len,
    {
        self.global_offset = self.global_offset + plan.take;
        self.lead = plan.context_len;
    }

    /// Forgets the context after a discontinuity: the next block is filtered
    /// on its own. Its position on the global grid is kept.
    pub fn reset_context(&mut self)
        ensures
            final(self).next_start() == old(self).next_start(),
            final(self).next_lead() == 0,
    {
        self.lead = 0;
    }
}

} // verus!
