//! How much redundancy and receive-side storage a playout delay calls for.
use vstd::prelude::*;

use crate::{next_power_of_two, next_power_of_two_spec};

verus! {

/// The widest XOR equation the sender ever forms, in frames.
pub const MAX_FEC_WIDTH: u32 = 5;

const MAX_RECOVERY_SLOTS: usize = 2_048;

/// Equation width and receive window size for one playout delay.
#[derive(Clone, Copy, Debug, PartialEq, Eq, Structural)]
pub struct TransportConfig {
    pub fec_width: u32,
    pub recovery_slots: usize,
}

/// `x` clamped to `[lo, hi]`.
pub open spec fn clamp(x: int, lo: int, hi: int) -> int {
    if x < lo {
        lo
    } else if x > hi {
        hi
    } else {
        x
    }
}

/// Equation width for a delay worth `recovery_frames` frame pairs: one frame
/// plus that many earlier ones, at least one and at most `MAX_FEC_WIDTH - 1`.
pub open spec fn fec_width_for(recovery_frames: int) -> int {
    1 + clamp(recovery_frames, 1, MAX_FEC_WIDTH - 1)
}

/// Receive window for a deadline of `deadline_frames` frames and equations of
/// `fec_width` frames: room for the deadline and two equations plus slack,
/// between 8 and 2048 slots, rounded up to a power of two.
pub open spec fn recovery_slots_for(deadline_frames: int, fec_width: int) -> int {
    let wanted = deadline_frames + 2 * (fec_width - 1) + 4;
    let saturated = if wanted > usize::MAX {
        usize::MAX as int
    } else {
        wanted
    };
    next_power_of_two_spec(clamp(saturated, 8, 2048) as nat) as int
}

impl TransportConfig {
    /// The configuration for a playout delay given as whole frame counts:
    /// `recovery_frames` is the delay over two frame intervals rounded down and
    /// `deadline_frames` the delay over one frame interval rounded up.
    pub fn for_frame_counts(recovery_frames: u32, deadline_frames: usize) -> (config: Self)
        ensures
            config.fec_width == fec_width_for(recovery_frames as int),
            config.recovery_slots == recovery_slots_for(deadline_frames as int, config.fec_width as int),
    {
        let recovery_frames = if recovery_frames < 1 {
            1
        } else if recovery_frames > MAX_FEC_WIDTH - 1 {
            MAX_FEC_WIDTH - 1
        } else {
            recovery_frames
        };
        let fec_width = 1 + recovery_frames;
        let required_slots = deadline_frames.saturating_add(2 * (fec_width as usize - 1) + 4);
        let required_slots = if required_slots < 8 {
            8
        } else if required_slots > MAX_RECOVERY_SLOTS {
            MAX_RECOVERY_SLOTS
        } else {
            required_slots
        };
        let (recovery_slots, _) = next_power_of_two(required_slots);
        TransportConfig { fec_width, recovery_slots }
    }
}

/// Every configuration uses equations of 2 to `MAX_FEC_WIDTH` frames, spends
/// at most half of the playout delay (and at least one frame) waiting for the
/// future members of an equation, and keeps between 8 and 2048 receive slots,
/// a power of two that covers the deadline and two equations plus slack when
/// the cap allows.
pub proof fn lemma_config_bounds(recovery_frames: u32, deadline_frames: usize)
    ensures
        ({
            let width = fec_width_for(recovery_frames as int);
            let slots = recovery_slots_for(deadline_frames as int, width);
            &&& 2 <= width <= MAX_FEC_WIDTH
            &&& width - 1 <= (if recovery_frames >= 1 {
                recovery_frames as int
            } else {
                1
            })
            &&& 8 <= slots <= 2048
            &&& exists|k: nat| #[trigger] vstd::arithmetic::power2::pow2(k) == slots
            &&& slots >= clamp(deadline_frames + 2 * (width - 1) + 4, 8, 2048)
        }),
{
    let width = fec_width_for(recovery_frames as int);
    let wanted = deadline_frames + 2 * (width - 1) + 4;
    let saturated = if wanted > usize::MAX {
        usize::MAX as int
    } else {
        wanted
    };
    let n = clamp(saturated, 8, 2048) as nat;
    crate::lemma_power_of_two_from_bounds(n, 1);
    crate::lemma_power_of_two_from_monotone(n, 2048, 1);
    assert(next_power_of_two_spec(2048) == 2048) by {
        reveal_with_fuel(crate::power_of_two_from, 13);
    }
    vstd::arithmetic::power2::lemma2_to64();
    crate::lemma_power_of_two_from_is_power(n, 0);
}

/// A longer delay never gives narrower equations or fewer receive slots.
pub proof fn lemma_config_monotone(
    recovery_frames1: u32,
    deadline_frames1: usize,
    recovery_frames2: u32,
    deadline_frames2: usize,
)
    requires
        recovery_frames1 <= recovery_frames2,
        deadline_frames1 <= deadline_frames2,
    ensures
        fec_width_for(recovery_frames1 as int) <= fec_width_for(recovery_frames2 as int),
        recovery_slots_for(deadline_frames1 as int, fec_width_for(recovery_frames1 as int))
            <= recovery_slots_for(deadline_frames2 as int, fec_width_for(recovery_frames2 as int)),
{
    let w1 = fec_width_for(recovery_frames1 as int);
    let w2 = fec_width_for(recovery_frames2 as int);
    let a1 = deadline_frames1 + 2 * (w1 - 1) + 4;
    let a2 = deadline_frames2 + 2 * (w2 - 1) + 4;
    let s1 = if a1 > usize::MAX { usize::MAX as int } else { a1 };
    let s2 = if a2 > usize::MAX { usize::MAX as int } else { a2 };
    crate::lemma_power_of_two_from_monotone(clamp(s1, 8, 2048) as nat, clamp(s2, 8, 2048) as nat, 1);
}

/// A receive window built from a configuration keeps the configuration's
/// equation width: it solves exactly the equations that the sender's encoder
/// of that configuration forms, and it has at least the configured slots.
pub proof fn lemma_config_window_agrees(recovery_frames: u32, deadline_frames: usize)
    ensures
        ({
            let width = fec_width_for(recovery_frames as int);
            let slots = recovery_slots_for(deadline_frames as int, width);
            &&& crate::recovery::window_width(slots as usize, width as u32) == width
            &&& crate::recovery::window_capacity(slots as usize) >= slots
        }),
{
    let width = fec_width_for(recovery_frames as int);
    let slots = recovery_slots_for(deadline_frames as int, width);
    lemma_config_bounds(recovery_frames, deadline_frames);
    crate::recovery::lemma_window_keeps_requested_width(slots as usize, width as u32);
}

} // verus!
