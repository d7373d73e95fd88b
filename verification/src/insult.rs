//! The per-channel insult state machine: a cooldown counter that makes a
//! proactive taunt ever more likely, plus the identifier of the last taunt
//! sent, used to spot a retaliating reply.

use vstd::prelude::*;

verus! {

/// The number of outcomes of one fire roll.
pub const FIRE_DENOM: u64 = 10000;

/// Per-channel insult state.
pub struct InsultData {
    /// The identifier of the most recently sent taunt, if any.
    pub message_id: Option<String>,
    /// Messages seen since the last taunt; starts at 1 and saturates.
    pub count_passed: u8,
    /// Whether proactive taunting is switched on for the channel.
    pub enabled: bool,
}

impl Default for InsultData {
    /// A fresh channel: no taunt sent yet, counter at 1, taunting off.
    fn default() -> (r: Self)
        ensures
            r.message_id is None,
            r.count_passed == 1,
            !r.enabled,
    {
        InsultData { message_id: None, count_passed: 1, enabled: false }
    }
}

/// A roll below this value, out of `FIRE_DENOM`, fires a taunt: the chance is
/// `0.05 * count / 100`, that is `5 * count` out of 10000.
pub open spec fn fire_threshold(count: u8) -> int {
    5 * count
}

/// The fire chance never decreases as quiet messages accumulate, and the
/// saturating counter keeps it defined after arbitrarily many misses.
pub proof fn lemma_fire_threshold_monotone(c1: u8, c2: u8)
    requires
        c1 <= c2,
    ensures
        fire_threshold(c1) <= fire_threshold(c2),
        fire_threshold(c2) < FIRE_DENOM,
{
}

/// The counter after one non-firing message: incremented, saturating at 255.
pub open spec fn bumped(count: u8) -> u8 {
    if count == 255 {
        255
    } else {
        (count + 1) as u8
    }
}

/// Saturating increment of the cooldown counter.
pub fn bump_count(count: u8) -> (r: u8)
    ensures
        r == bumped(count),
        r >= count,
{
    if count == 255 {
        255
    } else {
        count + 1
    }
}

} // verus!
