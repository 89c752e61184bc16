//! Decisions of the host's update cycle.
//!
//! The host polls a shared "layout requested" flag once per cycle and, on the
//! web target, pushes regenerated text to the page only after a cool-down and
//! only when an edit happened since the last push. The decisions are made
//! here, on plain values; the host owns the clock, the shared flag and the
//! page.

use vstd::prelude::*;

verus! {

/// How long after a push the next one is held back, in milliseconds.
pub const EXTERNAL_UPDATE_COOLDOWN_MS: u128 = 1000;

/// Reads and clears the "layout requested" flag: the auto-layout pass runs
/// at most once per request.
pub fn take_format_request(flag: &mut bool) -> (r: bool)
    ensures
        r == *old(flag),
        *final(flag) == false,
{
    let r = *flag;
    *flag = false;
    r
}

/// Whether regenerated text is due to be pushed outward: the cool-down has
/// passed and an edit happened after the previous push.
pub fn should_push_update(elapsed_since_push_ms: u128, edited_since_push: bool) -> (r: bool)
    ensures
        r == (elapsed_since_push_ms > EXTERNAL_UPDATE_COOLDOWN_MS && edited_since_push),
{
    elapsed_since_push_ms > EXTERNAL_UPDATE_COOLDOWN_MS && edited_since_push
}

} // verus!
