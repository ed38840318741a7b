use vstd::prelude::*;

verus! {

/// The length of a round on the clock, in ticks of one millisecond.
pub const ROUND_TICKS: u32 = 30000;

/// The seconds left that the clock shows at a tick: a new number at each
/// full second of the round, nothing in between or after.
pub open spec fn shown_at(tick: u32) -> Option<u32> {
    if tick <= ROUND_TICKS && tick % 1000 == 0 {
        Some((30 - tick / 1000) as u32)
    } else {
        None
    }
}

/// The tick that follows `tick`, or `None` where the clock stops: at the
/// end of the round, or as soon as the round was ended by hand.
pub open spec fn tick_after(tick: u32, ended: bool) -> Option<u32> {
    if ended || tick >= ROUND_TICKS {
        None
    } else {
        Some((tick + 1) as u32)
    }
}

/// What the clock shows at `tick`, if it shows anything new.
pub fn seconds_shown(tick: u32) -> (shown: Option<u32>)
    ensures
        shown == shown_at(tick),
{
    if tick <= ROUND_TICKS && tick % 1000 == 0 {
        Some(30 - tick / 1000)
    } else {
        None
    }
}

/// The next tick of the clock, after the wait of `tick` and a look at
/// whether the round was ended by hand; `None` where the clock stops.
pub fn next_tick(tick: u32, ended: bool) -> (next: Option<u32>)
    ensures
        next == tick_after(tick, ended),
        next matches Some(t) ==> t <= ROUND_TICKS,
{
    if ended || tick >= ROUND_TICKS {
        None
    } else {
        Some(tick + 1)
    }
}

} // verus!
