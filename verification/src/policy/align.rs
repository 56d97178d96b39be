//! The slots that points in time fall in.
use vstd::prelude::*;

use crate::time::{Duration, Instant, NANOS_PER_MILLI};

verus! {

/// How many milliseconds a slot can be away: so many, and no more, can be told apart.
pub const WAITS: u128 = 0x1_0000_0000_0000_0000;

/// The width of a slot: a millisecond at least.
pub struct Precision {
    by: Duration,
}

impl Precision {
    #[verifier::type_invariant]
    spec fn has_width(&self) -> bool {
        self.by.nanos >= NANOS_PER_MILLI
    }

    /// The width.
    pub closed spec fn width(&self) -> Duration {
        self.by
    }

    /// Slots of this width.
    pub fn new(by: Duration) -> (precision: Precision)
        requires
            by.nanos >= NANOS_PER_MILLI,
        ensures
            precision.width() == by,
    {
        Precision { by }
    }

    /// The width, for use.
    pub fn get(&self) -> (by: Duration)
        ensures
            by == self.width(),
            by.nanos >= NANOS_PER_MILLI,
    {
        proof {
            use_type_invariant(self);
        }
        self.by
    }
}

/// How many milliseconds it is to the end of the slot that a point in time falls in: slots begin
/// at each whole multiple of the width, counted in milliseconds from `base` on.
pub open spec fn millis_ahead(instant: Instant, base: Instant, by: Duration) -> int {
    let width = by.nanos as int / NANOS_PER_MILLI as int;
    let offset = (instant.nanos - base.nanos) / NANOS_PER_MILLI as int;
    (width - offset % width) % WAITS as int
}

/// The slot that a point in time is filed under: the first slot is that of `base` and all that
/// lies before it.
pub open spec fn aligned(instant: Instant, base: Instant, by: Duration) -> Instant {
    if base.nanos < instant.nanos {
        instant.later(
            Duration { nanos: (millis_ahead(instant, base, by) * NANOS_PER_MILLI) as u128 },
        )
    } else {
        base
    }
}

/// How far the end of a slot can be.
proof fn millis_ahead_bounds(instant: Instant, base: Instant, by: Duration)
    requires
        by.nanos >= NANOS_PER_MILLI,
    ensures
        0 <= millis_ahead(instant, base, by) < WAITS,
        millis_ahead(instant, base, by) <= by.nanos as int / NANOS_PER_MILLI as int,
{
    let width = by.nanos as int / NANOS_PER_MILLI as int;
    let offset = (instant.nanos - base.nanos) / NANOS_PER_MILLI as int;
    assert(width >= 1);
    vstd::arithmetic::div_mod::lemma_mod_bound(offset, width);
    let wait = width - offset % width;
    vstd::arithmetic::div_mod::lemma_mod_bound(wait, WAITS as int);
    vstd::arithmetic::div_mod::lemma_mod_decreases(wait as nat, WAITS as nat);
}

/// No point in time is filed under an earlier slot, nor, from `base` on, under one that is further
/// away than the width.
pub proof fn aligned_is_near(instant: Instant, base: Instant, by: Duration)
    requires
        by.nanos >= NANOS_PER_MILLI,
    ensures
        instant.nanos <= aligned(instant, base, by).nanos,
        base.nanos <= instant.nanos ==> aligned(instant, base, by).nanos <= instant.nanos + by.nanos,
{
    millis_ahead_bounds(instant, base, by);
    let ahead = millis_ahead(instant, base, by);
    let width = by.nanos as int / NANOS_PER_MILLI as int;
    assert(ahead * NANOS_PER_MILLI <= width * NANOS_PER_MILLI) by (nonlinear_arith)
        requires
            ahead <= width,
    ;
    vstd::arithmetic::div_mod::lemma_fundamental_div_mod(
        by.nanos as int,
        NANOS_PER_MILLI as int,
    );
}

/// The slot that a point in time is filed under, where slots are counted from `base` on.
pub fn align_instant(instant: Instant, base: Instant, by: &Precision) -> (slot: Instant)
    ensures
        slot == aligned(instant, base, by.width()),
{
    let by = by.get();
    proof {
        millis_ahead_bounds(instant, base, by);
    }
    if base.nanos >= instant.nanos {
        return base;
    }
    let width = by.as_millis();
    let offset = (instant.nanos - base.nanos) / NANOS_PER_MILLI;
    let ahead = (width - offset % width) % WAITS;
    instant.plus(Duration { nanos: ahead * NANOS_PER_MILLI })
}

} // verus!
