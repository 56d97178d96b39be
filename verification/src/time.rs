//! Points in time and spans of time, in whole nanoseconds, and the clock that they are read from.
use vstd::prelude::*;

verus! {

/// The declaration of `std::time::Instant`, whose value stays unread.
#[verifier::external_type_specification]
#[verifier::external_body]
pub struct ExInstant(std::time::Instant);

/// Nanoseconds in a millisecond.
pub const NANOS_PER_MILLI: u128 = 1_000_000;

/// Nanoseconds in a second.
pub const NANOS_PER_SEC: u128 = 1_000_000_000;

/// The lesser of a number and the greatest `u128`.
pub open spec fn capped(n: int) -> u128 {
    if n <= u128::MAX {
        n as u128
    } else {
        u128::MAX
    }
}

/// A span of time.
#[derive(Clone, Copy, Debug, PartialEq, Eq, PartialOrd, Ord, Hash, Structural)]
pub struct Duration {
    pub nanos: u128,
}

impl Duration {
    /// A span of so many seconds.
    pub fn from_secs(secs: u64) -> (d: Duration)
        ensures
            d.nanos == secs * NANOS_PER_SEC,
            d.nanos == secs * 1_000_000_000,
    {
        Duration { nanos: secs as u128 * NANOS_PER_SEC }
    }

    /// A span of so many milliseconds.
    pub fn from_millis(millis: u64) -> (d: Duration)
        ensures
            d.nanos == millis * NANOS_PER_MILLI,
            d.nanos == millis * 1_000_000,
    {
        Duration { nanos: millis as u128 * NANOS_PER_MILLI }
    }

    /// The whole seconds of the span.
    pub fn as_secs(&self) -> (secs: u128)
        ensures
            secs == self.nanos / NANOS_PER_SEC,
            secs * 1_000_000_000 <= self.nanos < (secs + 1) * 1_000_000_000,
    {
        self.nanos / NANOS_PER_SEC
    }

    /// The whole milliseconds of the span.
    pub fn as_millis(&self) -> (millis: u128)
        ensures
            millis == self.nanos / NANOS_PER_MILLI,
            millis * 1_000_000 <= self.nanos < (millis + 1) * 1_000_000,
    {
        self.nanos / NANOS_PER_MILLI
    }
}

/// A point in time: the nanoseconds since the clock that it was read from was started.
#[derive(Clone, Copy, Debug, PartialEq, Eq, PartialOrd, Ord, Hash, Structural)]
pub struct Instant {
    pub nanos: u128,
}

impl Instant {
    /// The point that lies `by` later. What would lie past the last point there is, is that
    /// point.
    pub open spec fn later(self, by: Duration) -> Instant {
        Instant { nanos: capped(self.nanos + by.nanos) }
    }

    /// What lies later by two spans lies later by both together; no span leads back, and one that
    /// leads nowhere is of no length or starts from the last point there is.
    pub proof fn spans_add_up(self, by: Duration, more: Duration)
        ensures
            self.nanos <= self.later(by).nanos,
            self.nanos + by.nanos <= u128::MAX ==> self.later(by).nanos - self.nanos == by.nanos,
            self.later(by) == self ==> by.nanos == 0 || self.nanos == u128::MAX,
            by.nanos + more.nanos <= u128::MAX ==> self.later(by).later(more) == self.later(
                (Duration { nanos: (by.nanos + more.nanos) as u128 }),
            ),
    {
    }

    /// The point that lies `by` later.
    pub fn plus(self, by: Duration) -> (t: Instant)
        ensures
            t == self.later(by),
    {
        Instant { nanos: self.nanos.saturating_add(by.nanos) }
    }
}

/// A clock that never runs backwards.
pub struct Clock {
    started: std::time::Instant,
    latest: Instant,
    readings: Ghost<Seq<u128>>,
}

/// `std::time::Instant::now`: the present. Nothing is said of it.
#[verifier::external_body]
fn std_now() -> (t: std::time::Instant) {
    std::time::Instant::now()
}

/// `std::time::Instant::elapsed`, in nanoseconds: how long ago `started` was. Nothing is said of
/// it, for it rests on the time.
#[verifier::external_body]
fn elapsed_nanos(started: &std::time::Instant) -> (nanos: u128) {
    started.elapsed().as_nanos()
}

/// What `f` gives for `started`, and that it gave it.
fn asked<F: Fn(&std::time::Instant) -> u128>(f: F, started: &std::time::Instant) -> (nanos: u128)
    requires
        call_requires(f, (started,)),
    ensures
        call_ensures(f, (started,), nanos),
{
    f(started)
}

/// What `f` gives, and that it gave it.
fn begun<F: Fn() -> std::time::Instant>(f: F) -> (t: std::time::Instant)
    requires
        call_requires(f, ()),
    ensures
        call_ensures(f, (), t),
{
    f()
}

impl Clock {
    /// The time that was read last.
    pub closed spec fn time(&self) -> Instant {
        self.latest
    }

    /// The point in time at which the clock was started.
    pub closed spec fn origin(&self) -> std::time::Instant {
        self.started
    }

    /// What `std::time::Instant::elapsed` gave of the point in time at which the clock was
    /// started, each time that the clock was looked at.
    pub closed spec fn readings(&self) -> Seq<u128> {
        self.readings@
    }

    /// `std::time::Instant::elapsed` can give this of the point in time at which the clock was
    /// started.
    pub closed spec fn can_show(&self, nanos: u128) -> bool {
        call_ensures(elapsed_nanos, (&self.started,), nanos)
    }

    /// `std::time::Instant::now` can give the point in time at which the clock was started.
    pub closed spec fn is_started(&self) -> bool {
        call_ensures(std_now, (), self.started)
    }

    /// The clock was looked at, once: it shows what `std::time::Instant::elapsed` gave then, or
    /// the time that was read before where that was later.
    pub open spec fn ticks(pre: Clock, post: Clock) -> bool {
        &&& post.origin() == pre.origin()
        &&& post.is_started() == pre.is_started()
        &&& post.readings() == pre.readings().push(post.readings().last())
        &&& post.can_show(post.readings().last())
        &&& post.time().nanos == if pre.time().nanos < post.readings().last() {
            post.readings().last()
        } else {
            pre.time().nanos
        }
    }

    /// A clock that is started now.
    pub fn start() -> (clock: Clock)
        ensures
            clock.time() == (Instant { nanos: 0 }),
            clock.readings() == Seq::<u128>::empty(),
            clock.is_started(),
    {
        let started = begun(std_now);
        Clock { started, latest: Instant { nanos: 0 }, readings: Ghost(Seq::empty()) }
    }

    /// The time on the clock where it shows that `nanos` have passed since it was started: that
    /// reading, or the one before it where that was later.
    pub fn read(&mut self, nanos: u128) -> (t: Instant)
        ensures
            t.nanos == if old(self).time().nanos < nanos {
                nanos
            } else {
                old(self).time().nanos
            },
            final(self).time() == t,
            final(self).origin() == old(self).origin(),
            final(self).is_started() == old(self).is_started(),
            final(self).readings() == old(self).readings(),
    {
        if self.latest.nanos < nanos {
            self.latest = Instant { nanos };
        }
        self.latest
    }

    /// The time on the clock: what `std::time::Instant::elapsed` gives now of the point in time
    /// at which it was started, or the time that was read before where that was later.
    pub fn now(&mut self) -> (t: Instant)
        ensures
            old(self).time().nanos <= t.nanos,
            final(self).time() == t,
            Clock::ticks(*old(self), *final(self)),
            t.nanos == if old(self).time().nanos < final(self).readings().last() {
                final(self).readings().last()
            } else {
                old(self).time().nanos
            },
    {
        let nanos = asked(elapsed_nanos, &self.started);
        proof {
            self.is_of_std(nanos);
        }
        self.readings = Ghost(self.readings@.push(nanos));
        self.read(nanos)
    }

    /// What the clock can show is what `std::time::Instant::elapsed` can give of the point in
    /// time at which it was started, which is one that `std::time::Instant::now` gave.
    proof fn is_of_std(&self, nanos: u128)
        ensures
            self.can_show(nanos) <==> call_ensures(elapsed_nanos, (&self.origin(),), nanos),
            self.is_started() <==> call_ensures(std_now, (), self.origin()),
    {
    }

    /// The clock shows the time that has passed since it was started: what was read of
    /// `std::time::Instant::elapsed` in this look at it, neither more nor less, unless that lies
    /// before what it has shown.
    pub proof fn shows_what_has_passed(pre: Clock, post: Clock)
        requires
            Clock::ticks(pre, post),
        ensures
            post.origin() == pre.origin(),
            post.readings().len() == pre.readings().len() + 1,
            post.readings().drop_last() == pre.readings(),
            post.can_show(post.readings().last()),
            post.readings().last() >= pre.time().nanos ==> post.time().nanos
                == post.readings().last(),
            post.readings().last() < pre.time().nanos ==> post.time() == pre.time(),
    {
        assert(post.readings().drop_last() =~= pre.readings());
    }

    /// The first look at a clock and any number of looks after that, as long as what is read of
    /// `std::time::Instant::elapsed` never becomes less: the clock shows what was read, and
    /// between two looks as much time has passed on it as was read.
    pub proof fn keeps_pace(clocks: Seq<Clock>, i: int, j: int)
        requires
            0 < i <= j < clocks.len(),
            clocks[0].time().nanos == 0,
            forall|k: int|
                0 <= k < clocks.len() - 1 ==> Clock::ticks(#[trigger] clocks[k], clocks[k + 1]),
            forall|k: int|
                0 < k < clocks.len() - 1 ==> (#[trigger] clocks[k]).readings().last()
                    <= clocks[k + 1].readings().last(),
        ensures
            clocks[j].time().nanos == clocks[j].readings().last(),
            clocks[j].time().nanos - clocks[i].time().nanos == clocks[j].readings().last()
                - clocks[i].readings().last(),
        decreases j,
    {
        assert(Clock::ticks(clocks[j - 1], clocks[j - 1 + 1]));
        if i < j {
            Clock::keeps_pace(clocks, i, j - 1);
            assert(clocks[j - 1].readings().last() <= clocks[j - 1 + 1].readings().last());
        } else if j > 1 {
            Clock::keeps_pace(clocks, j - 1, j - 1);
            assert(clocks[j - 1].readings().last() <= clocks[j - 1 + 1].readings().last());
        }
    }
}

} // verus!
