//! Runtime tracking of frames per second.

use vstd::prelude::*;

verus! {

/// A frame timestamp is retained while it is no older than the period.
pub open spec fn is_retained(t: u64, period: u64, now: u64) -> bool {
    t as int + period as int >= now as int
}

/// The timestamps that survive pruning at time `now`, in order.
pub open spec fn retained(stamps: Seq<u64>, period: u64, now: u64) -> Seq<u64>
    decreases stamps.len(),
{
    if stamps.len() == 0 {
        Seq::empty()
    } else {
        let rest = retained(stamps.drop_last(), period, now);
        if is_retained(stamps.last(), period, now) {
            rest.push(stamps.last())
        } else {
            rest
        }
    }
}

/// Frames per second from a retained frame count and a period in
/// nanoseconds: the count divided by the period in seconds, truncated,
/// and saturated at the largest representable value.
pub open spec fn fps_value(count: int, period: int) -> int {
    if period <= 0 {
        u32::MAX as int
    } else if count * 1_000_000_000 / period > u32::MAX as int {
        u32::MAX as int
    } else {
        count * 1_000_000_000 / period
    }
}

/// Relies on std::time::SystemTime for the current time, in nanoseconds
/// since the UNIX epoch.  Nothing is assumed about the value.
#[verifier::external_body]
fn now_nanos() -> u64 {
    std::time::SystemTime::now().duration_since(std::time::UNIX_EPOCH).map(
        |d| d.as_nanos() as u64,
    ).unwrap_or(0)
}

/// Runtime tracking of FPS over a sliding period.
pub struct FpsTracker {
    period_nanos: u64,
    stamps: Vec<u64>,
}

impl FpsTracker {
    /// The period frames are counted over, in nanoseconds.
    pub closed spec fn spec_period(self) -> u64 {
        self.period_nanos
    }

    /// The retained frame timestamps, in nanoseconds, oldest first.
    pub closed spec fn spec_stamps(self) -> Seq<u64> {
        self.stamps@
    }

    /// Create a new tracker with a certain period to track over, given in
    /// nanoseconds.
    ///
    /// Also see `FpsTracker::default()` for a reasonable default period.
    pub fn new(period_nanos: u64) -> (t: FpsTracker)
        ensures
            t.spec_period() == period_nanos,
            t.spec_stamps() == Seq::<u64>::empty(),
    {
        FpsTracker { period_nanos, stamps: Vec::new() }
    }

    /// Drop every timestamp older than one period before `now`.
    fn prune(&mut self, now: u64)
        ensures
            final(self).spec_period() == old(self).spec_period(),
            final(self).spec_stamps() == retained(
                old(self).spec_stamps(),
                old(self).spec_period(),
                now,
            ),
    {
        let ghost stamps0 = self.stamps@;
        let ghost period = self.period_nanos;
        let mut kept: Vec<u64> = Vec::new();
        let mut i: usize = 0;
        while i < self.stamps.len()
            invariant
                i <= stamps0.len(),
                self.stamps@ == stamps0,
                self.period_nanos == period,
                kept@ == retained(stamps0.subrange(0, i as int), period, now),
            decreases stamps0.len() - i,
        {
            let t = self.stamps[i];
            proof {
                let pre = stamps0.subrange(0, i as int);
                let post = stamps0.subrange(0, i as int + 1);
                assert(post.drop_last() =~= pre);
                assert(post.last() == t);
            }
            if (t as u128) + (self.period_nanos as u128) >= (now as u128) {
                kept.push(t);
            }
            i = i + 1;
        }
        proof {
            assert(stamps0.subrange(0, stamps0.len() as int) =~= stamps0);
        }
        self.stamps = kept;
    }

    /// Register a frame at timestamp `now` (nanoseconds): timestamps older
    /// than one period are dropped and `now` is appended.
    pub fn log_frame_at(&mut self, now: u64)
        ensures
            final(self).spec_period() == old(self).spec_period(),
            final(self).spec_stamps() == retained(
                old(self).spec_stamps(),
                old(self).spec_period(),
                now,
            ).push(now),
    {
        self.prune(now);
        self.stamps.push(now);
    }

    /// Register a frame happening right now.
    pub fn log_frame(&mut self)
        ensures
            final(self).spec_period() == old(self).spec_period(),
            exists|now: u64|
                final(self).spec_stamps() == retained(
                    old(self).spec_stamps(),
                    old(self).spec_period(),
                    now,
                ).push(now),
    {
        let now = now_nanos();
        self.log_frame_at(now);
        proof {
            assert(final(self).spec_stamps() == retained(
                old(self).spec_stamps(),
                old(self).spec_period(),
                now,
            ).push(now));
        }
    }

    /// The FPS at timestamp `now`: prune, then divide the retained frame
    /// count by the period.
    pub fn fps_at(&mut self, now: u64) -> (fps: u32)
        ensures
            final(self).spec_period() == old(self).spec_period(),
            final(self).spec_stamps() == retained(
                old(self).spec_stamps(),
                old(self).spec_period(),
                now,
            ),
            fps as int == fps_value(
                final(self).spec_stamps().len() as int,
                old(self).spec_period() as int,
            ),
    {
        self.prune(now);
        if self.period_nanos == 0 {
            return u32::MAX;
        }
        let v: u128 = (self.stamps.len() as u128) * 1_000_000_000u128 / (
        self.period_nanos as u128);
        if v > (u32::MAX as u128) {
            u32::MAX
        } else {
            v as u32
        }
    }

    /// Compute the current FPS.
    pub fn get_fps(&mut self) -> (fps: u32)
        ensures
            final(self).spec_period() == old(self).spec_period(),
            exists|now: u64|
                final(self).spec_stamps() == retained(
                    old(self).spec_stamps(),
                    old(self).spec_period(),
                    now,
                ) && fps as int == fps_value(
                    final(self).spec_stamps().len() as int,
                    old(self).spec_period() as int,
                ),
    {
        let now = now_nanos();
        let fps = self.fps_at(now);
        fps
    }
}

impl Default for FpsTracker {
    /// A tracker over a one-second period.
    fn default() -> (t: FpsTracker)
        ensures
            t.spec_period() == 1_000_000_000u64,
            t.spec_stamps() == Seq::<u64>::empty(),
    {
        FpsTracker::new(1_000_000_000)
    }
}

} // verus!
