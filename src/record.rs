use vstd::prelude::*;

verus! {

/// Counter and statistics kept for one (namespace, value) pair.
#[derive(Clone, Copy, Debug, PartialEq, Eq, Structural)]
pub struct Record {
    /// Occurrences counted in the current decay period.
    pub count: u64,
    /// `count` as it stood when the previous decay period ended.
    pub shadow_count: u64,
    /// Time of the first write ever made to this pair.
    pub first_seen: u64,
    /// Time of the most recent write.
    pub last_seen: u64,
    /// Start of the current counting period.
    pub last_decay_at: u64,
}

/// Start of the decay period that holds `t`. A period of zero turns decay off.
pub open spec fn period_start(t: u64, period: u64) -> u64 {
    if period == 0 {
        0
    } else {
        (t - t % period) as u64
    }
}

/// Whether a write at `t` lies past the end of the counting period of `r`.
pub open spec fn crosses_boundary(r: Record, t: u64, period: u64) -> bool {
    period > 0 && t >= r.last_decay_at + period
}

/// Whether a write moves `count` into `shadow_count` before counting.
pub open spec fn rotates(r: Record, t: u64, period: u64, suppress_shadow: bool) -> bool {
    !suppress_shadow && crosses_boundary(r, t, period)
}

/// The record that the first write to a pair creates.
pub open spec fn fresh(t: u64, period: u64) -> Record {
    Record {
        count: 1,
        shadow_count: 0,
        first_seen: t,
        last_seen: t,
        last_decay_at: period_start(t, period),
    }
}

/// Whether a further write to `r` can be counted without overflow.
pub open spec fn can_bump(r: Record, t: u64, period: u64, suppress_shadow: bool) -> bool {
    rotates(r, t, period, suppress_shadow) || r.count < u64::MAX
}

/// The record after one more write at `t`.
pub open spec fn bumped(r: Record, t: u64, period: u64, suppress_shadow: bool) -> Record {
    if rotates(r, t, period, suppress_shadow) {
        Record {
            count: 1,
            shadow_count: r.count,
            first_seen: r.first_seen,
            last_seen: t,
            last_decay_at: period_start(t, period),
        }
    } else {
        Record {
            count: (r.count + 1) as u64,
            shadow_count: r.shadow_count,
            first_seen: r.first_seen,
            last_seen: t,
            last_decay_at: r.last_decay_at,
        }
    }
}

pub fn compute_period_start(t: u64, period: u64) -> (r: u64)
    ensures
        r == period_start(t, period),
        r <= t,
        period > 0 ==> t < r + period,
{
    if period == 0 {
        0
    } else {
        let m = t % period;
        assert(m <= t) by (nonlinear_arith)
            requires
                m == t % period,
                period > 0,
        ;
        t - m
    }
}

impl Record {
    /// The record that a first write at `t` creates.
    pub fn first(t: u64, period: u64) -> (r: Record)
        ensures
            r == fresh(t, period),
    {
        Record {
            count: 1,
            shadow_count: 0,
            first_seen: t,
            last_seen: t,
            last_decay_at: compute_period_start(t, period),
        }
    }

    /// Counts one more write at `t`, rotating into the shadow slot when a
    /// period boundary was crossed; `None` where the count would overflow.
    pub fn bump(&self, t: u64, period: u64, suppress_shadow: bool) -> (r: Option<Record>)
        ensures
            r == (if can_bump(*self, t, period, suppress_shadow) {
                Some(bumped(*self, t, period, suppress_shadow))
            } else {
                None
            }),
    {
        let crosses = period > 0 && t >= self.last_decay_at && t - self.last_decay_at >= period;
        if !suppress_shadow && crosses {
            Some(
                Record {
                    count: 1,
                    shadow_count: self.count,
                    first_seen: self.first_seen,
                    last_seen: t,
                    last_decay_at: compute_period_start(t, period),
                },
            )
        } else if self.count < u64::MAX {
            Some(
                Record {
                    count: self.count + 1,
                    shadow_count: self.shadow_count,
                    first_seen: self.first_seen,
                    last_seen: t,
                    last_decay_at: self.last_decay_at,
                },
            )
        } else {
            None
        }
    }
}

/// A write keeps `first_seen` and sets `last_seen` to its own time.
pub proof fn lemma_bump_timestamps(r: Record, t: u64, period: u64, suppress_shadow: bool)
    ensures
        bumped(r, t, period, suppress_shadow).first_seen == r.first_seen,
        bumped(r, t, period, suppress_shadow).last_seen == t,
        fresh(t, period).first_seen == t,
        fresh(t, period).last_seen == t,
{
}

/// Within one counting period a write adds one to `count` and leaves
/// `shadow_count` alone; the first write past the boundary moves `count`
/// into `shadow_count` and restarts at one.
pub proof fn lemma_decay(r: Record, t: u64, period: u64)
    requires
        can_bump(r, t, period, false),
    ensures
        !crosses_boundary(r, t, period) ==> bumped(r, t, period, false).count == r.count + 1
            && bumped(r, t, period, false).shadow_count == r.shadow_count,
        crosses_boundary(r, t, period) ==> bumped(r, t, period, false).count == 1
            && bumped(r, t, period, false).shadow_count == r.count,
{
}

/// A rotation happens once per boundary: after the first write of a new
/// period, a later write within that same period does not rotate again.
pub proof fn lemma_rotation_once(r: Record, t: u64, t2: u64, period: u64)
    requires
        crosses_boundary(r, t, period),
        t <= t2,
        period_start(t2, period) == period_start(t, period),
    ensures
        !crosses_boundary(bumped(r, t, period, false), t2, period),
{
    let s = t2 % period;
    assert(s < period) by (nonlinear_arith)
        requires
            s == t2 % period,
            period > 0,
    ;
}

/// A record that writes reach in time order keeps `first_seen <= last_seen`,
/// and every stored record has counted at least one write.
pub proof fn lemma_bump_in_order(r: Record, t: u64, period: u64, suppress_shadow: bool)
    requires
        r.first_seen <= r.last_seen,
        r.last_seen <= t,
        can_bump(r, t, period, suppress_shadow),
    ensures
        bumped(r, t, period, suppress_shadow).first_seen <= bumped(r, t, period, suppress_shadow).last_seen,
        bumped(r, t, period, suppress_shadow).count >= 1,
        fresh(t, period).first_seen <= fresh(t, period).last_seen,
{
}

} // verus!
