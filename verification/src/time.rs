use vstd::prelude::*;

verus! {

/// An absolute point in time, counted in nanoseconds since the Unix epoch.
///
/// Trace lines carry absolute `seconds.fraction` timestamps; the whole
/// pipeline orders and rewrites them, so a single signed nanosecond count
/// is the working representation. Instants whose nanosecond count does not
/// fit in an `i64` are rejected by the line scanner as invalid.
#[derive(Debug, Clone, Copy, PartialEq, Eq, Structural)]
pub struct Timestamp {
    pub nanos: i64,
}

impl Timestamp {
    /// Builds the timestamp `seconds.fraction` from a whole-second count and
    /// a fractional-second nanosecond count.
    pub fn new(seconds: i64, nanoseconds: u32) -> (r: Timestamp)
        requires
            i64::MIN <= seconds * 1_000_000_000 + nanoseconds <= i64::MAX,
        ensures
            r.nanos == seconds * 1_000_000_000 + nanoseconds,
    {
        let total: i128 = (seconds as i128) * 1_000_000_000 + (nanoseconds as i128);
        Timestamp { nanos: total as i64 }
    }

    /// Same combination as `new`, but reports instead of excluding overflow.
    pub fn checked_new(seconds: i64, nanoseconds: u32) -> (r: Option<Timestamp>)
        ensures
            match r {
                Some(t) => t.nanos == seconds * 1_000_000_000 + nanoseconds,
                None => !(i64::MIN <= seconds * 1_000_000_000 + nanoseconds <= i64::MAX),
            },
    {
        let total: i128 = (seconds as i128) * 1_000_000_000 + (nanoseconds as i128);
        if i64::MIN as i128 <= total && total <= i64::MAX as i128 {
            Some(Timestamp { nanos: total as i64 })
        } else {
            None
        }
    }

    /// The nanosecond count itself.
    pub fn as_nanosecond(&self) -> (r: i64)
        ensures
            r == self.nanos,
    {
        self.nanos
    }
}

/// A non-negative span of time: how long a system call ran.
///
/// The invariant `wf` keeps the nanosecond part below one second, as the
/// scanner always produces it.
#[derive(Debug, Clone, Copy, PartialEq, Eq, Structural)]
pub struct Duration {
    pub secs: u64,
    pub nanos: u32,
}

impl Duration {
    pub open spec fn wf(self) -> bool {
        self.nanos < 1_000_000_000
    }

    pub fn new(secs: u64, nanos: u32) -> (r: Duration)
        ensures
            r.secs == secs,
            r.nanos == nanos,
    {
        Duration { secs, nanos }
    }
}

} // verus!
