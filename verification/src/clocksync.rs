//! Clock synchronization: a minimum filter over round-trip times.
//!
//! From each PING/PONG exchange with client times `t0` (send) and `t3` (PONG receive) and
//! host times `t1`, `t2`:
//! ```text
//! rtt    = (t3 - t0) - (t2 - t1)
//! offset = floor(((t1 - t0) + (t2 - t3)) / 2)      // host = client + offset
//! ```
//! All arithmetic is signed 64-bit microseconds; the division floors toward negative
//! infinity. The current estimate is that of the sample with the least round-trip time
//! over the last 16 samples; of equal ones the most recent wins.

use vstd::prelude::*;

verus! {

/// Sliding-window size.
pub const WINDOW: usize = 16;

/// A clock-offset and round-trip estimate in microseconds.
#[derive(Clone, Copy, Debug, PartialEq, Eq)]
pub struct Estimate {
    /// Round-trip time.
    pub rtt: i64,
    /// `host_time = client_time + offset`, approximately.
    pub offset: i64,
}

/// The minimum-round-trip sliding-window filter.
#[derive(Debug)]
pub struct ClockFilter {
    window: Vec<Estimate>,
}

/// The sums of one exchange that 64 bits must hold.
pub open spec fn in_range(t0: i64, t1: i64, t2: i64, t3: i64) -> bool {
    &&& i64::MIN <= t3 - t0 <= i64::MAX
    &&& i64::MIN <= t2 - t1 <= i64::MAX
    &&& i64::MIN <= (t3 - t0) - (t2 - t1) <= i64::MAX
    &&& i64::MIN <= t1 - t0 <= i64::MAX
    &&& i64::MIN <= t2 - t3 <= i64::MAX
    &&& i64::MIN <= (t1 - t0) + (t2 - t3) <= i64::MAX
}

/// The estimate of one exchange.
pub open spec fn sample(t0: i64, t1: i64, t2: i64, t3: i64) -> Estimate {
    Estimate {
        rtt: ((t3 - t0) - (t2 - t1)) as i64,
        offset: (((t1 - t0) + (t2 - t3)) / 2) as i64,
    }
}

/// The last 16 of `s`.
pub open spec fn recent(s: Seq<Estimate>) -> Seq<Estimate> {
    if s.len() > WINDOW {
        s.skip(s.len() - WINDOW)
    } else {
        s
    }
}

/// The sample with the least round-trip time, the most recent of equal ones.
pub open spec fn best(s: Seq<Estimate>) -> Estimate
    decreases s.len(),
{
    if s.len() <= 1 {
        s[0]
    } else if s.last().rtt <= best(s.drop_last()).rtt {
        s.last()
    } else {
        best(s.drop_last())
    }
}

/// The estimate is a sample of the window; no sample has a lesser round-trip time, and
/// every more recent one has a greater.
pub proof fn best_is_least(s: Seq<Estimate>) -> (at: int)
    requires
        s.len() > 0,
    ensures
        0 <= at < s.len(),
        s[at] == best(s),
        forall|i: int| 0 <= i < s.len() ==> best(s).rtt <= (#[trigger] s[i]).rtt,
        forall|i: int| at < i < s.len() ==> best(s).rtt < (#[trigger] s[i]).rtt,
    decreases s.len(),
{
    if s.len() == 1 {
        0
    } else {
        let t = s.drop_last();
        let j = best_is_least(t);
        assert(forall|i: int| 0 <= i < t.len() ==> #[trigger] t[i] == s[i]);
        assert forall|i: int| 0 <= i < s.len() implies best(s).rtt <= (#[trigger] s[i]).rtt by {
            if i < t.len() {
                assert(best(t).rtt <= t[i].rtt);
            }
        }
        if s.last().rtt <= best(t).rtt {
            s.len() - 1
        } else {
            assert forall|i: int| j < i < s.len() implies best(s).rtt < (#[trigger] s[i]).rtt by {
                if i < t.len() {
                    assert(best(t).rtt < t[i].rtt);
                }
            }
            j
        }
    }
}

/// Keeping the last 16 and adding one is adding one and keeping the last 16, so the
/// window always holds the last 16 of all samples.
pub proof fn window_is_recent(all: Seq<Estimate>, e: Estimate)
    ensures
        recent(recent(all).push(e)) == recent(all.push(e)),
{
    assert(recent(recent(all).push(e)) =~= recent(all.push(e)));
}

impl View for ClockFilter {
    type V = Seq<Estimate>;

    closed spec fn view(&self) -> Seq<Estimate> {
        self.window@
    }
}

impl Clone for ClockFilter {
    fn clone(&self) -> (r: Self)
        ensures
            r@ == self@,
    {
        let window: Vec<Estimate> = self.window.clone();
        assert(window@ =~= self.window@);
        ClockFilter { window }
    }
}

impl Default for ClockFilter {
    fn default() -> (r: Self)
        ensures
            r@ == Seq::<Estimate>::empty(),
    {
        Self::new()
    }
}

impl ClockFilter {
    /// A fresh, empty filter.
    pub fn new() -> (r: Self)
        ensures
            r@ == Seq::<Estimate>::empty(),
    {
        Self { window: Vec::new() }
    }

    /// Incorporate one PING/PONG sample and return the current estimate.
    ///
    /// `t0`, `t3` are client-clock microseconds (ping send, pong receive); `t1`, `t2` are
    /// host-clock microseconds (host receive, host send).
    pub fn push(&mut self, t0: i64, t1: i64, t2: i64, t3: i64) -> (r: Estimate)
        requires
            in_range(t0, t1, t2, t3),
            old(self)@.len() <= WINDOW,
        ensures
            final(self)@ == recent(old(self)@.push(sample(t0, t1, t2, t3))),
            final(self)@.len() <= WINDOW,
            r == best(final(self)@),
    {
        let rtt: i64 = (t3 - t0) - (t2 - t1);
        let sum: i64 = (t1 - t0) + (t2 - t3);
        // Rounds toward negative infinity.
        let offset: i64 = match sum.checked_div_euclid(2) {
            Some(half) => half,
            None => 0,
        };
        self.window.push(Estimate { rtt, offset });
        if self.window.len() > WINDOW {
            self.window.remove(0);
        }
        assert(self@ =~= recent(old(self)@.push(sample(t0, t1, t2, t3))));
        // Over the samples from the oldest to the newest, `<=` lets the later of two equal
        // ones win.
        let mut found: Estimate = self.window[0];
        let mut i: usize = 1;
        assert(self@.take(1).len() == 1);
        while i < self.window.len()
            invariant
                1 <= i <= self@.len(),
                self@ == self.window@,
                found == best(self@.take(i as int)),
            decreases self@.len() - i,
        {
            proof {
                assert(self@.take(i + 1).drop_last() =~= self@.take(i as int));
                assert(self@.take(i + 1).last() == self@[i as int]);
            }
            if self.window[i].rtt <= found.rtt {
                found = self.window[i];
            }
            i += 1;
        }
        assert(self@.take(i as int) =~= self@);
        found
    }
}

/// The samples of a series of exchanges, each `(t0, t1, t2, t3)`.
pub open spec fn samples(s: Seq<(i64, i64, i64, i64)>) -> Seq<Estimate> {
    Seq::new(s.len(), |i: int| sample(s[i].0, s[i].1, s[i].2, s[i].3))
}

/// The estimates after each exchange of a series: every one is the best of the last 16 samples
/// so far.
pub fn estimates(series: &[(i64, i64, i64, i64)]) -> (r: Vec<Estimate>)
    requires
        forall|i: int|
            0 <= i < series@.len() ==> in_range(
                (#[trigger] series@[i]).0,
                series@[i].1,
                series@[i].2,
                series@[i].3,
            ),
    ensures
        r@.len() == series@.len(),
        forall|i: int|
            0 <= i < r@.len() ==> #[trigger] r@[i] == best(recent(samples(series@).take(i + 1))),
{
    let ghost all = samples(series@);
    let mut filter: ClockFilter = ClockFilter::new();
    let mut out: Vec<Estimate> = Vec::new();
    let mut k: usize = 0;
    assert(recent(all.take(0)) =~= Seq::empty());
    while k < series.len()
        invariant
            k <= series@.len(),
            all == samples(series@),
            forall|i: int|
                0 <= i < series@.len() ==> in_range(
                    (#[trigger] series@[i]).0,
                    series@[i].1,
                    series@[i].2,
                    series@[i].3,
                ),
            filter@ == recent(all.take(k as int)),
            out@.len() == k,
            forall|i: int|
                0 <= i < out@.len() ==> #[trigger] out@[i] == best(recent(all.take(i + 1))),
        decreases series@.len() - k,
    {
        proof {
            assert(all.take(k + 1) =~= all.take(k as int).push(all[k as int]));
            window_is_recent(all.take(k as int), all[k as int]);
        }
        let s: (i64, i64, i64, i64) = series[k];
        let e: Estimate = filter.push(s.0, s.1, s.2, s.3);
        out.push(e);
        k += 1;
    }
    out
}

} // verus!
