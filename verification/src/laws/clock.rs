//! What the clock filter estimates.

use vstd::prelude::*;
use crate::clocksync::{Estimate, best, best_is_least, in_range, recent, sample};

verus! {

/// Where the host clock is `ahead` of the client's, a ping takes `out` to the host, `hold` there
/// and `back` to the client, the estimate of the round trip is what it spent on the way, and that
/// of the offset is off by at most half of that: by half of what the ways differ.
pub proof fn estimate_of_an_exchange(
    t0: i64,
    t1: i64,
    t2: i64,
    t3: i64,
    ahead: int,
    out: int,
    hold: int,
    back: int,
)
    requires
        in_range(t0, t1, t2, t3),
        t1 == t0 + out + ahead,
        t2 == t1 + hold,
        t3 == t2 - ahead + back,
    ensures
        sample(t0, t1, t2, t3).rtt == out + back,
        2 * (sample(t0, t1, t2, t3).offset - ahead) <= out - back < 2 * (sample(
            t0,
            t1,
            t2,
            t3,
        ).offset - ahead) + 2,
        out == back ==> sample(t0, t1, t2, t3).offset == ahead,
        0 <= out && 0 <= back ==> -(out + back) - 1 <= 2 * (sample(t0, t1, t2, t3).offset - ahead)
            <= out + back,
{
}

/// The window is the last sixteen: what went before makes no difference once sixteen more have
/// come, and none of the last sixteen is forgotten.
pub proof fn window_is_the_last_sixteen(old: Seq<Estimate>, new: Seq<Estimate>)
    ensures
        new.len() >= 16 ==> recent(old + new) == recent(new) && recent(new).len() == 16,
        new.len() <= 16 ==> recent(new) == new,
        forall|i: int|
            0 <= i < recent(new).len() ==> #[trigger] recent(new)[i] == new[new.len() - recent(
                new,
            ).len() + i],
{
    if new.len() >= 16 {
        assert(recent(old + new) =~= recent(new));
    }
}

/// A later sample that is no worse takes over, and a worse one changes nothing.
pub proof fn later_and_better_wins(s: Seq<Estimate>, e: Estimate)
    requires
        s.len() > 0,
    ensures
        best(s.push(e)) == if e.rtt <= best(s).rtt {
            e
        } else {
            best(s)
        },
        forall|i: int| 0 <= i < s.len() ==> best(s).rtt <= (#[trigger] s[i]).rtt,
        s.contains(best(s)),
{
    assert(s.push(e).drop_last() =~= s);
    let at = best_is_least(s);
    assert(s[at] == best(s));
}

} // verus!
