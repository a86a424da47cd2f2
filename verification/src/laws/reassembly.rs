//! What a receiver does with the fragments of any frame.

use vstd::prelude::*;
use crate::reassembly::{
    Event, Fragment, Held, Receiver, arrived, arrived_bound, fresh, holds, lemma_older,
    of_one_frame, older, orderly, played, played_sound, step, step_orderly,
};

verus! {

/// What the receiver holds of frame `seq`: nothing, or the frame with its fragments so far.
pub open spec fn held_of(m: Receiver, seq: u32, h: Option<Held>) -> bool {
    match h {
        Some(h) => h.frame_seq == seq && m.window.contains(h),
        None => forall|i: int| 0 <= i < m.window.len() ==> (#[trigger] m.window[i]).frame_seq != seq,
    }
}

/// The window takes the frame in: it holds fewer than two frames, or one that is not newer.
pub open spec fn has_room(m: Receiver, seq: u32) -> bool {
    m.window.len() < 2 || exists|i: int|
        0 <= i < m.window.len() && (#[trigger] m.window[i]).frame_seq <= seq
}

/// The fragments of a frame once `f` is among them.
pub open spec fn with_fragment(h: Option<Held>, f: Fragment) -> Held {
    match h {
        Some(h) => Held { have: h.have.insert(f.frag_index), ..h },
        None => Held {
            frame_seq: f.frame_seq,
            need: f.frag_count,
            have: Set::empty().insert(f.frag_index),
            keyframe: f.keyframe,
        },
    }
}

/// The test for a frame older than `seq`.
pub open spec fn is_older(seq: u32) -> spec_fn(Held) -> bool {
    |h: Held| h.frame_seq < seq
}

/// How many held frames are older than `seq`.
pub open spec fn count_older(m: Receiver, seq: u32) -> nat {
    m.window.filter(is_older(seq)).len()
}

/// A receiver starts with nothing: no frame, no event, no counts, no request.
pub proof fn starts_with_nothing()
    ensures
        fresh().window.len() == 0,
        fresh().events.len() == 0,
        fresh().newest == -1,
        fresh().last_decoded is None,
        fresh().dropped_incomplete == 0,
        fresh().discarded_gap == 0,
        fresh().stale_fragments == 0,
        !fresh().idr_outstanding,
        fresh().idr_last_t is None,
        fresh().idr_last_good is None,
{
}

proof fn lemma_found(m: Receiver, seq: u32, h: Option<Held>)
    requires
        orderly(m),
        held_of(m, seq, h),
    ensures
        holds(m.window, seq) == (h is Some),
        h is Some ==> m.window[older(m.window, seq) as int] == h->0,
{
    let w = m.window;
    lemma_older(w, seq);
    let at = older(w, seq) as int;
    match h {
        Some(x) => {
            let i = choose|i: int| 0 <= i < w.len() && w[i] == x;
            assert(w[i].frame_seq == seq);
            if at < i {
                assert(w[at].frame_seq < w[i].frame_seq);
            }
        },
        None => {},
    }
}

proof fn lemma_count(m: Receiver, seq: u32)
    requires
        orderly(m),
    ensures
        count_older(m, seq) == older(m.window, seq),
{
    let w = m.window;
    let p = is_older(seq);
    lemma_older(w, seq);
    reveal_with_fuel(Seq::filter, 4);
    if w.len() == 1 {
        assert(w.drop_last() =~= Seq::empty());
        assert(p(w[0]) == (w[0].frame_seq < seq));
    } else if w.len() == 2 {
        assert(w.drop_last().drop_last() =~= Seq::empty());
        assert(w.drop_last().last() == w[0]);
        assert(p(w[0]) == (w[0].frame_seq < seq));
        assert(p(w[1]) == (w[1].frame_seq < seq));
    }
}

/// A fragment of a frame that is not newer than every completed one, or that the full window of
/// newer frames has no room for, is counted as stale and changes nothing else.
pub proof fn late_fragment_is_stale(m: Receiver, t: i64, f: Fragment)
    requires
        orderly(m),
        f.frame_seq <= m.newest || !has_room(m, f.frame_seq),
    ensures
        step(m, t as int, f) == (Receiver { stale_fragments: m.stale_fragments + 1, ..m }),
{
    lemma_older(m.window, f.frame_seq);
    if f.frame_seq > m.newest {
        let at = older(m.window, f.frame_seq) as int;
        if at > 0 {
            assert(m.window[0].frame_seq <= f.frame_seq);
        }
    }
}

/// While fragments are missing nothing happens but that the fragment is kept: no event, no
/// delivery, no discarded frame. A new frame that finds the window full takes the place of the
/// oldest, which is counted as dropped; every other frame stays.
pub proof fn incomplete_frame_is_kept(m: Receiver, t: i64, f: Fragment, h: Option<Held>)
    requires
        orderly(m),
        f.frame_seq > m.newest,
        has_room(m, f.frame_seq),
        held_of(m, f.frame_seq, h),
        with_fragment(h, f).have.len() != with_fragment(h, f).need,
    ensures
        ({
            let r = step(m, t as int, f);
            let evicts = h is None && m.window.len() == 2;
            &&& r.events == m.events
            &&& r.newest == m.newest
            &&& r.last_decoded == m.last_decoded
            &&& r.idr_outstanding == m.idr_outstanding
            &&& r.idr_last_t == m.idr_last_t
            &&& r.idr_last_good == m.idr_last_good
            &&& r.discarded_gap == m.discarded_gap
            &&& r.stale_fragments == m.stale_fragments
            &&& r.dropped_incomplete == m.dropped_incomplete + if evicts {
                1int
            } else {
                0
            }
            &&& r.window.contains(with_fragment(h, f))
            &&& r.window.len() == m.window.len() + if h is None && !evicts {
                1int
            } else {
                0
            }
            &&& forall|i: int|
                0 <= i < m.window.len() && (#[trigger] m.window[i]).frame_seq != f.frame_seq && !(
                evicts && i == 0) ==> r.window.contains(m.window[i])
        }),
{
    let s = f.frame_seq;
    let w = m.window;
    let r = step(m, t as int, f);
    lemma_older(w, s);
    lemma_found(m, s, h);
    let at = older(w, s) as int;
    if h is None && w.len() == 2 {
        let i = choose|i: int| 0 <= i < w.len() && (#[trigger] w[i]).frame_seq <= s;
        assert(at > 0);
        lemma_admitted_place(m, f);
        assert(r.window[at - 1] == with_fragment(h, f));
        assert forall|i: int|
            0 <= i < w.len() && (#[trigger] w[i]).frame_seq != s && i != 0 implies r.window.contains(
            w[i],
        ) by {
            let q = if i < at { i - 1 } else { i };
            assert(r.window[q] == w[i]);
        }
    } else if h is None {
        lemma_admitted_place(m, f);
        assert(r.window[at] == with_fragment(h, f));
        assert forall|i: int|
            0 <= i < w.len() && (#[trigger] w[i]).frame_seq != s implies r.window.contains(w[i]) by {
            let q = if i < at { i } else { i + 1 };
            assert(r.window[q] == w[i]);
        }
    } else {
        assert(r.window[at] == with_fragment(h, f));
        assert forall|i: int|
            0 <= i < w.len() && (#[trigger] w[i]).frame_seq != s implies r.window.contains(w[i]) by {
            assert(r.window[i] == w[i]);
        }
    }
}

/// Where a frame that is new to the window stands in it.
proof fn lemma_admitted_place(m: Receiver, f: Fragment)
    requires
        orderly(m),
        f.frame_seq > m.newest,
        !holds(m.window, f.frame_seq),
        m.window.len() < 2 || older(m.window, f.frame_seq) > 0,
    ensures
        ({
            let a = crate::reassembly::admitted(m, f).window;
            let at = older(m.window, f.frame_seq) as int;
            let p = if m.window.len() >= 2 { at - 1 } else { at };
            &&& older(a, f.frame_seq) == p
            &&& 0 <= p < a.len()
            &&& a[p] == crate::reassembly::empty_frame(f)
            &&& a.len() == if m.window.len() >= 2 { 2 } else { m.window.len() + 1 }
        }),
{
    let w = m.window;
    lemma_older(w, f.frame_seq);
    let at = older(w, f.frame_seq) as int;
    let a = crate::reassembly::admitted(m, f).window;
    let p = if w.len() >= 2 { at - 1 } else { at };
    assert(a[p] == crate::reassembly::empty_frame(f));
    assert forall|i: int, j: int| 0 <= i < j < a.len() implies (#[trigger] a[i]).frame_seq < (
    #[trigger] a[j]).frame_seq by {
        if w.len() >= 2 {
            let x = if i < p { i + 1 } else { i };
            let y = if j < p { j + 1 } else { j };
            if i != p {
                assert(a[i] == w[x]);
            }
            if j != p {
                assert(a[j] == w[y]);
            }
        } else {
            let x = if i < p { i } else { i - 1 };
            let y = if j < p { j } else { j - 1 };
            if i != p {
                assert(a[i] == w[x]);
            }
            if j != p {
                assert(a[j] == w[y]);
            }
        }
    }
    lemma_older(a, f.frame_seq);
    let q = older(a, f.frame_seq) as int;
    if q < p {
        assert(a[q].frame_seq < a[p].frame_seq);
    }
}

/// The fragment that completes a frame ends it, whatever its number of fragments: the frame is
/// the newest, it and every older one leave the window, and the older ones count as dropped.
pub proof fn complete_frame_leaves(m: Receiver, t: i64, f: Fragment, h: Option<Held>)
    requires
        orderly(m),
        f.frame_seq > m.newest,
        has_room(m, f.frame_seq),
        held_of(m, f.frame_seq, h),
        with_fragment(h, f).have.len() == with_fragment(h, f).need,
    ensures
        ({
            let r = step(m, t as int, f);
            &&& r.newest == f.frame_seq
            &&& r.dropped_incomplete == m.dropped_incomplete + count_older(m, f.frame_seq)
            &&& r.stale_fragments == m.stale_fragments
            &&& forall|x: Held| #[trigger]
                r.window.contains(x) <==> m.window.contains(x) && x.frame_seq > f.frame_seq
        }),
{
    let s = f.frame_seq;
    let w = m.window;
    let r = step(m, t as int, f);
    lemma_older(w, s);
    lemma_found(m, s, h);
    lemma_count(m, s);
    let at = older(w, s) as int;
    if h is None {
        if w.len() == 2 {
            let i = choose|i: int| 0 <= i < w.len() && (#[trigger] w[i]).frame_seq <= s;
            assert(at > 0);
        }
        lemma_admitted_place(m, f);
    }
    let base = if h is None { at } else { at + 1 };
    assert(r.window =~= w.skip(base));
    assert forall|x: Held| #[trigger] r.window.contains(x) <==> w.contains(x) && x.frame_seq > s by {
        if r.window.contains(x) {
            let k = choose|k: int| 0 <= k < r.window.len() && r.window[k] == x;
            assert(w[base + k] == x);
            if h is Some {
                assert(w[at].frame_seq < w[base + k].frame_seq);
            }
        }
        if w.contains(x) && x.frame_seq > s {
            let k = choose|k: int| 0 <= k < w.len() && w[k] == x;
            assert(k >= base);
            assert(r.window[k - base] == x);
        }
    }
}

/// A frame that completes is delivered if it is a keyframe or directly follows the last frame
/// that was: one event is appended, its delivery with the fragment that completed it, and
/// nothing is discarded.
pub proof fn complete_frame_is_delivered(m: Receiver, t: i64, f: Fragment, h: Option<Held>)
    requires
        orderly(m),
        f.frame_seq > m.newest,
        has_room(m, f.frame_seq),
        held_of(m, f.frame_seq, h),
        with_fragment(h, f).have.len() == with_fragment(h, f).need,
        with_fragment(h, f).keyframe || m.last_decoded == Some(f.frame_seq - 1),
    ensures
        ({
            let r = step(m, t as int, f);
            let keyframe = with_fragment(h, f).keyframe;
            &&& r.events == m.events.push(
                Event::Deliver { t_ms: t, frame_seq: f.frame_seq, keyframe },
            )
            &&& r.last_decoded == Some(f.frame_seq as int)
            &&& r.discarded_gap == m.discarded_gap
            &&& r.idr_outstanding == (m.idr_outstanding && !(keyframe && (m.idr_last_good is None
                || m.idr_last_good->0 < f.frame_seq)))
            &&& r.idr_last_t == m.idr_last_t
            &&& r.idr_last_good == m.idr_last_good
        }),
{
    lemma_older(m.window, f.frame_seq);
    lemma_found(m, f.frame_seq, h);
    if h is None {
        if m.window.len() == 2 {
            let i = choose|i: int|
                0 <= i < m.window.len() && (#[trigger] m.window[i]).frame_seq <= f.frame_seq;
            assert(older(m.window, f.frame_seq) > 0);
        }
        lemma_admitted_place(m, f);
    }
}

/// A frame that completes and neither is a keyframe nor follows the last delivered one is
/// discarded, and a keyframe is asked for: unless a request is outstanding, or the last one is
/// less than 250 ms old.
pub proof fn broken_chain_asks_for_keyframe(m: Receiver, t: i64, f: Fragment, h: Option<Held>)
    requires
        orderly(m),
        f.frame_seq > m.newest,
        has_room(m, f.frame_seq),
        held_of(m, f.frame_seq, h),
        with_fragment(h, f).have.len() == with_fragment(h, f).need,
        !with_fragment(h, f).keyframe,
        m.last_decoded != Some(f.frame_seq - 1),
    ensures
        ({
            let r = step(m, t as int, f);
            let asks = !m.idr_outstanding && (m.idr_last_t is None || t >= m.idr_last_t->0 + 250);
            &&& r.discarded_gap == m.discarded_gap + 1
            &&& r.last_decoded == m.last_decoded
            &&& asks ==> r.idr_last_good == m.last_decoded
            &&& !asks ==> r.idr_last_good == m.idr_last_good
            &&& asks ==> r.idr_outstanding && r.idr_last_t == Some(t as int) && r.events.len()
                == m.events.len() + 1 && r.events.drop_last() == m.events
                && r.events.last() is IdrRequest && r.events.last()->IdrRequest_t_ms == t && (
            m.last_decoded is Some ==> r.events.last()->last_good == m.last_decoded->0) && (
            m.last_decoded is None ==> r.events.last()->last_good == 0)
            &&& !asks ==> r.events == m.events && r.idr_outstanding == m.idr_outstanding
                && r.idr_last_t == m.idr_last_t
        }),
{
    lemma_older(m.window, f.frame_seq);
    lemma_found(m, f.frame_seq, h);
    if h is None {
        if m.window.len() == 2 {
            let i = choose|i: int|
                0 <= i < m.window.len() && (#[trigger] m.window[i]).frame_seq <= f.frame_seq;
            assert(older(m.window, f.frame_seq) > 0);
        }
        lemma_admitted_place(m, f);
    }
    let r = step(m, t as int, f);
    if r.events.len() > m.events.len() {
        assert(r.events.drop_last() =~= m.events);
    }
}

/// A receiver after a trace that starts from `m`.
pub open spec fn played_from(m: Receiver, trace: Seq<(i64, Fragment)>) -> Receiver
    decreases trace.len(),
{
    if trace.len() == 0 {
        m
    } else {
        step(played_from(m, trace.drop_last()), trace.last().0 as int, trace.last().1)
    }
}

/// A frame of any number of fragments is delivered once all of them have arrived, in any order
/// and however often each comes, if it is a keyframe or follows the last delivered frame: exactly
/// one event is appended, its delivery with the fragment that completed it, and nothing is
/// discarded. Before that nothing happens.
pub proof fn frame_is_delivered_once(
    m: Receiver,
    trace: Seq<(i64, Fragment)>,
    seq: u32,
    count: u16,
    keyframe: bool,
)
    requires
        orderly(m),
        m.newest < seq,
        has_room(m, seq),
        held_of(m, seq, None),
        keyframe || m.last_decoded == Some(seq - 1),
        of_one_frame(trace, seq, count, keyframe),
        0 < count,
    ensures
        ({
            let r = played_from(m, trace);
            let all = arrived(trace).len() == count;
            &&& r.discarded_gap == m.discarded_gap
            &&& !all ==> r.events == m.events && r.last_decoded == m.last_decoded
            &&& all ==> {
                &&& r.last_decoded == Some(seq as int)
                &&& r.events.len() == m.events.len() + 1
                &&& r.events.drop_last() == m.events
                &&& r.events.last() is Deliver
                &&& r.events.last()->frame_seq == seq
                &&& r.events.last()->keyframe == keyframe
                &&& arrived(trace.drop_last()).len() < count ==> r.events.last()->Deliver_t_ms
                    == trace.last().0
            }
        }),
    decreases trace.len(),
{
    lemma_one_frame_state(m, trace, seq, count, keyframe);
}

proof fn lemma_one_frame_state(
    m: Receiver,
    trace: Seq<(i64, Fragment)>,
    seq: u32,
    count: u16,
    keyframe: bool,
)
    requires
        orderly(m),
        m.newest < seq,
        has_room(m, seq),
        held_of(m, seq, None),
        keyframe || m.last_decoded == Some(seq - 1),
        of_one_frame(trace, seq, count, keyframe),
        0 < count,
    ensures
        ({
            let r = played_from(m, trace);
            let all = arrived(trace).len() == count;
            let h = Held { frame_seq: seq, need: count, have: arrived(trace), keyframe };
            &&& orderly(r)
            &&& r.discarded_gap == m.discarded_gap
            &&& trace.len() == 0 ==> r == m
            &&& trace.len() > 0 && !all ==> r.window.contains(h)
            &&& !all ==> r.newest == m.newest && r.events == m.events && r.last_decoded
                == m.last_decoded
            &&& all ==> {
                &&& trace.len() > 0
                &&& r.newest == seq
                &&& r.last_decoded == Some(seq as int)
                &&& r.events.len() == m.events.len() + 1
                &&& r.events.drop_last() == m.events
                &&& r.events.last() is Deliver
                &&& r.events.last()->frame_seq == seq
                &&& r.events.last()->keyframe == keyframe
                &&& arrived(trace.drop_last()).len() < count ==> r.events.last()->Deliver_t_ms
                    == trace.last().0
            }
        }),
    decreases trace.len(),
{
    arrived_bound(trace, seq, count, keyframe);
    if trace.len() > 0 {
        let before = trace.drop_last();
        let (t, f) = trace.last();
        assert(trace[trace.len() - 1] == (t, f));
        assert forall|i: int| 0 <= i < before.len() implies ({
            let f = (#[trigger] before[i]).1;
            f.frame_seq == seq && f.frag_count == count && f.keyframe == keyframe && f.frag_index
                < count
        }) by {
            assert(before[i] == trace[i]);
        }
        lemma_one_frame_state(m, before, seq, count, keyframe);
        arrived_bound(before, seq, count, keyframe);
        let r = played_from(m, before);
        step_orderly(r, t as int, f);
        if arrived(before).len() == count {
            assert(arrived(trace) =~= arrived(before));
            late_fragment_is_stale(r, t, f);
        } else {
            let h = if before.len() == 0 {
                None
            } else {
                Some(Held { frame_seq: seq, need: count, have: arrived(before), keyframe })
            };
            if before.len() > 0 {
                let i = choose|i: int| 0 <= i < r.window.len() && r.window[i] == h->0;
                assert(r.window[i].frame_seq <= seq);
            }
            assert(with_fragment(h, f).have =~= arrived(trace));
            if arrived(trace).len() == count {
                complete_frame_is_delivered(r, t, f, h);
                complete_frame_leaves(r, t, f, h);
                assert(played_from(m, trace).events.drop_last() =~= m.events);
            } else {
                incomplete_frame_is_kept(r, t, f, h);
            }
        }
    }
}

/// The fragments of frame `seq` among all that have arrived.
pub open spec fn arrived_of(trace: Seq<(i64, Fragment)>, seq: u32) -> Set<u16>
    decreases trace.len(),
{
    if trace.len() == 0 {
        Set::empty()
    } else if trace.last().1.frame_seq == seq {
        arrived_of(trace.drop_last(), seq).insert(trace.last().1.frag_index)
    } else {
        arrived_of(trace.drop_last(), seq)
    }
}

/// Whatever arrives and however it is mixed: a frame in the window has exactly the fragments of
/// it that have arrived.
pub proof fn held_is_what_arrived(trace: Seq<(i64, Fragment)>, h: Held)
    requires
        played(trace).window.contains(h),
    ensures
        h.have == arrived_of(trace, h.frame_seq),
{
    lemma_held(trace);
    let w = played(trace).window;
    let i = choose|i: int| 0 <= i < w.len() && w[i] == h;
    assert(w[i].have == arrived_of(trace, w[i].frame_seq));
}

/// A frame that is not in the window and that the window still takes in has no fragment yet.
proof fn lemma_held(trace: Seq<(i64, Fragment)>)
    ensures
        forall|i: int|
            0 <= i < played(trace).window.len() ==> (#[trigger] played(trace).window[i]).have
                == arrived_of(trace, played(trace).window[i].frame_seq),
        forall|s: u32|
            #![trigger arrived_of(trace, s)]
            s > played(trace).newest && has_room(played(trace), s) && held_of(
                played(trace),
                s,
                None,
            ) ==> arrived_of(trace, s) == Set::<u16>::empty(),
    decreases trace.len(),
{
    if trace.len() > 0 {
        let before = trace.drop_last();
        let (t, f) = trace.last();
        lemma_held(before);
        played_sound(before);
        played_sound(trace);
        let m = played(before);
        let r = played(trace);
        let s = f.frame_seq;
        if s <= m.newest || !has_room(m, s) {
            late_fragment_is_stale(m, t, f);
            assert forall|i: int| 0 <= i < r.window.len() implies (#[trigger] r.window[i]).have
                == arrived_of(trace, r.window[i].frame_seq) by {
                assert(m.window[i].have == arrived_of(before, m.window[i].frame_seq));
                if m.window[i].frame_seq == s {
                    assert(has_room(m, s));
                }
            }
            assert forall|x: u32|
                #![trigger arrived_of(trace, x)]
                x > r.newest && has_room(r, x) && held_of(r, x, None) implies arrived_of(trace, x)
                == Set::<u16>::empty() by {
                assert(arrived_of(before, x) == Set::<u16>::empty()) by {
                    lemma_room_same(m, r, x);
                }
                if x == s {
                    lemma_room_same(m, r, x);
                }
            }
        } else {
            assert(before.push((t, f)) =~= trace);
            lemma_held_step(before, t, f);
        }
    }
}

proof fn lemma_room_same(m: Receiver, r: Receiver, x: u32)
    requires
        r.window == m.window,
        has_room(r, x),
    ensures
        has_room(m, x),
{
    if m.window.len() >= 2 {
        let i = choose|i: int| 0 <= i < r.window.len() && (#[trigger] r.window[i]).frame_seq <= x;
        assert(m.window[i].frame_seq <= x);
    }
}

proof fn lemma_held_step(before: Seq<(i64, Fragment)>, t: i64, f: Fragment)
    requires
        ({
            let m = played(before);
            &&& f.frame_seq > m.newest
            &&& has_room(m, f.frame_seq)
            &&& forall|i: int|
                0 <= i < m.window.len() ==> (#[trigger] m.window[i]).have == arrived_of(
                    before,
                    m.window[i].frame_seq,
                )
            &&& forall|s: u32|
                #![trigger arrived_of(before, s)]
                s > m.newest && has_room(m, s) && held_of(m, s, None) ==> arrived_of(before, s)
                    == Set::<u16>::empty()
        }),
    ensures
        ({
            let trace = before.push((t, f));
            let r = played(trace);
            &&& forall|i: int|
                0 <= i < r.window.len() ==> (#[trigger] r.window[i]).have == arrived_of(
                    trace,
                    r.window[i].frame_seq,
                )
            &&& forall|s: u32|
                #![trigger arrived_of(trace, s)]
                s > r.newest && has_room(r, s) && held_of(r, s, None) ==> arrived_of(trace, s)
                    == Set::<u16>::empty()
        }),
{
    let trace = before.push((t, f));
    assert(trace.drop_last() =~= before);
    let m = played(before);
    let r = played(trace);
    let s = f.frame_seq;
    played_sound(before);
    played_sound(trace);
    let h: Option<Held> = if exists|i: int|
        0 <= i < m.window.len() && (#[trigger] m.window[i]).frame_seq == s {
        let i = choose|i: int| 0 <= i < m.window.len() && (#[trigger] m.window[i]).frame_seq == s;
        Some(m.window[i])
    } else {
        None
    };
    assert(held_of(m, s, h));
    let now = with_fragment(h, f);
    assert(now.have =~= arrived_of(trace, s)) by {
        assert(arrived_of(trace, s) == arrived_of(before, s).insert(f.frag_index));
    }
    assert forall|x: u32| x != s implies #[trigger] arrived_of(trace, x) == arrived_of(
        before,
        x,
    ) by {}
    if now.have.len() == now.need {
        complete_frame_leaves(m, t, f, h);
        assert forall|i: int| 0 <= i < r.window.len() implies (#[trigger] r.window[i]).have
            == arrived_of(trace, r.window[i].frame_seq) by {
            let x = r.window[i];
            assert(r.window.contains(x));
            let k = choose|k: int| 0 <= k < m.window.len() && m.window[k] == x;
            assert(m.window[k].have == arrived_of(before, m.window[k].frame_seq));
        }
        assert forall|x: u32|
            #![trigger arrived_of(trace, x)]
            x > r.newest && has_room(r, x) && held_of(r, x, None) implies arrived_of(trace, x)
            == Set::<u16>::empty() by {
            assert(held_of(m, x, None)) by {
                assert forall|i: int| 0 <= i < m.window.len() implies (
                #[trigger] m.window[i]).frame_seq != x by {
                    if m.window[i].frame_seq == x {
                        assert(m.window.contains(m.window[i]));
                        assert(r.window.contains(m.window[i]));
                    }
                }
            }
            assert(has_room(m, x)) by {
                if m.window.len() >= 2 {
                    let i = choose|i: int|
                        0 <= i < m.window.len() && (#[trigger] m.window[i]).frame_seq <= s;
                    assert(m.window[i].frame_seq <= x);
                }
            }
            assert(arrived_of(before, x) == Set::<u16>::empty());
        }
    } else {
        incomplete_frame_is_kept(m, t, f, h);
        lemma_incomplete_window(m, t, f, h);
        assert forall|i: int| 0 <= i < r.window.len() implies (#[trigger] r.window[i]).have
            == arrived_of(trace, r.window[i].frame_seq) by {
            let x = r.window[i];
            assert(r.window.contains(x));
            if x != now {
                let k = choose|k: int| 0 <= k < m.window.len() && m.window[k] == x;
                assert(m.window[k].have == arrived_of(before, m.window[k].frame_seq));
            }
        }
        assert forall|x: u32|
            #![trigger arrived_of(trace, x)]
            x > r.newest && has_room(r, x) && held_of(r, x, None) implies arrived_of(trace, x)
            == Set::<u16>::empty() by {
            let p = choose|p: int| 0 <= p < r.window.len() && r.window[p] == now;
            assert(r.window[p].frame_seq == s);
            assert(x != s);
            assert(held_of(m, x, None) && has_room(m, x)) by {
                lemma_room_back(m, t, f, h, x);
            }
            assert(arrived_of(before, x) == Set::<u16>::empty());
        }
    }
}

/// The window after a fragment that completes nothing holds that frame and frames of before.
proof fn lemma_incomplete_window(m: Receiver, t: i64, f: Fragment, h: Option<Held>)
    requires
        orderly(m),
        f.frame_seq > m.newest,
        has_room(m, f.frame_seq),
        held_of(m, f.frame_seq, h),
        with_fragment(h, f).have.len() != with_fragment(h, f).need,
    ensures
        forall|x: Held| #[trigger]
            step(m, t as int, f).window.contains(x) ==> x == with_fragment(h, f)
                || m.window.contains(x) && x.frame_seq != f.frame_seq,
{
    let s = f.frame_seq;
    let w = m.window;
    let r = step(m, t as int, f);
    lemma_older(w, s);
    lemma_found(m, s, h);
    let at = older(w, s) as int;
    if h is None {
        if w.len() == 2 {
            let i = choose|i: int| 0 <= i < w.len() && (#[trigger] w[i]).frame_seq <= s;
            assert(at > 0);
        }
        lemma_admitted_place(m, f);
    }
    assert forall|x: Held| #[trigger] r.window.contains(x) implies x == with_fragment(h, f)
        || w.contains(x) && x.frame_seq != s by {
        let k = choose|k: int| 0 <= k < r.window.len() && r.window[k] == x;
        if h is Some {
            if k != at {
                assert(x == w[k]);
                if k < at {
                    assert(w[k].frame_seq < w[at].frame_seq);
                } else {
                    assert(w[at].frame_seq < w[k].frame_seq);
                }
            }
        } else if w.len() == 2 {
            let q = if k < at - 1 { k + 1 } else { k };
            if k != at - 1 {
                assert(x == w[q]);
            }
        } else {
            let q = if k < at { k } else { k - 1 };
            if k != at {
                assert(x == w[q]);
            }
        }
    }
}

/// What the window takes in after a fragment that completes nothing, it took in before.
proof fn lemma_room_back(m: Receiver, t: i64, f: Fragment, h: Option<Held>, x: u32)
    requires
        orderly(m),
        f.frame_seq > m.newest,
        has_room(m, f.frame_seq),
        held_of(m, f.frame_seq, h),
        with_fragment(h, f).have.len() != with_fragment(h, f).need,
        x != f.frame_seq,
        x > m.newest,
        has_room(step(m, t as int, f), x),
        held_of(step(m, t as int, f), x, None),
    ensures
        has_room(m, x),
        held_of(m, x, None),
{
    let s = f.frame_seq;
    let w = m.window;
    let r = step(m, t as int, f);
    incomplete_frame_is_kept(m, t, f, h);
    lemma_incomplete_window(m, t, f, h);
    step_orderly(m, t as int, f);
    let evicts = h is None && w.len() == 2;
    if r.window.len() >= 2 {
        let i = choose|i: int| 0 <= i < r.window.len() && (#[trigger] r.window[i]).frame_seq <= x;
        assert(r.window.contains(r.window[i]));
    }
    if w.len() >= 2 {
        // The oldest frame is not newer than anything that finds room.
        let i = choose|i: int| 0 <= i < w.len() && (#[trigger] w[i]).frame_seq <= s;
        assert(w[0].frame_seq <= s) by {
            if i > 0 {
                assert(w[0].frame_seq < w[i].frame_seq);
            }
        }
        assert(w[0].frame_seq <= x) by {
            let k = choose|k: int|
                0 <= k < r.window.len() && (#[trigger] r.window[k]).frame_seq <= x;
            let y = r.window[k];
            assert(r.window.contains(y));
            if y != with_fragment(h, f) {
                let q = choose|q: int| 0 <= q < w.len() && w[q] == y;
                if q > 0 {
                    assert(w[0].frame_seq < w[q].frame_seq);
                }
            }
        }
    }
    assert forall|i: int| 0 <= i < w.len() implies (#[trigger] w[i]).frame_seq != x by {
        if w[i].frame_seq == x {
            if evicts && i == 0 {
                // The evicted frame is older than both that stay.
                let k = choose|k: int|
                    0 <= k < r.window.len() && (#[trigger] r.window[k]).frame_seq <= x;
                let y = r.window[k];
                assert(r.window.contains(y));
                if y != with_fragment(h, f) {
                    let q = choose|q: int| 0 <= q < w.len() && w[q] == y;
                    lemma_evicted_gone(m, t, f, h);
                    if q > 0 {
                        assert(w[0].frame_seq < w[q].frame_seq);
                    }
                } else {
                    let j = choose|j: int| 0 <= j < w.len() && (#[trigger] w[j]).frame_seq <= s;
                    if j > 0 {
                        assert(w[0].frame_seq < w[j].frame_seq);
                    }
                }
            } else {
                assert(r.window.contains(w[i]));
                let k = choose|k: int| 0 <= k < r.window.len() && r.window[k] == w[i];
                assert(r.window[k].frame_seq == x);
            }
        }
    }
}

/// A frame that was evicted is not in the window any more.
proof fn lemma_evicted_gone(m: Receiver, t: i64, f: Fragment, h: Option<Held>)
    requires
        orderly(m),
        f.frame_seq > m.newest,
        has_room(m, f.frame_seq),
        h is None,
        held_of(m, f.frame_seq, h),
        m.window.len() == 2,
        with_fragment(h, f).have.len() != with_fragment(h, f).need,
    ensures
        !step(m, t as int, f).window.contains(m.window[0]),
{
    let s = f.frame_seq;
    let w = m.window;
    let r = step(m, t as int, f);
    lemma_older(w, s);
    lemma_found(m, s, h);
    let at = older(w, s) as int;
    let i = choose|i: int| 0 <= i < w.len() && (#[trigger] w[i]).frame_seq <= s;
    assert(at > 0);
    lemma_admitted_place(m, f);
    if r.window.contains(w[0]) {
        let k = choose|k: int| 0 <= k < r.window.len() && r.window[k] == w[0];
        let q = if k < at - 1 { k + 1 } else { k };
        if k != at - 1 {
            assert(r.window[k] == w[q]);
            assert(q > 0);
            assert(w[0].frame_seq < w[q].frame_seq);
        }
    }
}

} // verus!
