//! Client receive model: fragment reassembly, decode gating and IDR-request logic.
//!
//! The [`Reassembler`] is driven by `(t_ms, Fragment)` pairs, with no I/O and no notion
//! of wall-clock time of its own, so it is deterministic and replayable. `t_ms` is the
//! caller-supplied arrival time in milliseconds.
//!
//! Counter semantics:
//! * `dropped_incomplete`: window evictions, and frames left incomplete once a newer
//!   frame completes;
//! * `discarded_gap`: completed non-keyframes that fail decode gating;
//! * `stale_fragments`: fragments at or below the newest completed frame, or older than
//!   everything in the two-frame window.

use std::collections::HashSet;
use vstd::prelude::*;
use crate::datagram::{datagrams, fragment_count, fragments_decode, verdict, DatagramHeader};

verus! {

broadcast use {
    vstd::std_specs::hash::group_hash_axioms,
    vstd::std_specs::vec::group_vec_axioms,
};

/// The subset of a video datagram header that drives reassembly.
#[derive(Clone, Copy, Debug)]
pub struct Fragment {
    /// Per-stream frame counter.
    pub frame_seq: u32,
    /// 0-based fragment index.
    pub frag_index: u16,
    /// Total fragments for this frame.
    pub frag_count: u16,
    /// Whether this frame is a keyframe (IDR).
    pub keyframe: bool,
}

/// An event emitted by the reassembler, in occurrence order.
#[derive(Clone, Copy, Debug, PartialEq, Eq)]
pub enum Event {
    /// A completed frame handed to the decoder.
    Deliver {
        /// Arrival time of the fragment that completed the frame.
        t_ms: i64,
        /// The delivered frame's sequence number.
        frame_seq: u32,
        /// Whether it was a keyframe.
        keyframe: bool,
    },
    /// An IDR (keyframe) request to be sent on the control stream.
    IdrRequest {
        /// Time the request was raised.
        t_ms: i64,
        /// Newest fully decoded frame (0 if none).
        last_good: u32,
    },
}

/// Running counters over a trace.
#[derive(Clone, Copy, Debug, PartialEq, Eq)]
pub struct Counters {
    /// Window evictions and cleanup of incomplete frames.
    pub dropped_incomplete: u64,
    /// Completed frames discarded by decode gating.
    pub discarded_gap: u64,
    /// Fragments dropped as stale.
    pub stale_fragments: u64,
}

impl Default for Counters {
    fn default() -> (r: Self)
        ensures
            r == (Counters { dropped_incomplete: 0, discarded_gap: 0, stale_fragments: 0 }),
    {
        Counters { dropped_incomplete: 0, discarded_gap: 0, stale_fragments: 0 }
    }
}

/// A frame of which some fragments are still missing.
pub struct Held {
    pub frame_seq: u32,
    pub need: u16,
    pub have: Set<u16>,
    pub keyframe: bool,
}

/// The state of a receiver.
pub struct Receiver {
    /// Highest frame fully reassembled, `-1` before any.
    pub newest: int,
    /// Newest frame handed to the decoder.
    pub last_decoded: Option<int>,
    /// The incomplete frames, oldest first.
    pub window: Seq<Held>,
    pub events: Seq<Event>,
    pub dropped_incomplete: nat,
    pub discarded_gap: nat,
    pub stale_fragments: nat,
    /// An IDR request has been raised and not been answered yet.
    pub idr_outstanding: bool,
    /// When the last IDR request was raised.
    pub idr_last_t: Option<int>,
    /// `last_decoded` at that moment.
    pub idr_last_good: Option<int>,
}

/// A receiver with no history.
pub open spec fn fresh() -> Receiver {
    Receiver {
        newest: -1,
        last_decoded: None,
        window: Seq::empty(),
        events: Seq::empty(),
        dropped_incomplete: 0,
        discarded_gap: 0,
        stale_fragments: 0,
        idr_outstanding: false,
        idr_last_t: None,
        idr_last_good: None,
    }
}

/// How many frames of the window are older than `seq`.
pub open spec fn older(w: Seq<Held>, seq: u32) -> nat
    decreases w.len(),
{
    if w.len() == 0 {
        0
    } else if w.last().frame_seq < seq {
        w.len()
    } else {
        older(w.drop_last(), seq)
    }
}

/// The window holds the frame `seq`.
pub open spec fn holds(w: Seq<Held>, seq: u32) -> bool {
    older(w, seq) < w.len() && w[older(w, seq) as int].frame_seq == seq
}

/// A frame of which nothing has arrived yet.
pub open spec fn empty_frame(f: Fragment) -> Held {
    Held { frame_seq: f.frame_seq, need: f.frag_count, have: Set::empty(), keyframe: f.keyframe }
}

/// Deliver a completed frame. A keyframe newer than what had been decoded when the
/// outstanding IDR was requested answers that request.
pub open spec fn delivered(m: Receiver, t: int, seq: u32, keyframe: bool) -> Receiver {
    let clears = keyframe && m.idr_outstanding && match m.idr_last_good {
        None => true,
        Some(g) => seq > g,
    };
    Receiver {
        events: m.events.push(Event::Deliver { t_ms: t as i64, frame_seq: seq, keyframe }),
        last_decoded: Some(seq as int),
        idr_outstanding: m.idr_outstanding && !clears,
        ..m
    }
}

/// Ask for an IDR, unless one is outstanding or was asked for less than 250 ms ago.
pub open spec fn idr_asked(m: Receiver, t: int) -> Receiver {
    if m.idr_outstanding || (m.idr_last_t is Some && t - m.idr_last_t->0 < 250) {
        m
    } else {
        Receiver {
            events: m.events.push(
                Event::IdrRequest {
                    t_ms: t as i64,
                    last_good: match m.last_decoded {
                        Some(d) => d as u32,
                        None => 0,
                    },
                },
            ),
            idr_outstanding: true,
            idr_last_t: Some(t),
            idr_last_good: m.last_decoded,
            ..m
        }
    }
}

/// A frame is complete: hand it to the decoder if it is a keyframe or directly follows
/// the last decoded frame, and otherwise discard it and ask for an IDR.
pub open spec fn completed(m: Receiver, t: int, seq: u32, keyframe: bool) -> Receiver {
    if keyframe {
        delivered(m, t, seq, true)
    } else if m.last_decoded == Some(seq - 1) {
        delivered(m, t, seq, false)
    } else {
        idr_asked(Receiver { discarded_gap: m.discarded_gap + 1, ..m }, t)
    }
}

/// Make room for the frame of a fragment: the window holds two frames, and a newer third
/// one evicts the oldest.
pub open spec fn admitted(m: Receiver, f: Fragment) -> Receiver {
    let w = m.window;
    let at = older(w, f.frame_seq) as int;
    if holds(w, f.frame_seq) {
        m
    } else if w.len() >= 2 {
        Receiver {
            window: w.remove(0).insert(at - 1, empty_frame(f)),
            dropped_incomplete: m.dropped_incomplete + 1,
            ..m
        }
    } else {
        Receiver { window: w.insert(at, empty_frame(f)), ..m }
    }
}

/// Take in one fragment of a frame that the window holds. The fragment that completes the
/// frame takes it out, and every older frame with it.
pub open spec fn gathered(m: Receiver, t: int, f: Fragment) -> Receiver {
    let w = m.window;
    let at = older(w, f.frame_seq) as int;
    let held = Held { have: w[at].have.insert(f.frag_index), ..w[at] };
    if held.have.len() != held.need {
        Receiver { window: w.update(at, held), ..m }
    } else {
        completed(
            Receiver {
                newest: f.frame_seq as int,
                window: w.skip(at + 1),
                dropped_incomplete: m.dropped_incomplete + at as nat,
                ..m
            },
            t,
            f.frame_seq,
            held.keyframe,
        )
    }
}

/// One fragment arrives at time `t`.
pub open spec fn step(m: Receiver, t: int, f: Fragment) -> Receiver {
    let w = m.window;
    if f.frame_seq <= m.newest || (w.len() >= 2 && !holds(w, f.frame_seq) && older(w, f.frame_seq)
        == 0) {
        Receiver { stale_fragments: m.stale_fragments + 1, ..m }
    } else {
        gathered(admitted(m, f), t, f)
    }
}

/// What every reachable receiver keeps: at most two incomplete frames, oldest first, all
/// newer than every completed frame; and nothing decoded that was not completed.
pub open spec fn orderly(m: Receiver) -> bool {
    &&& m.window.len() <= 2
    &&& forall|i: int, j: int|
        0 <= i < j < m.window.len() ==> (#[trigger] m.window[i]).frame_seq < (
        #[trigger] m.window[j]).frame_seq
    &&& forall|i: int|
        0 <= i < m.window.len() ==> m.newest < (#[trigger] m.window[i]).frame_seq
            && m.window[i].have.finite()
    &&& -1 <= m.newest <= u32::MAX
    &&& m.last_decoded is Some ==> 0 <= m.last_decoded->0 <= m.newest
    &&& m.idr_last_good is Some ==> 0 <= m.idr_last_good->0 <= m.newest
}

/// The counters fit their machine words.
pub open spec fn countable(m: Receiver) -> bool {
    m.dropped_incomplete <= u64::MAX && m.discarded_gap <= u64::MAX && m.stale_fragments
        <= u64::MAX
}

pub proof fn lemma_older(w: Seq<Held>, seq: u32)
    requires
        forall|i: int, j: int|
            0 <= i < j < w.len() ==> (#[trigger] w[i]).frame_seq < (#[trigger] w[j]).frame_seq,
    ensures
        older(w, seq) <= w.len(),
        forall|i: int| 0 <= i < older(w, seq) ==> (#[trigger] w[i]).frame_seq < seq,
        forall|i: int| older(w, seq) <= i < w.len() ==> (#[trigger] w[i]).frame_seq >= seq,
    decreases w.len(),
{
    if w.len() > 0 {
        let t = w.drop_last();
        assert forall|i: int, j: int| 0 <= i < j < t.len() implies (#[trigger] t[i]).frame_seq < (
        #[trigger] t[j]).frame_seq by {
            assert(w[i].frame_seq < w[j].frame_seq);
        }
        lemma_older(t, seq);
        if w.last().frame_seq < seq {
            assert forall|i: int| 0 <= i < w.len() implies (#[trigger] w[i]).frame_seq < seq by {
                if i < w.len() - 1 {
                    assert(w[i].frame_seq < w[w.len() - 1].frame_seq);
                }
            }
        } else {
            assert forall|i: int| 0 <= i < older(w, seq) implies (#[trigger] w[i]).frame_seq
                < seq by {
                assert(t[i] == w[i]);
            }
            assert forall|i: int| older(w, seq) <= i < w.len() implies (
            #[trigger] w[i]).frame_seq >= seq by {
                if i < w.len() - 1 {
                    assert(t[i] == w[i]);
                }
            }
        }
    }
}

/// Making room keeps a receiver orderly, and leaves the frame in the window.
proof fn lemma_admitted(m: Receiver, f: Fragment)
    requires
        orderly(m),
        f.frame_seq > m.newest,
        m.window.len() < 2 || holds(m.window, f.frame_seq) || older(m.window, f.frame_seq) > 0,
    ensures
        orderly(admitted(m, f)),
        holds(admitted(m, f).window, f.frame_seq),
{
    let w = m.window;
    lemma_older(w, f.frame_seq);
    let a = admitted(m, f).window;
    if !holds(w, f.frame_seq) {
        let at = older(w, f.frame_seq) as int;
        assert(forall|i: int| at <= i < w.len() ==> (#[trigger] w[i]).frame_seq > f.frame_seq) by {
            assert forall|i: int| at <= i < w.len() implies (#[trigger] w[i]).frame_seq
                > f.frame_seq by {
                if i > at {
                    assert(w[at].frame_seq < w[i].frame_seq);
                }
            }
        }
        assert(orderly(admitted(m, f)));
        lemma_older(a, f.frame_seq);
        let p = if w.len() >= 2 { at - 1 } else { at };
        assert(a[p].frame_seq == f.frame_seq);
        let q = older(a, f.frame_seq) as int;
        if q < p {
            assert(a[q].frame_seq < a[p].frame_seq);
        }
    }
}

/// A receiver with no history is orderly.
pub proof fn fresh_orderly()
    ensures
        orderly(fresh()),
{
}

/// Every fragment leaves an orderly receiver orderly.
pub proof fn step_orderly(m: Receiver, t: int, f: Fragment)
    requires
        orderly(m),
    ensures
        orderly(step(m, t, f)),
{
    let w = m.window;
    if f.frame_seq <= m.newest || (w.len() >= 2 && !holds(w, f.frame_seq) && older(w, f.frame_seq)
        == 0) {
    } else {
        lemma_admitted(m, f);
        let a = admitted(m, f);
        lemma_older(a.window, f.frame_seq);
        let at = older(a.window, f.frame_seq) as int;
        let rest = a.window.skip(at + 1);
        assert forall|i: int| 0 <= i < rest.len() implies f.frame_seq < (
        #[trigger] rest[i]).frame_seq && rest[i].have.finite() by {
            assert(a.window[at].frame_seq < a.window[at + 1 + i].frame_seq);
        }
    }
}

/// One fragment raises each counter by at most three.
pub proof fn step_counts(m: Receiver, t: int, f: Fragment)
    requires
        orderly(m),
    ensures
        m.dropped_incomplete <= step(m, t, f).dropped_incomplete <= m.dropped_incomplete + 3,
        m.discarded_gap <= step(m, t, f).discarded_gap <= m.discarded_gap + 1,
        m.stale_fragments <= step(m, t, f).stale_fragments <= m.stale_fragments + 1,
{
    let w = m.window;
    if !(f.frame_seq <= m.newest || (w.len() >= 2 && !holds(w, f.frame_seq) && older(
        w,
        f.frame_seq,
    ) == 0)) {
        lemma_admitted(m, f);
    }
}

proof fn lemma_gathered_counts(m: Receiver, t: int, f: Fragment)
    requires
        orderly(m),
        holds(m.window, f.frame_seq),
    ensures
        m.dropped_incomplete <= gathered(m, t, f).dropped_incomplete,
        m.discarded_gap <= gathered(m, t, f).discarded_gap,
        m.stale_fragments <= gathered(m, t, f).stale_fragments,
{
}

struct Incomplete {
    frame_seq: u32,
    need: u16,
    have: HashSet<u16>,
    keyframe: bool,
}

spec fn held(e: Incomplete) -> Held {
    Held { frame_seq: e.frame_seq, need: e.need, have: e.have@, keyframe: e.keyframe }
}

spec fn helds(s: Seq<Incomplete>) -> Seq<Held> {
    Seq::new(s.len(), |i: int| held(s[i]))
}

spec fn widened(x: Option<i64>) -> Option<int> {
    match x {
        Some(v) => Some(v as int),
        None => None,
    }
}

/// Reassembly, decode-gating and IDR-request state machine.
pub struct Reassembler {
    /// Highest `frame_seq` fully reassembled (-1 before any).
    newest_complete: i64,
    /// Newest `frame_seq` delivered to the decoder (`None` before any).
    last_decoded: Option<i64>,
    /// In-flight incomplete frames, oldest first.
    incomplete: Vec<Incomplete>,
    events: Vec<Event>,
    counters: Counters,
    idr_outstanding: bool,
    idr_last_t: Option<i64>,
    /// `last_decoded` captured at the moment the outstanding IDR was requested.
    idr_last_good_at_request: Option<i64>,
}

impl View for Reassembler {
    type V = Receiver;

    closed spec fn view(&self) -> Receiver {
        Receiver {
            newest: self.newest_complete as int,
            last_decoded: widened(self.last_decoded),
            window: helds(self.incomplete@),
            events: self.events@,
            dropped_incomplete: self.counters.dropped_incomplete as nat,
            discarded_gap: self.counters.discarded_gap as nat,
            stale_fragments: self.counters.stale_fragments as nat,
            idr_outstanding: self.idr_outstanding,
            idr_last_t: widened(self.idr_last_t),
            idr_last_good: widened(self.idr_last_good_at_request),
        }
    }
}

impl Default for Reassembler {
    fn default() -> (r: Self)
        ensures
            r@ == fresh(),
    {
        Self::new()
    }
}

impl Reassembler {
    /// A fresh reassembler with no history.
    pub fn new() -> (r: Self)
        ensures
            r@ == fresh(),
    {
        let r = Reassembler {
            newest_complete: -1,
            last_decoded: None,
            incomplete: Vec::new(),
            events: Vec::new(),
            counters: Counters::default(),
            idr_outstanding: false,
            idr_last_t: None,
            idr_last_good_at_request: None,
        };
        assert(r@.window =~= Seq::empty());
        assert(r@.events =~= Seq::empty());
        r
    }

    /// All events emitted so far, in occurrence order.
    pub fn events(&self) -> (r: &[Event])
        ensures
            r@ == self@.events,
    {
        self.events.as_slice()
    }

    /// The running counters.
    pub fn counters(&self) -> (r: &Counters)
        ensures
            r.dropped_incomplete == self@.dropped_incomplete,
            r.discarded_gap == self@.discarded_gap,
            r.stale_fragments == self@.stale_fragments,
    {
        &self.counters
    }

    /// How many held frames are older than `seq`.
    fn count_older(&self, seq: u32) -> (r: usize)
        ensures
            r == older(self@.window, seq),
    {
        let ghost w = self@.window;
        let mut n: usize = self.incomplete.len();
        assert(w.take(n as int) =~= w);
        while n > 0 && self.incomplete[n - 1].frame_seq >= seq
            invariant
                n <= self.incomplete@.len(),
                w == self@.window,
                older(w, seq) == older(w.take(n as int), seq),
            decreases n,
        {
            assert(w.take(n as int).drop_last() =~= w.take(n - 1));
            assert(w.take(n as int).last() == w[n - 1]);
            n -= 1;
        }
        assert(n > 0 ==> w.take(n as int).last() == w[n - 1]);
        n
    }

    /// Feed one fragment that arrived at time `t_ms`. Any resulting delivery or IDR
    /// request is appended to the events.
    pub fn push(&mut self, t_ms: i64, frag: Fragment)
        requires
            orderly(old(self)@),
            countable(step(old(self)@, t_ms as int, frag)),
        ensures
            final(self)@ == step(old(self)@, t_ms as int, frag),
            orderly(final(self)@),
    {
        let seq: u32 = frag.frame_seq;
        proof {
            step_orderly(self@, t_ms as int, frag);
            lemma_older(self@.window, seq);
        }
        // Fragments at or below the newest completed frame are stale.
        if seq as i64 <= self.newest_complete {
            self.counters.stale_fragments += 1;
            return;
        }
        let at: usize = self.count_older(seq);
        let present: bool = at < self.incomplete.len() && self.incomplete[at].frame_seq == seq;
        if self.incomplete.len() >= 2 && !present && at == 0 {
            // Older than everything in the window.
            self.counters.stale_fragments += 1;
            return;
        }
        proof {
            lemma_admitted(self@, frag);
            lemma_gathered_counts(admitted(self@, frag), t_ms as int, frag);
        }
        if !present {
            self.make_room(frag, at);
        }
        self.gather(t_ms, frag);
    }

    /// Make room for a new frame, of which `at` held frames are older.
    fn make_room(&mut self, frag: Fragment, at: usize)
        requires
            orderly(old(self)@),
            frag.frame_seq > old(self)@.newest,
            at == older(old(self)@.window, frag.frame_seq),
            !holds(old(self)@.window, frag.frame_seq),
            old(self)@.window.len() < 2 || at > 0,
            countable(admitted(old(self)@, frag)),
        ensures
            final(self)@ == admitted(old(self)@, frag),
    {
        let ghost m = self@;
        proof {
            lemma_older(m.window, frag.frame_seq);
        }
        let mut place: usize = at;
        // Hold at most two incomplete frames.
        if self.incomplete.len() >= 2 {
            self.incomplete.remove(0);
            assert(helds(self.incomplete@) =~= m.window.remove(0));
            self.counters.dropped_incomplete += 1;
            place -= 1;
        }
        let ghost was = self.incomplete@;
        let frame = Incomplete {
            frame_seq: frag.frame_seq,
            need: frag.frag_count,
            have: HashSet::new(),
            keyframe: frag.keyframe,
        };
        self.incomplete.insert(place, frame);
        assert(self@.window =~= helds(was).insert(place as int, empty_frame(frag)));
    }

    /// Take in one fragment of a held frame.
    fn gather(&mut self, t_ms: i64, frag: Fragment)
        requires
            orderly(old(self)@),
            frag.frame_seq > old(self)@.newest,
            holds(old(self)@.window, frag.frame_seq),
            countable(gathered(old(self)@, t_ms as int, frag)),
        ensures
            final(self)@ == gathered(old(self)@, t_ms as int, frag),
    {
        let ghost m = self@;
        let seq: u32 = frag.frame_seq;
        proof {
            lemma_older(m.window, seq);
            lemma_gathered_counts(m, t_ms as int, frag);
        }
        let at: usize = self.count_older(seq);
        let mut entry = self.incomplete.remove(at);
        let ghost before = m.window[at as int];
        assert(held(entry) == before);
        entry.have.insert(frag.frag_index);  // duplicates are idempotent
        let ghost now = Held { have: before.have.insert(frag.frag_index), ..before };
        assert(held(entry) == now);
        if entry.have.len() != entry.need as usize {
            self.incomplete.insert(at, entry);
            assert(self@.window =~= m.window.update(at as int, now));
            return;
        }
        // Frame complete: every frame still incomplete below it dies with it.

        let keyframe: bool = entry.keyframe;
        self.newest_complete = seq as i64;
        self.incomplete = self.incomplete.split_off(at);
        assert(self@.window =~= m.window.skip(at + 1));
        self.counters.dropped_incomplete += at as u64;
        // Decode gating.
        if keyframe {
            self.deliver(t_ms, seq, true);
        } else if self.follows(seq) {
            self.deliver(t_ms, seq, false);
        } else {
            self.counters.discarded_gap += 1;
            self.maybe_idr(t_ms);
        }
    }

    /// Whether `seq` directly follows the last decoded frame.
    fn follows(&self, seq: u32) -> (r: bool)
        ensures
            r == (self@.last_decoded == Some(seq - 1)),
    {
        match self.last_decoded {
            Some(d) => d == seq as i64 - 1,
            None => false,
        }
    }

    fn deliver(&mut self, t_ms: i64, seq: u32, keyframe: bool)
        ensures
            final(self)@ == delivered(old(self)@, t_ms as int, seq, keyframe),
    {
        self.events.push(Event::Deliver { t_ms, frame_seq: seq, keyframe });
        self.last_decoded = Some(seq as i64);
        // An outstanding IDR clears once a keyframe newer than the last-good frame
        // recorded when it was requested is delivered.
        if keyframe && self.idr_outstanding {
            let clears: bool = match self.idr_last_good_at_request {
                None => true,
                Some(g) => seq as i64 > g,
            };
            if clears {
                self.idr_outstanding = false;
            }
        }
    }

    fn maybe_idr(&mut self, t_ms: i64)
        requires
            old(self)@.last_decoded is Some ==> 0 <= old(self)@.last_decoded->0 <= u32::MAX,
        ensures
            final(self)@ == idr_asked(old(self)@, t_ms as int),
    {
        if self.idr_outstanding {
            return;
        }
        // At most one IDR request per 250 ms.
        if let Some(last) = self.idr_last_t {
            if (t_ms as i128) - (last as i128) < 250 {
                return;
            }
        }
        let last_good: u32 = match self.last_decoded {
            Some(d) => d as u32,
            None => 0,
        };
        self.events.push(Event::IdrRequest { t_ms, last_good });
        self.idr_outstanding = true;
        self.idr_last_t = Some(t_ms);
        self.idr_last_good_at_request = self.last_decoded;
    }
}

/// The frame delivered last among `events`.
pub open spec fn last_delivery(events: Seq<Event>) -> Option<int>
    decreases events.len(),
{
    if events.len() == 0 {
        None
    } else {
        match events.last() {
            Event::Deliver { frame_seq, .. } => Some(frame_seq as int),
            Event::IdrRequest { .. } => last_delivery(events.drop_last()),
        }
    }
}

/// Event `i` is a delivery that the decoder can use: it is newer than every earlier one,
/// and if it is no keyframe it directly follows the one before it.
pub open spec fn gated(events: Seq<Event>, i: int) -> bool {
    match events[i] {
        Event::Deliver { frame_seq, keyframe, .. } => {
            let prev = last_delivery(events.take(i));
            &&& prev is Some ==> prev->0 < frame_seq
            &&& !keyframe ==> prev == Some(frame_seq - 1)
        },
        Event::IdrRequest { .. } => true,
    }
}

/// Event `k` is the delivery of a keyframe.
pub open spec fn is_key(events: Seq<Event>, k: int) -> bool {
    events[k] is Deliver && events[k]->keyframe
}

/// The keyframe of event `k` is newer than everything delivered before event `i`.
pub open spec fn newer_key(events: Seq<Event>, i: int, k: int) -> bool {
    let good = last_delivery(events.take(i));
    is_key(events, k) && (good is Some ==> good->0 < events[k]->frame_seq)
}

/// The request of event `i` is answered before event `to`, by a keyframe newer than everything
/// that had been delivered when it was raised.
pub open spec fn answered(events: Seq<Event>, i: int, to: int) -> bool {
    exists|k: int| i <= k < to && newer_key(events, i, k)
}

/// A request names the frame delivered last before it, or 0 where there is none.
pub open spec fn truthful(events: Seq<Event>, i: int) -> bool {
    events[i] is IdrRequest ==> events[i]->last_good == (match last_delivery(events.take(i)) {
        Some(d) => d,
        None => 0,
    })
}

/// Of two IDR requests the later comes at least 250 ms after the earlier, and the earlier was
/// answered in between.
pub open spec fn requests_apart(events: Seq<Event>, i: int, j: int) -> bool {
    events[i] is IdrRequest && events[j] is IdrRequest ==> events[j]->IdrRequest_t_ms
        - events[i]->IdrRequest_t_ms >= 250 && answered(events, i, j)
}

/// What the events of every reachable receiver show.
pub open spec fn faithful(m: Receiver) -> bool {
    &&& last_delivery(m.events) == m.last_decoded
    &&& forall|i: int| 0 <= i < m.events.len() ==> gated(m.events, i)
    &&& forall|i: int| 0 <= i < m.events.len() ==> truthful(m.events, i)
    &&& forall|i: int, j: int| 0 <= i < j < m.events.len() ==> requests_apart(m.events, i, j)
    &&& forall|i: int|
        0 <= i < m.events.len() && #[trigger] m.events[i] is IdrRequest ==> {
            &&& m.idr_last_t is Some
            &&& m.events[i]->IdrRequest_t_ms <= m.idr_last_t->0
            &&& !m.idr_outstanding ==> answered(m.events, i, m.events.len() as int)
        }
}

/// A receiver with no history has nothing to show.
pub proof fn fresh_faithful()
    ensures
        faithful(fresh()),
{
}

proof fn lemma_events_pushed(a: Receiver, b: Receiver, e: Event)
    requires
        faithful(a),
        b.events == a.events.push(e),
    ensures
        last_delivery(b.events) == (match e {
            Event::Deliver { frame_seq, .. } => Some(frame_seq as int),
            Event::IdrRequest { .. } => a.last_decoded,
        }),
        forall|i: int| 0 <= i < a.events.len() ==> gated(b.events, i),
        forall|i: int| 0 <= i < a.events.len() ==> truthful(b.events, i),
        forall|i: int, j: int| 0 <= i < j < a.events.len() ==> requests_apart(b.events, i, j),
        forall|i: int, to: int|
            0 <= i && to <= a.events.len() && answered(a.events, i, to) ==> answered(
                b.events,
                i,
                to,
            ),
        b.events.take(a.events.len() as int) == a.events,
{
    let x = a.events;
    let y = b.events;
    let n = x.len() as int;
    assert(y.drop_last() =~= x);
    assert(y.take(n) =~= x);
    assert forall|i: int| 0 <= i < n implies gated(y, i) by {
        assert(y.take(i) =~= x.take(i));
        assert(gated(x, i));
    }
    assert forall|i: int, to: int|
        0 <= i && to <= n && answered(x, i, to) implies answered(y, i, to) by {
        let k = choose|k: int| i <= k < to && newer_key(x, i, k);
        assert(y.take(i) =~= x.take(i));
        assert(newer_key(y, i, k));
    }
    assert forall|i: int| 0 <= i < n implies truthful(y, i) by {
        assert(y.take(i) =~= x.take(i));
        assert(truthful(x, i));
    }
    assert forall|i: int, j: int| 0 <= i < j < n implies requests_apart(y, i, j) by {
        assert(requests_apart(x, i, j));
    }
}

/// Deliveries only get newer.
proof fn lemma_last_delivery_grows(events: Seq<Event>, i: int)
    requires
        0 <= i <= events.len(),
        forall|k: int| 0 <= k < events.len() ==> gated(events, k),
        last_delivery(events.take(i)) is Some,
    ensures
        last_delivery(events) is Some,
        last_delivery(events.take(i))->0 <= last_delivery(events)->0,
    decreases events.len(),
{
    if i == events.len() {
        assert(events.take(i) =~= events);
    } else {
        let t = events.drop_last();
        let n = t.len() as int;
        assert(t.take(i) =~= events.take(i));
        assert forall|k: int| 0 <= k < t.len() implies gated(t, k) by {
            assert(gated(events, k));
            assert(t.take(k) =~= events.take(k));
        }
        lemma_last_delivery_grows(t, i);
        assert(gated(events, n));
        assert(events.take(n) =~= t);
    }
}

proof fn lemma_delivered_faithful(a: Receiver, t: i64, seq: u32, keyframe: bool)
    requires
        faithful(a),
        a.last_decoded is Some ==> a.last_decoded->0 < seq,
        !keyframe ==> a.last_decoded == Some(seq - 1),
    ensures
        faithful(delivered(a, t as int, seq, keyframe)),
{
    let b = delivered(a, t as int, seq, keyframe);
    let e = Event::Deliver { t_ms: t, frame_seq: seq, keyframe };
    lemma_events_pushed(a, b, e);
    let n = a.events.len() as int;
    assert(b.events[n] == e);
    assert(gated(b.events, n));
    assert forall|i: int| 0 <= i < b.events.len() implies gated(b.events, i) by {}
    assert forall|i: int| 0 <= i < b.events.len() implies truthful(b.events, i) by {}
    assert forall|i: int, j: int| 0 <= i < j < b.events.len() implies requests_apart(
        b.events,
        i,
        j,
    ) by {}
    assert forall|i: int|
        0 <= i < b.events.len() && #[trigger] b.events[i] is IdrRequest
            && !b.idr_outstanding implies answered(b.events, i, n + 1) by {
        assert(a.events[i] is IdrRequest);
        assert(b.events.take(i) =~= a.events.take(i));
        if a.idr_outstanding {
            if last_delivery(a.events.take(i)) is Some {
                lemma_last_delivery_grows(a.events, i);
            }
            assert(newer_key(b.events, i, n));
        } else {
            let k = choose|k: int| i <= k < n && newer_key(a.events, i, k);
            assert(newer_key(b.events, i, k));
        }
    }
}

proof fn lemma_asked_faithful(a: Receiver, t: i64)
    requires
        orderly(a),
        faithful(a),
    ensures
        faithful(idr_asked(a, t as int)),
{
    let b = idr_asked(a, t as int);
    if !(a.idr_outstanding || (a.idr_last_t is Some && t - a.idr_last_t->0 < 250)) {
        let e = b.events.last();
        lemma_events_pushed(a, b, e);
        let n = a.events.len() as int;
        assert forall|i: int| 0 <= i < b.events.len() implies gated(b.events, i) by {}
        assert forall|i: int| 0 <= i < b.events.len() implies truthful(b.events, i) by {}
        assert forall|i: int, j: int| 0 <= i < j < b.events.len() implies requests_apart(
            b.events,
            i,
            j,
        ) by {
            if j == n && b.events[i] is IdrRequest {
                assert(a.events[i] is IdrRequest);
                assert(answered(a.events, i, n));
            }
        }
        assert forall|i: int|
            0 <= i < b.events.len() && #[trigger] b.events[i] is IdrRequest implies b.idr_last_t
            is Some && b.events[i]->IdrRequest_t_ms <= b.idr_last_t->0 by {
            if i < n {
                assert(a.events[i] is IdrRequest);
            }
        }
    }
}

/// Whatever arrives: frames are delivered in increasing order, a frame that is no
/// keyframe only directly behind its predecessor; an IDR request names the frame delivered last
/// before it; and IDR requests come at least 250 ms apart, with a keyframe delivered between any
/// two of them that is newer than what the first one names.
pub proof fn step_faithful(m: Receiver, t: i64, f: Fragment)
    requires
        orderly(m),
        faithful(m),
    ensures
        faithful(step(m, t as int, f)),
{
    let w = m.window;
    if f.frame_seq <= m.newest || (w.len() >= 2 && !holds(w, f.frame_seq) && older(w, f.frame_seq)
        == 0) {
        assert(step(m, t as int, f).events == m.events);
    } else {
        lemma_admitted(m, f);
        let a = admitted(m, f);
        let at = older(a.window, f.frame_seq) as int;
        let held = Held { have: a.window[at].have.insert(f.frag_index), ..a.window[at] };
        if held.have.len() == held.need {
            let c = Receiver {
                newest: f.frame_seq as int,
                window: a.window.skip(at + 1),
                dropped_incomplete: a.dropped_incomplete + at as nat,
                ..a
            };
            assert(faithful(c));
            assert(orderly(c)) by {
                step_orderly(m, t as int, f);
            }
            if held.keyframe {
                lemma_delivered_faithful(c, t, f.frame_seq, true);
            } else if c.last_decoded == Some(f.frame_seq - 1) {
                lemma_delivered_faithful(c, t, f.frame_seq, false);
            } else {
                lemma_asked_faithful(Receiver { discarded_gap: c.discarded_gap + 1, ..c }, t);
            }
        }
    }
}

/// A duplicate changes nothing but, where its frame is settled, the count of stale
/// fragments.
pub proof fn duplicate_idempotent(m: Receiver, t: int, u: int, f: Fragment)
    requires
        orderly(m),
    ensures
        ({
            let once = step(m, t, f);
            let twice = step(once, u, f);
            twice == once || twice == Receiver {
                stale_fragments: once.stale_fragments + 1,
                ..once
            }
        }),
{
    let w = m.window;
    let once = step(m, t, f);
    if f.frame_seq <= m.newest || (w.len() >= 2 && !holds(w, f.frame_seq) && older(w, f.frame_seq)
        == 0) {
    } else {
        lemma_admitted(m, f);
        step_orderly(m, t, f);
        let a = admitted(m, f);
        lemma_older(a.window, f.frame_seq);
        let at = older(a.window, f.frame_seq) as int;
        let held = Held { have: a.window[at].have.insert(f.frag_index), ..a.window[at] };
        if held.have.len() != held.need {
            lemma_older(once.window, f.frame_seq);
            let q = older(once.window, f.frame_seq) as int;
            assert(once.window[at].frame_seq == f.frame_seq);
            assert(q == at) by {
                if q < at {
                    assert(once.window[q].frame_seq < once.window[at].frame_seq);
                }
            }
            assert(held.have.insert(f.frag_index) =~= held.have);
            assert(once.window.update(at, held) =~= once.window);
        } else {
            assert(once.newest == f.frame_seq);
        }
    }
}

/// The receiver after a whole trace of fragments, each with its arrival time, from no history.
pub open spec fn played(trace: Seq<(i64, Fragment)>) -> Receiver
    decreases trace.len(),
{
    if trace.len() == 0 {
        fresh()
    } else {
        step(played(trace.drop_last()), trace.last().0 as int, trace.last().1)
    }
}

/// Whatever arrives, in whatever order and at whatever times: the receiver is orderly, its
/// events are faithful, and no counter outgrows three for each fragment.
pub proof fn played_sound(trace: Seq<(i64, Fragment)>)
    ensures
        orderly(played(trace)),
        faithful(played(trace)),
        played(trace).dropped_incomplete <= 3 * trace.len(),
        played(trace).discarded_gap <= trace.len(),
        played(trace).stale_fragments <= trace.len(),
    decreases trace.len(),
{
    if trace.len() == 0 {
        fresh_faithful();
    } else {
        let before = played(trace.drop_last());
        let (t, f) = trace.last();
        played_sound(trace.drop_last());
        step_orderly(before, t as int, f);
        step_faithful(before, t, f);
        step_counts(before, t as int, f);
    }
}

/// The fragments that have arrived.
pub open spec fn arrived(trace: Seq<(i64, Fragment)>) -> Set<u16>
    decreases trace.len(),
{
    if trace.len() == 0 {
        Set::empty()
    } else {
        arrived(trace.drop_last()).insert(trace.last().1.frag_index)
    }
}

/// Every arrival of the trace is a fragment of one frame.
pub open spec fn of_one_frame(
    trace: Seq<(i64, Fragment)>,
    seq: u32,
    count: u16,
    keyframe: bool,
) -> bool {
    forall|i: int|
        0 <= i < trace.len() ==> {
            let f = (#[trigger] trace[i]).1;
            f.frame_seq == seq && f.frag_count == count && f.keyframe == keyframe && f.frag_index
                < count
        }
}

/// The fragments below `k`.
pub open spec fn below(k: nat) -> Set<u16> {
    Set::new(|i: u16| i < k)
}

proof fn lemma_below(k: nat)
    requires
        k <= 0x1_0000,
    ensures
        below(k).finite(),
        below(k).len() == k,
    decreases k,
{
    if k == 0 {
        assert(below(0) =~= Set::empty());
    } else {
        lemma_below((k - 1) as nat);
        assert(below(k) =~= below((k - 1) as nat).insert((k - 1) as u16));
    }
}

/// There are only so many fragments, and all have arrived once that many have.
pub proof fn arrived_bound(trace: Seq<(i64, Fragment)>, seq: u32, count: u16, keyframe: bool)
    requires
        of_one_frame(trace, seq, count, keyframe),
    ensures
        arrived(trace).finite(),
        arrived(trace).subset_of(below(count as nat)),
        arrived(trace).len() <= count,
        arrived(trace).len() == count ==> arrived(trace) == below(count as nat),
    decreases trace.len(),
{
    lemma_below(count as nat);
    if trace.len() > 0 {
        let t = trace.drop_last();
        assert forall|i: int| 0 <= i < t.len() implies ({
            let f = (#[trigger] t[i]).1;
            f.frame_seq == seq && f.frag_count == count && f.keyframe == keyframe && f.frag_index
                < count
        }) by {
            assert(t[i] == trace[i]);
        }
        arrived_bound(t, seq, count, keyframe);
        assert(trace[trace.len() - 1].1.frag_index < count);
    }
    vstd::set_lib::lemma_len_subset(arrived(trace), below(count as nat));
    if arrived(trace).len() == count {
        vstd::set_lib::lemma_subset_equality(arrived(trace), below(count as nat));
    }
}

/// The receiver while fragments of a first frame come in.
pub open spec fn collecting(have: Set<u16>, seq: u32, count: u16, keyframe: bool) -> Receiver {
    Receiver {
        window: seq![Held { frame_seq: seq, need: count, have, keyframe }],
        ..fresh()
    }
}

proof fn lemma_collect(have: Set<u16>, seq: u32, count: u16, keyframe: bool, t: i64, index: u16)
    requires
        have.finite(),
    ensures
        ({
            let f = Fragment { frame_seq: seq, frag_index: index, frag_count: count, keyframe };
            let m = collecting(have, seq, count, keyframe);
            let more = have.insert(index);
            step(m, t as int, f) == if more.len() != count {
                collecting(more, seq, count, keyframe)
            } else {
                completed(
                    Receiver { newest: seq as int, window: Seq::empty(), ..m },
                    t as int,
                    seq,
                    keyframe,
                )
            }
        }),
{
    let f = Fragment { frame_seq: seq, frag_index: index, frag_count: count, keyframe };
    let m = collecting(have, seq, count, keyframe);
    let w = m.window;
    assert(w.drop_last() =~= Seq::empty());
    reveal_with_fuel(older, 2);
    assert(older(w, seq) == 0);
    assert(holds(w, seq));
    let more = Held { frame_seq: seq, need: count, have: have.insert(index), keyframe };
    assert(w.update(0, more) =~= seq![more]);
    assert(w.skip(1) =~= Seq::empty());
}

proof fn lemma_first(seq: u32, count: u16, keyframe: bool, t: i64, f: Fragment)
    requires
        f.frame_seq == seq,
        f.frag_count == count,
        f.keyframe == keyframe,
    ensures
        step(fresh(), t as int, f) == step(
            collecting(Set::empty(), seq, count, keyframe),
            t as int,
            f,
        ),
{
    let m = collecting(Set::empty(), seq, count, keyframe);
    assert(m.window.drop_last() =~= Seq::empty());
    reveal_with_fuel(older, 2);
    assert(holds(m.window, seq));
    assert(fresh().window.insert(0, empty_frame(f)) =~= m.window);
    assert(admitted(fresh(), f) == m);
    assert(admitted(m, f) == m);
}

/// A keyframe is delivered once all of its fragments have arrived, whatever their order and
/// however often each comes: with the fragment that completes it, and only once. Before that
/// there is nothing to deliver.
pub proof fn keyframe_delivered(trace: Seq<(i64, Fragment)>, seq: u32, count: u16)
    requires
        of_one_frame(trace, seq, count, true),
        0 < count,
    ensures
        arrived(trace).len() < count ==> played(trace).events == Seq::<Event>::empty(),
        arrived(trace).len() == count ==> {
            let before = trace.drop_last();
            &&& trace.len() > 0
            &&& played(trace).events == if arrived(before).len() < count {
                seq![Event::Deliver { t_ms: trace.last().0, frame_seq: seq, keyframe: true }]
            } else {
                played(before).events
            }
        },
{
    arrived_bound(trace, seq, count, true);
    lemma_played_one(trace, seq, count);
}

proof fn lemma_played_one(trace: Seq<(i64, Fragment)>, seq: u32, count: u16)
    requires
        of_one_frame(trace, seq, count, true),
        0 < count,
    ensures
        trace.len() > 0 && arrived(trace).len() < count ==> played(trace) == collecting(
            arrived(trace),
            seq,
            count,
            true,
        ),
        arrived(trace).len() < count ==> played(trace).events == Seq::<Event>::empty(),
        arrived(trace).len() == count ==> {
            let before = trace.drop_last();
            &&& trace.len() > 0
            &&& played(trace).newest == seq
            &&& played(trace).events == if arrived(before).len() < count {
                seq![Event::Deliver { t_ms: trace.last().0, frame_seq: seq, keyframe: true }]
            } else {
                played(before).events
            }
        },
    decreases trace.len(),
{
    if trace.len() > 0 {
        let before = trace.drop_last();
        let (t, f) = trace.last();
        assert(trace[trace.len() - 1] == (t, f));
        assert forall|i: int| 0 <= i < before.len() implies ({
            let f = (#[trigger] before[i]).1;
            f.frame_seq == seq && f.frag_count == count && f.keyframe && f.frag_index < count
        }) by {
            assert(before[i] == trace[i]);
        }
        lemma_played_one(before, seq, count);
        arrived_bound(trace, seq, count, true);
        arrived_bound(before, seq, count, true);
        if arrived(before).len() < count {
            lemma_collect(arrived(before), seq, count, true, t, f.frag_index);
            if before.len() == 0 {
                lemma_first(seq, count, true, t, f);
            }
            if arrived(trace).len() == count {
                assert(played(trace).events =~= seq![
                    Event::Deliver { t_ms: t, frame_seq: seq, keyframe: true },
                ]);
            }
        } else {
            assert(arrived(trace) =~= arrived(before));
        }
    }
}

/// What the reassembler takes of a datagram header.
pub open spec fn fragment_of(h: DatagramHeader) -> Fragment {
    Fragment {
        frame_seq: h.frame_seq,
        frag_index: h.frag_index,
        frag_count: h.frag_count,
        keyframe: h.keyframe,
    }
}

/// The arrival of datagrams of one frame: `arrivals` names each by its time and its place in
/// `datagrams`, and the reassembler gets what the receiver reads of it.
pub open spec fn received(
    datagrams: Seq<Seq<u8>>,
    arrivals: Seq<(i64, int)>,
    extra: Seq<u16>,
) -> Seq<(i64, Fragment)> {
    Seq::new(
        arrivals.len(),
        |k: int|
            (
                arrivals[k].0,
                fragment_of(verdict(datagrams[arrivals[k].1], extra)->Ok_0.header),
            ),
    )
}

/// Datagram `i` arrived at least once.
pub open spec fn came(arrivals: Seq<(i64, int)>, i: int) -> bool {
    exists|k: int| 0 <= k < arrivals.len() && (#[trigger] arrivals[k]).1 == i
}

/// All that happened is that keyframe `seq` was delivered.
pub open spec fn delivered_once(events: Seq<Event>, seq: u32) -> bool {
    &&& events.len() == 1
    &&& events[0] is Deliver
    &&& events[0]->frame_seq == seq
    &&& events[0]->keyframe
}

/// A keyframe survives the network: cut into datagrams that arrive in any order and any number
/// of times, it is delivered exactly once if every datagram arrives, and not at all if one does
/// not.
pub proof fn fragmented_keyframe_delivered(
    stream_id: u16,
    seq: u32,
    body: Seq<u8>,
    extra: Seq<u16>,
    arrivals: Seq<(i64, int)>,
)
    requires
        fragment_count(body.len()) <= 0xffff,
        stream_id == 0 || stream_id == 1 || extra.contains(stream_id),
        forall|k: int|
            0 <= k < arrivals.len() ==> 0 <= (#[trigger] arrivals[k]).1 < fragment_count(
                body.len(),
            ),
    ensures
        ({
            let sent = datagrams(stream_id, seq, true, body);
            let events = played(received(sent, arrivals, extra)).events;
            let all = forall|i: int| 0 <= i < sent.len() ==> came(arrivals, i);
            &&& all ==> delivered_once(events, seq)
            &&& !all ==> events.len() == 0
        }),
{
    let sent = datagrams(stream_id, seq, true, body);
    let n = fragment_count(body.len());
    let trace = received(sent, arrivals, extra);
    assert forall|k: int| 0 <= k < trace.len() implies ({
        let f = (#[trigger] trace[k]).1;
        &&& f.frame_seq == seq && f.frag_count == n as u16 && f.keyframe && f.frag_index < n as u16
        &&& f.frag_index == arrivals[k].1
    }) by {
        fragments_decode(stream_id, seq, true, body, extra, arrivals[k].1);
    }
    lemma_one_delivery(trace, seq, n as u16);
    arrived_bound(trace, seq, n as u16, true);
    lemma_below(n);
    lemma_arrived(trace);
    if forall|i: int| 0 <= i < sent.len() ==> came(arrivals, i) {
        assert forall|i: u16|
            below(n).contains(i) implies #[trigger] arrived(trace).contains(i) by {
            assert(came(arrivals, i as int));
            let k = choose|k: int|
                0 <= k < arrivals.len() && (#[trigger] arrivals[k]).1 == i as int;
            assert(trace[k].1.frag_index == i);
        }
        assert(arrived(trace) =~= below(n));
    } else {
        let i = choose|i: int| 0 <= i < sent.len() && !came(arrivals, i);
        assert(!arrived(trace).contains(i as u16)) by {
            if arrived(trace).contains(i as u16) {
                let k = choose|k: int|
                    0 <= k < trace.len() && (#[trigger] trace[k]).1.frag_index == i as u16;
                assert(arrivals[k].1 == i);
            }
        }
        assert(below(n).contains(i as u16));
    }
}

/// A fragment has arrived where the trace holds one of its index.
proof fn lemma_arrived(trace: Seq<(i64, Fragment)>)
    ensures
        forall|i: u16| #[trigger]
            arrived(trace).contains(i) <==> exists|k: int|
                0 <= k < trace.len() && (#[trigger] trace[k]).1.frag_index == i,
    decreases trace.len(),
{
    if trace.len() > 0 {
        let t = trace.drop_last();
        lemma_arrived(t);
        assert forall|i: u16| #[trigger] arrived(trace).contains(i) <==> exists|k: int|
            0 <= k < trace.len() && (#[trigger] trace[k]).1.frag_index == i by {
            if arrived(t).contains(i) {
                let k = choose|k: int| 0 <= k < t.len() && (#[trigger] t[k]).1.frag_index == i;
                assert(trace[k].1.frag_index == i);
            }
            if trace.last().1.frag_index == i {
                assert(trace[trace.len() - 1].1.frag_index == i);
            }
            if exists|k: int| 0 <= k < trace.len() && (#[trigger] trace[k]).1.frag_index == i {
                let k = choose|k: int|
                    0 <= k < trace.len() && (#[trigger] trace[k]).1.frag_index == i;
                if k < t.len() {
                    assert(t[k].1.frag_index == i);
                }
            }
        }
    }
}

/// A complete keyframe leaves one event: its delivery.
proof fn lemma_one_delivery(trace: Seq<(i64, Fragment)>, seq: u32, count: u16)
    requires
        of_one_frame(trace, seq, count, true),
        0 < count,
    ensures
        arrived(trace).len() < count ==> played(trace).events.len() == 0,
        arrived(trace).len() == count ==> delivered_once(played(trace).events, seq),
    decreases trace.len(),
{
    keyframe_delivered(trace, seq, count);
    arrived_bound(trace, seq, count, true);
    if trace.len() > 0 {
        let t = trace.drop_last();
        assert forall|i: int| 0 <= i < t.len() implies ({
            let f = (#[trigger] t[i]).1;
            f.frame_seq == seq && f.frag_count == count && f.keyframe && f.frag_index < count
        }) by {
            assert(t[i] == trace[i]);
        }
        lemma_one_delivery(t, seq, count);
        arrived_bound(t, seq, count, true);
    }
}

/// A keyframe ends a freeze: one of a single fragment that the window takes in is delivered
/// whatever went before, leaves no request outstanding, and the frame that directly follows it
/// is delivered too.
pub proof fn keyframe_resumes(m: Receiver, t: i64, u: i64, seq: u32)
    requires
        orderly(m),
        m.newest < seq < u32::MAX,
        m.window.len() < 2 || older(m.window, seq) > 0,
        !holds(m.window, seq),
        !holds(m.window, (seq + 1) as u32),
    ensures
        ({
            let key = Fragment { frame_seq: seq, frag_index: 0, frag_count: 1, keyframe: true };
            let then = Fragment {
                frame_seq: (seq + 1) as u32,
                frag_index: 0,
                frag_count: 1,
                keyframe: false,
            };
            let a = step(m, t as int, key);
            let b = step(a, u as int, then);
            &&& a.events == m.events.push(
                Event::Deliver { t_ms: t, frame_seq: seq, keyframe: true },
            )
            &&& a.last_decoded == Some(seq as int)
            &&& !a.idr_outstanding
            &&& b.events == a.events.push(
                Event::Deliver { t_ms: u, frame_seq: (seq + 1) as u32, keyframe: false },
            )
        }),
{
    let key = Fragment { frame_seq: seq, frag_index: 0, frag_count: 1, keyframe: true };
    let then = Fragment {
        frame_seq: (seq + 1) as u32,
        frag_index: 0,
        frag_count: 1,
        keyframe: false,
    };
    let a = step(m, t as int, key);
    lemma_single(m, t, key);
    step_orderly(m, t as int, key);
    lemma_older(m.window, seq);
    lemma_older(m.window, (seq + 1) as u32);
    lemma_older(a.window, (seq + 1) as u32);
    assert(a.window.len() <= 1);
    assert(!holds(a.window, (seq + 1) as u32)) by {
        if holds(a.window, (seq + 1) as u32) {
            let k = older(a.window, (seq + 1) as u32) as int;
            assert(m.window.contains(a.window[k]));
            let j = m.window.index_of(a.window[k]);
            assert(m.window[j].frame_seq == seq + 1);
            let p = older(m.window, (seq + 1) as u32) as int;
            assert(p <= j);
            if p < j {
                assert(m.window[p].frame_seq < m.window[j].frame_seq);
            }
        }
    }
    lemma_single(a, u, then);
}

/// A frame of one fragment completes at once, and leaves of the window only what is newer.
proof fn lemma_single(m: Receiver, t: i64, f: Fragment)
    requires
        orderly(m),
        m.newest < f.frame_seq,
        f.frag_count == 1,
        m.window.len() < 2 || older(m.window, f.frame_seq) > 0,
        !holds(m.window, f.frame_seq),
    ensures
        step(m, t as int, f).newest == f.frame_seq,
        step(m, t as int, f).window.len() <= 1,
        forall|k: int|
            0 <= k < step(m, t as int, f).window.len() ==> m.window.contains(
                #[trigger] step(m, t as int, f).window[k],
            ),
        step(m, t as int, f).events == completed(m, t as int, f.frame_seq, f.keyframe).events,
        step(m, t as int, f).last_decoded == completed(
            m,
            t as int,
            f.frame_seq,
            f.keyframe,
        ).last_decoded,
        step(m, t as int, f).idr_outstanding == completed(
            m,
            t as int,
            f.frame_seq,
            f.keyframe,
        ).idr_outstanding,
{
    let w = m.window;
    lemma_older(w, f.frame_seq);
    lemma_admitted(m, f);
    let a = admitted(m, f);
    let at = older(w, f.frame_seq) as int;
    let p = if w.len() >= 2 {
        at - 1
    } else {
        at
    };
    lemma_older(a.window, f.frame_seq);
    let q = older(a.window, f.frame_seq) as int;
    assert(a.window[p] == empty_frame(f));
    assert(q == p) by {
        if q < p {
            assert(a.window[q].frame_seq < a.window[p].frame_seq);
        }
    }
    assert(Set::<u16>::empty().insert(f.frag_index).len() == 1);
    let rest = a.window.skip(q + 1);
    assert(step(m, t as int, f).window == rest);
    assert forall|k: int| 0 <= k < rest.len() implies w.contains(#[trigger] rest[k]) by {
        let j = if w.len() >= 2 {
            q + 1 + k
        } else {
            q + k
        };
        if w.len() >= 2 {
            assert(a.window == w.remove(0).insert(at - 1, empty_frame(f)));
            assert(rest[k] == a.window[q + 1 + k]);
            assert(a.window[q + 1 + k] == w.remove(0)[q + k]);
            assert(w.remove(0)[q + k] == w[q + k + 1]);
        } else {
            assert(rest[k] == w[j]);
        }
        assert(w[j] == rest[k]);
    }
}

/// Feed a trace of fragments, each with its arrival time, to a receiver with no history.
pub fn play(trace: &[(i64, Fragment)]) -> (r: Reassembler)
    requires
        trace@.len() <= u64::MAX / 3,
    ensures
        r@ == played(trace@),
{
    let mut r: Reassembler = Reassembler::new();
    let mut k: usize = 0;
    assert(trace@.take(0) =~= Seq::empty());
    while k < trace.len()
        invariant
            k <= trace@.len(),
            trace@.len() <= u64::MAX / 3,
            r@ == played(trace@.take(k as int)),
        decreases trace@.len() - k,
    {
        proof {
            let next = trace@.take(k + 1);
            assert(next.drop_last() =~= trace@.take(k as int));
            assert(next.last() == trace@[k as int]);
            played_sound(trace@.take(k as int));
            played_sound(next);
        }
        r.push(trace[k].0, trace[k].1);
        k += 1;
    }
    assert(trace@.take(k as int) =~= trace@);
    r
}

} // verus!
