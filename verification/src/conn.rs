//! What one connection does, apart from moving bytes.
//!
//! The driver in the application owns the transport: it reads control frames, hands them here,
//! and carries out the [`WireAction`]s that come back, in order.

use vstd::prelude::*;
use crate::be::{be, be_value, lemma_pow256_values, push_be, read_be};
use crate::cbor::{
    Node, Value, entries, lowered, read_item, reads_as, settled_entries, settled_node,
};
use crate::control;
use crate::control::{
    Decoded, decode_frame, encode_frame, frame, intact, key_count, key_within,
    lemma_filter_settled, lemma_opened_settled, opened,
};
use crate::errors;
use crate::errors::{name, name_of};
use crate::session::{
    Act, HostSession, MediaParams, Output, Session, StatsReport, acts, alike, error_body,
    error_entries, error_is_intact, handled, int_entry, lemma_body_readable,
    nan_shows_in_jitter_alone, next, put, sent_is_intact, tellable,
};

verus! {

broadcast use vstd::std_specs::vec::group_vec_axioms;

/// An instruction to the driver.
#[derive(Debug)]
pub enum WireAction {
    /// Write these bytes to the control stream.
    Write(Vec<u8>),
    /// Start the media pipelines of the first `count` streams.
    StartStreams {
        /// How many.
        count: usize,
    },
    /// Ask the pipeline of this stream for an IDR.
    RequestIdr {
        /// Which stream.
        stream_id: u16,
    },
    /// Switch the pipeline of the primary stream to these parameters.
    Reconfigure {
        /// The new parameters.
        params: MediaParams,
    },
    /// Log a client report.
    Log(StatsReport),
    /// Finish the control stream, close the connection, and stop.
    Close {
        /// Application close code.
        code: u32,
        /// Close reason.
        reason: &'static str,
    },
}

/// What an action does.
pub enum Deed {
    Write(Seq<u8>),
    StartStreams { count: nat },
    RequestIdr { stream_id: u16 },
    Reconfigure { params: MediaParams },
    Log(StatsReport),
    Close { code: u32, reason: Seq<char> },
}

impl View for WireAction {
    type V = Deed;

    open spec fn view(&self) -> Deed {
        match *self {
            WireAction::Write(bytes) => Deed::Write(bytes@),
            WireAction::StartStreams { count } => Deed::StartStreams { count: count as nat },
            WireAction::RequestIdr { stream_id } => Deed::RequestIdr { stream_id },
            WireAction::Reconfigure { params } => Deed::Reconfigure { params },
            WireAction::Log(report) => Deed::Log(report),
            WireAction::Close { code, reason } => Deed::Close { code, reason: reason@ },
        }
    }
}

/// What a run of actions does.
pub open spec fn deeds(s: Seq<WireAction>) -> Seq<Deed> {
    Seq::new(s.len(), |i: int| s[i]@)
}

/// The close code on the wire: 32 bits.
pub open spec fn wire_code(code: u64) -> u32 {
    (code % 0x1_0000_0000) as u32
}

/// The body of a CLOCK_PONG: the echoed client time, and the host time twice (receive and
/// send).
pub open spec fn pong_entries(t0: i64, now: u64) -> Seq<(Node, Node)> {
    seq![int_entry(0, t0 as int), int_entry(1, now as int), int_entry(2, now as int)]
}

/// How many pipelines START starts: one per stream where multi-display was negotiated, and
/// otherwise that of the primary stream alone.
pub open spec fn started_streams(multi: bool, streams: nat) -> nat {
    if multi || streams == 0 {
        streams
    } else {
        1
    }
}

/// What an output of the session amounts to at host time `now`, on a host with `streams`
/// streams.
pub open spec fn deed(a: Act, now: u64, streams: nat) -> Deed {
    match a {
        Act::Send { msg_type, body } => Deed::Write(frame(msg_type, body)),
        Act::StartMedia { multi } => Deed::StartStreams { count: started_streams(multi, streams) },
        Act::RequestIdr { stream_id } => Deed::RequestIdr { stream_id },
        Act::Reconfigure { params } => Deed::Reconfigure { params },
        Act::ClockPong { t0 } => Deed::Write(frame(control::CLOCK_PONG, pong_entries(t0, now))),
        Act::Stats(report) => Deed::Log(report),
        Act::Close { code } => Deed::Close { code: wire_code(code), reason: name_of(code) },
    }
}

/// What a run of outputs amounts to.
pub open spec fn deeds_of(s: Seq<Act>, now: u64, streams: nat) -> Seq<Deed> {
    Seq::new(s.len(), |i: int| deed(s[i], now, streams))
}

/// An ERROR message that names its code, and a close.
pub open spec fn turned_away(code: u64, reason: Seq<char>) -> Seq<Deed> {
    seq![
        Deed::Write(frame(control::ERROR, error_entries(code, name_of(code)))),
        Deed::Close { code: wire_code(code), reason },
    ]
}

/// A control message arrives as a tree: the next session state, and what the session puts out;
/// `None` where the tree is no message.
pub open spec fn received(m: Session, n: Node) -> (Session, Option<Seq<Act>>) {
    match opened(n) {
        None => (m, None),
        Some((t, body)) => match key_count(t) {
            None => (m, Some(Seq::empty())),
            Some(count) => {
                let (after, out) = handled(m, t, body.filter(key_within(count)));
                (after, Some(out))
            },
        },
    }
}

/// What happens when a frame whose body reads as a tree arrives: a tree that is no message is
/// turned away as a violation, without the session seeing it, and any other goes to the session.
pub open spec fn on_tree(m: Session, n: Node, now: u64, streams: nat) -> (Session, Seq<Deed>) {
    match received(m, n) {
        (_, None) => (m, turned_away(errors::PROTOCOL_VIOLATION, "bad frame"@)),
        (after, Some(out)) => (after, deeds_of(out, now, streams)),
    }
}

/// The answer `a` to a frame with these bytes: what is no frame, or has no readable body, is
/// turned away as a violation, and otherwise it is the answer to the tree read from the body.
pub open spec fn answers(
    m: Session,
    bytes: Seq<u8>,
    now: u64,
    streams: nat,
    a: (Session, Seq<Deed>),
) -> bool {
    let bad = turned_away(errors::PROTOCOL_VIOLATION, "bad frame"@);
    match control::frame_body(bytes) {
        None => a == (m, bad),
        Some(body) => match read_item(body) {
            None => a == (m, bad),
            Some(_) => exists|n: Node|
                #[trigger] reads_as(body, n) && a == on_tree(m, n, now, streams),
        },
    }
}

/// An ERROR body that carries the name of its code.
pub fn named_error_body(code: u64) -> (r: Vec<(Value, Value)>)
    ensures
        entries(r@) == error_entries(code, name_of(code)),
{
    error_body(code, name(code))
}

/// The body of a CLOCK_PONG.
pub fn clock_pong_body(t0: i64, now: u64) -> (r: Vec<(Value, Value)>)
    ensures
        entries(r@) == pong_entries(t0, now),
{
    let mut body: Vec<(Value, Value)> = Vec::new();
    put(&mut body, 0, Value::Int(t0 as i128));
    put(&mut body, 1, Value::Int(now as i128));
    put(&mut body, 2, Value::Int(now as i128));
    assert(entries(body@) =~= pong_entries(t0, now));
    body
}

/// Turn one session output into an action.
pub fn wire_action(out: Output, now: u64, streams: usize) -> (r: WireAction)
    ensures
        r@ == deed(out@, now, streams as nat),
{
    match out {
        Output::Send { msg_type, body } => WireAction::Write(
            encode_frame(msg_type, body.as_slice()),
        ),
        Output::StartMedia { multi } => WireAction::StartStreams {
            count: if multi || streams == 0 {
                streams
            } else {
                1
            },
        },
        Output::RequestIdr { stream_id } => WireAction::RequestIdr { stream_id },
        Output::Reconfigure { params } => WireAction::Reconfigure { params },
        Output::ClockPong { t0 } => {
            let body: Vec<(Value, Value)> = clock_pong_body(t0, now);
            WireAction::Write(encode_frame(control::CLOCK_PONG, body.as_slice()))
        },
        Output::Stats(report) => WireAction::Log(report),
        Output::Close { code } => WireAction::Close {
            code: (code % 0x1_0000_0000) as u32,
            reason: name(code),
        },
    }
}

/// Turn session outputs into actions, in order.
pub fn drive(outputs: Vec<Output>, now: u64, streams: usize) -> (r: Vec<WireAction>)
    ensures
        deeds(r@) == deeds_of(acts(outputs@), now, streams as nat),
{
    let ghost all = outputs@;
    let ghost goal = deeds_of(acts(all), now, streams as nat);
    let mut done: Vec<WireAction> = Vec::new();
    for out in it: outputs
        invariant
            it.seq() == all,
            goal == deeds_of(acts(all), now, streams as nat),
            done@.len() == it.index(),
            deeds(done@) == goal.take(it.index() as int),
    {
        let ghost k = it.index() as int;
        done.push(wire_action(out, now, streams));
        assert(acts(all)[k] == out@);
        assert(deeds(done@) =~= goal.take(k).push(goal[k]));
        assert(goal.take(k + 1) =~= goal.take(k).push(goal[k]));
    }
    assert(goal.take(all.len() as int) =~= goal);
    done
}

/// An ERROR message that names its code, and a close.
fn turn_away(code: u64, reason: &'static str) -> (r: Vec<WireAction>)
    ensures
        deeds(r@) == turned_away(code, reason@),
{
    let body: Vec<(Value, Value)> = named_error_body(code);
    let mut out: Vec<WireAction> = Vec::new();
    out.push(WireAction::Write(encode_frame(control::ERROR, body.as_slice())));
    out.push(WireAction::Close { code: (code % 0x1_0000_0000) as u32, reason });
    assert(deeds(out@) =~= turned_away(code, reason@));
    out
}

/// Tell a surplus connection that the host is busy, and close it.
pub fn reject_busy() -> (r: Vec<WireAction>)
    ensures
        deeds(r@) == turned_away(errors::BUSY, "busy"@),
{
    turn_away(errors::BUSY, "busy")
}

/// The peer finished the control stream without BYE: a clean close.
pub fn on_eof() -> (r: Vec<WireAction>)
    ensures
        deeds(r@) == seq![Deed::Close { code: 0u32, reason: "eof"@ }],
{
    let mut out: Vec<WireAction> = Vec::new();
    out.push(WireAction::Close { code: 0, reason: "eof" });
    assert(deeds(out@) =~= seq![Deed::Close { code: 0u32, reason: "eof"@ }]);
    out
}

/// A decoded frame, or the lack of one, goes to the session; the actions come back.
pub fn react(
    session: &mut HostSession,
    decoded: crate::error::Result<Decoded>,
    now: u64,
    streams: usize,
) -> (r: Vec<WireAction>)
    requires
        decoded is Ok ==> next(old(session)@, decoded->Ok_0).0.generation <= u64::MAX,
    ensures
        match decoded {
            Ok(d) => (final(session)@, deeds(r@)) == (
                next(old(session)@, d).0,
                deeds_of(next(old(session)@, d).1, now, streams as nat),
            ),
            Err(_) => final(session)@ == old(session)@ && deeds(r@) == turned_away(
                errors::PROTOCOL_VIOLATION,
                "bad frame"@,
            ),
        },
{
    match decoded {
        Ok(d) => {
            let outputs: Vec<Output> = session.on_frame(d);
            drive(outputs, now, streams)
        },
        Err(_) => turn_away(errors::PROTOCOL_VIOLATION, "bad frame"),
    }
}

/// One complete frame, length prefix included, has been read.
pub fn on_read(session: &mut HostSession, bytes: &[u8], now: u64, streams: usize) -> (r: Vec<
    WireAction,
>)
    requires
        old(session)@.generation < u64::MAX,
    ensures
        answers(old(session)@, bytes@, now, streams as nat, (final(session)@, deeds(r@))),
{
    let ghost m = session@;
    let decoded = decode_frame(bytes);
    proof {
        if decoded is Ok {
            let d = decoded->Ok_0;
            assert(next(m, d).0.generation <= m.generation + 1);
        }
    }
    react(session, decoded, now, streams)
}

/// The announced body length of a control frame, or `None` where it is over the limit.
pub fn announced_len(prefix: [u8; 4]) -> (r: Option<usize>)
    ensures
        match r {
            Some(n) => n == be_value(prefix@) && n <= control::MAX_FRAME_BODY,
            None => be_value(prefix@) > control::MAX_FRAME_BODY,
        },
{
    let n: u64 = read_be(prefix.as_slice(), 0, 4);
    assert(prefix@.subrange(0, 4) =~= prefix@);
    if n > 65536 {
        None
    } else {
        Some(n as usize)
    }
}

/// A session id from a time in nanoseconds: its 16 bytes, most significant first. It is for
/// logs and user interfaces, and no secret.
pub fn session_id(nanos: u128) -> (r: [u8; 16])
    ensures
        r@ == be(nanos as nat, 16),
{
    let mut bytes: Vec<u8> = Vec::new();
    let high: u64 = (nanos / 0x1_0000_0000_0000_0000) as u64;
    let low: u64 = (nanos % 0x1_0000_0000_0000_0000) as u64;
    push_be(&mut bytes, high, 8);
    push_be(&mut bytes, low, 8);
    proof {
        lemma_be_halves(nanos as nat);
        assert(bytes@ =~= be(nanos as nat, 16));
        crate::be::lemma_be_len(nanos as nat, 16);
    }
    let id: [u8; 16] = [
        bytes[0],
        bytes[1],
        bytes[2],
        bytes[3],
        bytes[4],
        bytes[5],
        bytes[6],
        bytes[7],
        bytes[8],
        bytes[9],
        bytes[10],
        bytes[11],
        bytes[12],
        bytes[13],
        bytes[14],
        bytes[15],
    ];
    assert(id@ =~= be(nanos as nat, 16));
    id
}

proof fn lemma_be_split(v: nat, m: nat, n: nat)
    ensures
        be(v, m + n) == be(v / crate::be::pow256(n), m) + be(v, n),
    decreases n,
{
    crate::be::lemma_pow256_mono(0, n);
    if n == 0 {
        assert(be(v, m) + be(v, 0) =~= be(v, m));
        assert(v / 1 == v);
    } else {
        let k = (n - 1) as nat;
        crate::be::lemma_pow256_mono(0, k);
        lemma_be_split(v / 256, m, k);
        vstd::arithmetic::div_mod::lemma_div_denominator(
            v as int,
            256,
            crate::be::pow256(k) as int,
        );
        assert(be(v, m + n) =~= be(v / crate::be::pow256(n), m) + be(v, n));
    }
}

proof fn lemma_be_low(v: nat, n: nat)
    ensures
        be(v % crate::be::pow256(n), n) == be(v, n),
{
    crate::be::be_round_trip(v, n);
    crate::be::lemma_be_len(v, n);
    crate::be::be_of_value(be(v, n));
}

proof fn lemma_be_halves(v: nat)
    requires
        v <= u128::MAX,
    ensures
        be(v, 16) == be(v / 0x1_0000_0000_0000_0000, 8) + be(v % 0x1_0000_0000_0000_0000, 8),
{
    lemma_pow256_values();
    lemma_be_split(v, 8, 8);
    lemma_be_low(v, 8);
}

/// The bytes are no control message: the frame is too short or over the limit, its body is no
/// CBOR, or that is no envelope.
pub open spec fn is_bad(bytes: Seq<u8>) -> bool {
    match control::frame_body(bytes) {
        None => true,
        Some(body) => match read_item(body) {
            None => true,
            Some(item) => opened(lowered(item)) is None,
        },
    }
}

/// A length over the limit makes a bad frame, whatever comes behind it.
pub proof fn over_limit_is_bad(prefix: Seq<u8>, rest: Seq<u8>)
    requires
        prefix.len() == 4,
        be_value(prefix) > control::MAX_FRAME_BODY,
    ensures
        is_bad(prefix + rest),
{
    assert((prefix + rest).subrange(0, 4) =~= prefix);
}

/// What is no control message never reaches the session, and is answered: the client is told
/// PROTOCOL_VIOLATION and the connection is closed with that code.
pub proof fn bad_frame_is_answered(
    m: Session,
    bytes: Seq<u8>,
    now: u64,
    streams: nat,
    a: (Session, Seq<Deed>),
)
    requires
        is_bad(bytes),
        answers(m, bytes, now, streams, a),
    ensures
        a == (m, turned_away(errors::PROTOCOL_VIOLATION, "bad frame"@)),
{
    if control::frame_body(bytes) is Some && read_item(control::frame_body(bytes)->0) is Some {
        let n = choose|n: Node|
            #[trigger] reads_as(control::frame_body(bytes)->0, n) && a == on_tree(
                m,
                n,
                now,
                streams,
            );
        lemma_opened_settled(n);
    }
}

/// Two deeds that differ at most in the jitter of a logged report.
pub open spec fn deeds_alike(a: Deed, b: Deed) -> bool {
    match (a, b) {
        (Deed::Log(x), Deed::Log(y)) => (StatsReport { jitter_ms: y.jitter_ms, ..x }) == y,
        _ => a == b,
    }
}

/// The bytes of a frame settle the answer, but for a jitter that is a NaN: the session after it
/// is the same on every machine, and so is what is done.
pub proof fn answers_agree(
    m: Session,
    bytes: Seq<u8>,
    now: u64,
    streams: nat,
    a: (Session, Seq<Deed>),
    b: (Session, Seq<Deed>),
)
    requires
        answers(m, bytes, now, streams, a),
        answers(m, bytes, now, streams, b),
    ensures
        a.0 == b.0,
        a.1.len() == b.1.len(),
        forall|i: int| 0 <= i < a.1.len() ==> deeds_alike(#[trigger] a.1[i], b.1[i]),
{
    if control::frame_body(bytes) is Some && read_item(control::frame_body(bytes)->0) is Some {
        let body = control::frame_body(bytes)->0;
        let x = choose|n: Node| #[trigger] reads_as(body, n) && a == on_tree(m, n, now, streams);
        let y = choose|n: Node| #[trigger] reads_as(body, n) && b == on_tree(m, n, now, streams);
        let s = on_tree(m, settled_node(x), now, streams);
        lemma_tree_settled(m, x, now, streams);
        lemma_tree_settled(m, y, now, streams);
        assert forall|i: int| 0 <= i < a.1.len() implies deeds_alike(#[trigger] a.1[i], b.1[i]) by {
            assert(deeds_alike(a.1[i], s.1[i]));
            assert(deeds_alike(b.1[i], s.1[i]));
        }
    }
}

proof fn lemma_tree_settled(m: Session, n: Node, now: u64, streams: nat)
    ensures
        ({
            let a = on_tree(m, n, now, streams);
            let b = on_tree(m, settled_node(n), now, streams);
            &&& a.0 == b.0
            &&& a.1.len() == b.1.len()
            &&& forall|i: int| 0 <= i < a.1.len() ==> deeds_alike(#[trigger] a.1[i], b.1[i])
        }),
{
    lemma_opened_settled(n);
    if opened(n) is Some && key_count((opened(n)->0).0) is Some {
        let (t, body) = opened(n)->0;
        let count = key_count(t)->0;
        let kept = body.filter(key_within(count));
        lemma_filter_settled(body, count);
        nan_shows_in_jitter_alone(m, t, kept);
        let x = handled(m, t, kept).1;
        let y = handled(m, t, settled_entries(kept)).1;
        let a = on_tree(m, n, now, streams).1;
        let b = on_tree(m, settled_node(n), now, streams).1;
        assert forall|i: int| 0 <= i < a.len() implies deeds_alike(#[trigger] a[i], b[i]) by {
            assert(alike(x[i], y[i]));
        }
    }
}

/// Once the session is closed a well-formed frame leads to no action.
pub proof fn closed_session_is_silent(
    m: Session,
    bytes: Seq<u8>,
    now: u64,
    streams: nat,
    a: (Session, Seq<Deed>),
)
    requires
        m.state is Closed,
        answers(m, bytes, now, streams, a),
    ensures
        a.0 == m,
        a.1 == Seq::<Deed>::empty() || a.1 == turned_away(
            errors::PROTOCOL_VIOLATION,
            "bad frame"@,
        ),
{
    if control::frame_body(bytes) is Some && read_item(control::frame_body(bytes)->0) is Some {
        let n = choose|n: Node|
            #[trigger] reads_as(control::frame_body(bytes)->0, n) && a == on_tree(
                m,
                n,
                now,
                streams,
            );
        if received(m, n).1 is Some {
            assert(a.1 =~= Seq::empty());
        }
    }
}

/// Whenever the session closes, the driver is told to close the connection, and it is the last
/// thing that it is told.
pub proof fn session_close_closes_connection(m: Session, d: Decoded, now: u64, streams: nat)
    requires
        !(m.state is Closed),
        next(m, d).0.state is Closed,
    ensures
        ({
            let out = deeds_of(next(m, d).1, now, streams);
            out.len() > 0 && out.last() is Close
        }),
{
    crate::session::closing_is_answered(m, d);
}

/// Whatever the host writes in answer to a message is the frame of an intact message, so a
/// client's decoder gets it back whole.
pub proof fn writes_are_intact(m: Session, d: Decoded, now: u64, streams: nat, i: int) -> (sent: (
    u64,
    Seq<(Node, Node)>,
))
    requires
        tellable(m),
        0 <= i < next(m, d).1.len(),
        deeds_of(next(m, d).1, now, streams)[i] is Write,
    ensures
        deeds_of(next(m, d).1, now, streams)[i] == Deed::Write(frame(sent.0, sent.1)),
        intact(sent.0, sent.1),
{
    match next(m, d).1[i] {
        Act::Send { msg_type, body } => {
            sent_is_intact(m, d, i);
            (msg_type, body)
        },
        Act::ClockPong { t0 } => {
            lemma_body_readable(pong_entries(t0, now));
            (control::CLOCK_PONG, pong_entries(t0, now))
        },
        _ => (0, Seq::empty()),
    }
}

/// Whoever is turned away is told so in an intact message.
pub proof fn turning_away_is_intact(code: u64, reason: Seq<char>)
    ensures
        turned_away(code, reason)[0] == Deed::Write(
            frame(control::ERROR, error_entries(code, name_of(code))),
        ),
        intact(control::ERROR, error_entries(code, name_of(code))),
{
    reveal_strlit("NONE");
    reveal_strlit("VERSION_UNSUPPORTED");
    reveal_strlit("BUSY");
    reveal_strlit("NO_COMMON_CODEC");
    reveal_strlit("PROTOCOL_VIOLATION");
    reveal_strlit("DATAGRAM_UNSUPPORTED");
    reveal_strlit("AUTH_FAILED");
    reveal_strlit("INTERNAL");
    error_is_intact(code, name_of(code));
}

} // verus!
