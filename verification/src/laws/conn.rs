//! What a connection does on the wire: which bytes it writes, what it starts, and how it ends.

use vstd::prelude::*;
use crate::be::be_value;
use crate::cbor::Node;
use crate::conn::{Deed, deed, deeds_of, on_tree, received, started_streams, turned_away};
use crate::control::{frame, frame_body};
use crate::errors::name_of;
use crate::laws::control::{registry, stripping_changes_nothing};
use crate::laws::session::{alone, bye_and_ping, says};
use crate::session::{Act, MediaParams, Session, StatsReport, handled};

verus! {

/// The codes and their names.
pub proof fn codes_have_names(code: u64)
    ensures
        code == 0 ==> name_of(code) == "NONE"@,
        code == 1 ==> name_of(code) == "VERSION_UNSUPPORTED"@,
        code == 2 ==> name_of(code) == "BUSY"@,
        code == 3 ==> name_of(code) == "NO_COMMON_CODEC"@,
        code == 4 ==> name_of(code) == "PROTOCOL_VIOLATION"@,
        code == 5 ==> name_of(code) == "DATAGRAM_UNSUPPORTED"@,
        code == 6 ==> name_of(code) == "AUTH_FAILED"@,
        code >= 7 ==> name_of(code) == "INTERNAL"@,
{
}

/// The body of a frame is what its first four bytes, the most significant first, say that it is:
/// up to 65536 bytes, all of which are there; and there is none otherwise.
pub proof fn body_is_as_long_as_announced(bytes: Seq<u8>)
    ensures
        bytes.len() < 4 ==> frame_body(bytes) is None,
        bytes.len() >= 4 ==> {
            let n = bytes[0] * 0x100_0000 + bytes[1] * 0x1_0000 + bytes[2] * 0x100 + bytes[3];
            if n > 65536 || bytes.len() < 4 + n {
                frame_body(bytes) is None
            } else {
                frame_body(bytes) == Some(bytes.subrange(4, 4 + n))
            }
        },
{
    if bytes.len() >= 4 {
        let p = bytes.subrange(0, 4);
        assert(p.drop_last().drop_last().drop_last().drop_last() =~= Seq::empty());
        reveal_with_fuel(be_value, 5);
        assert(p[0] == bytes[0] && p[1] == bytes[1] && p[2] == bytes[2] && p[3] == bytes[3]);
    }
}

/// CLOCK_PING is answered in kind: CLOCK_PONG gives the client's time back under key 0, and the
/// host's time under 1 and 2. Whatever else the ping says, and whatever the session is doing.
pub proof fn ping_is_answered(
    m: Session,
    ping: Seq<(Node, Node)>,
    t0: i64,
    now: u64,
    streams: nat,
) -> (pong: Seq<(Node, Node)>)
    requires
        !(m.state is Closed),
        says(ping, 0, Node::Int(t0 as int)),
    ensures
        on_tree(m, Node::Array(seq![Node::Int(0x30), Node::Pairs(ping)]), now, streams) == (
            m,
            seq![Deed::Write(frame(0x31, pong))],
        ),
        says(pong, 0, Node::Int(t0 as int)),
        says(pong, 1, Node::Int(now as int)),
        says(pong, 2, Node::Int(now as int)),
        pong.len() == 3,
{
    let n = Node::Array(seq![Node::Int(0x30), Node::Pairs(ping)]);
    registry(0x30);
    bye_and_ping(m, ping, t0);
    stripping_changes_nothing(m, 0x30, ping);
    let a = Act::ClockPong { t0 };
    let pong = crate::conn::pong_entries(t0, now);
    assert(deeds_of(seq![a], now, streams) =~= seq![deed(a, now, streams)]);
    assert(pong[0] == (Node::Int(0), Node::Int(t0 as int)) && alone(pong, 0, 0));
    assert(pong[1] == (Node::Int(1), Node::Int(now as int)) && alone(pong, 1, 1));
    assert(pong[2] == (Node::Int(2), Node::Int(now as int)) && alone(pong, 2, 2));
    pong
}

/// BYE ends the connection with code 0 and nothing else.
pub proof fn bye_ends_the_connection(m: Session, bye: Seq<(Node, Node)>, now: u64, streams: nat)
    requires
        !(m.state is Closed),
    ensures
        on_tree(m, Node::Array(seq![Node::Int(0x41), Node::Pairs(bye)]), now, streams).1 == seq![
            Deed::Close { code: 0, reason: "NONE"@ },
        ],
        on_tree(
            m,
            Node::Array(seq![Node::Int(0x41), Node::Pairs(bye)]),
            now,
            streams,
        ).0.state is Closed,
{
    registry(0x41);
    bye_and_ping(m, bye, 0);
    stripping_changes_nothing(m, 0x41, bye);
    let a = Act::Close { code: 0 };
    assert(deeds_of(seq![a], now, streams) =~= seq![deed(a, now, streams)]);
}

/// A message of a type that is not registered is passed over.
pub proof fn unknown_types_are_passed_over(
    m: Session,
    t: u64,
    body: Seq<(Node, Node)>,
    now: u64,
    streams: nat,
)
    requires
        !(0x01 <= t <= 0x05 || t == 0x10 || 0x20 <= t <= 0x22 || t == 0x30 || t == 0x31 || t == 0x40
            || t == 0x41 || 0x50 <= t <= 0x53),
    ensures
        on_tree(m, Node::Array(seq![Node::Int(t as int), Node::Pairs(body)]), now, streams) == (
            m,
            Seq::<Deed>::empty(),
        ),
{
    registry(t);
    let n = Node::Array(seq![Node::Int(t as int), Node::Pairs(body)]);
    vstd::arithmetic::div_mod::lemma_small_mod(t as nat, 0x1_0000_0000_0000_0000);
    assert(received(m, n) == (m, Some(Seq::<Act>::empty())));
    assert(deeds_of(Seq::empty(), now, streams) =~= Seq::empty());
}

/// A message of a registered type is given to the session, and what the session puts out is done,
/// one for one and in order.
pub proof fn messages_go_to_the_session(
    m: Session,
    t: u64,
    body: Seq<(Node, Node)>,
    now: u64,
    streams: nat,
)
    requires
        crate::control::key_count(t) is Some,
    ensures
        ({
            let (after, done) = on_tree(
                m,
                Node::Array(seq![Node::Int(t as int), Node::Pairs(body)]),
                now,
                streams,
            );
            let (next, out) = handled(m, t, body);
            &&& after == next
            &&& done.len() == out.len()
            &&& forall|i: int| 0 <= i < out.len() ==> #[trigger] done[i] == deed(out[i], now, streams)
        }),
{
    stripping_changes_nothing(m, t, body);
    vstd::arithmetic::div_mod::lemma_small_mod(t as nat, 0x1_0000_0000_0000_0000);
}

/// What is no message is answered with ERROR and the end of the connection, both under code 4,
/// and leaves the session as it was.
pub proof fn what_is_no_message_is_turned_away(
    m: Session,
    n: Node,
    now: u64,
    streams: nat,
) -> (error: Seq<(Node, Node)>)
    requires
        !(n is Array && n->Array_0.len() == 2 && n->Array_0[0] is Int && n->Array_0[0]->Int_0 >= 0
            && n->Array_0[1] is Pairs),
    ensures
        on_tree(m, n, now, streams).0 == m,
        on_tree(m, n, now, streams).1 == seq![
            Deed::Write(frame(0x40, error)),
            Deed::Close { code: 4, reason: "bad frame"@ },
        ],
        says(error, 0, Node::Int(4)),
        says(error, 1, Node::Text("PROTOCOL_VIOLATION"@)),
        error.len() == 2,
{
    crate::laws::control::envelope_is_a_pair(n);
    turned_away_with_its_code(4, "bad frame"@)
}

/// Who is turned away is told the code and its name in an ERROR message, and the connection ends
/// with that code, in 32 bits, and the reason.
pub proof fn turned_away_with_its_code(code: u64, reason: Seq<char>) -> (error: Seq<(Node, Node)>)
    ensures
        turned_away(code, reason) == seq![
            Deed::Write(frame(0x40, error)),
            Deed::Close { code: (code % 0x1_0000_0000) as u32, reason },
        ],
        says(error, 0, Node::Int(code as int)),
        says(error, 1, Node::Text(name_of(code))),
        error.len() == 2,
{
    let error = crate::session::error_entries(code, name_of(code));
    assert(error[0] == (Node::Int(0), Node::Int(code as int)) && alone(error, 0, 0));
    assert(error[1] == (Node::Int(1), Node::Text(name_of(code))) && alone(error, 1, 1));
    error
}

/// What each output of the session means on a host with `streams` streams: a message is written
/// as a frame; media starts on every stream where several were agreed, and on one otherwise; and
/// the rest is handed on as it is.
pub proof fn outputs_are_carried_out(
    msg_type: u64,
    body: Seq<(Node, Node)>,
    multi: bool,
    stream_id: u16,
    params: MediaParams,
    report: StatsReport,
    code: u64,
    now: u64,
    streams: nat,
)
    ensures
        deed(Act::Send { msg_type, body }, now, streams) == Deed::Write(frame(msg_type, body)),
        multi ==> deed(Act::StartMedia { multi }, now, streams) == (Deed::StartStreams {
            count: streams,
        }),
        !multi && streams > 0 ==> deed(Act::StartMedia { multi }, now, streams) == (
        Deed::StartStreams { count: 1 }),
        started_streams(multi, streams) <= streams,
        deed(Act::RequestIdr { stream_id }, now, streams) == (Deed::RequestIdr { stream_id }),
        deed(Act::Reconfigure { params }, now, streams) == (Deed::Reconfigure { params }),
        deed(Act::Stats(report), now, streams) == Deed::Log(report),
        deed(Act::Close { code }, now, streams) == (Deed::Close {
            code: (code % 0x1_0000_0000) as u32,
            reason: name_of(code),
        }),
{
}

} // verus!
