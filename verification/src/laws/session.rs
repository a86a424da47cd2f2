//! What a host session makes of what a client sends, and what it tells the client.
//!
//! Messages are named by their numbers on the wire, and a body by what stands under its keys.

use vstd::prelude::*;
use crate::cbor::Node;
use crate::session::{
    Act, MediaParams, Session, StatsReport, StreamConfig, awaiting, elem_under, float_under,
    handled, int_under, offers,
};

verus! {

/// `v` stands under the integer key `key`, and nothing else does.
pub open spec fn says(body: Seq<(Node, Node)>, key: int, v: Node) -> bool {
    exists|i: int|
        0 <= i < body.len() && #[trigger] body[i] == (Node::Int(key), v) && alone(body, key, i)
}

/// No entry but the one at `i` has the key.
pub open spec fn alone(body: Seq<(Node, Node)>, key: int, i: int) -> bool {
    forall|j: int| 0 <= j < body.len() && (#[trigger] body[j]).0 == Node::Int(key) ==> j == i
}

/// Nothing stands under the integer key `key`.
pub open spec fn silent(body: Seq<(Node, Node)>, key: int) -> bool {
    forall|j: int| 0 <= j < body.len() ==> (#[trigger] body[j]).0 != Node::Int(key)
}

/// The entry at `i` is the first integer under `key`.
pub open spec fn first_int(body: Seq<(Node, Node)>, key: int, i: int) -> bool {
    &&& 0 <= i < body.len()
    &&& body[i].0 == Node::Int(key) && body[i].1 is Int
    &&& forall|j: int|
        0 <= j < i ==> !((#[trigger] body[j]).0 == Node::Int(key) && body[j].1 is Int)
}

/// An integer is looked up as the first integer under its key, and is missing where there is
/// none.
pub proof fn lookup_finds_the_first_integer(body: Seq<(Node, Node)>, key: int, i: int)
    ensures
        first_int(body, key, i) ==> int_under(body, key) == Some(body[i].1->Int_0),
        (forall|j: int|
            0 <= j < body.len() ==> !((#[trigger] body[j]).0 == Node::Int(key)
                && body[j].1 is Int)) ==> int_under(body, key) is None,
    decreases body.len(),
{
    if body.len() > 0 {
        let rest = body.drop_first();
        assert forall|j: int| 0 <= j < rest.len() implies #[trigger] rest[j] == body[j + 1] by {}
        lookup_finds_the_first_integer(rest, key, i - 1);
        if first_int(body, key, i) && i > 0 {
            assert(!(body[0].0 == Node::Int(key) && body[0].1 is Int));
            assert(first_int(rest, key, i - 1));
        }
        if forall|j: int|
            0 <= j < body.len() ==> !((#[trigger] body[j]).0 == Node::Int(key)
                && body[j].1 is Int) {
            assert(!(body[0].0 == Node::Int(key) && body[0].1 is Int));
            assert forall|j: int| 0 <= j < rest.len() implies !((#[trigger] rest[j]).0
                == Node::Int(key) && rest[j].1 is Int) by {
                assert(rest[j] == body[j + 1]);
            }
        }
    }
}

/// What is said once under a key is what a lookup gives: an integer, an element of an array, a
/// float.
pub proof fn lookup_gives_what_is_said(body: Seq<(Node, Node)>, key: int, v: Node, idx: int)
    requires
        says(body, key, v),
    ensures
        v is Int ==> int_under(body, key) == Some(v->Int_0),
        !(v is Int) ==> int_under(body, key) is None,
        v is Float ==> float_under(body, key) == Some(v->Float_0),
        !(v is Float) ==> float_under(body, key) is None,
        v is Array && 0 <= idx < v->Array_0.len() && v->Array_0[idx] is Int ==> elem_under(
            body,
            key,
            idx,
        ) == Some(v->Array_0[idx]->Int_0),
        !(v is Array && 0 <= idx < v->Array_0.len() && v->Array_0[idx] is Int) ==> elem_under(
            body,
            key,
            idx,
        ) is None,
    decreases body.len(),
{
    let i = choose|i: int|
        0 <= i < body.len() && #[trigger] body[i] == (Node::Int(key), v) && alone(body, key, i);
    let rest = body.drop_first();
    assert forall|j: int| 0 <= j < rest.len() implies #[trigger] rest[j] == body[j + 1] by {}
    if i == 0 {
        assert forall|j: int| 0 <= j < rest.len() implies (#[trigger] rest[j]).0 != Node::Int(
            key,
        ) by {
            assert(rest[j] == body[j + 1]);
        }
        lookup_of_silence(rest, key, idx);
    } else {
        assert(body[0].0 != Node::Int(key));
        assert(rest[i - 1] == (Node::Int(key), v));
        assert(alone(rest, key, i - 1)) by {
            assert forall|j: int|
                0 <= j < rest.len() && (#[trigger] rest[j]).0 == Node::Int(key) implies j == i
                - 1 by {
                assert(rest[j] == body[j + 1]);
            }
        }
        lookup_gives_what_is_said(rest, key, v, idx);
    }
}

/// Where nothing stands under a key a lookup gives nothing.
pub proof fn lookup_of_silence(body: Seq<(Node, Node)>, key: int, idx: int)
    requires
        silent(body, key),
    ensures
        int_under(body, key) is None,
        float_under(body, key) is None,
        elem_under(body, key, idx) is None,
    decreases body.len(),
{
    if body.len() > 0 {
        let rest = body.drop_first();
        assert(body[0].0 != Node::Int(key));
        assert forall|j: int| 0 <= j < rest.len() implies (#[trigger] rest[j]).0 != Node::Int(
            key,
        ) by {
            assert(rest[j] == body[j + 1]);
        }
        lookup_of_silence(rest, key, idx);
    }
}

proof fn lemma_offers(body: Seq<(Node, Node)>, codecs: Seq<Node>)
    requires
        says(body, 2, Node::Array(codecs)),
    ensures
        offers(body, 1) == codecs.contains(Node::Int(1)),
{
    let i = choose|i: int|
        0 <= i < body.len() && #[trigger] body[i] == (Node::Int(2), Node::Array(codecs)) && alone(
            body,
            2,
            i,
        );
    if codecs.contains(Node::Int(1)) {
        assert(crate::session::lists_codec(body[i], 1));
    }
    if offers(body, 1) {
        let j = choose|j: int|
            0 <= j < body.len() && crate::session::lists_codec(#[trigger] body[j], 1);
        assert(body[j].0 == Node::Int(2));
        assert(j == i);
    }
}

/// A HELLO that the host takes: it speaks version 1 and lists codec 1 (HEVC).
pub open spec fn good_hello(body: Seq<(Node, Node)>, codecs: Seq<Node>) -> bool {
    &&& says(body, 0, Node::Int(1))
    &&& says(body, 2, Node::Array(codecs))
    &&& codecs.contains(Node::Int(1))
}

/// Two numbers in an array.
pub open spec fn pair(a: int, b: int) -> Node {
    Node::Array(seq![Node::Int(a), Node::Int(b)])
}

/// A good HELLO is answered with WELCOME and CONFIG, generation 1, and nothing of the host is
/// changed by it. The client maximum becomes exactly what key 3 names, whatever it was, and
/// stays where key 3 is missing. Extra displays are active where the host has some and bit 1 of
/// key 5 is set, and only there.
pub proof fn hello_is_welcomed(
    m: Session,
    body: Seq<(Node, Node)>,
    codecs: Seq<Node>,
    size: Option<(u64, u64)>,
    features: Option<u64>,
)
    requires
        m.state is WaitHello,
        good_hello(body, codecs),
        match size {
            Some((w, h)) => says(body, 3, pair(w as int, h as int)),
            None => silent(body, 3),
        },
        match features {
            Some(f) => says(body, 5, Node::Int(f as int)),
            None => silent(body, 5),
        },
    ensures
        ({
            let (r, out) = handled(m, 0x01, body);
            &&& r.state is WaitConfigAck
            &&& r.generation == 1
            &&& size is Some ==> r.client_max_width == (size->0).0 && r.client_max_height == (
            size->0).1
            &&& size is None ==> r.client_max_width == m.client_max_width && r.client_max_height
                == m.client_max_height
            &&& r.multi == (m.extras.len() > 0 && features is Some && (features->0 / 2) % 2 == 1)
            &&& r.params == m.params && r.extras == m.extras && r.host_name == m.host_name
                && r.session_id == m.session_id && r.pending == m.pending
            &&& out.len() == 2
            &&& out[0] is Send && out[0]->msg_type == 0x02 && tells_host(r, out[0]->body)
            &&& out[1] is Send && out[1]->msg_type == 0x03 && tells_media(r, out[1]->body)
        }),
{
    lookup_gives_what_is_said(body, 0, Node::Int(1), 0);
    lemma_offers(body, codecs);
    match size {
        Some((w, h)) => {
            lookup_gives_what_is_said(body, 3, pair(w as int, h as int), 0);
            lookup_gives_what_is_said(body, 3, pair(w as int, h as int), 1);
        },
        None => {
            lookup_of_silence(body, 3, 0);
            lookup_of_silence(body, 3, 1);
        },
    }
    match features {
        Some(f) => {
            lookup_gives_what_is_said(body, 5, Node::Int(f as int), 0);
        },
        None => {
            lookup_of_silence(body, 5, 0);
        },
    }
    let r = handled(m, 0x01, body).0;
    welcome_tells_host(r);
    config_tells_media(r);
}

/// What WELCOME tells: the version under 0, the host's name under 1, the session id under 2, and
/// under 3 the feature bit of extra displays where they are active.
pub open spec fn tells_host(m: Session, body: Seq<(Node, Node)>) -> bool {
    &&& says(body, 0, Node::Int(1))
    &&& says(body, 1, Node::Text(m.host_name))
    &&& says(body, 2, Node::Bytes(m.session_id))
    &&& m.multi ==> says(body, 3, Node::Int(2)) && body.len() == 4
    &&& !m.multi ==> body.len() == 3
}

/// What CONFIG tells: under 0 the generation, then codec, size, refresh rate, audio mode and
/// bitrate of the primary stream, and under 6 the extra streams where they are active.
pub open spec fn tells_media(m: Session, body: Seq<(Node, Node)>) -> bool {
    &&& says(body, 0, Node::Int(m.generation as int))
    &&& says(body, 1, Node::Int(m.params.codec as int))
    &&& says(body, 2, pair(m.params.width as int, m.params.height as int))
    &&& says(body, 3, Node::Int(m.params.refresh as int))
    &&& says(body, 4, Node::Int(m.params.audio as int))
    &&& says(body, 5, Node::Int(m.params.bitrate_kbps as int))
    &&& !m.multi ==> body.len() == 6
    &&& m.multi ==> body.len() == 7 && exists|list: Seq<Node>| #[trigger]
        says(body, 6, Node::Array(list)) && list.len() == m.extras.len() && (forall|i: int|
            0 <= i < list.len() ==> tells_stream(m.extras[i], #[trigger] list[i]))
}

/// What is told of an extra stream: under 0 its id, then size, refresh rate and bitrate, and
/// under 4 where its display stands.
pub open spec fn tells_stream(s: StreamConfig, n: Node) -> bool {
    &&& n is Pairs
    &&& n->Pairs_0.len() == 5
    &&& says(n->Pairs_0, 0, Node::Int(s.stream_id as int))
    &&& says(n->Pairs_0, 1, pair(s.params.width as int, s.params.height as int))
    &&& says(n->Pairs_0, 2, Node::Int(s.params.refresh as int))
    &&& says(n->Pairs_0, 3, Node::Int(s.params.bitrate_kbps as int))
    &&& says(n->Pairs_0, 4, pair(s.x as int, s.y as int))
}

proof fn lemma_says_at(body: Seq<(Node, Node)>, i: int)
    requires
        0 <= i < body.len() <= 7,
        forall|j: int| 0 <= j < body.len() ==> (#[trigger] body[j]).0 == Node::Int(j),
    ensures
        says(body, i, body[i].1),
{
    assert(body[i] == (Node::Int(i), body[i].1));
    assert(alone(body, i, i)) by {
        assert forall|j: int|
            0 <= j < body.len() && (#[trigger] body[j]).0 == Node::Int(i) implies j == i by {
            assert(body[j].0 == Node::Int(j));
        }
    }
}

proof fn welcome_tells_host(m: Session)
    ensures
        tells_host(m, crate::session::welcome(m)),
{
    let body = crate::session::welcome(m);
    lemma_says_at(body, 0);
    lemma_says_at(body, 1);
    lemma_says_at(body, 2);
    if m.multi {
        lemma_says_at(body, 3);
    }
}

proof fn config_tells_media(m: Session)
    ensures
        tells_media(m, crate::session::config(m)),
{
    let body = crate::session::config(m);
    lemma_says_at(body, 0);
    lemma_says_at(body, 1);
    lemma_says_at(body, 2);
    lemma_says_at(body, 3);
    lemma_says_at(body, 4);
    lemma_says_at(body, 5);
    if m.multi {
        lemma_says_at(body, 6);
        let list = body[6].1->Array_0;
        assert forall|i: int| 0 <= i < list.len() implies tells_stream(
            m.extras[i],
            #[trigger] list[i],
        ) by {
            let e = list[i]->Pairs_0;
            assert(list[i] == crate::session::stream_entry(m.extras[i]));
            lemma_says_at(e, 0);
            lemma_says_at(e, 1);
            lemma_says_at(e, 2);
            lemma_says_at(e, 3);
            lemma_says_at(e, 4);
        }
        assert(says(body, 6, Node::Array(list)));
    }
}

/// The session is told off: the client gets ERROR with the code, the connection is closed with
/// it, and nothing else is done.
pub open spec fn told_off(m: Session, a: (Session, Seq<Act>), code: u64) -> bool {
    &&& a.0 == (Session { state: crate::session::State::Closed, ..m })
    &&& a.1.len() == 2
    &&& a.1[0] is Send && a.1[0]->msg_type == 0x40 && says(
        a.1[0]->body,
        0,
        Node::Int(code as int),
    ) && a.1[0]->body.len() == 2
    &&& a.1[1] == (Act::Close { code })
}

proof fn lemma_told_off(m: Session, code: u64, detail: Seq<char>)
    ensures
        told_off(m, crate::session::refused(m, code, detail), code),
{
    let body = crate::session::error_entries(code, detail);
    lemma_says_at(body, 0);
}

/// A HELLO for another version, or for none, is refused with code 1; one for this version
/// without HEVC in its codec list with code 3.
pub proof fn bad_hello_is_refused(m: Session, body: Seq<(Node, Node)>, version: Option<int>)
    requires
        m.state is WaitHello,
        match version {
            Some(v) => says(body, 0, Node::Int(v)),
            None => silent(body, 0),
        },
    ensures
        version != Some(1int) ==> told_off(m, handled(m, 0x01, body), 1),
        version == Some(1int) && silent(body, 2) ==> told_off(m, handled(m, 0x01, body), 3),
        forall|codecs: Seq<Node>|
            version == Some(1int) && #[trigger] says(body, 2, Node::Array(codecs))
                && !codecs.contains(Node::Int(1)) ==> told_off(m, handled(m, 0x01, body), 3),
{
    match version {
        Some(v) => {
            lookup_gives_what_is_said(body, 0, Node::Int(v), 0);
        },
        None => {
            lookup_of_silence(body, 0, 0);
        },
    }
    lemma_told_off(m, 1, "unsupported protocol_version"@);
    lemma_told_off(m, 3, "no common codec (host: HEVC)"@);
    if silent(body, 2) {
        assert(!offers(body, 1)) by {
            if offers(body, 1) {
                let j = choose|j: int|
                    0 <= j < body.len() && crate::session::lists_codec(#[trigger] body[j], 1);
                assert(body[j].0 == Node::Int(2));
            }
        }
    }
    assert forall|codecs: Seq<Node>|
        version == Some(1int) && #[trigger] says(body, 2, Node::Array(codecs)) && !codecs.contains(
            Node::Int(1),
        ) implies told_off(m, handled(m, 0x01, body), 3) by {
        lemma_offers(body, codecs);
    }
}

/// Before HELLO every other message but BYE and CLOCK_PING is a violation; while the
/// acknowledgement is awaited, everything but those and the right CONFIG_ACK; while media flows,
/// everything but those, CONFIG_ACK, INPUT, IDR_REQUEST, STATS and VIEWPORT.
pub proof fn out_of_order_is_a_violation(m: Session, t: u64, body: Seq<(Node, Node)>)
    requires
        t != 0x41 && t != 0x30,
    ensures
        m.state is WaitHello && t != 0x01 ==> told_off(m, handled(m, t, body), 4),
        m.state is WaitConfigAck && t != 0x04 ==> told_off(m, handled(m, t, body), 4),
        m.state is Streaming && t != 0x04 && t != 0x10 && t != 0x20 && t != 0x21 && t != 0x22
            ==> told_off(m, handled(m, t, body), 4),
{
    lemma_told_off(m, 4, "unexpected message for state"@);
}

/// BYE closes an open session cleanly, CLOCK_PING is answered with the client's own time, and
/// neither does anything else.
pub proof fn bye_and_ping(m: Session, body: Seq<(Node, Node)>, t0: i64)
    requires
        !(m.state is Closed),
    ensures
        handled(m, 0x41, body) == (
            Session { state: crate::session::State::Closed, ..m },
            seq![Act::Close { code: 0 }],
        ),
        says(body, 0, Node::Int(t0 as int)) ==> handled(m, 0x30, body) == (
            m,
            seq![Act::ClockPong { t0 }],
        ),
        silent(body, 0) ==> handled(m, 0x30, body) == (m, seq![Act::ClockPong { t0: 0 }]),
{
    if says(body, 0, Node::Int(t0 as int)) {
        lookup_gives_what_is_said(body, 0, Node::Int(t0 as int), 0);
        lemma_signed(t0);
    }
    if silent(body, 0) {
        lookup_of_silence(body, 0, 0);
    }
}

proof fn lemma_signed(v: i64)
    ensures
        crate::session::signed64(v as int) == v,
{
}

/// CONFIG_ACK: the generation in force starts media where it is awaited, and a wrong one or none
/// is a violation. While media flows it takes the pending reconfiguration into effect, and
/// without one it is a violation.
pub proof fn acknowledgement_counts(m: Session, body: Seq<(Node, Node)>, g: Option<int>)
    requires
        match g {
            Some(v) => says(body, 0, Node::Int(v)),
            None => silent(body, 0),
        },
    ensures
        m.state is WaitConfigAck && g == Some(m.generation as int) ==> {
            let (r, out) = handled(m, 0x04, body);
            &&& r == (Session { state: crate::session::State::Streaming, ..m })
            &&& out.len() == 2
            &&& out[0] == (Act::Send { msg_type: 0x05, body: Seq::empty() })
            &&& out[1] == (Act::StartMedia { multi: m.multi })
        },
        m.state is WaitConfigAck && g != Some(m.generation as int) ==> told_off(
            m,
            handled(m, 0x04, body),
            4,
        ),
        m.state is Streaming && m.pending is Some && g == Some(m.pending->0 as int) ==> handled(
            m,
            0x04,
            body,
        ) == (Session { pending: None, ..m }, seq![Act::Reconfigure { params: m.params }]),
        m.state is Streaming && (m.pending is None || g != Some(m.pending->0 as int)) ==> told_off(
            m,
            handled(m, 0x04, body),
            4,
        ),
{
    match g {
        Some(v) => {
            lookup_gives_what_is_said(body, 0, Node::Int(v), 0);
        },
        None => {
            lookup_of_silence(body, 0, 0);
        },
    }
    lemma_told_off(m, 4, "unexpected message for state"@);
}

/// IDR_REQUEST asks for the stream that key 1 names, the primary one where it is missing; INPUT
/// changes nothing.
pub proof fn requests_while_streaming(m: Session, body: Seq<(Node, Node)>, stream: u16)
    requires
        m.state is Streaming,
    ensures
        says(body, 1, Node::Int(stream as int)) ==> handled(m, 0x20, body) == (
            m,
            seq![Act::RequestIdr { stream_id: stream }],
        ),
        silent(body, 1) ==> handled(m, 0x20, body) == (m, seq![Act::RequestIdr { stream_id: 0 }]),
        handled(m, 0x10, body) == (m, Seq::<Act>::empty()),
{
    if says(body, 1, Node::Int(stream as int)) {
        lookup_gives_what_is_said(body, 1, Node::Int(stream as int), 0);
    }
    if silent(body, 1) {
        lookup_of_silence(body, 1, 0);
    }
}

/// STATS is logged with every field from its own key, and changes nothing.
pub proof fn stats_are_logged(m: Session, body: Seq<(Node, Node)>, r: StatsReport)
    requires
        m.state is Streaming,
        says(body, 0, Node::Int(r.frames_received as int)),
        says(body, 1, Node::Int(r.frames_dropped as int)),
        says(body, 2, Node::Int(r.datagrams as int)),
        says(body, 3, Node::Float(r.jitter_ms)),
        says(body, 4, Node::Int(r.decode_us as int)),
        says(body, 5, Node::Int(r.rtt_us as int)),
        match r.e2e_us {
            Some(v) => says(body, 6, Node::Int(v as int)),
            None => silent(body, 6),
        },
        says(body, 7, Node::Int(r.stream_id as int)),
    ensures
        handled(m, 0x21, body) == (m, seq![Act::Stats(r)]),
{
    lookup_gives_what_is_said(body, 0, Node::Int(r.frames_received as int), 0);
    lookup_gives_what_is_said(body, 1, Node::Int(r.frames_dropped as int), 0);
    lookup_gives_what_is_said(body, 2, Node::Int(r.datagrams as int), 0);
    lookup_gives_what_is_said(body, 3, Node::Float(r.jitter_ms), 0);
    lookup_gives_what_is_said(body, 4, Node::Int(r.decode_us as int), 0);
    lookup_gives_what_is_said(body, 5, Node::Int(r.rtt_us as int), 0);
    match r.e2e_us {
        Some(v) => {
            lookup_gives_what_is_said(body, 6, Node::Int(v as int), 0);
            lemma_signed(v);
        },
        None => {
            lookup_of_silence(body, 6, 0);
        },
    }
    lookup_gives_what_is_said(body, 7, Node::Int(r.stream_id as int), 0);
    lemma_signed(r.frames_received);
    lemma_signed(r.frames_dropped);
    lemma_signed(r.datagrams);
    lemma_signed(r.decode_us);
    lemma_signed(r.rtt_us);
}

/// The size that a VIEWPORT for `v` gets under the limit `max`: a wish between 640 and the limit
/// is kept, but for the last bit; a lesser one gets 640; and a greater one the limit, but for its
/// last bit, or 640 where that is greater.
pub open spec fn granted(v: int, max: int) -> int {
    let even = |x: int| x - x % 2;
    if v < 640 || max < 640 {
        640
    } else if v > max {
        even(max)
    } else {
        even(v)
    }
}

/// A VIEWPORT while nothing is pending is answered with a CONFIG of the next generation and the
/// granted size, where that is another than the current one; nothing else about the stream
/// changes, and the reconfiguration is pending until it is acknowledged. It is ignored where the
/// size is the current one, or while a reconfiguration is pending.
pub proof fn viewport_is_granted(m: Session, body: Seq<(Node, Node)>, w: u64, h: u64)
    requires
        m.state is Streaming,
        says(body, 0, pair(w as int, h as int)),
    ensures
        ({
            let most = |host: int, client: u64| if client < host { client as int } else { host };
            let cw = granted(w as int, most(3840, m.client_max_width));
            let ch = granted(h as int, most(2160, m.client_max_height));
            let same = cw == m.params.width && ch == m.params.height;
            let (r, out) = handled(m, 0x22, body);
            &&& same || m.pending is Some ==> r == m && out.len() == 0
            &&& !same && m.pending is None ==> {
                &&& r.params == (MediaParams { width: cw as u64, height: ch as u64, ..m.params })
                &&& r.generation == m.generation + 1
                &&& r.pending == Some(m.generation + 1)
                &&& r == (Session {
                    params: r.params,
                    generation: r.generation,
                    pending: r.pending,
                    ..m
                })
                &&& out.len() == 1
                &&& out[0] is Send && out[0]->msg_type == 0x03 && tells_media(r, out[0]->body)
                &&& says(out[0]->body, 2, pair(cw, ch))
            }
        }),
{
    lookup_gives_what_is_said(body, 0, pair(w as int, h as int), 0);
    lookup_gives_what_is_said(body, 0, pair(w as int, h as int), 1);
    config_tells_media(handled(m, 0x22, body).0);
}

/// A VIEWPORT without two numbers under key 0 is ignored.
pub proof fn malformed_viewport_is_ignored(m: Session, body: Seq<(Node, Node)>, v: Node)
    requires
        m.state is Streaming,
        silent(body, 0) || says(body, 0, v) && !(v is Array && v->Array_0.len() >= 2
            && v->Array_0[0] is Int && v->Array_0[1] is Int),
    ensures
        handled(m, 0x22, body) == (m, Seq::<Act>::empty()),
{
    if silent(body, 0) {
        lookup_of_silence(body, 0, 0);
        lookup_of_silence(body, 0, 1);
    } else {
        lookup_gives_what_is_said(body, 0, v, 0);
        lookup_gives_what_is_said(body, 0, v, 1);
    }
}

/// From HELLO to a new size: a client that names its maximum, acknowledges the CONFIG and then
/// asks for an even size from 640 up to that maximum and 3840 by 2160, other than the host's own,
/// is told exactly that size.
pub proof fn client_gets_the_size_it_asks_for(
    m: Session,
    hello: Seq<(Node, Node)>,
    codecs: Seq<Node>,
    max: (u64, u64),
    ack: Seq<(Node, Node)>,
    wish: Seq<(Node, Node)>,
    w: u64,
    h: u64,
)
    requires
        m.state is WaitHello,
        m.pending is None,
        good_hello(hello, codecs),
        says(hello, 3, pair(max.0 as int, max.1 as int)),
        silent(hello, 5),
        says(ack, 0, Node::Int(1)),
        says(wish, 0, pair(w as int, h as int)),
        w % 2 == 0 && 640 <= w <= max.0 && w <= 3840,
        h % 2 == 0 && 640 <= h <= max.1 && h <= 2160,
        w != m.params.width || h != m.params.height,
    ensures
        ({
            let a = handled(m, 0x01, hello).0;
            let b = handled(a, 0x04, ack).0;
            let (r, out) = handled(b, 0x22, wish);
            &&& out.len() == 1
            &&& out[0] is Send && out[0]->msg_type == 0x03
            &&& says(out[0]->body, 0, Node::Int(2))
            &&& says(out[0]->body, 2, pair(w as int, h as int))
            &&& r.params == (MediaParams { width: w, height: h, ..m.params })
        }),
{
    hello_is_welcomed(m, hello, codecs, Some(max), None);
    let a = handled(m, 0x01, hello).0;
    acknowledgement_counts(a, ack, Some(1));
    let b = handled(a, 0x04, ack).0;
    viewport_is_granted(b, wish, w, h);
}

/// A session starts with what it was given, awaiting HELLO, with the host's own size as the
/// client maximum.
pub proof fn session_starts_with_what_it_was_given(
    host_name: Seq<char>,
    session_id: Seq<u8>,
    params: MediaParams,
    extras: Seq<StreamConfig>,
)
    ensures
        ({
            let m = awaiting(host_name, session_id, params, extras);
            &&& m.state is WaitHello
            &&& m.host_name == host_name && m.session_id == session_id
            &&& m.params == params && m.extras == extras
            &&& m.client_max_width == params.width && m.client_max_height == params.height
            &&& m.generation == 0 && m.pending is None && !m.multi
        }),
{
}

} // verus!
