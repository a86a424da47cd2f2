//! What a host session makes of bodies that leave something out, say it twice, or say it in
//! numbers that are too wide.

use vstd::prelude::*;
use crate::cbor::{Node, Value, entries};
use crate::control::Decoded;
use crate::laws::session::{
    good_hello, lookup_gives_what_is_said, lookup_of_silence, pair, says, silent,
};
use crate::session::{
    Act, Session, elem_under, float_under, handled, low16, low64, next, offers, signed64,
};

verus! {

/// A message that was decoded is handled by its type and body, and one that was passed over
/// changes nothing.
pub proof fn decoded_messages_are_handled(m: Session, t: u64, body: Vec<(Value, Value)>)
    ensures
        next(m, Decoded::Message { msg_type: t, body }) == handled(m, t, entries(body@)),
        next(m, Decoded::Ignored) == (m, Seq::<Act>::empty()),
{
}

/// What the client is told when it is refused is why: in words, under key 1 of the ERROR.
pub proof fn refusal_says_why(m: Session, body: Seq<(Node, Node)>, version: Option<int>)
    requires
        m.state is WaitHello,
        match version {
            Some(v) => says(body, 0, Node::Int(v)),
            None => silent(body, 0),
        },
    ensures
        version != Some(1int) ==> says(
            handled(m, 0x01, body).1[0]->body,
            1,
            Node::Text("unsupported protocol_version"@),
        ),
        version == Some(1int) && !offers(body, 1) ==> says(
            handled(m, 0x01, body).1[0]->body,
            1,
            Node::Text("no common codec (host: HEVC)"@),
        ),
        says(handled(m, 0x10, body).1[0]->body, 1, Node::Text("unexpected message for state"@)),
{
    let out = handled(m, 0x10, body).1[0]->body;
    assert(out[1] == (Node::Int(1), out[1].1) && crate::laws::session::alone(out, 1, 1));
    match version {
        Some(v) => {
            lookup_gives_what_is_said(body, 0, Node::Int(v), 0);
        },
        None => {
            lookup_of_silence(body, 0, 0);
        },
    }
    if version != Some(1int) || !offers(body, 1) {
        let told = handled(m, 0x01, body).1[0]->body;
        assert(told[1] == (Node::Int(1), told[1].1) && crate::laws::session::alone(told, 1, 1));
    }
}

/// A closed session takes no notice of anything.
pub proof fn closed_session_is_deaf(m: Session, t: u64, body: Seq<(Node, Node)>)
    requires
        m.state is Closed,
    ensures
        handled(m, t, body) == (m, Seq::<Act>::empty()),
{
}

/// The entry at `i` is the first array under `key` with a number at `idx`.
pub open spec fn first_elem(body: Seq<(Node, Node)>, key: int, idx: int, i: int) -> bool {
    &&& 0 <= i < body.len()
    &&& has_elem(body[i], key, idx)
    &&& forall|j: int| 0 <= j < i ==> !has_elem(#[trigger] body[j], key, idx)
}

/// An array under `key` with a number at `idx`.
pub open spec fn has_elem(e: (Node, Node), key: int, idx: int) -> bool {
    &&& e.0 == Node::Int(key)
    &&& e.1 is Array
    &&& 0 <= idx < e.1->Array_0.len()
    &&& e.1->Array_0[idx] is Int
}

/// The entry at `i` is the first float under `key`.
pub open spec fn first_float(body: Seq<(Node, Node)>, key: int, i: int) -> bool {
    &&& 0 <= i < body.len()
    &&& body[i].0 == Node::Int(key) && body[i].1 is Float
    &&& forall|j: int|
        0 <= j < i ==> !((#[trigger] body[j]).0 == Node::Int(key) && body[j].1 is Float)
}

/// Of several arrays under a key the first with a number in the place counts, and of several
/// floats the first.
pub proof fn lookup_finds_the_first(body: Seq<(Node, Node)>, key: int, idx: int, i: int)
    ensures
        first_elem(body, key, idx, i) ==> elem_under(body, key, idx) == Some(
            body[i].1->Array_0[idx]->Int_0,
        ),
        first_float(body, key, i) ==> float_under(body, key) == Some(body[i].1->Float_0),
    decreases body.len(),
{
    if body.len() > 0 {
        let rest = body.drop_first();
        assert forall|j: int| 0 <= j < rest.len() implies #[trigger] rest[j] == body[j + 1] by {}
        lookup_finds_the_first(rest, key, idx, i - 1);
        if first_elem(body, key, idx, i) && i > 0 {
            assert(!has_elem(body[0], key, idx));
            assert(first_elem(rest, key, idx, i - 1)) by {
                assert(rest[i - 1] == body[i]);
                assert forall|j: int| 0 <= j < i - 1 implies !has_elem(
                    #[trigger] rest[j],
                    key,
                    idx,
                ) by {
                    assert(!has_elem(body[j + 1], key, idx));
                }
            }
        }
        if first_float(body, key, i) && i > 0 {
            assert(!(body[0].0 == Node::Int(key) && body[0].1 is Float));
            assert(first_float(rest, key, i - 1)) by {
                assert(rest[i - 1] == body[i]);
                assert forall|j: int| 0 <= j < i - 1 implies !((#[trigger] rest[j]).0 == Node::Int(
                    key,
                ) && rest[j].1 is Float) by {
                    assert(!(body[j + 1].0 == Node::Int(key) && body[j + 1].1 is Float));
                }
            }
        }
    }
}

/// A codec is offered if and only if an array under key 2, whichever, has its number in it.
pub proof fn codec_is_offered_in_a_list(body: Seq<(Node, Node)>, codec: u64)
    ensures
        offers(body, codec) <==> exists|i: int, k: int|
            0 <= i < body.len() && (#[trigger] body[i]).0 == Node::Int(2) && body[i].1 is Array && 0
                <= k < body[i].1->Array_0.len() && #[trigger] body[i].1->Array_0[k] == Node::Int(
                codec as int,
            ),
{
    if offers(body, codec) {
        let i = choose|i: int|
            0 <= i < body.len() && crate::session::lists_codec(#[trigger] body[i], codec);
        let list = body[i].1->Array_0;
        let k = choose|k: int| 0 <= k < list.len() && #[trigger] list[k] == Node::Int(codec as int);
        assert(body[i].0 == Node::Int(2));
        assert(body[i].1->Array_0[k] == Node::Int(codec as int));
    }
    if exists|i: int, k: int|
        0 <= i < body.len() && (#[trigger] body[i]).0 == Node::Int(2) && body[i].1 is Array && 0 <= k
            < body[i].1->Array_0.len() && #[trigger] body[i].1->Array_0[k] == Node::Int(
            codec as int,
        ) {
        let (i, k) = choose|i: int, k: int|
            0 <= i < body.len() && (#[trigger] body[i]).0 == Node::Int(2) && body[i].1 is Array && 0
                <= k < body[i].1->Array_0.len() && #[trigger] body[i].1->Array_0[k] == Node::Int(
                codec as int,
            );
        assert(body[i].1->Array_0.contains(Node::Int(codec as int)));
        assert(crate::session::lists_codec(body[i], codec));
    }
}

/// `a` and `b` differ by a multiple of two to the 64th.
pub open spec fn same64(a: int, b: int) -> bool {
    (a - b) % 0x1_0000_0000_0000_0000 == 0
}

proof fn lemma_low(v: int)
    ensures
        same64(low64(v) as int, v),
        same64(signed64(v) as int, v),
        (low16(v) - v) % 0x1_0000 == 0,
{
}

/// A number that is too wide counts by its low bits. The client's time comes back in 64 bits.
pub proof fn wide_time_wraps(m: Session, ping: Seq<(Node, Node)>, v: int)
    requires
        !(m.state is Closed),
        says(ping, 0, Node::Int(v)),
    ensures
        ({
            let (r, out) = handled(m, 0x30, ping);
            r == m && out.len() == 1 && out[0] is ClockPong && same64(out[0]->t0 as int, v)
        }),
{
    lookup_gives_what_is_said(ping, 0, Node::Int(v), 0);
    lemma_low(v);
}

/// So does the number of the stream that an IDR is asked of, in 16 bits.
pub proof fn wide_stream_wraps(m: Session, body: Seq<(Node, Node)>, v: int)
    requires
        m.state is Streaming,
        says(body, 1, Node::Int(v)),
    ensures
        ({
            let (r, out) = handled(m, 0x20, body);
            r == m && out.len() == 1 && out[0] is RequestIdr && (out[0]->stream_id - v) % 0x1_0000
                == 0
        }),
{
    lookup_gives_what_is_said(body, 1, Node::Int(v), 0);
    lemma_low(v);
}

/// So do the sizes of a VIEWPORT: two that are the same in 64 bits are answered alike.
pub proof fn wide_viewport_wraps(
    m: Session,
    body: Seq<(Node, Node)>,
    other: Seq<(Node, Node)>,
    w: int,
    h: int,
    w2: int,
    h2: int,
)
    requires
        m.state is Streaming,
        says(body, 0, pair(w, h)),
        says(other, 0, pair(w2, h2)),
        same64(w, w2),
        same64(h, h2),
    ensures
        handled(m, 0x22, body) == handled(m, 0x22, other),
{
    lookup_gives_what_is_said(body, 0, pair(w, h), 0);
    lookup_gives_what_is_said(body, 0, pair(w, h), 1);
    lookup_gives_what_is_said(other, 0, pair(w2, h2), 0);
    lookup_gives_what_is_said(other, 0, pair(w2, h2), 1);
    assert(low64(w) == low64(w2));
    assert(low64(h) == low64(h2));
}

/// And so do the client maximum and the features of a HELLO. A size that is not two numbers is
/// left aside, and the greeting goes on.
pub proof fn hello_says_its_maximum(
    m: Session,
    body: Seq<(Node, Node)>,
    codecs: Seq<Node>,
    size: Node,
    features: Node,
)
    requires
        m.state is WaitHello,
        good_hello(body, codecs),
        says(body, 3, size),
        says(body, 5, features),
    ensures
        ({
            let (r, out) = handled(m, 0x01, body);
            let sized = size is Array && size->Array_0.len() >= 2 && size->Array_0[0] is Int
                && size->Array_0[1] is Int;
            &&& r.state is WaitConfigAck
            &&& out.len() == 2
            &&& sized ==> same64(r.client_max_width as int, size->Array_0[0]->Int_0) && same64(
                r.client_max_height as int,
                size->Array_0[1]->Int_0,
            )
            &&& !sized ==> r.client_max_width == m.client_max_width && r.client_max_height
                == m.client_max_height
            &&& r.multi == (m.extras.len() > 0 && features is Int && (features->Int_0 / 2) % 2 == 1)
        }),
{
    lookup_gives_what_is_said(body, 0, Node::Int(1), 0);
    lookup_gives_what_is_said(body, 3, size, 0);
    lookup_gives_what_is_said(body, 3, size, 1);
    lookup_gives_what_is_said(body, 5, features, 0);
    lemma_hello_offers(body, codecs);
    if size is Array && size->Array_0.len() >= 2 && size->Array_0[0] is Int
        && size->Array_0[1] is Int {
        lemma_low(size->Array_0[0]->Int_0);
        lemma_low(size->Array_0[1]->Int_0);
    }
    if features is Int {
        lemma_second_bit(features->Int_0);
    }
}

proof fn lemma_hello_offers(body: Seq<(Node, Node)>, codecs: Seq<Node>)
    requires
        good_hello(body, codecs),
    ensures
        offers(body, 1),
{
    let i = choose|i: int| 0 <= i < body.len() && #[trigger] body[i] == (Node::Int(2), Node::Array(
        codecs,
    )) && crate::laws::session::alone(body, 2, i);
    assert(crate::session::lists_codec(body[i], 1));
}

proof fn lemma_second_bit(f: int)
    ensures
        (low64(f) / 2) % 2 == (f / 2) % 2,
{
    let m = 0x1_0000_0000_0000_0000;
    let q = f / m;
    vstd::arithmetic::div_mod::lemma_fundamental_div_mod(f, m);
    lemma_four_steps(q * 0x4000_0000_0000_0000, f % m);
}

proof fn lemma_four_steps(k: int, u: int)
    ensures
        ((4 * k + u) / 2) % 2 == (u / 2) % 2,
{
    assert((4 * k + u) / 2 == 2 * k + u / 2);
}

/// A STATS report takes each count from its own key, in 64 bits; what is left out counts as zero,
/// but for the end-to-end latency, which is then unknown.
pub proof fn stats_say_what_they_say(m: Session, body: Seq<(Node, Node)>, v: int, f: u64)
    requires
        m.state is Streaming,
    ensures
        ({
            let (r, out) = handled(m, 0x21, body);
            let s = out[0]->Stats_0;
            &&& r == m
            &&& out.len() == 1
            &&& out[0] is Stats
            &&& says(body, 0, Node::Int(v)) ==> same64(s.frames_received as int, v)
            &&& says(body, 1, Node::Int(v)) ==> same64(s.frames_dropped as int, v)
            &&& says(body, 2, Node::Int(v)) ==> same64(s.datagrams as int, v)
            &&& says(body, 3, Node::Float(f)) ==> s.jitter_ms == f
            &&& says(body, 4, Node::Int(v)) ==> same64(s.decode_us as int, v)
            &&& says(body, 5, Node::Int(v)) ==> same64(s.rtt_us as int, v)
            &&& says(body, 6, Node::Int(v)) ==> s.e2e_us is Some && same64(s.e2e_us->0 as int, v)
            &&& says(body, 7, Node::Int(v)) ==> (s.stream_id - v) % 0x1_0000 == 0
            &&& silent(body, 0) ==> s.frames_received == 0
            &&& silent(body, 1) ==> s.frames_dropped == 0
            &&& silent(body, 2) ==> s.datagrams == 0
            &&& silent(body, 3) ==> s.jitter_ms == 0
            &&& silent(body, 4) ==> s.decode_us == 0
            &&& silent(body, 5) ==> s.rtt_us == 0
            &&& silent(body, 6) ==> s.e2e_us is None
            &&& silent(body, 7) ==> s.stream_id == 0
        }),
{
    lemma_low(v);
    lemma_key(body, 0, v);
    lemma_key(body, 1, v);
    lemma_key(body, 2, v);
    lemma_key(body, 4, v);
    lemma_key(body, 5, v);
    lemma_key(body, 6, v);
    lemma_key(body, 7, v);
    if says(body, 3, Node::Float(f)) {
        lookup_gives_what_is_said(body, 3, Node::Float(f), 0);
    }
    if silent(body, 3) {
        lookup_of_silence(body, 3, 0);
    }
}

proof fn lemma_key(body: Seq<(Node, Node)>, key: int, v: int)
    ensures
        says(body, key, Node::Int(v)) ==> crate::session::int_under(body, key) == Some(v),
        silent(body, key) ==> crate::session::int_under(body, key) is None,
{
    if says(body, key, Node::Int(v)) {
        lookup_gives_what_is_said(body, key, Node::Int(v), 0);
    }
    if silent(body, key) {
        lookup_of_silence(body, key, 0);
    }
}

} // verus!
