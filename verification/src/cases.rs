//! Conformance cases: one operation of the library on one JSON input, with a JSON result.
//!
//! A case is malformed where a member is missing or of the wrong kind; it then has no result.

use vstd::prelude::*;
use crate::cbor::{
    Node, Value, entries, lemma_settled_pairs, lemma_view_map, lowered, read_item, reads_as,
    settled_node,
};
use crate::clocksync::{Estimate, best, estimates, in_range, recent, samples};
use crate::control::{
    Decoded, decode_frame, decodes_to, encode_frame, frame, frame_body, key_count, key_within,
    lemma_filter_settled, lemma_opened_settled, opened,
};
use crate::datagram;
use crate::datagram::{
    DatagramHeader, DecodedDatagram, DropReason, header, header_bytes, reason_name, verdict,
};
use crate::error::Result;
use crate::keymap::Keymap;
use crate::reassembly::{Counters, Event, Fragment, Reassembler, Receiver, play, played};
use crate::text::{chars_of, same_text};
use crate::vectors::{
    Doc, Json, cbor_to_json, doc_of, doc_of_settled, docs, from_hex, hex_bytes, hex_text, int_doc,
    int_to_json, json_to_cbor, lemma_view_docs, lemma_view_members, members, node_of, reports_doc,
    to_hex,
};

verus! {

broadcast use vstd::std_specs::vec::group_vec_axioms;

/// The last member of the name, if there is one.
pub open spec fn last_named(m: Seq<(Seq<char>, Doc)>, name: Seq<char>) -> Option<Doc>
    decreases m.len(),
{
    if m.len() == 0 {
        None
    } else if m.last().0 == name {
        Some(m.last().1)
    } else {
        last_named(m.drop_last(), name)
    }
}

/// A member of an object.
pub open spec fn field(d: Doc, name: Seq<char>) -> Option<Doc> {
    match d {
        Doc::Object(m) => last_named(m, name),
        _ => None,
    }
}

/// The truth value that a member holds.
pub open spec fn flag(d: Option<Doc>) -> Option<bool> {
    match d {
        Some(Doc::Bool(b)) => Some(b),
        _ => None,
    }
}

/// The non-negative integer that a member holds.
pub open spec fn uint(d: Option<Doc>) -> Option<u64> {
    match d {
        Some(Doc::Unsigned(u)) => Some(u),
        _ => None,
    }
}

/// The signed 64-bit integer that a member holds.
pub open spec fn sint(d: Option<Doc>) -> Option<i64> {
    match d {
        Some(Doc::Unsigned(u)) => if u <= i64::MAX {
            Some(u as i64)
        } else {
            None
        },
        Some(Doc::Signed(i)) => Some(i),
        _ => None,
    }
}

/// The elements of the array that a member holds.
pub open spec fn elements(d: Option<Doc>) -> Option<Seq<Doc>> {
    match d {
        Some(Doc::Array(a)) => Some(a),
        _ => None,
    }
}

/// The bytes that a member writes as hexadecimal digits.
pub open spec fn octets(d: Option<Doc>) -> Option<Seq<u8>> {
    match d {
        Some(Doc::Text(s)) => hex_bytes(s),
        _ => None,
    }
}

/// The low 16 bits.
pub open spec fn low16(v: u64) -> u16 {
    (v % 0x1_0000) as u16
}

/// The low 32 bits.
pub open spec fn low32(v: u64) -> u32 {
    (v % 0x1_0000_0000) as u32
}

/// Look a member up.
pub fn get<'a>(j: &'a Json, name: &str) -> (r: Option<&'a Json>)
    ensures
        match field(j@, name@) {
            Some(d) => r is Some && r->0@ == d,
            None => r is None,
        },
{
    match j {
        Json::Object(m) => {
            let ghost all = members(m@);
            proof {
                lemma_view_members(*m);
            }
            let mut n: usize = m.len();
            assert(all.take(n as int) =~= all);
            while n > 0
                invariant
                    n <= m@.len(),
                    all == members(m@),
                    last_named(all, name@) == last_named(all.take(n as int), name@),
                    j@ == Doc::Object(all),
                decreases n,
            {
                proof {
                    assert(all.take(n as int).drop_last() =~= all.take(n - 1));
                    assert(all.take(n as int).last() == (m@[n - 1].0@, m@[n - 1].1@));
                }
                let key: Vec<char> = chars_of(m[n - 1].0.as_str());
                if same_text(&key, name) {
                    return Some(&m[n - 1].1);
                }
                n -= 1;
            }
            None
        },
        _ => None,
    }
}

fn get_flag(j: &Json, name: &str) -> (r: Option<bool>)
    ensures
        r == flag(field(j@, name@)),
{
    match get(j, name) {
        Some(Json::Bool(b)) => Some(*b),
        _ => None,
    }
}

fn get_uint(j: &Json, name: &str) -> (r: Option<u64>)
    ensures
        r == uint(field(j@, name@)),
{
    match get(j, name) {
        Some(Json::Unsigned(u)) => Some(*u),
        _ => None,
    }
}

fn as_sint(j: &Json) -> (r: Option<i64>)
    ensures
        r == sint(Some(j@)),
{
    match j {
        Json::Unsigned(u) => if *u <= 0x7fff_ffff_ffff_ffff {
            Some(*u as i64)
        } else {
            None
        },
        Json::Signed(i) => Some(*i),
        _ => None,
    }
}

fn get_sint(j: &Json, name: &str) -> (r: Option<i64>)
    ensures
        r == sint(field(j@, name@)),
{
    match get(j, name) {
        Some(v) => as_sint(v),
        None => None,
    }
}

fn get_octets(j: &Json, name: &str) -> (r: Option<Vec<u8>>)
    ensures
        match octets(field(j@, name@)) {
            Some(b) => r is Some && r->0@ == b,
            None => r is None,
        },
{
    match get(j, name) {
        Some(Json::Text(s)) => match from_hex(s.as_str()) {
            Ok(b) => Some(b),
            Err(_) => None,
        },
        _ => None,
    }
}

/// Append a member.
fn add_member(m: &mut Vec<(String, Json)>, name: &str, value: Json)
    ensures
        members(final(m)@) == members(old(m)@).push((name@, value@)),
{
    let ghost before = members(m@);
    m.push((name.to_string(), value));
    assert(members(m@) =~= before.push((name@, value@)));
}

/// An object without members.
fn no_members() -> (r: Vec<(String, Json)>)
    ensures
        members(r@) == Seq::<(Seq<char>, Doc)>::empty(),
{
    let m: Vec<(String, Json)> = Vec::new();
    assert(members(m@) =~= Seq::empty());
    m
}

fn object(m: Vec<(String, Json)>) -> (r: Json)
    ensures
        r@ == Doc::Object(members(m@)),
{
    proof {
        lemma_view_members(m);
    }
    Json::Object(m)
}

// --- datagrams ---

/// The result of encoding a datagram. Numbers are cut to the width of their header field.
pub open spec fn datagram_encoded(d: Doc) -> Option<Doc> {
    match (
        flag(field(d, "flags_keyframe"@)),
        uint(field(d, "stream_id"@)),
        uint(field(d, "frame_seq"@)),
        uint(field(d, "frag_index"@)),
        uint(field(d, "frag_count"@)),
        octets(field(d, "payload"@)),
    ) {
        (
            Some(keyframe),
            Some(stream_id),
            Some(frame_seq),
            Some(index),
            Some(count),
            Some(payload),
        ) => {
            let h = header(
                keyframe,
                low16(stream_id),
                low32(frame_seq),
                low16(index),
                low16(count),
            );
            Some(
                Doc::Object(
                    Seq::empty().push(("hex"@, Doc::Text(hex_text(header_bytes(h) + payload)))),
                ),
            )
        },
        _ => None,
    }
}

/// Encode a datagram.
pub fn datagram_encode(input: &Json) -> (r: Option<Json>)
    ensures
        reports_doc(r, datagram_encoded(input@)),
{
    match (
        get_flag(input, "flags_keyframe"),
        get_uint(input, "stream_id"),
        get_uint(input, "frame_seq"),
        get_uint(input, "frag_index"),
        get_uint(input, "frag_count"),
        get_octets(input, "payload"),
    ) {
        (
            Some(keyframe),
            Some(stream_id),
            Some(frame_seq),
            Some(index),
            Some(count),
            Some(payload),
        ) => {
            let h: DatagramHeader = DatagramHeader::new(
                keyframe,
                (stream_id % 0x1_0000) as u16,
                (frame_seq % 0x1_0000_0000) as u32,
                (index % 0x1_0000) as u16,
                (count % 0x1_0000) as u16,
            );
            let bytes: Vec<u8> = h.encode(payload.as_slice());
            let mut m: Vec<(String, Json)> = no_members();
            add_member(&mut m, "hex", Json::Text(to_hex(bytes.as_slice())));
            Some(object(m))
        },
        _ => None,
    }
}

/// The result of decoding a datagram.
pub open spec fn datagram_report(v: core::result::Result<DecodedDatagram, DropReason>) -> Doc {
    match v {
        Ok(d) => Doc::Object(
            Seq::empty().push(("ok"@, Doc::Bool(true))).push(
                (
                    "header"@,
                    Doc::Object(
                        Seq::empty().push(("flags_keyframe"@, Doc::Bool(d.header.keyframe))).push(
                            ("flags_last"@, Doc::Bool(d.header.last_fragment)),
                        ).push(("stream_id"@, Doc::Unsigned(d.header.stream_id as u64))).push(
                            ("frame_seq"@, Doc::Unsigned(d.header.frame_seq as u64)),
                        ).push(("frag_index"@, Doc::Unsigned(d.header.frag_index as u64))).push(
                            ("frag_count"@, Doc::Unsigned(d.header.frag_count as u64)),
                        ).push(("payload_len"@, Doc::Unsigned(d.payload_len as u64))),
                    ),
                ),
            ),
        ),
        Err(reason) => Doc::Object(
            Seq::empty().push(("ok"@, Doc::Bool(false))).push(
                ("reason"@, Doc::Text(reason_name(reason))),
            ),
        ),
    }
}

/// The result of decoding a datagram that is written as hexadecimal digits.
pub open spec fn datagram_decoded(d: Doc) -> Option<Doc> {
    match octets(field(d, "hex"@)) {
        Some(bytes) => Some(datagram_report(verdict(bytes, Seq::empty()))),
        None => None,
    }
}

/// Decode a datagram.
pub fn datagram_decode(input: &Json) -> (r: Option<Json>)
    ensures
        reports_doc(r, datagram_decoded(input@)),
{
    let bytes: Vec<u8> = match get_octets(input, "hex") {
        Some(bytes) => bytes,
        None => return None,
    };
    let mut m: Vec<(String, Json)> = no_members();
    match datagram::decode(bytes.as_slice()) {
        Ok(d) => {
            let mut h: Vec<(String, Json)> = no_members();
            add_member(&mut h, "flags_keyframe", Json::Bool(d.header.keyframe));
            add_member(&mut h, "flags_last", Json::Bool(d.header.last_fragment));
            add_member(&mut h, "stream_id", Json::Unsigned(d.header.stream_id as u64));
            add_member(&mut h, "frame_seq", Json::Unsigned(d.header.frame_seq as u64));
            add_member(&mut h, "frag_index", Json::Unsigned(d.header.frag_index as u64));
            add_member(&mut h, "frag_count", Json::Unsigned(d.header.frag_count as u64));
            add_member(&mut h, "payload_len", Json::Unsigned(d.payload_len as u64));
            add_member(&mut m, "ok", Json::Bool(true));
            add_member(&mut m, "header", object(h));
        },
        Err(reason) => {
            add_member(&mut m, "ok", Json::Bool(false));
            add_member(&mut m, "reason", Json::Text(reason.as_str().to_string()));
        },
    }
    Some(object(m))
}

// --- control frames ---

/// The result of encoding a control frame.
pub open spec fn control_encoded(d: Doc) -> Option<Doc> {
    match (uint(field(d, "msg_type"@)), field(d, "body"@)) {
        (Some(t), Some(body)) => match node_of(body) {
            Some(Node::Pairs(m)) => Some(
                Doc::Object(Seq::empty().push(("hex"@, Doc::Text(hex_text(frame(t, m)))))),
            ),
            _ => None,
        },
        _ => None,
    }
}

/// Encode a control frame.
pub fn control_encode(input: &Json) -> (r: Option<Json>)
    ensures
        reports_doc(r, control_encoded(input@)),
{
    match (get_uint(input, "msg_type"), get(input, "body")) {
        (Some(t), Some(body)) => match json_to_cbor(body) {
            Some(Value::Pairs(pairs)) => {
                proof {
                    lemma_view_map(pairs);
                }
                let bytes: Vec<u8> = encode_frame(t, pairs.as_slice());
                let mut m: Vec<(String, Json)> = no_members();
                add_member(&mut m, "hex", Json::Text(to_hex(bytes.as_slice())));
                Some(object(m))
            },
            _ => None,
        },
        _ => None,
    }
}

/// What a control frame amounts to.
pub enum Verdict {
    Violation,
    Ignored,
    Message(u64, Seq<(Node, Node)>),
}

/// What a message tree amounts to.
pub open spec fn message_verdict(n: Node) -> Verdict {
    match opened(n) {
        None => Verdict::Violation,
        Some((t, m)) => match key_count(t) {
            None => Verdict::Ignored,
            Some(count) => Verdict::Message(t, m.filter(key_within(count))),
        },
    }
}

/// What a frame amounts to.
pub open spec fn frame_verdict(bytes: Seq<u8>) -> Verdict {
    match frame_body(bytes) {
        None => Verdict::Violation,
        Some(body) => match read_item(body) {
            None => Verdict::Violation,
            Some(item) => message_verdict(lowered(item)),
        },
    }
}

/// What decoding gave.
pub open spec fn decoded_verdict(r: Result<Decoded>) -> Verdict {
    match r {
        Err(_) => Verdict::Violation,
        Ok(Decoded::Ignored) => Verdict::Ignored,
        Ok(Decoded::Message { msg_type, body }) => Verdict::Message(msg_type, entries(body@)),
    }
}

/// The result of decoding a control frame. There is none where JSON cannot write the body.
pub open spec fn control_report_of(v: Verdict) -> Option<Doc> {
    match v {
        Verdict::Violation => Some(
            Doc::Object(
                Seq::empty().push(("ok"@, Doc::Bool(false))).push(
                    ("error"@, Doc::Text("PROTOCOL_VIOLATION"@)),
                ),
            ),
        ),
        Verdict::Ignored => Some(
            Doc::Object(
                Seq::empty().push(("ok"@, Doc::Bool(true))).push(("ignored"@, Doc::Bool(true))),
            ),
        ),
        Verdict::Message(t, m) => match doc_of(Node::Pairs(m)) {
            Some(body) => Some(
                Doc::Object(
                    Seq::empty().push(("ok"@, Doc::Bool(true))).push(
                        ("msg_type"@, Doc::Unsigned(t)),
                    ).push(("body"@, body)),
                ),
            ),
            None => None,
        },
    }
}

/// A report shows nothing of a NaN.
proof fn lemma_report_settled(n: Node)
    ensures
        control_report_of(message_verdict(settled_node(n))) == control_report_of(
            message_verdict(n),
        ),
{
    lemma_opened_settled(n);
    if opened(n) is Some && key_count((opened(n)->0).0) is Some {
        let (t, m) = opened(n)->0;
        let count = key_count(t)->0;
        let kept = m.filter(key_within(count));
        lemma_filter_settled(m, count);
        lemma_settled_pairs(kept);
        doc_of_settled(Node::Pairs(kept));
    }
}

/// Report what decoding a control frame gave.
pub fn control_report(decoded: Result<Decoded>) -> (r: Option<Json>)
    ensures
        reports_doc(r, control_report_of(decoded_verdict(decoded))),
{
    let mut m: Vec<(String, Json)> = no_members();
    match decoded {
        Ok(Decoded::Message { msg_type, body }) => {
            proof {
                lemma_view_map(body);
            }
            let body: Json = match cbor_to_json(&Value::Pairs(body)) {
                Some(body) => body,
                None => return None,
            };
            add_member(&mut m, "ok", Json::Bool(true));
            add_member(&mut m, "msg_type", Json::Unsigned(msg_type));
            add_member(&mut m, "body", body);
        },
        Ok(Decoded::Ignored) => {
            add_member(&mut m, "ok", Json::Bool(true));
            add_member(&mut m, "ignored", Json::Bool(true));
        },
        Err(_) => {
            add_member(&mut m, "ok", Json::Bool(false));
            add_member(&mut m, "error", Json::Text("PROTOCOL_VIOLATION".to_string()));
        },
    }
    Some(object(m))
}

/// The result of decoding a control frame that is written as hexadecimal digits.
pub open spec fn control_decoded(d: Doc) -> Option<Doc> {
    match octets(field(d, "hex"@)) {
        Some(bytes) => control_report_of(frame_verdict(bytes)),
        None => None,
    }
}

/// Decode a control frame.
pub fn control_decode(input: &Json) -> (r: Option<Json>)
    ensures
        reports_doc(r, control_decoded(input@)),
{
    let bytes: Vec<u8> = match get_octets(input, "hex") {
        Some(bytes) => bytes,
        None => return None,
    };
    let decoded = decode_frame(bytes.as_slice());
    proof {
        let body = frame_body(bytes@);
        if body is Some && read_item(body->0) is Some {
            let n = choose|n: Node| #[trigger] reads_as(body->0, n) && decodes_to(n, decoded);
            lemma_report_settled(n);
            assert(decoded_verdict(decoded) == message_verdict(n));
        }
    }
    control_report(decoded)
}

// --- reassembly ---

/// One arrival of a trace. Numbers are cut to the width of their header field.
pub open spec fn arrival(d: Doc) -> Option<(i64, Fragment)> {
    match (
        sint(field(d, "t_ms"@)),
        uint(field(d, "frame_seq"@)),
        uint(field(d, "frag_index"@)),
        uint(field(d, "frag_count"@)),
        flag(field(d, "keyframe"@)),
    ) {
        (Some(t), Some(frame_seq), Some(index), Some(count), Some(keyframe)) => Some(
            (
                t,
                Fragment {
                    frame_seq: low32(frame_seq),
                    frag_index: low16(index),
                    frag_count: low16(count),
                    keyframe,
                },
            ),
        ),
        _ => None,
    }
}

/// The arrivals of a trace.
pub open spec fn arrivals(a: Seq<Doc>) -> Option<Seq<(i64, Fragment)>>
    decreases a.len(),
{
    if a.len() == 0 {
        Some(Seq::empty())
    } else {
        match (arrivals(a.drop_last()), arrival(a.last())) {
            (Some(list), Some(x)) => Some(list.push(x)),
            _ => None,
        }
    }
}

/// An event of a receiver.
pub open spec fn event_doc(e: Event) -> Doc {
    match e {
        Event::Deliver { t_ms, frame_seq, keyframe } => Doc::Object(
            Seq::empty().push(("t_ms"@, int_doc(t_ms as int))).push(
                ("ev"@, Doc::Text("deliver"@)),
            ).push(("frame_seq"@, Doc::Unsigned(frame_seq as u64))).push(
                ("keyframe"@, Doc::Bool(keyframe)),
            ),
        ),
        Event::IdrRequest { t_ms, last_good } => Doc::Object(
            Seq::empty().push(("t_ms"@, int_doc(t_ms as int))).push(
                ("ev"@, Doc::Text("idr_request"@)),
            ).push(("last_good"@, Doc::Unsigned(last_good as u64))),
        ),
    }
}

/// What a receiver shows.
pub open spec fn receiver_doc(m: Receiver) -> Doc {
    Doc::Object(
        Seq::empty().push(
            (
                "events"@,
                Doc::Array(Seq::new(m.events.len(), |i: int| event_doc(m.events[i]))),
            ),
        ).push(
            (
                "counters"@,
                Doc::Object(
                    Seq::empty().push(
                        ("dropped_incomplete"@, Doc::Unsigned(m.dropped_incomplete as u64)),
                    ).push(("discarded_gap"@, Doc::Unsigned(m.discarded_gap as u64))).push(
                        ("stale_fragments"@, Doc::Unsigned(m.stale_fragments as u64)),
                    ),
                ),
            ),
        ),
    )
}

/// The result of a trace.
pub open spec fn trace_result(d: Doc) -> Option<Doc> {
    match elements(field(d, "trace"@)) {
        Some(a) => match arrivals(a) {
            Some(trace) => Some(receiver_doc(played(trace))),
            None => None,
        },
        None => None,
    }
}

/// The trace, if there is one, is short enough for 64-bit counters.
pub open spec fn countable_trace(d: Doc) -> bool {
    match elements(field(d, "trace"@)) {
        Some(a) => a.len() <= u64::MAX / 3,
        None => true,
    }
}

/// Read one arrival.
fn read_arrival(j: &Json) -> (r: Option<(i64, Fragment)>)
    ensures
        r == arrival(j@),
{
    match (
        get_sint(j, "t_ms"),
        get_uint(j, "frame_seq"),
        get_uint(j, "frag_index"),
        get_uint(j, "frag_count"),
        get_flag(j, "keyframe"),
    ) {
        (Some(t), Some(frame_seq), Some(index), Some(count), Some(keyframe)) => Some(
            (
                t,
                Fragment {
                    frame_seq: (frame_seq % 0x1_0000_0000) as u32,
                    frag_index: (index % 0x1_0000) as u16,
                    frag_count: (count % 0x1_0000) as u16,
                    keyframe,
                },
            ),
        ),
        _ => None,
    }
}

proof fn lemma_arrivals_none(a: Seq<Doc>, k: int)
    requires
        0 <= k <= a.len(),
        arrivals(a.take(k)) is None,
    ensures
        arrivals(a) is None,
    decreases a.len(),
{
    if k < a.len() {
        assert(a.drop_last().take(k) =~= a.take(k));
        lemma_arrivals_none(a.drop_last(), k);
    } else {
        assert(a.take(k) =~= a);
    }
}

proof fn lemma_arrivals_len(a: Seq<Doc>)
    requires
        arrivals(a) is Some,
    ensures
        arrivals(a)->0.len() == a.len(),
    decreases a.len(),
{
    if a.len() > 0 {
        lemma_arrivals_len(a.drop_last());
    }
}

/// Read the arrivals of a trace.
fn read_arrivals(a: &Vec<Json>) -> (r: Option<Vec<(i64, Fragment)>>)
    ensures
        match arrivals(docs(a@)) {
            Some(list) => r is Some && r->0@ == list,
            None => r is None,
        },
{
    let ghost all = docs(a@);
    let mut out: Vec<(i64, Fragment)> = Vec::new();
    let mut k: usize = 0;
    assert(all.take(0) =~= Seq::empty());
    while k < a.len()
        invariant
            k <= a@.len(),
            all == docs(a@),
            arrivals(all.take(k as int)) == Some(out@),
        decreases a@.len() - k,
    {
        proof {
            assert(all.take(k + 1).drop_last() =~= all.take(k as int));
            assert(all.take(k + 1).last() == a@[k as int]@);
        }
        match read_arrival(&a[k]) {
            Some(x) => out.push(x),
            None => {
                proof {
                    lemma_arrivals_none(all, k + 1);
                }
                return None;
            },
        }
        k += 1;
    }
    assert(all.take(k as int) =~= all);
    Some(out)
}

/// Write one event.
fn write_event(e: Event) -> (r: Json)
    ensures
        r@ == event_doc(e),
{
    let mut m: Vec<(String, Json)> = no_members();
    match e {
        Event::Deliver { t_ms, frame_seq, keyframe } => {
            add_member(&mut m, "t_ms", int_to_json(t_ms as i128));
            add_member(&mut m, "ev", Json::Text("deliver".to_string()));
            add_member(&mut m, "frame_seq", Json::Unsigned(frame_seq as u64));
            add_member(&mut m, "keyframe", Json::Bool(keyframe));
        },
        Event::IdrRequest { t_ms, last_good } => {
            add_member(&mut m, "t_ms", int_to_json(t_ms as i128));
            add_member(&mut m, "ev", Json::Text("idr_request".to_string()));
            add_member(&mut m, "last_good", Json::Unsigned(last_good as u64));
        },
    }
    object(m)
}

/// Write what a receiver shows.
fn write_receiver(r: &Reassembler) -> (j: Json)
    ensures
        j@ == receiver_doc(r@),
{
    let events: &[Event] = r.events();
    let ghost goal = Seq::new(r@.events.len(), |i: int| event_doc(r@.events[i]));
    let mut list: Vec<Json> = Vec::new();
    let mut k: usize = 0;
    assert(docs(list@) =~= goal.take(0));
    while k < events.len()
        invariant
            k <= events@.len(),
            events@ == r@.events,
            goal == Seq::new(r@.events.len(), |i: int| event_doc(r@.events[i])),
            docs(list@) == goal.take(k as int),
        decreases events@.len() - k,
    {
        let ghost before = docs(list@);
        let e: Json = write_event(events[k]);
        list.push(e);
        proof {
            assert(docs(list@) =~= before.push(e@));
            assert(goal.take(k + 1) =~= goal.take(k as int).push(goal[k as int]));
        }
        k += 1;
    }
    proof {
        assert(goal.take(k as int) =~= goal);
        lemma_view_docs(list);
    }
    let c: &Counters = r.counters();
    let mut counters: Vec<(String, Json)> = no_members();
    add_member(&mut counters, "dropped_incomplete", Json::Unsigned(c.dropped_incomplete));
    add_member(&mut counters, "discarded_gap", Json::Unsigned(c.discarded_gap));
    add_member(&mut counters, "stale_fragments", Json::Unsigned(c.stale_fragments));
    let mut m: Vec<(String, Json)> = no_members();
    add_member(&mut m, "events", Json::Array(list));
    add_member(&mut m, "counters", object(counters));
    object(m)
}

/// Feed a trace to a receiver with no history.
pub fn reassembly_trace(input: &Json) -> (r: Option<Json>)
    requires
        countable_trace(input@),
    ensures
        reports_doc(r, trace_result(input@)),
{
    match get(input, "trace") {
        Some(Json::Array(a)) => {
            proof {
                lemma_view_docs(*a);
            }
            match read_arrivals(a) {
                Some(trace) => {
                    proof {
                        lemma_arrivals_len(docs(a@));
                    }
                    let done: Reassembler = play(trace.as_slice());
                    Some(write_receiver(&done))
                },
                None => None,
            }
        },
        _ => None,
    }
}

// --- clock synchronization ---

/// One exchange of a series, whose sums must fit 64 bits.
pub open spec fn exchange(d: Doc) -> Option<(i64, i64, i64, i64)> {
    match d {
        Doc::Array(a) => if a.len() < 4 {
            None
        } else {
            match (sint(Some(a[0])), sint(Some(a[1])), sint(Some(a[2])), sint(Some(a[3]))) {
                (Some(t0), Some(t1), Some(t2), Some(t3)) => if in_range(t0, t1, t2, t3) {
                    Some((t0, t1, t2, t3))
                } else {
                    None
                },
                _ => None,
            }
        },
        _ => None,
    }
}

/// The exchanges of a series.
pub open spec fn exchanges(a: Seq<Doc>) -> Option<Seq<(i64, i64, i64, i64)>>
    decreases a.len(),
{
    if a.len() == 0 {
        Some(Seq::empty())
    } else {
        match (exchanges(a.drop_last()), exchange(a.last())) {
            (Some(list), Some(x)) => Some(list.push(x)),
            _ => None,
        }
    }
}

/// An estimate.
pub open spec fn estimate_doc(e: Estimate) -> Doc {
    Doc::Object(
        Seq::empty().push(("rtt"@, int_doc(e.rtt as int))).push(
            ("offset"@, int_doc(e.offset as int)),
        ),
    )
}

/// The result of a series: the estimate after each exchange.
pub open spec fn series_result(d: Doc) -> Option<Doc> {
    match elements(field(d, "samples"@)) {
        Some(a) => match exchanges(a) {
            Some(s) => Some(
                Doc::Object(
                    Seq::empty().push(
                        (
                            "estimates"@,
                            Doc::Array(
                                Seq::new(
                                    s.len(),
                                    |i: int| estimate_doc(best(recent(samples(s).take(i + 1)))),
                                ),
                            ),
                        ),
                    ),
                ),
            ),
            None => None,
        },
        None => None,
    }
}

/// The difference fits 64 bits.
fn difference(a: i64, b: i64) -> (r: Option<i64>)
    ensures
        r == if i64::MIN <= a - b <= i64::MAX {
            Some((a - b) as i64)
        } else {
            None
        },
{
    a.checked_sub(b)
}

/// Whether the sums of an exchange fit 64 bits.
fn sums_fit(t0: i64, t1: i64, t2: i64, t3: i64) -> (r: bool)
    ensures
        r == in_range(t0, t1, t2, t3),
{
    match (difference(t3, t0), difference(t2, t1), difference(t1, t0), difference(t2, t3)) {
        (Some(a), Some(b), Some(c), Some(d)) => a.checked_sub(b).is_some() && c.checked_add(
            d,
        ).is_some(),
        _ => false,
    }
}

/// Read one exchange.
fn read_exchange(j: &Json) -> (r: Option<(i64, i64, i64, i64)>)
    ensures
        r == exchange(j@),
{
    match j {
        Json::Array(a) => {
            proof {
                lemma_view_docs(*a);
            }
            if a.len() < 4 {
                return None;
            }
            match (as_sint(&a[0]), as_sint(&a[1]), as_sint(&a[2]), as_sint(&a[3])) {
                (Some(t0), Some(t1), Some(t2), Some(t3)) => if sums_fit(t0, t1, t2, t3) {
                    Some((t0, t1, t2, t3))
                } else {
                    None
                },
                _ => None,
            }
        },
        _ => None,
    }
}

proof fn lemma_exchanges_none(a: Seq<Doc>, k: int)
    requires
        0 <= k <= a.len(),
        exchanges(a.take(k)) is None,
    ensures
        exchanges(a) is None,
    decreases a.len(),
{
    if k < a.len() {
        assert(a.drop_last().take(k) =~= a.take(k));
        lemma_exchanges_none(a.drop_last(), k);
    } else {
        assert(a.take(k) =~= a);
    }
}

/// Read the exchanges of a series.
fn read_exchanges(a: &Vec<Json>) -> (r: Option<Vec<(i64, i64, i64, i64)>>)
    ensures
        match exchanges(docs(a@)) {
            Some(list) => r is Some && r->0@ == list,
            None => r is None,
        },
        r is Some ==> forall|i: int|
            0 <= i < r->0@.len() ==> in_range(
                (#[trigger] r->0@[i]).0,
                r->0@[i].1,
                r->0@[i].2,
                r->0@[i].3,
            ),
{
    let ghost all = docs(a@);
    let mut out: Vec<(i64, i64, i64, i64)> = Vec::new();
    let mut k: usize = 0;
    assert(all.take(0) =~= Seq::empty());
    while k < a.len()
        invariant
            k <= a@.len(),
            all == docs(a@),
            exchanges(all.take(k as int)) == Some(out@),
            forall|i: int|
                0 <= i < out@.len() ==> in_range(
                    (#[trigger] out@[i]).0,
                    out@[i].1,
                    out@[i].2,
                    out@[i].3,
                ),
        decreases a@.len() - k,
    {
        proof {
            assert(all.take(k + 1).drop_last() =~= all.take(k as int));
            assert(all.take(k + 1).last() == a@[k as int]@);
        }
        match read_exchange(&a[k]) {
            Some(x) => out.push(x),
            None => {
                proof {
                    lemma_exchanges_none(all, k + 1);
                }
                return None;
            },
        }
        k += 1;
    }
    assert(all.take(k as int) =~= all);
    Some(out)
}

/// Write one estimate.
fn write_estimate(e: Estimate) -> (r: Json)
    ensures
        r@ == estimate_doc(e),
{
    let mut m: Vec<(String, Json)> = no_members();
    add_member(&mut m, "rtt", int_to_json(e.rtt as i128));
    add_member(&mut m, "offset", int_to_json(e.offset as i128));
    object(m)
}

/// Feed a series of exchanges to a fresh filter.
pub fn clocksync_series(input: &Json) -> (r: Option<Json>)
    ensures
        reports_doc(r, series_result(input@)),
{
    let series: Vec<(i64, i64, i64, i64)> = match get(input, "samples") {
        Some(Json::Array(a)) => {
            proof {
                lemma_view_docs(*a);
            }
            match read_exchanges(a) {
                Some(series) => series,
                None => return None,
            }
        },
        _ => return None,
    };
    let found: Vec<Estimate> = estimates(series.as_slice());
    let ghost goal = Seq::new(
        series@.len(),
        |i: int| estimate_doc(best(recent(samples(series@).take(i + 1)))),
    );
    let mut list: Vec<Json> = Vec::new();
    let mut k: usize = 0;
    assert(docs(list@) =~= goal.take(0));
    while k < found.len()
        invariant
            k <= found@.len(),
            found@.len() == series@.len(),
            forall|i: int|
                0 <= i < found@.len() ==> #[trigger] found@[i] == best(
                    recent(samples(series@).take(i + 1)),
                ),
            goal == Seq::new(
                series@.len(),
                |i: int| estimate_doc(best(recent(samples(series@).take(i + 1)))),
            ),
            docs(list@) == goal.take(k as int),
        decreases found@.len() - k,
    {
        let ghost before = docs(list@);
        let e: Json = write_estimate(found[k]);
        list.push(e);
        proof {
            assert(docs(list@) =~= before.push(e@));
            assert(goal.take(k + 1) =~= goal.take(k as int).push(goal[k as int]));
        }
        k += 1;
    }
    proof {
        assert(goal.take(k as int) =~= goal);
        lemma_view_docs(list);
    }
    let mut m: Vec<(String, Json)> = no_members();
    add_member(&mut m, "estimates", Json::Array(list));
    Some(object(m))
}

// --- keymaps ---

/// The result of looking a code up: the code that it maps to, or null.
pub open spec fn lookup_result(d: Doc, table: Map<i64, i64>) -> Option<Doc> {
    match sint(field(d, "code"@)) {
        Some(code) => Some(
            Doc::Object(
                Seq::empty().push(
                    (
                        "code"@,
                        match table.get(code) {
                            Some(to) => int_doc(to as int),
                            None => Doc::Null,
                        },
                    ),
                ),
            ),
        ),
        None => None,
    }
}

/// Look a code up.
pub fn keymap_lookup(input: &Json, table: &Keymap) -> (r: Option<Json>)
    ensures
        reports_doc(r, lookup_result(input@, table@)),
{
    let code: i64 = match get_sint(input, "code") {
        Some(code) => code,
        None => return None,
    };
    let mut m: Vec<(String, Json)> = no_members();
    match table.get(code) {
        Some(to) => add_member(&mut m, "code", int_to_json(to as i128)),
        None => add_member(&mut m, "code", Json::Null),
    }
    Some(object(m))
}

// --- dispatch ---

/// The keymap tables that cases refer to.
pub struct Tables {
    pub akeycode_to_evdev: Keymap,
    pub evdev_to_cgkeycode: Keymap,
}

/// The result of a case. There is none for an unknown category or operation. Reassembly and
/// clock cases have one operation each, whatever it is called.
pub open spec fn case_result(
    category: Seq<char>,
    op: Seq<char>,
    d: Doc,
    to_evdev: Map<i64, i64>,
    to_cgkeycode: Map<i64, i64>,
) -> Option<Doc> {
    if category == "datagram"@ {
        if op == "encode"@ {
            datagram_encoded(d)
        } else if op == "decode"@ {
            datagram_decoded(d)
        } else {
            None
        }
    } else if category == "control"@ {
        if op == "encode"@ {
            control_encoded(d)
        } else if op == "decode"@ {
            control_decoded(d)
        } else {
            None
        }
    } else if category == "reassembly"@ {
        trace_result(d)
    } else if category == "clocksync"@ {
        series_result(d)
    } else if category == "keymap"@ {
        if op == "akeycode_to_evdev"@ {
            lookup_result(d, to_evdev)
        } else if op == "evdev_to_cgkeycode"@ {
            lookup_result(d, to_cgkeycode)
        } else {
            None
        }
    } else {
        None
    }
}

/// Run one case.
pub fn run_case(category: &str, op: &str, input: &Json, tables: &Tables) -> (r: Option<Json>)
    requires
        category@ == "reassembly"@ ==> countable_trace(input@),
    ensures
        reports_doc(
            r,
            case_result(
                category@,
                op@,
                input@,
                tables.akeycode_to_evdev@,
                tables.evdev_to_cgkeycode@,
            ),
        ),
{
    let kind: Vec<char> = chars_of(category);
    let name: Vec<char> = chars_of(op);
    if same_text(&kind, "datagram") {
        if same_text(&name, "encode") {
            datagram_encode(input)
        } else if same_text(&name, "decode") {
            datagram_decode(input)
        } else {
            None
        }
    } else if same_text(&kind, "control") {
        if same_text(&name, "encode") {
            control_encode(input)
        } else if same_text(&name, "decode") {
            control_decode(input)
        } else {
            None
        }
    } else if same_text(&kind, "reassembly") {
        reassembly_trace(input)
    } else if same_text(&kind, "clocksync") {
        clocksync_series(input)
    } else if same_text(&kind, "keymap") {
        if same_text(&name, "akeycode_to_evdev") {
            keymap_lookup(input, &tables.akeycode_to_evdev)
        } else if same_text(&name, "evdev_to_cgkeycode") {
            keymap_lookup(input, &tables.evdev_to_cgkeycode)
        } else {
            None
        }
    } else {
        None
    }
}

/// The result of one case of a vector file: its operation is run on its input, which is null
/// where there is none. There is no result for a trace that is too long to be counted.
pub open spec fn listed_result(
    category: Seq<char>,
    case: Doc,
    to_evdev: Map<i64, i64>,
    to_cgkeycode: Map<i64, i64>,
) -> Option<Doc> {
    let input = match field(case, "input"@) {
        Some(d) => d,
        None => Doc::Null,
    };
    match field(case, "op"@) {
        Some(Doc::Text(op)) => if category == "reassembly"@ && !countable_trace(input) {
            None
        } else {
            case_result(category, op, input, to_evdev, to_cgkeycode)
        },
        _ => None,
    }
}

/// The results of a run of cases, in order; `None` where one has none.
pub open spec fn listed_results(
    category: Seq<char>,
    cases: Seq<Doc>,
    to_evdev: Map<i64, i64>,
    to_cgkeycode: Map<i64, i64>,
) -> Option<Seq<Doc>>
    decreases cases.len(),
{
    if cases.len() == 0 {
        Some(Seq::empty())
    } else {
        match (
            listed_results(category, cases.drop_last(), to_evdev, to_cgkeycode),
            listed_result(category, cases.last(), to_evdev, to_cgkeycode),
        ) {
            (Some(list), Some(d)) => Some(list.push(d)),
            _ => None,
        }
    }
}

/// The report on a vector file: `{"results": [..]}`, with one result for each of its `cases`.
/// There is none without an array of cases.
pub open spec fn file_report(
    category: Seq<char>,
    document: Doc,
    to_evdev: Map<i64, i64>,
    to_cgkeycode: Map<i64, i64>,
) -> Option<Doc> {
    match elements(field(document, "cases"@)) {
        Some(cases) => match listed_results(category, cases, to_evdev, to_cgkeycode) {
            Some(list) => Some(Doc::Object(seq![("results"@, Doc::Array(list))])),
            None => None,
        },
        None => None,
    }
}

/// One case without a result leaves none for the file.
proof fn lemma_no_result(
    category: Seq<char>,
    cases: Seq<Doc>,
    to_evdev: Map<i64, i64>,
    to_cgkeycode: Map<i64, i64>,
    k: int,
)
    requires
        0 <= k < cases.len(),
        listed_result(category, cases[k], to_evdev, to_cgkeycode) is None,
    ensures
        listed_results(category, cases, to_evdev, to_cgkeycode) is None,
    decreases cases.len(),
{
    if k < cases.len() - 1 {
        lemma_no_result(category, cases.drop_last(), to_evdev, to_cgkeycode, k);
    }
}

/// Run one case of a vector file.
fn run_listed(category: &str, case: &Json, tables: &Tables) -> (r: Option<Json>)
    ensures
        reports_doc(
            r,
            listed_result(
                category@,
                case@,
                tables.akeycode_to_evdev@,
                tables.evdev_to_cgkeycode@,
            ),
        ),
{
    let none: Json = Json::Null;
    let input: &Json = match get(case, "input") {
        Some(input) => input,
        None => &none,
    };
    let op: &String = match get(case, "op") {
        Some(Json::Text(op)) => op,
        _ => return None,
    };
    let kind: Vec<char> = chars_of(category);
    if same_text(&kind, "reassembly") {
        if let Some(Json::Array(a)) = get(input, "trace") {
            proof {
                lemma_view_docs(*a);
            }
            if a.len() as u64 > u64::MAX / 3 {
                return None;
            }
        }
    }
    run_case(category, op.as_str(), input, tables)
}

/// Run every case of a vector file. `None` where the file has no array of cases or a case has no
/// result.
pub fn run_cases(category: &str, document: &Json, tables: &Tables) -> (r: Option<Json>)
    ensures
        reports_doc(
            r,
            file_report(
                category@,
                document@,
                tables.akeycode_to_evdev@,
                tables.evdev_to_cgkeycode@,
            ),
        ),
{
    let cases: &Vec<Json> = match get(document, "cases") {
        Some(Json::Array(a)) => {
            proof {
                lemma_view_docs(*a);
            }
            a
        },
        _ => return None,
    };
    let ghost to_evdev = tables.akeycode_to_evdev@;
    let ghost to_cgkeycode = tables.evdev_to_cgkeycode@;
    let ghost all = docs(cases@);
    let mut results: Vec<Json> = Vec::new();
    let mut k: usize = 0;
    assert(all.take(0) =~= Seq::empty());
    assert(docs(results@) =~= Seq::empty());
    while k < cases.len()
        invariant
            k <= cases@.len(),
            all == docs(cases@),
            elements(field(document@, "cases"@)) == Some(all),
            to_evdev == tables.akeycode_to_evdev@,
            to_cgkeycode == tables.evdev_to_cgkeycode@,
            listed_results(category@, all.take(k as int), to_evdev, to_cgkeycode) == Some(
                docs(results@),
            ),
        decreases cases@.len() - k,
    {
        proof {
            assert(all.take(k + 1).drop_last() =~= all.take(k as int));
            assert(all.take(k + 1).last() == all[k as int]);
            assert(all[k as int] == cases@[k as int]@);
        }
        match run_listed(category, &cases[k], tables) {
            Some(result) => {
                let ghost before = docs(results@);
                results.push(result);
                assert(docs(results@) =~= before.push(result@));
            },
            None => {
                proof {
                    lemma_no_result(category@, all, to_evdev, to_cgkeycode, k as int);
                }
                return None;
            },
        }
        k += 1;
    }
    assert(all.take(k as int) =~= all);
    proof {
        lemma_view_docs(results);
    }
    let ghost list = docs(results@);
    let mut m: Vec<(String, Json)> = no_members();
    add_member(&mut m, "results", Json::Array(results));
    assert(members(m@) =~= seq![("results"@, Doc::Array(list))]);
    Some(object(m))
}

/// What one case encodes another can take in: the digits of an encoded control frame read back
/// as that frame.
pub proof fn encoded_frame_reads_back(d: Doc, t: u64, m: Seq<(Node, Node)>)
    requires
        uint(field(d, "msg_type"@)) == Some(t),
        field(d, "body"@) is Some,
        node_of(field(d, "body"@)->0) == Some(Node::Pairs(m)),
    ensures
        control_encoded(d) is Some,
        octets(field(control_encoded(d)->0, "hex"@)) == Some(frame(t, m)),
        control_decoded(control_encoded(d)->0) == control_report_of(frame_verdict(frame(t, m))),
{
    let text = Doc::Text(hex_text(frame(t, m)));
    let obj = Seq::<(Seq<char>, Doc)>::empty().push(("hex"@, text));
    assert(obj.last() == ("hex"@, text));
    crate::vectors::hex_round_trip(frame(t, m));
}

/// A valid datagram that one case encodes another decodes, to the same header and the length of
/// the payload.
pub proof fn encoded_datagram_decodes(d: Doc, h: DatagramHeader, payload: Seq<u8>)
    requires
        flag(field(d, "flags_keyframe"@)) == Some(h.keyframe),
        uint(field(d, "stream_id"@)) == Some(h.stream_id as u64),
        uint(field(d, "frame_seq"@)) == Some(h.frame_seq as u64),
        uint(field(d, "frag_index"@)) == Some(h.frag_index as u64),
        uint(field(d, "frag_count"@)) == Some(h.frag_count as u64),
        octets(field(d, "payload"@)) == Some(payload),
        h.frag_index < h.frag_count,
        h.last_fragment == (h.frag_index == h.frag_count - 1),
        h.stream_id == 0 || h.stream_id == 1,
        payload.len() <= datagram::MAX_PAYLOAD,
    ensures
        datagram_encoded(d) is Some,
        datagram_decoded(datagram_encoded(d)->0) == Some(
            datagram_report(
                Ok(DecodedDatagram { header: h, payload_len: payload.len() as usize }),
            ),
        ),
{
    let bytes = header_bytes(h) + payload;
    let text = Doc::Text(hex_text(bytes));
    let obj = Seq::<(Seq<char>, Doc)>::empty().push(("hex"@, text));
    assert(obj.last() == ("hex"@, text));
    crate::vectors::hex_round_trip(bytes);
    datagram::encode_decode(h, payload, Seq::empty());
}

} // verus!
