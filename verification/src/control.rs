//! Control-stream framing and messages.
//!
//! Each frame is a big-endian `u32` body length, at most 65536, followed by a
//! CBOR-encoded message. Every message is a two-element array `[msg_type, body]`
//! where `body` is a map with integer keys. On decode, unknown body keys are
//! stripped and unknown message types are ignored; envelope and framing violations
//! are protocol violations.

use vstd::prelude::*;
use crate::be::{be, be_round_trip, be_value, lemma_be_len, lemma_pow256_values, push_be, read_be};
use crate::cbor;
use crate::cbor::{
    Node, Value, arranged, encode, entries, lemma_settled_pairs, lemma_view_array,
    lemma_view_map, nodes, read_item, readable, reads_as, settled_entries, settled_node,
};
use crate::error::{Error, Result};

verus! {

broadcast use vstd::std_specs::vec::group_vec_axioms;

/// Maximum control frame body length.
pub const MAX_FRAME_BODY: usize = 65536;

/// HELLO: client to host, setup.
pub const HELLO: u64 = 0x01;

/// WELCOME: host to client, setup.
pub const WELCOME: u64 = 0x02;

/// CONFIG: host to client, setup or any.
pub const CONFIG: u64 = 0x03;

/// CONFIG_ACK: client to host, setup or any.
pub const CONFIG_ACK: u64 = 0x04;

/// START: host to client, setup.
pub const START: u64 = 0x05;

/// INPUT: client to host, streaming.
pub const INPUT: u64 = 0x10;

/// IDR_REQUEST: client to host, streaming.
pub const IDR_REQUEST: u64 = 0x20;

/// STATS: client to host, streaming.
pub const STATS: u64 = 0x21;

/// VIEWPORT: client to host, streaming; a best-effort resolution request.
pub const VIEWPORT: u64 = 0x22;

/// CLOCK_PING: client to host, any.
pub const CLOCK_PING: u64 = 0x30;

/// CLOCK_PONG: host to client, any.
pub const CLOCK_PONG: u64 = 0x31;

/// ERROR: either direction, any.
pub const ERROR: u64 = 0x40;

/// BYE: either direction, any.
pub const BYE: u64 = 0x41;

/// PAIR_A: client to host, pairing.
pub const PAIR_A: u64 = 0x50;

/// PAIR_B: host to client, pairing.
pub const PAIR_B: u64 = 0x51;

/// PAIR_C: client to host, pairing.
pub const PAIR_C: u64 = 0x52;

/// PAIR_RESULT: host to client, pairing.
pub const PAIR_RESULT: u64 = 0x53;

/// How many body keys a message type defines; they are `0, 1, ..`. `None` where the
/// type is unregistered.
pub open spec fn key_count(msg_type: u64) -> Option<nat> {
    if msg_type == HELLO {
        Some(6)
    } else if msg_type == WELCOME {
        Some(4)
    } else if msg_type == CONFIG {
        Some(7)
    } else if msg_type == CONFIG_ACK {
        Some(1)
    } else if msg_type == START {
        Some(0)
    } else if msg_type == INPUT {
        Some(1)
    } else if msg_type == IDR_REQUEST {
        Some(2)
    } else if msg_type == STATS {
        Some(8)
    } else if msg_type == VIEWPORT {
        Some(1)
    } else if msg_type == CLOCK_PING {
        Some(1)
    } else if msg_type == CLOCK_PONG {
        Some(3)
    } else if msg_type == ERROR {
        Some(2)
    } else if msg_type == BYE {
        Some(1)
    } else if msg_type == PAIR_A {
        Some(1)
    } else if msg_type == PAIR_B {
        Some(2)
    } else if msg_type == PAIR_C {
        Some(1)
    } else if msg_type == PAIR_RESULT {
        Some(2)
    } else {
        None
    }
}

/// The set of body-map keys defined for a message type, or `None` if the type is
/// unregistered (and hence ignored on receipt). Keys not in this set are dropped on
/// decode.
pub fn known_keys(msg_type: u64) -> (r: Option<&'static [i128]>)
    ensures
        match key_count(msg_type) {
            Some(n) => r is Some && r->0@ == Seq::new(n, |i: int| i as i128),
            None => r is None,
        },
{
    let keys: &'static [i128] = match msg_type {
        HELLO => &[0, 1, 2, 3, 4, 5],
        WELCOME => &[0, 1, 2, 3],
        CONFIG => &[0, 1, 2, 3, 4, 5, 6],
        CONFIG_ACK => &[0],
        START => &[],
        INPUT => &[0],
        IDR_REQUEST => &[0, 1],
        STATS => &[0, 1, 2, 3, 4, 5, 6, 7],
        VIEWPORT => &[0],
        CLOCK_PING => &[0],
        CLOCK_PONG => &[0, 1, 2],
        ERROR => &[0, 1],
        BYE => &[0],
        PAIR_A => &[0],
        PAIR_B => &[0, 1],
        PAIR_C => &[0],
        PAIR_RESULT => &[0, 1],
        _ => return None,
    };
    assert(keys@ =~= Seq::new(key_count(msg_type)->0, |i: int| i as i128));
    Some(keys)
}

/// The outcome of decoding one control frame.
#[derive(Debug, PartialEq)]
pub enum Decoded {
    /// A registered message; `body` has unknown keys stripped.
    Message {
        /// The message type.
        msg_type: u64,
        /// The filtered body entries.
        body: Vec<(Value, Value)>,
    },
    /// A well-formed frame carrying an unregistered message type, to be ignored.
    Ignored,
}

/// The envelope of a message.
pub open spec fn envelope(msg_type: u64, body: Seq<(Node, Node)>) -> Node {
    Node::Array(seq![Node::Int(msg_type as int), Node::Pairs(body)])
}

/// The control frame of a message: the length of its envelope's canonical encoding in
/// four bytes, and the encoding.
pub open spec fn frame(msg_type: u64, body: Seq<(Node, Node)>) -> Seq<u8> {
    let cbor = encode(envelope(msg_type, body));
    be(cbor.len(), 4) + cbor
}

/// The body of a frame at the front of `bytes`: what the length field announces, if it
/// is within the limit and all there.
pub open spec fn frame_body(bytes: Seq<u8>) -> Option<Seq<u8>> {
    let len = be_value(bytes.subrange(0, 4)) as int;
    if bytes.len() < 4 || len > MAX_FRAME_BODY || bytes.len() < 4 + len {
        None
    } else {
        Some(bytes.subrange(4, 4 + len))
    }
}

/// The message type and body map of a well-formed envelope.
pub open spec fn opened(n: Node) -> Option<(u64, Seq<(Node, Node)>)> {
    match n {
        Node::Array(a) => if a.len() == 2 {
            match (a[0], a[1]) {
                (Node::Int(t), Node::Pairs(m)) => if t >= 0 {
                    Some(((t % cbor::two64()) as u64, m))
                } else {
                    None
                },
                _ => None,
            }
        } else {
            None
        },
        _ => None,
    }
}

/// The test for a key among the first `n` integers.
pub open spec fn key_within(n: nat) -> spec_fn((Node, Node)) -> bool {
    |e: (Node, Node)| e.0 is Int && 0 <= e.0->Int_0 < n
}

/// What a message tree decodes to: an envelope that is no envelope is a violation, an
/// unregistered type is ignored, and of a registered type the entries under known keys
/// are kept, in order.
pub open spec fn decodes_to(n: Node, r: Result<Decoded>) -> bool {
    match opened(n) {
        None => r is Err && r->Err_0 == Error::ProtocolViolation,
        Some((t, m)) => match key_count(t) {
            None => r is Ok && r->Ok_0 is Ignored,
            Some(count) => {
                &&& r is Ok
                &&& r->Ok_0 is Message
                &&& r->Ok_0->msg_type == t
                &&& entries(r->Ok_0->body@) == m.filter(key_within(count))
            },
        },
    }
}

/// A copy of a run of entries.
pub fn clone_entries(body: &[(Value, Value)]) -> (r: Vec<(Value, Value)>)
    ensures
        entries(r@) == entries(body@),
{
    let mut copy: Vec<(Value, Value)> = Vec::new();
    let mut k: usize = 0;
    while k < body.len()
        invariant
            k <= body@.len(),
            copy@.len() == k,
            entries(copy@) == entries(body@).take(k as int),
        decreases body@.len() - k,
    {
        copy.push((body[k].0.clone(), body[k].1.clone()));
        assert(entries(copy@) =~= entries(body@).take(k + 1));
        k += 1;
    }
    assert(entries(copy@) =~= entries(body@));
    copy
}

/// Two outcomes that say the same.
pub open spec fn same_decoded(a: Decoded, b: Decoded) -> bool {
    match (a, b) {
        (
            Decoded::Message { msg_type: s, body: x },
            Decoded::Message { msg_type: t, body: y },
        ) => s == t && entries(x@) == entries(y@),
        (Decoded::Ignored, Decoded::Ignored) => true,
        _ => false,
    }
}

impl Clone for Decoded {
    fn clone(&self) -> (r: Self)
        ensures
            same_decoded(r, *self),
    {
        match self {
            Decoded::Message { msg_type, body } => Decoded::Message {
                msg_type: *msg_type,
                body: clone_entries(body.as_slice()),
            },
            Decoded::Ignored => Decoded::Ignored,
        }
    }
}

/// Encode a control frame: canonical CBOR `[msg_type, body]` behind its big-endian
/// `u32` length.
pub fn encode_frame(msg_type: u64, body: &[(Value, Value)]) -> (r: Vec<u8>)
    ensures
        r@ == frame(msg_type, entries(body@)),
{
    let pairs: Vec<(Value, Value)> = clone_entries(body);
    proof {
        lemma_view_map(pairs);
    }
    let mut items: Vec<Value> = Vec::new();
    items.push(Value::Int(msg_type as i128));
    items.push(Value::Pairs(pairs));
    proof {
        lemma_view_array(items);
        assert(nodes(items@) =~= seq![
            Node::Int(msg_type as int),
            Node::Pairs(entries(body@)),
        ]);
    }
    let cbor: Vec<u8> = Value::Array(items).to_canonical();
    let mut out: Vec<u8> = Vec::new();
    push_be(&mut out, cbor.len() as u64, 4);
    out.extend_from_slice(cbor.as_slice());
    assert(out@ =~= frame(msg_type, entries(body@)));
    out
}

/// Read a decoded CBOR value as a message.
pub fn decode_envelope(value: &Value) -> (r: Result<Decoded>)
    ensures
        decodes_to(value@, r),
{
    let items: &[Value] = match value.as_array() {
        Some(items) => items,
        None => return Err(Error::ProtocolViolation),
    };
    if items.len() != 2 {
        return Err(Error::ProtocolViolation);
    }
    let ghost a = value@->Array_0;
    assert(a[0] == items@[0]@ && a[1] == items@[1]@);
    let msg_type: u64 = match items[0].as_int() {
        Some(i) => if i >= 0 {
            (i as u128 % 0x1_0000_0000_0000_0000) as u64
        } else {
            return Err(Error::ProtocolViolation);
        },
        None => return Err(Error::ProtocolViolation),
    };
    let map: &[(Value, Value)] = match items[1].as_map() {
        Some(map) => map,
        None => return Err(Error::ProtocolViolation),
    };
    let allowed: &[i128] = match known_keys(msg_type) {
        Some(keys) => keys,
        None => return Ok(Decoded::Ignored),
    };
    let ghost count = key_count(msg_type)->0;
    let ghost all = entries(map@);
    let mut body: Vec<(Value, Value)> = Vec::new();
    let mut k: usize = 0;
    assert(all.take(0).filter(key_within(count)) =~= Seq::empty()) by {
        reveal(Seq::filter);
    }
    while k < map.len()
        invariant
            k <= map@.len(),
            all == entries(map@),
            allowed@ == Seq::new(count, |i: int| i as i128),
            count <= 8,
            entries(body@) == all.take(k as int).filter(key_within(count)),
        decreases map@.len() - k,
    {
        let ghost e = all[k as int];
        proof {
            reveal(Seq::filter);
            assert(all.take(k + 1).drop_last() =~= all.take(k as int));
            assert(all.take(k + 1).last() == e);
        }
        match map[k].0.as_int() {
            Some(key) => {
                if contains_key(allowed, key) {
                    assert(key_within(count)(e)) by {
                        let i = choose|i: int| 0 <= i < allowed@.len() && allowed@[i] == key;
                        assert(key == i);
                    }
                    let ghost before = entries(body@);
                    body.push((map[k].0.clone(), map[k].1.clone()));
                    assert(entries(body@) =~= before.push(e));
                } else {
                    assert(!key_within(count)(e)) by {
                        if 0 <= key < count {
                            assert(allowed@[key as int] == key);
                        }
                    }
                }
            },
            None => {},
        }
        k += 1;
    }
    assert(all.take(k as int) =~= all);
    Ok(Decoded::Message { msg_type, body })
}

/// Whether `key` is among `keys`.
fn contains_key(keys: &[i128], key: i128) -> (r: bool)
    ensures
        r == exists|i: int| 0 <= i < keys@.len() && keys@[i] == key,
{
    let mut k: usize = 0;
    while k < keys.len()
        invariant
            k <= keys@.len(),
            forall|i: int| 0 <= i < k ==> keys@[i] != key,
        decreases keys@.len() - k,
    {
        if keys[k] == key {
            return true;
        }
        k += 1;
    }
    false
}

/// The envelope of a message survives canonical arrangement: the type stays, and the
/// body's entries come in canonical order.
pub proof fn envelope_arranged(msg_type: u64, body: Seq<(Node, Node)>)
    ensures
        opened(arranged(envelope(msg_type, body))) == Some(
            (msg_type, arranged(Node::Pairs(body))->Pairs_0),
        ),
{
    reveal_with_fuel(arranged, 2);
    let a = arranged(envelope(msg_type, body))->Array_0;
    assert(a[0] == Node::Int(msg_type as int));
    assert(a[1] == arranged(Node::Pairs(body)));
}

/// A message that a reader gets back whole: its type is registered, its tree is readable, and it
/// has entries under known keys alone.
pub open spec fn intact(msg_type: u64, body: Seq<(Node, Node)>) -> bool {
    &&& key_count(msg_type) is Some
    &&& readable(envelope(msg_type, body), 256)
    &&& forall|i: int|
        0 <= i < body.len() ==> key_within(key_count(msg_type)->0)(#[trigger] body[i])
}

/// Decoding loses nothing of an intact message: its type comes back, and every entry of its
/// body, in canonical order.
pub proof fn intact_reads_back(msg_type: u64, body: Seq<(Node, Node)>, r: Result<Decoded>)
    requires
        intact(msg_type, body),
        decodes_to(arranged(envelope(msg_type, body)), r),
    ensures
        r is Ok,
        r->Ok_0 is Message,
        r->Ok_0->msg_type == msg_type,
        entries(r->Ok_0->body@) == arranged(Node::Pairs(body))->Pairs_0,
{
    let keep = key_within(key_count(msg_type)->0);
    let m = arranged(Node::Pairs(body))->Pairs_0;
    envelope_arranged(msg_type, body);
    let keyed = cbor::keyed_entries(body);
    let known = |e: (Seq<u8>, (Node, Node))| keep(e.1);
    assert forall|i: int| 0 <= i < keyed.len() implies known(#[trigger] keyed[i]) by {
        assert(keep(body[i]));
    }
    crate::order::lemma_stable_sort_all(keyed, known);
    let sorted = crate::order::stable_sort(keyed);
    assert forall|i: int| 0 <= i < m.len() implies keep(#[trigger] m[i]) by {
        assert(known(sorted[i]));
    }
    lemma_filter_all(m, keep);
}

proof fn lemma_filter_all(m: Seq<(Node, Node)>, keep: spec_fn((Node, Node)) -> bool)
    requires
        forall|i: int| 0 <= i < m.len() ==> keep(#[trigger] m[i]),
    ensures
        m.filter(keep) == m,
    decreases m.len(),
{
    reveal(Seq::filter);
    if m.len() > 0 {
        let t = m.drop_last();
        assert(forall|i: int| 0 <= i < t.len() ==> #[trigger] t[i] == m[i]);
        lemma_filter_all(t, keep);
        assert(keep(m[m.len() - 1]));
        assert(m =~= t.push(m.last()));
    } else {
        assert(m.filter(keep) =~= m);
    }
}

/// What the bytes of a frame decode to: what is no frame, or holds no readable item, is a
/// violation, and otherwise it is what the tree read from its body decodes to.
pub open spec fn frame_decodes_to(bytes: Seq<u8>, r: Result<Decoded>) -> bool {
    match frame_body(bytes) {
        None => r is Err && r->Err_0 == Error::ProtocolViolation,
        Some(body) => match read_item(body) {
            None => r is Err && r->Err_0 == Error::ProtocolViolation,
            Some(_) => exists|n: Node| #[trigger] reads_as(body, n) && decodes_to(n, r),
        },
    }
}

/// Settling a tree leaves its envelope what it is, and settles the body.
pub proof fn lemma_opened_settled(n: Node)
    ensures
        opened(settled_node(n)) == (match opened(n) {
            Some((t, m)) => Some((t, settled_entries(m))),
            None => None,
        }),
{
    if n is Array {
        let a = n->Array_0;
        let b = settled_node(n)->Array_0;
        if a.len() == 2 {
            assert(b[0] == settled_node(a[0]) && b[1] == settled_node(a[1]));
            if a[1] is Pairs {
                lemma_settled_pairs(a[1]->Pairs_0);
            }
        }
    }
}

/// Settling changes no key that is known.
pub proof fn lemma_filter_settled(m: Seq<(Node, Node)>, count: nat)
    ensures
        settled_entries(m).filter(key_within(count)) == settled_entries(
            m.filter(key_within(count)),
        ),
    decreases m.len(),
{
    reveal(Seq::filter);
    let keep = key_within(count);
    if m.len() == 0 {
        assert(settled_entries(m).filter(keep) =~= settled_entries(m.filter(keep)));
    } else {
        let t = m.drop_last();
        lemma_filter_settled(t, count);
        assert(settled_entries(m).drop_last() =~= settled_entries(t));
        let e = settled_entries(m).last();
        assert(e == (settled_node(m.last().0), settled_node(m.last().1)));
        assert(keep(e) == keep(m.last()));
        assert(settled_entries(m).filter(keep) =~= settled_entries(m.filter(keep)));
    }
}

/// A frame within the limit announces its envelope, whatever stands behind it.
pub proof fn frame_announces_envelope(msg_type: u64, body: Seq<(Node, Node)>, tail: Seq<u8>)
    requires
        encode(envelope(msg_type, body)).len() <= MAX_FRAME_BODY,
    ensures
        frame_body(frame(msg_type, body) + tail) == Some(encode(envelope(msg_type, body))),
{
    let cbor = encode(envelope(msg_type, body));
    let bytes = frame(msg_type, body) + tail;
    lemma_be_len(cbor.len(), 4);
    lemma_pow256_values();
    be_round_trip(cbor.len(), 4);
    assert(bytes.subrange(0, 4) =~= be(cbor.len(), 4));
    vstd::arithmetic::div_mod::lemma_small_mod(cbor.len(), crate::be::pow256(4));
    assert(bytes.subrange(4, 4 + cbor.len() as int) =~= cbor);
}

/// A frame with any bytes behind it decodes as the frame alone.
pub proof fn tail_is_ignored(
    msg_type: u64,
    body: Seq<(Node, Node)>,
    tail: Seq<u8>,
    r: Result<Decoded>,
)
    requires
        encode(envelope(msg_type, body)).len() <= MAX_FRAME_BODY,
    ensures
        frame_decodes_to(frame(msg_type, body) + tail, r) == frame_decodes_to(
            frame(msg_type, body),
            r,
        ),
{
    let alone = frame(msg_type, body);
    frame_announces_envelope(msg_type, body, tail);
    frame_announces_envelope(msg_type, body, Seq::empty());
    assert(alone + Seq::<u8>::empty() =~= alone);
}

/// Every proper prefix of a frame is a violation.
pub proof fn cut_frame_is_violation(
    msg_type: u64,
    body: Seq<(Node, Node)>,
    k: int,
    r: Result<Decoded>,
)
    requires
        encode(envelope(msg_type, body)).len() <= MAX_FRAME_BODY,
        0 <= k < frame(msg_type, body).len(),
        frame_decodes_to(frame(msg_type, body).take(k), r),
    ensures
        r is Err,
        r->Err_0 == Error::ProtocolViolation,
{
    let whole = frame(msg_type, body);
    frame_announces_envelope(msg_type, body, Seq::empty());
    assert(whole + Seq::<u8>::empty() =~= whole);
    lemma_be_len(encode(envelope(msg_type, body)).len(), 4);
    if k >= 4 {
        assert(whole.take(k).subrange(0, 4) =~= whole.subrange(0, 4));
    }
}

/// The entries of a body, with the maps inside them in canonical order.
pub open spec fn tidied(body: Seq<(Node, Node)>) -> Seq<(Node, Node)> {
    body.map_values(|e: (Node, Node)| (arranged(e.0), arranged(e.1)))
}

/// What comes back of a message: nothing where its type is not registered, and otherwise exactly
/// the entries under known keys, each as often as it was there. Entries without maps out of
/// order inside them come back unchanged.
pub proof fn known_entries_come_back(msg_type: u64, body: Seq<(Node, Node)>, r: Result<Decoded>)
    requires
        decodes_to(arranged(envelope(msg_type, body)), r),
    ensures
        r is Ok,
        match key_count(msg_type) {
            None => r->Ok_0 is Ignored,
            Some(count) => {
                &&& r->Ok_0 is Message
                &&& r->Ok_0->msg_type == msg_type
                &&& entries(r->Ok_0->body@).to_multiset() == tidied(body).filter(
                    key_within(count),
                ).to_multiset()
            },
        },
        (forall|i: int|
            0 <= i < body.len() ==> arranged((#[trigger] body[i]).0) == body[i].0 && arranged(
                body[i].1,
            ) == body[i].1) ==> tidied(body) == body,
{
    envelope_arranged(msg_type, body);
    let keyed = cbor::keyed_entries(body);
    let entry = |e: (Seq<u8>, (Node, Node))| e.1;
    crate::order::stable_sort_permutes(keyed);
    crate::order::lemma_map_same_elements(crate::order::stable_sort(keyed), keyed, entry);
    assert(keyed.map_values(entry) =~= tidied(body));
    if key_count(msg_type) is Some {
        let keep = key_within(key_count(msg_type)->0);
        let m = arranged(Node::Pairs(body))->Pairs_0;
        assert(m =~= crate::order::stable_sort(keyed).map_values(entry));
        lemma_filter_multiset(m, keep);
        lemma_filter_multiset(tidied(body), keep);
    }
    if forall|i: int|
        0 <= i < body.len() ==> arranged((#[trigger] body[i]).0) == body[i].0 && arranged(
            body[i].1,
        ) == body[i].1 {
        assert(tidied(body) =~= body);
    }
}

/// Filtering a sequence filters what it holds.
proof fn lemma_filter_multiset(m: Seq<(Node, Node)>, keep: spec_fn((Node, Node)) -> bool)
    ensures
        m.filter(keep).to_multiset() == m.to_multiset().filter(keep),
    decreases m.len(),
{
    broadcast use vstd::multiset::group_multiset_axioms;
    broadcast use vstd::seq_lib::group_to_multiset_ensures;

    reveal(Seq::filter);
    if m.len() == 0 {
        assert(m.filter(keep) =~= Seq::empty());
        assert(m =~= Seq::empty());
        assert(m.to_multiset().filter(keep) =~= vstd::multiset::Multiset::empty());
    } else {
        let t = m.drop_last();
        lemma_filter_multiset(t, keep);
        assert(m =~= t.push(m.last()));
        assert(m.to_multiset() =~= t.to_multiset().insert(m.last()));
        assert(m.filter(keep).to_multiset() =~= m.to_multiset().filter(keep));
    }
}

/// The frame of a message at the front of `bytes` is what they announce.
proof fn lemma_prefix_announces(bytes: Seq<u8>, t: u64, m: Seq<(Node, Node)>)
    requires
        frame(t, m).is_prefix_of(bytes),
        encode(envelope(t, m)).len() <= MAX_FRAME_BODY,
    ensures
        frame_body(bytes) == Some(encode(envelope(t, m))),
{
    let n = frame(t, m).len() as int;
    frame_announces_envelope(t, m, bytes.skip(n));
    assert(bytes =~= frame(t, m) + bytes.skip(n));
}

/// The announced body of the frame at the front of `bytes`.
fn announced_body(bytes: &[u8]) -> (r: Option<&[u8]>)
    ensures
        match frame_body(bytes@) {
            Some(body) => r is Some && r->0@ == body,
            None => r is None,
        },
{
    if bytes.len() < 4 {
        return None;
    }
    let len: u64 = read_be(bytes, 0, 4);
    // The length field alone suffices to reject an over-limit frame.
    if len > 65536 {
        return None;
    }
    let len: usize = len as usize;
    if bytes.len() - 4 < len {
        return None;
    }
    Some(vstd::slice::slice_subrange(bytes, 4, 4 + len))
}

/// Decode the body of a control frame.
fn decode_body(body: &[u8]) -> (r: Result<Decoded>)
    ensures
        match read_item(body@) {
            None => r is Err && r->Err_0 == Error::ProtocolViolation,
            Some(_) => exists|n: Node| #[trigger] reads_as(body@, n) && decodes_to(n, r),
        },
        forall|n: Node|
            readable(n, 256) && body@ == #[trigger] encode(n) ==> decodes_to(arranged(n), r),
{
    match cbor::decode(body) {
        Ok(value) => {
            assert(reads_as(body@, value@));
            decode_envelope(&value)
        },
        Err(_) => Err(Error::ProtocolViolation),
    }
}

/// Decode one length-prefixed control frame, or report any framing or envelope
/// violation. What stands behind the frame is left alone.
///
/// A frame that [`encode_frame`] made from a readable message within the length limit
/// decodes to that message: its type, and of its body the entries under known keys, in
/// canonical order.
pub fn decode_frame(bytes: &[u8]) -> (r: Result<Decoded>)
    ensures
        frame_decodes_to(bytes@, r),
        forall|t: u64, m: Seq<(Node, Node)>|
            (#[trigger] frame(t, m)).is_prefix_of(bytes@) && readable(envelope(t, m), 256)
                && encode(envelope(t, m)).len() <= MAX_FRAME_BODY ==> decodes_to(
                arranged(envelope(t, m)),
                r,
            ),
{
    let r: Result<Decoded> = match announced_body(bytes) {
        Some(body) => decode_body(body),
        None => Err(Error::ProtocolViolation),
    };
    proof {
        assert forall|t: u64, m: Seq<(Node, Node)>|
            (#[trigger] frame(t, m)).is_prefix_of(bytes@) && readable(envelope(t, m), 256)
                && encode(envelope(t, m)).len() <= MAX_FRAME_BODY implies decodes_to(
            arranged(envelope(t, m)),
            r,
        ) by {
            lemma_prefix_announces(bytes@, t, m);
        }
    }
    r
}

} // verus!
