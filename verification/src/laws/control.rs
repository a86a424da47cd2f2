//! What survives the way from a sender of control messages to their reader.

use vstd::prelude::*;
use crate::cbor::{Node, arranged, encode, entries, readable};
use crate::control::{
    Decoded, decodes_to, envelope, frame, intact, intact_reads_back, key_count,
    key_within, known_entries_come_back, opened, tidied,
};
use crate::error::Result;
use crate::laws::session::pair;
use crate::session::{Session, elem_under, float_under, handled, int_under, lists_codec, offers};

verus! {

/// The registry: which message numbers there are, and that each knows the keys from 0 up to a
/// number of its own. Every other number is unregistered.
pub proof fn registry(t: u64)
    ensures
        t == 0x01 ==> key_count(t) == Some(6nat),
        t == 0x02 ==> key_count(t) == Some(4nat),
        t == 0x03 ==> key_count(t) == Some(7nat),
        t == 0x05 ==> key_count(t) == Some(0nat),
        t == 0x04 || t == 0x10 || t == 0x22 || t == 0x30 || t == 0x41 || t == 0x50 || t == 0x52
            ==> key_count(t) == Some(1nat),
        t == 0x20 || t == 0x40 || t == 0x51 || t == 0x53 ==> key_count(t) == Some(2nat),
        t == 0x31 ==> key_count(t) == Some(3nat),
        t == 0x21 ==> key_count(t) == Some(8nat),
        !(0x01 <= t <= 0x05 || t == 0x10 || 0x20 <= t <= 0x22 || t == 0x30 || t == 0x31 || t == 0x40
            || t == 0x41 || 0x50 <= t <= 0x53) ==> key_count(t) is None,
{
}

/// Every key of the body is one of the integers below `n`.
pub open spec fn keys_below(body: Seq<(Node, Node)>, n: int) -> bool {
    forall|i: int|
        0 <= i < body.len() ==> (#[trigger] body[i]).0 is Int && 0 <= body[i].0->Int_0 < n
}

/// What a client sends comes back whole at the host: of HELLO the keys 0 to 5, of CONFIG_ACK,
/// INPUT, VIEWPORT, CLOCK_PING and BYE key 0, of IDR_REQUEST keys 0 and 1, of STATS keys 0 to 7.
/// Every entry of the body is there, as often as it was sent, and no other.
pub proof fn client_message_comes_back(t: u64, body: Seq<(Node, Node)>, r: Result<Decoded>)
    requires
        t == 0x01 && keys_below(body, 6) || (t == 0x04 || t == 0x10 || t == 0x22 || t == 0x30 || t
            == 0x41) && keys_below(body, 1) || t == 0x20 && keys_below(body, 2) || t == 0x21
            && keys_below(body, 8),
        readable(envelope(t, body), 256),
        decodes_to(arranged(envelope(t, body)), r),
    ensures
        r is Ok,
        r->Ok_0 is Message,
        r->Ok_0->msg_type == t,
        entries(r->Ok_0->body@).to_multiset() == tidied(body).to_multiset(),
{
    known_entries_come_back(t, body, r);
    let keep = key_within(key_count(t)->0);
    let m = tidied(body);
    assert forall|i: int| 0 <= i < m.len() implies keep(#[trigger] m[i]) by {
        assert(body[i].0 is Int);
        assert(arranged(body[i].0) == body[i].0);
    }
    lemma_filter_keeps(m, keep);
}

/// What a host sends comes back whole at the client, too: of WELCOME the keys 0 to 3, of CONFIG
/// 0 to 6, of CLOCK_PONG 0 to 2, of ERROR 0 and 1; START has none.
pub proof fn host_message_comes_back(t: u64, body: Seq<(Node, Node)>, r: Result<Decoded>)
    requires
        t == 0x02 && keys_below(body, 4) || t == 0x03 && keys_below(body, 7) || t == 0x05
            && body.len() == 0 || t == 0x31 && keys_below(body, 3) || t == 0x40 && keys_below(
            body,
            2,
        ),
        readable(envelope(t, body), 256),
        decodes_to(arranged(envelope(t, body)), r),
    ensures
        r is Ok,
        r->Ok_0 is Message,
        r->Ok_0->msg_type == t,
        entries(r->Ok_0->body@).to_multiset() == tidied(body).to_multiset(),
{
    known_entries_come_back(t, body, r);
    let keep = key_within(key_count(t)->0);
    let m = tidied(body);
    assert forall|i: int| 0 <= i < m.len() implies keep(#[trigger] m[i]) by {
        assert(body[i].0 is Int);
        assert(arranged(body[i].0) == body[i].0);
    }
    lemma_filter_keeps(m, keep);
}

proof fn lemma_filter_keeps(m: Seq<(Node, Node)>, keep: spec_fn((Node, Node)) -> bool)
    requires
        forall|i: int| 0 <= i < m.len() ==> keep(#[trigger] m[i]),
    ensures
        m.filter(keep) == m,
    decreases m.len(),
{
    reveal(Seq::filter);
    if m.len() > 0 {
        let t = m.drop_last();
        assert(forall|i: int| 0 <= i < t.len() ==> #[trigger] t[i] == m[i]);
        lemma_filter_keeps(t, keep);
        assert(keep(m[m.len() - 1]));
        assert(m =~= t.push(m.last()));
    } else {
        assert(m.filter(keep) =~= m);
    }
}

/// The size of a VIEWPORT arrives: its frame decodes to a body that names the two numbers.
pub proof fn viewport_arrives(w: u64, h: u64, r: Result<Decoded>)
    requires
        ({
            let body = seq![(Node::Int(0), pair(w as int, h as int))];
            decodes_to(arranged(envelope(0x22, body)), r)
        }),
    ensures
        r is Ok,
        r->Ok_0 is Message,
        r->Ok_0->msg_type == 0x22,
        entries(r->Ok_0->body@) == seq![(Node::Int(0), pair(w as int, h as int))],
        elem_under(entries(r->Ok_0->body@), 0, 0) == Some(w as int),
        elem_under(entries(r->Ok_0->body@), 0, 1) == Some(h as int),
{
    let body = seq![(Node::Int(0), pair(w as int, h as int))];
    let size = seq![Node::Int(w as int), Node::Int(h as int)];
    assert forall|k: int| 0 <= k < size.len() implies readable(#[trigger] size[k], 253) by {
        assert(size[k] == Node::Int(w as int) || size[k] == Node::Int(h as int));
    }
    assert(readable(pair(w as int, h as int), 254));
    crate::session::lemma_body_readable(body);
    assert(intact(0x22, body));
    intact_reads_back(0x22, body, r);
    reveal_with_fuel(arranged, 2);
    let keyed = crate::cbor::keyed_entries(body);
    assert(arranged(Node::Int(0)) == Node::Int(0));
    let a = arranged(pair(w as int, h as int))->Array_0;
    assert(a[0] == arranged(size[0]) && a[1] == arranged(size[1]));
    assert(a =~= size);
    assert(keyed =~= seq![(encode(Node::Int(0)), body[0])]);
    reveal_with_fuel(crate::order::stable_sort, 2);
    reveal_with_fuel(crate::order::place, 2);
    assert(keyed.drop_last() =~= Seq::empty());
    assert(crate::order::stable_sort(keyed) =~= keyed);
    let got = entries(r->Ok_0->body@);
    assert(got =~= body);
    assert(got.first() == body[0]);
}

/// Decoding strips nothing that the session reads: a message does the same with and without the
/// entries under unknown keys.
pub proof fn stripping_changes_nothing(m: Session, t: u64, body: Seq<(Node, Node)>)
    requires
        key_count(t) is Some,
    ensures
        handled(m, t, body.filter(key_within(key_count(t)->0))) == handled(m, t, body),
{
    let n = key_count(t)->0;
    assert forall|key: int, idx: int|
        #![trigger elem_under(body, key, idx)]
        0 <= key < n implies elem_under(body.filter(key_within(n)), key, idx) == elem_under(
        body,
        key,
        idx,
    ) by {
        lemma_lookup_stripped(body, n, key, idx);
    }
    assert forall|key: int|
        #![trigger int_under(body, key)]
        0 <= key < n implies int_under(body.filter(key_within(n)), key) == int_under(
        body,
        key,
    ) by {
        lemma_lookup_stripped(body, n, key, 0);
    }
    assert forall|key: int|
        #![trigger float_under(body, key)]
        0 <= key < n implies float_under(body.filter(key_within(n)), key) == float_under(
        body,
        key,
    ) by {
        lemma_lookup_stripped(body, n, key, 0);
    }
    if n > 2 {
        lemma_offers_stripped(body, n);
    }
}

proof fn lemma_lookup_stripped(body: Seq<(Node, Node)>, n: nat, key: int, idx: int)
    requires
        0 <= key < n,
    ensures
        int_under(body.filter(key_within(n)), key) == int_under(body, key),
        float_under(body.filter(key_within(n)), key) == float_under(body, key),
        elem_under(body.filter(key_within(n)), key, idx) == elem_under(body, key, idx),
    decreases body.len(),
{
    let keep = key_within(n);
    reveal_with_fuel(Seq::filter, 2);
    if body.len() == 0 {
        assert(body.filter(keep) =~= body);
    } else {
        let rest = body.drop_first();
        let one = seq![body[0]];
        lemma_lookup_stripped(rest, n, key, idx);
        assert(body =~= one + rest);
        Seq::filter_distributes_over_add(one, rest, keep);
        assert(one.drop_last() =~= Seq::empty());
        let f = body.filter(keep);
        if keep(body[0]) {
            assert(one.filter(keep) =~= one);
            assert(f =~= one + rest.filter(keep));
            assert(f.first() == body[0]);
            assert(f.drop_first() =~= rest.filter(keep));
        } else {
            assert(one.filter(keep) =~= Seq::empty());
            assert(f =~= rest.filter(keep));
            assert(body[0].0 != Node::Int(key));
        }
    }
}

proof fn lemma_offers_stripped(body: Seq<(Node, Node)>, n: nat)
    requires
        n > 2,
    ensures
        offers(body.filter(key_within(n)), 1) == offers(body, 1),
{
    let keep = key_within(n);
    let f = body.filter(keep);
    if offers(body, 1) {
        let i = choose|i: int| 0 <= i < body.len() && lists_codec(#[trigger] body[i], 1);
        body.lemma_filter_contains(keep, i);
        assert(f.contains(body[i]));
        let k = choose|k: int| 0 <= k < f.len() && f[k] == body[i];
        assert(lists_codec(f[k], 1));
    }
    if offers(f, 1) {
        let k = choose|k: int| 0 <= k < f.len() && lists_codec(#[trigger] f[k], 1);
        assert(f.contains(f[k]));
        body.lemma_filter_contains_rev(keep, f[k]);
        let i = choose|i: int| 0 <= i < body.len() && body[i] == f[k];
        assert(lists_codec(body[i], 1));
    }
}

/// A frame is four bytes that say, most significant first, how many follow; and these encode an
/// array of two, the number and the body.
pub proof fn frame_says_its_length(t: u64, body: Seq<(Node, Node)>)
    requires
        encode(envelope(t, body)).len() <= 65536,
    ensures
        ({
            let f = frame(t, body);
            &&& f.len() >= 4
            &&& f[0] * 0x100_0000 + f[1] * 0x1_0000 + f[2] * 0x100 + f[3] == f.len() - 4
            &&& f.skip(4) == encode(Node::Array(seq![Node::Int(t as int), Node::Pairs(body)]))
        }),
{
    let cbor = encode(envelope(t, body));
    let n = cbor.len();
    crate::be::lemma_be_len(n, 4);
    reveal_with_fuel(crate::be::be, 5);
    assert(n / 256 / 256 == n / 0x1_0000);
    assert(n / 256 / 256 / 256 == n / 0x100_0000);
    assert(frame(t, body).skip(4) =~= cbor);
}

/// The test for a key that is known: one of the integers from 0 up to, but without, `count`.
pub open spec fn known_below(count: int) -> spec_fn((Node, Node)) -> bool {
    |e: (Node, Node)| e.0 is Int && 0 <= e.0->Int_0 && e.0->Int_0 < count
}

/// Of a message with a registered type exactly the entries under known keys are kept, in their
/// order: what stands under a text, a negative number or one that is too great is left out.
pub proof fn known_entries_are_kept(
    t: u64,
    m: Seq<(Node, Node)>,
    count: nat,
    r: Result<Decoded>,
)
    requires
        key_count(t) == Some(count),
        decodes_to(Node::Array(seq![Node::Int(t as int), Node::Pairs(m)]), r),
    ensures
        r is Ok,
        r->Ok_0 is Message,
        r->Ok_0->msg_type == t,
        entries(r->Ok_0->body@) == m.filter(known_below(count as int)),
{
    vstd::arithmetic::div_mod::lemma_small_mod(t as nat, 0x1_0000_0000_0000_0000);
    assert(key_within(count) =~= known_below(count as int));
}

/// What an envelope is: an array of two, of which the first is a number that is not negative and
/// the second a map. The message type is that number, in 64 bits.
pub proof fn envelope_is_a_pair(n: Node)
    ensures
        opened(n) is Some <==> n is Array && n->Array_0.len() == 2 && n->Array_0[0] is Int
            && n->Array_0[0]->Int_0 >= 0 && n->Array_0[1] is Pairs,
        opened(n) is Some && n->Array_0[0]->Int_0 <= u64::MAX ==> opened(n) == Some(
            (n->Array_0[0]->Int_0 as u64, n->Array_0[1]->Pairs_0),
        ),
{
}

} // verus!
