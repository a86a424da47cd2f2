//! What JSON documents stand for, and what the cases of a vector file report.

use vstd::prelude::*;
use crate::cases::{
    arrival, arrivals, case_result, control_encoded, control_report_of, datagram_decoded,
    datagram_encoded, elements, estimate_doc, event_doc, exchange, exchanges,
    field, file_report, flag, last_named, listed_result, listed_results, lookup_result, octets,
    series_result, sint, trace_result, uint, Verdict, frame_verdict,
};
use crate::cbor::Node;
use crate::clocksync::{best, recent, samples};
use crate::control::frame;
use crate::datagram::{DropReason, header_bytes, reason_name, verdict};
use crate::laws::datagram::{header_layout, u16_at, u32_at};
use crate::reassembly::{Event, played};
use crate::text::signed_decimal;
use crate::vectors::{
    Doc, doc_of, hex_bytes, hex_round_trip, hex_text, int_doc, key_node, members_of,
    node_of, pairs_of,
};

verus! {

/// Of the members of a name the last counts, and where there is none of the name there is none.
pub proof fn last_of_a_name_counts(m: Seq<(Seq<char>, Doc)>, name: Seq<char>)
    ensures
        match last_named(m, name) {
            Some(d) => exists|i: int|
                0 <= i < m.len() && #[trigger] m[i] == (name, d) && forall|j: int|
                    i < j < m.len() ==> (#[trigger] m[j]).0 != name,
            None => forall|i: int| 0 <= i < m.len() ==> (#[trigger] m[i]).0 != name,
        },
        field(Doc::Object(m), name) == last_named(m, name),
    decreases m.len(),
{
    if m.len() > 0 {
        let t = m.drop_last();
        let n = m.len() - 1;
        last_of_a_name_counts(t, name);
        if m.last().0 == name {
            assert(m[n] == (name, m.last().1));
        } else {
            match last_named(t, name) {
                Some(d) => {
                    let i = choose|i: int|
                        0 <= i < t.len() && #[trigger] t[i] == (name, d) && forall|j: int|
                            i < j < t.len() ==> (#[trigger] t[j]).0 != name;
                    assert(m[i] == (name, d));
                    assert forall|j: int| i < j < m.len() implies (#[trigger] m[j]).0 != name by {
                        if j < n {
                            assert(t[j] == m[j]);
                        }
                    }
                },
                None => {
                    assert forall|i: int| 0 <= i < m.len() implies (#[trigger] m[i]).0 != name by {
                        if i < n {
                            assert(t[i] == m[i]);
                        }
                    }
                },
            }
        }
    }
}

/// What a member is taken as: a truth value, a number of 64 bits with or without sign, an array.
/// Whatever is of another kind is taken as none.
pub proof fn members_are_of_their_kind(b: bool, u: u64, i: i64, a: Seq<Doc>, s: Seq<char>)
    ensures
        flag(Some(Doc::Bool(b))) == Some(b),
        uint(Some(Doc::Unsigned(u))) == Some(u),
        uint(Some(Doc::Signed(i))) is None,
        sint(Some(int_doc(i as int))) == Some(i),
        u > 0x7fff_ffff_ffff_ffff ==> sint(Some(Doc::Unsigned(u))) is None,
        elements(Some(Doc::Array(a))) == Some(a),
        flag(Some(Doc::Text(s))) is None && uint(Some(Doc::Text(s))) is None,
        sint(Some(Doc::Text(s))) is None && elements(Some(Doc::Text(s))) is None,
        octets(Some(Doc::Text(s))) == hex_bytes(s),
        octets(Some(Doc::Unsigned(u))) is None,
        flag(None) is None && uint(None) is None && sint(None) is None,
        elements(None) is None && octets(None) is None,
{
}

/// The value of a character as a hexadecimal digit.
pub open spec fn nibble(c: char, v: int) -> bool {
    ||| '0' <= c <= '9' && v == c as u32 - 48
    ||| 'a' <= c <= 'f' && v == c as u32 - 87
    ||| 'A' <= c <= 'F' && v == c as u32 - 55
}

/// The character is a hexadecimal digit.
pub open spec fn is_nibble(c: char) -> bool {
    '0' <= c <= '9' || 'a' <= c <= 'f' || 'A' <= c <= 'F'
}

/// Every byte is written as two digits, its upper half first, in lower case.
pub proof fn bytes_are_two_digits(b: Seq<u8>, i: int)
    requires
        0 <= i < b.len(),
    ensures
        hex_text(b).len() == 2 * b.len(),
        nibble(hex_text(b)[2 * i], b[i] as int / 16),
        nibble(hex_text(b)[2 * i + 1], b[i] as int % 16),
        !('A' <= hex_text(b)[2 * i] <= 'F'),
        !('A' <= hex_text(b)[2 * i + 1] <= 'F'),
    decreases b.len(),
{
    let t = b.drop_last();
    lemma_hex_len(b);
    lemma_hex_len(t);
    if i < t.len() {
        bytes_are_two_digits(t, i);
        assert(hex_text(b)[2 * i] == hex_text(t)[2 * i]);
        assert(hex_text(b)[2 * i + 1] == hex_text(t)[2 * i + 1]);
    }
}

proof fn lemma_hex_len(b: Seq<u8>)
    ensures
        hex_text(b).len() == 2 * b.len(),
    decreases b.len(),
{
    if b.len() > 0 {
        lemma_hex_len(b.drop_last());
    }
}

/// Digits of either case are read, two to the byte; an odd number of characters, or one that is
/// no digit, is not.
pub proof fn two_digits_are_a_byte(s: Seq<char>)
    ensures
        hex_bytes(s) is Some <==> s.len() % 2 == 0 && forall|i: int|
            0 <= i < s.len() ==> is_nibble(#[trigger] s[i]),
        hex_bytes(s) is Some ==> hex_bytes(s)->0.len() == s.len() / 2 && forall|i: int|
            0 <= i < hex_bytes(s)->0.len() ==> nibble(
                s[2 * i],
                (#[trigger] hex_bytes(s)->0[i]) as int / 16,
            ) && nibble(s[2 * i + 1], hex_bytes(s)->0[i] as int % 16),
    decreases s.len(),
{
    if s.len() >= 2 {
        let t = s.take(s.len() - 2);
        two_digits_are_a_byte(t);
        let n = s.len() as int;
        assert forall|i: int| 0 <= i < t.len() implies #[trigger] t[i] == s[i] by {}
        if hex_bytes(s) is Some {
            assert forall|i: int| 0 <= i < s.len() implies is_nibble(#[trigger] s[i]) by {
                if i < n - 2 {
                    assert(is_nibble(t[i]));
                }
            }
            let b = hex_bytes(s)->0;
            let c = hex_bytes(t)->0;
            assert forall|i: int| 0 <= i < b.len() implies nibble(
                s[2 * i],
                (#[trigger] b[i]) as int / 16,
            ) && nibble(s[2 * i + 1], b[i] as int % 16) by {
                if i < c.len() {
                    assert(b[i] == c[i]);
                    assert(t[2 * i] == s[2 * i] && t[2 * i + 1] == s[2 * i + 1]);
                }
            }
        }
        if s.len() % 2 == 0 && forall|i: int| 0 <= i < s.len() ==> is_nibble(#[trigger] s[i]) {
            assert(is_nibble(s[n - 2]) && is_nibble(s[n - 1]));
            assert forall|i: int| 0 <= i < t.len() implies is_nibble(#[trigger] t[i]) by {
                assert(is_nibble(s[i]));
            }
        }
    }
}

/// A key that writes a number in decimal is that number, and any other is a text.
pub proof fn keys_are_numbers_or_texts(i: i128, s: Seq<char>)
    ensures
        key_node(signed_decimal(i as int)) == Node::Int(i as int),
        s.len() > 0 && !('0' <= s.last() <= '9') ==> key_node(s) == Node::Text(s),
        s.len() == 0 ==> key_node(s) == Node::Text(s),
{
    crate::text::signed_decimal_reads_back(i);
    if s.len() > 0 && !('0' <= s.last() <= '9') {
        if s.len() > 1 {
            assert(s.drop_first().last() == s.last());
        }
    }
}

/// JSON stands for CBOR value by value: what is no array or object as it is, an array element by
/// element, an object entry by entry, and an object with the one member `$hex` as bytes.
pub proof fn values_stand_for_themselves(
    b: bool,
    u: u64,
    i: i64,
    f: u64,
    s: Seq<char>,
    a: Seq<Doc>,
    last: Doc,
    bytes: Seq<u8>,
)
    ensures
        node_of(Doc::Null) == Some(Node::Null),
        node_of(Doc::Bool(b)) == Some(Node::Bool(b)),
        node_of(Doc::Unsigned(u)) == Some(Node::Int(u as int)),
        node_of(Doc::Signed(i)) == Some(Node::Int(i as int)),
        node_of(Doc::Float(f)) == Some(Node::Float(f)),
        node_of(Doc::Text(s)) == Some(Node::Text(s)),
        node_of(Doc::Array(Seq::empty())) == Some(Node::Array(Seq::empty())),
        node_of(Doc::Array(a)) is Some && node_of(last) is Some ==> node_of(
            Doc::Array(a.push(last)),
        ) == Some(Node::Array(node_of(Doc::Array(a))->0->Array_0.push(node_of(last)->0))),
        node_of(Doc::Array(a)) is None || node_of(last) is None ==> node_of(
            Doc::Array(a.push(last)),
        ) is None,
        node_of(Doc::Object(seq![("$hex"@, Doc::Text(hex_text(bytes)))])) == Some(
            Node::Bytes(bytes),
        ),
{
    assert(a.push(last).drop_last() =~= a);
    hex_round_trip(bytes);
}

/// The entries of an object, one for one and in order.
pub proof fn entries_stand_one_for_one(m: Seq<(Seq<char>, Doc)>, i: int)
    requires
        pairs_of(m) is Some,
        0 <= i < m.len(),
    ensures
        pairs_of(m)->0.len() == m.len(),
        node_of(m[i].1) is Some,
        pairs_of(m)->0[i] == (key_node(m[i].0), node_of(m[i].1)->0),
        !(m.len() == 1 && m[0].0 == "$hex"@ && m[0].1 is Text) ==> node_of(Doc::Object(m)) == Some(
            Node::Pairs(pairs_of(m)->0),
        ),
    decreases m.len(),
{
    lemma_pairs_len(m);
    if i < m.len() - 1 {
        entries_stand_one_for_one(m.drop_last(), i);
    }
}

proof fn lemma_pairs_len(m: Seq<(Seq<char>, Doc)>)
    requires
        pairs_of(m) is Some,
    ensures
        pairs_of(m)->0.len() == m.len(),
    decreases m.len(),
{
    if m.len() > 0 {
        lemma_pairs_len(m.drop_last());
    }
}

/// CBOR is written value by value, too: what JSON has as it is, an integer as a number where one
/// of 64 bits holds it and as its decimal digits otherwise, and bytes as an object with the one
/// member `$hex`.
pub proof fn values_are_written_as_themselves(
    b: bool,
    i: int,
    s: Seq<char>,
    a: Seq<Node>,
    last: Node,
    bytes: Seq<u8>,
)
    ensures
        doc_of(Node::Null) == Some(Doc::Null),
        doc_of(Node::Bool(b)) == Some(Doc::Bool(b)),
        doc_of(Node::Text(s)) == Some(Doc::Text(s)),
        0 <= i <= 0xffff_ffff_ffff_ffff ==> doc_of(Node::Int(i)) == Some(Doc::Unsigned(i as u64)),
        -0x8000_0000_0000_0000 <= i < 0 ==> doc_of(Node::Int(i)) == Some(Doc::Signed(i as i64)),
        i > 0xffff_ffff_ffff_ffff || i < -0x8000_0000_0000_0000 ==> doc_of(Node::Int(i)) == Some(
            Doc::Text(signed_decimal(i)),
        ),
        doc_of(Node::Bytes(bytes)) == Some(
            Doc::Object(seq![("$hex"@, Doc::Text(hex_text(bytes)))]),
        ),
        doc_of(Node::Array(Seq::empty())) == Some(Doc::Array(Seq::empty())),
        doc_of(Node::Array(a)) is Some && doc_of(last) is Some ==> doc_of(
            Node::Array(a.push(last)),
        ) == Some(Doc::Array(doc_of(Node::Array(a))->0->Array_0.push(doc_of(last)->0))),
        doc_of(Node::Array(a)) is None || doc_of(last) is None ==> doc_of(
            Node::Array(a.push(last)),
        ) is None,
{
    assert(a.push(last).drop_last() =~= a);
}

/// The entries of a map, one for one and in order, integer keys in decimal.
pub proof fn entries_are_written_one_for_one(m: Seq<(Node, Node)>, i: int)
    requires
        members_of(m) is Some,
        0 <= i < m.len(),
    ensures
        members_of(m)->0.len() == m.len(),
        doc_of(m[i].1) is Some,
        members_of(m)->0[i].1 == doc_of(m[i].1)->0,
        m[i].0 is Int ==> members_of(m)->0[i].0 == signed_decimal(m[i].0->Int_0),
        m[i].0 is Text ==> members_of(m)->0[i].0 == m[i].0->Text_0,
        m[i].0 is Int || m[i].0 is Text,
        doc_of(Node::Pairs(m)) == Some(Doc::Object(members_of(m)->0)),
    decreases m.len(),
{
    lemma_members_len(m);
    if i < m.len() - 1 {
        entries_are_written_one_for_one(m.drop_last(), i);
    }
}

proof fn lemma_members_len(m: Seq<(Node, Node)>)
    requires
        members_of(m) is Some,
    ensures
        members_of(m)->0.len() == m.len(),
    decreases m.len(),
{
    if m.len() > 0 {
        lemma_members_len(m.drop_last());
    }
}

/// An object stands for a map exactly if each of its values stands for something; a map is
/// written exactly if each of its keys is a number or a text and each of its values is written.
/// One entry more is one entry more to be checked.
pub proof fn each_entry_counts(
    o: Seq<(Seq<char>, Doc)>,
    name: Seq<char>,
    d: Doc,
    m: Seq<(Node, Node)>,
    e: (Node, Node),
)
    ensures
        pairs_of(Seq::empty()) == Some(Seq::<(Node, Node)>::empty()),
        pairs_of(o.push((name, d))) is Some <==> pairs_of(o) is Some && node_of(d) is Some,
        members_of(Seq::empty()) == Some(Seq::<(Seq<char>, Doc)>::empty()),
        members_of(m.push(e)) is Some <==> members_of(m) is Some && (e.0 is Int || e.0 is Text)
            && doc_of(e.1) is Some,
        doc_of(Node::Pairs(m)) is Some <==> members_of(m) is Some,
{
    assert(o.push((name, d)).drop_last() =~= o);
    assert(m.push(e).drop_last() =~= m);
}

/// A trace and a series are read exactly if each of their elements is, and a run of cases has
/// results exactly if each case has one.
pub proof fn each_element_counts(
    a: Seq<Doc>,
    d: Doc,
    category: Seq<char>,
    first: Map<i64, i64>,
    second: Map<i64, i64>,
)
    ensures
        arrivals(Seq::empty()) is Some,
        arrivals(a.push(d)) is Some <==> arrivals(a) is Some && arrival(d) is Some,
        exchanges(Seq::empty()) is Some,
        exchanges(a.push(d)) is Some <==> exchanges(a) is Some && exchange(d) is Some,
        listed_results(category, Seq::empty(), first, second) is Some,
        listed_results(category, a.push(d), first, second) is Some <==> listed_results(
            category,
            a,
            first,
            second,
        ) is Some && listed_result(category, d, first, second) is Some,
{
    assert(a.push(d).drop_last() =~= a);
}

/// A case has a result exactly if every member that its operation reads is there and of its kind:
/// none is made up.
pub proof fn malformed_cases_have_no_result(d: Doc, table: Map<i64, i64>, category: Seq<char>)
    ensures
        datagram_encoded(d) is Some <==> flag(field(d, "flags_keyframe"@)) is Some && uint(
            field(d, "stream_id"@),
        ) is Some && uint(field(d, "frame_seq"@)) is Some && uint(field(d, "frag_index"@)) is Some
            && uint(field(d, "frag_count"@)) is Some && octets(field(d, "payload"@)) is Some,
        datagram_decoded(d) is Some <==> octets(field(d, "hex"@)) is Some,
        control_encoded(d) is Some <==> uint(field(d, "msg_type"@)) is Some && field(
            d,
            "body"@,
        ) is Some && node_of(field(d, "body"@)->0) is Some && node_of(
            field(d, "body"@)->0,
        )->0 is Pairs,
        arrival(d) is Some <==> sint(field(d, "t_ms"@)) is Some && uint(
            field(d, "frame_seq"@),
        ) is Some && uint(field(d, "frag_index"@)) is Some && uint(field(d, "frag_count"@)) is Some
            && flag(field(d, "keyframe"@)) is Some,
        trace_result(d) is Some <==> elements(field(d, "trace"@)) is Some && arrivals(
            elements(field(d, "trace"@))->0,
        ) is Some,
        series_result(d) is Some <==> elements(field(d, "samples"@)) is Some && exchanges(
            elements(field(d, "samples"@))->0,
        ) is Some,
        exchange(d) is Some ==> d is Array && d->Array_0.len() >= 4 && sint(
            Some(d->Array_0[0]),
        ) is Some && sint(Some(d->Array_0[1])) is Some && sint(Some(d->Array_0[2])) is Some && sint(
            Some(d->Array_0[3]),
        ) is Some,
        lookup_result(d, table) is Some <==> sint(field(d, "code"@)) is Some,
        elements(field(d, "cases"@)) is None ==> file_report(category, d, table, table) is None,
        !(field(d, "op"@) is Some && field(d, "op"@)->0 is Text) ==> listed_result(
            category,
            d,
            table,
            table,
        ) is None,
{
}

/// A float is written exactly if it is finite: its exponent is not all ones.
pub proof fn finite_floats_are_written(f: u64)
    ensures
        f % 0x8000_0000_0000_0000 < 0x7ff0_0000_0000_0000 ==> doc_of(Node::Float(f)) == Some(
            Doc::Float(f),
        ),
        f % 0x8000_0000_0000_0000 >= 0x7ff0_0000_0000_0000 ==> doc_of(Node::Float(f)) is None,
{
    assert(((f >> 52u64) & 0x7ff != 0x7ff) <==> f % 0x8000_0000_0000_0000
        < 0x7ff0_0000_0000_0000) by (bit_vector);
}

/// The object has `value` under `name`.
pub open spec fn shows(d: Doc, name: Seq<char>, value: Doc) -> bool {
    d is Object && exists|i: int|
        0 <= i < d->Object_0.len() && #[trigger] d->Object_0[i] == (name, value)
}

/// The numbers agree in their low bits.
pub open spec fn cut(a: int, b: int, modulus: int) -> bool {
    (a - b) % modulus == 0
}

/// An encoded datagram is its header, with every field from its own member, and the payload.
pub proof fn datagram_case_encodes(
    d: Doc,
    keyframe: bool,
    stream: u64,
    seq: u64,
    index: u64,
    count: u64,
    payload: Seq<u8>,
) -> (b: Seq<u8>)
    requires
        field(d, "flags_keyframe"@) == Some(Doc::Bool(keyframe)),
        field(d, "stream_id"@) == Some(Doc::Unsigned(stream)),
        field(d, "frame_seq"@) == Some(Doc::Unsigned(seq)),
        field(d, "frag_index"@) == Some(Doc::Unsigned(index)),
        field(d, "frag_count"@) == Some(Doc::Unsigned(count)),
        field(d, "payload"@) == Some(Doc::Text(hex_text(payload))),
    ensures
        datagram_encoded(d) is Some,
        shows(datagram_encoded(d)->0, "hex"@, Doc::Text(hex_text(b))),
        b.len() == 12 + payload.len(),
        b.skip(12) == payload,
        b[0] == 0x4c,
        (b[1] % 2 == 1) == keyframe,
        (b[1] / 2 == 1) == (u16_at(b, 8) + 1 == u16_at(b, 10)),
        b[1] < 4,
        cut(u16_at(b, 2), stream as int, 0x1_0000),
        cut(u32_at(b, 4), seq as int, 0x1_0000_0000),
        cut(u16_at(b, 8), index as int, 0x1_0000),
        cut(u16_at(b, 10), count as int, 0x1_0000),
{
    hex_round_trip(payload);
    let h = crate::datagram::header(
        keyframe,
        crate::cases::low16(stream),
        crate::cases::low32(seq),
        crate::cases::low16(index),
        crate::cases::low16(count),
    );
    header_layout(h);
    let b = header_bytes(h) + payload;
    let out = datagram_encoded(d)->0;
    assert(out->Object_0[0] == ("hex"@, Doc::Text(hex_text(b))));
    assert(b.skip(12) =~= payload);
    b
}

/// The verdict on a datagram is reported with every field of its header, or with the reason.
pub proof fn datagram_case_reports(bytes: Seq<u8>, d: Doc)
    requires
        field(d, "hex"@) == Some(Doc::Text(hex_text(bytes))),
    ensures
        datagram_decoded(d) is Some,
        ({
            let r = datagram_decoded(d)->0;
            match verdict(bytes, Seq::empty()) {
                Ok(v) => shows(r, "ok"@, Doc::Bool(true)) && exists|h: Doc| #[trigger]
                    shows(r, "header"@, h) && shows(
                        h,
                        "flags_keyframe"@,
                        Doc::Bool(v.header.keyframe),
                    ) && shows(h, "flags_last"@, Doc::Bool(v.header.last_fragment)) && shows(
                        h,
                        "stream_id"@,
                        Doc::Unsigned(v.header.stream_id as u64),
                    ) && shows(h, "frame_seq"@, Doc::Unsigned(v.header.frame_seq as u64)) && shows(
                        h,
                        "frag_index"@,
                        Doc::Unsigned(v.header.frag_index as u64),
                    ) && shows(h, "frag_count"@, Doc::Unsigned(v.header.frag_count as u64))
                        && shows(h, "payload_len"@, Doc::Unsigned(v.payload_len as u64)),
                Err(reason) => shows(r, "ok"@, Doc::Bool(false)) && shows(
                    r,
                    "reason"@,
                    Doc::Text(reason_name(reason)),
                ),
            }
        }),
{
    hex_round_trip(bytes);
    let r = datagram_decoded(d)->0;
    let m = r->Object_0;
    match verdict(bytes, Seq::empty()) {
        Ok(v) => {
            assert(m[0] == ("ok"@, Doc::Bool(true)));
            let h = m[1].1;
            let e = h->Object_0;
            assert(m[1] == ("header"@, h));
            assert(e[0] == ("flags_keyframe"@, Doc::Bool(v.header.keyframe)));
            assert(e[1] == ("flags_last"@, Doc::Bool(v.header.last_fragment)));
            assert(e[2] == ("stream_id"@, Doc::Unsigned(v.header.stream_id as u64)));
            assert(e[3] == ("frame_seq"@, Doc::Unsigned(v.header.frame_seq as u64)));
            assert(e[4] == ("frag_index"@, Doc::Unsigned(v.header.frag_index as u64)));
            assert(e[5] == ("frag_count"@, Doc::Unsigned(v.header.frag_count as u64)));
            assert(e[6] == ("payload_len"@, Doc::Unsigned(v.payload_len as u64)));
            assert(shows(r, "header"@, h));
        },
        Err(reason) => {
            assert(m[0] == ("ok"@, Doc::Bool(false)));
            assert(m[1] == ("reason"@, Doc::Text(reason_name(reason))));
        },
    }
}

/// The reasons and their names.
pub proof fn reasons_have_names()
    ensures
        reason_name(DropReason::TooShort) == "too_short"@,
        reason_name(DropReason::Oversize) == "oversize"@,
        reason_name(DropReason::BadMagic) == "bad_magic"@,
        reason_name(DropReason::FragCountZero) == "frag_count_zero"@,
        reason_name(DropReason::FragIndexRange) == "frag_index_range"@,
        reason_name(DropReason::LastFragmentMismatch) == "last_fragment_mismatch"@,
        reason_name(DropReason::UnknownStream) == "unknown_stream"@,
{
}

/// An encoded control message is the frame of its type and body.
pub proof fn control_case_encodes(d: Doc, t: u64, body: Doc, m: Seq<(Node, Node)>)
    requires
        field(d, "msg_type"@) == Some(Doc::Unsigned(t)),
        field(d, "body"@) == Some(body),
        node_of(body) == Some(Node::Pairs(m)),
    ensures
        control_encoded(d) is Some,
        shows(control_encoded(d)->0, "hex"@, Doc::Text(hex_text(frame(t, m)))),
{
    let out = control_encoded(d)->0;
    assert(out->Object_0[0] == ("hex"@, Doc::Text(hex_text(frame(t, m)))));
}

/// A violation is reported as one, a message that is passed over as that, and any other with its
/// type and body.
pub proof fn control_case_reports(t: u64, m: Seq<(Node, Node)>)
    ensures
        ({
            let r = control_report_of(Verdict::Violation);
            r is Some && shows(r->0, "ok"@, Doc::Bool(false)) && shows(
                r->0,
                "error"@,
                Doc::Text("PROTOCOL_VIOLATION"@),
            )
        }),
        ({
            let r = control_report_of(Verdict::Ignored);
            r is Some && shows(r->0, "ok"@, Doc::Bool(true)) && shows(
                r->0,
                "ignored"@,
                Doc::Bool(true),
            )
        }),
        ({
            let r = control_report_of(Verdict::Message(t, m));
            match doc_of(Node::Pairs(m)) {
                Some(body) => r is Some && shows(r->0, "ok"@, Doc::Bool(true)) && shows(
                    r->0,
                    "msg_type"@,
                    Doc::Unsigned(t),
                ) && shows(r->0, "body"@, body) && r->0->Object_0.len() == 3,
                None => r is None,
            }
        }),
{
    let v = control_report_of(Verdict::Violation)->0->Object_0;
    assert(v[0] == ("ok"@, Doc::Bool(false)));
    assert(v[1] == ("error"@, Doc::Text("PROTOCOL_VIOLATION"@)));
    let p = control_report_of(Verdict::Ignored)->0->Object_0;
    assert(p[0] == ("ok"@, Doc::Bool(true)));
    assert(p[1] == ("ignored"@, Doc::Bool(true)));
    if doc_of(Node::Pairs(m)) is Some {
        let body = doc_of(Node::Pairs(m))->0;
        let e = control_report_of(Verdict::Message(t, m))->0->Object_0;
        assert(e[0] == ("ok"@, Doc::Bool(true)));
        assert(e[1] == ("msg_type"@, Doc::Unsigned(t)));
        assert(e[2] == ("body"@, body));
    }
}

/// An arrival of a trace takes each number from its own member.
pub proof fn arrival_says_its_place(
    d: Doc,
    t: i64,
    seq: u64,
    index: u64,
    count: u64,
    keyframe: bool,
)
    requires
        sint(field(d, "t_ms"@)) == Some(t),
        field(d, "frame_seq"@) == Some(Doc::Unsigned(seq)),
        field(d, "frag_index"@) == Some(Doc::Unsigned(index)),
        field(d, "frag_count"@) == Some(Doc::Unsigned(count)),
        field(d, "keyframe"@) == Some(Doc::Bool(keyframe)),
    ensures
        arrival(d) is Some,
        ({
            let (at, f) = arrival(d)->0;
            &&& at == t
            &&& cut(f.frame_seq as int, seq as int, 0x1_0000_0000)
            &&& cut(f.frag_index as int, index as int, 0x1_0000)
            &&& cut(f.frag_count as int, count as int, 0x1_0000)
            &&& f.keyframe == keyframe
        }),
{
}

/// The arrivals of a trace, one for one and in order.
pub proof fn trace_is_its_arrivals(a: Seq<Doc>, i: int)
    requires
        arrivals(a) is Some,
        0 <= i < a.len(),
    ensures
        arrivals(a)->0.len() == a.len(),
        arrival(a[i]) == Some(arrivals(a)->0[i]),
    decreases a.len(),
{
    lemma_arrivals_len(a);
    if i < a.len() - 1 {
        trace_is_its_arrivals(a.drop_last(), i);
    }
}

proof fn lemma_arrivals_len(a: Seq<Doc>)
    requires
        arrivals(a) is Some,
    ensures
        arrivals(a)->0.len() == a.len(),
    decreases a.len(),
{
    if a.len() > 0 {
        lemma_arrivals_len(a.drop_last());
    }
}

/// A trace is reported with what the receiver did, event by event, and with its counters.
pub proof fn trace_case_reports(d: Doc, a: Seq<Doc>, i: int)
    requires
        field(d, "trace"@) == Some(Doc::Array(a)),
        arrivals(a) is Some,
        ({
            let m = played(arrivals(a)->0);
            m.dropped_incomplete <= u64::MAX && m.discarded_gap <= u64::MAX && m.stale_fragments
                <= u64::MAX
        }),
    ensures
        trace_result(d) is Some,
        ({
            let m = played(arrivals(a)->0);
            let r = trace_result(d)->0;
            exists|events: Seq<Doc>, counters: Doc| #[trigger]
                shows(r, "events"@, Doc::Array(events)) && #[trigger] shows(
                    r,
                    "counters"@,
                    counters,
                ) && events.len() == m.events.len() && (0 <= i < events.len() ==> shows_event(
                    events[i],
                    m.events[i],
                )) && shows(
                    counters,
                    "dropped_incomplete"@,
                    Doc::Unsigned(m.dropped_incomplete as u64),
                ) && shows(counters, "discarded_gap"@, Doc::Unsigned(m.discarded_gap as u64))
                    && shows(
                    counters,
                    "stale_fragments"@,
                    Doc::Unsigned(m.stale_fragments as u64),
                )
        }),
{
    let m = played(arrivals(a)->0);
    let r = trace_result(d)->0;
    let e = r->Object_0;
    let events = e[0].1->Array_0;
    let counters = e[1].1;
    let c = counters->Object_0;
    assert(e[0] == ("events"@, Doc::Array(events)));
    assert(e[1] == ("counters"@, counters));
    assert(c[0] == ("dropped_incomplete"@, Doc::Unsigned(m.dropped_incomplete as u64)));
    assert(c[1] == ("discarded_gap"@, Doc::Unsigned(m.discarded_gap as u64)));
    assert(c[2] == ("stale_fragments"@, Doc::Unsigned(m.stale_fragments as u64)));
    if 0 <= i < events.len() {
        lemma_event(m.events[i]);
        assert(events[i] == event_doc(m.events[i]));
    }
    assert(shows(r, "events"@, Doc::Array(events)));
    assert(shows(r, "counters"@, counters));
}

/// The object tells of the event: its time, what it was, and which frame.
pub open spec fn shows_event(d: Doc, e: Event) -> bool {
    match e {
        Event::Deliver { t_ms, frame_seq, keyframe } => shows(d, "t_ms"@, int_doc(t_ms as int))
            && shows(d, "ev"@, Doc::Text("deliver"@)) && shows(
            d,
            "frame_seq"@,
            Doc::Unsigned(frame_seq as u64),
        ) && shows(d, "keyframe"@, Doc::Bool(keyframe)),
        Event::IdrRequest { t_ms, last_good } => shows(d, "t_ms"@, int_doc(t_ms as int)) && shows(
            d,
            "ev"@,
            Doc::Text("idr_request"@),
        ) && shows(d, "last_good"@, Doc::Unsigned(last_good as u64)),
    }
}

proof fn lemma_event(e: Event)
    ensures
        shows_event(event_doc(e), e),
{
    let m = event_doc(e)->Object_0;
    match e {
        Event::Deliver { t_ms, frame_seq, keyframe } => {
            assert(m[0] == ("t_ms"@, int_doc(t_ms as int)));
            assert(m[1] == ("ev"@, Doc::Text("deliver"@)));
            assert(m[2] == ("frame_seq"@, Doc::Unsigned(frame_seq as u64)));
            assert(m[3] == ("keyframe"@, Doc::Bool(keyframe)));
        },
        Event::IdrRequest { t_ms, last_good } => {
            assert(m[0] == ("t_ms"@, int_doc(t_ms as int)));
            assert(m[1] == ("ev"@, Doc::Text("idr_request"@)));
            assert(m[2] == ("last_good"@, Doc::Unsigned(last_good as u64)));
        },
    }
}

/// An exchange is the first four numbers of an array.
pub proof fn exchange_is_four_numbers(a: Seq<Doc>, t0: i64, t1: i64, t2: i64, t3: i64)
    requires
        a.len() >= 4,
        sint(Some(a[0])) == Some(t0),
        sint(Some(a[1])) == Some(t1),
        sint(Some(a[2])) == Some(t2),
        sint(Some(a[3])) == Some(t3),
        crate::clocksync::in_range(t0, t1, t2, t3),
    ensures
        exchange(Doc::Array(a)) == Some((t0, t1, t2, t3)),
{
}

/// The exchanges of a series, one for one and in order.
pub proof fn series_is_its_exchanges(a: Seq<Doc>, i: int)
    requires
        exchanges(a) is Some,
        0 <= i < a.len(),
    ensures
        exchanges(a)->0.len() == a.len(),
        exchange(a[i]) == Some(exchanges(a)->0[i]),
    decreases a.len(),
{
    lemma_exchanges_len(a);
    if i < a.len() - 1 {
        series_is_its_exchanges(a.drop_last(), i);
    }
}

proof fn lemma_exchanges_len(a: Seq<Doc>)
    requires
        exchanges(a) is Some,
    ensures
        exchanges(a)->0.len() == a.len(),
    decreases a.len(),
{
    if a.len() > 0 {
        lemma_exchanges_len(a.drop_last());
    }
}

/// A series is reported with an estimate after each exchange: the best of the sixteen up to then.
pub proof fn series_case_reports(d: Doc, a: Seq<Doc>, i: int)
    requires
        field(d, "samples"@) == Some(Doc::Array(a)),
        exchanges(a) is Some,
        0 <= i < a.len(),
    ensures
        series_result(d) is Some,
        ({
            let s = samples(exchanges(a)->0);
            let e = best(recent(s.take(i + 1)));
            exists|list: Seq<Doc>| #[trigger]
                shows(series_result(d)->0, "estimates"@, Doc::Array(list)) && list.len() == a.len()
                    && shows(list[i], "rtt"@, int_doc(e.rtt as int)) && shows(
                    list[i],
                    "offset"@,
                    int_doc(e.offset as int),
                )
        }),
{
    lemma_exchanges_len(a);
    let s = samples(exchanges(a)->0);
    let e = best(recent(s.take(i + 1)));
    let r = series_result(d)->0;
    let m = r->Object_0;
    let list = m[0].1->Array_0;
    assert(m[0] == ("estimates"@, Doc::Array(list)));
    assert(list[i] == estimate_doc(e));
    let c = estimate_doc(e)->Object_0;
    assert(c[0] == ("rtt"@, int_doc(e.rtt as int)));
    assert(c[1] == ("offset"@, int_doc(e.offset as int)));
    assert(shows(r, "estimates"@, Doc::Array(list)));
}

/// A code is looked up in the table: what it maps to is reported, and null where it maps to
/// nothing.
pub proof fn lookup_case_reports(d: Doc, code: i64, table: Map<i64, i64>)
    requires
        sint(field(d, "code"@)) == Some(code),
    ensures
        lookup_result(d, table) is Some,
        table.contains_key(code) ==> shows(
            lookup_result(d, table)->0,
            "code"@,
            int_doc(table[code] as int),
        ),
        !table.contains_key(code) ==> shows(lookup_result(d, table)->0, "code"@, Doc::Null),
{
    let m = lookup_result(d, table)->0->Object_0;
    assert(m[0].0 == "code"@);
    if table.contains_key(code) {
        assert(m[0] == ("code"@, int_doc(table[code] as int)));
    } else {
        assert(m[0] == ("code"@, Doc::Null));
    }
}

proof fn lemma_names()
    ensures
        "datagram"@ != "control"@,
        "datagram"@ != "reassembly"@,
        "datagram"@ != "clocksync"@,
        "datagram"@ != "keymap"@,
        "control"@ != "reassembly"@,
        "control"@ != "clocksync"@,
        "control"@ != "keymap"@,
        "reassembly"@ != "clocksync"@,
        "reassembly"@ != "keymap"@,
        "clocksync"@ != "keymap"@,
        "encode"@ != "decode"@,
        "akeycode_to_evdev"@ != "evdev_to_cgkeycode"@,
{
    reveal_strlit("datagram");
    reveal_strlit("control");
    reveal_strlit("reassembly");
    reveal_strlit("clocksync");
    reveal_strlit("keymap");
    reveal_strlit("encode");
    reveal_strlit("decode");
    reveal_strlit("akeycode_to_evdev");
    reveal_strlit("evdev_to_cgkeycode");
    assert("datagram"@.len() == 8 && "control"@.len() == 7 && "reassembly"@.len() == 10);
    assert("clocksync"@.len() == 9 && "keymap"@.len() == 6);
    assert("encode"@[0] == 'e' && "decode"@[0] == 'd');
    assert("akeycode_to_evdev"@.len() == 17 && "evdev_to_cgkeycode"@.len() == 18);
}

/// A case goes to the operation that it names, and to the table that it names.
pub proof fn cases_go_to_their_operations(
    op: Seq<char>,
    d: Doc,
    first: Map<i64, i64>,
    second: Map<i64, i64>,
)
    ensures
        case_result("datagram"@, "encode"@, d, first, second) == datagram_encoded(d),
        case_result("datagram"@, "decode"@, d, first, second) == datagram_decoded(d),
        case_result("control"@, "encode"@, d, first, second) == control_encoded(d),
        case_result("control"@, "decode"@, d, first, second) == (match octets(field(d, "hex"@)) {
            Some(bytes) => control_report_of(frame_verdict(bytes)),
            None => None,
        }),
        case_result("reassembly"@, op, d, first, second) == trace_result(d),
        case_result("clocksync"@, op, d, first, second) == series_result(d),
        case_result("keymap"@, "akeycode_to_evdev"@, d, first, second) == lookup_result(d, first),
        case_result("keymap"@, "evdev_to_cgkeycode"@, d, first, second) == lookup_result(d, second),
        op != "encode"@ && op != "decode"@ ==> case_result("datagram"@, op, d, first, second) is None
            && case_result("control"@, op, d, first, second) is None,
{
    lemma_names();
}

/// The report on a file has a result for each of its cases, in order: that of the operation it
/// names on the input it has. It fails where one has none.
pub proof fn file_reports_each_case(
    category: Seq<char>,
    document: Doc,
    cases: Seq<Doc>,
    first: Map<i64, i64>,
    second: Map<i64, i64>,
    i: int,
)
    requires
        field(document, "cases"@) == Some(Doc::Array(cases)),
        0 <= i < cases.len(),
    ensures
        file_report(category, document, first, second) is Some <==> listed_results(
            category,
            cases,
            first,
            second,
        ) is Some,
        listed_result(category, cases[i], first, second) is None ==> file_report(
            category,
            document,
            first,
            second,
        ) is None,
        file_report(category, document, first, second) is Some ==> {
            let r = file_report(category, document, first, second)->0;
            exists|list: Seq<Doc>| #[trigger]
                shows(r, "results"@, Doc::Array(list)) && list.len() == cases.len() && Some(list[i])
                    == listed_result(category, cases[i], first, second)
        },
{
    lemma_listed(category, cases, first, second, i);
    if file_report(category, document, first, second) is Some {
        let r = file_report(category, document, first, second)->0;
        let list = r->Object_0[0].1->Array_0;
        assert(r->Object_0[0] == ("results"@, Doc::Array(list)));
        assert(shows(r, "results"@, Doc::Array(list)));
    }
}

/// A case is run as its operation says, on its input.
pub proof fn listed_case_is_run(
    category: Seq<char>,
    case: Doc,
    op: Seq<char>,
    input: Doc,
    first: Map<i64, i64>,
    second: Map<i64, i64>,
)
    requires
        category != "reassembly"@,
        field(case, "op"@) == Some(Doc::Text(op)),
        field(case, "input"@) == Some(input),
    ensures
        listed_result(category, case, first, second) == case_result(
            category,
            op,
            input,
            first,
            second,
        ),
{
}

proof fn lemma_listed(
    category: Seq<char>,
    cases: Seq<Doc>,
    first: Map<i64, i64>,
    second: Map<i64, i64>,
    i: int,
)
    requires
        0 <= i < cases.len(),
    ensures
        ({
            let all = listed_results(category, cases, first, second);
            let one = listed_result(category, cases[i], first, second);
            &&& one is None ==> all is None
            &&& all is Some ==> all->0.len() == cases.len() && Some(all->0[i]) == one
        }),
    decreases cases.len(),
{
    let t = cases.drop_last();
    if i < t.len() {
        lemma_listed(category, t, first, second, i);
    } else if t.len() > 0 {
        lemma_listed(category, t, first, second, 0);
    }
}

} // verus!
