//! A minimal CBOR value model with a canonical encoder and a permissive decoder.
//!
//! Senders emit canonical CBOR: definite lengths, shortest-form integers and
//! floats, map keys in bytewise order. Receivers accept any valid CBOR; reading is
//! done by `ciborium`, and what it reads is lowered into [`Value`].

use vstd::prelude::*;
use vstd::std_specs::cmp::PartialEqSpecImpl;
use ciborium::value::Value as DataItem;
use ciborium::de::Error as ReadError;
use std::io::Error as IoError;
use crate::be::{be, push_be};
use crate::error::{Error, Result};
use crate::ieee::{equal_bits, equal_numbers, is_nan, to_half, to_single};
use crate::order::lex_not_after;
use crate::text::{chars_of, same_text};

verus! {

broadcast use vstd::std_specs::vec::group_vec_axioms;

/// A CBOR value restricted to the shapes the control protocol uses.
///
/// Integers are held as `i128`, so both the unsigned and the negative CBOR range fit
/// one variant. A float is held as the bit pattern of its 64-bit form.
#[derive(Debug)]
pub enum Value {
    /// Major types 0 (unsigned) and 1 (negative).
    Int(i128),
    /// Major type 2, a byte string.
    Bytes(Vec<u8>),
    /// Major type 3, a UTF-8 text string.
    Text(String),
    /// Major type 4, an array.
    Array(Vec<Value>),
    /// Major type 5, a map. The order of entries is irrelevant: the encoder sorts.
    Pairs(Vec<(Value, Value)>),
    /// A boolean.
    Bool(bool),
    /// A floating-point number, as the bits of its 64-bit form.
    Float(u64),
    /// Null.
    Null,
}

/// The tree that a [`Value`] stands for.
pub enum Node {
    Int(int),
    Bytes(Seq<u8>),
    Text(Seq<char>),
    Array(Seq<Node>),
    Pairs(Seq<(Node, Node)>),
    Bool(bool),
    Float(u64),
    Null,
}

/// The tree of a value.
pub open spec fn node(v: Value) -> Node
    decreases v,
{
    match v {
        Value::Int(i) => Node::Int(i as int),
        Value::Bytes(b) => Node::Bytes(b@),
        Value::Text(s) => Node::Text(s@),
        Value::Array(a) => Node::Array(
            Seq::new(
                a@.len(),
                |i: int|
                    if 0 <= i < a@.len() {
                        node(a[i])
                    } else {
                        Node::Null
                    },
            ),
        ),
        Value::Pairs(m) => Node::Pairs(
            Seq::new(
                m@.len(),
                |i: int|
                    if 0 <= i < m@.len() {
                        (node(m[i].0), node(m[i].1))
                    } else {
                        (Node::Null, Node::Null)
                    },
            ),
        ),
        Value::Bool(b) => Node::Bool(b),
        Value::Float(f) => Node::Float(f),
        Value::Null => Node::Null,
    }
}

impl View for Value {
    type V = Node;

    open spec fn view(&self) -> Node {
        node(*self)
    }
}

/// The trees of a run of values.
pub open spec fn nodes(s: Seq<Value>) -> Seq<Node> {
    Seq::new(s.len(), |i: int| s[i]@)
}

/// The trees of a run of map entries.
pub open spec fn entries(s: Seq<(Value, Value)>) -> Seq<(Node, Node)> {
    Seq::new(s.len(), |i: int| (s[i].0@, s[i].1@))
}

pub proof fn lemma_view_array(a: Vec<Value>)
    ensures
        Value::Array(a)@ == Node::Array(nodes(a@)),
{
    let v = Value::Array(a);
    assert(v@->Array_0 =~= nodes(a@));
}

pub proof fn lemma_view_map(m: Vec<(Value, Value)>)
    ensures
        Value::Pairs(m)@ == Node::Pairs(entries(m@)),
{
    let v = Value::Pairs(m);
    assert(v@->Pairs_0 =~= entries(m@));
}

/// A CBOR head: the major type in the top three bits, the argument in shortest form.
pub open spec fn head(major: nat, arg: nat) -> Seq<u8> {
    if arg < 24 {
        seq![(major * 32 + arg) as u8]
    } else if arg < 0x100 {
        seq![(major * 32 + 24) as u8] + be(arg, 1)
    } else if arg < 0x1_0000 {
        seq![(major * 32 + 25) as u8] + be(arg, 2)
    } else if arg < 0x1_0000_0000 {
        seq![(major * 32 + 26) as u8] + be(arg, 4)
    } else {
        seq![(major * 32 + 27) as u8] + be(arg, 8)
    }
}

/// `2` to the power `64`.
pub open spec fn two64() -> int {
    0x1_0000_0000_0000_0000
}

/// The head of an integer. Only the low 64 bits of the argument are carried, so an
/// integer outside `[-2^64, 2^64)` is not kept.
pub open spec fn int_bytes(i: int) -> Seq<u8> {
    if i >= 0 {
        head(0, (i % two64()) as nat)
    } else {
        head(1, ((-1 - i) % two64()) as nat)
    }
}

/// The shortest form that loses nothing of a float; a NaN becomes the canonical
/// quiet NaN.
pub open spec fn float_bytes(bits: u64) -> Seq<u8> {
    if crate::ieee::is_nan_bits(bits) {
        seq![0xf9u8, 0x7e, 0x00]
    } else if crate::ieee::as_half(bits) is Some {
        seq![0xf9u8] + be(crate::ieee::as_half(bits)->0 as nat, 2)
    } else if crate::ieee::as_single(bits) is Some {
        seq![0xfau8] + be(crate::ieee::as_single(bits)->0 as nat, 4)
    } else {
        seq![0xfbu8] + be(bits as nat, 8)
    }
}

/// Keys and values one after the other.
pub open spec fn joined(s: Seq<(Seq<u8>, Seq<u8>)>) -> Seq<u8>
    decreases s.len(),
{
    if s.len() == 0 {
        Seq::empty()
    } else {
        joined(s.drop_last()) + s.last().0 + s.last().1
    }
}

/// The canonical encoding of a tree: map entries stand in the bytewise order of
/// their encoded keys.
pub open spec fn encode(n: Node) -> Seq<u8>
    decreases n,
{
    match n {
        Node::Int(i) => int_bytes(i),
        Node::Bytes(b) => head(2, b.len()) + b,
        Node::Text(s) => head(3, vstd::utf8::encode_utf8(s).len()) + vstd::utf8::encode_utf8(s),
        Node::Array(a) => head(4, a.len()) + encode_all(a),
        Node::Pairs(m) => head(5, m.len()) + joined(crate::order::stable_sort(encoded_entries(m))),
        Node::Bool(b) => seq![if b { 0xf5u8 } else { 0xf4u8 }],
        Node::Float(f) => float_bytes(f),
        Node::Null => seq![0xf6u8],
    }
}

/// The encodings of a run of trees, one after the other.
pub open spec fn encode_all(s: Seq<Node>) -> Seq<u8>
    decreases s,
{
    if s.len() == 0 {
        Seq::empty()
    } else {
        encode_all(s.drop_last()) + encode(s.last())
    }
}

/// The entries of a map with their keys and values encoded, in the given order.
pub open spec fn encoded_entries(m: Seq<(Node, Node)>) -> Seq<(Seq<u8>, Seq<u8>)>
    decreases m,
{
    Seq::new(
        m.len(),
        |i: int|
            if 0 <= i < m.len() {
                (encode(m[i].0), encode(m[i].1))
            } else {
                (Seq::empty(), Seq::empty())
            },
    )
}

proof fn lemma_encode_all_push(s: Seq<Node>, k: int)
    requires
        0 <= k < s.len(),
    ensures
        encode_all(s.take(k + 1)) == encode_all(s.take(k)) + encode(s[k]),
{
    assert(s.take(k + 1).drop_last() =~= s.take(k));
}

proof fn lemma_joined_push(s: Seq<(Seq<u8>, Seq<u8>)>, k: int)
    requires
        0 <= k < s.len(),
    ensures
        joined(s.take(k + 1)) == joined(s.take(k)) + s[k].0 + s[k].1,
{
    assert(s.take(k + 1).drop_last() =~= s.take(k));
}

/// The bytes of a run of encoded entries.
pub open spec fn pair_bytes(s: Seq<(Vec<u8>, Vec<u8>)>) -> Seq<(Seq<u8>, Seq<u8>)> {
    Seq::new(s.len(), |i: int| (s[i].0@, s[i].1@))
}

/// Write a CBOR head: major type in the top three bits, argument in shortest form.
fn encode_head(major: u8, arg: u64, out: &mut Vec<u8>)
    requires
        major < 8,
    ensures
        final(out)@ == old(out)@ + head(major as nat, arg as nat),
{
    let top: u8 = major * 32;
    if arg < 24 {
        out.push(top + arg as u8);
    } else if arg < 0x100 {
        out.push(top + 24);
        push_be(out, arg, 1);
    } else if arg < 0x1_0000 {
        out.push(top + 25);
        push_be(out, arg, 2);
    } else if arg < 0x1_0000_0000 {
        out.push(top + 26);
        push_be(out, arg, 4);
    } else {
        out.push(top + 27);
        push_be(out, arg, 8);
    }
    assert(out@ =~= old(out)@ + head(major as nat, arg as nat));
}

fn encode_int(i: i128, out: &mut Vec<u8>)
    ensures
        final(out)@ == old(out)@ + int_bytes(i as int),
{
    if i >= 0 {
        encode_head(0, (i as u128 % 0x1_0000_0000_0000_0000) as u64, out);
    } else {
        // A negative n has the argument -1 - n.
        encode_head(1, ((-1 - i) as u128 % 0x1_0000_0000_0000_0000) as u64, out);
    }
}

/// Shortest float form: 16 bits where they hold the number, else 32, else 64.
fn encode_float(bits: u64, out: &mut Vec<u8>)
    ensures
        final(out)@ == old(out)@ + float_bytes(bits),
{
    if is_nan(bits) {
        out.push(0xf9);
        out.push(0x7e);
        out.push(0x00);
    } else {
        match to_half(bits) {
            Some(h) => {
                out.push(0xf9);
                push_be(out, h as u64, 2);
            },
            None => match to_single(bits) {
                Some(s) => {
                    out.push(0xfa);
                    push_be(out, s as u64, 4);
                },
                None => {
                    out.push(0xfb);
                    push_be(out, bits, 8);
                },
            },
        }
    }
    assert(out@ =~= old(out)@ + float_bytes(bits));
}

/// Put an encoded entry behind every entry whose key is not after its key.
fn place_entry(items: &mut Vec<(Vec<u8>, Vec<u8>)>, key: Vec<u8>, val: Vec<u8>)
    ensures
        pair_bytes(final(items)@) == crate::order::placed(
            pair_bytes(old(items)@),
            (key@, val@),
        ),
{
    let ghost before = pair_bytes(items@);
    let mut at: usize = items.len();
    assert(before.take(at as int) =~= before);
    while at > 0 && !lex_not_after(items[at - 1].0.as_slice(), key.as_slice())
        invariant
            at <= items@.len(),
            before == pair_bytes(items@),
            crate::order::place(before, key@) == crate::order::place(before.take(at as int), key@),
        decreases at,
    {
        assert(before.take(at as int).drop_last() =~= before.take(at - 1));
        assert(before.take(at as int).last() == before[at - 1]);
        at -= 1;
    }
    assert(crate::order::place(before, key@) == at) by {
        if at > 0 {
            assert(before.take(at as int).last() == before[at - 1]);
        }
    }
    let ghost entry = (key@, val@);
    let ghost old_items = items@;
    items.insert(at, (key, val));
    assert(pair_bytes(items@) =~= before.insert(at as int, entry)) by {
        assert(items@ == old_items.insert(at as int, (key, val)));
    }
}

impl Value {
    /// If this is an integer, return it.
    pub fn as_int(&self) -> (r: Option<i128>)
        ensures
            match self@ {
                Node::Int(i) => r is Some && r->0 == i,
                _ => r is None,
            },
    {
        match self {
            Value::Int(i) => Some(*i),
            _ => None,
        }
    }

    /// If this is a map, return its entries.
    pub fn as_map(&self) -> (r: Option<&[(Value, Value)]>)
        ensures
            match self@ {
                Node::Pairs(m) => r is Some && entries(r->0@) == m,
                _ => r is None,
            },
    {
        match self {
            Value::Pairs(m) => {
                proof {
                    lemma_view_map(*m);
                }
                Some(m.as_slice())
            },
            _ => None,
        }
    }

    /// If this is an array, return its items.
    pub fn as_array(&self) -> (r: Option<&[Value]>)
        ensures
            match self@ {
                Node::Array(a) => r is Some && nodes(r->0@) == a,
                _ => r is None,
            },
    {
        match self {
            Value::Array(a) => {
                proof {
                    lemma_view_array(*a);
                }
                Some(a.as_slice())
            },
            _ => None,
        }
    }

    /// Encode to canonical CBOR.
    pub fn to_canonical(&self) -> (r: Vec<u8>)
        ensures
            r@ == encode(self@),
    {
        let mut out: Vec<u8> = Vec::new();
        self.encode_into(&mut out);
        assert(out@ =~= encode(self@));
        out
    }

    /// Append the canonical encoding.
    fn encode_into(&self, out: &mut Vec<u8>)
        ensures
            final(out)@ == old(out)@ + encode(self@),
        decreases self,
    {
        let ghost before = out@;
        match self {
            Value::Int(i) => encode_int(*i, out),
            Value::Bytes(b) => {
                encode_head(2, b.len() as u64, out);
                out.extend_from_slice(b.as_slice());
                assert(out@ =~= before + encode(self@));
            },
            Value::Text(s) => {
                let bytes: &[u8] = s.as_str().as_bytes();
                encode_head(3, bytes.len() as u64, out);
                out.extend_from_slice(bytes);
                assert(out@ =~= before + encode(self@));
            },
            Value::Array(a) => {
                proof {
                    lemma_view_array(*a);
                }
                encode_head(4, a.len() as u64, out);
                let ghost h = head(4, a@.len());
                let ghost all = nodes(a@);
                let mut k: usize = 0;
                assert(encode_all(all.take(0)) =~= Seq::empty());
                while k < a.len()
                    invariant
                        k <= a@.len(),
                        *self == Value::Array(*a),
                        all == nodes(a@),
                        out@ == before + h + encode_all(all.take(k as int)),
                    decreases a@.len() - k,
                {
                    assert(decreases_to!(*self => self->Array_0));
                    assert(decreases_to!(*a => a[k as int]));
                    a[k].encode_into(out);
                    proof {
                        lemma_encode_all_push(all, k as int);
                        assert(out@ =~= before + h + encode_all(all.take(k + 1)));
                    }
                    k += 1;
                }
                assert(all.take(k as int) =~= all);
                assert(out@ =~= before + encode(self@));
            },
            Value::Pairs(m) => {
                proof {
                    lemma_view_map(*m);
                }
                let ghost all = entries(m@);
                let mut items: Vec<(Vec<u8>, Vec<u8>)> = Vec::new();
                let mut k: usize = 0;
                assert(pair_bytes(items@) =~= crate::order::stable_sort(
                    encoded_entries(all).take(0),
                ));
                while k < m.len()
                    invariant
                        k <= m@.len(),
                        *self == Value::Pairs(*m),
                        all == entries(m@),
                        pair_bytes(items@) == crate::order::stable_sort(
                            encoded_entries(all).take(k as int),
                        ),
                    decreases m@.len() - k,
                {
                    assert(decreases_to!(*self => self->Pairs_0));
                    assert(decreases_to!(*m => m[k as int]));
                    assert(decreases_to!(m[k as int] => m[k as int].0));
                    assert(decreases_to!(m[k as int] => m[k as int].1));
                    let mut kb: Vec<u8> = Vec::new();
                    m[k].0.encode_into(&mut kb);
                    let mut vb: Vec<u8> = Vec::new();
                    m[k].1.encode_into(&mut vb);
                    proof {
                        let e = encoded_entries(all);
                        assert(kb@ =~= e[k as int].0);
                        assert(vb@ =~= e[k as int].1);
                        assert(e.take(k + 1).drop_last() =~= e.take(k as int));
                        assert(e.take(k + 1).last() == e[k as int]);
                    }
                    place_entry(&mut items, kb, vb);
                    k += 1;
                }
                let ghost sorted = crate::order::stable_sort(encoded_entries(all));
                proof {
                    assert(encoded_entries(all).take(k as int) =~= encoded_entries(all));
                    crate::order::stable_sort_in_order(encoded_entries(all));
                }
                encode_head(5, m.len() as u64, out);
                let ghost h = head(5, m@.len());
                let mut j: usize = 0;
                assert(joined(sorted.take(0)) =~= Seq::empty());
                while j < items.len()
                    invariant
                        j <= items@.len(),
                        pair_bytes(items@) == sorted,
                        out@ == before + h + joined(sorted.take(j as int)),
                    decreases items@.len() - j,
                {
                    out.extend_from_slice(items[j].0.as_slice());
                    out.extend_from_slice(items[j].1.as_slice());
                    proof {
                        lemma_joined_push(sorted, j as int);
                        assert(sorted[j as int] == (items@[j as int].0@, items@[j as int].1@));
                        assert(out@ =~= before + h + joined(sorted.take(j + 1)));
                    }
                    j += 1;
                }
                assert(sorted.take(j as int) =~= sorted);
                assert(out@ =~= before + encode(self@));
            },
            Value::Bool(b) => {
                out.push(if *b { 0xf5 } else { 0xf4 });
                assert(out@ =~= before + encode(self@));
            },
            Value::Float(f) => encode_float(*f, out),
            Value::Null => {
                out.push(0xf6);
                assert(out@ =~= before + encode(self@));
            },
        }
    }
}

/// Two trees are equal: of the same shape, with equal numbers for floats.
pub open spec fn equal(a: Node, b: Node) -> bool
    decreases a,
{
    match (a, b) {
        (Node::Int(i), Node::Int(j)) => i == j,
        (Node::Bytes(x), Node::Bytes(y)) => x == y,
        (Node::Text(x), Node::Text(y)) => x == y,
        (Node::Array(x), Node::Array(y)) => x.len() == y.len() && forall|i: int|
            0 <= i < x.len() ==> equal(#[trigger] x[i], y[i]),
        (Node::Pairs(x), Node::Pairs(y)) => x.len() == y.len() && forall|i: int|
            0 <= i < x.len() ==> equal((#[trigger] x[i]).0, y[i].0) && equal(x[i].1, y[i].1),
        (Node::Bool(x), Node::Bool(y)) => x == y,
        (Node::Float(f), Node::Float(g)) => equal_bits(f, g),
        (Node::Null, Node::Null) => true,
        _ => false,
    }
}

/// Whether two byte strings are the same.
fn same_bytes(a: &Vec<u8>, b: &Vec<u8>) -> (r: bool)
    ensures
        r == (a@ == b@),
{
    if a.len() != b.len() {
        return false;
    }
    let mut k: usize = 0;
    while k < a.len()
        invariant
            k <= a@.len(),
            a@.len() == b@.len(),
            forall|i: int| 0 <= i < k ==> a@[i] == b@[i],
        decreases a@.len() - k,
    {
        if a[k] != b[k] {
            return false;
        }
        k += 1;
    }
    assert(a@ =~= b@);
    true
}

/// Whether two values are equal.
fn same_value(a: &Value, b: &Value) -> (r: bool)
    ensures
        r == equal(a@, b@),
    decreases a,
{
    match (a, b) {
        (Value::Int(i), Value::Int(j)) => *i == *j,
        (Value::Bytes(x), Value::Bytes(y)) => same_bytes(x, y),
        (Value::Text(x), Value::Text(y)) => {
            let chars: Vec<char> = chars_of(x.as_str());
            same_text(&chars, y.as_str())
        },
        (Value::Array(x), Value::Array(y)) => {
            proof {
                lemma_view_array(*x);
                lemma_view_array(*y);
            }
            if x.len() != y.len() {
                return false;
            }
            let mut k: usize = 0;
            while k < x.len()
                invariant
                    k <= x@.len(),
                    x@.len() == y@.len(),
                    *a == Value::Array(*x),
                    a@ == Node::Array(nodes(x@)),
                    b@ == Node::Array(nodes(y@)),
                    forall|i: int| 0 <= i < k ==> equal(#[trigger] nodes(x@)[i], nodes(y@)[i]),
                decreases x@.len() - k,
            {
                assert(decreases_to!(*a => a->Array_0));
                assert(decreases_to!(*x => x[k as int]));
                if !same_value(&x[k], &y[k]) {
                    assert(!equal(nodes(x@)[k as int], nodes(y@)[k as int]));
                    return false;
                }
                k += 1;
            }
            true
        },
        (Value::Pairs(x), Value::Pairs(y)) => {
            proof {
                lemma_view_map(*x);
                lemma_view_map(*y);
            }
            if x.len() != y.len() {
                return false;
            }
            let mut k: usize = 0;
            while k < x.len()
                invariant
                    k <= x@.len(),
                    x@.len() == y@.len(),
                    *a == Value::Pairs(*x),
                    a@ == Node::Pairs(entries(x@)),
                    b@ == Node::Pairs(entries(y@)),
                    forall|i: int|
                        0 <= i < k ==> equal((#[trigger] entries(x@)[i]).0, entries(y@)[i].0)
                            && equal(entries(x@)[i].1, entries(y@)[i].1),
                decreases x@.len() - k,
            {
                assert(decreases_to!(*a => a->Pairs_0));
                assert(decreases_to!(*x => x[k as int]));
                assert(decreases_to!(x[k as int] => x[k as int].0));
                assert(decreases_to!(x[k as int] => x[k as int].1));
                let ghost e = entries(x@)[k as int];
                if !same_value(&x[k].0, &y[k].0) || !same_value(&x[k].1, &y[k].1) {
                    assert(!(equal(e.0, entries(y@)[k as int].0) && equal(
                        e.1,
                        entries(y@)[k as int].1,
                    )));
                    return false;
                }
                k += 1;
            }
            true
        },
        (Value::Bool(x), Value::Bool(y)) => *x == *y,
        (Value::Float(f), Value::Float(g)) => equal_numbers(*f, *g),
        (Value::Null, Value::Null) => true,
        _ => false,
    }
}

impl PartialEqSpecImpl for Value {
    open spec fn obeys_eq_spec() -> bool {
        true
    }

    open spec fn eq_spec(&self, other: &Value) -> bool {
        equal(self@, other@)
    }
}

impl PartialEq for Value {
    /// Floats compare as numbers: a NaN equals nothing, and the two zeros are equal.
    fn eq(&self, other: &Value) -> (r: bool) {
        same_value(self, other)
    }
}

impl Clone for Value {
    fn clone(&self) -> (r: Self)
        ensures
            r@ == self@,
        decreases self,
    {
        match self {
            Value::Int(i) => Value::Int(*i),
            Value::Bytes(b) => Value::Bytes(b.clone()),
            Value::Text(s) => Value::Text(s.clone()),
            Value::Array(a) => {
                let mut copy: Vec<Value> = Vec::new();
                let mut k: usize = 0;
                while k < a.len()
                    invariant
                        k <= a@.len(),
                        *self == Value::Array(*a),
                        copy@.len() == k,
                        nodes(copy@) == nodes(a@).take(k as int),
                    decreases a@.len() - k,
                {
                    assert(decreases_to!(*self => self->Array_0));
                    assert(decreases_to!(*a => a[k as int]));
                    copy.push((&a[k]).clone());
                    assert(nodes(copy@) =~= nodes(a@).take(k + 1));
                    k += 1;
                }
                proof {
                    lemma_view_array(*a);
                    lemma_view_array(copy);
                    assert(nodes(copy@) =~= nodes(a@));
                }
                Value::Array(copy)
            },
            Value::Pairs(m) => {
                let mut copy: Vec<(Value, Value)> = Vec::new();
                let mut k: usize = 0;
                while k < m.len()
                    invariant
                        k <= m@.len(),
                        *self == Value::Pairs(*m),
                        copy@.len() == k,
                        entries(copy@) == entries(m@).take(k as int),
                    decreases m@.len() - k,
                {
                    assert(decreases_to!(*self => self->Pairs_0));
                    assert(decreases_to!(*m => m[k as int]));
                    assert(decreases_to!(m[k as int] => m[k as int].0));
                    assert(decreases_to!(m[k as int] => m[k as int].1));
                    copy.push(((&m[k].0).clone(), (&m[k].1).clone()));
                    assert(entries(copy@) =~= entries(m@).take(k + 1));
                    k += 1;
                }
                proof {
                    lemma_view_map(*m);
                    lemma_view_map(copy);
                    assert(entries(copy@) =~= entries(m@));
                }
                Value::Pairs(copy)
            },
            Value::Bool(b) => Value::Bool(*b),
            Value::Float(f) => Value::Float(*f),
            Value::Null => Value::Null,
        }
    }
}

/// The encoding of a tree with map entries in the order in which the tree has them.
pub open spec fn wire(n: Node) -> Seq<u8>
    decreases n,
{
    match n {
        Node::Int(i) => int_bytes(i),
        Node::Bytes(b) => head(2, b.len()) + b,
        Node::Text(s) => head(3, vstd::utf8::encode_utf8(s).len()) + vstd::utf8::encode_utf8(s),
        Node::Array(a) => head(4, a.len()) + wire_all(a),
        Node::Pairs(m) => head(5, m.len()) + joined(wire_entries(m)),
        Node::Bool(b) => seq![if b { 0xf5u8 } else { 0xf4u8 }],
        Node::Float(f) => float_bytes(f),
        Node::Null => seq![0xf6u8],
    }
}

/// The encodings of a run of trees, one after the other.
pub open spec fn wire_all(s: Seq<Node>) -> Seq<u8>
    decreases s,
{
    if s.len() == 0 {
        Seq::empty()
    } else {
        wire_all(s.drop_last()) + wire(s.last())
    }
}

/// The encoded entries of a map, in the given order.
pub open spec fn wire_entries(m: Seq<(Node, Node)>) -> Seq<(Seq<u8>, Seq<u8>)>
    decreases m,
{
    Seq::new(
        m.len(),
        |i: int|
            if 0 <= i < m.len() {
                (wire(m[i].0), wire(m[i].1))
            } else {
                (Seq::empty(), Seq::empty())
            },
    )
}

/// The tree with the entries of every map put in the bytewise order of their
/// encoded keys.
pub open spec fn arranged(n: Node) -> Node
    decreases n,
{
    match n {
        Node::Array(a) => Node::Array(
            Seq::new(
                a.len(),
                |i: int|
                    if 0 <= i < a.len() {
                        arranged(a[i])
                    } else {
                        Node::Null
                    },
            ),
        ),
        Node::Pairs(m) => Node::Pairs(
            crate::order::stable_sort(keyed_entries(m)).map_values(
                |e: (Seq<u8>, (Node, Node))| e.1,
            ),
        ),
        _ => n,
    }
}

/// The entries of a map, arranged inside, each under its encoded key.
pub open spec fn keyed_entries(m: Seq<(Node, Node)>) -> Seq<(Seq<u8>, (Node, Node))>
    decreases m,
{
    Seq::new(
        m.len(),
        |i: int|
            if 0 <= i < m.len() {
                (encode(m[i].0), (arranged(m[i].0), arranged(m[i].1)))
            } else {
                (Seq::empty(), (Node::Null, Node::Null))
            },
    )
}

/// A tree that a reader gets back from its encoding: integers that CBOR's two integer
/// types hold, no NaN (there is one canonical NaN), lengths that a head holds, and at
/// most `depth` arrays and maps inside one another.
pub open spec fn readable(n: Node, depth: nat) -> bool
    decreases n,
{
    match n {
        Node::Int(i) => -two64() <= i < two64(),
        Node::Bytes(b) => b.len() < two64(),
        Node::Text(s) => vstd::utf8::encode_utf8(s).len() < two64(),
        Node::Array(a) => {
            &&& depth > 0
            &&& a.len() < two64()
            &&& forall|i: int| 0 <= i < a.len() ==> readable(#[trigger] a[i], (depth - 1) as nat)
        },
        Node::Pairs(m) => {
            &&& depth > 0
            &&& m.len() < two64()
            &&& forall|i: int|
                0 <= i < m.len() ==> readable((#[trigger] m[i]).0, (depth - 1) as nat)
                    && readable(m[i].1, (depth - 1) as nat)
        },
        Node::Bool(b) => true,
        Node::Float(f) => !crate::ieee::is_nan_bits(f),
        Node::Null => true,
    }
}

/// A character takes at most four bytes.
pub proof fn lemma_text_len(s: Seq<char>)
    ensures
        vstd::utf8::encode_utf8(s).len() <= 4 * s.len(),
    decreases s.len(),
{
    if s.len() > 0 {
        lemma_text_len(s.drop_first());
    }
}

/// The canonical encoding is the plain encoding of the arranged tree.
pub proof fn encode_is_arranged_wire(n: Node)
    ensures
        encode(n) == wire(arranged(n)),
    decreases n,
{
    match n {
        Node::Array(a) => {
            let b = arranged(n)->Array_0;
            lemma_encode_all_arranged(a, b);
        },
        Node::Pairs(m) => {
            let e = keyed_entries(m);
            let sorted = crate::order::stable_sort(e);
            let f = |p: (Node, Node)| wire(p.1);
            let g = |x: (Seq<u8>, (Node, Node))| (x.0, f(x.1));
            crate::order::stable_sort_map(e, f);
            assert forall|i: int| 0 <= i < m.len() implies #[trigger] encoded_entries(m)[i]
                == e.map_values(g)[i] by {
                encode_is_arranged_wire(m[i].0);
                encode_is_arranged_wire(m[i].1);
            }
            assert(e.map_values(g) =~= encoded_entries(m));
            let p = |x: (Seq<u8>, (Node, Node))| x.0 == wire(x.1.0);
            assert forall|i: int| 0 <= i < e.len() implies p(#[trigger] e[i]) by {
                encode_is_arranged_wire(m[i].0);
            }
            crate::order::lemma_stable_sort_all(e, p);
            let out = arranged(n)->Pairs_0;
            assert forall|i: int| 0 <= i < m.len() implies #[trigger] wire_entries(out)[i]
                == sorted.map_values(g)[i] by {
                assert(p(sorted[i]));
                assert(out[i] == sorted[i].1);
            }
            assert(wire_entries(out) =~= sorted.map_values(g));
        },
        _ => {},
    }
}

proof fn lemma_encode_all_arranged(a: Seq<Node>, b: Seq<Node>)
    requires
        a.len() == b.len(),
        forall|i: int| 0 <= i < a.len() ==> #[trigger] b[i] == arranged(a[i]),
    ensures
        encode_all(a) == wire_all(b),
    decreases a,
{
    if a.len() > 0 {
        let n = a.len() - 1;
        assert(b[n] == arranged(a[n]));
        encode_is_arranged_wire(a[n]);
        assert forall|i: int| 0 <= i < n implies #[trigger] b.drop_last()[i] == arranged(
            a.drop_last()[i],
        ) by {
            assert(b[i] == arranged(a[i]));
        }
        lemma_encode_all_arranged(a.drop_last(), b.drop_last());
    }
}

proof fn lemma_arranged_readable(n: Node, depth: nat)
    requires
        readable(n, depth),
    ensures
        readable(arranged(n), depth),
    decreases n,
{
    match n {
        Node::Array(a) => {
            let b = arranged(n)->Array_0;
            assert forall|i: int| 0 <= i < b.len() implies readable(
                #[trigger] b[i],
                (depth - 1) as nat,
            ) by {
                lemma_arranged_readable(a[i], (depth - 1) as nat);
            }
        },
        Node::Pairs(m) => {
            let d = (depth - 1) as nat;
            let e = keyed_entries(m);
            let p = |x: (Seq<u8>, (Node, Node))| readable(x.1.0, d) && readable(x.1.1, d);
            assert forall|i: int| 0 <= i < e.len() implies p(#[trigger] e[i]) by {
                assert(readable(m[i].0, d) && readable(m[i].1, d));
                lemma_arranged_readable(m[i].0, d);
                lemma_arranged_readable(m[i].1, d);
            }
            crate::order::lemma_stable_sort_all(e, p);
            let out = arranged(n)->Pairs_0;
            assert forall|i: int| 0 <= i < out.len() implies readable((#[trigger] out[i]).0, d)
                && readable(out[i].1, d) by {
                assert(p(crate::order::stable_sort(e)[i]));
            }
        },
        _ => {},
    }
}

/// The order in which a map's entries are given is irrelevant: two maps with the same
/// entries, no two of them under keys that encode alike, have one encoding.
pub proof fn encode_ignores_entry_order(a: Seq<(Node, Node)>, b: Seq<(Node, Node)>)
    requires
        a.to_multiset() == b.to_multiset(),
        crate::order::distinct_keys(encoded_entries(a)),
    ensures
        encode(Node::Pairs(a)) == encode(Node::Pairs(b)),
{
    broadcast use vstd::seq_lib::group_to_multiset_ensures;

    let g = |e: (Node, Node)| (encode(e.0), encode(e.1));
    assert(encoded_entries(a) =~= a.map_values(g));
    assert(encoded_entries(b) =~= b.map_values(g));
    crate::order::lemma_map_same_elements(a, b, g);
    crate::order::stable_sort_order_irrelevant(encoded_entries(a), encoded_entries(b));
    assert(a.len() == a.to_multiset().len());
    assert(b.len() == b.to_multiset().len());
}

/// A canonical encoding is settled: what a reader gets back of it encodes to the same
/// bytes again.
pub proof fn encode_settled(n: Node)
    ensures
        encode(arranged(n)) == encode(n),
    decreases n,
{
    match n {
        Node::Array(a) => {
            let b = arranged(n)->Array_0;
            lemma_encode_all_settled(a, b);
        },
        Node::Pairs(m) => {
            let e = keyed_entries(m);
            let sorted = crate::order::stable_sort(e);
            let f = |p: (Node, Node)| encode(p.1);
            let g = |x: (Seq<u8>, (Node, Node))| (x.0, f(x.1));
            crate::order::stable_sort_map(e, f);
            assert forall|i: int| 0 <= i < m.len() implies #[trigger] encoded_entries(m)[i]
                == e.map_values(g)[i] by {
                encode_settled(m[i].1);
            }
            assert(e.map_values(g) =~= encoded_entries(m));
            let p = |x: (Seq<u8>, (Node, Node))| x.0 == encode(x.1.0);
            assert forall|i: int| 0 <= i < e.len() implies p(#[trigger] e[i]) by {
                encode_settled(m[i].0);
            }
            crate::order::lemma_stable_sort_all(e, p);
            let out = arranged(n)->Pairs_0;
            assert forall|i: int| 0 <= i < m.len() implies #[trigger] encoded_entries(out)[i]
                == sorted.map_values(g)[i] by {
                assert(p(sorted[i]));
                assert(out[i] == sorted[i].1);
            }
            assert(encoded_entries(out) =~= sorted.map_values(g));
            crate::order::stable_sort_in_order(encoded_entries(m));
            crate::order::stable_sort_fixed(encoded_entries(out));
        },
        _ => {},
    }
}

proof fn lemma_encode_all_settled(a: Seq<Node>, b: Seq<Node>)
    requires
        a.len() == b.len(),
        forall|i: int| 0 <= i < a.len() ==> #[trigger] b[i] == arranged(a[i]),
    ensures
        encode_all(a) == encode_all(b),
    decreases a,
{
    if a.len() > 0 {
        let n = a.len() - 1;
        assert(b[n] == arranged(a[n]));
        encode_settled(a[n]);
        assert forall|i: int| 0 <= i < n implies #[trigger] b.drop_last()[i] == arranged(
            a.drop_last()[i],
        ) by {
            assert(b[i] == arranged(a[i]));
        }
        lemma_encode_all_settled(a.drop_last(), b.drop_last());
    }
}

/// A data item as a CBOR reader hands it out.
pub enum Item {
    Integer(int),
    Bytes(Seq<u8>),
    Float(u64),
    Text(Seq<char>),
    Bool(bool),
    Null,
    Tag(u64, Box<Item>),
    Array(Seq<Item>),
    Pairs(Seq<(Item, Item)>),
    Other,
}

/// The item that a tree is.
pub open spec fn as_item(n: Node) -> Item
    decreases n,
{
    match n {
        Node::Int(i) => Item::Integer(i),
        Node::Bytes(b) => Item::Bytes(b),
        Node::Text(s) => Item::Text(s),
        Node::Array(a) => Item::Array(
            Seq::new(
                a.len(),
                |i: int|
                    if 0 <= i < a.len() {
                        as_item(a[i])
                    } else {
                        Item::Null
                    },
            ),
        ),
        Node::Pairs(m) => Item::Pairs(
            Seq::new(
                m.len(),
                |i: int|
                    if 0 <= i < m.len() {
                        (as_item(m[i].0), as_item(m[i].1))
                    } else {
                        (Item::Null, Item::Null)
                    },
            ),
        ),
        Node::Bool(b) => Item::Bool(b),
        Node::Float(f) => Item::Float(f),
        Node::Null => Item::Null,
    }
}

/// The tree that an item is lowered to: a tag gives way to what it tags, and what the
/// protocol has no shape for reads as null.
pub open spec fn lowered(i: Item) -> Node
    decreases i,
{
    match i {
        Item::Integer(i) => Node::Int(i),
        Item::Bytes(b) => Node::Bytes(b),
        Item::Float(f) => Node::Float(f),
        Item::Text(s) => Node::Text(s),
        Item::Bool(b) => Node::Bool(b),
        Item::Null => Node::Null,
        Item::Tag(_, inner) => lowered(*inner),
        Item::Array(a) => Node::Array(
            Seq::new(
                a.len(),
                |k: int|
                    if 0 <= k < a.len() {
                        lowered(a[k])
                    } else {
                        Node::Null
                    },
            ),
        ),
        Item::Pairs(m) => Node::Pairs(
            Seq::new(
                m.len(),
                |k: int|
                    if 0 <= k < m.len() {
                        (lowered(m[k].0), lowered(m[k].1))
                    } else {
                        (Node::Null, Node::Null)
                    },
            ),
        ),
        Item::Other => Node::Null,
    }
}

/// Lowering takes nothing from a tree.
pub proof fn lowered_as_item(n: Node)
    ensures
        lowered(as_item(n)) == n,
    decreases n,
{
    match n {
        Node::Array(a) => {
            assert forall|i: int| 0 <= i < a.len() implies lowered(as_item(#[trigger] a[i])) == a[i] by {
                lowered_as_item(a[i]);
            }
            assert(lowered(as_item(n))->Array_0 =~= a);
        },
        Node::Pairs(m) => {
            assert forall|i: int| 0 <= i < m.len() implies lowered(as_item((#[trigger] m[i]).0))
                == m[i].0 && lowered(as_item(m[i].1)) == m[i].1 by {
                lowered_as_item(m[i].0);
                lowered_as_item(m[i].1);
            }
            assert(lowered(as_item(n))->Pairs_0 =~= m);
        },
        _ => {},
    }
}

/// The one NaN that stands for all.
pub const QUIET_NAN: u64 = 0x7ff8_0000_0000_0000;

/// A float by its bits, with every NaN taken for the same one: which bits a NaN has once it was
/// narrowed or widened differs from machine to machine.
pub open spec fn settled_bits(f: u64) -> u64 {
    if crate::ieee::is_nan_bits(f) {
        QUIET_NAN
    } else {
        f
    }
}

/// An item with every NaN in it taken for the same one.
pub open spec fn settled(i: Item) -> Item
    decreases i,
{
    match i {
        Item::Float(f) => Item::Float(settled_bits(f)),
        Item::Tag(t, inner) => Item::Tag(t, Box::new(settled(*inner))),
        Item::Array(a) => Item::Array(
            Seq::new(
                a.len(),
                |k: int|
                    if 0 <= k < a.len() {
                        settled(a[k])
                    } else {
                        Item::Null
                    },
            ),
        ),
        Item::Pairs(m) => Item::Pairs(
            Seq::new(
                m.len(),
                |k: int|
                    if 0 <= k < m.len() {
                        (settled(m[k].0), settled(m[k].1))
                    } else {
                        (Item::Null, Item::Null)
                    },
            ),
        ),
        _ => i,
    }
}

/// A tree with every NaN in it taken for the same one.
pub open spec fn settled_node(n: Node) -> Node
    decreases n,
{
    match n {
        Node::Float(f) => Node::Float(settled_bits(f)),
        Node::Array(a) => Node::Array(
            Seq::new(
                a.len(),
                |k: int|
                    if 0 <= k < a.len() {
                        settled_node(a[k])
                    } else {
                        Node::Null
                    },
            ),
        ),
        Node::Pairs(m) => Node::Pairs(
            Seq::new(
                m.len(),
                |k: int|
                    if 0 <= k < m.len() {
                        (settled_node(m[k].0), settled_node(m[k].1))
                    } else {
                        (Node::Null, Node::Null)
                    },
            ),
        ),
        _ => n,
    }
}

/// Entries with every NaN in them taken for the same one.
pub open spec fn settled_entries(m: Seq<(Node, Node)>) -> Seq<(Node, Node)> {
    m.map_values(|e: (Node, Node)| (settled_node(e.0), settled_node(e.1)))
}

pub proof fn lemma_settled_pairs(m: Seq<(Node, Node)>)
    ensures
        settled_node(Node::Pairs(m)) == Node::Pairs(settled_entries(m)),
{
    assert(settled_node(Node::Pairs(m))->Pairs_0 =~= settled_entries(m));
}

/// Settling and lowering can change places.
proof fn lemma_lowered_settled(i: Item)
    ensures
        lowered(settled(i)) == settled_node(lowered(i)),
    decreases i,
{
    match i {
        Item::Tag(_, inner) => {
            lemma_lowered_settled(*inner);
        },
        Item::Array(a) => {
            assert forall|k: int| 0 <= k < a.len() implies lowered(settled(#[trigger] a[k]))
                == settled_node(lowered(a[k])) by {
                lemma_lowered_settled(a[k]);
            }
            assert(lowered(settled(i))->Array_0 =~= settled_node(lowered(i))->Array_0);
        },
        Item::Pairs(m) => {
            assert forall|k: int| 0 <= k < m.len() implies lowered(settled((#[trigger] m[k]).0))
                == settled_node(lowered(m[k].0)) && lowered(settled(m[k].1)) == settled_node(
                lowered(m[k].1),
            ) by {
                lemma_lowered_settled(m[k].0);
                lemma_lowered_settled(m[k].1);
            }
            assert(lowered(settled(i))->Pairs_0 =~= settled_node(lowered(i))->Pairs_0);
        },
        _ => {},
    }
}

/// There is no NaN in the tree.
pub open spec fn nan_free(n: Node) -> bool
    decreases n,
{
    match n {
        Node::Float(f) => !crate::ieee::is_nan_bits(f),
        Node::Array(a) => forall|k: int| 0 <= k < a.len() ==> nan_free(#[trigger] a[k]),
        Node::Pairs(m) => forall|k: int|
            0 <= k < m.len() ==> nan_free((#[trigger] m[k]).0) && nan_free(m[k].1),
        _ => true,
    }
}

/// `n` is what a reader makes of the bytes: but for the bits of a NaN it is the tree named by
/// `read_item`.
pub open spec fn reads_as(bytes: Seq<u8>, n: Node) -> bool {
    read_item(bytes) is Some && settled_node(n) == lowered(read_item(bytes)->0)
}

/// Where no NaN is read the bytes settle the tree.
pub proof fn reads_as_one(bytes: Seq<u8>, n: Node)
    requires
        reads_as(bytes, n),
        nan_free(lowered(read_item(bytes)->0)),
    ensures
        n == lowered(read_item(bytes)->0),
{
    lemma_nan_free(n);
}

proof fn lemma_nan_free(n: Node)
    requires
        nan_free(settled_node(n)),
    ensures
        settled_node(n) == n,
    decreases n,
{
    let s = settled_node(n);
    match n {
        Node::Float(f) => {
            assert(crate::ieee::is_nan_bits(0x7ff8_0000_0000_0000)) by (bit_vector);
        },
        Node::Array(a) => {
            let b = s->Array_0;
            assert forall|k: int| 0 <= k < a.len() implies settled_node(#[trigger] a[k]) == a[k] by {
                assert(nan_free(b[k]));
                lemma_nan_free(a[k]);
            }
            assert(b =~= a);
        },
        Node::Pairs(m) => {
            let b = s->Pairs_0;
            assert forall|k: int| 0 <= k < m.len() implies settled_node((#[trigger] m[k]).0)
                == m[k].0 && settled_node(m[k].1) == m[k].1 by {
                assert(nan_free(b[k].0) && nan_free(b[k].1));
                lemma_nan_free(m[k].0);
                lemma_nan_free(m[k].1);
            }
            assert(b =~= m);
        },
        _ => {},
    }
}

/// A data item of `ciborium`.
#[verifier::external_type_specification]
#[verifier::external_body]
pub struct ExDataItem(DataItem);

/// Why `ciborium` could not read its input.
#[verifier::external_type_specification]
#[verifier::external_body]
#[verifier::reject_recursive_types(T)]
pub struct ExReadError<T>(ReadError<T>);

/// The error of a byte source.
#[verifier::external_type_specification]
#[verifier::external_body]
pub struct ExIoError(IoError);

/// The item that a `ciborium` value holds.
pub uninterp spec fn item(v: DataItem) -> Item;

/// What `ciborium` reads from the front of `bytes`, with every NaN settled; `None` where it
/// reports an error.
pub uninterp spec fn read_item(bytes: Seq<u8>) -> Option<Item>;

/// One level of a `ciborium` value, with what is inside still to be opened.
pub enum Opened {
    Integer(i128),
    Bytes(Vec<u8>),
    Float(u64),
    Text(String),
    Bool(bool),
    Null,
    Tag(u64, Box<DataItem>),
    Array(Vec<DataItem>),
    Pairs(Vec<(DataItem, DataItem)>),
    Other,
}

/// The item that an opened value is.
pub open spec fn opened_item(r: Opened) -> Item {
    match r {
        Opened::Integer(i) => Item::Integer(i as int),
        Opened::Bytes(b) => Item::Bytes(b@),
        Opened::Float(f) => Item::Float(f),
        Opened::Text(s) => Item::Text(s@),
        Opened::Bool(b) => Item::Bool(b),
        Opened::Null => Item::Null,
        Opened::Tag(t, inner) => Item::Tag(t, Box::new(item(*inner))),
        Opened::Array(a) => Item::Array(Seq::new(a@.len(), |i: int| item(a@[i]))),
        Opened::Pairs(m) => Item::Pairs(
            Seq::new(m@.len(), |i: int| (item(m@[i].0), item(m@[i].1))),
        ),
        Opened::Other => Item::Other,
    }
}

/// Reads one data item from the front of `bytes` with `ciborium::de::from_reader`.
///
/// Floats are narrowed and widened on the way, and which bits a NaN then has differs from
/// machine to machine. But for that the result depends on the bytes alone: with every NaN
/// settled it is named `read_item`. Of the plain encoding of a readable tree, with at most 256
/// arrays and maps inside one another (the reader's recursion limit), the reader gives that tree
/// back. What it makes of other bytes is left to the name.
#[verifier::external_body]
fn parse(bytes: &[u8]) -> (r: core::result::Result<
    DataItem,
    ReadError<IoError>,
>)
    ensures
        read_item(bytes@) == (match r {
            Ok(v) => Some(settled(item(v))),
            Err(_) => None,
        }),
        forall|n: Node|
            readable(n, 256) && bytes@ == #[trigger] wire(n) ==> r is Ok && item(r->Ok_0)
                == as_item(n),
{
    ciborium::de::from_reader(bytes)
}

/// Opens one level of a `ciborium::value::Value`: each variant is handed over with the
/// fields it has, an integer as `i128` and a float by its bits. Nothing is changed.
#[verifier::external_body]
fn open(v: DataItem) -> (r: Opened)
    ensures
        opened_item(r) == item(v),
{
    match v {
        DataItem::Integer(i) => Opened::Integer(i.into()),
        DataItem::Bytes(b) => Opened::Bytes(b),
        DataItem::Float(f) => Opened::Float(f.to_bits()),
        DataItem::Text(s) => Opened::Text(s),
        DataItem::Bool(b) => Opened::Bool(b),
        DataItem::Null => Opened::Null,
        DataItem::Tag(t, inner) => Opened::Tag(t, inner),
        DataItem::Array(a) => Opened::Array(a),
        DataItem::Map(m) => Opened::Pairs(m),
        _ => Opened::Other,
    }
}

/// Lower a `ciborium` value. Tags are unused by the protocol and give way to the tagged
/// value; what has no protocol meaning becomes null.
pub fn from_ciborium(v: DataItem) -> (r: Value)
    ensures
        r@ == lowered(item(v)),
    decreases item(v),
{
    let ghost whole = item(v);
    match open(v) {
        Opened::Integer(i) => Value::Int(i),
        Opened::Bytes(b) => Value::Bytes(b),
        Opened::Float(f) => Value::Float(f),
        Opened::Text(s) => Value::Text(s),
        Opened::Bool(b) => Value::Bool(b),
        Opened::Null => Value::Null,
        Opened::Tag(_, inner) => {
            assert(decreases_to!(whole => whole->Tag_1));
            from_ciborium(*inner)
        },
        Opened::Array(a) => {
            let ghost items = whole->Array_0;
            let ghost all = a@;
            let mut out: Vec<Value> = Vec::new();
            for x in it: a
                invariant
                    it.seq() == all,
                    whole == item(v),
                    whole == Item::Array(items),
                    items == Seq::new(all.len(), |i: int| item(all[i])),
                    out@.len() == it.index(),
                    forall|i: int| 0 <= i < out@.len() ==> (#[trigger] out@[i])@ == lowered(
                        items[i],
                    ),
            {
                assert(decreases_to!(whole => whole->Array_0));
                assert(decreases_to!(items => items[it.index() as int]));
                assert(item(x) == items[it.index() as int]);
                out.push(from_ciborium(x));
            }
            proof {
                lemma_view_array(out);
                assert(nodes(out@) =~= lowered(whole)->Array_0);
            }
            Value::Array(out)
        },
        Opened::Pairs(m) => {
            let ghost items = whole->Pairs_0;
            let ghost all = m@;
            let mut out: Vec<(Value, Value)> = Vec::new();
            for e in it: m
                invariant
                    it.seq() == all,
                    whole == item(v),
                    whole == Item::Pairs(items),
                    items == Seq::new(all.len(), |i: int| (item(all[i].0), item(all[i].1))),
                    out@.len() == it.index(),
                    forall|i: int|
                        0 <= i < out@.len() ==> (#[trigger] out@[i]).0@ == lowered(items[i].0)
                            && out@[i].1@ == lowered(items[i].1),
            {
                let ghost k = it.index() as int;
                assert(decreases_to!(whole => whole->Pairs_0));
                assert(decreases_to!(items => items[k]));
                assert(decreases_to!(items[k] => items[k].0));
                assert(decreases_to!(items[k] => items[k].1));
                assert(items[k] == (item(e.0), item(e.1)));
                let (key, val) = e;
                out.push((from_ciborium(key), from_ciborium(val)));
            }
            proof {
                lemma_view_map(out);
                assert(entries(out@) =~= lowered(whole)->Pairs_0);
            }
            Value::Pairs(out)
        },
        Opened::Other => Value::Null,
    }
}

/// Decode any valid CBOR into a [`Value`]; malformed input is a protocol violation.
///
/// The canonical encoding of a readable tree decodes to that tree, with the entries of
/// its maps in canonical order. A float is kept bit for bit as the reader hands it out; the
/// bytes settle it but for the bits of a NaN.
pub fn decode(bytes: &[u8]) -> (r: Result<Value>)
    ensures
        match r {
            Ok(v) => reads_as(bytes@, v@),
            Err(e) => read_item(bytes@) is None && e == Error::ProtocolViolation,
        },
        forall|n: Node|
            readable(n, 256) && bytes@ == #[trigger] encode(n) ==> r is Ok && r->Ok_0@ == arranged(
                n,
            ),
{
    match parse(bytes) {
        Ok(v) => {
            proof {
                lemma_lowered_settled(item(v));
                assert forall|n: Node|
                    readable(n, 256) && bytes@ == #[trigger] encode(n) implies lowered(item(v))
                    == arranged(n) by {
                    encode_is_arranged_wire(n);
                    lemma_arranged_readable(n, 256);
                    assert(wire(arranged(n)) == bytes@);
                    lowered_as_item(arranged(n));
                }
            }
            Ok(from_ciborium(v))
        },
        Err(_) => {
            proof {
                assert forall|n: Node|
                    readable(n, 256) && bytes@ == #[trigger] encode(n) implies false by {
                    encode_is_arranged_wire(n);
                    lemma_arranged_readable(n, 256);
                    assert(wire(arranged(n)) == bytes@);
                }
            }
            Err(Error::ProtocolViolation)
        },
    }
}

} // verus!
