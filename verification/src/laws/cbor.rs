//! How an encoding reads, byte by byte.

use vstd::prelude::*;
use crate::be::{be, be_round_trip, be_value, lemma_be_len, lemma_pow256_values};
use crate::cbor::{
    Item, Node, encode, encode_all, encoded_entries, equal, float_bytes, head, joined, lowered,
    settled_bits, wire, wire_all, wire_entries,
};
use crate::ieee::{as_half, as_single, is_nan_bits, same16, same32};
use crate::order::{lex_le, stable_sort, stable_sort_in_order, stable_sort_permutes};

verus! {

/// The bytes of a number, most significant first: the first is the number divided by 256 for
/// each byte behind it.
pub proof fn most_significant_byte_comes_first(v: nat, n: nat)
    ensures
        be(v, 1) == seq![(v % 0x100) as u8],
        be(v, 2) == seq![(v / 0x100 % 0x100) as u8, (v % 0x100) as u8],
        be(v, n).len() == n,
        n > 0 ==> be(v, n).last() == v % 0x100 && be(v, n).drop_last() == be(
            v / 0x100,
            (n - 1) as nat,
        ),
{
    lemma_be_len(v, n);
    reveal_with_fuel(be, 3);
    assert(be(v, 1) =~= seq![(v % 0x100) as u8]);
    assert(be(v, 2) =~= seq![(v / 0x100 % 0x100) as u8, (v % 0x100) as u8]);
    if n > 0 {
        assert(be(v, n).drop_last() =~= be(v / 0x100, (n - 1) as nat));
    }
}

/// How a head is read: the top three bits of its first byte are the major type, the other five
/// the argument below 24, or that it stands in the next one, two, four or eight bytes.
pub open spec fn read_head(b: Seq<u8>) -> (int, int, int) {
    let major = b[0] as int / 32;
    let info = b[0] as int % 32;
    if info < 24 {
        (major, info, 1)
    } else if info == 24 {
        (major, be_value(b.subrange(1, 2)) as int, 2)
    } else if info == 25 {
        (major, be_value(b.subrange(1, 3)) as int, 3)
    } else if info == 26 {
        (major, be_value(b.subrange(1, 5)) as int, 5)
    } else {
        (major, be_value(b.subrange(1, 9)) as int, 9)
    }
}

/// A head reads back as what it was written for, whatever stands behind it, and it is the
/// shortest that does: one byte below 24, two below 256, three below 65536, five below 2^32.
pub proof fn head_reads_back(major: nat, arg: nat, rest: Seq<u8>)
    requires
        major < 8,
        arg < 0x1_0000_0000_0000_0000,
    ensures
        read_head(head(major, arg) + rest) == (major as int, arg as int, head(
            major,
            arg,
        ).len() as int),
        head(major, arg).len() == if arg < 24 {
            1nat
        } else if arg < 0x100 {
            2
        } else if arg < 0x1_0000 {
            3
        } else if arg < 0x1_0000_0000 {
            5
        } else {
            9
        },
{
    let b = head(major, arg) + rest;
    lemma_pow256_values();
    if arg >= 24 {
        let n: nat = if arg < 0x100 {
            1
        } else if arg < 0x1_0000 {
            2
        } else if arg < 0x1_0000_0000 {
            4
        } else {
            8
        };
        lemma_be_len(arg, n);
        be_round_trip(arg, n);
        assert(b.subrange(1, 1 + n as int) =~= be(arg, n));
        vstd::arithmetic::div_mod::lemma_small_mod(arg, crate::be::pow256(n));
    }
}

/// Each kind of value has its major type: numbers 0 and 1, the latter for negative ones, byte
/// strings 2, texts 3 as UTF-8, arrays 4 and maps 5, with their length; false, true and null are
/// one byte each. Of a number beyond 64 bits the low ones count. An array's elements follow in
/// order.
pub proof fn kinds_have_their_heads(i: int, b: Seq<u8>, s: Seq<char>, a: Seq<Node>, x: Node)
    requires
        -0x1_0000_0000_0000_0000 <= i < 0x1_0000_0000_0000_0000,
    ensures
        i >= 0 ==> encode(Node::Int(i)) == head(0, i as nat),
        i < 0 ==> encode(Node::Int(i)) == head(1, (-1 - i) as nat),
        i >= 0 ==> encode(Node::Int(i + 0x1_0000_0000_0000_0000)) == encode(Node::Int(i)),
        i < 0 ==> encode(Node::Int(i - 0x1_0000_0000_0000_0000)) == encode(Node::Int(i)),
        encode(Node::Bytes(b)) == head(2, b.len()) + b,
        encode(Node::Text(s)) == head(3, vstd::utf8::encode_utf8(s).len())
            + vstd::utf8::encode_utf8(s),
        encode(Node::Array(Seq::empty())) == head(4, 0),
        encode(Node::Array(a)) == head(4, a.len()) + encode_all(a),
        encode_all(a.push(x)) == encode_all(a) + encode(x),
        encode(Node::Bool(false)) == seq![0xf4u8],
        encode(Node::Bool(true)) == seq![0xf5u8],
        encode(Node::Null) == seq![0xf6u8],
{
    assert(a.push(x).drop_last() =~= a);
    assert(encode(Node::Array(Seq::empty())) =~= head(4, 0));
    if i >= 0 {
        vstd::arithmetic::div_mod::lemma_small_mod(i as nat, 0x1_0000_0000_0000_0000nat);
    } else {
        vstd::arithmetic::div_mod::lemma_small_mod((-1 - i) as nat, 0x1_0000_0000_0000_0000nat);
    }
}

/// The reader's side: the plain encoding differs from the canonical one in nothing but the order
/// of map entries.
pub proof fn plain_encoding_has_the_same_heads(n: Node, a: Seq<Node>, m: Seq<(Node, Node)>)
    ensures
        !(n is Array) && !(n is Pairs) ==> wire(n) == encode(n),
        wire(Node::Array(a)) == head(4, a.len()) + wire_all(a),
        wire(Node::Pairs(m)) == head(5, m.len()) + joined(wire_entries(m)),
        a.len() > 0 ==> wire_all(a) == wire_all(a.drop_last()) + wire(a.last()),
        a.len() == 0 ==> wire_all(a).len() == 0,
{
}

/// `a` comes before `b`, or is the same: they agree up to some place, and there `a` ends or has
/// the lesser byte.
pub open spec fn not_after(a: Seq<u8>, b: Seq<u8>) -> bool {
    exists|k: int| #[trigger]
        agree_up_to(a, b, k) && (k == a.len() || k < a.len() && k < b.len() && a[k] < b[k])
}

/// The first `k` bytes of both are the same.
pub open spec fn agree_up_to(a: Seq<u8>, b: Seq<u8>, k: int) -> bool {
    0 <= k <= a.len() && k <= b.len() && a.take(k) == b.take(k)
}

/// The order of keys is the bytewise order.
pub proof fn keys_are_ordered_bytewise(a: Seq<u8>, b: Seq<u8>)
    ensures
        lex_le(a, b) == not_after(a, b),
    decreases a.len(),
{
    if a.len() == 0 {
        assert(a.take(0) =~= b.take(0));
        assert(agree_up_to(a, b, 0));
    } else if b.len() == 0 {
        if not_after(a, b) {
            let k = choose|k: int| #[trigger]
                agree_up_to(a, b, k) && (k == a.len() || k < a.len() && k < b.len() && a[k] < b[k]);
            assert(k == 0);
        }
    } else {
        let x = a.drop_first();
        let y = b.drop_first();
        keys_are_ordered_bytewise(x, y);
        assert(a.take(0) =~= b.take(0));
        if a[0] < b[0] {
            assert(agree_up_to(a, b, 0));
        }
        if a[0] == b[0] && not_after(x, y) {
            let k = choose|k: int| #[trigger]
                agree_up_to(x, y, k) && (k == x.len() || k < x.len() && k < y.len() && x[k] < y[k]);
            assert(a.take(k + 1) =~= seq![a[0]] + x.take(k));
            assert(b.take(k + 1) =~= seq![b[0]] + y.take(k));
            assert(agree_up_to(a, b, k + 1));
        }
        if not_after(a, b) {
            let k = choose|k: int| #[trigger]
                agree_up_to(a, b, k) && (k == a.len() || k < a.len() && k < b.len() && a[k] < b[k]);
            if k > 0 {
                assert(a.take(k)[0] == b.take(k)[0]);
                assert(x.take(k - 1) =~= a.take(k).drop_first());
                assert(y.take(k - 1) =~= b.take(k).drop_first());
                assert(agree_up_to(x, y, k - 1));
            }
        }
    }
}

/// A map is its number of entries and then every entry once, key before value, with the encoded
/// keys in bytewise order.
pub proof fn map_is_its_sorted_entries(m: Seq<(Node, Node)>) -> (s: Seq<(Seq<u8>, Seq<u8>)>)
    ensures
        encode(Node::Pairs(m)) == head(5, m.len()) + joined(s),
        s.len() == m.len(),
        s.to_multiset() == encoded_entries(m).to_multiset(),
        forall|i: int, j: int| 0 <= i <= j < s.len() ==> not_after(#[trigger] s[i].0, #[trigger] s[j].0),
        forall|i: int|
            0 <= i < m.len() ==> #[trigger] encoded_entries(m)[i] == (
                encode(m[i].0),
                encode(m[i].1),
            ),
        s.len() > 0 ==> joined(s) == joined(s.drop_last()) + s.last().0 + s.last().1,
        s.len() == 0 ==> joined(s).len() == 0,
{
    let s = stable_sort(encoded_entries(m));
    stable_sort_in_order(encoded_entries(m));
    stable_sort_permutes(encoded_entries(m));
    assert forall|i: int, j: int| 0 <= i <= j < s.len() implies not_after(
        #[trigger] s[i].0,
        #[trigger] s[j].0,
    ) by {
        assert(lex_le(s[i].0, s[j].0));
        keys_are_ordered_bytewise(s[i].0, s[j].0);
    }
    s
}

/// A float takes the shortest form that holds it: two bytes where a half is the same number, else
/// four where a single is, else eight; behind a byte that says which. A NaN is f97e00.
pub proof fn float_takes_the_shortest_form(bits: u64)
    ensures
        is_nan_bits(bits) ==> encode(Node::Float(bits)) == seq![0xf9u8, 0x7e, 0x00],
        !is_nan_bits(bits) ==> {
            let b = encode(Node::Float(bits));
            &&& b[0] == 0xf9 || b[0] == 0xfa || b[0] == 0xfb
            &&& (b[0] == 0xf9) == (exists|h: u16| #[trigger] same16(h, bits))
            &&& (b[0] == 0xfb) ==> !(exists|s: u32| #[trigger] same32(s, bits)) && b.skip(1) == be(
                bits as nat,
                8,
            )
            &&& b[0] == 0xf9 ==> exists|h: u16| #[trigger]
                same16(h, bits) && b.skip(1) == be(h as nat, 2)
            &&& b[0] == 0xfa ==> exists|s: u32| #[trigger]
                same32(s, bits) && b.skip(1) == be(s as nat, 4)
        },
{
    let b = float_bytes(bits);
    if !is_nan_bits(bits) {
        if as_half(bits) is Some {
            let h = as_half(bits)->0;
            assert(same16(h, bits));
            assert(b.skip(1) =~= be(h as nat, 2));
        } else if as_single(bits) is Some {
            let s = as_single(bits)->0;
            assert(same32(s, bits));
            assert(b.skip(1) =~= be(s as nat, 4));
        } else {
            assert(b.skip(1) =~= be(bits as nat, 8));
        }
    }
}

/// A pattern is a NaN if and only if what is left of it without the sign bit is above the pattern
/// of infinity.
pub proof fn nan_is_above_infinity(bits: u64)
    ensures
        is_nan_bits(bits) <==> bits % 0x8000_0000_0000_0000 > 0x7ff0_0000_0000_0000,
{
    assert(((bits >> 52u64) & 0x7ff == 0x7ff && bits & 0xf_ffff_ffff_ffff != 0) <==> bits
        % 0x8000_0000_0000_0000 > 0x7ff0_0000_0000_0000) by (bit_vector);
}

/// Floats are compared as numbers: a NaN is equal to nothing, not even itself, the two zeros are
/// equal, and any other number is equal to itself alone.
pub proof fn floats_compare_as_numbers(a: u64, b: u64)
    ensures
        a % 0x8000_0000_0000_0000 > 0x7ff0_0000_0000_0000 ==> !equal(Node::Float(a), Node::Float(b))
            && !equal(Node::Float(b), Node::Float(a)),
        a % 0x8000_0000_0000_0000 <= 0x7ff0_0000_0000_0000 ==> equal(
            Node::Float(a),
            Node::Float(a),
        ),
        equal(Node::Float(0), Node::Float(0x8000_0000_0000_0000)),
        a != b && a % 0x8000_0000_0000_0000 != 0 ==> !equal(Node::Float(a), Node::Float(b)),
        equal(Node::Float(a), Node::Float(b)) == equal(Node::Float(b), Node::Float(a)),
{
    nan_is_above_infinity(a);
    nan_is_above_infinity(b);
    nan_is_above_infinity(0);
    nan_is_above_infinity(0x8000_0000_0000_0000);
}

/// Values are compared by their kind and then by what they hold; arrays and maps entry by entry,
/// in order. Values without a float are equal exactly if they are the same.
pub proof fn values_compare_by_what_they_hold(a: Node, b: Node)
    ensures
        no_float(a) && no_float(b) ==> (equal(a, b) <==> a == b),
        equal(a, b) && !(a is Float) && !(a is Array) && !(a is Pairs) ==> a == b,
    decreases a,
{
    match (a, b) {
        (Node::Array(x), Node::Array(y)) => {
            if no_float(a) && no_float(b) {
                if equal(a, b) {
                    assert forall|i: int| 0 <= i < x.len() implies x[i] == y[i] by {
                        assert(equal(x[i], y[i]));
                        assert(no_float(x[i]) && no_float(y[i]));
                        values_compare_by_what_they_hold(x[i], y[i]);
                    }
                    assert(x =~= y);
                }
                if a == b {
                    assert forall|i: int| 0 <= i < x.len() implies equal(#[trigger] x[i], y[i]) by {
                        assert(no_float(x[i]));
                        values_compare_by_what_they_hold(x[i], y[i]);
                    }
                }
            }
        },
        (Node::Pairs(x), Node::Pairs(y)) => {
            if no_float(a) && no_float(b) {
                if equal(a, b) {
                    assert forall|i: int| 0 <= i < x.len() implies x[i] == y[i] by {
                        assert(equal(x[i].0, y[i].0) && equal(x[i].1, y[i].1));
                        assert(no_float(x[i].0) && no_float(x[i].1));
                        assert(no_float(y[i].0) && no_float(y[i].1));
                        values_compare_by_what_they_hold(x[i].0, y[i].0);
                        values_compare_by_what_they_hold(x[i].1, y[i].1);
                    }
                    assert(x =~= y);
                }
                if a == b {
                    assert forall|i: int| 0 <= i < x.len() implies equal(
                        (#[trigger] x[i]).0,
                        y[i].0,
                    ) && equal(x[i].1, y[i].1) by {
                        assert(no_float(x[i].0) && no_float(x[i].1));
                        values_compare_by_what_they_hold(x[i].0, y[i].0);
                        values_compare_by_what_they_hold(x[i].1, y[i].1);
                    }
                }
            }
        },
        _ => {},
    }
}

/// There is no float in the tree.
pub open spec fn no_float(n: Node) -> bool
    decreases n,
{
    match n {
        Node::Float(_) => false,
        Node::Array(a) => forall|i: int| 0 <= i < a.len() ==> no_float(#[trigger] a[i]),
        Node::Pairs(m) => forall|i: int|
            0 <= i < m.len() ==> no_float((#[trigger] m[i]).0) && no_float(m[i].1),
        _ => true,
    }
}

/// What is read is what is written there, value by value; a tag makes no difference to what it
/// stands before, and what has no shape of its own reads as null.
pub proof fn items_are_read_as_themselves(
    i: int,
    b: Seq<u8>,
    s: Seq<char>,
    f: u64,
    t: bool,
    tag: u64,
    inner: Item,
    a: Seq<Item>,
    m: Seq<(Item, Item)>,
    k: int,
)
    ensures
        lowered(Item::Integer(i)) == Node::Int(i),
        lowered(Item::Bytes(b)) == Node::Bytes(b),
        lowered(Item::Text(s)) == Node::Text(s),
        lowered(Item::Float(f)) == Node::Float(f),
        lowered(Item::Bool(t)) == Node::Bool(t),
        lowered(Item::Null) == Node::Null,
        lowered(Item::Other) == Node::Null,
        lowered(Item::Tag(tag, Box::new(inner))) == lowered(inner),
        lowered(Item::Array(a)) is Array,
        lowered(Item::Array(a))->Array_0.len() == a.len(),
        0 <= k < a.len() ==> lowered(Item::Array(a))->Array_0[k] == lowered(a[k]),
        lowered(Item::Pairs(m)) is Pairs,
        lowered(Item::Pairs(m))->Pairs_0.len() == m.len(),
        0 <= k < m.len() ==> lowered(Item::Pairs(m))->Pairs_0[k] == (
            lowered(m[k].0),
            lowered(m[k].1),
        ),
{
}

/// Settling a float leaves every number alone and makes every NaN the same.
pub proof fn settling_touches_nothing_but_nans(f: u64, g: u64)
    ensures
        f % 0x8000_0000_0000_0000 <= 0x7ff0_0000_0000_0000 ==> settled_bits(f) == f,
        f % 0x8000_0000_0000_0000 > 0x7ff0_0000_0000_0000 && g % 0x8000_0000_0000_0000
            > 0x7ff0_0000_0000_0000 ==> settled_bits(f) == settled_bits(g),
        f % 0x8000_0000_0000_0000 > 0x7ff0_0000_0000_0000 ==> settled_bits(f)
            % 0x8000_0000_0000_0000 > 0x7ff0_0000_0000_0000,
{
    nan_is_above_infinity(f);
    nan_is_above_infinity(g);
}

} // verus!
