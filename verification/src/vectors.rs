//! JSON documents and CBOR values.
//!
//! Conformance vectors write CBOR values as JSON: byte strings as `{"$hex": ".."}`, and the
//! integer keys of maps as decimal strings. Both directions are here. The text of a document is
//! read by `serde_json`, and what it reads is handed over as a [`Json`].

use vstd::prelude::*;
use serde_json::Error as JsonError;
use serde_json::Number as JsonNumber;
use serde_json::Value as JsonTree;
use crate::cbor::{
    Node, Value, entries, lemma_settled_pairs, lemma_view_array, lemma_view_map, nodes,
    settled_entries, settled_node,
};
use crate::text::{
    chars_of, integer, push_signed, read_integer, same_text, signed_decimal,
    signed_decimal_reads_back,
};

verus! {

broadcast use vstd::std_specs::vec::group_vec_axioms;

/// A JSON document.
#[derive(Debug, PartialEq)]
pub enum Json {
    Null,
    Bool(bool),
    /// A number that is a non-negative integer.
    Unsigned(u64),
    /// A number that is a negative integer.
    Signed(i64),
    /// Any other number, as the bits of its 64-bit form.
    Float(u64),
    Text(String),
    Array(Vec<Json>),
    /// The members, in order. Of two with one name the later counts.
    Object(Vec<(String, Json)>),
}

/// The tree that a [`Json`] stands for.
pub enum Doc {
    Null,
    Bool(bool),
    Unsigned(u64),
    Signed(i64),
    Float(u64),
    Text(Seq<char>),
    Array(Seq<Doc>),
    Object(Seq<(Seq<char>, Doc)>),
}

/// The tree of a document.
pub open spec fn doc(j: Json) -> Doc
    decreases j,
{
    match j {
        Json::Null => Doc::Null,
        Json::Bool(b) => Doc::Bool(b),
        Json::Unsigned(u) => Doc::Unsigned(u),
        Json::Signed(i) => Doc::Signed(i),
        Json::Float(f) => Doc::Float(f),
        Json::Text(s) => Doc::Text(s@),
        Json::Array(a) => Doc::Array(
            Seq::new(
                a@.len(),
                |i: int|
                    if 0 <= i < a@.len() {
                        doc(a[i])
                    } else {
                        Doc::Null
                    },
            ),
        ),
        Json::Object(m) => Doc::Object(
            Seq::new(
                m@.len(),
                |i: int|
                    if 0 <= i < m@.len() {
                        (m[i].0@, doc(m[i].1))
                    } else {
                        (Seq::empty(), Doc::Null)
                    },
            ),
        ),
    }
}

impl View for Json {
    type V = Doc;

    open spec fn view(&self) -> Doc {
        doc(*self)
    }
}

/// The trees of a run of documents.
pub open spec fn docs(s: Seq<Json>) -> Seq<Doc> {
    Seq::new(s.len(), |i: int| s[i]@)
}

/// The trees of a run of members.
pub open spec fn members(s: Seq<(String, Json)>) -> Seq<(Seq<char>, Doc)> {
    Seq::new(s.len(), |i: int| (s[i].0@, s[i].1@))
}

pub proof fn lemma_view_docs(a: Vec<Json>)
    ensures
        Json::Array(a)@ == Doc::Array(docs(a@)),
{
    let v = Json::Array(a);
    assert(v@->Array_0 =~= docs(a@));
}

pub proof fn lemma_view_members(m: Vec<(String, Json)>)
    ensures
        Json::Object(m)@ == Doc::Object(members(m@)),
{
    let v = Json::Object(m);
    assert(v@->Object_0 =~= members(m@));
}

/// A JSON value of `serde_json`.
#[verifier::external_type_specification]
#[verifier::external_body]
pub struct ExTree(JsonTree);

/// A JSON number of `serde_json`.
#[verifier::external_type_specification]
#[verifier::external_body]
pub struct ExNumber(JsonNumber);

/// Why `serde_json` could not read its input.
#[verifier::external_type_specification]
#[verifier::external_body]
pub struct ExTreeError(JsonError);

/// A JSON number: a non-negative integer, a negative one, or any other, by the bits of its 64-bit
/// form.
pub enum Numeral {
    Unsigned(u64),
    Signed(i64),
    Float(u64),
}

/// What a `serde_json` number holds.
pub uninterp spec fn numeral(n: JsonNumber) -> Numeral;

/// The tree that a `serde_json` value holds.
pub uninterp spec fn tree(v: JsonTree) -> Doc;

/// The tree that `serde_json` reads from a text; `None` where it reports an error.
pub uninterp spec fn read_json(text: Seq<char>) -> Option<Doc>;

/// `serde_json::Number::as_u64`: the number, if it is a non-negative integer.
pub assume_specification[ serde_json::Number::as_u64 ](n: &JsonNumber) -> (r: Option<u64>)
    ensures
        r == (match numeral(*n) {
            Numeral::Unsigned(u) => Some(u),
            _ => None,
        }),
;

/// `serde_json::Number::as_i64`: the number, if it is an integer that 64 signed bits hold.
pub assume_specification[ serde_json::Number::as_i64 ](n: &JsonNumber) -> (r: Option<i64>)
    ensures
        r == (match numeral(*n) {
            Numeral::Unsigned(u) => if u <= i64::MAX {
                Some(u as i64)
            } else {
                None
            },
            Numeral::Signed(i) => Some(i),
            Numeral::Float(_) => None,
        }),
;

/// `serde_json::Number::as_f64`, by its bits: there is always one, and of a number that is no
/// integer it is the number itself. What an integer is rounded to is left open.
#[verifier::external_body]
fn number_bits(n: &JsonNumber) -> (r: Option<u64>)
    ensures
        r is Some,
        numeral(*n) is Float ==> r->0 == numeral(*n)->Float_0,
{
    n.as_f64().map(|f| f.to_bits())
}

/// One level of a `serde_json` value, with what is inside still to be opened.
pub enum OpenedTree {
    Null,
    Bool(bool),
    Number(JsonNumber),
    Text(String),
    Array(Vec<JsonTree>),
    Object(Vec<(String, JsonTree)>),
}

/// The tree that a number is.
pub open spec fn numeral_doc(n: Numeral) -> Doc {
    match n {
        Numeral::Unsigned(u) => Doc::Unsigned(u),
        Numeral::Signed(i) => Doc::Signed(i),
        Numeral::Float(f) => Doc::Float(f),
    }
}

/// The tree that an opened value is.
pub open spec fn opened_tree(r: OpenedTree) -> Doc {
    match r {
        OpenedTree::Null => Doc::Null,
        OpenedTree::Bool(b) => Doc::Bool(b),
        OpenedTree::Number(n) => numeral_doc(numeral(n)),
        OpenedTree::Text(s) => Doc::Text(s@),
        OpenedTree::Array(a) => Doc::Array(Seq::new(a@.len(), |i: int| tree(a@[i]))),
        OpenedTree::Object(m) => Doc::Object(
            Seq::new(m@.len(), |i: int| (m@[i].0@, tree(m@[i].1))),
        ),
    }
}

/// Reads a JSON text with `serde_json::from_str`. The result depends on the text alone and is
/// named `read_json`; which texts are JSON, and what tree each is, is left to the name.
#[verifier::external_body]
fn parse_json(text: &str) -> (r: core::result::Result<JsonTree, JsonError>)
    ensures
        read_json(text@) == (match r {
            Ok(v) => Some(tree(v)),
            Err(_) => None,
        }),
{
    serde_json::from_str(text)
}

/// Opens one level of a `serde_json::Value`: each variant is handed over with the field it has,
/// an object as its members in the order in which `serde_json` keeps them. Nothing is changed.
#[verifier::external_body]
fn open_tree(v: JsonTree) -> (r: OpenedTree)
    ensures
        opened_tree(r) == tree(v),
{
    match v {
        JsonTree::Null => OpenedTree::Null,
        JsonTree::Bool(b) => OpenedTree::Bool(b),
        JsonTree::Number(n) => OpenedTree::Number(n),
        JsonTree::String(s) => OpenedTree::Text(s),
        JsonTree::Array(a) => OpenedTree::Array(a),
        JsonTree::Object(m) => OpenedTree::Object(m.into_iter().collect()),
    }
}

/// Hand a number over.
fn from_number(n: JsonNumber) -> (r: Json)
    ensures
        r@ == numeral_doc(numeral(n)),
{
    match (n.as_u64(), n.as_i64()) {
        (Some(u), _) => Json::Unsigned(u),
        (None, Some(i)) => Json::Signed(i),
        (None, None) => match number_bits(&n) {
            Some(f) => Json::Float(f),
            None => Json::Null,
        },
    }
}

/// Hand a `serde_json` value over.
fn from_tree(v: JsonTree) -> (r: Json)
    ensures
        r@ == tree(v),
    decreases tree(v),
{
    let ghost whole = tree(v);
    match open_tree(v) {
        OpenedTree::Null => Json::Null,
        OpenedTree::Bool(b) => Json::Bool(b),
        OpenedTree::Number(n) => from_number(n),
        OpenedTree::Text(s) => Json::Text(s),
        OpenedTree::Array(a) => {
            let ghost items = whole->Array_0;
            let ghost all = a@;
            let mut out: Vec<Json> = Vec::new();
            for x in it: a
                invariant
                    it.seq() == all,
                    whole == tree(v),
                    whole == Doc::Array(items),
                    items == Seq::new(all.len(), |i: int| tree(all[i])),
                    out@.len() == it.index(),
                    forall|i: int| 0 <= i < out@.len() ==> (#[trigger] out@[i])@ == items[i],
            {
                assert(decreases_to!(whole => whole->Array_0));
                assert(decreases_to!(items => items[it.index() as int]));
                assert(tree(x) == items[it.index() as int]);
                out.push(from_tree(x));
            }
            proof {
                lemma_view_docs(out);
                assert(docs(out@) =~= items);
            }
            Json::Array(out)
        },
        OpenedTree::Object(m) => {
            let ghost items = whole->Object_0;
            let ghost all = m@;
            let mut out: Vec<(String, Json)> = Vec::new();
            for e in it: m
                invariant
                    it.seq() == all,
                    whole == tree(v),
                    whole == Doc::Object(items),
                    items == Seq::new(all.len(), |i: int| (all[i].0@, tree(all[i].1))),
                    out@.len() == it.index(),
                    forall|i: int|
                        0 <= i < out@.len() ==> ((#[trigger] out@[i]).0@, out@[i].1@) == items[i],
            {
                let ghost k = it.index() as int;
                assert(decreases_to!(whole => whole->Object_0));
                assert(decreases_to!(items => items[k]));
                assert(decreases_to!(items[k] => items[k].1));
                assert(items[k] == (e.0@, tree(e.1)));
                let (name, value) = e;
                out.push((name, from_tree(value)));
            }
            proof {
                lemma_view_members(out);
                assert(members(out@) =~= items);
            }
            Json::Object(out)
        },
    }
}

/// Read a JSON document; `None` where the text is none.
pub fn read_document(text: &str) -> (r: Option<Json>)
    ensures
        reports_doc(r, read_json(text@)),
{
    match parse_json(text) {
        Ok(v) => Some(from_tree(v)),
        Err(_) => None,
    }
}

/// The value of a hexadecimal digit of either case.
pub open spec fn hex_value(c: char) -> Option<int> {
    if '0' <= c <= '9' {
        Some(c as u32 - '0' as u32)
    } else if 'a' <= c <= 'f' {
        Some(c as u32 - 'a' as u32 + 10)
    } else if 'A' <= c <= 'F' {
        Some(c as u32 - 'A' as u32 + 10)
    } else {
        None
    }
}

/// The lower-case hexadecimal digit of a value below sixteen.
pub open spec fn hex_digit(v: int) -> char {
    if v < 10 {
        ('0' as u32 + v) as char
    } else {
        ('a' as u32 + v - 10) as char
    }
}

/// Bytes as lower-case hexadecimal digits, two for each.
pub open spec fn hex_text(b: Seq<u8>) -> Seq<char>
    decreases b.len(),
{
    if b.len() == 0 {
        Seq::empty()
    } else {
        hex_text(b.drop_last()) + seq![
            hex_digit(b.last() as int / 16),
            hex_digit(b.last() as int % 16),
        ]
    }
}

/// The bytes that hexadecimal digits stand for; `None` for an odd number of characters or one
/// that is no digit.
pub open spec fn hex_bytes(s: Seq<char>) -> Option<Seq<u8>>
    decreases s.len(),
{
    if s.len() == 0 {
        Some(Seq::empty())
    } else if s.len() == 1 {
        None
    } else {
        match (hex_bytes(s.take(s.len() - 2)), hex_value(s[s.len() - 2]), hex_value(s.last())) {
            (Some(b), Some(hi), Some(lo)) => Some(b.push((16 * hi + lo) as u8)),
            _ => None,
        }
    }
}

/// Bytes read back from their hexadecimal form.
pub proof fn hex_round_trip(b: Seq<u8>)
    ensures
        hex_bytes(hex_text(b)) == Some(b),
    decreases b.len(),
{
    if b.len() > 0 {
        let t = b.drop_last();
        let s = hex_text(b);
        hex_round_trip(t);
        assert(s.take(s.len() - 2) =~= hex_text(t));
        assert(b =~= t.push(b.last()));
    }
}

/// Why hexadecimal digits could not be read.
#[verifier::external_type_specification]
#[verifier::external_body]
pub struct ExFromHexError(hex::FromHexError);

/// `hex::encode`: bytes as lower-case hexadecimal digits.
#[verifier::external_body]
pub(crate) fn to_hex(bytes: &[u8]) -> (r: String)
    ensures
        r@ == hex_text(bytes@),
{
    hex::encode(bytes)
}

/// `hex::decode`: the bytes that hexadecimal digits of either case stand for. It fails for an
/// odd number of digits and for anything that is no digit.
#[verifier::external_body]
pub(crate) fn from_hex(text: &str) -> (r: core::result::Result<Vec<u8>, hex::FromHexError>)
    ensures
        match hex_bytes(text@) {
            Some(b) => r is Ok && r->Ok_0@ == b,
            None => r is Err,
        },
{
    hex::decode(text)
}

/// The one member that marks a byte string.
pub open spec fn is_hex_object(m: Seq<(Seq<char>, Doc)>) -> bool {
    m.len() == 1 && m[0].0 == "$hex"@ && m[0].1 is Text
}

/// The key of a map: an integer where the text reads as one, and otherwise the text.
pub open spec fn key_node(k: Seq<char>) -> Node {
    match integer(k) {
        Some(i) => Node::Int(i as int),
        None => Node::Text(k),
    }
}

/// The CBOR tree that a JSON tree writes; `None` where a byte string is no hexadecimal.
pub open spec fn node_of(d: Doc) -> Option<Node>
    decreases d,
{
    match d {
        Doc::Null => Some(Node::Null),
        Doc::Bool(b) => Some(Node::Bool(b)),
        Doc::Unsigned(u) => Some(Node::Int(u as int)),
        Doc::Signed(i) => Some(Node::Int(i as int)),
        Doc::Float(f) => Some(Node::Float(f)),
        Doc::Text(s) => Some(Node::Text(s)),
        Doc::Array(a) => match nodes_of(a) {
            Some(list) => Some(Node::Array(list)),
            None => None,
        },
        Doc::Object(m) => if is_hex_object(m) {
            match hex_bytes(m[0].1->Text_0) {
                Some(b) => Some(Node::Bytes(b)),
                None => None,
            }
        } else {
            match pairs_of(m) {
                Some(list) => Some(Node::Pairs(list)),
                None => None,
            }
        },
    }
}

pub open spec fn nodes_of(a: Seq<Doc>) -> Option<Seq<Node>>
    decreases a,
{
    if a.len() == 0 {
        Some(Seq::empty())
    } else {
        match (nodes_of(a.drop_last()), node_of(a.last())) {
            (Some(list), Some(n)) => Some(list.push(n)),
            _ => None,
        }
    }
}

pub open spec fn pairs_of(m: Seq<(Seq<char>, Doc)>) -> Option<Seq<(Node, Node)>>
    decreases m,
{
    if m.len() == 0 {
        Some(Seq::empty())
    } else {
        match (pairs_of(m.drop_last()), node_of(m.last().1)) {
            (Some(list), Some(n)) => Some(list.push((key_node(m.last().0), n))),
            _ => None,
        }
    }
}

/// An integer as JSON: a number where JSON numbers hold it, and otherwise its decimal digits.
pub open spec fn int_doc(i: int) -> Doc {
    if 0 <= i <= u64::MAX {
        Doc::Unsigned(i as u64)
    } else if i64::MIN <= i <= i64::MAX {
        Doc::Signed(i as i64)
    } else {
        Doc::Text(signed_decimal(i))
    }
}

/// The text of a map key; `None` for a key that is neither an integer nor a text.
pub open spec fn key_text(k: Node) -> Option<Seq<char>> {
    match k {
        Node::Int(i) => Some(signed_decimal(i)),
        Node::Text(s) => Some(s),
        _ => None,
    }
}

/// A float that JSON can write: neither infinite nor a NaN.
pub open spec fn is_finite(bits: u64) -> bool {
    (bits >> 52u64) & 0x7ff != 0x7ff
}

/// The JSON tree that writes a CBOR tree; `None` where it holds what JSON cannot write.
pub open spec fn doc_of(n: Node) -> Option<Doc>
    decreases n,
{
    match n {
        Node::Int(i) => Some(int_doc(i)),
        Node::Bytes(b) => Some(Doc::Object(seq![("$hex"@, Doc::Text(hex_text(b)))])),
        Node::Text(s) => Some(Doc::Text(s)),
        Node::Array(a) => match docs_of(a) {
            Some(list) => Some(Doc::Array(list)),
            None => None,
        },
        Node::Pairs(m) => match members_of(m) {
            Some(list) => Some(Doc::Object(list)),
            None => None,
        },
        Node::Bool(b) => Some(Doc::Bool(b)),
        Node::Float(f) => if is_finite(f) {
            Some(Doc::Float(f))
        } else {
            None
        },
        Node::Null => Some(Doc::Null),
    }
}

pub open spec fn docs_of(a: Seq<Node>) -> Option<Seq<Doc>>
    decreases a,
{
    if a.len() == 0 {
        Some(Seq::empty())
    } else {
        match (docs_of(a.drop_last()), doc_of(a.last())) {
            (Some(list), Some(d)) => Some(list.push(d)),
            _ => None,
        }
    }
}

pub open spec fn members_of(m: Seq<(Node, Node)>) -> Option<Seq<(Seq<char>, Doc)>>
    decreases m,
{
    if m.len() == 0 {
        Some(Seq::empty())
    } else {
        match (members_of(m.drop_last()), key_text(m.last().0), doc_of(m.last().1)) {
            (Some(list), Some(k), Some(d)) => Some(list.push((k, d))),
            _ => None,
        }
    }
}

/// JSON writes no NaN, so settling a tree makes no difference to how it is written.
pub proof fn doc_of_settled(n: Node)
    ensures
        doc_of(settled_node(n)) == doc_of(n),
    decreases n,
{
    match n {
        Node::Float(f) => {
            assert(!is_finite(0x7ff8_0000_0000_0000)) by (bit_vector);
            assert(crate::ieee::is_nan_bits(f) ==> !is_finite(f));
        },
        Node::Array(a) => {
            lemma_docs_settled(a, settled_node(n)->Array_0);
        },
        Node::Pairs(m) => {
            lemma_settled_pairs(m);
            lemma_members_settled(m);
        },
        _ => {},
    }
}

proof fn lemma_docs_settled(a: Seq<Node>, b: Seq<Node>)
    requires
        a.len() == b.len(),
        forall|i: int| 0 <= i < a.len() ==> #[trigger] b[i] == settled_node(a[i]),
    ensures
        docs_of(b) == docs_of(a),
    decreases a,
{
    if a.len() > 0 {
        let n = a.len() - 1;
        assert(b[n] == settled_node(a[n]));
        doc_of_settled(a[n]);
        assert forall|i: int| 0 <= i < n implies #[trigger] b.drop_last()[i] == settled_node(
            a.drop_last()[i],
        ) by {
            assert(b[i] == settled_node(a[i]));
        }
        lemma_docs_settled(a.drop_last(), b.drop_last());
    }
}

proof fn lemma_members_settled(m: Seq<(Node, Node)>)
    ensures
        members_of(settled_entries(m)) == members_of(m),
    decreases m,
{
    if m.len() > 0 {
        let n = m.len() - 1;
        assert(settled_entries(m).drop_last() =~= settled_entries(m.drop_last()));
        lemma_members_settled(m.drop_last());
        assert(decreases_to!(m => m[n]));
        doc_of_settled(m[n].1);
    }
}

proof fn lemma_nodes_none(a: Seq<Doc>, k: int)
    requires
        0 <= k <= a.len(),
        nodes_of(a.take(k)) is None,
    ensures
        nodes_of(a) is None,
    decreases a.len(),
{
    if k < a.len() {
        assert(a.drop_last().take(k) =~= a.take(k));
        lemma_nodes_none(a.drop_last(), k);
    } else {
        assert(a.take(k) =~= a);
    }
}

proof fn lemma_pairs_none(a: Seq<(Seq<char>, Doc)>, k: int)
    requires
        0 <= k <= a.len(),
        pairs_of(a.take(k)) is None,
    ensures
        pairs_of(a) is None,
    decreases a.len(),
{
    if k < a.len() {
        assert(a.drop_last().take(k) =~= a.take(k));
        lemma_pairs_none(a.drop_last(), k);
    } else {
        assert(a.take(k) =~= a);
    }
}

proof fn lemma_docs_none(a: Seq<Node>, k: int)
    requires
        0 <= k <= a.len(),
        docs_of(a.take(k)) is None,
    ensures
        docs_of(a) is None,
    decreases a.len(),
{
    if k < a.len() {
        assert(a.drop_last().take(k) =~= a.take(k));
        lemma_docs_none(a.drop_last(), k);
    } else {
        assert(a.take(k) =~= a);
    }
}

proof fn lemma_members_none(a: Seq<(Node, Node)>, k: int)
    requires
        0 <= k <= a.len(),
        members_of(a.take(k)) is None,
    ensures
        members_of(a) is None,
    decreases a.len(),
{
    if k < a.len() {
        assert(a.drop_last().take(k) =~= a.take(k));
        lemma_members_none(a.drop_last(), k);
    } else {
        assert(a.take(k) =~= a);
    }
}

/// The result `r` reports the tree `n`.
pub open spec fn reports_node(r: Option<Value>, n: Option<Node>) -> bool {
    match n {
        Some(n) => r is Some && r->0@ == n,
        None => r is None,
    }
}

/// The result `r` reports the tree `d`.
pub open spec fn reports_doc(r: Option<Json>, d: Option<Doc>) -> bool {
    match d {
        Some(d) => r is Some && r->0@ == d,
        None => r is None,
    }
}

/// Convert a JSON document into a CBOR value. `None` where a byte string is no hexadecimal.
pub fn json_to_cbor(j: &Json) -> (r: Option<Value>)
    ensures
        reports_node(r, node_of(j@)),
    decreases j,
{
    match j {
        Json::Null => Some(Value::Null),
        Json::Bool(b) => Some(Value::Bool(*b)),
        Json::Unsigned(u) => Some(Value::Int(*u as i128)),
        Json::Signed(i) => Some(Value::Int(*i as i128)),
        Json::Float(f) => Some(Value::Float(*f)),
        Json::Text(s) => Some(Value::Text(s.clone())),
        Json::Array(a) => {
            proof {
                lemma_view_docs(*a);
            }
            let ghost all = docs(a@);
            let mut out: Vec<Value> = Vec::new();
            let mut k: usize = 0;
            assert(all.take(0) =~= Seq::empty());
            assert(nodes(out@) =~= Seq::empty());
            while k < a.len()
                invariant
                    k <= a@.len(),
                    *j == Json::Array(*a),
                    j@ == Doc::Array(all),
                    all == docs(a@),
                    nodes_of(all.take(k as int)) == Some(nodes(out@)),
                decreases a@.len() - k,
            {
                assert(decreases_to!(*j => j->Array_0));
                assert(decreases_to!(*a => a[k as int]));
                proof {
                    assert(all.take(k + 1).drop_last() =~= all.take(k as int));
                    assert(all.take(k + 1).last() == a@[k as int]@);
                }
                match json_to_cbor(&a[k]) {
                    Some(v) => {
                        let ghost before = nodes(out@);
                        out.push(v);
                        assert(nodes(out@) =~= before.push(v@));
                    },
                    None => {
                        proof {
                            lemma_nodes_none(all, k + 1);
                        }
                        return None;
                    },
                }
                k += 1;
            }
            proof {
                assert(all.take(k as int) =~= all);
                lemma_view_array(out);
            }
            Some(Value::Array(out))
        },
        Json::Object(m) => {
            proof {
                lemma_view_members(*m);
            }
            let ghost all = members(m@);
            if m.len() == 1 {
                let name: Vec<char> = chars_of(m[0].0.as_str());
                assert(all[0] == (m@[0].0@, m@[0].1@));
                if same_text(&name, "$hex") {
                    if let Json::Text(h) = &m[0].1 {
                        return match from_hex(h.as_str()) {
                            Ok(b) => Some(Value::Bytes(b)),
                            Err(_) => None,
                        };
                    }
                }
            }
            assert(!is_hex_object(all));
            let mut out: Vec<(Value, Value)> = Vec::new();
            let mut k: usize = 0;
            assert(all.take(0) =~= Seq::empty());
            assert(entries(out@) =~= Seq::empty());
            while k < m.len()
                invariant
                    k <= m@.len(),
                    *j == Json::Object(*m),
                    j@ == Doc::Object(all),
                    all == members(m@),
                    !is_hex_object(all),
                    pairs_of(all.take(k as int)) == Some(entries(out@)),
                decreases m@.len() - k,
            {
                assert(decreases_to!(*j => j->Object_0));
                assert(decreases_to!(*m => m[k as int]));
                assert(decreases_to!(m[k as int] => m[k as int].1));
                proof {
                    assert(all.take(k + 1).drop_last() =~= all.take(k as int));
                    assert(all.take(k + 1).last() == (m@[k as int].0@, m@[k as int].1@));
                }
                let name: Vec<char> = chars_of(m[k].0.as_str());
                let key: Value = match read_integer(&name) {
                    Some(i) => Value::Int(i),
                    None => Value::Text(m[k].0.clone()),
                };
                match json_to_cbor(&m[k].1) {
                    Some(v) => {
                        let ghost before = entries(out@);
                        out.push((key, v));
                        assert(entries(out@) =~= before.push((key@, v@)));
                    },
                    None => {
                        proof {
                            lemma_pairs_none(all, k + 1);
                        }
                        return None;
                    },
                }
                k += 1;
            }
            proof {
                assert(all.take(k as int) =~= all);
                lemma_view_map(out);
            }
            Some(Value::Pairs(out))
        },
    }
}

/// An integer as JSON.
pub fn int_to_json(i: i128) -> (r: Json)
    ensures
        r@ == int_doc(i as int),
{
    if i >= 0 && i <= 0xffff_ffff_ffff_ffff {
        Json::Unsigned(i as u64)
    } else if i >= -0x8000_0000_0000_0000 && i <= 0x7fff_ffff_ffff_ffff {
        Json::Signed(i as i64)
    } else {
        let mut text: String = String::new();
        push_signed(&mut text, i);
        assert(text@ =~= signed_decimal(i as int));
        Json::Text(text)
    }
}

/// The text of a map key.
fn key_to_text(k: &Value) -> (r: Option<String>)
    ensures
        match key_text(k@) {
            Some(s) => r is Some && r->0@ == s,
            None => r is None,
        },
{
    match k {
        Value::Int(i) => {
            let mut text: String = String::new();
            push_signed(&mut text, *i);
            assert(text@ =~= signed_decimal(*i as int));
            Some(text)
        },
        Value::Text(s) => Some(s.clone()),
        _ => None,
    }
}

/// Convert a CBOR value into a JSON document. `None` where it holds what JSON cannot write: a
/// map key that is neither an integer nor a text, or a float that is not finite.
pub fn cbor_to_json(c: &Value) -> (r: Option<Json>)
    ensures
        reports_doc(r, doc_of(c@)),
    decreases c,
{
    match c {
        Value::Int(i) => Some(int_to_json(*i)),
        Value::Bytes(b) => {
            let mut m: Vec<(String, Json)> = Vec::new();
            m.push(("$hex".to_string(), Json::Text(to_hex(b.as_slice()))));
            proof {
                lemma_view_members(m);
                assert(members(m@) =~= seq![("$hex"@, Doc::Text(hex_text(b@)))]);
            }
            Some(Json::Object(m))
        },
        Value::Text(s) => Some(Json::Text(s.clone())),
        Value::Array(a) => {
            proof {
                lemma_view_array(*a);
            }
            let ghost all = nodes(a@);
            let mut out: Vec<Json> = Vec::new();
            let mut k: usize = 0;
            assert(all.take(0) =~= Seq::empty());
            assert(docs(out@) =~= Seq::empty());
            while k < a.len()
                invariant
                    k <= a@.len(),
                    *c == Value::Array(*a),
                    c@ == Node::Array(all),
                    all == nodes(a@),
                    docs_of(all.take(k as int)) == Some(docs(out@)),
                decreases a@.len() - k,
            {
                assert(decreases_to!(*c => c->Array_0));
                assert(decreases_to!(*a => a[k as int]));
                proof {
                    assert(all.take(k + 1).drop_last() =~= all.take(k as int));
                    assert(all.take(k + 1).last() == a@[k as int]@);
                }
                match cbor_to_json(&a[k]) {
                    Some(d) => {
                        let ghost before = docs(out@);
                        out.push(d);
                        assert(docs(out@) =~= before.push(d@));
                    },
                    None => {
                        proof {
                            lemma_docs_none(all, k + 1);
                        }
                        return None;
                    },
                }
                k += 1;
            }
            proof {
                assert(all.take(k as int) =~= all);
                lemma_view_docs(out);
            }
            Some(Json::Array(out))
        },
        Value::Pairs(m) => {
            proof {
                lemma_view_map(*m);
            }
            let ghost all = entries(m@);
            let mut out: Vec<(String, Json)> = Vec::new();
            let mut k: usize = 0;
            assert(all.take(0) =~= Seq::empty());
            assert(members(out@) =~= Seq::empty());
            while k < m.len()
                invariant
                    k <= m@.len(),
                    *c == Value::Pairs(*m),
                    c@ == Node::Pairs(all),
                    all == entries(m@),
                    members_of(all.take(k as int)) == Some(members(out@)),
                decreases m@.len() - k,
            {
                assert(decreases_to!(*c => c->Pairs_0));
                assert(decreases_to!(*m => m[k as int]));
                assert(decreases_to!(m[k as int] => m[k as int].1));
                proof {
                    assert(all.take(k + 1).drop_last() =~= all.take(k as int));
                    assert(all.take(k + 1).last() == (m@[k as int].0@, m@[k as int].1@));
                }
                match (key_to_text(&m[k].0), cbor_to_json(&m[k].1)) {
                    (Some(key), Some(d)) => {
                        let ghost before = members(out@);
                        out.push((key, d));
                        assert(members(out@) =~= before.push((key@, d@)));
                    },
                    _ => {
                        proof {
                            lemma_members_none(all, k + 1);
                        }
                        return None;
                    },
                }
                k += 1;
            }
            proof {
                assert(all.take(k as int) =~= all);
                lemma_view_members(out);
            }
            Some(Json::Object(out))
        },
        Value::Bool(b) => Some(Json::Bool(*b)),
        Value::Float(f) => if (*f >> 52u64) & 0x7ff != 0x7ff {
            Some(Json::Float(*f))
        } else {
            None
        },
        Value::Null => Some(Json::Null),
    }
}

/// What JSON writes without loss: integers that JSON numbers hold, finite floats, map keys that
/// are integers of 128 bits or texts that do not read as integers, and no map that looks like a
/// byte string.
pub open spec fn writable(n: Node) -> bool
    decreases n,
{
    match n {
        Node::Int(i) => i64::MIN <= i <= u64::MAX,
        Node::Float(f) => is_finite(f),
        Node::Array(a) => forall|i: int| 0 <= i < a.len() ==> writable(#[trigger] a[i]),
        Node::Pairs(m) => {
            &&& forall|i: int|
                0 <= i < m.len() ==> writable_key((#[trigger] m[i]).0) && writable(m[i].1)
            &&& !(m.len() == 1 && m[0].0 == Node::Text("$hex"@) && m[0].1 is Text)
        },
        _ => true,
    }
}

/// A map key that JSON writes without loss.
pub open spec fn writable_key(k: Node) -> bool {
    match k {
        Node::Int(i) => i128::MIN <= i <= i128::MAX,
        Node::Text(s) => integer(s) is None,
        _ => false,
    }
}

/// The two conversions are inverse: a CBOR tree that JSON writes without loss reads back from
/// its JSON form.
pub proof fn cbor_json_round_trip(n: Node)
    requires
        writable(n),
    ensures
        doc_of(n) is Some,
        node_of(doc_of(n)->0) == Some(n),
    decreases n,
{
    match n {
        Node::Bytes(b) => {
            hex_round_trip(b);
            let m = seq![("$hex"@, Doc::Text(hex_text(b)))];
            assert(is_hex_object(m));
        },
        Node::Array(a) => {
            lemma_docs_round_trip(a);
        },
        Node::Pairs(m) => {
            lemma_members_round_trip(m);
            let d = members_of(m)->0;
            if is_hex_object(d) {
                assert(m.drop_last() =~= Seq::empty());
                assert(members_of(m.drop_last()) == Some(Seq::<(Seq<char>, Doc)>::empty()));
                assert(d[0] == (key_text(m[0].0)->0, doc_of(m[0].1)->0));
                lemma_hex_key(m[0].0);
                assert(writable_key(m[0].0) && writable(m[0].1));
                match m[0].1 {
                    Node::Text(_) => {},
                    Node::Int(i) => {},
                    _ => {},
                }
                assert(false);
            }
        },
        _ => {},
    }
}

proof fn lemma_hex_key(k: Node)
    requires
        writable_key(k),
        key_text(k) == Some("$hex"@),
    ensures
        k == Node::Text("$hex"@),
{
    if k is Int {
        signed_decimal_reads_back(k->Int_0 as i128);
        reveal_strlit("$hex");
        let s = "$hex"@;
        assert(s.len() == 4);
        assert(s[3] == 'x');
        assert(crate::text::digits_value(s) is None);
    }
}

proof fn lemma_docs_round_trip(a: Seq<Node>)
    requires
        forall|i: int| 0 <= i < a.len() ==> writable(#[trigger] a[i]),
    ensures
        docs_of(a) is Some,
        nodes_of(docs_of(a)->0) == Some(a),
    decreases a,
{
    if a.len() > 0 {
        let t = a.drop_last();
        assert forall|i: int| 0 <= i < t.len() implies writable(#[trigger] t[i]) by {
            assert(t[i] == a[i]);
        }
        lemma_docs_round_trip(t);
        assert(writable(a[a.len() - 1]));
        cbor_json_round_trip(a.last());
        let d = docs_of(a)->0;
        assert(d.drop_last() =~= docs_of(t)->0);
        assert(a =~= t.push(a.last()));
    } else {
        assert(a =~= Seq::empty());
    }
}

proof fn lemma_members_round_trip(m: Seq<(Node, Node)>)
    requires
        forall|i: int|
            0 <= i < m.len() ==> writable_key((#[trigger] m[i]).0) && writable(m[i].1),
    ensures
        members_of(m) is Some,
        pairs_of(members_of(m)->0) == Some(m),
    decreases m,
{
    if m.len() > 0 {
        let t = m.drop_last();
        assert forall|i: int| 0 <= i < t.len() implies writable_key((#[trigger] t[i]).0)
            && writable(t[i].1) by {
            assert(t[i] == m[i]);
        }
        lemma_members_round_trip(t);
        let last = m[m.len() - 1];
        assert(writable_key(last.0) && writable(last.1));
        cbor_json_round_trip(m.last().1);
        if last.0 is Int {
            signed_decimal_reads_back(last.0->Int_0 as i128);
        }
        let d = members_of(m)->0;
        assert(d.drop_last() =~= members_of(t)->0);
        assert(m =~= t.push(m.last()));
    } else {
        assert(m =~= Seq::empty());
    }
}

} // verus!
