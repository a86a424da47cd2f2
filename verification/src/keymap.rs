//! Keymap tables.
//!
//! Input key events carry evdev keycodes on the wire. The client translates its platform's
//! codes to evdev; the host translates evdev to its own. Both tables are data files; this
//! module parses their text (the caller reads the file).

use std::collections::HashMap;
use vstd::prelude::*;
use vstd::string::{StrSliceExecFns, StringExecFns};
use crate::error::{Error, Result};
use crate::text::{
    chars_of, decimal, find, find_char, lemma_find, lemma_trim_twice, lines, number, push_decimal,
    read_number, trim, trim_bounds,
};

verus! {

broadcast use vstd::std_specs::hash::group_hash_axioms;

/// A one-directional keycode lookup table.
///
/// The text format: lines that start with `#` and blank lines are ignored; every other line
/// is a `from,to` pair of integers.
#[derive(Debug)]
pub struct Keymap {
    map: HashMap<i64, i64>,
}

impl View for Keymap {
    type V = Map<i64, i64>;

    closed spec fn view(&self) -> Map<i64, i64> {
        self.map@
    }
}

/// What one line says.
pub enum Row {
    /// Nothing: a blank line or a comment.
    Blank,
    /// One entry of the table.
    Pair(i64, i64),
    /// There is no second field.
    Missing,
    /// The first field is no number.
    BadFrom(Seq<char>),
    /// The second field is no number.
    BadTo(Seq<char>),
}

/// What a line says: its first two comma-separated fields, each without white space around
/// it. Further fields are ignored.
pub open spec fn row(line: Seq<char>) -> Row {
    let t = trim(line);
    let at = find(t, ',');
    let rest = t.skip(at + 1);
    let from = trim(t.take(at));
    let to = trim(rest.take(find(rest, ',')));
    if t.len() == 0 || t.first() == '#' {
        Row::Blank
    } else if at >= t.len() {
        Row::Missing
    } else if number(from) is None {
        Row::BadFrom(from)
    } else if number(to) is None {
        Row::BadTo(to)
    } else {
        Row::Pair(number(from)->0, number(to)->0)
    }
}

/// The text as `{:?}` prints it: in double quotes, with what needs it escaped.
pub uninterp spec fn debug_text(s: Seq<char>) -> Seq<char>;

/// Why line `n`, counted from one, is rejected.
pub open spec fn complaint(n: nat, row: Row) -> Seq<char> {
    "line "@ + decimal(n) + match row {
        Row::BadFrom(s) => ": bad 'from' value "@ + debug_text(s),
        Row::BadTo(s) => ": bad 'to' value "@ + debug_text(s),
        _ => ": expected 'from,to'"@,
    }
}

/// The table that a run of lines gives: a later entry replaces an earlier one for the same
/// code, and the first bad line is reported.
pub open spec fn table(all: Seq<Seq<char>>) -> core::result::Result<Map<i64, i64>, Seq<char>>
    decreases all.len(),
{
    if all.len() == 0 {
        Ok(Map::empty())
    } else {
        match table(all.drop_last()) {
            Err(e) => Err(e),
            Ok(m) => match row(all.last()) {
                Row::Blank => Ok(m),
                Row::Pair(from, to) => Ok(m.insert(from, to)),
                bad => Err(complaint(all.len(), bad)),
            },
        }
    }
}

proof fn lemma_table_rejects(all: Seq<Seq<char>>, k: int)
    requires
        0 <= k <= all.len(),
        table(all.take(k)) is Err,
    ensures
        table(all) == table(all.take(k)),
    decreases all.len(),
{
    if k < all.len() {
        assert(all.drop_last().take(k) =~= all.take(k));
        lemma_table_rejects(all.drop_last(), k);
    } else {
        assert(all.take(k) =~= all);
    }
}

/// The `Debug` form of a text, by `format!` with `{:?}`. What is escaped and how is left to
/// the name.
#[verifier::external_body]
fn quoted(s: &str) -> (r: String)
    ensures
        r@ == debug_text(s@),
{
    format!("{:?}", s)
}

/// The message that reports line `n`.
fn report(n: u64, what: &str) -> (r: String)
    ensures
        r@ == "line "@ + decimal(n as nat) + what@,
{
    let mut out: String = "line ".to_string();
    push_decimal(&mut out, n as u128);
    out.append(what);
    out
}

/// The fields of one line that is neither blank nor a comment.
fn read_row(text: &str, chars: &Vec<char>, from: usize, to: usize, n: u64) -> (r: Result<(i64, i64)>)
    requires
        chars@ == text@,
        from < to <= chars@.len(),
        trim(chars@.subrange(from as int, to as int)) == chars@.subrange(from as int, to as int),
        chars@[from as int] != '#',
    ensures
        match row(chars@.subrange(from as int, to as int)) {
            Row::Pair(a, b) => r == Ok::<(i64, i64), Error>((a, b)),
            Row::Blank => false,
            bad => r is Err && r->Err_0 is Keymap && r->Err_0->Keymap_0@ == complaint(
                n as nat,
                bad,
            ),
        },
{
    let ghost t = chars@.subrange(from as int, to as int);
    assert(t.first() == chars@[from as int]);
    let comma: usize = find_char(chars, from, to, ',');
    if comma >= to {
        return Err(Error::Keymap(report(n, ": expected 'from,to'")));
    }
    let ghost at = comma - from;
    let ghost rest = t.skip(at + 1);
    assert(t.take(at) =~= chars@.subrange(from as int, comma as int));
    assert(rest =~= chars@.subrange(comma + 1, to as int));
    let second: usize = find_char(chars, comma + 1, to, ',');
    assert(rest.take(find(rest, ',')) =~= chars@.subrange(comma + 1, second as int));
    let (a, b) = trim_bounds(chars, from, comma);
    let (c, d) = trim_bounds(chars, comma + 1, second);
    match read_number(chars, a, b) {
        None => {
            let mut what: String = ": bad 'from' value ".to_string();
            what.append(quoted(text.substring_char(a, b)).as_str());
            let r = report(n, what.as_str());
            assert(r@ =~= complaint(n as nat, row(t)));
            Err(Error::Keymap(r))
        },
        Some(x) => match read_number(chars, c, d) {
            None => {
                let mut what: String = ": bad 'to' value ".to_string();
                what.append(quoted(text.substring_char(c, d)).as_str());
                let r = report(n, what.as_str());
                assert(r@ =~= complaint(n as nat, row(t)));
                Err(Error::Keymap(r))
            },
            Some(y) => Ok((x, y)),
        },
    }
}

impl Keymap {
    /// Parse a keymap from its text. Unmapped codes simply won't be present.
    pub fn from_csv(text: &str) -> (r: Result<Self>)
        ensures
            match table(lines(text@)) {
                Ok(m) => r is Ok && r->Ok_0@ == m,
                Err(e) => r is Err && r->Err_0 is Keymap && r->Err_0->Keymap_0@ == e,
            },
    {
        let chars: Vec<char> = chars_of(text);
        let len: usize = chars.len();
        let ghost s = chars@;
        let ghost all = lines(s);
        let mut map: HashMap<i64, i64> = HashMap::new();
        let mut pos: usize = 0;
        let mut n: u64 = 0;
        assert(s.skip(0) =~= s);
        assert(all.take(0) =~= Seq::empty());
        assert(map@ =~= Map::<i64, i64>::empty());
        while pos < len
            invariant
                pos <= len,
                len == s.len(),
                s == chars@,
                s == text@,
                all == lines(s),
                n <= pos,
                n <= all.len(),
                all.skip(n as int) == lines(s.skip(pos as int)),
                table(all.take(n as int)) == Ok::<Map<i64, i64>, Seq<char>>(map@),
            decreases len - pos,
        {
            let at: usize = find_char(&chars, pos, len, '\n');
            let ghost left = s.skip(pos as int);
            let ghost line = s.subrange(pos as int, at as int);
            let ghost tail = all.skip(n as int);
            proof {
                assert(left =~= s.subrange(pos as int, len as int));
                lemma_find(left, '\n');
                if at < len {
                    assert(left.take(at - pos) =~= line);
                    assert(left.skip(at - pos + 1) =~= s.skip(at + 1));
                    assert(all.skip(n as int)[0] == line);
                } else {
                    assert(left =~= line);
                    assert(all.skip(n as int)[0] == line);
                }
                assert(lines(left).len() > 0);
                assert(n < all.len());
                assert(all[n as int] == line);
                assert(all.take(n + 1).drop_last() =~= all.take(n as int));
                assert(all.take(n + 1).last() == line);
            }
            let (a, b) = trim_bounds(&chars, pos, at);
            let ghost t = s.subrange(a as int, b as int);
            if a < b && chars[a] != '#' {
                proof {
                    assert(t.first() == s[a as int]);
                    lemma_trim_twice(line);
                }
                match read_row(text, &chars, a, b, n + 1) {
                    Ok(pair) => {
                        map.insert(pair.0, pair.1);
                    },
                    Err(e) => {
                        proof {
                            lemma_table_rejects(all, n + 1);
                        }
                        return Err(e);
                    },
                }
            } else {
                assert(a < b ==> t.first() == s[a as int]);
                assert(row(line) == Row::Blank);
            }
            n += 1;
            if at < len {
                proof {
                    assert(tail == seq![line] + lines(s.skip(at + 1)));
                    assert(all.skip(n as int) =~= tail.skip(1));
                    assert(tail.skip(1) =~= lines(s.skip(at + 1)));
                }
                pos = at + 1;
            } else {
                proof {
                    assert(s.skip(len as int) =~= Seq::empty());
                    assert(all.skip(n as int) =~= Seq::empty());
                }
                pos = len;
            }
        }
        proof {
            assert(s.skip(pos as int) =~= Seq::empty());
            assert(all.skip(n as int).len() == 0);
            assert(all.take(n as int) =~= all);
        }
        Ok(Self { map })
    }

    /// Look up a code. `None` for unmapped codes, which the caller must swallow: an unmapped
    /// key is never sent or injected.
    pub fn get(&self, code: i64) -> (r: Option<i64>)
        ensures
            r == self@.get(code),
    {
        match self.map.get(&code) {
            Some(to) => Some(*to),
            None => None,
        }
    }

    /// Number of entries.
    pub fn len(&self) -> (r: usize)
        ensures
            r == self@.len(),
    {
        self.map.len()
    }

    /// Whether the table is empty.
    pub fn is_empty(&self) -> (r: bool)
        ensures
            r == (self@ == Map::<i64, i64>::empty()),
    {
        let r = self.map.is_empty();
        assert(r == (self@ =~= Map::<i64, i64>::empty()));
        r
    }
}

impl Clone for Keymap {
    fn clone(&self) -> (r: Self)
        ensures
            r@ == self@,
    {
        let map: HashMap<i64, i64> = self.map.clone();
        assert(map@ =~= self.map@);
        Self { map }
    }
}

impl Default for Keymap {
    fn default() -> (r: Self)
        ensures
            r@ == Map::<i64, i64>::empty(),
    {
        Self { map: HashMap::new() }
    }
}

} // verus!
