//! What the text helpers take apart and put together, and what a keymap table says.

use vstd::prelude::*;
use crate::keymap::{Row, complaint, row, table};
use crate::text::{
    decimal, digit, digits_value, find, is_space, lines, number, signed_decimal, split, trim,
    trim_end, trim_start, unsigned,
};

verus! {

/// All characters are white space.
pub open spec fn blank(s: Seq<char>) -> bool {
    forall|i: int| 0 <= i < s.len() ==> is_space(#[trigger] s[i])
}

/// What is trimmed off is white space, on both sides, and none is left at the ends.
pub proof fn trimming_takes_the_outer_blanks(s: Seq<char>) -> (p: (Seq<char>, Seq<char>))
    ensures
        s == p.0 + trim(s) + p.1,
        blank(p.0),
        blank(p.1),
        trim(s).len() > 0 ==> !is_space(trim(s).first()) && !is_space(trim(s).last()),
{
    let a = lemma_trim_start(s);
    let t = trim_start(s);
    let b = lemma_trim_end(t);
    assert(s =~= a + trim(s) + b);
    if trim(s).len() > 0 {
        assert(trim(s).first() == t.first());
    }
    (a, b)
}

proof fn lemma_trim_start(s: Seq<char>) -> (a: Seq<char>)
    ensures
        s == a + trim_start(s),
        blank(a),
        trim_start(s).len() > 0 ==> !is_space(trim_start(s).first()),
    decreases s.len(),
{
    if s.len() > 0 && is_space(s.first()) {
        let a = lemma_trim_start(s.drop_first());
        let r = seq![s.first()] + a;
        assert(trim_start(s) == trim_start(s.drop_first()));
        assert(s =~= seq![s.first()] + s.drop_first());
        assert(s =~= r + trim_start(s));
        r
    } else {
        assert(s =~= Seq::empty() + s);
        Seq::empty()
    }
}

proof fn lemma_trim_end(s: Seq<char>) -> (b: Seq<char>)
    ensures
        s == trim_end(s) + b,
        blank(b),
        trim_end(s).len() > 0 ==> !is_space(trim_end(s).last()) && trim_end(s).first() == s.first(),
    decreases s.len(),
{
    if s.len() > 0 && is_space(s.last()) {
        let b = lemma_trim_end(s.drop_last());
        let r = b.push(s.last());
        assert(trim_end(s) == trim_end(s.drop_last()));
        assert(s =~= s.drop_last().push(s.last()));
        assert(s =~= trim_end(s) + r);
        r
    } else {
        assert(s =~= s + Seq::empty());
        Seq::empty()
    }
}

/// A text without white space at its ends is left as it is.
pub proof fn trimming_leaves_the_rest(s: Seq<char>)
    requires
        s.len() == 0 || !is_space(s.first()) && !is_space(s.last()),
    ensures
        trim(s) == s,
{
}

/// A character is found at its first place, or nowhere.
pub proof fn found_at_the_first_place(s: Seq<char>, c: char)
    ensures
        0 <= find(s, c) <= s.len(),
        find(s, c) < s.len() ==> s[find(s, c)] == c,
        forall|i: int| 0 <= i < find(s, c) ==> #[trigger] s[i] != c,
    decreases s.len(),
{
    if s.len() > 0 && s.first() != c {
        let t = s.drop_first();
        found_at_the_first_place(t, c);
        assert forall|i: int| 0 <= i < find(s, c) implies #[trigger] s[i] != c by {
            if i > 0 {
                assert(t[i - 1] == s[i]);
            }
        }
    }
}

/// Parts with a separator between them.
pub open spec fn rejoined(parts: Seq<Seq<char>>, c: char) -> Seq<char>
    decreases parts.len(),
{
    if parts.len() == 0 {
        Seq::empty()
    } else if parts.len() == 1 {
        parts[0]
    } else {
        parts[0] + seq![c] + rejoined(parts.drop_first(), c)
    }
}

/// There is no `c` in the text.
pub open spec fn without(s: Seq<char>, c: char) -> bool {
    forall|i: int| 0 <= i < s.len() ==> #[trigger] s[i] != c
}

/// Splitting takes a text apart at every separator, and joining puts it together again.
pub proof fn split_parts_rejoin(s: Seq<char>, c: char)
    ensures
        split(s, c).len() >= 1,
        rejoined(split(s, c), c) == s,
        forall|i: int| 0 <= i < split(s, c).len() ==> without(#[trigger] split(s, c)[i], c),
    decreases s.len(),
{
    found_at_the_first_place(s, c);
    let at = find(s, c);
    let parts = split(s, c);
    if at >= s.len() {
        assert(without(s, c));
    } else {
        let rest = s.skip(at + 1);
        split_parts_rejoin(rest, c);
        assert(parts.drop_first() =~= split(rest, c));
        assert(s =~= s.take(at) + seq![c] + rest);
        assert forall|i: int| 0 <= i < parts.len() implies without(#[trigger] parts[i], c) by {
            if i == 0 {
                assert forall|k: int| 0 <= k < at implies #[trigger] s.take(at)[k] != c by {
                    assert(s[k] != c);
                }
            } else {
                assert(parts[i] == split(rest, c)[i - 1]);
            }
        }
    }
}

/// The lines of a text are the parts between line breaks, but that a break at the end opens no
/// further line.
pub proof fn lines_rejoin(s: Seq<char>)
    ensures
        s.len() == 0 ==> lines(s).len() == 0,
        s.len() > 0 ==> rejoined(lines(s), '\n') == s || rejoined(lines(s), '\n').push('\n') == s,
        s.len() > 0 ==> lines(s).len() >= 1,
        forall|i: int| 0 <= i < lines(s).len() ==> without(#[trigger] lines(s)[i], '\n'),
    decreases s.len(),
{
    found_at_the_first_place(s, '\n');
    let at = find(s, '\n');
    let parts = lines(s);
    if s.len() > 0 {
        if at >= s.len() {
            assert(without(s, '\n'));
        } else {
            let rest = s.skip(at + 1);
            lines_rejoin(rest);
            assert(parts.drop_first() =~= lines(rest));
            assert(s =~= s.take(at) + seq!['\n'] + rest);
            assert(without(s.take(at), '\n')) by {
                assert forall|k: int| 0 <= k < at implies #[trigger] s.take(at)[k] != '\n' by {
                    assert(s[k] != '\n');
                }
            }
            assert forall|i: int| 0 <= i < parts.len() implies without(#[trigger] parts[i], '\n') by {
                if i > 0 {
                    assert(parts[i] == lines(rest)[i - 1]);
                }
            }
            if rest.len() == 0 {
                assert(parts =~= seq![s.take(at)]);
                assert(rejoined(parts, '\n').push('\n') =~= s);
            } else {
                if rejoined(lines(rest), '\n') == rest {
                    assert(rejoined(parts, '\n') =~= s);
                } else {
                    assert(rejoined(parts, '\n').push('\n') =~= s);
                }
            }
        }
    }
}

/// Decimal digits are the characters from '0' on, the most significant first, without a leading
/// zero.
pub proof fn decimals_are_digits(n: nat)
    ensures
        decimal(n).len() >= 1,
        decimal(n).last() as u32 == '0' as u32 + n % 10,
        n >= 10 ==> decimal(n).drop_last() == decimal(n / 10),
        n < 10 ==> decimal(n).len() == 1,
        forall|i: int| 0 <= i < decimal(n).len() ==> '0' <= #[trigger] decimal(n)[i] <= '9',
        n > 0 ==> decimal(n)[0] != '0',
    decreases n,
{
    reveal_strlit("0123456789");
    assert(digit(n % 10) as u32 == '0' as u32 + n % 10);
    if n >= 10 {
        decimals_are_digits(n / 10);
        let t = decimal(n / 10);
        assert(decimal(n).drop_last() =~= t);
        assert forall|i: int| 0 <= i < decimal(n).len() implies '0' <= #[trigger] decimal(n)[i]
            <= '9' by {
            if i < t.len() {
                assert(decimal(n)[i] == t[i]);
            }
        }
        assert(decimal(n)[0] == t[0]);
    }
}

/// Of the characters below 128 white space is the tabulator, the five line and page breaks
/// behind it, up to the carriage return, and the space; no digit, sign or comma is.
pub proof fn plain_blanks(c: char)
    ensures
        (c as u32) < 128 ==> (is_space(c) <==> c == ' ' || 9 <= c as u32 <= 13),
        is_space(c) ==> c != ',' && c != '#' && c != '-' && c != '+' && !('0' <= c <= '9'),
{
}

/// A run of digits is read as a number in base ten, and nothing else is: neither an empty text
/// nor one with anything but digits in it.
pub proof fn digits_are_base_ten(s: Seq<char>, c: char)
    ensures
        digits_value(s) is Some <==> s.len() > 0 && forall|i: int|
            0 <= i < s.len() ==> '0' <= #[trigger] s[i] <= '9',
        '0' <= c <= '9' && digits_value(s) is Some ==> digits_value(s.push(c)) == Some(
            (10 * digits_value(s)->0 + (c as u32 - 48)) as nat,
        ),
        '0' <= c <= '9' ==> digits_value(seq![c]) == Some((c as u32 - 48) as nat),
    decreases s.len(),
{
    assert(s.push(c).drop_last() =~= s);
    if s.len() > 0 {
        let t = s.drop_last();
        let n = s.len() - 1;
        digits_are_base_ten(t, c);
        assert(s.last() == s[n]);
        if s.len() > 0 && forall|i: int| 0 <= i < s.len() ==> '0' <= #[trigger] s[i] <= '9' {
            assert forall|i: int| 0 <= i < t.len() implies '0' <= #[trigger] t[i] <= '9' by {
                assert(t[i] == s[i]);
            }
            assert('0' <= s[n] <= '9');
        }
        if digits_value(s) is Some {
            assert forall|i: int| 0 <= i < s.len() implies '0' <= #[trigger] s[i] <= '9' by {
                if i < n {
                    assert(t.len() > 0);
                    assert('0' <= t[i] <= '9');
                }
            }
        }
    }
}

/// A sign before the digits counts, a second one does not, and a number beyond 64 bits is none.
pub proof fn signs_count(n: nat)
    ensures
        n < 0x8000_0000_0000_0000 ==> number(seq!['+'] + decimal(n)) == Some(n as i64),
        n <= 0x8000_0000_0000_0000 ==> number(seq!['-'] + decimal(n)) == Some(-(n as int) as i64),
        n >= 0x8000_0000_0000_0000 ==> number(decimal(n)) is None,
        n > 0x8000_0000_0000_0000 ==> number(seq!['-'] + decimal(n)) is None,
        number(seq!['-', '-'] + decimal(n)) is None,
        n <= 0xffff_ffff ==> unsigned(seq!['+'] + decimal(n)) == Some(n as u32),
        n > 0xffff_ffff ==> unsigned(decimal(n)) is None,
        unsigned(seq!['-'] + decimal(n)) is None,
{
    let d = decimal(n);
    crate::text::decimal_reads_back(n);
    decimals_are_digits(n);
    assert((seq!['+'] + d).drop_first() =~= d);
    assert((seq!['-'] + d).drop_first() =~= d);
    let twice = seq!['-', '-'] + d;
    assert(twice.drop_first() =~= seq!['-'] + d);
    digits_are_base_ten(seq!['-'] + d, '0');
    assert((seq!['-'] + d)[0] == '-');
    assert(d.first() == d[0]);
}

/// A number written in decimal is read as itself, with and without sign.
pub proof fn written_numbers_are_read(n: i64, u: u32)
    ensures
        number(signed_decimal(n as int)) == Some(n),
        unsigned(decimal(u as nat)) == Some(u),
{
    crate::text::signed_decimal_reads_back(n as i128);
    crate::text::decimal_reads_back(u as nat);
    decimals_are_digits(u as nat);
    assert(decimal(u as nat).first() != '+');
}

proof fn lemma_signed_plain(n: i64)
    ensures
        signed_decimal(n as int).len() >= 1,
        forall|i: int|
            0 <= i < signed_decimal(n as int).len() ==> {
                let c = #[trigger] signed_decimal(n as int)[i];
                c == '-' || '0' <= c <= '9'
            },
{
    reveal_strlit("-");
    if n < 0 {
        decimals_are_digits((-(n as int)) as nat);
    } else {
        decimals_are_digits(n as nat);
    }
}

/// A table row reads as the two numbers that are written in it, with a comma between them and
/// whatever follows a second comma.
pub proof fn row_reads_its_numbers(a: i64, b: i64, note: Option<Seq<char>>)
    requires
        note is Some ==> note->0.len() > 0 && !is_space(note->0.last()),
    ensures
        ({
            let plain = signed_decimal(a as int) + seq![','] + signed_decimal(b as int);
            let line = match note {
                Some(text) => plain + seq![','] + text,
                None => plain,
            };
            row(line) == Row::Pair(a, b)
        }),
{
    let x = signed_decimal(a as int);
    let y = signed_decimal(b as int);
    let plain = x + seq![','] + y;
    let line = match note {
        Some(text) => plain + seq![','] + text,
        None => plain,
    };
    lemma_signed_plain(a);
    lemma_signed_plain(b);
    written_numbers_are_read(a, 0);
    written_numbers_are_read(b, 0);
    assert(line.first() == x[0]);
    assert(!is_space(line.first()));
    assert(!is_space(line.last())) by {
        if note is None {
            assert(line.last() == y[y.len() - 1]);
        }
    }
    trimming_leaves_the_rest(line);
    found_at_the_first_place(line, ',');
    let at = find(line, ',');
    assert(at == x.len()) by {
        assert(line[x.len() as int] == ',');
        if at < x.len() {
            assert(line[at] == x[at]);
        }
    }
    assert(line.take(at) =~= x);
    let rest = line.skip(at + 1);
    found_at_the_first_place(rest, ',');
    let end = find(rest, ',');
    assert(end == y.len()) by {
        if note is Some {
            assert(rest[y.len() as int] == ',');
        }
        if end < y.len() {
            assert(rest[end] == y[end]);
        }
    }
    assert(rest.take(end) =~= y);
    assert(!is_space(x[0]) && !is_space(x[x.len() - 1]));
    assert(!is_space(y[0]) && !is_space(y[y.len() - 1]));
    trimming_leaves_the_rest(x);
    trimming_leaves_the_rest(y);
}

proof fn lemma_start_of_sum(x: Seq<char>, w: Seq<char>)
    requires
        w.len() > 0,
        !is_space(w.first()),
    ensures
        trim_start(x + w) == trim_start(x) + w,
    decreases x.len(),
{
    if x.len() == 0 {
        assert(x + w =~= w);
        assert(trim_start(x) + w =~= w);
    } else {
        assert((x + w).first() == x.first());
        assert((x + w).drop_first() =~= x.drop_first() + w);
        lemma_start_of_sum(x.drop_first(), w);
    }
}

proof fn lemma_end_of_sum(w: Seq<char>, z: Seq<char>)
    requires
        w.len() > 0,
        !is_space(w.last()),
    ensures
        trim_end(w + z) == w + trim_end(z),
    decreases z.len(),
{
    if z.len() == 0 {
        assert(w + z =~= w);
        assert(w + trim_end(z) =~= w);
    } else {
        assert((w + z).last() == z.last());
        assert((w + z).drop_last() =~= w + z.drop_last());
        lemma_end_of_sum(w, z.drop_last());
    }
}

proof fn lemma_ends_commute(y: Seq<char>)
    ensures
        trim_start(trim_end(y)) == trim_end(trim_start(y)),
        trim_end(trim_end(y)) == trim_end(y),
        trim_start(trim_start(y)) == trim_start(y),
        trim(trim_end(y)) == trim(y),
        trim(trim_start(y)) == trim(y),
    decreases y.len(),
{
    let b = lemma_trim_end(y);
    let a = lemma_trim_start(y);
    if y.len() > 0 {
        let t = y.drop_last();
        assert(y =~= t + seq![y.last()]);
        if is_space(y.last()) {
            lemma_ends_commute(t);
            lemma_push_blank(t, y.last());
        } else {
            lemma_start_of_sum(t, seq![y.last()]);
            assert(trim_start(y).last() == y.last());
        }
    }
}

proof fn lemma_push_blank(t: Seq<char>, c: char)
    requires
        is_space(c),
    ensures
        trim_end(trim_start(t + seq![c])) == trim_end(trim_start(t)),
    decreases t.len(),
{
    if t.len() == 0 {
        assert((t + seq![c]).drop_first() =~= Seq::empty());
        reveal_with_fuel(trim_start, 2);
    } else if is_space(t.first()) {
        assert((t + seq![c]).drop_first() =~= t.drop_first() + seq![c]);
        lemma_push_blank(t.drop_first(), c);
    } else {
        assert((t + seq![c]).drop_last() =~= t);
        assert((t + seq![c]).first() == t.first());
    }
}

/// A row is what stands before its first comma and what stands between that and the second, if
/// there is one, white space aside. Both must be numbers, and the first that is not is named.
pub proof fn row_is_split_at_its_commas(x: Seq<char>, y: Seq<char>, note: Option<Seq<char>>)
    requires
        without(x, ','),
        without(y, ','),
        trim(x).len() > 0 ==> trim(x).first() != '#',
    ensures
        ({
            let plain = x + seq![','] + y;
            let line = match note {
                Some(text) => plain + seq![','] + text,
                None => plain,
            };
            &&& number(trim(x)) is None ==> row(line) == Row::BadFrom(trim(x))
            &&& number(trim(x)) is Some && number(trim(y)) is None ==> row(line) == Row::BadTo(
                trim(y),
            )
            &&& number(trim(x)) is Some && number(trim(y)) is Some ==> row(line) == Row::Pair(
                number(trim(x))->0,
                number(trim(y))->0,
            )
        }),
{
    let plain = x + seq![','] + y;
    let line = match note {
        Some(text) => plain + seq![','] + text,
        None => plain,
    };
    let z = match note {
        Some(text) => y + seq![','] + text,
        None => y,
    };
    let head = trim_start(x);
    let mark = head + seq![','];
    let a = lemma_trim_start(x);
    assert(without(head, ',')) by {
        assert forall|i: int| 0 <= i < head.len() implies #[trigger] head[i] != ',' by {
            assert(head[i] == x[a.len() + i]);
        }
    }
    assert(line =~= x + (seq![','] + z));
    lemma_start_of_sum(x, seq![','] + z);
    assert(head + (seq![','] + z) =~= mark + z);
    lemma_end_of_sum(mark, z);
    let t = trim(line);
    assert(t == mark + trim_end(z));
    found_at_the_first_place(t, ',');
    let at = find(t, ',');
    assert(t[head.len() as int] == ',');
    assert(at == head.len()) by {
        if at < head.len() {
            assert(t[at] == head[at]);
        }
    }
    assert(t.take(at) =~= head);
    let rest = t.skip(at + 1);
    assert(rest =~= trim_end(z));
    lemma_ends_commute(x);
    lemma_ends_commute(y);
    let c = lemma_trim_end(y);
    match note {
        Some(text) => {
            let w = y + seq![','];
            lemma_end_of_sum(w, text);
            found_at_the_first_place(rest, ',');
            let end = find(rest, ',');
            assert(rest[y.len() as int] == ',');
            assert(end == y.len()) by {
                if end < y.len() {
                    assert(rest[end] == y[end]);
                }
            }
            assert(rest.take(end) =~= y);
        },
        None => {
            found_at_the_first_place(rest, ',');
            let end = find(rest, ',');
            assert(end == rest.len()) by {
                if end < rest.len() {
                    assert(rest[end] == y[end]);
                }
            }
            assert(rest.take(end) =~= rest);
        },
    }
    assert(t.first() != '#') by {
        if head.len() == 0 {
            assert(t[0] == ',');
        } else {
            assert(t[0] == head[0]);
            let k = lemma_trim_end(head);
            assert(!is_space(head.first()));
            if trim(x).len() == 0 {
                assert(head =~= k);
                assert(is_space(k[0]));
            }
        }
    }
}

/// A line without a comma that says something is no row, and each fault is told with the number
/// of its line.
pub proof fn line_without_comma_is_no_row(line: Seq<char>, n: nat, s: Seq<char>)
    requires
        trim(line).len() > 0,
        trim(line).first() != '#',
        without(trim(line), ','),
    ensures
        row(line) == Row::Missing,
        complaint(n, Row::Missing) == "line "@ + decimal(n) + ": expected 'from,to'"@,
        complaint(n, Row::BadFrom(s)) == "line "@ + decimal(n) + (": bad 'from' value "@
            + crate::keymap::debug_text(s)),
        complaint(n, Row::BadTo(s)) == "line "@ + decimal(n) + (": bad 'to' value "@
            + crate::keymap::debug_text(s)),
{
    found_at_the_first_place(trim(line), ',');
}

/// A line that is blank or starts with `#`, white space aside, says nothing.
pub proof fn comments_say_nothing(line: Seq<char>)
    requires
        trim(line).len() == 0 || trim(line).first() == '#',
    ensures
        row(line) == Row::Blank,
{
}

/// A code maps to what the last row for it says, and to nothing where there is no such row.
pub proof fn last_row_counts(all: Seq<Seq<char>>, code: i64)
    requires
        forall|i: int|
            0 <= i < all.len() ==> row(#[trigger] all[i]) is Pair || row(all[i]) is Blank,
    ensures
        table(all) is Ok,
        ({
            let m = table(all)->Ok_0;
            &&& m.contains_key(code) ==> exists|i: int| #[trigger]
                last_for(all, code, i) && row(all[i]) == Row::Pair(code, m[code])
            &&& !m.contains_key(code) ==> forall|i: int|
                0 <= i < all.len() ==> !is_for(#[trigger] all[i], code)
        }),
    decreases all.len(),
{
    if all.len() > 0 {
        let t = all.drop_last();
        let n = all.len() - 1;
        assert(row(all[n]) is Pair || row(all[n]) is Blank);
        assert forall|i: int| 0 <= i < t.len() implies row(#[trigger] t[i]) is Pair || row(
            t[i],
        ) is Blank by {
            assert(t[i] == all[i]);
        }
        last_row_counts(t, code);
        let m = table(all)->Ok_0;
        if is_for(all[n], code) {
            assert(last_for(all, code, n));
        } else if m.contains_key(code) {
            let i = choose|i: int| #[trigger]
                last_for(t, code, i) && row(t[i]) == Row::Pair(code, table(t)->Ok_0[code]);
            assert(last_for(all, code, i)) by {
                assert forall|j: int| i < j < all.len() implies !is_for(#[trigger] all[j], code) by {
                    if j < t.len() {
                        assert(all[j] == t[j]);
                    }
                }
            }
        } else {
            assert forall|i: int| 0 <= i < all.len() implies !is_for(#[trigger] all[i], code) by {
                if i < t.len() {
                    assert(t[i] == all[i]);
                }
            }
        }
    }
}

/// The line is a row for `code`.
pub open spec fn is_for(line: Seq<char>, code: i64) -> bool {
    row(line) is Pair && row(line)->Pair_0 == code
}

/// Line `i` is the last row for `code`.
pub open spec fn last_for(all: Seq<Seq<char>>, code: i64, i: int) -> bool {
    0 <= i < all.len() && is_for(all[i], code) && forall|j: int|
        i < j < all.len() ==> !is_for(#[trigger] all[j], code)
}

/// The first line that is neither a row nor blank is complained about, by its number from one.
pub proof fn first_bad_line_is_reported(all: Seq<Seq<char>>, i: int)
    requires
        0 <= i < all.len(),
        !(row(all[i]) is Pair) && !(row(all[i]) is Blank),
        forall|j: int| 0 <= j < i ==> row(#[trigger] all[j]) is Pair || row(all[j]) is Blank,
    ensures
        table(all) is Err,
        table(all)->Err_0 == complaint((i + 1) as nat, row(all[i])),
    decreases all.len(),
{
    let t = all.drop_last();
    if i < t.len() {
        assert forall|j: int| 0 <= j < i implies row(#[trigger] t[j]) is Pair || row(
            t[j],
        ) is Blank by {
            assert(t[j] == all[j]);
        }
        assert(t[i] == all[i]);
        first_bad_line_is_reported(t, i);
    } else {
        assert forall|j: int| 0 <= j < t.len() implies row(#[trigger] t[j]) is Pair || row(
            t[j],
        ) is Blank by {
            assert(t[j] == all[j]);
        }
        last_row_counts(t, 0);
    }
}

} // verus!
