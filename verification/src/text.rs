//! Text as sequences of characters: lines, trimming, decimal numbers.

use vstd::prelude::*;
use vstd::string::{StrSliceExecFns, StringExecFns};

verus! {

/// The characters with the Unicode property `White_Space`.
pub open spec fn is_space(c: char) -> bool {
    let n = c as u32;
    ||| 0x9 <= n <= 0xd
    ||| n == 0x20
    ||| n == 0x85
    ||| n == 0xa0
    ||| n == 0x1680
    ||| 0x2000 <= n <= 0x200a
    ||| n == 0x2028
    ||| n == 0x2029
    ||| n == 0x202f
    ||| n == 0x205f
    ||| n == 0x3000
}

/// `s` without white space at its end.
pub open spec fn trim_end(s: Seq<char>) -> Seq<char>
    decreases s.len(),
{
    if s.len() > 0 && is_space(s.last()) {
        trim_end(s.drop_last())
    } else {
        s
    }
}

/// `s` without white space at its start.
pub open spec fn trim_start(s: Seq<char>) -> Seq<char>
    decreases s.len(),
{
    if s.len() > 0 && is_space(s.first()) {
        trim_start(s.drop_first())
    } else {
        s
    }
}

/// `s` without white space at either end.
pub open spec fn trim(s: Seq<char>) -> Seq<char> {
    trim_end(trim_start(s))
}

/// The first place of `c` in `s`, or the length of `s`.
pub open spec fn find(s: Seq<char>, c: char) -> int
    decreases s.len(),
{
    if s.len() == 0 || s.first() == c {
        0
    } else {
        1 + find(s.drop_first(), c)
    }
}

/// The lines of a text: what stands between line feeds. A line feed at the very end opens
/// no further line.
pub open spec fn lines(s: Seq<char>) -> Seq<Seq<char>>
    decreases s.len(),
{
    let at = find(s, '\n');
    if s.len() == 0 {
        Seq::empty()
    } else if at < 0 || at >= s.len() {
        seq![s]
    } else {
        seq![s.take(at)] + lines(s.skip(at + 1))
    }
}

/// The value of a run of decimal digits; `None` if there is none, or another character.
pub open spec fn digits_value(s: Seq<char>) -> Option<nat>
    decreases s.len(),
{
    if s.len() == 0 {
        None
    } else if !('0' <= s.last() <= '9') {
        None
    } else if s.len() == 1 {
        Some((s.last() as u32 - '0' as u32) as nat)
    } else {
        match digits_value(s.drop_last()) {
            Some(v) => Some((v * 10 + (s.last() as u32 - '0' as u32)) as nat),
            None => None,
        }
    }
}

/// The number that a text writes: an optional sign and decimal digits.
pub open spec fn written(s: Seq<char>) -> Option<int> {
    let signed = s.len() > 0 && (s.first() == '-' || s.first() == '+');
    let digits = if signed {
        s.drop_first()
    } else {
        s
    };
    match digits_value(digits) {
        None => None,
        Some(v) => if signed && s.first() == '-' {
            Some(-(v as int))
        } else {
            Some(v as int)
        },
    }
}

/// The number that a text reads as, within 64 bits.
pub open spec fn number(s: Seq<char>) -> Option<i64> {
    match written(s) {
        Some(n) => if i64::MIN <= n <= i64::MAX {
            Some(n as i64)
        } else {
            None
        },
        None => None,
    }
}

/// The number that a text reads as, within 128 bits.
pub open spec fn integer(s: Seq<char>) -> Option<i128> {
    match written(s) {
        Some(n) => if i128::MIN <= n <= i128::MAX {
            Some(n as i128)
        } else {
            None
        },
        None => None,
    }
}

/// The digit `d`, for `d` below ten.
pub open spec fn digit(d: nat) -> char {
    "0123456789"@[d as int]
}

/// A number in decimal.
pub open spec fn decimal(n: nat) -> Seq<char>
    decreases n,
{
    if n < 10 {
        seq![digit(n)]
    } else {
        decimal(n / 10).push(digit(n % 10))
    }
}

pub proof fn lemma_find(s: Seq<char>, c: char)
    ensures
        0 <= find(s, c) <= s.len(),
        find(s, c) < s.len() ==> s[find(s, c)] == c,
        forall|i: int| 0 <= i < find(s, c) ==> s[i] != c,
    decreases s.len(),
{
    if s.len() > 0 && s.first() != c {
        lemma_find(s.drop_first(), c);
        assert forall|i: int| 0 <= i < find(s, c) implies s[i] != c by {
            if i > 0 {
                assert(s[i] == s.drop_first()[i - 1]);
            }
        }
    }
}

proof fn lemma_find_is(s: Seq<char>, c: char, at: int)
    requires
        0 <= at <= s.len(),
        at < s.len() ==> s[at] == c,
        forall|i: int| 0 <= i < at ==> s[i] != c,
    ensures
        find(s, c) == at,
    decreases s.len(),
{
    if at > 0 {
        assert(s[0] != c);
        let t = s.drop_first();
        assert forall|i: int| 0 <= i < at - 1 implies t[i] != c by {
            assert(s[i + 1] != c);
        }
        lemma_find_is(t, c, at - 1);
    }
}

/// The first place of `c` from `from` on, or the end `to`, counted from the start of `s`.
pub fn find_char(s: &Vec<char>, from: usize, to: usize, c: char) -> (r: usize)
    requires
        from <= to <= s@.len(),
    ensures
        from <= r <= to,
        r - from == find(s@.subrange(from as int, to as int), c),
{
    let mut i: usize = from;
    while i < to && s[i] != c
        invariant
            from <= i <= to <= s@.len(),
            forall|k: int| from <= k < i ==> s@[k] != c,
        decreases to - i,
    {
        i += 1;
    }
    proof {
        let t = s@.subrange(from as int, to as int);
        assert forall|k: int| 0 <= k < i - from implies t[k] != c by {
            assert(s@[from + k] != c);
        }
        lemma_find_is(t, c, i - from);
    }
    i
}

/// Whether `c` is white space.
pub fn space(c: char) -> (r: bool)
    ensures
        r == is_space(c),
{
    let n: u32 = c as u32;
    (0x9 <= n && n <= 0xd) || n == 0x20 || n == 0x85 || n == 0xa0 || n == 0x1680 || (0x2000 <= n
        && n <= 0x200a) || n == 0x2028 || n == 0x2029 || n == 0x202f || n == 0x205f || n == 0x3000
}

/// The bounds of what trimming leaves of `s[from..to]`.
pub fn trim_bounds(s: &Vec<char>, from: usize, to: usize) -> (r: (usize, usize))
    requires
        from <= to <= s@.len(),
    ensures
        from <= r.0 <= r.1 <= to,
        s@.subrange(r.0 as int, r.1 as int) == trim(s@.subrange(from as int, to as int)),
{
    let mut a: usize = from;
    while a < to && space(s[a])
        invariant
            from <= a <= to <= s@.len(),
            trim_start(s@.subrange(from as int, to as int)) == trim_start(
                s@.subrange(a as int, to as int),
            ),
        decreases to - a,
    {
        assert(s@.subrange(a as int, to as int).drop_first() =~= s@.subrange(a + 1, to as int));
        a += 1;
    }
    let ghost started = s@.subrange(a as int, to as int);
    assert(trim_start(s@.subrange(from as int, to as int)) == started);
    let mut b: usize = to;
    while b > a && space(s[b - 1])
        invariant
            a <= b <= to <= s@.len(),
            started == s@.subrange(a as int, to as int),
            trim_end(started) == trim_end(s@.subrange(a as int, b as int)),
        decreases b,
    {
        assert(s@.subrange(a as int, b as int).drop_last() =~= s@.subrange(a as int, b - 1));
        b -= 1;
    }
    assert(trim_end(s@.subrange(a as int, b as int)) == s@.subrange(a as int, b as int));
    (a, b)
}

proof fn lemma_digits_prefix(s: Seq<char>, k: int)
    requires
        0 < k <= s.len(),
        digits_value(s) is Some,
    ensures
        digits_value(s.take(k)) is Some,
        digits_value(s.take(k))->0 <= digits_value(s)->0,
    decreases s.len(),
{
    if k < s.len() {
        assert(s.drop_last().take(k) =~= s.take(k));
        lemma_digits_prefix(s.drop_last(), k);
    } else {
        assert(s.take(k) =~= s);
    }
}

/// Read the digits of `s[from..to]`, if their value is at most `cap`.
fn read_digits(s: &Vec<char>, from: usize, to: usize, cap: u128) -> (r: Option<u128>)
    requires
        from <= to <= s@.len(),
        cap <= 0x8000_0000_0000_0000_0000_0000_0000_0000,
    ensures
        match digits_value(s@.subrange(from as int, to as int)) {
            Some(v) => r == if v <= cap {
                Some(v as u128)
            } else {
                None
            },
            None => r is None,
        },
{
    let ghost digits = s@.subrange(from as int, to as int);
    if from == to {
        return None;
    }
    let mut v: u128 = 0;
    let mut i: usize = from;
    while i < to
        invariant
            from <= i <= to <= s@.len(),
            from < to,
            digits == s@.subrange(from as int, to as int),
            v <= cap <= 0x8000_0000_0000_0000_0000_0000_0000_0000,
            i == from ==> v == 0,
            i > from ==> digits_value(digits.take(i - from)) == Some(v as nat),
        decreases to - i,
    {
        let c: char = s[i];
        let ghost k = i - from + 1;
        let ghost pre = digits.take(k);
        proof {
            assert(pre.drop_last() =~= digits.take(k - 1));
            assert(pre.last() == c);
        }
        if c < '0' || c > '9' {
            proof {
                if digits_value(digits) is Some {
                    lemma_digits_prefix(digits, k);
                }
            }
            return None;
        }
        let d: u128 = (c as u32 - '0' as u32) as u128;
        proof {
            assert(digits_value(pre) == Some((v * 10 + d) as nat));
        }
        if v > cap / 10 || v * 10 + d > cap {
            proof {
                if digits_value(digits) is Some {
                    lemma_digits_prefix(digits, k);
                }
            }
            return None;
        }
        v = v * 10 + d;
        i += 1;
    }
    assert(digits.take(i - from) =~= digits);
    Some(v)
}

/// Read `s[from..to]` as a signed decimal number.
pub fn read_number(s: &Vec<char>, from: usize, to: usize) -> (r: Option<i64>)
    requires
        from <= to <= s@.len(),
    ensures
        r == number(s@.subrange(from as int, to as int)),
{
    let ghost whole = s@.subrange(from as int, to as int);
    if from == to {
        return None;
    }
    let signed: bool = s[from] == '-' || s[from] == '+';
    let negative: bool = s[from] == '-';
    let start: usize = if signed {
        from + 1
    } else {
        from
    };
    assert(s@.subrange(start as int, to as int) =~= if signed {
        whole.drop_first()
    } else {
        whole
    });
    match read_digits(s, start, to, 0x8000_0000_0000_0000) {
        None => None,
        Some(v) => if negative {
            if v == 0x8000_0000_0000_0000 {
                Some(i64::MIN)
            } else {
                Some(-(v as i64))
            }
        } else if v <= 0x7fff_ffff_ffff_ffff {
            Some(v as i64)
        } else {
            None
        },
    }
}

/// Read a text as a signed decimal number of 128 bits.
pub fn read_integer(s: &Vec<char>) -> (r: Option<i128>)
    ensures
        r == integer(s@),
{
    let to: usize = s.len();
    if to == 0 {
        return None;
    }
    let signed: bool = s[0] == '-' || s[0] == '+';
    let negative: bool = s[0] == '-';
    let start: usize = if signed {
        1
    } else {
        0
    };
    assert(s@.subrange(start as int, to as int) =~= if signed {
        s@.drop_first()
    } else {
        s@
    });
    match read_digits(s, start, to, 0x8000_0000_0000_0000_0000_0000_0000_0000) {
        None => None,
        Some(v) => if negative {
            if v == 0x8000_0000_0000_0000_0000_0000_0000_0000 {
                Some(i128::MIN)
            } else {
                Some(-(v as i128))
            }
        } else if v < 0x8000_0000_0000_0000_0000_0000_0000_0000 {
            Some(v as i128)
        } else {
            None
        },
    }
}

/// A decimal number reads back as itself.
pub proof fn decimal_reads_back(n: nat)
    ensures
        digits_value(decimal(n)) == Some(n),
        decimal(n).len() > 0,
        '0' <= decimal(n).first() <= '9',
    decreases n,
{
    reveal_strlit("0123456789");
    assert(digit(n % 10) as u32 == '0' as u32 + n % 10) by {
        lemma_digit(n % 10);
    }
    if n >= 10 {
        decimal_reads_back(n / 10);
        assert(decimal(n).drop_last() =~= decimal(n / 10));
        assert(decimal(n).first() == decimal(n / 10).first());
    }
}

proof fn lemma_digit(d: nat)
    requires
        d < 10,
    ensures
        digit(d) as u32 == '0' as u32 + d,
{
    reveal_strlit("0123456789");
}

/// A signed decimal number of 128 bits reads back as itself.
pub proof fn signed_decimal_reads_back(n: i128)
    ensures
        integer(signed_decimal(n as int)) == Some(n),
{
    reveal_strlit("-");
    let s = signed_decimal(n as int);
    if n < 0 {
        decimal_reads_back((-n) as nat);
        assert(s.drop_first() =~= decimal((-n) as nat));
    } else {
        decimal_reads_back(n as nat);
    }
}

/// The unsigned number that a text reads as: an optional plus sign and decimal digits, within
/// 32 bits.
pub open spec fn unsigned(s: Seq<char>) -> Option<u32> {
    let digits = if s.len() > 0 && s.first() == '+' {
        s.drop_first()
    } else {
        s
    };
    match digits_value(digits) {
        Some(v) => if v <= u32::MAX {
            Some(v as u32)
        } else {
            None
        },
        None => None,
    }
}

/// Read `s[from..to]` as an unsigned decimal number.
pub fn read_unsigned(s: &Vec<char>, from: usize, to: usize) -> (r: Option<u32>)
    requires
        from <= to <= s@.len(),
    ensures
        r == unsigned(s@.subrange(from as int, to as int)),
{
    let ghost whole = s@.subrange(from as int, to as int);
    if from == to {
        return None;
    }
    let start: usize = if s[from] == '+' {
        from + 1
    } else {
        from
    };
    assert(s@.subrange(start as int, to as int) =~= if whole.first() == '+' {
        whole.drop_first()
    } else {
        whole
    });
    match read_digits(s, start, to, 0xffff_ffff) {
        Some(v) => Some(v as u32),
        None => None,
    }
}

/// The parts of a text between separators: at least one.
pub open spec fn split(s: Seq<char>, c: char) -> Seq<Seq<char>>
    decreases s.len(),
{
    let at = find(s, c);
    if at < 0 || at >= s.len() {
        seq![s]
    } else {
        seq![s.take(at)] + split(s.skip(at + 1), c)
    }
}

/// Whether two texts are the same.
pub fn same_text(a: &Vec<char>, b: &str) -> (r: bool)
    ensures
        r == (a@ == b@),
{
    let other: Vec<char> = chars_of(b);
    if a.len() != other.len() {
        return false;
    }
    let mut i: usize = 0;
    while i < a.len()
        invariant
            i <= a@.len(),
            a@.len() == other@.len(),
            other@ == b@,
            a@.take(i as int) == other@.take(i as int),
        decreases a@.len() - i,
    {
        if a[i] != other[i] {
            assert(a@[i as int] != b@[i as int]);
            return false;
        }
        assert(a@.take(i + 1) =~= a@.take(i as int).push(a@[i as int]));
        assert(other@.take(i + 1) =~= other@.take(i as int).push(other@[i as int]));
        i += 1;
    }
    assert(a@.take(i as int) =~= a@);
    assert(other@.take(i as int) =~= other@);
    true
}

/// Append a number in decimal.
pub fn push_decimal(out: &mut String, n: u128)
    ensures
        final(out)@ == old(out)@ + decimal(n as nat),
    decreases n,
{
    let digits: &str = "0123456789";
    proof {
        reveal_strlit("0123456789");
    }
    if n >= 10 {
        push_decimal(out, n / 10);
    }
    let d: usize = (n % 10) as usize;
    let one: &str = digits.substring_char(d, d + 1);
    assert(one@ =~= seq![digit((n % 10) as nat)]);
    out.append(one);
    assert(out@ =~= old(out)@ + decimal(n as nat));
}

/// A signed number in decimal.
pub open spec fn signed_decimal(n: int) -> Seq<char> {
    if n < 0 {
        "-"@ + decimal((-n) as nat)
    } else {
        decimal(n as nat)
    }
}

/// Append a signed number in decimal.
pub fn push_signed(out: &mut String, n: i128)
    ensures
        final(out)@ == old(out)@ + signed_decimal(n as int),
{
    let ghost before = out@;
    if n < 0 {
        out.append("-");
        push_decimal(out, (-1 - n) as u128 + 1);
        assert(out@ =~= before + signed_decimal(n as int));
    } else {
        push_decimal(out, n as u128);
    }
}

proof fn lemma_trim_end_shape(s: Seq<char>)
    ensures
        trim_end(s).len() <= s.len(),
        trim_end(s) == s.take(trim_end(s).len() as int),
        trim_end(s).len() > 0 ==> !is_space(trim_end(s).last()),
    decreases s.len(),
{
    if s.len() > 0 && is_space(s.last()) {
        lemma_trim_end_shape(s.drop_last());
        let k = trim_end(s).len() as int;
        assert(s.drop_last().take(k) =~= s.take(k));
    } else {
        assert(s.take(s.len() as int) =~= s);
    }
}

proof fn lemma_trim_start_shape(s: Seq<char>)
    ensures
        trim_start(s).len() > 0 ==> !is_space(trim_start(s).first()),
    decreases s.len(),
{
    if s.len() > 0 && is_space(s.first()) {
        lemma_trim_start_shape(s.drop_first());
    }
}

/// Trimming what is trimmed changes nothing.
pub proof fn lemma_trim_twice(s: Seq<char>)
    ensures
        trim(trim(s)) == trim(s),
{
    let a = trim_start(s);
    let t = trim(s);
    lemma_trim_start_shape(s);
    lemma_trim_end_shape(a);
    if t.len() > 0 {
        assert(t.first() == a.first());
    }
}

/// The characters of a text.
pub fn chars_of(text: &str) -> (r: Vec<char>)
    ensures
        r@ == text@,
{
    let mut out: Vec<char> = Vec::new();
    for c in it: text.chars()
        invariant
            it.seq() == text@,
            out@ == text@.take(it.index() as int),
    {
        assert(text@.take(it.index() + 1) =~= out@.push(c));
        out.push(c);
    }
    assert(text@.take(text@.len() as int) =~= text@);
    out
}

} // verus!
