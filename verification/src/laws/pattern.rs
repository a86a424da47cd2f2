//! What the test pattern shows.

use vstd::prelude::*;
use crate::convert::lemma_place;
use crate::testpattern::{digits, lit, luma, place_value, u_drift, v_drift};

verus! {

/// Row `row` of the digit `d` shows the picture `p`: `#` where a font pixel is lit.
pub open spec fn row_shows(d: int, row: int, p: Seq<char>) -> bool {
    &&& p.len() == 3
    &&& lit(d, row, 0) == (p[0] == '#')
    &&& lit(d, row, 1) == (p[1] == '#')
    &&& lit(d, row, 2) == (p[2] == '#')
}

/// The five rows of a digit show these pictures.
pub open spec fn reads(
    d: int,
    a: Seq<char>,
    b: Seq<char>,
    c: Seq<char>,
    e: Seq<char>,
    f: Seq<char>,
) -> bool {
    row_shows(d, 0, a) && row_shows(d, 1, b) && row_shows(d, 2, c) && row_shows(d, 3, e)
        && row_shows(d, 4, f)
}

proof fn lemma_places()
    ensures
        place_value(0) == 16384,
        place_value(1) == 8192,
        place_value(2) == 4096,
        place_value(3) == 2048,
        place_value(4) == 1024,
        place_value(5) == 512,
        place_value(6) == 256,
        place_value(7) == 128,
        place_value(8) == 64,
        place_value(9) == 32,
        place_value(10) == 16,
        place_value(11) == 8,
        place_value(12) == 4,
        place_value(13) == 2,
        place_value(14) == 1,
{
    reveal_with_fuel(place_value, 16);
}

/// The font.
pub proof fn digits_look_like_digits(d: int)
    ensures
        d == 0 ==> reads(d, "###"@, "#.#"@, "#.#"@, "#.#"@, "###"@),
        d == 1 ==> reads(d, ".#."@, "##."@, ".#."@, ".#."@, "###"@),
        d == 2 ==> reads(d, "###"@, "..#"@, "###"@, "#.."@, "###"@),
        d == 3 ==> reads(d, "###"@, "..#"@, "###"@, "..#"@, "###"@),
        d == 4 ==> reads(d, "#.#"@, "#.#"@, "###"@, "..#"@, "..#"@),
        d == 5 ==> reads(d, "###"@, "#.."@, "###"@, "..#"@, "###"@),
        d == 6 ==> reads(d, "###"@, "#.."@, "###"@, "#.#"@, "###"@),
        d == 7 ==> reads(d, "###"@, "..#"@, "..#"@, "..#"@, "..#"@),
        d == 8 ==> reads(d, "###"@, "#.#"@, "###"@, "#.#"@, "###"@),
        d == 9 ==> reads(d, "###"@, "#.#"@, "###"@, "..#"@, "###"@),
{
    reveal_strlit("###");
    reveal_strlit("##.");
    reveal_strlit("#.#");
    reveal_strlit("#..");
    reveal_strlit(".#.");
    reveal_strlit("..#");
    lemma_places();
}

/// The number that decimal digits stand for.
pub open spec fn value_of(s: Seq<int>) -> int
    decreases s.len(),
{
    if s.len() == 0 {
        0
    } else {
        10 * value_of(s.drop_last()) + s.last()
    }
}

/// The digits of a number stand for it, and none leads that is zero unless it is the only one.
pub proof fn digits_stand_for_the_number(n: int)
    requires
        0 <= n,
    ensures
        value_of(digits(n)) == n,
        digits(n).len() >= 1,
        digits(n).len() > 1 ==> digits(n)[0] != 0,
        forall|i: int| 0 <= i < digits(n).len() ==> 0 <= #[trigger] digits(n)[i] <= 9,
    decreases n,
{
    reveal_with_fuel(value_of, 2);
    let s = digits(n);
    if n >= 10 {
        let t = digits(n / 10);
        digits_stand_for_the_number(n / 10);
        assert(s.drop_last() =~= t);
        assert forall|i: int| 0 <= i < s.len() implies 0 <= #[trigger] s[i] <= 9 by {
            if i < t.len() {
                assert(s[i] == t[i]);
            }
        }
        if t.len() == 1 {
            assert(t.drop_last() =~= Seq::empty());
            assert(value_of(t) == t[0]);
        }
    } else {
        assert(s.drop_last() =~= Seq::empty());
    }
}

/// The counter spells the number of the frame, from left to right: inside the border, the samples
/// of font pixel `row`, `col` of the `k`-th digit, a block of eight by eight, are white where the
/// digit is lit there and black where it is not. Digits are 32 samples apart, the first 8 from the
/// left and all 8 from the top.
pub proof fn counter_spells_the_number(
    w: nat,
    h: nat,
    n: u32,
    k: int,
    row: int,
    col: int,
    dx: int,
    dy: int,
)
    requires
        0 <= k < digits(n as int).len(),
        0 <= row < 5,
        0 <= col < 3,
        0 <= dx < 8,
        0 <= dy < 8,
        8 + 32 * k + 8 * col + dx < w - 1,
        8 + 8 * row + dy < h - 1,
    ensures
        ({
            let x = 8 + 32 * k + 8 * col + dx;
            let y = 8 + 8 * row + dy;
            &&& 0 <= y * w + x < luma(w, h, n).len()
            &&& luma(w, h, n)[y * w + x] == if lit(digits(n as int)[k], row, col) {
                235u8
            } else {
                16u8
            }
        }),
{
    let x = 8 + 32 * k + 8 * col + dx;
    let y = 8 + 8 * row + dy;
    lemma_at(w as int, h as int, x, y);
    assert((x - 8) / 32 == k);
    assert((x - 8) % 32 == 8 * col + dx);
    assert((8 * col + dx) / 8 == col);
    assert((y - 8) / 8 == row);
}

proof fn lemma_at(w: int, h: int, x: int, y: int)
    requires
        0 <= x < w,
        0 <= y < h,
    ensures
        0 <= y * w + x < w * h,
        (y * w + x) % w == x,
        (y * w + x) / w == y,
{
    assert(y * w + w <= w * h) by (nonlinear_arith)
        requires
            y + 1 <= h,
            0 < w,
    ;
    assert(0 <= y * w) by (nonlinear_arith)
        requires
            0 <= y,
            0 < w,
    ;
    lemma_place(w, x, y, y * w + x);
}

/// Away from the border and the counter the luma is the column plus the row plus three for each
/// frame, modulo 256: it rises by one a step and the whole moves by three a frame.
pub proof fn gradient_is_a_moving_ramp(w: nat, h: nat, n: u32, x: int, y: int)
    requires
        0 < x < w - 1,
        0 < y < h - 1,
        x < 8 || y < 8 || y >= 48 || x >= 8 + 32 * digits(n as int).len() || (x - 8) % 32 >= 24,
    ensures
        0 <= y * w + x < luma(w, h, n).len(),
        luma(w, h, n)[y * w + x] == (x + y + 3 * n) % 256,
{
    lemma_at(w as int, h as int, x, y);
}

/// The outermost samples are all white in frames with an even number and all black in the others,
/// whatever is under them: two frames in a row never look alike.
pub proof fn border_tells_odd_from_even(w: nat, h: nat, n: u32, x: int, y: int)
    requires
        0 <= x < w,
        0 <= y < h,
        x == 0 || x == w - 1 || y == 0 || y == h - 1,
    ensures
        luma(w, h, n).len() == w * h,
        0 <= y * w + x < luma(w, h, n).len(),
        n % 2 == 0 ==> luma(w, h, n)[y * w + x] == 235,
        n % 2 == 1 ==> luma(w, h, n)[y * w + x] == 16,
{
    lemma_at(w as int, h as int, x, y);
}

/// The chroma drifts: by one in four columns and by three columns a frame, the first plane along
/// the rows and the second, the other way, along the columns. The first frame starts at 128.
pub proof fn chroma_drifts(w: nat, h: nat, n: u32, cx: int, cy: int)
    requires
        0 <= cx < w / 2,
        0 <= cy < h / 2,
    ensures
        ({
            let at = cy * (w / 2) + cx;
            &&& u_drift(w, h, n).len() == (w / 2) * (h / 2)
            &&& v_drift(w, h, n).len() == (w / 2) * (h / 2)
            &&& 0 <= at < u_drift(w, h, n).len()
            &&& u_drift(w, h, n)[at] == (128 + (cx + 3 * n) / 4) % 256
            &&& v_drift(w, h, n)[at] == (128 + (cy - 3 * n) / 4) % 256
        }),
{
    let m = 0x1_0000_0000;
    let moved = (n * 3) % m;
    lemma_at((w / 2) as int, (h / 2) as int, cx, cy);
    vstd::arithmetic::div_mod::lemma_fundamental_div_mod(n * 3, m);
    let q = n * 3 / m;
    lemma_wrap(cx + moved, q);
    lemma_wrap(cy - moved, -q);
    lemma_wrap(cx + moved, -((cx + moved) / m));
    lemma_wrap(cy - moved, -((cy - moved) / m));
    vstd::arithmetic::div_mod::lemma_fundamental_div_mod(cx + moved, m);
    vstd::arithmetic::div_mod::lemma_fundamental_div_mod(cy - moved, m);
}

/// Multiples of two to the 32nd make no difference to a drift.
proof fn lemma_wrap(v: int, q: int)
    ensures
        (128 + (v + 0x1_0000_0000 * q) / 4) % 256 == (128 + v / 4) % 256,
{
    lemma_steps(v, 0x40_0000 * q);
}

proof fn lemma_steps(v: int, k: int)
    ensures
        (128 + (v + 1024 * k) / 4) % 256 == (128 + v / 4) % 256,
{
    assert((v + 1024 * k) / 4 == v / 4 + 256 * k);
}

} // verus!
