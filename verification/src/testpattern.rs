//! Synthetic test-pattern source, the stand-in for real capture.
//!
//! It produces I420 frames with three things that can be read at a glance:
//!   * a moving gradient (luma ramps with x+y, scrolling each frame),
//!   * a burned-in frame counter (top-left digits),
//!   * a one-pixel frame-parity border (white on even frames, black on odd): if a displayed
//!     frame is torn, its top and bottom borders do not match.

use vstd::prelude::*;
use crate::convert::{lemma_place, lemma_row_col};
use crate::frame::{signed32, to_signed32};

verus! {

broadcast use vstd::std_specs::vec::group_vec_axioms;

/// Each font pixel is a block of this many luma samples a side.
pub const GLYPH_SCALE: usize = 8;

/// Distance of the counter from the top and left edges.
pub const MARGIN: usize = 8;

/// Luma of white.
pub const WHITE: u8 = 235;

/// Luma of black.
pub const BLACK: u8 = 16;

/// A frame of the pattern.
pub struct Pattern {
    pub width: nat,
    pub height: nat,
    pub y: Seq<u8>,
    pub u: Seq<u8>,
    pub v: Seq<u8>,
}

impl Pattern {
    /// The planes have the lengths of a `width` by `height` I420 frame.
    pub open spec fn valid(self) -> bool {
        &&& self.y.len() == self.width * self.height
        &&& self.u.len() == (self.width / 2) * (self.height / 2)
        &&& self.v.len() == (self.width / 2) * (self.height / 2)
    }
}

/// The 3x5 glyph of a digit, fifteen bits from the top left on, row by row.
pub open spec fn glyph(d: int) -> u32 {
    if d == 0 {
        0b111_101_101_101_111
    } else if d == 1 {
        0b010_110_010_010_111
    } else if d == 2 {
        0b111_001_111_100_111
    } else if d == 3 {
        0b111_001_111_001_111
    } else if d == 4 {
        0b101_101_111_001_001
    } else if d == 5 {
        0b111_100_111_001_111
    } else if d == 6 {
        0b111_100_111_101_111
    } else if d == 7 {
        0b111_001_001_001_001
    } else if d == 8 {
        0b111_101_111_101_111
    } else {
        0b111_101_111_001_111
    }
}

/// `2` to the power `14 - i`, for `i` up to fourteen.
pub open spec fn place_value(i: int) -> u32
    decreases 14 - i,
{
    if i >= 14 {
        1
    } else {
        (2 * place_value(i + 1)) as u32
    }
}

/// The font pixel of digit `d` at `row`, `col` is lit.
pub open spec fn lit(d: int, row: int, col: int) -> bool {
    glyph(d) / place_value(3 * row + col) % 2 == 1
}

/// The luma of a font pixel.
pub open spec fn ink(d: int, row: int, col: int) -> u8 {
    if lit(d, row, col) {
        WHITE
    } else {
        BLACK
    }
}

/// The decimal digits of a number, most significant first.
pub open spec fn digits(n: int) -> Seq<int>
    decreases n,
{
    if n < 10 {
        seq![n]
    } else {
        digits(n / 10).push(n % 10)
    }
}

/// What is drawn over a plane: at each place a sample, or nothing.
pub open spec fn painted(s: Seq<u8>, w: int, f: spec_fn(int, int) -> Option<u8>) -> Seq<u8> {
    Seq::new(
        s.len(),
        |k: int|
            match f(k % w, k / w) {
                Some(c) => c,
                None => s[k],
            },
    )
}

/// A filled rectangle.
pub open spec fn rect(x0: int, x1: int, y0: int, y1: int, c: u8) -> spec_fn(int, int) -> Option<
    u8,
> {
    |x: int, y: int|
        if x0 <= x < x1 && y0 <= y < y1 {
            Some(c)
        } else {
            None
        }
}

/// One digit with its top left corner at `ox`, `oy`: each font pixel is a block of samples.
pub open spec fn digit_at(d: int, ox: int, oy: int) -> spec_fn(int, int) -> Option<u8> {
    |x: int, y: int|
        if ox <= x < ox + 24 && oy <= y < oy + 40 {
            Some(ink(d, (y - oy) / 8, (x - ox) / 8))
        } else {
            None
        }
}

/// The first `count` digits of the counter, 32 samples apart.
pub open spec fn counter(n: int, count: int) -> spec_fn(int, int) -> Option<u8> {
    |x: int, y: int|
        if 8 <= x && (x - 8) / 32 < count && (x - 8) % 32 < 24 && 8 <= y < 48 {
            Some(ink(digits(n)[(x - 8) / 32], (y - 8) / 8, (x - 8) % 32 / 8))
        } else {
            None
        }
}

/// The parity border.
pub open spec fn border(w: int, h: int, n: int) -> spec_fn(int, int) -> Option<u8> {
    |x: int, y: int|
        if x == 0 || y == 0 || x == w - 1 || y == h - 1 {
            Some(
                if n % 2 == 0 {
                    WHITE
                } else {
                    BLACK
                },
            )
        } else {
            None
        }
}

/// How far the gradient has moved in frame `n`.
pub open spec fn shift(n: u32) -> int {
    (n * 3) % 0x1_0000_0000
}

/// The moving gradient.
pub open spec fn gradient(w: nat, h: nat, n: u32) -> Seq<u8> {
    Seq::new(w * h, |k: int| ((k % w as int + k / w as int + 3 * n) % 256) as u8)
}

/// The luma plane of frame `n`: the gradient, the counter over it, the border over both.
pub open spec fn luma(w: nat, h: nat, n: u32) -> Seq<u8> {
    painted(
        painted(
            gradient(w, h, n),
            w as int,
            counter(n as int, digits(n as int).len() as int),
        ),
        w as int,
        border(w as int, h as int, n as int),
    )
}

/// The first chroma sample in column `cx` of frame `n`.
pub open spec fn u_sample(n: u32, cx: int) -> u8 {
    ((128 + (cx + shift(n)) % 0x1_0000_0000 / 4) % 256) as u8
}

/// The second chroma sample in row `cy` of frame `n`.
pub open spec fn v_sample(n: u32, cy: int) -> u8 {
    ((128 + (cy - shift(n)) % 0x1_0000_0000 / 4) % 256) as u8
}

/// The first chroma plane of frame `n`: it drifts with the columns.
pub open spec fn u_drift(w: nat, h: nat, n: u32) -> Seq<u8> {
    let cw = (w / 2) as int;
    Seq::new(
        (w / 2) * (h / 2),
        |k: int| u_sample(n, k % cw),
    )
}

/// The second chroma plane of frame `n`: it drifts with the rows, the other way.
pub open spec fn v_drift(w: nat, h: nat, n: u32) -> Seq<u8> {
    let cw = (w / 2) as int;
    Seq::new(
        (w / 2) * (h / 2),
        |k: int| v_sample(n, k / cw),
    )
}

/// A reusable I420 frame buffer that renders the test pattern in place.
pub struct TestPattern {
    width: usize,
    height: usize,
    y: Vec<u8>,
    u: Vec<u8>,
    v: Vec<u8>,
}

impl View for TestPattern {
    type V = Pattern;

    closed spec fn view(&self) -> Pattern {
        Pattern {
            width: self.width as nat,
            height: self.height as nat,
            y: self.y@,
            u: self.u@,
            v: self.v@,
        }
    }
}

proof fn lemma_index(w: int, h: int, x: int, y: int)
    requires
        0 <= x < w,
        0 <= y < h,
    ensures
        0 <= y * w,
        0 <= y * w + x < w * h,
{
    assert(y * w + w <= h * w) by (nonlinear_arith)
        requires
            y + 1 <= h,
            0 < w,
    ;
    assert(h * w == w * h) by (nonlinear_arith);
    assert(0 <= y * w) by (nonlinear_arith)
        requires
            0 <= y,
            0 < w,
    ;
}

proof fn lemma_in_plane(w: int, h: int, k: int)
    requires
        0 <= k < w * h,
        0 <= w,
        0 <= h,
    ensures
        0 < w,
        0 <= k % w < w,
        0 <= k / w < h,
{
    assert(w > 0) by (nonlinear_arith)
        requires
            0 <= k < w * h,
            0 <= w,
            0 <= h,
    ;
    vstd::arithmetic::div_mod::lemma_fundamental_div_mod(k, w);
    assert(0 <= k % w < w);
    assert(k / w < h) by (nonlinear_arith)
        requires
            k < w * h,
            k == w * (k / w) + k % w,
            0 <= k % w,
            w > 0,
    ;
    assert(0 <= k / w) by (nonlinear_arith)
        requires
            0 <= k,
            w > 0,
    ;
}

impl TestPattern {
    /// Allocate planes for a `width` by `height` I420 frame (both even).
    pub fn new(width: usize, height: usize) -> (r: Self)
        requires
            width * height <= isize::MAX,
        ensures
            r@.valid(),
            r@.width == width,
            r@.height == height,
            r@.y == Seq::new((width * height) as nat, |i: int| 0u8),
            r@.u == Seq::new(((width / 2) * (height / 2)) as nat, |i: int| 128u8),
            r@.v == Seq::new(((width / 2) * (height / 2)) as nat, |i: int| 128u8),
    {
        let cw: usize = width / 2;
        let ch: usize = height / 2;
        assert(cw * ch <= width * height) by (nonlinear_arith)
            requires
                cw == width / 2,
                ch == height / 2,
        ;
        assert(0 <= width * height) by (nonlinear_arith);
        assert(0 <= cw * ch) by (nonlinear_arith);
        let y: Vec<u8> = vec![0u8; width * height];
        let u: Vec<u8> = vec![128u8; cw * ch];
        let v: Vec<u8> = vec![128u8; cw * ch];
        assert(y@ =~= Seq::new((width * height) as nat, |i: int| 0u8));
        assert(u@ =~= Seq::new((cw * ch) as nat, |i: int| 128u8));
        assert(v@ =~= Seq::new((cw * ch) as nat, |i: int| 128u8));
        TestPattern { width, height, y, u, v }
    }

    /// Render frame `n` into the planes: gradient, counter and parity border.
    pub fn render(&mut self, n: u32)
        requires
            old(self)@.valid(),
            (old(self)@.width == 0) == (old(self)@.height == 0),
        ensures
            final(self)@.valid(),
            final(self)@.width == old(self)@.width,
            final(self)@.height == old(self)@.height,
            final(self)@.y == luma(old(self)@.width, old(self)@.height, n),
            final(self)@.u == u_drift(old(self)@.width, old(self)@.height, n),
            final(self)@.v == v_drift(old(self)@.width, old(self)@.height, n),
    {
        self.draw_gradient(n);
        self.draw_chroma(n);
        self.draw_counter(n);
        self.draw_parity_border(n);
    }

    /// The Y, U, V plane slices (for the encoder).
    pub fn planes(&self) -> (r: [&[u8]; 3])
        ensures
            r[0]@ == self@.y,
            r[1]@ == self@.u,
            r[2]@ == self@.v,
    {
        [self.y.as_slice(), self.u.as_slice(), self.v.as_slice()]
    }

    /// Luma and chroma strides (tightly packed I420): the low 32 bits, as signed numbers.
    pub fn strides(&self) -> (r: [i32; 3])
        ensures
            r[0] == signed32(self@.width as int % 0x1_0000_0000),
            r[1] == signed32((self@.width / 2) as int % 0x1_0000_0000),
            r[2] == signed32((self@.width / 2) as int % 0x1_0000_0000),
    {
        let full: i32 = to_signed32((self.width as u64 % 0x1_0000_0000) as u32);
        let half: i32 = to_signed32(((self.width / 2) as u64 % 0x1_0000_0000) as u32);
        [full, half, half]
    }

    /// The moving luma gradient.
    fn draw_gradient(&mut self, n: u32)
        requires
            old(self)@.valid(),
        ensures
            final(self)@ == (Pattern {
                y: gradient(old(self)@.width, old(self)@.height, n),
                ..old(self)@
            }),
    {
        let w: usize = self.width;
        let h: usize = self.height;
        let len: usize = self.y.len();
        let ghost plane = gradient(w as nat, h as nat, n);
        self.y.clear();
        let moved: u64 = n as u64 * 3 % 256;
        let mut yy: usize = 0;
        assert(0 * w == 0) by (nonlinear_arith);
        assert(plane.take(0) =~= Seq::empty());
        while yy < h
            invariant
                yy <= h,
                w == self.width,
                h == self.height,
                len == w * h,
                moved == (n * 3) % 256,
                plane == gradient(w as nat, h as nat, n),
                self.y@ == plane.take(yy * w),
                self.u@ == old(self).u@,
                self.v@ == old(self).v@,
            decreases h - yy,
        {
            let mut xx: usize = 0;
            assert(yy * w + w <= h * w) by (nonlinear_arith)
                requires
                    yy + 1 <= h,
            ;
            assert(h * w == w * h) by (nonlinear_arith);
            assert(0 <= yy * w) by (nonlinear_arith);
            while xx < w
                invariant
                    xx <= w,
                    yy < h,
                    w == self.width,
                    h == self.height,
                    len == w * h,
                    moved == (n * 3) % 256,
                    plane == gradient(w as nat, h as nat, n),
                    0 <= yy * w,
                    yy * w + w <= w * h,
                    self.y@ == plane.take(yy * w + xx),
                    self.u@ == old(self).u@,
                    self.v@ == old(self).v@,
                decreases w - xx,
            {
                let sum: u64 = xx as u64 % 256 + yy as u64 % 256 + moved;
                self.y.push((sum % 256) as u8);
                proof {
                    let k = yy * w + xx;
                    lemma_row_col(w as int, yy as int, xx as int);
                    assert(plane[k] == sum % 256);
                    assert(plane.take(k + 1) =~= plane.take(k).push(plane[k]));
                }
                xx += 1;
            }
            assert((yy + 1) * w == yy * w + w) by (nonlinear_arith);
            yy += 1;
        }
        assert(h * w == w * h) by (nonlinear_arith);
        assert(plane.take(yy * w) =~= plane);
    }

    /// A gentle chroma drift, so that motion is visible.
    fn draw_chroma(&mut self, n: u32)
        requires
            old(self)@.valid(),
        ensures
            final(self)@ == (Pattern {
                u: u_drift(old(self)@.width, old(self)@.height, n),
                v: v_drift(old(self)@.width, old(self)@.height, n),
                ..old(self)@
            }),
    {
        let cw: usize = self.width / 2;
        let ch: usize = self.height / 2;
        let len: usize = self.u.len();
        let ghost us = u_drift(self@.width, self@.height, n);
        let ghost vs = v_drift(self@.width, self@.height, n);
        self.u.clear();
        self.v.clear();
        let mut cy: usize = 0;
        assert(0 * cw == 0) by (nonlinear_arith);
        assert(us.take(0) =~= Seq::empty());
        assert(vs.take(0) =~= Seq::empty());
        while cy < ch
            invariant
                cy <= ch,
                cw == self.width / 2,
                ch == self.height / 2,
                self.width == old(self).width,
                self.height == old(self).height,
                len == cw * ch,
                us == u_drift(self@.width, self@.height, n),
                vs == v_drift(self@.width, self@.height, n),
                self.y@ == old(self).y@,
                self.u@ == us.take(cy * cw),
                self.v@ == vs.take(cy * cw),
            decreases ch - cy,
        {
            let mut cx: usize = 0;
            assert(cy * cw + cw <= ch * cw) by (nonlinear_arith)
                requires
                    cy + 1 <= ch,
            ;
            assert(ch * cw == cw * ch) by (nonlinear_arith);
            assert(0 <= cy * cw) by (nonlinear_arith);
            let low: u8 = v_at(n, cy);
            while cx < cw
                invariant
                    cx <= cw,
                    cy < ch,
                    cw == self.width / 2,
                    ch == self.height / 2,
                    self.width == old(self).width,
                    self.height == old(self).height,
                    len == cw * ch,
                    low == v_sample(n, cy as int),
                    us == u_drift(self@.width, self@.height, n),
                    vs == v_drift(self@.width, self@.height, n),
                    us.len() == cw * ch,
                    vs.len() == cw * ch,
                    0 <= cy * cw,
                    cy * cw + cw <= cw * ch,
                    self.y@ == old(self).y@,
                    self.u@ == us.take(cy * cw + cx),
                    self.v@ == vs.take(cy * cw + cx),
                decreases cw - cx,
            {
                self.u.push(u_at(n, cx));
                self.v.push(low);
                proof {
                    let k = cy * cw + cx;
                    lemma_row_col(cw as int, cy as int, cx as int);
                    assert(us.take(k + 1) =~= us.take(k).push(us[k]));
                    assert(vs.take(k + 1) =~= vs.take(k).push(vs[k]));
                }
                cx += 1;
            }
            assert((cy + 1) * cw == cy * cw + cw) by (nonlinear_arith);
            cy += 1;
        }
        assert(ch * cw == cw * ch) by (nonlinear_arith);
        assert(us.take(cy * cw) =~= us);
        assert(vs.take(cy * cw) =~= vs);
    }

    /// Fill the rectangle of columns `[x0, x1)` and rows `[y0, y1)`.
    fn fill(&mut self, x0: usize, x1: usize, y0: usize, y1: usize, c: u8)
        requires
            old(self)@.valid(),
            x0 <= x1 <= old(self)@.width,
            y0 <= y1 <= old(self)@.height,
        ensures
            final(self)@ == (Pattern {
                y: painted(
                    old(self)@.y,
                    old(self)@.width as int,
                    rect(x0 as int, x1 as int, y0 as int, y1 as int, c),
                ),
                ..old(self)@
            }),
    {
        let w: usize = self.width;
        let ghost h = self.height as int;
        let ghost s = self.y@;
        let len: usize = self.y.len();
        let mut y: usize = y0;
        proof {
            assert(painted(s, w as int, rect(x0 as int, x1 as int, y0 as int, y0 as int, c))
                =~= s);
        }
        while y < y1
            invariant
                y0 <= y <= y1,
                x0 <= x1 <= w,
                y1 <= h,
                w == self.width,
                h == self.height,
                self.width == old(self).width,
                self.height == old(self).height,
                len == w * h,
                s.len() == w * h,
                s == old(self).y@,
                self.u@ == old(self).u@,
                self.v@ == old(self).v@,
                self.y@ == painted(
                    s,
                    w as int,
                    rect(x0 as int, x1 as int, y0 as int, y as int, c),
                ),
            decreases y1 - y,
        {
            let ghost done = self.y@;
            let mut x: usize = x0;
            proof {
                assert(painted(done, w as int, rect(x0 as int, x0 as int, y as int, y + 1, c))
                    =~= done);
            }
            while x < x1
                invariant
                    x0 <= x <= x1,
                    x1 <= w,
                    y < y1,
                    y1 <= h,
                    w == self.width,
                    h == self.height,
                    self.width == old(self).width,
                    self.height == old(self).height,
                    len == w * h,
                    done.len() == w * h,
                    self.u@ == old(self).u@,
                    self.v@ == old(self).v@,
                    self.y@ == painted(
                        done,
                        w as int,
                        rect(x0 as int, x as int, y as int, y + 1, c),
                    ),
                decreases x1 - x,
            {
                proof {
                    lemma_index(w as int, h, x as int, y as int);
                }
                let ghost before = self.y@;
                self.y[y * w + x] = c;
                proof {
                    let at = y * w + x;
                    let goal = painted(
                        done,
                        w as int,
                        rect(x0 as int, x + 1, y as int, y + 1, c),
                    );
                    assert(self.y@ == before.update(at, c));
                    assert forall|k: int| 0 <= k < w * h implies #[trigger] goal[k]
                        == self.y@[k] by {
                        lemma_place(w as int, x as int, y as int, k);
                        lemma_in_plane(w as int, h, k);
                    }
                    assert(self.y@ =~= goal);
                }
                x += 1;
            }
            proof {
                let goal = painted(s, w as int, rect(x0 as int, x1 as int, y0 as int, y + 1, c));
                assert(self.y@ =~= goal);
            }
            y += 1;
        }
    }

    fn draw_counter(&mut self, n: u32)
        requires
            old(self)@.valid(),
        ensures
            final(self)@ == (Pattern {
                y: painted(
                    old(self)@.y,
                    old(self)@.width as int,
                    counter(n as int, digits(n as int).len() as int),
                ),
                ..old(self)@
            }),
    {
        let ghost s = self.y@;
        let ghost w = self.width as int;
        let list: Vec<u8> = digits_of(n);
        let len: usize = list.len();
        let mut i: usize = 0;
        assert(painted(s, w, counter(n as int, 0)) =~= s);
        while i < len
            invariant
                i <= len,
                len <= 10,
                len == list@.len(),
                list@.len() == digits(n as int).len(),
                forall|k: int|
                    0 <= k < len ==> (#[trigger] list@[k]) == digits(n as int)[k] && list@[k] < 10,
                w == self.width,
                s == old(self).y@,
                self@.valid(),
                self@ == (Pattern {
                    y: painted(s, w, counter(n as int, i as int)),
                    ..old(self)@
                }),
            decreases len - i,
        {
            let ghost before = self.y@;
            let d: u8 = list[i];
            self.draw_glyph(d, MARGIN + i * 32, MARGIN);
            proof {
                let goal = painted(s, w, counter(n as int, i + 1));
                assert forall|k: int| 0 <= k < s.len() implies #[trigger] goal[k] == self.y@[k] by {
                    let x = k % w;
                    if x >= 8 {
                        let q = (x - 8) / 32;
                        assert(x - 8 == 32 * q + (x - 8) % 32);
                    }
                }
                assert(self.y@ =~= goal);
            }
            i += 1;
        }
    }

    fn draw_glyph(&mut self, digit: u8, ox: usize, oy: usize)
        requires
            old(self)@.valid(),
            digit < 10,
            ox <= 1000,
            oy <= 1000,
        ensures
            final(self)@ == (Pattern {
                y: painted(
                    old(self)@.y,
                    old(self)@.width as int,
                    digit_at(digit as int, ox as int, oy as int),
                ),
                ..old(self)@
            }),
    {
        let ghost s = self.y@;
        let ghost w = self.width as int;
        let ghost h = self.height as int;
        let bits: u32 = glyph_bits(digit);
        let mut cell: usize = 0;
        let mut value: u32 = 16384;
        proof {
            reveal_with_fuel(place_value, 16);
            assert(painted(s, w, cells_before(digit as int, ox as int, oy as int, 0)) =~= s);
        }
        while cell < 15
            invariant
                cell <= 15,
                cell < 15 ==> value == place_value(cell as int),
                value >= 1 || cell == 15,
                bits == glyph(digit as int),
                ox <= 1000,
                oy <= 1000,
                w == self.width,
                h == self.height,
                s == old(self).y@,
                s.len() == w * h,
                self@.valid(),
                self@ == (Pattern {
                    y: painted(
                        s,
                        w,
                        cells_before(digit as int, ox as int, oy as int, cell as int),
                    ),
                    ..old(self)@
                }),
            decreases 15 - cell,
        {
            let row: usize = cell / 3;
            let col: usize = cell % 3;
            assert(3 * row + col == cell);
            let on: bool = bits / value % 2 == 1;
            let c: u8 = if on {
                WHITE
            } else {
                BLACK
            };
            let x0: usize = clip(ox + col * GLYPH_SCALE, self.width);
            let x1: usize = clip(ox + col * GLYPH_SCALE + GLYPH_SCALE, self.width);
            let y0: usize = clip(oy + row * GLYPH_SCALE, self.height);
            let y1: usize = clip(oy + row * GLYPH_SCALE + GLYPH_SCALE, self.height);
            self.fill(x0, x1, y0, y1, c);
            proof {
                lemma_place_value(cell as int);
                lemma_cell(
                    s,
                    w,
                    h,
                    digit as int,
                    ox as int,
                    oy as int,
                    cell as int,
                    x0 as int,
                    x1 as int,
                    y0 as int,
                    y1 as int,
                    c,
                );
            }
            value = value / 2;
            cell += 1;
        }
        proof {
            assert(self.y@ =~= painted(s, w, digit_at(digit as int, ox as int, oy as int)));
        }
    }

    fn draw_parity_border(&mut self, n: u32)
        requires
            old(self)@.valid(),
            (old(self)@.width == 0) == (old(self)@.height == 0),
        ensures
            final(self)@ == (Pattern {
                y: painted(
                    old(self)@.y,
                    old(self)@.width as int,
                    border(old(self)@.width as int, old(self)@.height as int, n as int),
                ),
                ..old(self)@
            }),
    {
        let ghost s = self.y@;
        let w: usize = self.width;
        let h: usize = self.height;
        let c: u8 = if n % 2 == 0 {
            WHITE
        } else {
            BLACK
        };
        if w > 0 {
            self.fill(0, w, 0, 1, c);
            self.fill(0, w, h - 1, h, c);
            self.fill(0, 1, 0, h, c);
            self.fill(w - 1, w, 0, h, c);
        }
        proof {
            let goal = painted(s, w as int, border(w as int, h as int, n as int));
            assert forall|k: int| 0 <= k < s.len() implies #[trigger] goal[k] == self.y@[k] by {
                lemma_in_plane(w as int, h as int, k);
            }
            assert(self.y@ =~= goal);
        }
    }
}

/// The font pixels of a digit before number `count`, counted row by row.
spec fn cells_before(d: int, ox: int, oy: int, count: int) -> spec_fn(int, int) -> Option<u8> {
    |x: int, y: int|
        if ox <= x < ox + 24 && oy <= y < oy + 40 && 3 * ((y - oy) / 8) + (x - ox) / 8 < count {
            Some(ink(d, (y - oy) / 8, (x - ox) / 8))
        } else {
            None
        }
}

/// Filling one font pixel's block, as far as it is within the plane, adds that font pixel.
proof fn lemma_cell(
    s: Seq<u8>,
    w: int,
    h: int,
    d: int,
    ox: int,
    oy: int,
    cell: int,
    x0: int,
    x1: int,
    y0: int,
    y1: int,
    c: u8,
)
    requires
        0 <= w,
        0 <= h,
        s.len() == w * h,
        0 <= cell < 15,
        c == ink(d, cell / 3, cell % 3),
        x0 == clipped(ox + cell % 3 * 8, w),
        x1 == clipped(ox + cell % 3 * 8 + 8, w),
        y0 == clipped(oy + cell / 3 * 8, h),
        y1 == clipped(oy + cell / 3 * 8 + 8, h),
    ensures
        painted(painted(s, w, cells_before(d, ox, oy, cell)), w, rect(x0, x1, y0, y1, c))
            == painted(s, w, cells_before(d, ox, oy, cell + 1)),
{
    let a = painted(painted(s, w, cells_before(d, ox, oy, cell)), w, rect(x0, x1, y0, y1, c));
    let b = painted(s, w, cells_before(d, ox, oy, cell + 1));
    assert forall|k: int| 0 <= k < s.len() implies #[trigger] a[k] == b[k] by {
        lemma_in_plane(w, h, k);
        lemma_cell_at(ox, oy, cell, k % w, k / w);
    }
    assert(a =~= b);
}

/// A place of the glyph belongs to one font pixel.
proof fn lemma_cell_at(ox: int, oy: int, cell: int, x: int, y: int)
    requires
        0 <= cell < 15,
        0 <= x,
        0 <= y,
    ensures
        (ox + cell % 3 * 8 <= x < ox + cell % 3 * 8 + 8 && oy + cell / 3 * 8 <= y < oy + cell / 3 * 8
            + 8) <==> (ox <= x < ox + 24 && oy <= y < oy + 40 && 3 * ((y - oy) / 8) + (x - ox) / 8
            == cell),
        ox <= x < ox + 24 && oy <= y < oy + 40 && 3 * ((y - oy) / 8) + (x - ox) / 8 == cell ==> (y
            - oy) / 8 == cell / 3 && (x - ox) / 8 == cell % 3,
{
}

/// The lesser of two sizes.
spec fn clipped(v: int, max: int) -> int {
    if v < max {
        v
    } else {
        max
    }
}

proof fn lemma_place_value(i: int)
    requires
        0 <= i <= 14,
    ensures
        1 <= place_value(i) <= 16384,
        i < 14 ==> place_value(i) == 2 * place_value(i + 1),
{
    reveal_with_fuel(place_value, 16);
}

/// The first chroma sample of a column.
fn u_at(n: u32, cx: usize) -> (r: u8)
    ensures
        r == u_sample(n, cx as int),
{
    let moved: u64 = n as u64 * 3 % 0x1_0000_0000;
    let across: u64 = (cx as u64 % 0x1_0000_0000 + moved) % 0x1_0000_0000;
    ((128 + across / 4) % 256) as u8
}

/// The second chroma sample of a row.
fn v_at(n: u32, cy: usize) -> (r: u8)
    ensures
        r == v_sample(n, cy as int),
{
    let moved: u64 = n as u64 * 3 % 0x1_0000_0000;
    let down: u64 = (cy as u64 % 0x1_0000_0000 + 0x1_0000_0000 - moved) % 0x1_0000_0000;
    assert(down == (cy - moved) % 0x1_0000_0000);
    ((128 + down / 4) % 256) as u8
}

/// The lesser of two sizes.
fn clip(v: usize, max: usize) -> (r: usize)
    ensures
        r == clipped(v as int, max as int),
{
    if v < max {
        v
    } else {
        max
    }
}

/// The glyph of a digit.
fn glyph_bits(d: u8) -> (r: u32)
    ensures
        r == glyph(d as int),
{
    match d {
        0 => 0b111_101_101_101_111,
        1 => 0b010_110_010_010_111,
        2 => 0b111_001_111_100_111,
        3 => 0b111_001_111_001_111,
        4 => 0b101_101_111_001_001,
        5 => 0b111_100_111_001_111,
        6 => 0b111_100_111_101_111,
        7 => 0b111_001_001_001_001,
        8 => 0b111_101_111_101_111,
        _ => 0b111_101_111_001_111,
    }
}

/// The decimal digits of a number.
fn digits_of(n: u32) -> (r: Vec<u8>)
    ensures
        1 <= r@.len() <= 10,
        n < 10 ==> r@.len() == 1,
        r@.len() == digits(n as int).len(),
        forall|k: int|
            0 <= k < r@.len() ==> (#[trigger] r@[k]) == digits(n as int)[k] && r@[k] < 10,
    decreases n,
{
    proof {
        lemma_digits_len(n as int, 10);
    }
    let mut out: Vec<u8> = Vec::new();
    if n >= 10 {
        out = digits_of(n / 10);
        proof {
            lemma_digits_len((n / 10) as int, 9);
        }
    }
    out.push((n % 10) as u8);
    out
}

/// Ten to the power `k`.
spec fn pow10(k: nat) -> int
    decreases k,
{
    if k == 0 {
        1
    } else {
        10 * pow10((k - 1) as nat)
    }
}

proof fn lemma_digits_len(n: int, k: nat)
    requires
        0 <= n,
        k == 9 ==> n < 1_000_000_000,
        k == 10 ==> n < 10_000_000_000,
        k == 9 || k == 10,
    ensures
        1 <= digits(n).len() <= k,
{
    reveal_with_fuel(pow10, 11);
    lemma_digits_bound(n, k);
}

proof fn lemma_digits_bound(n: int, k: nat)
    requires
        0 <= n < pow10(k),
        k >= 1,
    ensures
        1 <= digits(n).len() <= k,
    decreases k,
{
    if n >= 10 {
        if k == 1 {
            reveal_with_fuel(pow10, 2);
        } else {
            lemma_digits_bound(n / 10, (k - 1) as nat);
        }
    }
}

/// Whatever frame is rendered, the planes have the lengths of a `w` by `h` I420 frame; and the
/// strides of a width below `2^31` are the width and its half.
pub proof fn pattern_keeps_its_shape(w: nat, h: nat, n: u32)
    ensures
        luma(w, h, n).len() == w * h,
        u_drift(w, h, n).len() == (w / 2) * (h / 2),
        v_drift(w, h, n).len() == (w / 2) * (h / 2),
        w < 0x8000_0000 ==> signed32(w as int % 0x1_0000_0000) == w && signed32(
            (w / 2) as int % 0x1_0000_0000,
        ) == w / 2,
{
    assert(0 <= w * h) by (nonlinear_arith);
    assert(0 <= (w / 2) * (h / 2)) by (nonlinear_arith);
}

/// The gradient moves: away from the border and the counter every sample differs from that of
/// the frame before.
pub proof fn gradient_moves(w: nat, h: nat, n: u32, x: int, y: int)
    requires
        0 < x < w - 1,
        0 < y < h - 1,
        n < u32::MAX,
        x < 8 || y < 8 || y >= 48 || x >= 8 + 32 * 10,
    ensures
        luma(w, h, n)[y * w + x] != luma(w, h, (n + 1) as u32)[y * w + x],
{
    let k = y * w + x;
    lemma_index(w as int, h as int, x, y);
    lemma_place(w as int, x, y, k);
    lemma_digits_len(n as int, 10);
    lemma_digits_len((n + 1) as int, 10);
}

/// A frame that is whole shows one colour all round its border, and it is the other one than
/// in the frame before: a torn frame's top and bottom borders do not match.
pub proof fn border_tells_parity(w: nat, h: nat, n: u32, x: int, y: int)
    requires
        0 <= x < w,
        0 <= y < h,
        x == 0 || y == 0 || x == w - 1 || y == h - 1,
    ensures
        luma(w, h, n)[y * w + x] == if n % 2 == 0 {
            WHITE
        } else {
            BLACK
        },
{
    let k = y * w + x;
    lemma_index(w as int, h as int, x, y);
    lemma_place(w as int, x, y, k);
}

} // verus!
