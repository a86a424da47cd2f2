//! Packed 32-bit RGB(x) to I420 conversion (BT.601 limited range).
//!
//! Capture delivers shared-memory frames as packed 4-byte pixels; the encoder wants planar
//! I420, so this is the copy that the shared-memory path costs.

use vstd::prelude::*;
use crate::frame::{I420Buffer, lemma_lens, uv_len, y_len};

verus! {

/// A packed 32-bit pixel layout.
#[derive(Clone, Copy, Debug, PartialEq, Eq, Structural)]
pub enum PixelFormat {
    /// B, G, R, (A/x) memory order.
    BGRX,
    /// R, G, B, (A/x) memory order.
    RGBX,
}

/// The byte offsets of R, G and B in a pixel.
pub open spec fn offsets(fmt: PixelFormat) -> (int, int, int) {
    match fmt {
        PixelFormat::BGRX => (2, 1, 0),
        PixelFormat::RGBX => (0, 1, 2),
    }
}

/// The colour of the pixel at `row`, `col` of a source with rows `stride` bytes apart.
pub open spec fn pixel(src: Seq<u8>, stride: int, fmt: PixelFormat, row: int, col: int) -> (
    int,
    int,
    int,
) {
    let at = row * stride + col * 4;
    let (r, g, b) = offsets(fmt);
    (src[at + r] as int, src[at + g] as int, src[at + b] as int)
}

/// BT.601 limited-range luma of a colour.
pub open spec fn luma_of(c: (int, int, int)) -> u8 {
    ((66 * c.0 + 129 * c.1 + 25 * c.2 + 128) / 256 + 16) as u8
}

/// BT.601 limited-range blue difference of a colour.
pub open spec fn u_of(c: (int, int, int)) -> u8 {
    ((-38 * c.0 - 74 * c.1 + 112 * c.2 + 128) / 256 + 128) as u8
}

/// BT.601 limited-range red difference of a colour.
pub open spec fn v_of(c: (int, int, int)) -> u8 {
    ((112 * c.0 - 94 * c.1 - 18 * c.2 + 128) / 256 + 128) as u8
}

/// Every colour lands in the limited range: luma from 16 to 235, both differences from 16 to
/// 240.
pub proof fn limited_range(r: u8, g: u8, b: u8)
    ensures
        16 <= luma_of((r as int, g as int, b as int)) <= 235,
        16 <= u_of((r as int, g as int, b as int)) <= 240,
        16 <= v_of((r as int, g as int, b as int)) <= 240,
{
}

/// A grey has no colour difference, and a lighter grey no less luma.
pub proof fn grey_is_neutral(dark: u8, light: u8)
    requires
        dark <= light,
    ensures
        u_of((light as int, light as int, light as int)) == 128,
        v_of((light as int, light as int, light as int)) == 128,
        luma_of((dark as int, dark as int, dark as int)) <= luma_of(
            (light as int, light as int, light as int),
        ),
{
}

/// The average colour of the two-by-two block at block row `cy`, block column `cx`, each
/// channel rounded down.
pub open spec fn block(src: Seq<u8>, stride: int, fmt: PixelFormat, cy: int, cx: int) -> (
    int,
    int,
    int,
) {
    let a = pixel(src, stride, fmt, 2 * cy, 2 * cx);
    let b = pixel(src, stride, fmt, 2 * cy, 2 * cx + 1);
    let c = pixel(src, stride, fmt, 2 * cy + 1, 2 * cx);
    let d = pixel(src, stride, fmt, 2 * cy + 1, 2 * cx + 1);
    ((a.0 + b.0 + c.0 + d.0) / 4, (a.1 + b.1 + c.1 + d.1) / 4, (a.2 + b.2 + c.2 + d.2) / 4)
}

/// The luma plane of a converted frame.
pub open spec fn luma_plane(src: Seq<u8>, stride: int, fmt: PixelFormat, w: nat, h: nat) -> Seq<u8> {
    Seq::new(
        y_len(w, h),
        |i: int| luma_of(pixel(src, stride, fmt, i / w as int, i % w as int)),
    )
}

/// The first chroma plane of a converted frame: one sample per two-by-two block.
pub open spec fn u_plane(src: Seq<u8>, stride: int, fmt: PixelFormat, w: nat, h: nat) -> Seq<u8> {
    Seq::new(
        uv_len(w, h),
        |i: int| u_of(block(src, stride, fmt, i / (w / 2) as int, i % (w / 2) as int)),
    )
}

/// The second chroma plane of a converted frame.
pub open spec fn v_plane(src: Seq<u8>, stride: int, fmt: PixelFormat, w: nat, h: nat) -> Seq<u8> {
    Seq::new(
        uv_len(w, h),
        |i: int| v_of(block(src, stride, fmt, i / (w / 2) as int, i % (w / 2) as int)),
    )
}

/// The source holds every row of a `w` by `h` frame.
pub open spec fn covers(len: nat, stride: int, w: nat, h: nat) -> bool {
    h == 0 || (h - 1) * stride + 4 * w <= len
}

/// In a row-major walk, index `row * w + col` is row `row` and column `col`.
pub proof fn lemma_row_col(w: int, row: int, col: int)
    requires
        0 <= col < w,
        0 <= row,
    ensures
        (row * w + col) / w == row,
        (row * w + col) % w == col,
{
    vstd::arithmetic::div_mod::lemma_fundamental_div_mod_converse(row * w + col, w, row, col);
}

/// Places of a plane are rows and columns: two places with the same row and column are one.
pub proof fn lemma_place(w: int, x: int, y: int, k: int)
    requires
        0 <= x < w,
        0 <= y,
        0 <= k,
    ensures
        k % w == x && k / w == y <==> k == y * w + x,
{
    lemma_row_col(w, y, x);
    vstd::arithmetic::div_mod::lemma_fundamental_div_mod(k, w);
    assert(w * (k / w) == (k / w) * w) by (nonlinear_arith);
}

proof fn lemma_offset(len: nat, stride: int, w: nat, h: nat, row: int, col: int)
    requires
        covers(len, stride, w, h),
        0 <= row < h,
        0 <= col < w,
        0 <= stride,
    ensures
        0 <= row * stride + col * 4,
        row * stride + col * 4 + 4 <= len,
{
    assert(row * stride <= (h - 1) * stride) by (nonlinear_arith)
        requires
            row <= h - 1,
            0 <= stride,
    ;
    assert(0 <= row * stride) by (nonlinear_arith)
        requires
            0 <= row,
            0 <= stride,
    ;
}

fn luma(r: i32, g: i32, b: i32) -> (y: u8)
    requires
        0 <= r < 256,
        0 <= g < 256,
        0 <= b < 256,
    ensures
        y == luma_of((r as int, g as int, b as int)),
{
    ((66 * r + 129 * g + 25 * b + 128) / 256 + 16) as u8
}

fn chroma_u(r: i32, g: i32, b: i32) -> (u: u8)
    requires
        0 <= r < 256,
        0 <= g < 256,
        0 <= b < 256,
    ensures
        u == u_of((r as int, g as int, b as int)),
{
    // 128 * 256 more under the division is 128 more behind it, and keeps it positive.
    ((112 * b + 32896 - 38 * r - 74 * g) / 256) as u8
}

fn chroma_v(r: i32, g: i32, b: i32) -> (v: u8)
    requires
        0 <= r < 256,
        0 <= g < 256,
        0 <= b < 256,
    ensures
        v == v_of((r as int, g as int, b as int)),
{
    ((112 * r + 32896 - 94 * g - 18 * b) / 256) as u8
}

/// Read one pixel.
fn read_pixel(src: &[u8], at: usize, fmt: PixelFormat) -> (r: (i32, i32, i32))
    requires
        at + 4 <= src@.len(),
    ensures
        0 <= r.0 < 256,
        0 <= r.1 < 256,
        0 <= r.2 < 256,
        r.0 == src@[at + offsets(fmt).0],
        r.1 == src@[at + offsets(fmt).1],
        r.2 == src@[at + offsets(fmt).2],
{
    let n: usize = src.len();
    match fmt {
        PixelFormat::BGRX => (src[at + 2] as i32, src[at + 1] as i32, src[at] as i32),
        PixelFormat::RGBX => (src[at] as i32, src[at + 1] as i32, src[at + 2] as i32),
    }
}

/// Append the luma plane: one sample per source pixel.
fn push_luma(src: &[u8], stride: usize, fmt: PixelFormat, w: usize, h: usize, out: &mut Vec<u8>)
    requires
        covers(src@.len(), stride as int, w as nat, h as nat),
        y_len(w as nat, h as nat) <= usize::MAX,
    ensures
        final(out)@ == old(out)@ + luma_plane(src@, stride as int, fmt, w as nat, h as nat),
{
    let ghost plane = luma_plane(src@, stride as int, fmt, w as nat, h as nat);
    let ghost before = out@;
    let n: usize = src.len();
    let mut row: usize = 0;
    assert(plane.take(0) =~= Seq::empty());
    assert(0 * w == 0) by (nonlinear_arith);
    while row < h
        invariant
            row <= h,
            n == src@.len(),
            covers(src@.len(), stride as int, w as nat, h as nat),
            plane == luma_plane(src@, stride as int, fmt, w as nat, h as nat),
            out@ == before + plane.take(row * w),
        decreases h - row,
    {
        let mut col: usize = 0;
        assert(row * w + w <= h * w) by (nonlinear_arith)
            requires
                row + 1 <= h,
        ;
        assert(h * w == w * h) by (nonlinear_arith);
        assert(0 <= row * w) by (nonlinear_arith);
        while col < w
            invariant
                col <= w,
                row < h,
                n == src@.len(),
                covers(src@.len(), stride as int, w as nat, h as nat),
                plane == luma_plane(src@, stride as int, fmt, w as nat, h as nat),
                plane.len() == w * h,
                0 <= row * w,
                row * w + w <= w * h,
                out@ == before + plane.take(row * w + col),
            decreases w - col,
        {
            proof {
                lemma_offset(src@.len(), stride as int, w as nat, h as nat, row as int, col as int);
                lemma_row_col(w as int, row as int, col as int);
                assert(0 <= row * stride) by (nonlinear_arith);
            }
            let c = read_pixel(src, row * stride + col * 4, fmt);
            out.push(luma(c.0, c.1, c.2));
            proof {
                let i = row * w + col;
                assert(plane[i] == luma_of(
                    pixel(src@, stride as int, fmt, row as int, col as int),
                ));
                assert(plane.take(i + 1) =~= plane.take(i).push(plane[i]));
                assert(out@ =~= before + plane.take(i + 1));
            }
            col += 1;
        }
        assert((row + 1) * w == row * w + w) by (nonlinear_arith);
        row += 1;
    }
    assert(h * w == w * h) by (nonlinear_arith);
    assert(plane.take(row * w) =~= plane);
}

/// Append one chroma plane: each sample averages a two-by-two block, so subsampling does not
/// drop half the colour. `first` selects the U plane, otherwise it is V.
fn push_chroma(
    src: &[u8],
    stride: usize,
    fmt: PixelFormat,
    w: usize,
    h: usize,
    first: bool,
    out: &mut Vec<u8>,
)
    requires
        covers(src@.len(), stride as int, w as nat, h as nat),
        uv_len(w as nat, h as nat) <= usize::MAX,
    ensures
        final(out)@ == old(out)@ + if first {
            u_plane(src@, stride as int, fmt, w as nat, h as nat)
        } else {
            v_plane(src@, stride as int, fmt, w as nat, h as nat)
        },
{
    let ghost plane = if first {
        u_plane(src@, stride as int, fmt, w as nat, h as nat)
    } else {
        v_plane(src@, stride as int, fmt, w as nat, h as nat)
    };
    let ghost before = out@;
    let n: usize = src.len();
    let cw: usize = w / 2;
    let ch: usize = h / 2;
    let mut cy: usize = 0;
    assert(plane.take(0) =~= Seq::empty());
    assert(0 * cw == 0) by (nonlinear_arith);
    while cy < ch
        invariant
            cy <= ch,
            cw == w / 2,
            ch == h / 2,
            n == src@.len(),
            covers(src@.len(), stride as int, w as nat, h as nat),
            plane == if first {
                u_plane(src@, stride as int, fmt, w as nat, h as nat)
            } else {
                v_plane(src@, stride as int, fmt, w as nat, h as nat)
            },
            out@ == before + plane.take(cy * cw),
        decreases ch - cy,
    {
        let mut cx: usize = 0;
        assert(cy * cw + cw <= ch * cw) by (nonlinear_arith)
            requires
                cy + 1 <= ch,
        ;
        assert(ch * cw == cw * ch) by (nonlinear_arith);
        assert(0 <= cy * cw) by (nonlinear_arith);
        while cx < cw
            invariant
                cx <= cw,
                cy < ch,
                cw == w / 2,
                ch == h / 2,
                n == src@.len(),
                covers(src@.len(), stride as int, w as nat, h as nat),
                plane == if first {
                    u_plane(src@, stride as int, fmt, w as nat, h as nat)
                } else {
                    v_plane(src@, stride as int, fmt, w as nat, h as nat)
                },
                plane.len() == cw * ch,
                0 <= cy * cw,
                cy * cw + cw <= cw * ch,
                out@ == before + plane.take(cy * cw + cx),
            decreases cw - cx,
        {
            proof {
                let sw = w as nat;
                let sh = h as nat;
                let st = stride as int;
                let len = src@.len();
                lemma_offset(len, st, sw, sh, 2 * cy as int, 2 * cx as int);
                lemma_offset(len, st, sw, sh, 2 * cy as int, 2 * cx as int + 1);
                lemma_offset(len, st, sw, sh, 2 * cy as int + 1, 2 * cx as int);
                lemma_offset(len, st, sw, sh, 2 * cy as int + 1, 2 * cx as int + 1);
                lemma_row_col(cw as int, cy as int, cx as int);
                assert(0 <= (2 * cy) * stride) by (nonlinear_arith);
                assert((2 * cy + 1) * stride == (2 * cy) * stride + stride) by (nonlinear_arith);
            }
            let top: usize = (2 * cy) * stride;
            let low: usize = top + stride;
            let a = read_pixel(src, top + (2 * cx) * 4, fmt);
            let b = read_pixel(src, top + (2 * cx + 1) * 4, fmt);
            let c = read_pixel(src, low + (2 * cx) * 4, fmt);
            let d = read_pixel(src, low + (2 * cx + 1) * 4, fmt);
            let r: i32 = (a.0 + b.0 + c.0 + d.0) / 4;
            let g: i32 = (a.1 + b.1 + c.1 + d.1) / 4;
            let bl: i32 = (a.2 + b.2 + c.2 + d.2) / 4;
            let sample: u8 = if first {
                chroma_u(r, g, bl)
            } else {
                chroma_v(r, g, bl)
            };
            out.push(sample);
            proof {
                let i = cy * cw + cx;
                let avg = block(src@, stride as int, fmt, cy as int, cx as int);
                assert(avg == (r as int, g as int, bl as int));
                assert(plane[i] == sample);
                assert(plane.take(i + 1) =~= plane.take(i).push(plane[i]));
                assert(out@ =~= before + plane.take(i + 1));
            }
            cx += 1;
        }
        assert((cy + 1) * cw == cy * cw + cw) by (nonlinear_arith);
        cy += 1;
    }
    assert(ch * cw == cw * ch) by (nonlinear_arith);
    assert(plane.take(cy * cw) =~= plane);
}

/// Convert one packed frame into `dst`. `src_stride` is the source row stride in bytes;
/// capture buffers are padded, so it is read from the buffer and never assumed to be four
/// times the width.
pub fn to_i420(src: &[u8], src_stride: usize, fmt: PixelFormat, dst: &mut I420Buffer)
    requires
        old(dst)@.valid(),
        covers(src@.len(), src_stride as int, old(dst)@.width, old(dst)@.height),
    ensures
        final(dst)@.valid(),
        final(dst)@.width == old(dst)@.width,
        final(dst)@.height == old(dst)@.height,
        final(dst)@.y() == luma_plane(
            src@,
            src_stride as int,
            fmt,
            old(dst)@.width,
            old(dst)@.height,
        ),
        final(dst)@.u() == u_plane(
            src@,
            src_stride as int,
            fmt,
            old(dst)@.width,
            old(dst)@.height,
        ),
        final(dst)@.v() == v_plane(
            src@,
            src_stride as int,
            fmt,
            old(dst)@.width,
            old(dst)@.height,
        ),
{
    let (w, h): (u32, u32) = dst.dimensions();
    let ghost f = dst@;
    let lens: (usize, usize) = dst.plane_lens();
    let mut out: Vec<u8> = dst.take_storage();
    push_luma(src, src_stride, fmt, w as usize, h as usize, &mut out);
    push_chroma(src, src_stride, fmt, w as usize, h as usize, true, &mut out);
    push_chroma(src, src_stride, fmt, w as usize, h as usize, false, &mut out);
    dst.put_storage(out);
    proof {
        lemma_lens(f.width, f.height);
        assert(dst@.y() =~= luma_plane(src@, src_stride as int, fmt, f.width, f.height));
        assert(dst@.u() =~= u_plane(src@, src_stride as int, fmt, f.width, f.height));
        assert(dst@.v() =~= v_plane(src@, src_stride as int, fmt, f.width, f.height));
    }
}

} // verus!
