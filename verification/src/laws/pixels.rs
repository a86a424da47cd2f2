//! What each sample of a converted frame is made of, place by place.

use vstd::prelude::*;
use crate::convert;
use crate::convert::{PixelFormat, lemma_row_col};
use crate::frame::Frame;
use crate::nv12;

verus! {

/// The four bytes at `row`, `col` of a packed source show the colour `r`, `g`, `b`: the bytes are
/// blue, green, red in one layout and red, green, blue in the other.
pub open spec fn shows(
    src: Seq<u8>,
    stride: int,
    fmt: PixelFormat,
    row: int,
    col: int,
    c: (int, int, int),
) -> bool {
    let at = row * stride + 4 * col;
    match fmt {
        PixelFormat::BGRX => src[at] == c.2 && src[at + 1] == c.1 && src[at + 2] == c.0,
        PixelFormat::RGBX => src[at] == c.0 && src[at + 1] == c.1 && src[at + 2] == c.2,
    }
}

/// `sample` is the number nearest to `base + sum / 256`, the higher of two.
pub open spec fn nearest(sample: u8, base: int, sum: int) -> bool {
    -128 < 256 * (sample - base) - sum <= 128
}

/// Luma: 16 plus 66, 129 and 25 parts in 256 of red, green and blue.
pub open spec fn is_luma_of(sample: u8, c: (int, int, int)) -> bool {
    nearest(sample, 16, 66 * c.0 + 129 * c.1 + 25 * c.2)
}

/// Blue difference: 128 less 38 and 74 parts of red and green, plus 112 of blue.
pub open spec fn is_u_of(sample: u8, c: (int, int, int)) -> bool {
    nearest(sample, 128, 112 * c.2 - 38 * c.0 - 74 * c.1)
}

/// Red difference: 128 plus 112 parts of red, less 94 and 18 of green and blue.
pub open spec fn is_v_of(sample: u8, c: (int, int, int)) -> bool {
    nearest(sample, 128, 112 * c.0 - 94 * c.1 - 18 * c.2)
}

/// The luma sample of a place is that of the source pixel at the same place.
pub proof fn luma_follows_its_pixel(
    src: Seq<u8>,
    stride: int,
    fmt: PixelFormat,
    w: nat,
    h: nat,
    row: int,
    col: int,
    c: (int, int, int),
)
    requires
        0 <= row < h,
        0 <= col < w,
        shows(src, stride, fmt, row, col, c),
    ensures
        convert::luma_plane(src, stride, fmt, w, h).len() == w * h,
        0 <= row * w + col < w * h,
        is_luma_of(convert::luma_plane(src, stride, fmt, w, h)[row * w + col], c),
{
    lemma_row_col(w as int, row, col);
    lemma_inside(w as int, h as int, row, col);
}

proof fn lemma_inside(w: int, h: int, row: int, col: int)
    requires
        0 <= row < h,
        0 <= col < w,
    ensures
        0 <= row * w + col < w * h,
        0 <= w * h,
{
    assert(row * w + w <= w * h) by (nonlinear_arith)
        requires
            row + 1 <= h,
            0 < w,
    ;
    assert(0 <= row * w) by (nonlinear_arith)
        requires
            0 <= row,
            0 < w,
    ;
}

/// The mean of four channel values, rounded down.
pub open spec fn mean_of_four(m: int, a: int, b: int, c: int, d: int) -> bool {
    4 * m <= a + b + c + d < 4 * m + 4
}

/// The chroma samples of block row `cy` and block column `cx` are those of the mean colour of the
/// four source pixels in rows `2 * cy`, `2 * cy + 1` and columns `2 * cx`, `2 * cx + 1`, and of
/// nothing else.
pub proof fn chroma_follows_its_block(
    src: Seq<u8>,
    stride: int,
    fmt: PixelFormat,
    w: nat,
    h: nat,
    cy: int,
    cx: int,
    p: (int, int, int),
    q: (int, int, int),
    r: (int, int, int),
    s: (int, int, int),
    mean: (int, int, int),
)
    requires
        0 <= cy < h / 2,
        0 <= cx < w / 2,
        shows(src, stride, fmt, 2 * cy, 2 * cx, p),
        shows(src, stride, fmt, 2 * cy, 2 * cx + 1, q),
        shows(src, stride, fmt, 2 * cy + 1, 2 * cx, r),
        shows(src, stride, fmt, 2 * cy + 1, 2 * cx + 1, s),
        mean_of_four(mean.0, p.0, q.0, r.0, s.0),
        mean_of_four(mean.1, p.1, q.1, r.1, s.1),
        mean_of_four(mean.2, p.2, q.2, r.2, s.2),
    ensures
        ({
            let at = cy * (w / 2) + cx;
            &&& 0 <= at < (w / 2) * (h / 2)
            &&& convert::u_plane(src, stride, fmt, w, h).len() == (w / 2) * (h / 2)
            &&& convert::v_plane(src, stride, fmt, w, h).len() == (w / 2) * (h / 2)
            &&& is_u_of(convert::u_plane(src, stride, fmt, w, h)[at], mean)
            &&& is_v_of(convert::v_plane(src, stride, fmt, w, h)[at], mean)
        }),
{
    lemma_row_col((w / 2) as int, cy, cx);
    lemma_inside((w / 2) as int, (h / 2) as int, cy, cx);
    assert((2 * cx) * 4 == 4 * (2 * cx));
    assert((2 * cx + 1) * 4 == 4 * (2 * cx + 1));
    let c = convert::block(src, stride, fmt, cy, cx);
    assert(convert::pixel(src, stride, fmt, 2 * cy, 2 * cx) == p);
    assert(convert::pixel(src, stride, fmt, 2 * cy, 2 * cx + 1) == q);
    assert(convert::pixel(src, stride, fmt, 2 * cy + 1, 2 * cx) == r);
    assert(convert::pixel(src, stride, fmt, 2 * cy + 1, 2 * cx + 1) == s);
    assert(c == mean);
}

/// In a block of one colour luma and chroma agree on that colour, whatever the rest of the frame
/// holds: a picture of uniform two-by-two blocks keeps every colour in its place.
pub proof fn uniform_block_keeps_its_colour(
    src: Seq<u8>,
    stride: int,
    fmt: PixelFormat,
    w: nat,
    h: nat,
    cy: int,
    cx: int,
    c: (int, int, int),
)
    requires
        0 <= cy < h / 2,
        0 <= cx < w / 2,
        shows(src, stride, fmt, 2 * cy, 2 * cx, c),
        shows(src, stride, fmt, 2 * cy, 2 * cx + 1, c),
        shows(src, stride, fmt, 2 * cy + 1, 2 * cx, c),
        shows(src, stride, fmt, 2 * cy + 1, 2 * cx + 1, c),
    ensures
        ({
            let at = cy * (w / 2) + cx;
            let luma = convert::luma_plane(src, stride, fmt, w, h);
            &&& is_u_of(convert::u_plane(src, stride, fmt, w, h)[at], c)
            &&& is_v_of(convert::v_plane(src, stride, fmt, w, h)[at], c)
            &&& is_luma_of(luma[(2 * cy) * w + 2 * cx], c)
            &&& is_luma_of(luma[(2 * cy) * w + 2 * cx + 1], c)
            &&& is_luma_of(luma[(2 * cy + 1) * w + 2 * cx], c)
            &&& is_luma_of(luma[(2 * cy + 1) * w + 2 * cx + 1], c)
        }),
{
    chroma_follows_its_block(src, stride, fmt, w, h, cy, cx, c, c, c, c, c);
    luma_follows_its_pixel(src, stride, fmt, w, h, 2 * cy, 2 * cx, c);
    luma_follows_its_pixel(src, stride, fmt, w, h, 2 * cy, 2 * cx + 1, c);
    luma_follows_its_pixel(src, stride, fmt, w, h, 2 * cy + 1, 2 * cx, c);
    luma_follows_its_pixel(src, stride, fmt, w, h, 2 * cy + 1, 2 * cx + 1, c);
}

/// Splitting two interleaved planes: the luma sample of a place is the byte at that row and
/// column, and the chroma samples of a block the two bytes that stand together for it, the blue
/// difference first.
pub proof fn split_takes_each_sample_from_its_place(
    y: Seq<u8>,
    y_stride: int,
    uv: Seq<u8>,
    uv_stride: int,
    w: nat,
    h: nat,
    row: int,
    col: int,
)
    requires
        0 <= row < h,
        0 <= col < w,
    ensures
        nv12::luma_plane(y, y_stride, w, h).len() == w * h,
        nv12::luma_plane(y, y_stride, w, h)[row * w + col] == y[row * y_stride + col],
        row < h / 2 && col < w / 2 ==> {
            let at = row * (w / 2) + col;
            &&& nv12::chroma_plane(uv, uv_stride, w, h, 0).len() == (w / 2) * (h / 2)
            &&& nv12::chroma_plane(uv, uv_stride, w, h, 0)[at] == uv[row * uv_stride + 2 * col]
            &&& nv12::chroma_plane(uv, uv_stride, w, h, 1)[at] == uv[row * uv_stride + 2 * col + 1]
        },
{
    lemma_row_col(w as int, row, col);
    lemma_inside(w as int, h as int, row, col);
    if row < h / 2 && col < w / 2 {
        lemma_row_col((w / 2) as int, row, col);
        lemma_inside((w / 2) as int, (h / 2) as int, row, col);
    }
}

/// Copying a luma plane of `rows` rows into a destination with rows `to` bytes apart: each byte
/// lands in its row and column, and the padding behind the rows is left as it was.
pub proof fn luma_lands_in_its_row(
    dst: Seq<u8>,
    y: Seq<u8>,
    stride: int,
    to: int,
    rows: int,
    row: int,
    col: int,
)
    requires
        0 < stride <= to,
        0 <= row < rows,
        0 <= col < to,
        row * to + col < dst.len(),
    ensures
        nv12::luma_copied(dst, y, stride, to, rows, 0).len() == dst.len(),
        nv12::luma_copied(dst, y, stride, to, rows, 0)[row * to + col] == if col < stride {
            y[row * stride + col]
        } else {
            dst[row * to + col]
        },
{
    lemma_row_col(to, row, col);
    assert(0 <= row * to) by (nonlinear_arith)
        requires
            0 <= row,
            0 < to,
    ;
}

/// Interleaving two chroma planes of `rows` rows: the two samples of a block stand together, the
/// first plane's first, and the padding behind the rows is left as it was.
pub proof fn chroma_lands_in_pairs(
    dst: Seq<u8>,
    u: Seq<u8>,
    v: Seq<u8>,
    stride: int,
    to: int,
    rows: int,
    row: int,
    col: int,
)
    requires
        0 < 2 * stride <= to,
        0 <= row < rows,
        0 <= col < stride,
        row * to + 2 * col + 1 < dst.len(),
    ensures
        ({
            let c = nv12::chroma_copied(dst, u, v, stride, to, rows, 0);
            &&& c.len() == dst.len()
            &&& c[row * to + 2 * col] == u[row * stride + col]
            &&& c[row * to + 2 * col + 1] == v[row * stride + col]
            &&& forall|k: int|
                2 * stride <= k < to && row * to + k < dst.len() ==> #[trigger] c[row * to + k]
                    == dst[row * to + k]
        }),
{
    let c = nv12::chroma_copied(dst, u, v, stride, to, rows, 0);
    assert(0 <= row * to) by (nonlinear_arith)
        requires
            0 <= row,
            0 < to,
    ;
    lemma_row_col(to, row, 2 * col);
    lemma_row_col(to, row, 2 * col + 1);
    assert forall|k: int| 2 * stride <= k < to && row * to + k < dst.len() implies #[trigger] c[row
        * to + k] == dst[row * to + k] by {
        lemma_row_col(to, row, k);
    }
}

/// A frame holds its three planes one behind the other and nothing else: luma, one sample for
/// each pixel, then two chroma planes, one sample for each two-by-two block.
pub proof fn frame_is_its_planes(f: Frame)
    requires
        f.valid(),
    ensures
        f.data == f.y() + f.u() + f.v(),
        f.y().len() == f.width * f.height,
        f.u().len() == (f.width / 2) * (f.height / 2),
        f.v().len() == (f.width / 2) * (f.height / 2),
        4 * f.u().len() == f.y().len(),
{
    crate::frame::lemma_lens(f.width, f.height);
    let a = f.width / 2;
    let b = f.height / 2;
    assert(f.width == 2 * a && f.height == 2 * b);
    assert((2 * a) * (2 * b) == 4 * (a * b)) by (nonlinear_arith);
    assert(f.data =~= f.y() + f.u() + f.v());
}

/// A source is long enough if and only if every row of it is there: four bytes for each pixel,
/// rows `stride` bytes apart.
pub proof fn source_is_long_enough(len: nat, stride: int, w: nat, h: nat, row: int)
    requires
        0 <= stride,
    ensures
        crate::convert::covers(len, stride, w, h) && 0 <= row < h ==> row * stride + 4 * w <= len,
        h > 0 && (h - 1) * stride + 4 * w <= len ==> crate::convert::covers(len, stride, w, h),
        h == 0 ==> crate::convert::covers(len, stride, w, h),
{
    if 0 <= row < h {
        assert(row * stride <= (h - 1) * stride) by (nonlinear_arith)
            requires
                0 <= row <= h - 1,
                0 <= stride,
        ;
    }
}

/// So for a plane of one byte for each sample.
pub proof fn plane_is_long_enough(len: nat, stride: int, w: nat, rows: nat, row: int)
    requires
        0 <= stride,
    ensures
        crate::nv12::covers(len, stride, w, rows) && 0 <= row < rows ==> row * stride + w <= len,
        rows > 0 && (rows - 1) * stride + w <= len ==> crate::nv12::covers(len, stride, w, rows),
        rows == 0 ==> crate::nv12::covers(len, stride, w, rows),
{
    if 0 <= row < rows {
        assert(row * stride <= (rows - 1) * stride) by (nonlinear_arith)
            requires
                0 <= row <= rows - 1,
                0 <= stride,
        ;
    }
}

} // verus!
