//! NV12 (two planes, 4:2:0) to I420 (three planes, 4:2:0), and back.
//!
//! Where the capture side has converted to BT.601 video range already, all that remains is to
//! split NV12's one interleaved chroma plane into the separate U and V planes of I420. Source
//! rows are padded to an alignment of their own, so the strides are honoured.

use vstd::prelude::*;
use crate::convert::{lemma_place, lemma_row_col};
use crate::frame::{I420Buffer, lemma_lens, uv_len, y_len};

verus! {

broadcast use vstd::std_specs::vec::group_vec_axioms;

/// The packed luma plane: the first `w` bytes of each source row.
pub open spec fn luma_plane(y: Seq<u8>, stride: int, w: nat, h: nat) -> Seq<u8> {
    Seq::new(y_len(w, h), |i: int| y[(i / w as int) * stride + i % w as int])
}

/// One chroma plane: every second byte of each interleaved source row, from `first` on.
pub open spec fn chroma_plane(uv: Seq<u8>, stride: int, w: nat, h: nat, first: int) -> Seq<u8> {
    let cw = (w / 2) as int;
    Seq::new(uv_len(w, h), |i: int| uv[(i / cw) * stride + 2 * (i % cw) + first])
}

/// `len` bytes hold `rows` rows of `w` bytes that start `stride` bytes apart.
pub open spec fn covers(len: nat, stride: int, w: nat, rows: nat) -> bool {
    rows == 0 || (rows - 1) * stride + w <= len
}

/// Whether `len` bytes hold `rows` rows of `w` bytes that start `stride` bytes apart.
pub fn holds_rows(len: usize, stride: usize, w: u32, rows: u32) -> (r: bool)
    ensures
        r == covers(len as nat, stride as int, w as nat, rows as nat),
{
    if rows == 0 {
        return true;
    }
    proof {
        assert(0 <= (rows - 1) * stride <= 0xffff_ffff * 0xffff_ffff_ffff_ffff) by (nonlinear_arith)
            requires
                0 <= rows - 1 <= 0xffff_ffff,
                0 <= stride <= 0xffff_ffff_ffff_ffff,
        ;
    }
    (rows as u128 - 1) * (stride as u128) + (w as u128) <= len as u128
}

pub proof fn lemma_row_within(len: nat, stride: int, w: nat, rows: nat, row: int)
    requires
        covers(len, stride, w, rows),
        0 <= row < rows,
        0 <= stride,
    ensures
        0 <= row * stride,
        row * stride + w <= len,
{
    assert(row * stride <= (rows - 1) * stride) by (nonlinear_arith)
        requires
            row <= rows - 1,
            0 <= stride,
    ;
    assert(0 <= row * stride) by (nonlinear_arith)
        requires
            0 <= row,
            0 <= stride,
    ;
}

/// Append the packed luma plane.
fn push_luma(y: &[u8], stride: usize, w: usize, h: usize, out: &mut Vec<u8>)
    requires
        covers(y@.len(), stride as int, w as nat, h as nat),
        y_len(w as nat, h as nat) <= usize::MAX,
    ensures
        final(out)@ == old(out)@ + luma_plane(y@, stride as int, w as nat, h as nat),
{
    let ghost plane = luma_plane(y@, stride as int, w as nat, h as nat);
    let ghost before = out@;
    let n: usize = y.len();
    let mut row: usize = 0;
    assert(0 * w == 0) by (nonlinear_arith);
    assert(plane.take(0) =~= Seq::empty());
    while row < h
        invariant
            row <= h,
            n == y@.len(),
            covers(y@.len(), stride as int, w as nat, h as nat),
            plane == luma_plane(y@, stride as int, w as nat, h as nat),
            out@ == before + plane.take(row * w),
        decreases h - row,
    {
        proof {
            lemma_row_within(y@.len(), stride as int, w as nat, h as nat, row as int);
            assert(row * w + w <= h * w) by (nonlinear_arith)
                requires
                    row + 1 <= h,
            ;
            assert(h * w == w * h) by (nonlinear_arith);
            assert(0 <= row * w) by (nonlinear_arith);
        }
        let start: usize = row * stride;
        let line: &[u8] = vstd::slice::slice_subrange(y, start, start + w);
        out.extend_from_slice(line);
        proof {
            assert forall|k: int| 0 <= k < w implies plane[row * w + k] == #[trigger] line@[k] by {
                lemma_row_col(w as int, row as int, k);
            }
            assert((row + 1) * w == row * w + w) by (nonlinear_arith);
            assert(plane.take((row + 1) * w) =~= plane.take(row * w) + line@);
            assert(out@ =~= before + plane.take((row + 1) * w));
        }
        row += 1;
    }
    assert(h * w == w * h) by (nonlinear_arith);
    assert(plane.take(row * w) =~= plane);
}

/// Append one chroma plane, taken from the bytes at `first`, `first + 2`, .. of each row.
fn push_chroma(uv: &[u8], stride: usize, w: usize, h: usize, first: usize, out: &mut Vec<u8>)
    requires
        w % 2 == 0,
        first < 2,
        covers(uv@.len(), stride as int, w as nat, (h / 2) as nat),
        uv_len(w as nat, h as nat) <= usize::MAX,
    ensures
        final(out)@ == old(out)@ + chroma_plane(
            uv@,
            stride as int,
            w as nat,
            h as nat,
            first as int,
        ),
{
    let ghost plane = chroma_plane(uv@, stride as int, w as nat, h as nat, first as int);
    let ghost before = out@;
    let n: usize = uv.len();
    let cw: usize = w / 2;
    let ch: usize = h / 2;
    let mut row: usize = 0;
    assert(0 * cw == 0) by (nonlinear_arith);
    assert(plane.take(0) =~= Seq::empty());
    while row < ch
        invariant
            row <= ch,
            w % 2 == 0,
            first < 2,
            cw == w / 2,
            ch == h / 2,
            n == uv@.len(),
            covers(uv@.len(), stride as int, w as nat, (h / 2) as nat),
            plane == chroma_plane(uv@, stride as int, w as nat, h as nat, first as int),
            out@ == before + plane.take(row * cw),
        decreases ch - row,
    {
        let mut i: usize = 0;
        proof {
            lemma_row_within(uv@.len(), stride as int, w as nat, (h / 2) as nat, row as int);
            assert(row * cw + cw <= ch * cw) by (nonlinear_arith)
                requires
                    row + 1 <= ch,
            ;
            assert(ch * cw == cw * ch) by (nonlinear_arith);
            assert(0 <= row * cw) by (nonlinear_arith);
        }
        let start: usize = row * stride;
        while i < cw
            invariant
                i <= cw,
                row < ch,
                w % 2 == 0,
                first < 2,
                cw == w / 2,
                ch == h / 2,
                n == uv@.len(),
                start == row * stride,
                start + w <= n,
                plane == chroma_plane(uv@, stride as int, w as nat, h as nat, first as int),
                plane.len() == cw * ch,
                0 <= row * cw,
                row * cw + cw <= cw * ch,
                out@ == before + plane.take(row * cw + i),
            decreases cw - i,
        {
            out.push(uv[start + 2 * i + first]);
            proof {
                let k = row * cw + i;
                lemma_row_col(cw as int, row as int, i as int);
                assert(plane.take(k + 1) =~= plane.take(k).push(plane[k]));
                assert(out@ =~= before + plane.take(k + 1));
            }
            i += 1;
        }
        assert((row + 1) * cw == row * cw + cw) by (nonlinear_arith);
        row += 1;
    }
    assert(ch * cw == cw * ch) by (nonlinear_arith);
    assert(plane.take(row * cw) =~= plane);
}

/// Split an NV12 frame into `dst`. `y` and `uv` are the two source planes with their row
/// strides; the dimensions of `dst` say how much is read.
pub fn to_i420(y: &[u8], y_stride: usize, uv: &[u8], uv_stride: usize, dst: &mut I420Buffer)
    requires
        old(dst)@.valid(),
        covers(y@.len(), y_stride as int, old(dst)@.width, old(dst)@.height),
        covers(uv@.len(), uv_stride as int, old(dst)@.width, old(dst)@.height / 2),
    ensures
        final(dst)@.valid(),
        final(dst)@.width == old(dst)@.width,
        final(dst)@.height == old(dst)@.height,
        final(dst)@.y() == luma_plane(
            y@,
            y_stride as int,
            old(dst)@.width,
            old(dst)@.height,
        ),
        // Cb is U, Cr is V.
        final(dst)@.u() == chroma_plane(
            uv@,
            uv_stride as int,
            old(dst)@.width,
            old(dst)@.height,
            0,
        ),
        final(dst)@.v() == chroma_plane(
            uv@,
            uv_stride as int,
            old(dst)@.width,
            old(dst)@.height,
            1,
        ),
{
    let (w, h): (u32, u32) = dst.dimensions();
    let ghost f = dst@;
    let lens: (usize, usize) = dst.plane_lens();
    let mut out: Vec<u8> = dst.take_storage();
    push_luma(y, y_stride, w as usize, h as usize, &mut out);
    push_chroma(uv, uv_stride, w as usize, h as usize, 0, &mut out);
    push_chroma(uv, uv_stride, w as usize, h as usize, 1, &mut out);
    dst.put_storage(out);
    proof {
        lemma_lens(f.width, f.height);
        assert(dst@.y() =~= luma_plane(y@, y_stride as int, f.width, f.height));
        assert(dst@.u() =~= chroma_plane(uv@, uv_stride as int, f.width, f.height, 0));
        assert(dst@.v() =~= chroma_plane(uv@, uv_stride as int, f.width, f.height, 1));
    }
}

/// How many rows a plane with this stride has.
pub open spec fn rows_of(len: nat, stride: int) -> int {
    if stride == 0 {
        len as int
    } else {
        len as int / stride
    }
}

/// `dst` with the rows of a luma plane copied into it, `to` bytes apart, up to byte `upto` of
/// row `row`.
pub open spec fn luma_copied(
    dst: Seq<u8>,
    y: Seq<u8>,
    stride: int,
    to: int,
    row: int,
    upto: int,
) -> Seq<u8> {
    Seq::new(
        dst.len(),
        |k: int|
            if stride > 0 && k % to < stride && (k / to < row || (k / to == row && k % to < upto)) {
                y[(k / to) * stride + k % to]
            } else {
                dst[k]
            },
    )
}

/// `dst` with the rows of two chroma planes interleaved into it, `to` bytes apart, up to sample
/// `upto` of row `row`: the first plane's sample, then the second's.
pub open spec fn chroma_copied(
    dst: Seq<u8>,
    u: Seq<u8>,
    v: Seq<u8>,
    stride: int,
    to: int,
    row: int,
    upto: int,
) -> Seq<u8> {
    Seq::new(
        dst.len(),
        |k: int|
            if stride > 0 && k % to < 2 * stride && (k / to < row || (k / to == row && k % to < 2
                * upto)) {
                let at = (k / to) * stride + k % to / 2;
                if k % to % 2 == 0 {
                    u[at]
                } else {
                    v[at]
                }
            } else {
                dst[k]
            },
    )
}

/// Copy a luma plane into a destination with rows `to` bytes apart.
pub fn copy_luma(y: &[u8], stride: usize, dst: &mut [u8], to: usize)
    requires
        stride <= to,
        covers(old(dst)@.len(), to as int, stride as nat, rows_of(y@.len(), stride as int) as nat),
    ensures
        final(dst)@ == luma_copied(
            old(dst)@,
            y@,
            stride as int,
            to as int,
            rows_of(y@.len(), stride as int),
            0,
        ),
{
    let ghost before = dst@;
    let len: usize = y.len();
    let total: usize = dst.len();
    if stride == 0 {
        assert(dst@ =~= luma_copied(before, y@, 0, to as int, len as int, 0));
        return;
    }
    let rows: usize = len / stride;
    let mut row: usize = 0;
    assert(rows * stride <= len) by (nonlinear_arith)
        requires
            rows == len / stride,
            stride > 0,
    ;
    proof {
        assert forall|k: int| 0 <= k < before.len() implies 0 <= #[trigger] (k / (to as int)) by {
            vstd::arithmetic::div_mod::lemma_div_pos_is_pos(k, to as int);
        }
        assert(dst@ =~= luma_copied(before, y@, stride as int, to as int, 0, 0));
    }
    while row < rows
        invariant
            row <= rows,
            0 < stride <= to,
            len == y@.len(),
            rows * stride <= len,
            total == before.len(),
            total == dst@.len(),
            rows == rows_of(y@.len(), stride as int),
            covers(total as nat, to as int, stride as nat, rows as nat),
            dst@ == luma_copied(before, y@, stride as int, to as int, row as int, 0),
        decreases rows - row,
    {
        proof {
            lemma_row_within(total as nat, to as int, stride as nat, rows as nat, row as int);
            assert(row * stride + stride <= rows * stride) by (nonlinear_arith)
                requires
                    row + 1 <= rows,
            ;
            assert(0 <= row * stride) by (nonlinear_arith);
        }
        let from: usize = row * stride;
        let at: usize = row * to;
        let mut i: usize = 0;
        while i < stride
            invariant
                i <= stride,
                row < rows,
                0 < stride <= to,
                len == y@.len(),
                from == row * stride,
                from + stride <= len,
                at == row * to,
                at + stride <= total,
                total == before.len(),
                total == dst@.len(),
                dst@ == luma_copied(before, y@, stride as int, to as int, row as int, i as int),
            decreases stride - i,
        {
            let ghost was = dst@;
            dst[at + i] = y[from + i];
            proof {
                let goal = luma_copied(before, y@, stride as int, to as int, row as int, i + 1);
                assert forall|k: int| 0 <= k < before.len() implies #[trigger] goal[k] == dst@[k] by {
                    lemma_place(to as int, i as int, row as int, k);
                }
                assert(dst@ =~= goal);
            }
            i += 1;
        }
        proof {
            let goal = luma_copied(before, y@, stride as int, to as int, row + 1, 0);
            assert(dst@ =~= goal);
        }
        row += 1;
    }
}

/// Interleave two chroma planes into a destination with rows `to` bytes apart.
pub fn interleave_chroma(u: &[u8], v: &[u8], stride: usize, dst: &mut [u8], to: usize)
    requires
        2 * stride <= to,
        stride > 0 ==> v@.len() >= rows_of(u@.len(), stride as int) * stride,
        covers(
            old(dst)@.len(),
            to as int,
            (2 * stride) as nat,
            rows_of(u@.len(), stride as int) as nat,
        ),
    ensures
        final(dst)@ == chroma_copied(
            old(dst)@,
            u@,
            v@,
            stride as int,
            to as int,
            rows_of(u@.len(), stride as int),
            0,
        ),
{
    let ghost before = dst@;
    let len: usize = u.len();
    let other: usize = v.len();
    let total: usize = dst.len();
    if stride == 0 {
        assert(dst@ =~= chroma_copied(before, u@, v@, 0, to as int, len as int, 0));
        return;
    }
    let rows: usize = len / stride;
    let mut row: usize = 0;
    assert(rows * stride <= len) by (nonlinear_arith)
        requires
            rows == len / stride,
            stride > 0,
    ;
    proof {
        assert forall|k: int| 0 <= k < before.len() implies 0 <= #[trigger] (k / (to as int)) by {
            vstd::arithmetic::div_mod::lemma_div_pos_is_pos(k, to as int);
        }
        assert(dst@ =~= chroma_copied(before, u@, v@, stride as int, to as int, 0, 0));
    }
    while row < rows
        invariant
            row <= rows,
            0 < stride,
            2 * stride <= to,
            len == u@.len(),
            other == v@.len(),
            rows * stride <= len,
            rows * stride <= other,
            total == before.len(),
            total == dst@.len(),
            rows == rows_of(u@.len(), stride as int),
            covers(total as nat, to as int, (2 * stride) as nat, rows as nat),
            dst@ == chroma_copied(before, u@, v@, stride as int, to as int, row as int, 0),
        decreases rows - row,
    {
        proof {
            lemma_row_within(total as nat, to as int, (2 * stride) as nat, rows as nat, row as int);
            assert(row * stride + stride <= rows * stride) by (nonlinear_arith)
                requires
                    row + 1 <= rows,
            ;
            assert(0 <= row * stride) by (nonlinear_arith);
        }
        let from: usize = row * stride;
        let at: usize = row * to;
        let mut i: usize = 0;
        while i < stride
            invariant
                i <= stride,
                row < rows,
                0 < stride,
                2 * stride <= to,
                len == u@.len(),
                other == v@.len(),
                from == row * stride,
                from + stride <= len,
                from + stride <= other,
                at == row * to,
                at + 2 * stride <= total,
                total == before.len(),
                total == dst@.len(),
                dst@ == chroma_copied(
                    before,
                    u@,
                    v@,
                    stride as int,
                    to as int,
                    row as int,
                    i as int,
                ),
            decreases stride - i,
        {
            dst[at + 2 * i] = u[from + i];
            dst[at + 2 * i + 1] = v[from + i];
            proof {
                let goal = chroma_copied(
                    before,
                    u@,
                    v@,
                    stride as int,
                    to as int,
                    row as int,
                    i + 1,
                );
                assert forall|k: int| 0 <= k < before.len() implies #[trigger] goal[k] == dst@[k] by {
                    lemma_place(to as int, 2 * i as int, row as int, k);
                    lemma_place(to as int, 2 * i as int + 1, row as int, k);
                }
                assert(dst@ =~= goal);
            }
            i += 1;
        }
        proof {
            let goal = chroma_copied(before, u@, v@, stride as int, to as int, row + 1, 0);
            assert(dst@ =~= goal);
        }
        row += 1;
    }
}

/// What was copied and interleaved row by row is split again into the planes it came from,
/// whatever the padding of the rows.
pub proof fn split_undoes_interleave(
    luma: Seq<u8>,
    chroma: Seq<u8>,
    y: Seq<u8>,
    u: Seq<u8>,
    v: Seq<u8>,
    w: nat,
    h: nat,
    to: int,
)
    requires
        w % 2 == 0,
        0 < w <= to,
        y.len() == y_len(w, h),
        u.len() == uv_len(w, h),
        v.len() == uv_len(w, h),
        covers(luma.len(), to, w, h),
        covers(chroma.len(), to, w, h / 2),
    ensures
        luma_plane(luma_copied(luma, y, w as int, to, h as int, 0), to, w, h) == y,
        chroma_plane(
            chroma_copied(chroma, u, v, w as int / 2, to, h as int / 2, 0),
            to,
            w,
            h,
            0,
        ) == u,
        chroma_plane(
            chroma_copied(chroma, u, v, w as int / 2, to, h as int / 2, 0),
            to,
            w,
            h,
            1,
        ) == v,
{
    let l = luma_copied(luma, y, w as int, to, h as int, 0);
    let c = chroma_copied(chroma, u, v, w as int / 2, to, h as int / 2, 0);
    let cw = w as int / 2;
    let ch = h as int / 2;
    assert forall|i: int| 0 <= i < y.len() implies #[trigger] luma_plane(l, to, w, h)[i] == y[i] by {
        let row = i / w as int;
        let col = i % w as int;
        lemma_in_rows(w as int, h as int, i);
        lemma_row_within(luma.len(), to, w, h, row);
        lemma_row_col(to, row, col);
    }
    assert(luma_plane(l, to, w, h) =~= y);
    assert forall|i: int| 0 <= i < u.len() implies #[trigger] chroma_plane(c, to, w, h, 0)[i]
        == u[i] by {
        lemma_in_rows(cw, ch, i);
        lemma_row_within(chroma.len(), to, w, h / 2, i / cw);
        lemma_row_col(to, i / cw, 2 * (i % cw));
    }
    assert(chroma_plane(c, to, w, h, 0) =~= u);
    assert forall|i: int| 0 <= i < v.len() implies #[trigger] chroma_plane(c, to, w, h, 1)[i]
        == v[i] by {
        lemma_in_rows(cw, ch, i);
        lemma_row_within(chroma.len(), to, w, h / 2, i / cw);
        lemma_row_col(to, i / cw, 2 * (i % cw) + 1);
    }
    assert(chroma_plane(c, to, w, h, 1) =~= v);
}

proof fn lemma_in_rows(w: int, h: int, k: int)
    requires
        0 <= k < w * h,
        0 < w,
        0 <= h,
    ensures
        0 <= k % w < w,
        0 <= k / w < h,
        (k / w) * w + k % w == k,
{
    vstd::arithmetic::div_mod::lemma_fundamental_div_mod(k, w);
    assert(w * (k / w) == (k / w) * w) by (nonlinear_arith);
    assert(k / w < h) by (nonlinear_arith)
        requires
            k < w * h,
            k == w * (k / w) + k % w,
            0 <= k % w,
            w > 0,
    ;
    vstd::arithmetic::div_mod::lemma_div_pos_is_pos(k, w);
}

} // verus!
