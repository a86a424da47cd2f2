//! What a capture takes, and what its frames are like.

use vstd::prelude::*;
use crate::capture::{
    Stored, VideoFormat, has_size, layout, lent, published, shown, shows_chunk,
    taken, usable,
};
use crate::convert::PixelFormat;
use crate::frame::{Frame, blank, even, mean_of, total};
use crate::laws::pixels::{is_luma_of, luma_follows_its_pixel, shows};

verus! {

/// A layout is told by where its red and its blue byte stand. The fourth byte, transparency or
/// nothing, makes no difference, and there is no other layout.
pub proof fn layouts_by_their_first_byte()
    ensures
        layout(VideoFormat::BGRA) == Some(PixelFormat::BGRX),
        layout(VideoFormat::BGRx) == Some(PixelFormat::BGRX),
        layout(VideoFormat::RGBA) == Some(PixelFormat::RGBX),
        layout(VideoFormat::RGBx) == Some(PixelFormat::RGBX),
        forall|f: VideoFormat| (#[trigger] layout(f)) is None <==> f is Other,
{
}

/// Frames are taken in the size that was configured, to the pixel, and in no other.
pub proof fn frames_are_taken_in_their_size(format: VideoFormat, size: (u32, u32), other: (u32, u32))
    ensures
        taken(format, size, size) == layout(format),
        other.0 != size.0 || other.1 != size.1 ==> taken(format, other, size) is None,
        taken(VideoFormat::Other, size, other) is None,
{
}

/// A chunk is looked at exactly if a whole row of it is there, and a row has bytes.
pub proof fn chunk_holds_a_row(len: nat, offset: int, stride: int)
    requires
        0 <= offset,
        0 <= stride,
    ensures
        usable(len, offset, stride) <==> 1 <= stride && stride <= len - offset,
{
}

/// The picture starts where the chunk says: what stands before it makes no difference, and with
/// nothing before it the samples follow the pixels from the first byte on.
pub proof fn picture_starts_at_its_offset(
    f: Frame,
    before: Seq<u8>,
    bytes: Seq<u8>,
    stride: int,
    fmt: PixelFormat,
    row: int,
    col: int,
    c: (int, int, int),
)
    requires
        f.valid(),
        shows_chunk(f, before + bytes, before.len() as int, stride, fmt),
        0 <= row < f.height,
        0 <= col < f.width,
        shows(bytes, stride, fmt, row, col, c),
    ensures
        shows_chunk(f, bytes, 0, stride, fmt),
        0 <= row * f.width + col < f.y().len(),
        is_luma_of(f.y()[row * f.width + col], c),
{
    assert((before + bytes).skip(before.len() as int) =~= bytes);
    assert(bytes.skip(0) =~= bytes);
    luma_follows_its_pixel(bytes, stride, fmt, f.width, f.height, row, col, c);
}

/// Rounding down to even changes a number by at most one, and an even one not at all.
pub proof fn even_is_close(v: nat)
    ensures
        even(v) % 2 == 0,
        v - 1 <= even(v) <= v,
{
}

/// A frame that nothing was put into is of the size that was asked for, in even numbers, and
/// zero all over.
pub proof fn new_frame_is_zero(width: u32, height: u32, k: int)
    ensures
        blank(width, height).valid(),
        has_size(blank(width, height), (width, height)),
        blank(width, height).width == even(width as nat),
        blank(width, height).height == even(height as nat),
        0 <= k < blank(width, height).data.len() ==> blank(width, height).data[k] == 0,
{
}

/// A frame has the size that was asked for if and only if its own, and what it holds, are that.
pub proof fn sized_frame(f: Frame, w: u32, h: u32)
    requires
        w % 2 == 0,
        h % 2 == 0,
    ensures
        has_size(f, (w, h)) <==> f.width == w && f.height == h && f.data.len() == w * h + 2 * ((w
            / 2) * (h / 2)),
{
}

/// The sum of samples is that of its parts, and of one sample it is the sample.
pub proof fn samples_add_up(a: Seq<u8>, b: Seq<u8>, s: u8)
    ensures
        total(a + b) == total(a) + total(b),
        total(seq![s]) == s,
        total(Seq::empty()) == 0,
    decreases b.len(),
{
    reveal_with_fuel(total, 2);
    assert(seq![s].drop_last() =~= Seq::empty());
    if b.len() == 0 {
        assert(a + b =~= a);
    } else {
        samples_add_up(a, b.drop_last(), s);
        assert((a + b).drop_last() =~= a + b.drop_last());
    }
}

/// What is shown is the frame that was made the newest last, whatever came before, and nothing
/// where none was; looking changes nothing about it but the picture that it is copied into.
pub proof fn newest_frame_is_shown(s: Stored, a: Frame, b: Frame, dst: Frame)
    ensures
        shown(published(s, b), dst).1,
        shown(published(s, b), dst).0.data == b.data,
        shown(published(published(s, a), b), dst) == shown(published(s, b), dst),
        shown(published(s, b), dst).0.width == dst.width,
        shown(published(s, b), dst).0.height == dst.height,
        shown(Stored { slot: None, spare: Some(a) }, dst) == (dst, false),
{
}

/// Two buffers take turns: the one that is lent is what was displaced last, never the one that is
/// shown, and lending it changes nothing about what is shown. A new one is made only where none
/// was displaced.
pub proof fn displaced_buffer_is_lent(
    s: Stored,
    a: Frame,
    b: Frame,
    dst: Frame,
    width: u32,
    height: u32,
)
    ensures
        lent(published(published(s, a), b), width, height).1 == a,
        shown(lent(s, width, height).0, dst) == shown(s, dst),
        lent(lent(s, width, height).0, width, height).1 == blank(width, height),
        s.spare is None ==> lent(s, width, height).1 == blank(width, height),
{
}

/// The mean luma is that of the luma samples and of nothing else: no less than the darkest and no
/// more than the lightest of them, so that of an even picture it is the luma of every sample.
pub proof fn mean_lies_between_the_extremes(f: Frame, low: u8, high: u8)
    requires
        f.valid(),
        f.width > 0,
        f.height > 0,
        forall|k: int| 0 <= k < f.width * f.height ==> low <= #[trigger] f.data[k] <= high,
    ensures
        low <= mean_of(f) <= high,
        mean_of(f) * (f.width * f.height) <= total(f.data.subrange(0, (f.width * f.height) as int)),
        total(f.data.subrange(0, (f.width * f.height) as int)) < (mean_of(f) + 1) * (f.width
            * f.height),
{
    let n = (f.width * f.height) as int;
    assert(n > 0) by (nonlinear_arith)
        requires
            n == f.width * f.height,
            f.width > 0,
            f.height > 0,
    ;
    crate::frame::lemma_lens(f.width, f.height);
    let y = f.y();
    assert(y.len() == n);
    assert forall|k: int| 0 <= k < y.len() implies low <= #[trigger] y[k] <= high by {
        assert(y[k] == f.data[k]);
    }
    lemma_total_bounds(y, low, high);
    let t = total(y) as int;
    let q = t / n;
    assert(q * n <= t < (q + 1) * n && low <= q <= high) by (nonlinear_arith)
        requires
            q == t / n,
            n > 0,
            low * n <= t <= high * n,
    ;
}

proof fn lemma_total_bounds(y: Seq<u8>, low: u8, high: u8)
    requires
        forall|k: int| 0 <= k < y.len() ==> low <= #[trigger] y[k] <= high,
    ensures
        low * y.len() <= total(y) <= high * y.len(),
    decreases y.len(),
{
    if y.len() > 0 {
        let t = y.drop_last();
        assert forall|k: int| 0 <= k < t.len() implies low <= #[trigger] t[k] <= high by {
            assert(t[k] == y[k]);
        }
        lemma_total_bounds(t, low, high);
        assert(low <= y[y.len() - 1] <= high);
        assert(low * y.len() == low * t.len() + low && high * y.len() == high * t.len() + high)
            by (nonlinear_arith)
            requires
                y.len() == t.len() + 1,
        ;
    }
}

} // verus!
