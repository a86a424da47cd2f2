//! The decisions of the capture backends.
//!
//! Delivery is driven by damage and not by a clock: the newest frame lives in a shared slot,
//! and the media loop does the pacing and the repeating.

use vstd::prelude::*;
use vstd::string::StringExecFns;
use crate::convert;
use crate::convert::{PixelFormat, luma_plane, u_plane, v_plane};
use crate::frame::{Frame, I420Buffer, blank, even, frame_len, signed32, to_signed32};
use crate::nv12;
use crate::text::{decimal, push_decimal};

verus! {

broadcast use vstd::std_specs::vec::group_vec_axioms;

/// Why capture failed.
#[derive(Debug)]
pub enum CaptureError {
    /// The desktop portal refused or failed.
    Portal(String),
    /// The PipeWire stream failed.
    Pipewire(String),
    /// The negotiated size is not the configured one (nothing scales).
    SizeMismatch {
        /// What was negotiated.
        got: (u32, u32),
        /// What was configured.
        want: (u32, u32),
    },
    /// The user has not granted the permission to record the screen.
    PermissionDenied,
    /// ScreenCaptureKit failed.
    ScreenCaptureKit(String),
    /// The display is not connected.
    DisplayNotFound(u32),
}

/// A size in words.
pub open spec fn size_text(s: (u32, u32)) -> Seq<char> {
    decimal(s.0 as nat) + "x"@ + decimal(s.1 as nat)
}

/// What `CaptureError::message` returns.
pub open spec fn message_of(e: CaptureError) -> Seq<char> {
    match e {
        CaptureError::Portal(text) => "desktop portal: "@ + text@,
        CaptureError::Pipewire(text) => "PipeWire: "@ + text@,
        CaptureError::SizeMismatch { got, want } => "captured size "@ + size_text(got)
            + " is not the configured "@ + size_text(want),
        CaptureError::PermissionDenied => "screen recording permission denied: grant it in the system settings and start again"@,
        CaptureError::ScreenCaptureKit(text) => "ScreenCaptureKit: "@ + text@,
        CaptureError::DisplayNotFound(id) => "display id "@ + decimal(id as nat)
            + " is not connected"@,
    }
}

fn push_size(out: &mut String, s: (u32, u32))
    ensures
        final(out)@ == old(out)@ + size_text(s),
{
    let ghost before = out@;
    push_decimal(out, s.0 as u128);
    out.append("x");
    push_decimal(out, s.1 as u128);
    assert(out@ =~= before + size_text(s));
}

impl CaptureError {
    /// The error in words.
    pub fn message(&self) -> (r: String)
        ensures
            r@ == message_of(*self),
    {
        match self {
            CaptureError::Portal(text) => {
                let mut out: String = "desktop portal: ".to_string();
                out.append(text.as_str());
                out
            },
            CaptureError::Pipewire(text) => {
                let mut out: String = "PipeWire: ".to_string();
                out.append(text.as_str());
                out
            },
            CaptureError::SizeMismatch { got, want } => {
                let mut out: String = "captured size ".to_string();
                push_size(&mut out, *got);
                out.append(" is not the configured ");
                push_size(&mut out, *want);
                out
            },
            CaptureError::PermissionDenied => "screen recording permission denied: grant it in the system settings and start again".to_string(),
            CaptureError::ScreenCaptureKit(text) => {
                let mut out: String = "ScreenCaptureKit: ".to_string();
                out.append(text.as_str());
                out
            },
            CaptureError::DisplayNotFound(id) => {
                let mut out: String = "display id ".to_string();
                push_decimal(&mut out, *id as u128);
                out.append(" is not connected");
                out
            },
        }
    }
}

/// The pixel layouts that matter here.
#[derive(Clone, Copy, Debug, PartialEq, Eq, Structural)]
pub enum VideoFormat {
    BGRA,
    BGRx,
    RGBA,
    RGBx,
    /// Any other.
    Other,
}

/// A range of sizes or of rates, with the preferred one.
#[derive(Clone, Copy, Debug, PartialEq, Eq)]
pub struct Range {
    pub default: (u32, u32),
    pub min: (u32, u32),
    pub max: (u32, u32),
}

/// A shared-memory raw-video offer. It names no buffer modifier, which is what keeps it on
/// the shared-memory path.
#[derive(Clone, Copy, Debug, PartialEq, Eq)]
pub struct ShmOffer {
    /// The preferred layout.
    pub format: VideoFormat,
    /// The acceptable layouts.
    pub alternatives: [VideoFormat; 4],
    /// Width and height.
    pub size: Range,
    /// Frames per second, as numerator and denominator.
    pub framerate: Range,
}

/// Build the offer for the configured size and rate: the four packed 32-bit layouts that can
/// be converted, at that size and no other.
pub fn shm_offer(expected: (u32, u32), refresh: u32) -> (r: ShmOffer)
    ensures
        r.format == VideoFormat::BGRA,
        r.alternatives@ == seq![
            VideoFormat::BGRA,
            VideoFormat::RGBA,
            VideoFormat::BGRx,
            VideoFormat::RGBx,
        ],
        r.size == (Range { default: expected, min: expected, max: expected }),
        r.framerate == (Range {
            default: (
                if refresh == 0 {
                    1
                } else {
                    refresh
                },
                1,
            ),
            min: (0, 1),
            max: (1000, 1),
        }),
{
    let alternatives: [VideoFormat; 4] = [
        VideoFormat::BGRA,
        VideoFormat::RGBA,
        VideoFormat::BGRx,
        VideoFormat::RGBx,
    ];
    assert(alternatives@ =~= seq![
        VideoFormat::BGRA,
        VideoFormat::RGBA,
        VideoFormat::BGRx,
        VideoFormat::RGBx,
    ]);
    let rate: u32 = if refresh == 0 {
        1
    } else {
        refresh
    };
    ShmOffer {
        format: VideoFormat::BGRA,
        alternatives,
        size: Range { default: expected, min: expected, max: expected },
        framerate: Range { default: (rate, 1), min: (0, 1), max: (1000, 1) },
    }
}

/// The layout that a negotiated format is converted from.
pub open spec fn layout(format: VideoFormat) -> Option<PixelFormat> {
    match format {
        VideoFormat::BGRA => Some(PixelFormat::BGRX),
        VideoFormat::BGRx => Some(PixelFormat::BGRX),
        VideoFormat::RGBA => Some(PixelFormat::RGBX),
        VideoFormat::RGBx => Some(PixelFormat::RGBX),
        VideoFormat::Other => None,
    }
}

/// The layout that frames of a negotiated format and size are converted from, if they are taken.
pub open spec fn taken(format: VideoFormat, size: (u32, u32), expected: (u32, u32)) -> Option<
    PixelFormat,
> {
    if size == expected {
        layout(format)
    } else {
        None
    }
}

/// Validate a negotiated format: an unexpected layout is an error first, then a size other
/// than the expected one. `name` is what the layout is called.
pub fn on_format(format: VideoFormat, name: &str, size: (u32, u32), expected: (u32, u32)) -> (r:
    core::result::Result<PixelFormat, CaptureError>)
    ensures
        match layout(format) {
            None => r is Err && r->Err_0 is Pipewire && r->Err_0->Pipewire_0@
                == "unexpected pixel format "@ + name@,
            Some(fmt) => if size != expected {
                r == Err::<PixelFormat, CaptureError>(
                    CaptureError::SizeMismatch { got: size, want: expected },
                )
            } else {
                r == Ok::<PixelFormat, CaptureError>(fmt)
            },
        },
        match taken(format, size, expected) {
            Some(fmt) => r == Ok::<PixelFormat, CaptureError>(fmt),
            None => r is Err,
        },
{
    let fmt: PixelFormat = match format {
        VideoFormat::BGRA => PixelFormat::BGRX,
        VideoFormat::BGRx => PixelFormat::BGRX,
        VideoFormat::RGBA => PixelFormat::RGBX,
        VideoFormat::RGBx => PixelFormat::RGBX,
        VideoFormat::Other => {
            let mut text: String = "unexpected pixel format ".to_string();
            text.append(name);
            return Err(CaptureError::Pipewire(text));
        },
    };
    if size.0 != expected.0 || size.1 != expected.1 {
        return Err(CaptureError::SizeMismatch { got: size, want: expected });
    }
    Ok(fmt)
}

/// A delivered chunk is worth looking at: it has a stride, and at least one row of it is
/// there.
pub open spec fn usable(len: nat, offset: int, stride: int) -> bool {
    stride != 0 && offset + stride <= len
}

/// Whether `len` bytes hold every row of a `w` by `h` frame whose rows are `stride` apart.
pub fn holds_frame(len: usize, stride: usize, w: u32, h: u32) -> (r: bool)
    ensures
        r == convert::covers(len as nat, stride as int, w as nat, h as nat),
{
    if h == 0 {
        return true;
    }
    proof {
        assert((h - 1) * stride <= 0xffff_ffff * 0xffff_ffff_ffff_ffff) by (nonlinear_arith)
            requires
                0 <= h - 1 <= 0xffff_ffff,
                0 <= stride <= 0xffff_ffff_ffff_ffff,
        ;
        assert(0 <= (h - 1) * stride) by (nonlinear_arith)
            requires
                0 <= h - 1,
                0 <= stride,
        ;
    }
    (h as u128 - 1) * (stride as u128) + 4 * (w as u128) <= len as u128
}

/// The frame shows the picture in a delivered chunk, which starts `offset` bytes into it.
pub open spec fn shows_chunk(
    f: Frame,
    bytes: Seq<u8>,
    offset: int,
    stride: int,
    fmt: PixelFormat,
) -> bool {
    let src = bytes.skip(offset);
    &&& f.y() == luma_plane(src, stride, fmt, f.width, f.height)
    &&& f.u() == u_plane(src, stride, fmt, f.width, f.height)
    &&& f.v() == v_plane(src, stride, fmt, f.width, f.height)
}

/// Convert a delivered chunk into `frame`. Nothing happens, and `false` comes back, for a chunk
/// that is not usable or comes before a format was negotiated.
pub fn convert_chunk(
    bytes: &[u8],
    offset: usize,
    stride: usize,
    fmt: Option<PixelFormat>,
    frame: &mut I420Buffer,
) -> (r: bool)
    requires
        old(frame)@.valid(),
        usable(bytes@.len(), offset as int, stride as int) && fmt is Some ==> convert::covers(
            (bytes@.len() - offset) as nat,
            stride as int,
            old(frame)@.width,
            old(frame)@.height,
        ),
    ensures
        r == (usable(bytes@.len(), offset as int, stride as int) && fmt is Some),
        !r ==> final(frame)@ == old(frame)@,
        r ==> {
            let src = bytes@.skip(offset as int);
            let f = old(frame)@;
            let g = final(frame)@;
            &&& g.valid()
            &&& g.width == f.width
            &&& g.height == f.height
            &&& g.y() == luma_plane(src, stride as int, fmt->0, f.width, f.height)
            &&& g.u() == u_plane(src, stride as int, fmt->0, f.width, f.height)
            &&& g.v() == v_plane(src, stride as int, fmt->0, f.width, f.height)
        },
        r ==> shows_chunk(final(frame)@, bytes@, offset as int, stride as int, fmt->0),
{
    let len: usize = bytes.len();
    if stride == 0 || offset > len || stride > len - offset {
        return false;
    }
    match fmt {
        None => false,
        Some(fmt) => {
            let src: &[u8] = vstd::slice::slice_subrange(bytes, offset, len);
            assert(src@ =~= bytes@.skip(offset as int));
            convert::to_i420(src, stride, fmt, frame);
            true
        },
    }
}

/// The newest frame, and the buffer that it displaced.
pub struct FrameStore {
    slot: Option<I420Buffer>,
    spare: Option<I420Buffer>,
}

/// What a store holds.
pub struct Stored {
    pub slot: Option<Frame>,
    pub spare: Option<Frame>,
}

pub open spec fn frame_of(b: Option<I420Buffer>) -> Option<Frame> {
    match b {
        Some(f) => Some(f@),
        None => None,
    }
}

impl View for FrameStore {
    type V = Stored;

    closed spec fn view(&self) -> Stored {
        Stored { slot: frame_of(self.slot), spare: frame_of(self.spare) }
    }
}

/// The store once a frame was made the newest: the one before it is the spare.
pub open spec fn published(s: Stored, frame: Frame) -> Stored {
    Stored { slot: Some(frame), spare: s.slot }
}

/// The store once a buffer was taken out of it for the next frame, and the buffer.
pub open spec fn lent(s: Stored, width: u32, height: u32) -> (Stored, Frame) {
    (
        Stored { spare: None, ..s },
        match s.spare {
            Some(f) => f,
            None => blank(width, height),
        },
    )
}

/// A frame once the newest one was copied into it, and whether there was one.
pub open spec fn shown(s: Stored, dst: Frame) -> (Frame, bool) {
    match s.slot {
        Some(f) => (Frame { data: f.data, ..dst }, true),
        None => (dst, false),
    }
}

impl FrameStore {
    /// A store without frames.
    pub fn new() -> (r: Self)
        ensures
            r@ == (Stored { slot: None, spare: None }),
    {
        FrameStore { slot: None, spare: None }
    }

    /// A buffer to convert the next frame into: the spare one, so that steady capture does not
    /// allocate, and otherwise a new one.
    pub fn scratch(&mut self, width: u32, height: u32) -> (r: I420Buffer)
        requires
            frame_len(even(width as nat), even(height as nat)) <= isize::MAX,
        ensures
            final(self)@ == (Stored { slot: old(self)@.slot, spare: None }),
            match old(self)@.spare {
                Some(f) => r@ == f,
                None => r@ == blank(width, height),
            },
            (final(self)@, r@) == lent(old(self)@, width, height),
    {
        match self.spare.take() {
            Some(b) => b,
            None => I420Buffer::new(width, height),
        }
    }

    /// Make `frame` the newest; the one that it displaces is the spare from now on.
    pub fn publish(&mut self, frame: I420Buffer)
        ensures
            final(self)@ == (Stored { slot: Some(frame@), spare: old(self)@.slot }),
            final(self)@ == published(old(self)@, frame@),
    {
        let displaced: Option<I420Buffer> = self.slot.take();
        self.slot = Some(frame);
        self.spare = displaced;
    }

    /// Copy the newest frame into `dst`, and say whether there was one. If there was none the
    /// caller keeps what it had.
    pub fn fill(&self, dst: &mut I420Buffer) -> (r: bool)
        requires
            self@.slot is Some ==> self@.slot->0.data.len() == old(dst)@.data.len(),
        ensures
            r == self@.slot is Some,
            final(dst)@ == (match self@.slot {
                Some(f) => Frame { data: f.data, ..old(dst)@ },
                None => old(dst)@,
            }),
            (final(dst)@, r) == shown(self@, old(dst)@),
    {
        match &self.slot {
            Some(frame) => {
                frame.copy_into(dst);
                true
            },
            None => false,
        }
    }
}

/// Every frame of a store has the size that was configured, rounded down to even numbers.
pub open spec fn sized(s: Stored, size: (u32, u32)) -> bool {
    &&& s.slot is Some ==> has_size(s.slot->0, size)
    &&& s.spare is Some ==> has_size(s.spare->0, size)
}

/// A frame of the configured size.
pub open spec fn has_size(f: Frame, size: (u32, u32)) -> bool {
    f.valid() && f.width == even(size.0 as nat) && f.height == even(size.1 as nat)
}

/// A chunk was delivered: convert it and make it the newest frame. Nothing happens, and `false`
/// comes back, for a chunk that is not usable or comes before a format was negotiated.
pub fn on_process(
    store: &mut FrameStore,
    bytes: &[u8],
    offset: usize,
    stride: usize,
    fmt: Option<PixelFormat>,
    size: (u32, u32),
) -> (r: bool)
    requires
        sized(old(store)@, size),
        frame_len(even(size.0 as nat), even(size.1 as nat)) <= isize::MAX,
        usable(bytes@.len(), offset as int, stride as int) && fmt is Some ==> convert::covers(
            (bytes@.len() - offset) as nat,
            stride as int,
            even(size.0 as nat),
            even(size.1 as nat),
        ),
    ensures
        sized(final(store)@, size),
        r == (usable(bytes@.len(), offset as int, stride as int) && fmt is Some),
        !r ==> final(store)@ == old(store)@,
        r ==> {
            let src = bytes@.skip(offset as int);
            let w = even(size.0 as nat);
            let h = even(size.1 as nat);
            &&& final(store)@.spare == old(store)@.slot
            &&& final(store)@.slot is Some
            &&& final(store)@.slot->0.y() == luma_plane(src, stride as int, fmt->0, w, h)
            &&& final(store)@.slot->0.u() == u_plane(src, stride as int, fmt->0, w, h)
            &&& final(store)@.slot->0.v() == v_plane(src, stride as int, fmt->0, w, h)
        },
        r ==> shows_chunk(final(store)@.slot->0, bytes@, offset as int, stride as int, fmt->0),
{
    let len: usize = bytes.len();
    if stride == 0 || offset > len || stride > len - offset || fmt.is_none() {
        return false;
    }
    let mut frame: I420Buffer = store.scratch(size.0, size.1);
    convert_chunk(bytes, offset, stride, fmt, &mut frame);
    store.publish(frame);
    true
}

/// The planes of an NV12 image, each with the distance of its rows.
pub struct Nv12Planes<'a> {
    pub y: &'a [u8],
    pub y_stride: usize,
    pub uv: &'a [u8],
    pub uv_stride: usize,
}

/// The planes hold every row of a frame of the configured size.
pub open spec fn planes_cover(p: Nv12Planes, size: (u32, u32)) -> bool {
    let w = even(size.0 as nat);
    let h = even(size.1 as nat);
    nv12::covers(p.y@.len(), p.y_stride as int, w, h) && nv12::covers(
        p.uv@.len(),
        p.uv_stride as int,
        w,
        h / 2,
    )
}

/// An NV12 image was delivered: split it and make it the newest frame. Where its planes cannot
/// be had, the buffer that was to take it becomes the newest frame as it is.
pub fn on_sample(store: &mut FrameStore, planes: Option<Nv12Planes>, size: (u32, u32))
    requires
        sized(old(store)@, size),
        frame_len(even(size.0 as nat), even(size.1 as nat)) <= isize::MAX,
        planes is Some ==> planes_cover(planes->0, size),
    ensures
        sized(final(store)@, size),
        final(store)@.spare == old(store)@.slot,
        final(store)@.slot is Some,
        match planes {
            Some(p) => {
                let w = even(size.0 as nat);
                let h = even(size.1 as nat);
                let f = final(store)@.slot->0;
                &&& f.y() == nv12::luma_plane(p.y@, p.y_stride as int, w, h)
                &&& f.u() == nv12::chroma_plane(p.uv@, p.uv_stride as int, w, h, 0)
                &&& f.v() == nv12::chroma_plane(p.uv@, p.uv_stride as int, w, h, 1)
            },
            None => final(store)@.slot == (if old(store)@.spare is Some {
                old(store)@.spare
            } else {
                Some(blank(size.0, size.1))
            }),
        },
{
    let mut frame: I420Buffer = store.scratch(size.0, size.1);
    match planes {
        Some(p) => nv12::to_i420(p.y, p.y_stride, p.uv, p.uv_stride, &mut frame),
        None => {},
    }
    store.publish(frame);
}

/// The code with which ScreenCaptureKit says that the user declined.
pub const USER_DECLINED: i64 = -3801;

/// The error for a failure of ScreenCaptureKit, singling out the one that an operator can fix.
pub fn sck_error(code: i64, description: String) -> (r: CaptureError)
    ensures
        r == if code == USER_DECLINED {
            CaptureError::PermissionDenied
        } else {
            CaptureError::ScreenCaptureKit(description)
        },
{
    if code == USER_DECLINED {
        CaptureError::PermissionDenied
    } else {
        CaptureError::ScreenCaptureKit(description)
    }
}

/// Which of the connected displays to capture: the first (the main one) where no target is
/// named, and otherwise the first with that id. A display that is gone is an error, and no
/// other is captured in its place.
pub fn pick_display(ids: &[u32], target: Option<u32>) -> (r: core::result::Result<
    usize,
    CaptureError,
>)
    ensures
        match target {
            None => if ids@.len() > 0 {
                r == Ok::<usize, CaptureError>(0)
            } else {
                r is Err && r->Err_0 is ScreenCaptureKit && r->Err_0->ScreenCaptureKit_0@
                    == "no displays available to capture"@
            },
            Some(id) => if ids@.contains(id) {
                r is Ok && r->Ok_0 < ids@.len() && ids@[r->Ok_0 as int] == id && forall|k: int|
                    0 <= k < r->Ok_0 ==> ids@[k] != id
            } else {
                r == Err::<usize, CaptureError>(CaptureError::DisplayNotFound(id))
            },
        },
{
    match target {
        None => if ids.len() > 0 {
            Ok(0)
        } else {
            Err(CaptureError::ScreenCaptureKit("no displays available to capture".to_string()))
        },
        Some(id) => {
            let mut k: usize = 0;
            while k < ids.len()
                invariant
                    k <= ids@.len(),
                    target == Some(id),
                    forall|i: int| 0 <= i < k ==> ids@[i] != id,
                decreases ids@.len() - k,
            {
                if ids[k] == id {
                    assert(ids@[k as int] == id);
                    return Ok(k);
                }
                k += 1;
            }
            Err(CaptureError::DisplayNotFound(id))
        },
    }
}

/// What a ScreenCaptureKit stream is told: the size, a frame interval of one refresh, a shallow
/// queue (a backlog of stale frames is worthless), and to show the cursor.
#[derive(Clone, Copy, Debug, PartialEq, Eq)]
pub struct SckSettings {
    pub width: u32,
    pub height: u32,
    /// The frame interval is one over this.
    pub timescale: i32,
    pub queue_depth: u32,
    pub shows_cursor: bool,
}

/// The settings of a ScreenCaptureKit stream.
pub fn sck_settings(width: u32, height: u32, refresh: u32) -> (r: SckSettings)
    ensures
        r == (SckSettings {
            width,
            height,
            timescale: signed32(
                if refresh == 0 {
                    1
                } else {
                    refresh as int
                },
            ) as i32,
            queue_depth: 3,
            shows_cursor: true,
        }),
{
    let rate: u32 = if refresh == 0 {
        1
    } else {
        refresh
    };
    SckSettings {
        width,
        height,
        timescale: to_signed32(rate),
        queue_depth: 3,
        shows_cursor: true,
    }
}

} // verus!
