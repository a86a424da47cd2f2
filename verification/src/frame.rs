//! The I420 frame buffer handed to the encoder.
//!
//! It has the same plane and stride shape as the synthetic test pattern (tightly packed
//! I420), so the media loop feeds capture and synthetic frames to an encoder identically.
//! Storage is one contiguous vector, Y then U then V, so copying a whole frame is one move.

use vstd::prelude::*;

verus! {

broadcast use vstd::std_specs::vec::group_vec_axioms;

/// A frame: its dimensions and the bytes of its three planes, one after the other.
pub struct Frame {
    pub width: nat,
    pub height: nat,
    pub data: Seq<u8>,
}

/// The length of a luma plane.
pub open spec fn y_len(width: nat, height: nat) -> nat {
    width * height
}

/// The length of a chroma plane.
pub open spec fn uv_len(width: nat, height: nat) -> nat {
    (width / 2) * (height / 2)
}

/// The length of a whole frame.
pub open spec fn frame_len(width: nat, height: nat) -> nat {
    y_len(width, height) + 2 * uv_len(width, height)
}

/// `v` rounded down to even.
pub open spec fn even(v: nat) -> nat {
    (v - v % 2) as nat
}

impl Frame {
    /// Even dimensions, and as many bytes as they ask for.
    pub open spec fn valid(self) -> bool {
        &&& self.width % 2 == 0
        &&& self.height % 2 == 0
        &&& self.data.len() == frame_len(self.width, self.height)
    }

    /// The luma plane.
    pub open spec fn y(self) -> Seq<u8> {
        self.data.subrange(0, y_len(self.width, self.height) as int)
    }

    /// The first chroma plane.
    pub open spec fn u(self) -> Seq<u8> {
        let y = y_len(self.width, self.height) as int;
        self.data.subrange(y, y + uv_len(self.width, self.height))
    }

    /// The second chroma plane.
    pub open spec fn v(self) -> Seq<u8> {
        let start = (y_len(self.width, self.height) + uv_len(self.width, self.height)) as int;
        self.data.subrange(start, self.data.len() as int)
    }
}

/// A frame of zeros, with the dimensions rounded down to even.
pub open spec fn blank(width: u32, height: u32) -> Frame {
    let w = even(width as nat);
    let h = even(height as nat);
    Frame { width: w, height: h, data: Seq::new(frame_len(w, h), |i: int| 0u8) }
}

/// The sum of some samples.
pub open spec fn total(s: Seq<u8>) -> nat
    decreases s.len(),
{
    if s.len() == 0 {
        0
    } else {
        total(s.drop_last()) + s.last() as nat
    }
}

/// The mean luma of a frame, rounded down, and 0 of a frame without pixels.
pub open spec fn mean_of(f: Frame) -> int {
    if f.y().len() == 0 {
        0
    } else {
        total(f.y()) as int / f.y().len() as int
    }
}

/// A 32-bit pattern read as a signed number.
pub open spec fn signed32(v: int) -> int {
    if v < 0x8000_0000 {
        v
    } else {
        v - 0x1_0000_0000
    }
}

/// A 32-bit pattern read as a signed number.
pub(crate) fn to_signed32(v: u32) -> (r: i32)
    ensures
        r == signed32(v as int),
{
    if v < 0x8000_0000 {
        v as i32
    } else {
        -1 - (0xffff_ffff - v) as i32
    }
}

/// Whether a frame of this size can be allocated.
pub fn frame_fits(width: u32, height: u32) -> (r: bool)
    ensures
        r == (frame_len(even(width as nat), even(height as nat)) <= isize::MAX),
{
    let w: u128 = (width - width % 2) as u128;
    let h: u128 = (height - height % 2) as u128;
    proof {
        assert(0 <= w * h <= 0xffff_ffff * 0xffff_ffff) by (nonlinear_arith)
            requires
                0 <= w <= 0xffff_ffff,
                0 <= h <= 0xffff_ffff,
        ;
        assert(0 <= (w / 2) * (h / 2) <= 0xffff_ffff * 0xffff_ffff) by (nonlinear_arith)
            requires
                0 <= w / 2 <= 0xffff_ffff,
                0 <= h / 2 <= 0xffff_ffff,
        ;
    }
    w * h + 2 * ((w / 2) * (h / 2)) <= isize::MAX as u128
}

/// A reusable tightly packed I420 frame (8-bit 4:2:0) with even dimensions.
pub struct I420Buffer {
    width: u32,
    height: u32,
    data: Vec<u8>,
}

impl View for I420Buffer {
    type V = Frame;

    closed spec fn view(&self) -> Frame {
        Frame { width: self.width as nat, height: self.height as nat, data: self.data@ }
    }
}

impl Clone for I420Buffer {
    fn clone(&self) -> (r: Self)
        ensures
            r@ == self@,
    {
        let data: Vec<u8> = self.data.clone();
        assert(data@ =~= self.data@);
        I420Buffer { width: self.width, height: self.height, data }
    }
}

impl I420Buffer {
    /// Allocate planes for a `width` by `height` frame (both rounded down to even), all zero.
    pub fn new(width: u32, height: u32) -> (r: Self)
        requires
            frame_len(even(width as nat), even(height as nat)) <= isize::MAX,
        ensures
            r@ == blank(width, height),
            r@.valid(),
    {
        let width: u32 = width - width % 2;
        let height: u32 = height - height % 2;
        proof {
            lemma_lens(width as nat, height as nat);
        }
        let y: usize = width as usize * height as usize;
        let uv: usize = (width as usize / 2) * (height as usize / 2);
        let data: Vec<u8> = vec![0u8; y + 2 * uv];
        assert(data@ =~= Seq::new(frame_len(width as nat, height as nat), |i: int| 0u8));
        I420Buffer { width, height, data }
    }

    /// Frame dimensions in pixels.
    pub fn dimensions(&self) -> (r: (u32, u32))
        ensures
            r.0 == self@.width,
            r.1 == self@.height,
    {
        (self.width, self.height)
    }

    /// The Y, U, V plane slices.
    pub fn planes(&self) -> (r: [&[u8]; 3])
        requires
            self@.valid(),
        ensures
            r[0]@ == self@.y(),
            r[1]@ == self@.u(),
            r[2]@ == self@.v(),
    {
        let (y, rest) = self.data.as_slice().split_at(self.y_len());
        let (u, v) = rest.split_at(self.uv_len());
        assert(u@ =~= self@.u());
        assert(v@ =~= self@.v());
        [y, u, v]
    }

    /// Luma and chroma strides (tightly packed), as 32-bit signed numbers.
    pub fn strides(&self) -> (r: [i32; 3])
        ensures
            r[0] == signed32(self@.width as int),
            r[1] == self@.width / 2,
            r[2] == self@.width / 2,
    {
        [to_signed32(self.width), (self.width / 2) as i32, (self.width / 2) as i32]
    }

    /// Mutable Y, U, V plane slices.
    pub fn planes_mut(&mut self) -> (r: [&mut [u8]; 3])
        requires
            old(self)@.valid(),
        ensures
            r[0]@ == old(self)@.y(),
            r[1]@ == old(self)@.u(),
            r[2]@ == old(self)@.v(),
            final(self)@.width == old(self)@.width,
            final(self)@.height == old(self)@.height,
            final(self)@.data == final(r[0])@ + final(r[1])@ + final(r[2])@,
    {
        let y_len: usize = self.y_len();
        let uv_len: usize = self.uv_len();
        let ghost before = self@;
        let (y, rest) = self.data.as_mut_slice().split_at_mut(y_len);
        let (u, v) = rest.split_at_mut(uv_len);
        assert(u@ =~= before.u());
        assert(v@ =~= before.v());
        [y, u, v]
    }

    /// Copy this frame's pixels into `dst` (of the same length).
    pub fn copy_into(&self, dst: &mut I420Buffer)
        requires
            self@.data.len() == old(dst)@.data.len(),
        ensures
            final(dst)@ == (Frame { data: self@.data, ..old(dst)@ }),
    {
        dst.data.clear();
        dst.data.extend_from_slice(self.data.as_slice());
        assert(dst@.data =~= self@.data);
    }

    /// The mean luma, rounded down, and 0 of a frame without pixels. It is that of black where
    /// nothing was captured.
    pub fn mean_luma(&self) -> (r: u8)
        requires
            self@.valid(),
        ensures
            self@.y().len() == 0 ==> r == 0,
            self@.y().len() > 0 ==> r == total(self@.y()) / self@.y().len(),
            r == mean_of(self@),
    {
        let y: &[u8] = self.planes()[0];
        let ghost all = y@;
        let mut sum: u128 = 0;
        let mut k: usize = 0;
        while k < y.len()
            invariant
                k <= y@.len(),
                all == y@,
                sum == total(all.take(k as int)),
                sum <= 255 * k,
            decreases y@.len() - k,
        {
            assert(all.take(k + 1).drop_last() =~= all.take(k as int));
            sum += y[k] as u128;
            k += 1;
        }
        assert(all.take(k as int) =~= all);
        if y.len() == 0 {
            return 0;
        }
        let n: u128 = y.len() as u128;
        assert(sum / n <= 255) by (nonlinear_arith)
            requires
                sum <= 255 * n,
                n > 0,
        ;
        (sum / n) as u8
    }

    /// The lengths of the luma plane and of a chroma plane.
    pub(crate) fn plane_lens(&self) -> (r: (usize, usize))
        requires
            self@.valid(),
        ensures
            r.0 == y_len(self@.width, self@.height),
            r.1 == uv_len(self@.width, self@.height),
    {
        (self.y_len(), self.uv_len())
    }

    /// Take the storage out, emptied, to be filled anew and put back. Until then the frame
    /// keeps its dimensions and holds no pixels.
    pub(crate) fn take_storage(&mut self) -> (r: Vec<u8>)
        ensures
            r@ == Seq::<u8>::empty(),
            final(self)@ == (Frame { data: Seq::empty(), ..old(self)@ }),
    {
        let mut out: Vec<u8> = Vec::new();
        std::mem::swap(&mut out, &mut self.data);
        out.clear();
        out
    }

    /// Put filled storage back.
    pub(crate) fn put_storage(&mut self, data: Vec<u8>)
        ensures
            final(self)@ == (Frame { data: data@, ..old(self)@ }),
    {
        self.data = data;
    }

    fn y_len(&self) -> (r: usize)
        requires
            self@.valid(),
        ensures
            r == y_len(self@.width, self@.height),
            r <= self@.data.len(),
    {
        let n: usize = self.data.len();
        proof {
            lemma_lens(self.width as nat, self.height as nat);
        }
        self.width as usize * self.height as usize
    }

    fn uv_len(&self) -> (r: usize)
        requires
            self@.valid(),
        ensures
            r == uv_len(self@.width, self@.height),
            r + y_len(self@.width, self@.height) <= self@.data.len(),
    {
        let n: usize = self.data.len();
        proof {
            lemma_lens(self.width as nat, self.height as nat);
        }
        (self.width as usize / 2) * (self.height as usize / 2)
    }
}

pub proof fn lemma_lens(width: nat, height: nat)
    ensures
        0 <= width * height <= frame_len(width, height),
        0 <= (width / 2) * (height / 2) <= frame_len(width, height),
{
    assert(0 <= width * height) by (nonlinear_arith);
    assert(0 <= (width / 2) * (height / 2)) by (nonlinear_arith);
}

} // verus!
