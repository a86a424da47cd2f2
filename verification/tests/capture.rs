//! Frames, pixel conversion and the capture backends' decisions.

use loom::capture::{
    convert_chunk, holds_frame, on_format, on_process, on_sample, pick_display, sck_error,
    sck_settings, shm_offer, CaptureError, FrameStore, Nv12Planes, Range, SckSettings,
    VideoFormat, USER_DECLINED,
};
use loom::convert::{self, to_i420, PixelFormat};
use loom::frame::{frame_fits, I420Buffer};
use loom::nv12;

fn solid(w: usize, h: usize, px: [u8; 4]) -> Vec<u8> {
    px.iter().copied().cycle().take(w * h * 4).collect()
}

#[test]
fn white_maps_to_full_luma_neutral_chroma() {
    let mut dst = I420Buffer::new(4, 4);
    let src = solid(4, 4, [255, 255, 255, 255]);
    to_i420(&src, 4 * 4, PixelFormat::BGRX, &mut dst);

    let [y, u, v] = dst.planes();
    assert_eq!(y[0], 235); // 16..235 limited-range white
    assert_eq!(u[0], 128);
    assert_eq!(v[0], 128);
}

#[test]
fn byte_order_distinguishes_red_from_blue() {
    // A pure-red pixel in BGRx memory order is [0,0,255,255].
    let mut dst = I420Buffer::new(2, 2);
    let src = solid(2, 2, [0, 0, 255, 255]);
    to_i420(&src, 2 * 4, PixelFormat::BGRX, &mut dst);
    let v_red = dst.planes()[2][0];

    // The same bytes read as RGBx are pure blue: V must differ.
    let mut dst2 = I420Buffer::new(2, 2);
    to_i420(&src, 2 * 4, PixelFormat::RGBX, &mut dst2);
    let v_blue = dst2.planes()[2][0];

    assert!(v_red > 200, "red gives a high V, got {v_red}");
    assert!(v_blue < 128, "blue gives a low V, got {v_blue}");
}

#[test]
fn honors_padded_source_stride() {
    // 2x2 image with 4 bytes of row padding; second row must be found via stride.
    let w = 2;
    let stride = w * 4 + 4;
    let mut src = vec![0u8; stride * 2];
    // Row 1 white, row 0 black: proves we didn't read past/short a row.
    for x in 0..w {
        src[stride + x * 4..stride + x * 4 + 4].copy_from_slice(&[255, 255, 255, 255]);
    }
    let mut dst = I420Buffer::new(2, 2);
    to_i420(&src, stride, PixelFormat::BGRX, &mut dst);

    let y = dst.planes()[0];
    assert_eq!(y[0], 16, "row 0 black");
    assert_eq!(y[2], 235, "row 1 white");
}

#[test]
fn odd_dimensions_round_down_and_planes_are_sized() {
    let f = I420Buffer::new(65, 49);
    assert_eq!(f.dimensions(), (64, 48));

    let [y, u, v] = f.planes();
    assert_eq!(y.len(), 64 * 48);
    assert_eq!(u.len(), 32 * 24);
    assert_eq!(v.len(), 32 * 24);
}

#[test]
fn copy_into_roundtrips() {
    let mut src = I420Buffer::new(8, 8);
    src.planes_mut()[0][0] = 42;
    let mut dst = I420Buffer::new(8, 8);
    src.copy_into(&mut dst);
    assert_eq!(dst.planes()[0][0], 42);
}

#[test]
fn deinterleaves_chroma_and_honors_strides() {
    // 4x2 frame; both planes padded to a stride wider than the frame.
    let y_stride = 6;
    let y: Vec<u8> = vec![
        1, 2, 3, 4, 0, 0, // row 0 + padding
        5, 6, 7, 8, 0, 0, // row 1 + padding
    ];
    let uv_stride = 5;
    let uv: Vec<u8> = vec![10, 20, 11, 21, 0]; // Cb,Cr,Cb,Cr + padding

    let mut dst = I420Buffer::new(4, 2);
    nv12::to_i420(&y, y_stride, &uv, uv_stride, &mut dst);

    let [dy, du, dv] = dst.planes();
    assert_eq!(dy, &[1, 2, 3, 4, 5, 6, 7, 8], "luma rows are packed");
    assert_eq!(du, &[10, 11], "U takes the Cb bytes");
    assert_eq!(dv, &[20, 21], "V takes the Cr bytes");
}

#[test]
fn primary_colours_in_limited_range() {
    for (px, want) in [
        ([0u8, 0, 0, 0], [16u8, 128, 128]),
        ([0, 0, 255, 0], [82, 90, 240]),
        ([0, 255, 0, 0], [144, 54, 34]),
        ([255, 0, 0, 0], [41, 240, 110]),
    ] {
        let mut dst = I420Buffer::new(2, 2);
        to_i420(&solid(2, 2, px), 8, PixelFormat::BGRX, &mut dst);
        let [y, u, v] = dst.planes();
        assert_eq!([y[3], u[0], v[0]], want, "{px:?}");
    }
}

#[test]
fn strides_and_clones() {
    let mut f = I420Buffer::new(10, 6);
    assert_eq!(f.strides(), [10, 5, 5]);
    f.planes_mut()[2][3] = 9;
    let g = f.clone();
    assert_eq!(g.planes(), f.planes());
    assert_eq!(g.dimensions(), (10, 6));
}

#[test]
fn splitting_undoes_interleaving() {
    let u = vec![1u8, 2, 3, 4];
    let v = vec![5u8, 6, 7, 8];
    let y: Vec<u8> = (0..16).collect();
    let mut luma = vec![0u8; 4 * 6];
    let mut chroma = vec![0u8; 2 * 7];
    nv12::copy_luma(&y, 4, &mut luma, 6);
    nv12::interleave_chroma(&u, &v, 2, &mut chroma, 7);
    let mut dst = I420Buffer::new(4, 4);
    nv12::to_i420(&luma, 6, &chroma, 7, &mut dst);
    assert_eq!(dst.planes()[0], y.as_slice());
    assert_eq!(dst.planes()[1], u.as_slice());
    assert_eq!(dst.planes()[2], v.as_slice());
}

#[test]
fn the_offer_is_fixed_to_the_configured_size() {
    let o = shm_offer((2560, 1440), 72);
    assert_eq!(o.format, VideoFormat::BGRA);
    assert_eq!(
        o.alternatives,
        [VideoFormat::BGRA, VideoFormat::RGBA, VideoFormat::BGRx, VideoFormat::RGBx]
    );
    assert_eq!(
        o.size,
        Range { default: (2560, 1440), min: (2560, 1440), max: (2560, 1440) }
    );
    assert_eq!(
        o.framerate,
        Range { default: (72, 1), min: (0, 1), max: (1000, 1) }
    );
    assert_eq!(shm_offer((1, 1), 0).framerate.default, (1, 1));
}

#[test]
fn a_negotiated_format_is_checked() {
    assert!(matches!(
        on_format(VideoFormat::RGBA, "RGBA", (4, 4), (4, 4)),
        Ok(PixelFormat::RGBX)
    ));
    assert!(matches!(
        on_format(VideoFormat::BGRx, "BGRx", (4, 4), (4, 4)),
        Ok(PixelFormat::BGRX)
    ));
    let e = on_format(VideoFormat::BGRA, "BGRA", (4, 2), (4, 4)).unwrap_err();
    assert!(matches!(
        e,
        CaptureError::SizeMismatch { got: (4, 2), want: (4, 4) }
    ));
    assert_eq!(e.message(), "captured size 4x2 is not the configured 4x4");
    let e = on_format(VideoFormat::Other, "YUY2", (4, 2), (4, 4)).unwrap_err();
    assert_eq!(e.message(), "PipeWire: unexpected pixel format YUY2");
}

#[test]
fn chunks_that_are_not_usable_are_skipped() {
    let bytes = solid(2, 2, [255, 255, 255, 0]);
    let mut f = I420Buffer::new(2, 2);
    assert!(!convert_chunk(&bytes, 0, 0, Some(PixelFormat::BGRX), &mut f));
    assert!(!convert_chunk(&bytes, 12, 8, Some(PixelFormat::BGRX), &mut f));
    assert!(!convert_chunk(&bytes, 0, 8, None, &mut f));
    assert_eq!(f.planes()[0][0], I420Buffer::new(2, 2).planes()[0][0]);
    assert!(convert_chunk(&bytes, 0, 8, Some(PixelFormat::BGRX), &mut f));
    assert_eq!(f.planes()[0], &[235; 4]);
}

#[test]
fn a_frame_must_be_there_in_full() {
    assert!(holds_frame(16, 8, 2, 2));
    assert!(!holds_frame(15, 8, 2, 2));
    // The last row needs no padding.
    assert!(holds_frame(12 + 8, 12, 2, 2));
    assert!(holds_frame(0, 8, 2, 0));
    assert!(!holds_frame(usize::MAX, usize::MAX, 1, u32::MAX));
}

#[test]
fn the_store_hands_out_the_newest_frame_and_reuses_the_older() {
    let mut store = FrameStore::new();
    let mut dst = I420Buffer::new(2, 2);
    assert!(!store.fill(&mut dst));
    let mut a = store.scratch(2, 2);
    a.planes_mut()[0][0] = 11;
    store.publish(a);
    assert!(store.fill(&mut dst));
    assert_eq!(dst.planes()[0][0], 11);
    let mut b = store.scratch(2, 2);
    b.planes_mut()[0][0] = 22;
    store.publish(b);
    assert!(store.fill(&mut dst));
    assert_eq!(dst.planes()[0][0], 22);
    // The displaced buffer comes back as scratch.
    assert_eq!(store.scratch(2, 2).planes()[0][0], 11);
    assert!(store.fill(&mut dst));
}

#[test]
fn screen_capture_errors() {
    assert!(matches!(
        sck_error(USER_DECLINED, "x".into()),
        CaptureError::PermissionDenied
    ));
    let e = sck_error(-1, "broken".into());
    assert_eq!(e.message(), "ScreenCaptureKit: broken");
    assert_eq!(
        CaptureError::Portal("no".into()).message(),
        "desktop portal: no"
    );
}

#[test]
fn displays_are_picked_by_id() {
    assert_eq!(pick_display(&[7, 3], None).unwrap(), 0);
    assert_eq!(pick_display(&[7, 3, 3], Some(3)).unwrap(), 1);
    let e = pick_display(&[7, 3], Some(4)).unwrap_err();
    assert_eq!(e.message(), "display id 4 is not connected");
    assert_eq!(
        pick_display(&[], None).unwrap_err().message(),
        "ScreenCaptureKit: no displays available to capture"
    );
}

#[test]
fn stream_settings() {
    assert_eq!(
        sck_settings(1920, 1080, 60),
        SckSettings {
            width: 1920,
            height: 1080,
            timescale: 60,
            queue_depth: 3,
            shows_cursor: true,
        }
    );
    assert_eq!(sck_settings(1, 1, 0).timescale, 1);
}

#[test]
fn conversion_reads_only_the_colour_bytes() {
    // The fourth byte of a pixel is padding.
    let mut a = I420Buffer::new(2, 2);
    let mut b = I420Buffer::new(2, 2);
    convert::to_i420(&solid(2, 2, [1, 2, 3, 0]), 8, PixelFormat::RGBX, &mut a);
    convert::to_i420(&solid(2, 2, [1, 2, 3, 255]), 8, PixelFormat::RGBX, &mut b);
    assert_eq!(a.planes(), b.planes());
}

#[test]
fn a_delivered_chunk_becomes_the_newest_frame() {
    let mut store = FrameStore::new();
    let mut dst = I420Buffer::new(2, 2);
    let white = solid(2, 2, [255, 255, 255, 0]);
    let black = solid(2, 2, [0, 0, 0, 0]);
    // Not before a format was negotiated, and not without a stride.
    assert!(!on_process(&mut store, &white, 0, 8, None, (2, 2)));
    assert!(!on_process(&mut store, &white, 0, 0, Some(PixelFormat::BGRX), (2, 2)));
    assert!(!store.fill(&mut dst));
    assert!(on_process(&mut store, &white, 0, 8, Some(PixelFormat::BGRX), (2, 2)));
    assert!(store.fill(&mut dst));
    assert_eq!(dst.planes()[0], &[235; 4]);
    assert!(on_process(&mut store, &black, 0, 8, Some(PixelFormat::BGRX), (2, 2)));
    assert!(store.fill(&mut dst));
    assert_eq!(dst.planes()[0], &[16; 4]);
    // The white frame is the spare one now.
    assert_eq!(store.scratch(2, 2).planes()[0], &[235; 4]);
}

#[test]
fn a_delivered_image_becomes_the_newest_frame() {
    let mut store = FrameStore::new();
    let mut dst = I420Buffer::new(2, 2);
    let planes = Nv12Planes {
        y: &[1, 2, 0, 3, 4, 0],
        y_stride: 3,
        uv: &[5, 6],
        uv_stride: 2,
    };
    on_sample(&mut store, Some(planes), (2, 2));
    assert!(store.fill(&mut dst));
    assert_eq!(dst.planes()[0], &[1, 2, 3, 4]);
    assert_eq!(dst.planes()[1], &[5]);
    assert_eq!(dst.planes()[2], &[6]);
    // Without planes the buffer at hand is shown as it is.
    on_sample(&mut store, None, (2, 2));
    assert!(store.fill(&mut dst));
    assert_eq!(dst.planes()[0], &[0; 4]);
}

#[test]
fn sizes_that_fit() {
    assert!(frame_fits(2560, 1440));
    assert!(frame_fits(0, u32::MAX));
    assert!(!frame_fits(u32::MAX, u32::MAX));
    assert!(nv12::holds_rows(5, 3, 2, 2));
    assert!(!nv12::holds_rows(4, 3, 2, 2));
    assert!(nv12::holds_rows(0, 3, 2, 0));
}

#[test]
fn greys_are_neutral_and_no_colour_leaves_the_range() {
    let mut last = 0;
    for grey in 0..=255u8 {
        let mut dst = I420Buffer::new(2, 2);
        to_i420(&solid(2, 2, [grey, grey, grey, 0]), 8, PixelFormat::BGRX, &mut dst);
        let [y, u, v] = dst.planes();
        assert_eq!((u[0], v[0]), (128, 128));
        assert!(y[0] >= 16 && y[0] <= 235 && y[0] >= last);
        last = y[0];
    }
    for r in [0u8, 1, 127, 254, 255] {
        for g in [0u8, 1, 127, 254, 255] {
            for b in [0u8, 1, 127, 254, 255] {
                let mut dst = I420Buffer::new(2, 2);
                to_i420(&solid(2, 2, [r, g, b, 0]), 8, PixelFormat::RGBX, &mut dst);
                let [y, u, v] = dst.planes();
                assert!(y[0] >= 16 && y[0] <= 235);
                assert!(u[0] >= 16 && u[0] <= 240);
                assert!(v[0] >= 16 && v[0] <= 240);
            }
        }
    }
}

#[test]
fn the_mean_luma_rounds_down() {
    let mut f = I420Buffer::new(2, 2);
    assert_eq!(f.mean_luma(), 0);
    f.planes_mut()[0].copy_from_slice(&[255, 255, 254, 16]);
    assert_eq!(f.mean_luma(), 195);
    assert_eq!(I420Buffer::new(0, 4).mean_luma(), 0);
}
