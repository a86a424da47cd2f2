//! The media loop, its configuration and the test pattern.

use loom::constraints;
use loom::datagram::{decode, HEADER_LEN, MAX_PAYLOAD};
use loom::encode::{
    nvenc_settings, properties, x265_settings, AccessUnit, PropertyValue,
};
use loom::media::{
    pace, stream_config, CaptureSource, DropInjector, FrameAction, Pipeline, TickAction,
};
use loom::session::MediaParams;
use loom::testpattern::TestPattern;

#[test]
fn drop_injector_off_never_drops() {
    let mut d = DropInjector::new(0);
    assert!((0..1000).all(|_| !d.should_drop()));
}

#[test]
fn drop_injector_rate_is_in_the_ballpark() {
    let mut d = DropInjector::new(10);
    let dropped = (0..10_000).filter(|_| d.should_drop()).count();
    // Deterministic seed; just assert it's roughly 10% (5%..15%).
    assert!((500..1500).contains(&dropped), "dropped {dropped}/10000");
}

#[test]
fn render_fills_and_moves() {
    let mut p = TestPattern::new(320, 240);
    p.render(0);
    let f0: Vec<u8> = p.planes()[0].to_vec();
    p.render(1);
    let f1 = p.planes()[0];
    // A non-border interior pixel must change frame-to-frame (gradient moved).
    let idx = 100 * 320 + 100;
    assert_ne!(f0[idx], f1[idx]);
}

#[test]
fn parity_border_flips() {
    let mut p = TestPattern::new(64, 48);
    p.render(0);
    assert_eq!(p.planes()[0][0], 235); // even: white corner
    p.render(1);
    assert_eq!(p.planes()[0][0], 16); // odd: black corner
}

#[test]
fn constraints_are_section5() {
    assert_eq!(constraints::BFRAMES, 0, "no B-frames");
    assert_eq!(constraints::MAX_REF, 1, "single reference");
    assert!(constraints::REPEAT_HEADERS, "repeat VPS/SPS/PPS");
    assert!(!constraints::SCENECUT, "no scenecut IDRs");
}

#[test]
fn the_injector_draws_a_fixed_sequence() {
    let mut d = DropInjector::new(100);
    assert!(d.should_drop());
    // One xorshift step from the seed.
    let mut x = 0x9E37_79B9_7F4A_7C15u64;
    x ^= x << 13;
    x ^= x >> 7;
    x ^= x << 17;
    assert_eq!(d.state, x);
    let mut e = DropInjector::new(100);
    e.should_drop();
    assert_eq!(d, e);
    // At zero nothing is drawn.
    let mut z = DropInjector::new(0);
    z.should_drop();
    assert_eq!(z, DropInjector::new(0));
}

#[test]
fn pattern_planes_and_strides() {
    let mut p = TestPattern::new(320, 240);
    p.render(7);
    assert_eq!(p.strides(), [320, 160, 160]);
    assert_eq!(p.planes()[0].len(), 320 * 240);
    assert_eq!(p.planes()[1].len(), 160 * 120);
    assert_eq!(p.planes()[2].len(), 160 * 120);
    let mut again = TestPattern::new(320, 240);
    again.render(7);
    assert_eq!(p.planes(), again.planes());
    again.render(u32::MAX);
    assert_ne!(p.planes(), again.planes());
}

#[test]
fn every_encoder_is_told_the_same_shape() {
    let cfg = stream_config(&MediaParams::default());
    assert_eq!((cfg.width, cfg.height), (2560, 1440));
    assert_eq!((cfg.fps_num, cfg.fps_den), (72, 1));
    assert_eq!(cfg.bitrate_kbps, 60_000);
    let x = x265_settings(cfg);
    assert_eq!((x.bframes, x.max_num_references), (0, 1));
    assert_eq!((x.keyframe_max, x.keyframe_min), (i32::MAX, i32::MAX));
    assert_eq!((x.scenecut_threshold, x.repeat_headers), (0, 1));
    assert_eq!(x.vbv_buffer_size, 833);
    let n = nvenc_settings(cfg);
    assert_eq!((n.max_b_frames, n.refs, n.gop_size), (0, 1, i32::MAX));
    assert_eq!(n.bit_rate, 60_000_000);
    assert_eq!(n.rc_buffer_size, 833_333);
    let v = properties(&cfg);
    assert_eq!(v[4].value, PropertyValue::Bool(false));
    assert_eq!(v[7].value, PropertyValue::Int(i32::MAX));
    assert_eq!(v[9].value, PropertyValue::Int(60_000_000));
}

#[test]
fn stream_parameters_are_taken_in_32_bits() {
    let p = MediaParams {
        width: 0x1_0000_0500,
        ..MediaParams::default()
    };
    assert_eq!(stream_config(&p).width, 0x500);
}

fn captured() -> Pipeline {
    Pipeline::new(2, CaptureSource::Sck, MediaParams::default())
}

#[test]
fn a_synthetic_pipeline_always_has_a_frame() {
    let mut p = Pipeline::new(0, CaptureSource::Synthetic, MediaParams::default());
    assert_eq!(p.begin_tick(false, &[]), TickAction::Poll);
    assert_eq!(p.polled(0), TickAction::Produce);
    assert_eq!(
        p.frame_ready(false),
        FrameAction::Encode { pts: 0, force_idr: false }
    );
}

#[test]
fn a_captured_frame_repeats_until_the_source_is_opened_anew() {
    let mut p = captured();
    assert_eq!(p.polled(0), TickAction::Produce);
    assert_eq!(p.frame_ready(false), FrameAction::Wait);
    assert!(matches!(p.frame_ready(true), FrameAction::Encode { .. }));
    assert!(matches!(p.frame_ready(false), FrameAction::Encode { .. }));
    p.reopened(MediaParams::default(), true);
    assert_eq!(p.frame_ready(false), FrameAction::Wait);
}

#[test]
fn idr_requests_collapse_into_one() {
    let mut p = captured();
    p.polled(3);
    assert_eq!(
        p.frame_ready(true),
        FrameAction::Encode { pts: 0, force_idr: true }
    );
    p.polled(0);
    assert_eq!(
        p.frame_ready(false),
        FrameAction::Encode { pts: 0, force_idr: false }
    );
}

#[test]
fn a_reconfiguration_takes_the_newest_size_and_leads_with_an_idr() {
    let mut p = captured();
    p.frame_ready(true);
    let au = AccessUnit { keyframe: false, data: vec![1] };
    p.packetize(0, &au);
    let small = MediaParams { width: 640, ..MediaParams::default() };
    let large = MediaParams { width: 1920, ..MediaParams::default() };
    assert_eq!(
        p.begin_tick(false, &[small, large]),
        TickAction::Reopen(large)
    );
    assert_eq!(p.reopened(large, true), TickAction::Produce);
    assert_eq!(p.params, large);
    assert_eq!(
        p.frame_ready(true),
        FrameAction::Encode { pts: 1, force_idr: true }
    );
    // What could not be opened ends the pipeline.
    assert_eq!(p.reopened(small, false), TickAction::Stop);
}

#[test]
fn a_closed_connection_stops_the_pipeline() {
    assert_eq!(
        captured().begin_tick(true, &[MediaParams::default()]),
        TickAction::Stop
    );
}

#[test]
fn an_access_unit_becomes_datagrams() {
    let mut p = Pipeline::new(0, CaptureSource::Synthetic, MediaParams::default());
    let data: Vec<u8> = (0..3000).map(|i| i as u8).collect();
    let au = AccessUnit { keyframe: true, data: data.clone() };
    let parts = p.packetize(0x0102_0304_0506_0708, &au);
    assert_eq!(parts.len(), (8 + 3000 + MAX_PAYLOAD - 1) / MAX_PAYLOAD);
    let mut body = Vec::new();
    for part in &parts {
        let d = decode(part).unwrap();
        assert!(d.header.keyframe);
        assert_eq!(d.header.frame_seq, 0);
        body.extend_from_slice(&part[HEADER_LEN..]);
    }
    assert_eq!(body[..8], [1, 2, 3, 4, 5, 6, 7, 8]);
    assert_eq!(body[8..], data[..]);
    assert_eq!(p.frame_seq, 1);
    p.frame_seq = u32::MAX;
    p.packetize(0, &au);
    assert_eq!(p.frame_seq, 0);
}

#[test]
fn pacing_sleeps_until_the_deadline_and_drops_debt() {
    assert_eq!(pace(100, 14, 105), (114, 9));
    assert_eq!(pace(100, 14, 114), (114, 0));
    assert_eq!(pace(100, 14, 500), (500, 0));
}

#[test]
fn a_run_numbers_its_access_units_across_reconfigurations() {
    let params = MediaParams::default();
    let mut p = Pipeline::new(2, CaptureSource::Synthetic, params);
    let smaller = MediaParams { width: 1280, height: 720, ..params };
    // Reconfigurations, IDR requests that come in, whether a unit comes out, and what is forced.
    let ticks: Vec<(Vec<MediaParams>, usize, bool, bool)> = vec![
        (vec![], 0, true, false),
        (vec![], 3, true, true),
        (vec![], 0, false, false),
        (vec![params, smaller], 1, true, true),
        (vec![], 0, true, true),
        (vec![], 0, true, false),
    ];
    let mut pending = 0;
    let mut numbers = Vec::new();
    for (reconfigs, asked, comes_out, forced) in ticks {
        pending += asked;
        match p.begin_tick(false, &reconfigs) {
            TickAction::Reopen(new) => {
                assert_eq!(p.reopened(new, true), TickAction::Produce);
            }
            TickAction::Poll => {
                assert_eq!(p.polled(pending), TickAction::Produce);
                pending = 0;
            }
            other => panic!("{other:?}"),
        }
        assert_eq!(
            p.frame_ready(true),
            FrameAction::Encode { pts: numbers.len() as i64, force_idr: forced }
        );
        if comes_out {
            let au = AccessUnit { keyframe: forced, data: vec![1, 2, 3] };
            for d in p.packetize(77, &au) {
                let h = loom::datagram::decode_with_streams(&d, &[2]).unwrap().header;
                assert_eq!((h.stream_id, h.keyframe), (2, forced));
                assert_eq!(&d[HEADER_LEN..], &[0, 0, 0, 0, 0, 0, 0, 77, 1, 2, 3]);
                numbers.push(h.frame_seq);
            }
        }
    }
    assert_eq!(numbers, vec![0, 1, 2, 3, 4]);
    assert_eq!(p.params, smaller);
}

#[test]
fn a_tenth_of_the_first_ten_thousand() {
    let mut d = DropInjector::new(10);
    assert_eq!((0..10_000).filter(|_| d.should_drop()).count(), 998);
    for percent in [100, 250] {
        let mut all = DropInjector::new(percent);
        assert!((0..1000).all(|_| all.should_drop()));
    }
    let (mut a, mut b) = (DropInjector::new(37), DropInjector::new(37));
    assert!((0..1000).all(|_| a.should_drop() == b.should_drop()));
}

#[test]
fn an_idr_stays_owed_until_there_is_a_frame() {
    let params = MediaParams::default();
    let forced = |a: FrameAction| match a {
        FrameAction::Encode { force_idr, .. } => force_idr,
        FrameAction::Wait => panic!("no frame"),
    };
    // A request that comes before the first captured frame.
    let mut p = captured();
    p.polled(1);
    assert_eq!(p.frame_ready(false), FrameAction::Wait);
    p.polled(0);
    assert_eq!(p.frame_ready(false), FrameAction::Wait);
    p.polled(0);
    assert!(forced(p.frame_ready(true)));
    p.polled(0);
    assert!(!forced(p.frame_ready(false)));
    // A reconfiguration whose first frame takes its time.
    p.reopened(params, true);
    assert_eq!(p.frame_ready(false), FrameAction::Wait);
    p.polled(0);
    assert!(forced(p.frame_ready(true)));
    p.polled(0);
    assert!(!forced(p.frame_ready(true)));
}
