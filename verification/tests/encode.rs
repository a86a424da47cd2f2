//! Annex-B conversion and the encoders' settings and outcomes.

use loom::annexb::{append, push_nal, START_CODE};
use loom::encode::{
    av_status, convert, frame_bits_fit, nvenc_options, nvenc_received, nvenc_settings, properties,
    property_status, rate_fits, vt_status, x265_outcome, x265_settings, AccessUnit, EncodeError,
    EncoderConfig, FrameChain, NalUnit, OptionValue, Property, PropertyValue, Sink, SliceType,
    AVERROR_EAGAIN, K_VT_PROPERTY_NOT_SUPPORTED,
};

fn cfg() -> EncoderConfig {
    EncoderConfig {
        width: 320,
        height: 240,
        fps_num: 72,
        fps_den: 1,
        bitrate_kbps: 2000,
        bframes: 0,
        max_ref: 1,
        keyint_max: i32::MAX,
        repeat_headers: true,
        scenecut: false,
    }
}

/// One NAL, 4-byte prefix: a P slice (type 1) with a 3-byte payload.
#[test]
fn converts_length_prefix_to_start_code() {
    let src = [0, 0, 0, 4, 0x02, 0x01, 0xAA, 0xBB];

    let mut out = Vec::new();
    let keyframe = append(&src, 4, &mut out).expect("convert");

    assert!(!keyframe, "NAL type 1 is not an IDR");
    assert_eq!(out, [0, 0, 0, 1, 0x02, 0x01, 0xAA, 0xBB]);
}

/// Two NALs in one AU, the second an IDR_W_RADL (type 19: header byte 0x26).
#[test]
fn walks_every_nal_and_flags_idr() {
    let src = [
        0, 0, 0, 2, 0x4E, 0x01, // SEI (type 39)
        0, 0, 0, 2, 0x26, 0x01, // IDR_W_RADL (type 19)
    ];

    let mut out = Vec::new();
    let keyframe = append(&src, 4, &mut out).expect("convert");

    assert!(keyframe, "an IDR NAL must be reported");
    assert_eq!(
        out,
        [0, 0, 0, 1, 0x4E, 0x01, 0, 0, 0, 1, 0x26, 0x01],
        "both NALs get start codes"
    );
}

#[test]
fn honors_a_non_four_byte_length_size() {
    let src = [0x02, 0x26, 0x01]; // 2-byte NAL, 1-byte prefix

    let mut out = Vec::new();
    let keyframe = append(&src, 1, &mut out).expect("convert");

    assert!(keyframe);
    assert_eq!(out, [0, 0, 0, 1, 0x26, 0x01]);
}

#[test]
fn rejects_a_length_running_past_the_buffer() {
    let src = [0, 0, 0, 9, 0x26, 0x01]; // claims 9 bytes, has 2

    let mut out = Vec::new();
    assert!(append(&src, 4, &mut out).is_err());
}

#[test]
fn what_was_there_stays_in_front() {
    let mut out = vec![9];
    push_nal(&[1, 2], &mut out);
    assert_eq!(out, [9, 0, 0, 0, 1, 1, 2]);
    assert!(append(&[], 4, &mut out).is_ok());
    assert_eq!(out.len(), 7);
}

#[test]
fn malformed_prefixes_are_rejected() {
    for (src, width) in [
        (vec![0u8, 0, 0], 4usize), // half a prefix
        (vec![1, 0x26], 0),        // no prefix at all
        (vec![0; 40], 9),          // a prefix that no word holds
        (vec![0, 0, 0, 0], 4),     // a NAL of no bytes
    ] {
        let mut out = Vec::new();
        let e = append(&src, width, &mut out).unwrap_err();
        assert!(e.message().starts_with("malformed bitstream: "), "{src:?}");
    }
}

#[test]
fn the_first_frame_and_forced_ones_are_idr() {
    let mut chain = FrameChain::new();
    assert_eq!(chain.next(false), SliceType::Idr);
    assert_eq!(chain.next(false), SliceType::P);
    assert_eq!(chain.next(true), SliceType::Idr);
    assert_eq!(chain.next(false), SliceType::P);
}

#[test]
fn software_settings() {
    let s = x265_settings(cfg());
    assert_eq!((s.source_width, s.source_height), (320, 240));
    assert_eq!((s.fps_num, s.fps_denom), (72, 1));
    assert_eq!((s.bitrate, s.vbv_max_bitrate), (2000, 2000));
    assert_eq!(s.vbv_buffer_size, 27); // 2000 / 72
    let odd = EncoderConfig {
        fps_num: 0,
        fps_den: 0,
        bitrate_kbps: 7,
        scenecut: true,
        repeat_headers: false,
        ..cfg()
    };
    let s = x265_settings(odd);
    assert_eq!((s.fps_num, s.fps_denom, s.vbv_buffer_size), (0, 0, 7));
    assert_eq!((s.scenecut_threshold, s.repeat_headers), (40, 0));
    // Never less than one.
    let slow = EncoderConfig { bitrate_kbps: 5, ..cfg() };
    assert_eq!(x265_settings(slow).vbv_buffer_size, 1);
}

#[test]
fn software_outcomes() {
    assert!(matches!(x265_outcome(-3, &[]), Err(EncodeError::Encode(-3))));
    assert!(matches!(x265_outcome(0, &[]), Ok(None)));
    assert!(matches!(x265_outcome(1, &[]), Ok(None)));
    let nals = [
        NalUnit { kind: 39, payload: vec![0, 0, 0, 1, 5] },
        NalUnit { kind: 20, payload: vec![0, 0, 1, 6] },
    ];
    let au = x265_outcome(1, &nals).unwrap().unwrap();
    assert!(au.keyframe);
    assert_eq!(au.data, [0, 0, 0, 1, 5, 0, 0, 1, 6]);
    assert!(!x265_outcome(1, &nals[..1]).unwrap().unwrap().keyframe);
    assert!(matches!(x265_outcome(0, &nals), Ok(None)));
}

#[test]
fn libav_settings_and_options() {
    let n = nvenc_settings(cfg());
    assert_eq!((n.width, n.height), (320, 240));
    assert_eq!((n.fps_num, n.fps_den), (72, 1));
    assert_eq!(n.bit_rate, 2_000_000);
    assert_eq!(n.rc_buffer_size, 27_777);
    // The size of the buffer is cut to 32 bits.
    let huge = EncoderConfig { bitrate_kbps: u32::MAX, fps_num: 1, ..cfg() };
    assert_eq!(
        nvenc_settings(huge).rc_buffer_size,
        (u64::from(u32::MAX) * 1000) as i32
    );
    assert_eq!(
        nvenc_options(),
        [
            ("preset", OptionValue::Text("p4")),
            ("tune", OptionValue::Text("ull")),
            ("rc", OptionValue::Text("cbr")),
            ("profile", OptionValue::Text("main")),
            ("forced-idr", OptionValue::Number(1)),
            ("delay", OptionValue::Number(0)),
        ]
    );
}

#[test]
fn libav_outcomes() {
    assert!(av_status(0).is_ok());
    assert!(matches!(av_status(-22), Err(EncodeError::Av(-22))));
    assert!(matches!(nvenc_received(AVERROR_EAGAIN, 1, vec![1]), Ok(None)));
    assert!(matches!(
        nvenc_received(-5, 0, vec![]),
        Err(EncodeError::Av(-5))
    ));
    let au = nvenc_received(0, 3, vec![1, 2]).unwrap().unwrap();
    assert!(au.keyframe);
    assert_eq!(au.data, [1, 2]);
    assert!(!nvenc_received(0, 2, vec![]).unwrap().unwrap().keyframe);
}

#[test]
fn compression_session_properties() {
    let p = properties(&cfg());
    let names: Vec<&str> = p.iter().map(|p| p.name).collect();
    assert_eq!(
        names,
        [
            "RealTime",
            "PrioritizeEncodingSpeedOverQuality",
            "ExpectedFrameRate",
            "ProfileLevel",
            "AllowFrameReordering",
            "ReferenceBufferCount",
            "AllowTemporalCompression",
            "MaxKeyFrameInterval",
            "MaxKeyFrameIntervalDuration",
            "AverageBitRate",
        ]
    );
    assert!(p.iter().map(|p| p.hint).eq((0..10).map(|i| i < 3)));
    assert_eq!(p[2].value, PropertyValue::Ratio(72, 1));
    assert_eq!(p[9].value, PropertyValue::Int(2_000_000));
    let fast = EncoderConfig { bitrate_kbps: u32::MAX, bframes: 2, ..cfg() };
    let p = properties(&fast);
    assert_eq!(p[4].value, PropertyValue::Bool(true));
    assert_eq!(p[9].value, PropertyValue::Int(i32::MAX));
}

#[test]
fn only_a_missing_hint_is_forgiven() {
    let hint = Property { name: "h", hint: true, value: PropertyValue::Bool(true) };
    let must = Property { hint: false, ..hint };
    assert!(property_status(&hint, 0).is_ok());
    assert!(property_status(&hint, K_VT_PROPERTY_NOT_SUPPORTED).is_ok());
    assert!(property_status(&hint, -1).is_err());
    let e = property_status(&must, K_VT_PROPERTY_NOT_SUPPORTED).unwrap_err();
    assert!(matches!(
        e,
        EncodeError::VideoToolboxProperty { key: "h", status: -12900 }
    ));
    assert!(vt_status(0).is_ok());
    assert!(matches!(vt_status(4), Err(EncodeError::VideoToolbox(4))));
}

#[test]
fn an_idr_sample_gets_its_parameter_sets() {
    let idr = [0, 0, 0, 2, 0x26, 0x01];
    let sets = vec![vec![0x40], vec![0x42, 7]];
    let au = convert(&idr, 4, Ok(sets.clone()), true).unwrap();
    assert!(au.keyframe);
    assert_eq!(
        au.data,
        [0, 0, 0, 1, 0x40, 0, 0, 0, 1, 0x42, 7, 0, 0, 0, 1, 0x26, 0x01]
    );
    assert_eq!(au.data[..4], START_CODE);
    // Not where headers are not repeated, and not on other frames.
    let au = convert(&idr, 4, Ok(sets.clone()), false).unwrap();
    assert_eq!(au.data, [0, 0, 0, 1, 0x26, 0x01]);
    let p = [0, 0, 0, 2, 0x02, 0x01];
    let au = convert(&p, 4, Err(-5), true).unwrap();
    assert!(!au.keyframe);
    assert_eq!(au.data, [0, 0, 0, 1, 0x02, 0x01]);
    // Parameter sets that cannot be had, and a width that makes no sense.
    assert!(matches!(
        convert(&idr, 4, Err(-5), true),
        Err(EncodeError::VideoToolbox(-5))
    ));
    assert!(matches!(
        convert(&idr, -1, Ok(sets), true),
        Err(EncodeError::Bitstream(_))
    ));
}

#[test]
fn the_sink_keeps_the_first_error_and_the_last_unit() {
    let au = |b: u8| AccessUnit { keyframe: false, data: vec![b] };
    let mut s = Sink::new(true);
    assert!(matches!(s.take(), Ok(None)));
    s.on_output(0, Some(Ok(au(1))));
    s.on_output(0, Some(Ok(au(2))));
    s.on_output(0, None);
    assert_eq!(s.take().unwrap().unwrap().data, [2]);
    assert!(matches!(s.take(), Ok(None)));
    s.on_output(0, Some(Ok(au(3))));
    s.on_output(-7, Some(Ok(au(4))));
    s.on_output(-8, None);
    assert!(matches!(s.take(), Err(EncodeError::VideoToolbox(-7))));
    // The unit is still there once the error is reported.
    assert_eq!(s.take().unwrap().unwrap().data, [3]);
    s.on_output(0, Some(Err(EncodeError::Bitstream("x"))));
    assert!(matches!(s.take(), Err(EncodeError::VideoToolbox(-1))));
    s.on_output(0, Some(Err(EncodeError::VideoToolbox(12))));
    assert!(matches!(s.take(), Err(EncodeError::VideoToolbox(12))));
}

#[test]
fn encode_errors_in_words() {
    for (e, want) in [
        (EncodeError::Param, "x265 parameter allocation/setup failed"),
        (EncodeError::Preset("slow".into()), "x265 preset 'slow' rejected"),
        (EncodeError::Open, "x265_encoder_open failed"),
        (EncodeError::Encode(-2), "x265_encoder_encode returned -2"),
        (EncodeError::EncoderUnavailable, "hevc_nvenc encoder not available"),
        (EncodeError::Av(-11), "libav call returned -11"),
        (EncodeError::VideoToolbox(i32::MIN), "VideoToolbox call returned -2147483648"),
        (
            EncodeError::VideoToolboxProperty { key: "RealTime", status: 5 },
            "VideoToolbox property RealTime returned 5",
        ),
    ] {
        assert_eq!(e.message(), want);
    }
}

#[test]
fn rates_that_fit() {
    assert!(rate_fits(&cfg()));
    assert!(frame_bits_fit(&cfg()));
    let huge = EncoderConfig {
        bitrate_kbps: 0x7fff_ffff,
        fps_den: 2,
        ..cfg()
    };
    assert!(!rate_fits(&huge));
    let fast = EncoderConfig {
        bitrate_kbps: u32::MAX,
        fps_den: u32::MAX,
        ..cfg()
    };
    assert!(!frame_bits_fit(&fast));
    // 0xffffffff reads as -1 in 32 bits.
    assert!(rate_fits(&fast));
}
