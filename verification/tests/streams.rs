//! Which streams a host serves.

use loom::media::{CaptureSource, EncoderKind};
use loom::session::MediaParams;
use loom::streams::{
    extra_streams, find_display, needs_displays, resolve_streams, sized_params, DisplayInfo,
    HostCfg, StreamSpec,
};

fn displays() -> Vec<DisplayInfo> {
    vec![
        DisplayInfo { id: 7, width: 2560, height: 1440, x: 0, y: 0 },
        DisplayInfo { id: 3, width: 1920, height: 1080, x: -1920, y: 10 },
    ]
}

fn resolve(choice: &str) -> Result<Vec<StreamSpec>, String> {
    resolve_streams(choice, CaptureSource::Sck, 640, 480, true, &displays())
}

#[test]
fn main_is_one_stream_of_the_given_size() {
    let s = resolve_streams("main", CaptureSource::Synthetic, 640, 480, false, &[]).unwrap();
    assert_eq!(
        s,
        vec![StreamSpec {
            stream_id: 0,
            params: MediaParams { width: 640, height: 480, ..MediaParams::default() },
            source: CaptureSource::Synthetic,
            display: None,
            x: 0,
            y: 0,
        }]
    );
}

#[test]
fn all_displays_at_their_native_size() {
    let s = resolve("all").unwrap();
    assert_eq!(s.len(), 2);
    assert_eq!((s[0].stream_id, s[0].display), (0, Some(7)));
    assert_eq!((s[1].stream_id, s[1].display), (2, Some(3)));
    assert_eq!((s[1].params.width, s[1].params.height), (1920, 1080));
    assert_eq!((s[1].x, s[1].y), (-1920, 10));
    assert!(s.iter().all(|s| s.source == CaptureSource::Sck));
}

#[test]
fn displays_by_id_in_the_order_given() {
    let s = resolve(" 3 ,7").unwrap();
    let ids: Vec<(u16, Option<u32>)> = s.iter().map(|s| (s.stream_id, s.display)).collect();
    assert_eq!(ids, [(0, Some(3)), (2, Some(7))]);
    // One display may be named more than once.
    let ids: Vec<u16> = resolve("7,7,7").unwrap().iter().map(|s| s.stream_id).collect();
    assert_eq!(ids, [0, 2, 3]);
}

#[test]
fn what_is_wrong_is_said() {
    assert_eq!(
        resolve("7,x").unwrap_err(),
        "--displays: 'x' is not 'main', 'all', or a numeric display id"
    );
    assert_eq!(
        resolve("").unwrap_err(),
        "--displays: '' is not 'main', 'all', or a numeric display id"
    );
    assert_eq!(
        resolve("3,12").unwrap_err(),
        "--displays: display id 12 is not connected (see the list-displays example)"
    );
    assert_eq!(
        resolve_streams("all", CaptureSource::Portal, 1, 1, true, &[]).unwrap_err(),
        "--displays all requires --source sck (multi-display captures physical displays)"
    );
    assert_eq!(
        resolve_streams("all", CaptureSource::Sck, 1, 1, false, &displays()).unwrap_err(),
        "--displays: only 'main' is supported on this platform (M6.2 multi-display is macOS/SCK)"
    );
    assert_eq!(
        resolve_streams("all", CaptureSource::Sck, 1, 1, true, &[]).unwrap_err(),
        "--displays: no displays available to stream"
    );
}

#[test]
fn the_display_list_is_needed_only_for_several() {
    assert!(!needs_displays("main", CaptureSource::Sck, true));
    assert!(needs_displays("all", CaptureSource::Sck, true));
    assert!(!needs_displays("all", CaptureSource::Portal, true));
    assert!(!needs_displays("all", CaptureSource::Sck, false));
}

#[test]
fn many_streams_have_ids_of_their_own() {
    let many: Vec<DisplayInfo> = (0..300)
        .map(|id| DisplayInfo { id, width: 2, height: 2, x: 0, y: 0 })
        .collect();
    let s = resolve_streams("all", CaptureSource::Sck, 1, 1, true, &many).unwrap();
    let mut ids: Vec<u16> = s.iter().map(|s| s.stream_id).collect();
    assert_eq!(ids[0], 0);
    assert_eq!(ids[299], 300);
    assert!(!ids.contains(&1));
    ids.dedup();
    assert_eq!(ids.len(), 300);
}

#[test]
fn the_extra_streams_leave_the_primary_out() {
    let s = resolve("7,3").unwrap();
    let extra = extra_streams(&s);
    assert_eq!(extra.len(), 1);
    assert_eq!(extra[0].stream_id, 2);
    assert_eq!(extra[0].params, sized_params(1920, 1080));
    assert_eq!((extra[0].x, extra[0].y), (-1920, 10));
    assert!(extra_streams(&s[..1]).is_empty());
}

#[test]
fn lookup_and_settings() {
    assert_eq!(find_display(&displays(), 3), Some(displays()[1]));
    assert_eq!(find_display(&displays(), 4), None);
    let cfg = HostCfg {
        name: "den".into(),
        streams: resolve("all").unwrap(),
        encoder: EncoderKind::X265,
        drop_percent: 1,
    };
    let copy = cfg.clone();
    assert_eq!(copy.name, "den");
    assert_eq!(copy.streams, cfg.streams);
    assert_eq!((copy.encoder, copy.drop_percent), (EncoderKind::X265, 1));
}
