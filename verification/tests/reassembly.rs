//! The client receive model.

use loom::datagram::{decode, fragment};
use loom::reassembly::{play, Counters, Event, Fragment, Reassembler};

fn frag(frame_seq: u32, frag_index: u16, frag_count: u16, keyframe: bool) -> Fragment {
    Fragment {
        frame_seq,
        frag_index,
        frag_count,
        keyframe,
    }
}

#[test]
fn happy_path_delivers_in_order() {
    let mut r = Reassembler::new();
    r.push(0, frag(0, 0, 2, true));
    r.push(1, frag(0, 1, 2, true));
    r.push(14, frag(1, 0, 1, false));
    r.push(28, frag(2, 0, 1, false));
    assert_eq!(
        r.events(),
        &[
            Event::Deliver { t_ms: 1, frame_seq: 0, keyframe: true },
            Event::Deliver { t_ms: 14, frame_seq: 1, keyframe: false },
            Event::Deliver { t_ms: 28, frame_seq: 2, keyframe: false },
        ]
    );
    assert_eq!(r.counters(), &Counters::default());
}

#[test]
fn duplicate_fragment_is_idempotent() {
    let mut r = Reassembler::new();
    r.push(0, frag(0, 0, 1, true));
    // frame 2 arrives twice (dup), then frame 1 fills the gap late.
    r.push(5, frag(2, 0, 1, false));
    r.push(6, frag(2, 0, 1, false));
    r.push(7, frag(1, 0, 1, false));
    assert_eq!(r.counters().stale_fragments, 2); // dup + late frame 1
    assert_eq!(r.counters().discarded_gap, 1); // frame 2 had a gap
}

#[test]
fn gap_triggers_single_idr_then_keyframe_clears_it() {
    let mut r = Reassembler::new();
    r.push(0, frag(0, 0, 1, true));
    r.push(14, frag(2, 0, 1, false)); // gap -> discard + idr
    r.push(200, frag(3, 0, 1, false)); // still outstanding -> no idr
    r.push(900, frag(6, 0, 1, true)); // keyframe -> clears outstanding
    r.push(914, frag(7, 0, 1, false)); // now in sequence -> delivered
    let idrs = r
        .events()
        .iter()
        .filter(|e| matches!(e, Event::IdrRequest { .. }))
        .count();
    assert_eq!(idrs, 1);
    assert!(matches!(
        r.events().last(),
        Some(Event::Deliver { frame_seq: 7, .. })
    ));
}

#[test]
fn window_holds_at_most_two_incomplete() {
    let mut r = Reassembler::new();
    r.push(0, frag(0, 0, 1, true));
    r.push(10, frag(1, 0, 2, false)); // incomplete
    r.push(11, frag(2, 0, 2, false)); // incomplete
    r.push(12, frag(3, 0, 2, false)); // evicts frame 1
    assert_eq!(r.counters().dropped_incomplete, 1);
}

#[test]
fn an_idr_request_names_the_last_decoded_frame() {
    let mut r = Reassembler::new();
    r.push(0, frag(4, 0, 1, true));
    r.push(10, frag(6, 0, 1, false));
    assert_eq!(
        r.events()[1],
        Event::IdrRequest { t_ms: 10, last_good: 4 }
    );
    // Nothing decoded yet: zero.
    let mut r = Reassembler::new();
    r.push(3, frag(9, 0, 1, false));
    assert_eq!(r.events(), &[Event::IdrRequest { t_ms: 3, last_good: 0 }]);
}

#[test]
fn requests_keep_a_quarter_second_apart() {
    let trace = [
        (0, frag(0, 0, 1, true)),
        (10, frag(2, 0, 1, false)),  // request at 10
        (20, frag(3, 0, 1, true)),   // answers it
        (100, frag(5, 0, 1, false)), // gap again, but too soon
        (259, frag(6, 0, 1, false)), // still too soon
        (260, frag(7, 0, 1, false)), // request at 260
    ];
    let r = play(&trace);
    let asked: Vec<i64> = r
        .events()
        .iter()
        .filter_map(|e| match e {
            Event::IdrRequest { t_ms, .. } => Some(*t_ms),
            Event::Deliver { .. } => None,
        })
        .collect();
    assert_eq!(asked, [10, 260]);
    assert_eq!(r.counters().discarded_gap, 4);
}

#[test]
fn extreme_times_do_not_disturb() {
    let trace = [
        (i64::MIN, frag(0, 0, 1, false)),
        (i64::MAX, frag(1, 0, 1, true)),
        (i64::MIN, frag(3, 0, 1, false)),
    ];
    let r = play(&trace);
    assert_eq!(
        r.events(),
        &[
            Event::IdrRequest { t_ms: i64::MIN, last_good: 0 },
            Event::Deliver { t_ms: i64::MAX, frame_seq: 1, keyframe: true },
        ]
    );
}

#[test]
fn completing_a_frame_drops_older_incomplete_ones() {
    let mut r = Reassembler::new();
    r.push(0, frag(1, 0, 2, true));
    r.push(1, frag(2, 0, 2, true));
    r.push(2, frag(2, 1, 2, true));
    assert_eq!(r.counters().dropped_incomplete, 1);
    assert_eq!(
        r.events(),
        &[Event::Deliver { t_ms: 2, frame_seq: 2, keyframe: true }]
    );
    // What was left of frame 1 is stale now.
    r.push(3, frag(1, 1, 2, true));
    assert_eq!(r.counters().stale_fragments, 1);
}

#[test]
fn a_fragment_older_than_a_full_window_is_stale() {
    let mut r = Reassembler::new();
    r.push(0, frag(5, 0, 2, true));
    r.push(0, frag(6, 0, 2, true));
    r.push(0, frag(4, 0, 2, true));
    assert_eq!(r.counters().stale_fragments, 1);
    assert_eq!(r.counters().dropped_incomplete, 0);
}

#[test]
fn a_keyframe_in_any_fragment_order_is_delivered_once() {
    for order in [[0u16, 1, 2], [2, 1, 0], [1, 2, 0]] {
        let mut r = Reassembler::new();
        for i in order {
            r.push(8, frag(3, i, 3, true));
            r.push(8, frag(3, i, 3, true));
        }
        assert_eq!(
            r.events(),
            &[Event::Deliver { t_ms: 8, frame_seq: 3, keyframe: true }]
        );
    }
}

#[test]
fn a_trace_is_what_its_pushes_are() {
    let trace = [
        (0, frag(0, 0, 1, true)),
        (9, frag(2, 0, 1, false)),
        (12, frag(3, 0, 2, true)),
        (13, frag(3, 1, 2, true)),
    ];
    let mut r = Reassembler::default();
    for (t, f) in trace {
        r.push(t, f);
    }
    let all = play(&trace);
    assert_eq!(all.events(), r.events());
    assert_eq!(all.counters(), r.counters());
    assert_eq!(play(&[]).events().len(), 0);
}

#[test]
fn a_shuffled_keyframe_survives_the_network() {
    let sent = fragment(0, 7, true, &vec![9u8; 4000]);
    assert_eq!(sent.len(), 3);
    let arrive = |order: &[usize]| -> Vec<(i64, Fragment)> {
        order
            .iter()
            .enumerate()
            .map(|(t, i)| {
                let h = decode(&sent[*i]).unwrap().header;
                (t as i64, frag(h.frame_seq, h.frag_index, h.frag_count, h.keyframe))
            })
            .collect()
    };
    let delivery = |t_ms: i64| Event::Deliver { t_ms, frame_seq: 7, keyframe: true };
    assert_eq!(play(&arrive(&[2, 0, 1])).events(), &[delivery(2)]);
    assert_eq!(play(&arrive(&[1, 1, 2, 1, 0, 0, 2])).events(), &[delivery(4)]);
    assert_eq!(play(&arrive(&[2, 0, 2, 0])).events(), &[]);
}

#[test]
fn a_keyframe_ends_a_freeze() {
    let mut r = Reassembler::new();
    r.push(0, frag(1, 0, 1, false));
    assert_eq!(r.events(), &[Event::IdrRequest { t_ms: 0, last_good: 0 }]);
    r.push(10, frag(5, 0, 1, true));
    r.push(20, frag(6, 0, 1, false));
    assert_eq!(
        &r.events()[1..],
        &[
            Event::Deliver { t_ms: 10, frame_seq: 5, keyframe: true },
            Event::Deliver { t_ms: 20, frame_seq: 6, keyframe: false },
        ]
    );
}

#[test]
fn requests_name_the_last_delivery_and_newer_keyframes_answer_them() {
    let r = play(&[
        (0, frag(4, 0, 1, true)),
        (10, frag(6, 0, 1, false)),
        (20, frag(7, 0, 1, true)),
        (300, frag(9, 0, 1, false)),
    ]);
    assert_eq!(
        r.events(),
        &[
            Event::Deliver { t_ms: 0, frame_seq: 4, keyframe: true },
            Event::IdrRequest { t_ms: 10, last_good: 4 },
            Event::Deliver { t_ms: 20, frame_seq: 7, keyframe: true },
            Event::IdrRequest { t_ms: 300, last_good: 7 },
        ]
    );
}
