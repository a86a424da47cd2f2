//! Clock synchronization.

use loom::clocksync::{estimates, ClockFilter, Estimate, WINDOW};

#[test]
fn basic_arithmetic() {
    let mut f = ClockFilter::new();
    let e = f.push(1000, 501_500, 501_540, 2100);
    assert_eq!(e.rtt, 1060);
    assert_eq!(e.offset, 499_970);
}

#[test]
fn min_rtt_becomes_best() {
    let mut f = ClockFilter::new();
    f.push(1000, 501_500, 501_540, 2100); // rtt 1060
    let e2 = f.push(501_000, 1_002_200, 1_002_240, 502_400); // rtt 1360
    assert_eq!(e2.rtt, 1060); // previous min still wins
    let e3 = f.push(1_001_000, 1_501_900, 1_501_940, 1_002_000); // rtt 960
    assert_eq!(e3.rtt, 960);
    assert_eq!(e3.offset, 500_420);
}

#[test]
fn negative_offset_floors() {
    let mut f = ClockFilter::new();
    let e = f.push(0, -250_000, -249_960, 1000);
    assert_eq!(e.rtt, 960);
    assert_eq!(e.offset, -250_480);
}

#[test]
fn floor_division_rounds_toward_negative_infinity() {
    // Construct a sum that is odd and negative: ((t1-t0)+(t2-t3)) = -3 -> -2.
    let mut f = ClockFilter::new();
    let e = f.push(0, 0, 0, 3); // (0-0)+(0-3) = -3, floor(-1.5) = -2
    assert_eq!(e.offset, -2);
}

#[test]
fn tie_breaks_to_more_recent_sample() {
    let mut f = ClockFilter::new();
    // Two samples with equal rtt but different offsets; the later wins.
    f.push(0, 1000, 1040, 100); // rtt = (100-0)-(1040-1000) = 60
    let e = f.push(0, 2000, 2040, 100); // rtt = 60 as well, offset differs
    assert_eq!(e.rtt, 60);
    // offset of the second sample: ((2000-0)+(2040-100))/2 = (2000+1940)/2 = 1970
    assert_eq!(e.offset, 1970);
}

#[test]
fn window_evicts_old_minimum() {
    let mut f = ClockFilter::new();
    // First sample has a very low rtt; then 16 samples with higher rtt push
    // it out of the 16-window, so the estimate must degrade.
    let e0 = f.push(0, 500, 540, 100); // rtt = (100-0)-(540-500) = 60
    assert_eq!(e0.rtt, 60);
    for i in 0..WINDOW {
        let base = 1_000_000 + (i as i64) * 1000;
        f.push(base, base + 500, base + 600, base + 200);
        // rtt = (200)-(600-500) = 100
    }
    // The low-rtt sample has been evicted; best remaining rtt is 100.
    let e = f.push(9_000_000, 9_000_500, 9_000_600, 9_000_200);
    assert_eq!(e.rtt, 100);
}

#[test]
fn the_minimum_lasts_for_sixteen_samples() {
    let mut series = vec![(0i64, 500i64, 540i64, 100i64)];
    for i in 0..16i64 {
        let base = 1_000_000 + i * 1000;
        series.push((base, base + 500, base + 600, base + 200));
    }
    let out = estimates(&series);
    assert_eq!(out.len(), 17);
    // It is the best of the last 16 up to and including the 16th sample.
    assert_eq!(out[15], Estimate { rtt: 60, offset: 470 });
    assert_eq!(out[16].rtt, 100);
    assert_eq!(out[16].offset, 450);
}

#[test]
fn a_series_is_what_its_pushes_are() {
    let series = [
        (1000, 501_500, 501_540, 2100),
        (501_000, 1_002_200, 1_002_240, 502_400),
        (1_001_000, 1_501_900, 1_501_940, 1_002_000),
    ];
    let mut f = ClockFilter::default();
    let one_by_one: Vec<Estimate> = series
        .iter()
        .map(|s| f.push(s.0, s.1, s.2, s.3))
        .collect();
    assert_eq!(estimates(&series), one_by_one);
    // A copy goes on from where the filter is.
    let mut g = f.clone();
    assert_eq!(g.push(0, 0, 0, 5000), f.push(0, 0, 0, 5000));
}
