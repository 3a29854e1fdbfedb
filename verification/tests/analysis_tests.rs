use savegame_analysis::replays_analysis::{
    analyze, calculate_standard_deviation, find_fastest_note_subset,
    find_fastest_note_subset_wife_pts, parse_replay, parse_sm_float, put_deviations_into_buckets,
    ReplaysAnalysis,
};
use savegame_analysis::timing_info::TimingInfo;

fn assert_close(left: f64, right: f64, epsilon: f64) {
    let delta = (right - left).abs();
    if delta > epsilon {
        panic!("assertion failed: left {left:?} right {right:?} delta {delta:?}");
    }
}

#[test]
fn test_sm_float_parsing() {
    assert_close(
        parse_sm_float(b"-0.018477").unwrap() as f64 / 1e6,
        -0.018477,
        0.00001,
    );
    assert_close(
        parse_sm_float(b"1.000000").unwrap() as f64 / 1e6,
        1.000000,
        0.00001,
    );
    assert_close(
        parse_sm_float(b"0.919191").unwrap() as f64 / 1e6,
        0.919191,
        0.00001,
    );
}

#[test]
fn test_find_fastest_note_subset() {
    // Tests both the plain search and the point-weighted variant, whose
    // results must agree when every weight is exactly one point.
    fn test_the_functions(
        seconds: &[i64],
        min_num_notes: u64,
        max_num_notes: u64,
        expected_length: u64,
        expected_speed: f64,
    ) {
        let fastest_subset = find_fastest_note_subset(seconds, min_num_notes, max_num_notes);
        let ones: Vec<i64> = vec![1_000_000; seconds.len()];
        let fastest_wife_pts_subset =
            find_fastest_note_subset_wife_pts(seconds, min_num_notes, max_num_notes, &ones);

        assert_eq!(
            fastest_subset.start_second,
            fastest_wife_pts_subset.start_second
        );
        assert_eq!(fastest_subset.end_second, fastest_wife_pts_subset.end_second);
        assert_eq!(fastest_subset.length, fastest_wife_pts_subset.length);
        let speed = fastest_subset.speed.num as f64 / fastest_subset.speed.den as f64;
        let speed_pts =
            fastest_wife_pts_subset.speed.num as f64 / fastest_wife_pts_subset.speed.den as f64;
        assert_close(speed, speed_pts, 0.00001);

        assert_eq!(fastest_subset.length, expected_length);
        assert_close(speed, expected_speed, 0.00001);
    }

    let seconds: &[i64] = &[0, 3_000_000, 5_000_000, 6_000_000, 8_000_000];
    // Should detect [3, 5, 6).
    test_the_functions(seconds, 2, 99, 2, 0.66666666666);
    // Should detect [3, 5, 6, 8).
    test_the_functions(seconds, 3, 99, 3, 0.6);

    let seconds: &[i64] = &[
        0, 0, 1_000_000, 2_000_000, 3_000_000, 4_000_000, 4_000_000,
    ];
    // The size-6 window is the fastest, not the size-5 one.
    test_the_functions(seconds, 5, 6, 6, 1.5);
    // Capped at size 5, the found window is in fact slower.
    test_the_functions(seconds, 5, 5, 5, 1.25);
}

#[test]
fn test_calculate_standard_deviation() {
    let stddev = |buckets: Vec<u64>, range: u64| -> f64 {
        let r = calculate_standard_deviation(&buckets, range);
        (r.num as f64 / r.den as f64).sqrt()
    };
    assert_close(stddev(vec![1, 0, 1], 1), 1.4142135623730951, 0.000001);
    // Values out of the buckets: [-2, -1, -1, 0, 0, 0, 1, 1, 2].
    assert_close(stddev(vec![1, 2, 3, 2, 1], 2), 1.224744871391589, 0.000001);
    let buckets = vec![
        7, 20, 32, 93, 178, 333, 517, 829, 1050, 1230, 1363, 1253, 1072, 807, 558, 319, 178, 94,
        43, 17, 4,
    ];
    assert_close(stddev(buckets, 10), 3.00175403186607, 0.0001);

    // Asymmetric histogram: the mean (1/2 ms here) truncates toward zero
    // to a whole millisecond before the squared differences are taken.
    let r = calculate_standard_deviation(&vec![0, 1, 1], 1);
    assert_eq!(r.num, 1);
    assert_eq!(r.den, 1);

    // Fewer than two counted values: the indeterminate ratio.
    let r = calculate_standard_deviation(&vec![0, 1, 0], 1);
    assert_eq!(r.num, 0);
    assert_eq!(r.den, 0);
}

#[test]
fn test_parse_replay() {
    let bytes =
        b"H ignored header\n3840 0.020000 2\n3856 -0.010000 3:1\nbadline x y\n3870 0.005000 1:2\n3900 abc 0\n";
    let (ticks, deviations, columns) = parse_replay(bytes);
    // The header, the malformed lines and the non-tap (kind 2) are skipped.
    assert_eq!(ticks, vec![3840, 3856]);
    assert_eq!(deviations, vec![20_000, -10_000]);
    assert_eq!(columns, vec![2, 3]);
}

#[test]
fn test_put_deviations_into_buckets() {
    let deviations: Vec<i64> = vec![0, 1_600, -2_500, 200_000];
    let buckets = put_deviations_into_buckets(&deviations);
    assert_eq!(buckets.len(), 361);
    assert_eq!(buckets[180], 1); // 0 ms
    assert_eq!(buckets[182], 1); // 1.6 ms rounds to 2 ms
    assert_eq!(buckets[177], 1); // -2.5 ms rounds away from zero to -3 ms
    let total: u64 = buckets.iter().sum();
    assert_eq!(total, 3); // 200 ms is outside the histogram
}

#[test]
fn test_from_sm_bpm_string() {
    let ti = TimingInfo::from_sm_bpm_string(b"0.000=120.000000").unwrap();
    assert_eq!(ti.first_bpm_micro, 120_000_000);
    assert_eq!(ti.changes.len(), 0);

    // Unsorted input is ordered by beat; whitespace is trimmed.
    let ti = TimingInfo::from_sm_bpm_string(b" 4.0 = 240.0 , 0.0 = 120.0 ").unwrap();
    assert_eq!(ti.first_bpm_micro, 120_000_000);
    assert_eq!(ti.changes.len(), 1);
    assert_eq!(ti.changes[0].beat_micro, 4_000_000);
    assert_eq!(ti.changes[0].bpm_micro, 240_000_000);

    // Exponent-form numbers parse like any other decimal.
    let ti = TimingInfo::from_sm_bpm_string(b"0=1.2e2").unwrap();
    assert_eq!(ti.first_bpm_micro, 120_000_000);

    assert!(TimingInfo::from_sm_bpm_string(b"").is_err());
    assert!(TimingInfo::from_sm_bpm_string(b"0=120,5").is_err());
    assert!(TimingInfo::from_sm_bpm_string(b"1=120").is_err());

    // Zero and negative tempos parse as written, but such a map cannot
    // drive conversion.
    let ti = TimingInfo::from_sm_bpm_string(b"0=0").unwrap();
    assert_eq!(ti.first_bpm_micro, 0);
    assert!(!ti.is_wf());
    let ti = TimingInfo::from_sm_bpm_string(b"0=-120").unwrap();
    assert_eq!(ti.first_bpm_micro, -120_000_000);
    assert!(!ti.is_wf());
    assert!(TimingInfo::from_sm_bpm_string(b"0=120").unwrap().is_wf());

    // Runs of equal beats collapse to the last entry, so beats come out
    // strictly increasing; a zero-length segment would hand over to that
    // entry immediately anyway.
    let ti = TimingInfo::from_sm_bpm_string(b"0=120,5=100,5=200").unwrap();
    assert_eq!(ti.changes.len(), 1);
    assert_eq!(ti.changes[0].beat_micro, 5_000_000);
    assert_eq!(ti.changes[0].bpm_micro, 200_000_000);
    let ti = TimingInfo::from_sm_bpm_string(b"0=60,0=120").unwrap();
    assert_eq!(ti.first_bpm_micro, 120_000_000);
    assert_eq!(ti.changes.len(), 0);
}

#[test]
fn test_ticks_to_seconds() {
    // 120 bpm: one beat (48 ticks) is half a second.
    let ti = TimingInfo::from_sm_bpm_string(b"0=120").unwrap();
    let seconds = ti.ticks_to_seconds(&vec![0, 48, 96]);
    assert_eq!(seconds, vec![0, 500_000, 1_000_000]);

    // Doubling to 240 bpm at beat 4: a beat is a quarter second there.
    let ti = TimingInfo::from_sm_bpm_string(b"0=120,4=240").unwrap();
    let seconds = ti.ticks_to_seconds(&vec![0, 48 * 4, 48 * 6]);
    assert_eq!(seconds, vec![0, 2_000_000, 2_500_000]);
}

#[test]
fn test_ticks_to_seconds_monotone() {
    let ti = TimingInfo::from_sm_bpm_string(b"0=93.7,13.5=187.001,22=93.7").unwrap();
    let ticks: Vec<u64> = (0..400u64).map(|i| i * 7).collect();
    let seconds = ti.ticks_to_seconds(&ticks);
    assert_eq!(seconds.len(), ticks.len());
    for w in seconds.windows(2) {
        assert!(w[0] <= w[1]);
    }
}

#[test]
fn test_analyze() {
    // Ticks 3840 and 3850 are out of order relative to 3860's predecessor;
    // column 2 takes a combo break.
    let bytes = b"3860 0.010000 0\n3840 0.015000 1\n3850 0.100000 2\n3900 0.020000 0\n";
    let ti = TimingInfo::from_sm_bpm_string(b"0=120").unwrap();
    let score = analyze(bytes, Some(&ti), 1_000_000);
    assert_eq!(score.notes_per_column, vec![2, 1, 1, 0]);
    assert_eq!(score.cbs_per_column, vec![0, 0, 1, 0]);
    // The marvelous run of two is broken by the 100 ms hit; the trailing
    // run is one.
    assert_eq!(score.longest_mcombo, 2);
    // One of three adjacent pairs runs backward.
    assert_eq!(score.manipulation.num, 1);
    assert_eq!(score.manipulation.den, 4);
    // Mean over the three non-break deviations.
    assert_eq!(score.deviation_mean.num, 10_000 + 15_000 + 20_000);
    assert_eq!(score.deviation_mean.den, 3);
    assert_eq!(score.num_deviation_notes, 3);
    // Too few notes for a hundred-note combo window, so the searches come
    // back empty-handed but present.
    assert!(score.fastest_combo.is_some());
    assert_eq!(score.fastest_combo.unwrap().length, 0);
    assert!(score.fastest_jack.is_none());
}

#[test]
fn test_create_batch() {
    let bytes = b"3860 0.010000 0\n3840 0.015000 1\n3850 0.100000 2\n3900 0.020000 0\n";
    let score = analyze(bytes, None, 1_000_000);
    let entries = vec![
        None,
        Some(("Sfirst".to_owned(), score, 990_000u64)),
        Some((
            "Ssecond".to_owned(),
            analyze(b"100 0.001000 0\n", None, 1_000_000),
            900_000u64,
        )),
    ];
    let batch = ReplaysAnalysis::create(entries);
    assert_eq!(batch.score_indices, vec![1, 2]);
    assert_eq!(batch.manipulations.len(), 2);
    assert_eq!(batch.notes_per_column, vec![3, 1, 1, 0]);
    assert_eq!(batch.cbs_per_column, vec![0, 0, 1, 0]);
    assert_eq!(batch.longest_mcombo.0, 2);
    assert_eq!(batch.longest_mcombo.1, "Sfirst");
    // Only the second entry is below the 93% cutoff.
    let sub_total: u64 = batch.sub_93_offset_buckets.iter().sum();
    assert_eq!(sub_total, 1);
    let total: u64 = batch.offset_buckets.iter().sum();
    assert_eq!(total, 5);
}

#[test]
fn test_analyze_fastest_windows() {
    // 120 notes, one every tenth of a second (600 bpm, one tick-beat each),
    // all hit a millisecond late on column 0.
    let mut log = String::new();
    for i in 0..120u64 {
        log.push_str(&format!("{} 0.001000 0\n", i * 48));
    }
    let ti = TimingInfo::from_sm_bpm_string(b"0=600").unwrap();
    let score = analyze(log.as_bytes(), Some(&ti), 1_000_000);

    // Every window runs at exactly ten notes per second; the tie rule keeps
    // the last and largest window, sized one under the note count.
    let combo = score.fastest_combo.unwrap();
    assert_eq!(combo.length, 119);
    assert_eq!(combo.speed.num as f64 / combo.speed.den as f64, 10.0);
    assert_eq!(combo.start_second, 0);
    assert_eq!(combo.end_second, 11_900_000);

    // The jack window is thirty notes; equal rates keep the first window.
    let jack = score.fastest_jack.unwrap();
    assert_eq!(jack.length, 30);
    assert_eq!(jack.speed.num as f64 / jack.speed.den as f64, 10.0);
    assert_eq!(jack.start_second, 1_000);
    assert_eq!(jack.end_second, 3_001_000);

    // Millisecond hits are worth the full point, so the weighted rate is
    // the plain rate.
    let acc = score.fastest_acc.unwrap();
    assert_eq!(acc.speed.num as f64 / acc.speed.den as f64, 10.0);
}

#[test]
fn test_analyze_rate_scales_speed() {
    let mut log = String::new();
    for i in 0..120u64 {
        log.push_str(&format!("{} 0.001000 0\n", i * 48));
    }
    let ti = TimingInfo::from_sm_bpm_string(b"0=600").unwrap();
    let score = analyze(log.as_bytes(), Some(&ti), 1_500_000);
    let combo = score.fastest_combo.unwrap();
    assert_eq!(combo.speed.num as f64 / combo.speed.den as f64, 15.0);
    let jack = score.fastest_jack.unwrap();
    assert_eq!(jack.speed.num as f64 / jack.speed.den as f64, 15.0);
}

#[test]
fn test_create_record_attribution() {
    // Two replays with identical speeds: only strict improvement replaces a
    // record, so the earlier score keeps it.
    let mut log = String::new();
    for i in 0..120u64 {
        log.push_str(&format!("{} 0.001000 0\n", i * 48));
    }
    let ti = TimingInfo::from_sm_bpm_string(b"0=600").unwrap();
    let score_a = analyze(log.as_bytes(), Some(&ti), 1_000_000);
    let score_b = analyze(log.as_bytes(), Some(&ti), 1_000_000);
    let batch = ReplaysAnalysis::create(vec![
        Some(("Searlier".to_owned(), score_a, 999_000u64)),
        Some(("Slater".to_owned(), score_b, 999_000u64)),
    ]);
    assert_eq!(batch.fastest_combo_scorekey, "Searlier");
    assert_eq!(batch.fastest_jack_scorekey, "Searlier");
    assert_eq!(batch.fastest_acc_scorekey, "Searlier");
    assert_eq!(batch.fastest_combo.length, 119);
}
