use savegame_analysis::numeric::erf_nano;
use savegame_analysis::wife::{apply, wife2, wife3, Wife, Wife2, Wife3};

fn assert_close(left: f64, right: f64, epsilon: f64) {
    let delta = (right - left).abs();
    if delta > epsilon {
        panic!("assertion failed: left {left:?} right {right:?} delta {delta:?}");
    }
}

#[test]
fn test_ett_erf() {
    let cases: [(f64, f64); 7] = [
        (-2.0, -0.995322265019),
        (-1.0, -0.84270079295),
        (0.0, 0.0),
        (1.0, 0.84270079295),
        (1.5, 0.966105146475),
        (2.0, 0.995322265019),
        (4.0, 0.999999984583),
    ];
    for (x, expected_value) in cases.iter() {
        let x_nano = (x * 1e9) as i64;
        assert_close(erf_nano(x_nano) as f64 / 1e9, *expected_value, 0.0001);
    }
}

#[test]
fn test_wife3() {
    let cases: [(f64, f64); 9] = [
        (0.004, 1.0000000000),
        (0.014, 0.9985134006),
        (0.024, 0.9893599749),
        (0.054, 0.5068465471),
        (0.064, 0.0496764779),
        (0.074, -0.2152173966),
        (0.174, -2.6065220833),
        (0.184, -2.7500000000),
        (0.194, -2.7500000000),
    ];
    for (x, expected_value) in cases.iter() {
        let micros = (x * 1e6).round() as i64;
        assert_close(wife3(micros) as f64 / 1e6, *expected_value, 0.0001);
    }
}

#[test]
fn test_wife3_sign_immaterial() {
    for d in [0i64, 4_000, 30_000, 64_000, 100_000, 200_000] {
        assert_eq!(wife3(d), wife3(-d));
    }
}

#[test]
fn test_wife2_endpoints() {
    assert_eq!(wife2(0), 1_000_000);
    assert_eq!(wife2(2_000_000), -4_000_000);
    // A small deviation is worth nearly everything, a huge one nearly the
    // miss weight.
    assert!(wife2(2_000) > 990_000);
    assert!(wife2(500_000) < -3_900_000);
}

#[test]
fn test_apply_all_misses_is_miss_weight() {
    // Every deviation is the one-second miss sentinel, so the mean is the
    // miss weight exactly.
    let deviations: Vec<i64> = vec![1_000_000; 7];
    let r = apply::<Wife3>(&deviations, 0, 0);
    assert_eq!(r.den, 7);
    assert_eq!(r.num, 7 * -2_750_000);
    let r2 = apply::<Wife2>(&deviations, 0, 0);
    assert_eq!(r2.num, 7 * -4_000_000);
}

#[test]
fn test_apply_mixed() {
    // One perfect hit, one mine hit, one hold drop.
    let deviations: Vec<i64> = vec![4_000];
    let r = apply::<Wife3>(&deviations, 1, 1);
    assert_eq!(r.den, 1);
    assert_eq!(r.num, 1_000_000 - 3_500_000 - 2_250_000);
}

#[test]
fn test_wife_weights() {
    assert_eq!(Wife3::miss_weight(), -2_750_000);
    assert_eq!(Wife3::mine_hit_weight(), -3_500_000);
    assert_eq!(Wife3::hold_drop_weight(), -2_250_000);
    assert_eq!(Wife2::miss_weight(), -4_000_000);
    assert_eq!(Wife2::mine_hit_weight(), -4_000_000);
    assert_eq!(Wife2::hold_drop_weight(), -3_000_000);
}
