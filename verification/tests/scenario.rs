use rhythm_core::rat::Rat;
use rhythm_core::timeline::BpmCrotchetFunction;
use rhythm_core::timeline::ChartError;
use rhythm_core::timeline::Interval;

fn three_segment_timeline() -> BpmCrotchetFunction {
    let intervals = vec![
        Interval {
            start: Rat::from_int(0),
            end: Some(Rat::from_int(100)),
            value: Rat::from_int(100),
        },
        Interval {
            start: Rat::from_int(100),
            end: Some(Rat::from_int(200)),
            value: Rat::from_int(200),
        },
        Interval { start: Rat::from_int(200), end: None, value: Rat::from_int(200) },
    ];
    BpmCrotchetFunction::new(intervals).unwrap()
}

#[test]
fn test() {
    let f = three_segment_timeline();

    let xs = [50, 150, 250];
    for &x in &xs {
        let val = f.crotchet_time_function(&Rat::from_int(x)).unwrap();
        println!("F({}) = {}", x, val.num as f64 / val.den as f64);
    }
}

#[test]
fn forward_times_across_segments() {
    let f = three_segment_timeline();
    // 60 * elapsed-beats / rate, summed across the crossed segments
    assert_eq!(
        f.crotchet_time_function(&Rat::from_int(50)).unwrap(),
        Rat::from_int(30)
    );
    assert_eq!(
        f.crotchet_time_function(&Rat::from_int(150)).unwrap(),
        Rat::from_int(75)
    );
    assert_eq!(
        f.crotchet_time_function(&Rat::from_int(250)).unwrap(),
        Rat::from_int(105)
    );
}

#[test]
fn continuity_at_boundaries() {
    let f = three_segment_timeline();
    // closing the first segment and opening the second agree at beat 100
    assert_eq!(f.crotchet_time_function(&Rat::from_int(100)).unwrap(), Rat::from_int(60));
    assert_eq!(f.crotchet_time_function(&Rat::from_int(200)).unwrap(), Rat::from_int(90));
}

#[test]
fn forward_clamps_at_zero() {
    let f = three_segment_timeline();
    assert_eq!(f.crotchet_time_function(&Rat::from_int(0)).unwrap(), Rat::from_int(0));
    assert_eq!(f.crotchet_time_function(&Rat::from_int(-7)).unwrap(), Rat::from_int(0));
    assert_eq!(f.inverse_integral(&Rat::from_int(0)).unwrap(), Rat::from_int(0));
    assert_eq!(f.inverse_integral(&Rat::from_int(-3)).unwrap(), Rat::from_int(0));
}

#[test]
fn inverse_recovers_beats() {
    let f = three_segment_timeline();
    let samples = [
        Rat::from_int(0),
        Rat::from_int(50),
        Rat::from_int(100),
        Rat::from_int(150),
        Rat::from_int(250),
        Rat::new(1234, 7).unwrap(),
    ];
    for x in samples {
        let t = f.crotchet_time_function(&x).unwrap();
        let back = f.inverse_integral(&t).unwrap();
        assert!(back.eq_val(&x));
    }
}

#[test]
fn inverse_is_monotonic_on_samples() {
    let f = three_segment_timeline();
    let mut prev = f.inverse_integral(&Rat::from_int(0)).unwrap();
    for y in 1..120 {
        let cur = f.inverse_integral(&Rat::from_int(y)).unwrap();
        assert!(prev.le(&cur));
        prev = cur;
    }
}

#[test]
fn distance_is_symmetric_and_zero_on_equal() {
    let f = three_segment_timeline();
    let a = Rat::from_int(10);
    let b = Rat::from_int(95);
    let d1 = f.distance(&a, &b).unwrap();
    let d2 = f.distance(&b, &a).unwrap();
    assert_eq!(d1, d2);
    assert_eq!(f.distance(&a, &a).unwrap(), Rat::from_int(0));
    assert_eq!(f.distance(&Rat::from_int(-4), &Rat::from_int(-4)).unwrap(), Rat::from_int(0));
}

#[test]
fn distance_is_additive_on_samples() {
    let f = three_segment_timeline();
    // 0 <= 30 <= 75 spans all three rate segments in time coordinates
    let a = Rat::from_int(0);
    let b = Rat::from_int(30);
    let c = Rat::from_int(75);
    let ac = f.distance(&a, &c).unwrap();
    let ab = f.distance(&a, &b).unwrap();
    let bc = f.distance(&b, &c).unwrap();
    assert!(ac.eq_val(&ab.add(&bc).unwrap()));
}

#[test]
fn distance_values_across_rate_change() {
    let f = three_segment_timeline();
    // the first 60 seconds scroll at rate 100, later ones at rate 200
    assert_eq!(f.distance(&Rat::from_int(0), &Rat::from_int(60)).unwrap(), Rat::from_int(6000));
    assert_eq!(f.distance(&Rat::from_int(0), &Rat::from_int(75)).unwrap(), Rat::from_int(9000));
    assert_eq!(f.distance(&Rat::from_int(60), &Rat::from_int(75)).unwrap(), Rat::from_int(3000));
}

#[test]
fn distance_is_nonnegative_on_samples() {
    let f = three_segment_timeline();
    for a in [-5i64, 0, 10, 61, 200] {
        for b in [-5i64, 0, 10, 61, 200] {
            let d = f.distance(&Rat::from_int(a), &Rat::from_int(b)).unwrap();
            assert!(Rat::from_int(0).le(&d));
        }
    }
}

#[test]
fn malformed_timelines_are_rejected() {
    let zero_rate = vec![Interval { start: Rat::from_int(0), end: None, value: Rat::from_int(0) }];
    assert_eq!(BpmCrotchetFunction::new(zero_rate).unwrap_err(), ChartError::NonPositiveRate);

    assert_eq!(BpmCrotchetFunction::new(vec![]).unwrap_err(), ChartError::EmptyTimeline);

    let bounded_last = vec![
        Interval {
            start: Rat::from_int(0),
            end: Some(Rat::from_int(4)),
            value: Rat::from_int(120),
        },
    ];
    assert_eq!(BpmCrotchetFunction::new(bounded_last).unwrap_err(), ChartError::LastBounded);

    let unbounded_middle = vec![
        Interval { start: Rat::from_int(0), end: None, value: Rat::from_int(120) },
        Interval { start: Rat::from_int(4), end: None, value: Rat::from_int(90) },
    ];
    assert_eq!(
        BpmCrotchetFunction::new(unbounded_middle).unwrap_err(),
        ChartError::MiddleUnbounded
    );

    let gap = vec![
        Interval {
            start: Rat::from_int(0),
            end: Some(Rat::from_int(4)),
            value: Rat::from_int(120),
        },
        Interval { start: Rat::from_int(5), end: None, value: Rat::from_int(90) },
    ];
    assert_eq!(BpmCrotchetFunction::new(gap).unwrap_err(), ChartError::Discontiguous);

    let empty_piece = vec![
        Interval {
            start: Rat::from_int(0),
            end: Some(Rat::from_int(0)),
            value: Rat::from_int(120),
        },
        Interval { start: Rat::from_int(0), end: None, value: Rat::from_int(90) },
    ];
    assert_eq!(BpmCrotchetFunction::new(empty_piece).unwrap_err(), ChartError::NonMonotonic);

    let late_start = vec![Interval { start: Rat::from_int(1), end: None, value: Rat::from_int(90) }];
    assert_eq!(BpmCrotchetFunction::new(late_start).unwrap_err(), ChartError::FirstStartNotZero);

    let bad_den = vec![
        Interval { start: Rat { num: 0, den: 0 }, end: None, value: Rat::from_int(90) },
    ];
    assert_eq!(BpmCrotchetFunction::new(bad_den).unwrap_err(), ChartError::InvalidNumber);
}
