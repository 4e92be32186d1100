use simple_amplifier::amplifier::{layout_supported, GAIN_MAX_UDB, GAIN_MIN_UDB};
use simple_amplifier::range::{GainRange, NORMALIZED_ONE};
use simple_amplifier::smoother::{window_steps, Smoother};
use simple_amplifier::{SimpleAmplifier, SimpleAmplifierParams};

fn gain_range() -> GainRange {
    GainRange::new(GAIN_MIN_UDB, GAIN_MAX_UDB).unwrap()
}

fn db_to_gain(udb: i32) -> f32 {
    10f32.powf(udb as f32 / 20_000_000.0)
}

fn ready_amplifier() -> SimpleAmplifier {
    let mut amp = SimpleAmplifier::default();
    assert!(amp.initialize(2, 2, 48000));
    amp
}

#[test]
fn range_round_trip_over_every_position() {
    let r = gain_range();
    for n in 0..=NORMALIZED_ONE {
        assert_eq!(r.to_normalized(r.to_engineering(n)), n);
    }
}

#[test]
fn range_round_trip_on_narrow_range() {
    let r = GainRange::new(-500_000, 500_000).unwrap();
    for n in 0..=NORMALIZED_ONE {
        assert_eq!(r.to_normalized(r.to_engineering(n)), n);
    }
}

#[test]
fn range_bounds_map_to_ends() {
    let r = gain_range();
    assert_eq!(r.to_engineering(0), -30_000_000);
    assert_eq!(r.to_engineering(NORMALIZED_ONE), 30_000_000);
    assert_eq!(r.to_normalized(-30_000_000), 0);
    assert_eq!(r.to_normalized(30_000_000), NORMALIZED_ONE);
    let low = db_to_gain(r.to_engineering(0));
    let high = db_to_gain(r.to_engineering(NORMALIZED_ONE));
    assert!((low - 10f32.powf(-30.0 / 20.0)).abs() < 1e-6);
    assert!((high - 10f32.powf(30.0 / 20.0)).abs() < 1e-4);
}

#[test]
fn range_clamps_out_of_range_inputs() {
    let r = gain_range();
    assert_eq!(r.to_engineering(2_000_000), 30_000_000);
    assert_eq!(r.to_normalized(-40_000_000), 0);
    assert_eq!(r.to_normalized(40_000_000), NORMALIZED_ONE);
    assert_eq!(r.clamp(31_000_000), 30_000_000);
    assert_eq!(r.clamp(-31_000_000), -30_000_000);
    assert_eq!(r.clamp(1234), 1234);
}

#[test]
fn range_mapping_is_linear_in_decibels() {
    let r = gain_range();
    assert_eq!(r.to_engineering(500_000), 0);
    assert_eq!(r.to_engineering(250_000), -15_000_000);
    assert_eq!(r.to_engineering(1), -29_999_940);
    assert_eq!(r.to_normalized(0), 500_000);
    assert_eq!(r.to_normalized(1), 500_001);
    assert_eq!(r.to_normalized(15_000_000), 750_000);
}

#[test]
fn range_value_round_trip_stays_within_one_step() {
    let r = gain_range();
    assert_eq!(r.to_engineering(r.to_normalized(1)), 60);
    assert_eq!(r.to_engineering(r.to_normalized(0)), 0);
    let mut v: i32 = -30_000_000;
    while v <= 30_000_000 {
        let back = r.to_engineering(r.to_normalized(v));
        assert!(v <= back && back <= v + 60);
        let ratio = db_to_gain(back) / db_to_gain(v);
        assert!((ratio - 1.0).abs() <= 1e-5);
        v += 997;
    }
}

#[test]
fn range_needs_ordered_bounds() {
    assert!(GainRange::new(5, 5).is_none());
    assert!(GainRange::new(6, 5).is_none());
    let r = GainRange::new(-1, 1).unwrap();
    assert_eq!((r.min_udb, r.max_udb), (-1, 1));
}

#[test]
fn window_steps_round_up() {
    assert_eq!(window_steps(50, 48000), 2400);
    assert_eq!(window_steps(1, 44100), 45);
    assert_eq!(window_steps(0, 48000), 0);
    assert_eq!(window_steps(50, 0), 0);
    assert_eq!(window_steps(u32::MAX, u32::MAX), 18446744065119618);
}

#[test]
fn smoother_converges_within_window() {
    let mut s = Smoother::new(0, 50, 48000);
    s.set_target(6000);
    assert_eq!(s.current, 0);
    let mut prev = s.current;
    for step in 1..=2400u32 {
        let v = s.next();
        assert!(v >= prev && v <= 6000);
        if step < 2400 {
            assert!(v < 6000);
        }
        prev = v;
    }
    assert_eq!(prev, 6000);
    assert_eq!(s.next(), 6000);
    assert_eq!(s.steps_left, 0);
}

#[test]
fn smoother_exact_ramp_values() {
    let mut s = Smoother::new(0, 50, 48000);
    s.set_target(6000);
    assert_eq!(s.next(), 3);
    let mut down = Smoother::new(0, 50, 48000);
    down.set_target(-6000);
    assert_eq!(down.next(), -3);
    for _ in 0..2398 {
        down.next();
    }
    assert_eq!(down.current, -5998);
    assert_eq!(down.next(), -6000);
}

#[test]
fn smoother_restarts_from_partial_value() {
    let mut s = Smoother::new(0, 50, 48000);
    s.set_target(6000);
    for _ in 0..1200 {
        s.next();
    }
    assert_eq!(s.current, 3000);
    s.set_target(-3000);
    assert_eq!(s.current, 3000);
    assert_eq!(s.start, 3000);
    let mut prev = s.current;
    for step in 1..=2400u32 {
        let v = s.next();
        assert!(v <= prev && v >= -3000);
        assert!(prev - v <= 3);
        if step == 1 {
            assert_eq!(v, 2997);
        }
        prev = v;
    }
    assert_eq!(prev, -3000);
}

#[test]
fn smoother_without_window_assigns_at_once() {
    let mut s = Smoother::new(0, 50, 0);
    s.set_target(1000);
    assert_eq!(s.current, 1000);
    assert_eq!(s.next(), 1000);
}

#[test]
fn smoother_sample_rate_change_restarts_ramp() {
    let mut s = Smoother::new(0, 50, 48000);
    s.set_target(6000);
    for _ in 0..1200 {
        s.next();
    }
    s.set_sample_rate(24000);
    assert_eq!(s.total_steps, 1200);
    assert_eq!(s.steps_left, 1200);
    assert_eq!(s.current, 3000);
    for _ in 0..1200 {
        s.next();
    }
    assert_eq!(s.current, 6000);
    s.set_sample_rate(0);
    s.set_target(100);
    assert_eq!(s.current, 100);
}

#[test]
fn smoother_reset_snaps_to_target() {
    let mut s = Smoother::new(0, 50, 48000);
    s.set_target(6000);
    s.next();
    s.reset();
    assert_eq!(s.current, 6000);
    assert_eq!(s.steps_left, 0);
    assert_eq!(s.target, 6000);
}

#[test]
fn layout_must_be_two_by_two() {
    assert!(layout_supported(2, 2));
    assert!(!layout_supported(1, 2));
    assert!(!layout_supported(2, 1));
    let mut amp = SimpleAmplifier::default();
    assert!(!amp.initialize(1, 1, 48000));
    assert_eq!(amp.params().gain.smoothed.sample_rate, 0);
    assert!(amp.initialize(2, 2, 48000));
    assert_eq!(amp.params().gain.smoothed.sample_rate, 48000);
    assert_eq!(amp.params().gain.smoothed.total_steps, 2400);
}

#[test]
fn defaults_are_unity_gain_and_no_bypass() {
    let p = SimpleAmplifierParams::default();
    assert_eq!(p.gain.value(), 0);
    assert_eq!(p.gain.normalized_value(), 500_000);
    assert_eq!(p.gain.smoothed.start, 0);
    assert!(!p.bypass);
}

#[test]
fn bypass_leaves_buffer_and_smoother_alone() {
    let mut amp = ready_amplifier();
    amp.params_mut().gain.set_value(6000);
    amp.params_mut().bypass = true;
    let before = amp.params().gain.smoothed.clone();
    let mut gains = vec![7, 8, 9, 10];
    assert!(!amp.process(&mut gains));
    assert_eq!(gains, vec![7, 8, 9, 10]);
    let after = &amp.params().gain.smoothed;
    assert_eq!(after.current, before.current);
    assert_eq!(after.steps_left, before.steps_left);
    assert_eq!(after.target, before.target);
    assert_eq!(after.start, before.start);
}

#[test]
fn gain_applies_converged_target() {
    let mut amp = ready_amplifier();
    amp.params_mut().gain.set_value(6_020_600);
    amp.reset();
    let input: [[f32; 4]; 2] = [[0.5, -0.25, 0.125, 1.0], [0.1, 0.2, -0.3, 0.4]];
    let mut gains = vec![0; 4];
    assert!(amp.process(&mut gains));
    assert_eq!(gains, vec![6_020_600; 4]);
    for ch in input.iter() {
        for (i, x) in ch.iter().enumerate() {
            let y = x * db_to_gain(gains[i]);
            assert!((y - 2.0 * x).abs() < 1e-4);
        }
    }
}

#[test]
fn unity_gain_passes_audio_unchanged() {
    let mut amp = ready_amplifier();
    let input: [[f32; 4]; 2] = [[0.5, -0.25, 0.125, 1.0], [0.1, 0.2, -0.3, 0.4]];
    let mut gains = vec![0; 4];
    assert!(amp.process(&mut gains));
    assert_eq!(gains, vec![0; 4]);
    for ch in input.iter() {
        for (i, x) in ch.iter().enumerate() {
            assert_eq!(x * db_to_gain(gains[i]), *x);
        }
    }
}

#[test]
fn process_takes_one_step_per_frame() {
    let mut amp = ready_amplifier();
    amp.params_mut().gain.set_value(6000);
    let mut gains = vec![0; 3];
    assert!(amp.process(&mut gains));
    assert_eq!(gains, vec![3, 5, 8]);
    assert_eq!(amp.params().gain.smoothed.steps_left, 2397);
}

#[test]
fn gain_setters_clamp_and_map() {
    let mut amp = ready_amplifier();
    amp.params_mut().gain.set_value(40_000_000);
    assert_eq!(amp.params().gain.value(), 30_000_000);
    assert_eq!(amp.params().gain.normalized_value(), NORMALIZED_ONE);
    amp.params_mut().gain.set_normalized_value(750_000);
    assert_eq!(amp.params().gain.value(), 15_000_000);
    amp.params_mut().gain.set_normalized_value(0);
    assert_eq!(amp.params().gain.value(), -30_000_000);
}
