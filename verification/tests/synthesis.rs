use soundcard_generator::bank::OscillatorBank;
use soundcard_generator::mixer::to_sample;
use soundcard_generator::oscillator::Oscillator;
use soundcard_generator::rotor::{Rotor, ONE};
use soundcard_generator::signal::{sigstrdec, Sigparam};
use soundcard_generator::units::TURN;
use soundcard_generator::waveform::{sigtypedec, sine, square, triangle, Waveform};

/// The point of the unit circle at `radians`, drawn in by a hair so that
/// rounding cannot put it outside.
fn rotor_at(radians: f64) -> Rotor {
    let scale = ONE as f64 * (1.0 - 1.0 / (1u64 << 50) as f64);
    Rotor::new((radians.cos() * scale) as i128, (radians.sin() * scale) as i128).unwrap()
}

fn radians(ticks: i64) -> f64 {
    ticks as f64 / TURN as f64 * 2.0 * std::f64::consts::PI
}

fn oscillator(sig: &Sigparam) -> Oscillator {
    Oscillator::new(
        sig,
        rotor_at(radians(sig.phase()) + std::f64::consts::FRAC_PI_2),
        rotor_at(radians(sig.phasestep())),
    )
}

fn oscillators(list: &str) -> Vec<Oscillator> {
    sigstrdec(list).unwrap().iter().map(oscillator).collect()
}

fn bank(lefttype: &str, left: &str, righttype: &str, right: &str) -> OscillatorBank {
    OscillatorBank::new(
        sigtypedec(lefttype),
        sigtypedec(righttype),
        &oscillators(left),
        &oscillators(right),
    )
    .unwrap()
}

#[test]
fn a_sine_follows_the_rotor_angle() {
    let mut b = bank("sine", "440:0:50:10000", "", "");
    let mut peak = i16::MIN;
    for n in 0..4800 {
        let (left, right) = b.frame();
        let angle = 2.0 * std::f64::consts::PI * 440.0 * n as f64 / 48000.0
            + std::f64::consts::FRAC_PI_2;
        let expected = 10000.0 * angle.cos();
        assert!((left as f64 - expected).abs() < 1.01, "sample {n}: {left} for {expected}");
        assert_eq!(right, 0);
        peak = peak.max(left);
    }
    assert!((9990..=10000).contains(&peak), "{peak}");
}

#[test]
fn a_sine_starts_at_its_zero_crossing() {
    let mut b = bank("sine", "440:0:50:10000", "", "");
    assert_eq!(b.frame().0, 0);
    let mut shifted = bank("sine", "440:-90:50:10000", "", "");
    let first = shifted.frame().0;
    assert!((9999..=10000).contains(&first), "{first}");
}

#[test]
fn a_sine_keeps_its_amplitude_over_a_long_run() {
    let mut b = bank("sine", "997:0:50:32767", "", "");
    let mut buf = vec![0i16; 2 * 4096];
    let mut peak = 0i16;
    for _ in 0..60 {
        b.fill(&mut buf);
    }
    for _ in 0..4 {
        b.fill(&mut buf);
        for frame in buf.chunks(2) {
            peak = peak.max(frame[0].abs());
        }
    }
    assert!((32760..=32767).contains(&peak), "{peak}");
}

#[test]
fn a_square_spends_its_duty_share_high() {
    let mut b = bank("", "", "square", "1000:0:25:5000");
    for period in 0..10 {
        let mut high = 0;
        for n in 0..48 {
            let (left, right) = b.frame();
            assert_eq!(left, 0);
            if n < 12 {
                assert_eq!(right, 5000, "period {period}, sample {n}");
                high += 1;
            } else {
                assert_eq!(right, -5000, "period {period}, sample {n}");
            }
        }
        assert_eq!(high, 12);
    }
}

#[test]
fn a_square_of_uneven_period_keeps_its_duty_share_within_a_sample() {
    // 700 Hz: a period is 48000 / 700 = 68.57 samples, 30 % of it 20.57.
    let sig = sigstrdec("700:0:30:1000").unwrap()[0];
    let mut osc = oscillator(&sig);
    let mut high = 0;
    let mut total = 0;
    let mut periods = 0;
    while periods < 7 {
        let before = osc.phase();
        let v = osc.tick(Waveform::Square);
        total += 1;
        if v > 0 {
            high += 1;
        }
        if osc.phase() < before {
            assert!(total == 68 || total == 69, "{total}");
            assert!(high == 20 || high == 21, "{high}");
            high = 0;
            total = 0;
            periods += 1;
        }
    }
}

#[test]
fn a_triangle_reaches_both_peaks_exactly() {
    let mut b = bank("triangle", "1000:0:50:1000", "", "");
    let mut seen = Vec::new();
    for _ in 0..48 {
        seen.push(b.frame().0);
    }
    assert_eq!(seen[0], -1000);
    assert_eq!(seen[6], -500);
    assert_eq!(seen[12], 0);
    assert_eq!(seen[18], 500);
    assert_eq!(seen[24], 1000);
    assert_eq!(seen[30], 500);
    assert_eq!(seen[36], 0);
    assert_eq!(seen[47], -916);
    assert_eq!(b.frame().0, -1000);
    for pair in seen.windows(2) {
        assert!((pair[1] - pair[0]).abs() <= 84, "{} then {}", pair[0], pair[1]);
    }
}

#[test]
fn the_triangle_follows_both_flanks() {
    // amplitude 1, threshold a quarter of the period
    let quarter = TURN / 4;
    assert_eq!(triangle(0, quarter, 1000), -1000);
    assert_eq!(triangle(quarter / 2, quarter, 1000), 0);
    assert_eq!(triangle(quarter, quarter, 1000), 1000);
    assert_eq!(triangle(quarter + (TURN - quarter) / 2, quarter, 1000), 0);
    assert_eq!(triangle(TURN - 1, quarter, 1000), -999);
    assert_eq!(triangle(1, quarter, 1000), -999);
    assert_eq!(triangle(quarter / 3, quarter, 1000), -333);
    // before the period the rising flank goes on downward
    assert_eq!(triangle(-quarter, quarter, 1000), -3000);
    // past the period the falling flank goes on downward
    assert_eq!(triangle(TURN + (TURN - quarter) / 2, quarter, 1000), -2000);
    // the narrowest flanks
    assert_eq!(triangle(0, 1, 32_767_000), -32_767_000);
    assert_eq!(triangle(1, 1, 32_767_000), 32_767_000);
    assert_eq!(triangle(TURN - 1, TURN - 1, 32_767_000), 32_767_000);
    assert_eq!(triangle(TURN - 2, TURN - 1, 32_767_000), 32_766_999);
}

#[test]
fn the_square_has_two_levels() {
    assert_eq!(square(0, 10, 7), 7);
    assert_eq!(square(9, 10, 7), 7);
    assert_eq!(square(10, 10, 7), -7);
    assert_eq!(square(-1, 10, 7), 7);
    assert_eq!(square(TURN, 10, 7), -7);
}

#[test]
fn the_sine_scales_the_real_coordinate() {
    let half = Rotor::new(ONE / 2, 0).unwrap();
    assert_eq!(sine(&half, 1001), 500);
    let minus_half = Rotor::new(-ONE / 2, 0).unwrap();
    assert_eq!(sine(&minus_half, 1001), -500);
    assert_eq!(sine(&Rotor::unit(), 32_767_000), 32_767_000);
    assert_eq!(sine(&Rotor::new(0, ONE).unwrap(), 32_767_000), 0);
}

#[test]
fn oscillators_of_one_channel_add_up() {
    let mut together = bank("sine", "100:0:50:1000 200:0:50:2000", "", "");
    let mut first = oscillator(&sigstrdec("100:0:50:1000").unwrap()[0]);
    let mut second = oscillator(&sigstrdec("200:0:50:2000").unwrap()[0]);
    let mut loudest = 0i16;
    for n in 0..960 {
        let sum = first.tick(Waveform::Sine) + second.tick(Waveform::Sine);
        let left = together.frame().0;
        assert_eq!(left, to_sample(sum), "sample {n}");
        let t = 2.0 * std::f64::consts::PI * n as f64 / 48000.0;
        let expected = 1000.0 * (100.0 * t + std::f64::consts::FRAC_PI_2).cos()
            + 2000.0 * (200.0 * t + std::f64::consts::FRAC_PI_2).cos();
        assert!((left as f64 - expected).abs() < 1.01, "sample {n}: {left} for {expected}");
        loudest = loudest.max(left.abs());
    }
    assert!(loudest > 2000);
}

#[test]
fn squares_and_triangles_add_up_too() {
    for label in ["square", "triangle"] {
        let kind = sigtypedec(label);
        let list = "300:10:20:1000 1700:-30:80:250.5 0:0:50:3";
        let mut together = bank("", "", label, list);
        let mut alone = oscillators(list);
        for n in 0..500 {
            let sum: i128 = alone.iter_mut().map(|osc| osc.tick(kind)).sum();
            assert_eq!(together.frame(), (0, to_sample(sum)), "{label}, sample {n}");
        }
    }
}

#[test]
fn the_channels_do_not_touch_each_other() {
    let mut both = bank("square", "1000:0:25:5000", "triangle", "440:0:50:300 10:0:10:20");
    let mut left_only = bank("square", "1000:0:25:5000", "triangle", "");
    let mut right_only = bank("square", "", "triangle", "440:0:50:300 10:0:10:20");
    for _ in 0..300 {
        let (left, right) = both.frame();
        assert_eq!(left, left_only.frame().0);
        assert_eq!(right, right_only.frame().1);
    }
}

#[test]
fn a_silent_channel_gives_zeros() {
    let mut b = bank("nothing", "440:0:50:10000 1000:0:25:5000", "square", "1000:0:25:5000");
    let mut buf = vec![7i16; 2 * 96];
    b.fill(&mut buf);
    for frame in buf.chunks(2) {
        assert_eq!(frame[0], 0);
        assert!(frame[1] == 5000 || frame[1] == -5000);
    }
    let mut silent = bank("", "440:0:50:10000", "", "1:2:3:4");
    silent.fill(&mut buf);
    assert!(buf.iter().all(|&s| s == 0));
}

#[test]
fn a_silent_channel_leaves_its_oscillators_where_they_are() {
    let sig = sigstrdec("1000:45:25:5000").unwrap()[0];
    let mut osc = oscillator(&sig);
    let (phase, re, im) = (osc.phase(), osc.rotor().re(), osc.rotor().im());
    assert_eq!(osc.tick(Waveform::Nowave), 0);
    assert_eq!((osc.phase(), osc.rotor().re(), osc.rotor().im()), (phase, re, im));
}

#[test]
fn the_phase_stays_within_a_period_of_zero() {
    for list in ["24000:0:50:1", "23999.999:359.999:50:1", "0.001:-359.999:50:1", "7:-0.001:1:1"] {
        let mut osc = oscillator(&sigstrdec(list).unwrap()[0]);
        for _ in 0..100_000 {
            osc.tick(Waveform::Square);
            assert!(-TURN < osc.phase() && osc.phase() < TURN, "{list}: {}", osc.phase());
        }
    }
}

#[test]
fn a_phase_from_outside_comes_in_one_period_per_sample() {
    let mut osc = oscillator(&sigstrdec("1000:720:50:1").unwrap()[0]);
    assert_eq!(osc.phase(), 2 * TURN);
    assert_eq!(osc.tick(Waveform::Square), -1000);
    assert_eq!(osc.phase(), TURN + 3_000_000);
    osc.tick(Waveform::Square);
    assert_eq!(osc.phase(), 6_000_000);
    let mut below = oscillator(&sigstrdec("0:-720:50:1").unwrap()[0]);
    below.tick(Waveform::Triangle);
    assert_eq!(below.phase(), -TURN);
    below.tick(Waveform::Triangle);
    assert_eq!(below.phase(), 0);
}

#[test]
fn the_phase_advances_by_its_step_and_wraps() {
    let mut osc = oscillator(&sigstrdec("12000:0:50:1").unwrap()[0]);
    let mut seen = Vec::new();
    for _ in 0..5 {
        seen.push(osc.phase());
        osc.tick(Waveform::Triangle);
    }
    assert_eq!(seen, vec![0, TURN / 4, TURN / 2, 3 * (TURN / 4), 0]);
    let mut sine = oscillator(&sigstrdec("12000:0:50:1").unwrap()[0]);
    sine.tick(Waveform::Sine);
    assert_eq!(sine.phase(), 0);
}

#[test]
fn a_sum_beyond_sixteen_bits_is_held_at_the_limit() {
    let mut b = bank("square", "100:0:50:32767 100:0:50:32767", "square", "100:180:50:20000 100:180:50:20000");
    assert_eq!(b.frame(), (32767, -32768));
    assert_eq!(to_sample(32_767_999), 32767);
    assert_eq!(to_sample(32_768_000), 32767);
    assert_eq!(to_sample(-32_768_999), -32768);
    assert_eq!(to_sample(-32_769_000), -32768);
    assert_eq!(to_sample(i128::MAX), 32767);
    assert_eq!(to_sample(i128::MIN + 1), -32768);
}

#[test]
fn a_sum_is_rounded_toward_zero() {
    assert_eq!(to_sample(1_999), 1);
    assert_eq!(to_sample(-1_999), -1);
    assert_eq!(to_sample(999), 0);
    assert_eq!(to_sample(-999), 0);
    assert_eq!(to_sample(2_000), 2);
    let mut b = bank("square", "1:0:50:0.999 1:0:50:0.999 1:0:50:0.001", "nothing", "");
    assert_eq!(b.frame(), (1, 0));
}

#[test]
fn a_block_is_filled_frame_by_frame() {
    let mut filled = bank("triangle", "440:0:30:12000", "square", "1000:0:25:5000");
    let mut stepped = bank("triangle", "440:0:30:12000", "square", "1000:0:25:5000");
    let mut buf = vec![-1i16; 2 * 4096];
    for _ in 0..3 {
        filled.fill(&mut buf);
        for frame in buf.chunks(2) {
            assert_eq!((frame[0], frame[1]), stepped.frame());
        }
    }
}

#[test]
fn a_slot_without_a_partner_is_left_alone() {
    let mut b = bank("square", "1000:0:25:5000", "square", "1000:0:75:100");
    let mut buf = vec![-1i16; 5];
    b.fill(&mut buf);
    assert_eq!(buf, vec![5000, 100, 5000, 100, -1]);
    let mut one = vec![9i16];
    b.fill(&mut one);
    assert_eq!(one, vec![9]);
    let mut none: Vec<i16> = Vec::new();
    b.fill(&mut none);
    assert_eq!(b.frame(), (5000, 100));
}

#[test]
fn a_bank_knows_its_oscillators() {
    let mut b = bank("square", "1:0:50:7 2:0:50:8", "triangle", "3:0:50:9");
    assert_eq!(b.len(), 3);
    assert_eq!(b.leftsiglen(), 2);
    assert_eq!(b.tick(1), 8_000);
    assert_eq!(b.tick(2), -9_000);
    let empty = bank("sine", "", "sine", "");
    assert_eq!(empty.len(), 0);
}

#[test]
fn a_tick_gives_the_value_before_it_advances() {
    let mut b = bank("square", "12000:0:25:1", "nothing", "");
    let values: Vec<i128> = (0..8).map(|_| b.tick(0)).collect();
    assert_eq!(values, vec![1000, -1000, -1000, -1000, 1000, -1000, -1000, -1000]);
}

#[test]
fn rotors_lie_in_the_unit_disc() {
    assert!(Rotor::new(ONE, 0).is_some());
    assert!(Rotor::new(0, -ONE).is_some());
    assert!(Rotor::new(ONE, 1).is_none());
    assert!(Rotor::new(ONE + 1, 0).is_none());
    assert!(Rotor::new(i128::MAX, i128::MIN).is_none());
    assert!(Rotor::new(0, 0).is_some());
    let r = Rotor::new(3 * (ONE / 5), 4 * (ONE / 5)).unwrap();
    assert_eq!((r.re(), r.im()), (3 * (ONE / 5), 4 * (ONE / 5)));
    assert!(Rotor::new(3 * (ONE / 5) + 3, 4 * (ONE / 5) + 4).is_none());
}

#[test]
fn rotors_multiply_as_complex_numbers() {
    let i = Rotor::new(0, ONE).unwrap();
    let minus_one = i.times(&i);
    assert_eq!((minus_one.re(), minus_one.im()), (-ONE, 0));
    let one = Rotor::unit();
    let same = i.times(&one);
    assert_eq!((same.re(), same.im()), (0, ONE));
    let half = Rotor::new(ONE / 2, ONE / 2).unwrap();
    let squared = half.times(&half);
    assert_eq!((squared.re(), squared.im()), (0, ONE / 2));
    let small = Rotor::new(3, -5).unwrap();
    let rounded = small.times(&Rotor::new(ONE / 2, 0).unwrap());
    assert_eq!((rounded.re(), rounded.im()), (1, -2));
}
