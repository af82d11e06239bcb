use soundcard_generator::decimal::{parse_decimal, parse_milli};
use soundcard_generator::signal::{sigdec, sigstrdec, SigError, Sigparam};
use soundcard_generator::units::{MAX_MILLI, TURN};
use soundcard_generator::waveform::{sigtypedec, Waveform};

#[test]
fn labels_select_their_waveform() {
    assert_eq!(sigtypedec("sine"), Waveform::Sine);
    assert_eq!(sigtypedec("square"), Waveform::Square);
    assert_eq!(sigtypedec("triangle"), Waveform::Triangle);
}

#[test]
fn unknown_labels_select_silence() {
    assert_eq!(sigtypedec(""), Waveform::Nowave);
    assert_eq!(sigtypedec("Sine"), Waveform::Nowave);
    assert_eq!(sigtypedec("sine "), Waveform::Nowave);
    assert_eq!(sigtypedec("sin"), Waveform::Nowave);
    assert_eq!(sigtypedec("sawtooth"), Waveform::Nowave);
    assert_eq!(sigtypedec("siné"), Waveform::Nowave);
}

#[test]
fn decimals_are_read_into_thousandths() {
    assert_eq!(parse_milli(b"440"), Some(440_000));
    assert_eq!(parse_milli(b"0"), Some(0));
    assert_eq!(parse_milli(b"0.5"), Some(500));
    assert_eq!(parse_milli(b".5"), Some(500));
    assert_eq!(parse_milli(b"5."), Some(5_000));
    assert_eq!(parse_milli(b"+1.25"), Some(1_250));
    assert_eq!(parse_milli(b"-90"), Some(-90_000));
    assert_eq!(parse_milli(b"-0"), Some(0));
    assert_eq!(parse_milli(b"007.010"), Some(7_010));
    assert_eq!(parse_milli(b"12.345"), Some(12_345));
    assert_eq!(parse_milli(b"12.3450000"), Some(12_345));
}

#[test]
fn what_is_past_the_thousandths_is_dropped() {
    assert_eq!(parse_milli(b"1.2345"), Some(1_234));
    assert_eq!(parse_milli(b"1.2349999"), Some(1_234));
    assert_eq!(parse_milli(b"-1.2345"), Some(-1_234));
    assert_eq!(parse_milli(b"0.0001"), Some(0));
    assert_eq!(parse_milli(b"-0.0009"), Some(0));
    assert_eq!(parse_milli(b"1.0001"), Some(1_000));
    assert_eq!(parse_milli(b"999999999999.9999"), Some(MAX_MILLI));
}

#[test]
fn numerals_are_read_between_two_thousandths() {
    assert_eq!(parse_decimal(b"5"), Some((5_000, 5_000)));
    assert_eq!(parse_decimal(b"-5.125"), Some((-5_125, -5_125)));
    assert_eq!(parse_decimal(b"1.0001"), Some((1_000, 1_001)));
    assert_eq!(parse_decimal(b"1.00010"), Some((1_000, 1_001)));
    assert_eq!(parse_decimal(b"1.0000"), Some((1_000, 1_000)));
    assert_eq!(parse_decimal(b"-0.0001"), Some((-1, 0)));
    assert_eq!(parse_decimal(b"-1.0001"), Some((-1_001, -1_000)));
    assert_eq!(parse_decimal(b"24000.0001"), Some((24_000_000, 24_000_001)));
    assert_eq!(parse_decimal(b"0.00000000000000000000000000001"), Some((0, 1)));
    assert_eq!(parse_decimal(b"1e-4"), Some((0, 1)));
    assert_eq!(parse_decimal(b"-0"), Some((0, 0)));
    assert_eq!(parse_decimal(b"x"), None);
}

#[test]
fn exponents_move_the_decimal_point() {
    assert_eq!(parse_milli(b"1e3"), Some(1_000_000));
    assert_eq!(parse_milli(b"1E3"), Some(1_000_000));
    assert_eq!(parse_milli(b"1e+2"), Some(100_000));
    assert_eq!(parse_milli(b"1e0"), Some(1_000));
    assert_eq!(parse_milli(b"1e-0"), Some(1_000));
    assert_eq!(parse_milli(b"12e-1"), Some(1_200));
    assert_eq!(parse_milli(b"1.5e-3"), Some(1));
    assert_eq!(parse_milli(b"1.5e-4"), Some(0));
    assert_eq!(parse_milli(b"-2.5e2"), Some(-250_000));
    assert_eq!(parse_milli(b".5e1"), Some(5_000));
    assert_eq!(parse_milli(b"5.e1"), Some(50_000));
    assert_eq!(parse_milli(b"0.000123456e6"), Some(123_456));
    assert_eq!(parse_milli(b"123456789e-6"), Some(123_456));
    assert_eq!(parse_milli(b"1.23456789e2"), Some(123_456));
    assert_eq!(parse_milli(b"1e0000000000000000000000000000000000000002"), Some(100_000));
    assert_eq!(parse_milli(b"999999999999999e-3"), Some(999_999_999_999_999));
    assert_eq!(parse_milli(b"999999999999999e0"), Some(MAX_MILLI + 1));
    assert_eq!(parse_milli(b"0.000000000001e23"), Some(100_000_000_000_000));
    assert_eq!(parse_milli(b"1e11"), Some(100_000_000_000_000));
    assert_eq!(parse_milli(b"9.99999999999999e11"), Some(999_999_999_999_999));
}

#[test]
fn magnitudes_beyond_the_limit_are_read_as_one_above_it() {
    assert_eq!(parse_milli(b"999999999999.999"), Some(MAX_MILLI));
    assert_eq!(parse_milli(b"-999999999999.999"), Some(-MAX_MILLI));
    assert_eq!(parse_milli(b"1000000000000"), Some(MAX_MILLI + 1));
    assert_eq!(parse_milli(b"-1000000000000"), Some(-MAX_MILLI - 1));
    assert_eq!(parse_milli(b"99999999999999999999999999999999"), Some(MAX_MILLI + 1));
    assert_eq!(parse_milli(b"1e12"), Some(MAX_MILLI + 1));
    assert_eq!(parse_milli(b"1e30"), Some(MAX_MILLI + 1));
    assert_eq!(parse_milli(b"-1e30"), Some(-MAX_MILLI - 1));
    assert_eq!(parse_milli(b"0.001e99999999999999999999999999999999999999"), Some(MAX_MILLI + 1));
    assert_eq!(parse_decimal(b"1e12"), Some((MAX_MILLI + 1, MAX_MILLI + 1)));
    assert_eq!(parse_decimal(b"999999999999.9999"), Some((MAX_MILLI, MAX_MILLI + 1)));
    assert_eq!(parse_decimal(b"1000000000000.0001"), Some((MAX_MILLI + 1, MAX_MILLI + 1)));
}

#[test]
fn exponents_of_any_size_are_read() {
    assert_eq!(parse_milli(b"0e99999999999999999999999999999999999999"), Some(0));
    assert_eq!(parse_milli(b"0.000e99999999999999999999999999999999999999"), Some(0));
    assert_eq!(parse_milli(b"1e-99999999999999999999999999999999999999"), Some(0));
    assert_eq!(parse_decimal(b"1e-99999999999999999999999999999999999999"), Some((0, 1)));
    assert_eq!(parse_decimal(b"-1e-99999999999999999999999999999999999999"), Some((-1, 0)));
    assert_eq!(parse_decimal(b"0e-99999999999999999999999999999999999999"), Some((0, 0)));
    assert_eq!(parse_milli(b"1e17"), Some(MAX_MILLI + 1));
    assert_eq!(parse_milli(b"1e18"), Some(MAX_MILLI + 1));
    assert_eq!(parse_milli(b"0.00000000000000000001e31"), Some(100_000_000_000_000));
}

#[test]
fn what_is_no_numeral_is_refused() {
    assert_eq!(parse_milli(b""), None);
    assert_eq!(parse_milli(b"."), None);
    assert_eq!(parse_milli(b"+"), None);
    assert_eq!(parse_milli(b"-"), None);
    assert_eq!(parse_milli(b"-."), None);
    assert_eq!(parse_milli(b"1.2.3"), None);
    assert_eq!(parse_milli(b"abc"), None);
    assert_eq!(parse_milli(b" 1"), None);
    assert_eq!(parse_milli(b"1 "), None);
    assert_eq!(parse_milli(b"--1"), None);
    assert_eq!(parse_milli(b"1-"), None);
    assert_eq!(parse_milli(b"1.5x"), None);
    assert_eq!(parse_milli(b"e3"), None);
    assert_eq!(parse_milli(b".e3"), None);
    assert_eq!(parse_milli(b"1e"), None);
    assert_eq!(parse_milli(b"1e+"), None);
    assert_eq!(parse_milli(b"1e-"), None);
    assert_eq!(parse_milli(b"1e3.5"), None);
    assert_eq!(parse_milli(b"1e 3"), None);
    assert_eq!(parse_milli(b"1ee3"), None);
    assert_eq!(parse_milli(b"1e3e3"), None);
    assert_eq!(parse_milli(b"1e++3"), None);
    assert_eq!(parse_milli(b"1.e"), None);
    assert_eq!(parse_milli(b"0x10"), None);
    assert_eq!(parse_milli(b"1,5"), None);
    assert_eq!(parse_milli(b"inf"), None);
    assert_eq!(parse_milli(b"nan"), None);
}

#[test]
fn an_empty_list_holds_no_signal() {
    assert_eq!(sigstrdec(""), Ok(Vec::new()));
}

#[test]
fn one_signal_is_decoded() {
    let sigs = sigstrdec("440:0:50:10000").unwrap();
    assert_eq!(sigs.len(), 1);
    assert_eq!(sigs[0].frequency(), 440_000);
    assert_eq!(sigs[0].phase(), 0);
    assert_eq!(sigs[0].dutycyclephase(), TURN / 2);
    assert_eq!(sigs[0].amplitude(), 10_000_000);
    assert_eq!(sigs[0].phasestep(), 1_320_000);
}

#[test]
fn several_signals_are_decoded_in_order() {
    let sigs = sigstrdec("100:0:50:1000 200:90:25:2000 0.5:-45.5:12.5:0.25").unwrap();
    assert_eq!(sigs.len(), 3);
    assert_eq!(sigs[0], Sigparam::new(100_000, 0, 50_000, 1_000_000).unwrap());
    assert_eq!(sigs[1], Sigparam::new(200_000, 90_000, 25_000, 2_000_000).unwrap());
    assert_eq!(sigs[2], Sigparam::new(500, -45_500, 12_500, 250).unwrap());
    assert_eq!(sigs[1].phase(), TURN / 4);
    assert_eq!(sigs[1].dutycyclephase(), TURN / 4);
    assert_eq!(sigs[2].phase(), -18_200_000);
    assert_eq!(sigs[2].dutycyclephase(), 18_000_000);
}

#[test]
fn a_frequency_above_the_range_is_refused() {
    assert_eq!(sigstrdec("30000:0:50:100"), Err(SigError::Frequency));
    assert_eq!(sigstrdec("24000.001:0:50:100"), Err(SigError::Frequency));
    assert_eq!(sigstrdec("-1:0:50:100"), Err(SigError::Frequency));
    assert_eq!(sigstrdec("-0.001:0:50:100"), Err(SigError::Frequency));
    assert_eq!(sigstrdec("24000.0001:0:50:100"), Err(SigError::Frequency));
    assert_eq!(sigstrdec("-0.0001:0:50:100"), Err(SigError::Frequency));
    assert_eq!(sigstrdec("-1e-30:0:50:100"), Err(SigError::Frequency));
    assert_eq!(sigstrdec("2.5e4:0:50:100"), Err(SigError::Frequency));
    assert_eq!(sigstrdec("1e30:0:50:100"), Err(SigError::Frequency));
    assert_eq!(sigstrdec("99999999999999999999:0:50:100"), Err(SigError::Frequency));
    assert!(sigstrdec("2.4e4:0:50:100").is_ok());
    assert!(sigstrdec("23999.9999:0:50:100").is_ok());
    assert!(sigstrdec("-0:0:50:100").is_ok());
    assert!(sigstrdec("24000:0:50:100").is_ok());
    assert!(sigstrdec("0:0:50:100").is_ok());
}

#[test]
fn an_amplitude_outside_the_range_is_refused() {
    assert_eq!(sigstrdec("440:0:50:32768"), Err(SigError::Amplitude));
    assert_eq!(sigstrdec("440:0:50:32767.001"), Err(SigError::Amplitude));
    assert_eq!(sigstrdec("440:0:50:-1"), Err(SigError::Amplitude));
    assert_eq!(sigstrdec("440:0:50:32767.0001"), Err(SigError::Amplitude));
    assert_eq!(sigstrdec("440:0:50:-0.0001"), Err(SigError::Amplitude));
    assert_eq!(sigstrdec("440:0:50:1e9"), Err(SigError::Amplitude));
    assert_eq!(sigstrdec("440:0:50:1000000000000"), Err(SigError::Amplitude));
    assert!(sigstrdec("440:0:50:3.2767e4").is_ok());
    assert!(sigstrdec("440:0:50:32766.9999").is_ok());
    assert!(sigstrdec("440:0:50:32767").is_ok());
    assert!(sigstrdec("440:0:50:0").is_ok());
}

#[test]
fn a_signal_without_four_fields_is_refused() {
    assert_eq!(sigstrdec("440"), Err(SigError::Fields));
    assert_eq!(sigstrdec("440:0:50"), Err(SigError::Fields));
    assert_eq!(sigstrdec("440:0:50:100:7"), Err(SigError::Fields));
    assert_eq!(sigstrdec(" "), Err(SigError::Fields));
    assert_eq!(sigstrdec("440:0:50:100 "), Err(SigError::Fields));
    assert_eq!(sigstrdec(" 440:0:50:100"), Err(SigError::Fields));
    assert_eq!(sigstrdec("440:0:50:100  440:0:50:100"), Err(SigError::Fields));
}

#[test]
fn a_field_that_is_no_number_is_refused() {
    assert_eq!(sigstrdec("a:b:c:d"), Err(SigError::Number));
    assert_eq!(sigstrdec("440::50:100"), Err(SigError::Number));
    assert_eq!(sigstrdec(":::"), Err(SigError::Number));
    assert_eq!(sigstrdec("440:0:50:1e"), Err(SigError::Number));
    assert_eq!(sigstrdec("440:0:50:nan"), Err(SigError::Number));
    assert_eq!(sigstrdec("inf:0:50:1"), Err(SigError::Number));
    assert_eq!(sigstrdec("440:0:50:100\n"), Err(SigError::Number));
    assert_eq!(sigstrdec("440,5:0:50:100"), Err(SigError::Number));
}

#[test]
fn fields_are_held_in_thousandths() {
    let sigs = sigstrdec("1.0001:0:1:1").unwrap();
    assert_eq!(sigs.len(), 1);
    assert_eq!(sigs[0].frequency(), 1_000);
    assert_eq!(sigs[0].phase(), 0);
    assert_eq!(sigs[0].dutycyclephase(), 1_440_000);
    assert_eq!(sigs[0].amplitude(), 1_000);
    let finer = sigstrdec("440.0001:-45.00049:33.33333:100.9999").unwrap();
    assert_eq!(finer[0], Sigparam::new(440_000, -45_000, 33_333, 100_999).unwrap());
    let powers = sigstrdec("4.4e2:9e1:2.5E1:1e3 1e-3:-1E-3:1e-3:1e-3").unwrap();
    assert_eq!(powers[0], Sigparam::new(440_000, 90_000, 25_000, 1_000_000).unwrap());
    assert_eq!(powers[1], Sigparam::new(1, -1, 1, 1).unwrap());
}

#[test]
fn a_phase_beyond_what_is_held_is_refused() {
    assert_eq!(sigstrdec("1:1000000000000:50:1"), Err(SigError::Number));
    assert_eq!(sigstrdec("1:-1e12:50:1"), Err(SigError::Number));
    assert_eq!(sigstrdec("1:1e30:50:1"), Err(SigError::Number));
    assert_eq!(sigstrdec("30000:1e30:50:40000"), Err(SigError::Number));
    let most = sigstrdec("1:999999999999.9999:50:1").unwrap();
    assert_eq!(most[0].phase(), 399_999_999_999_999_600);
    let least = sigstrdec("1:-999999999999.999:50:1").unwrap();
    assert_eq!(least[0].phase(), -399_999_999_999_999_600);
}

#[test]
fn the_first_fault_in_order_is_reported() {
    assert_eq!(sigstrdec("30000:0:50:40000"), Err(SigError::Frequency));
    assert_eq!(sigstrdec("30000:x:50:40000"), Err(SigError::Number));
    assert_eq!(sigstrdec("440:0:50:40000 30000:0:50:100"), Err(SigError::Amplitude));
    assert_eq!(sigstrdec("440:0:50:100 440:0:50 x:0:50:100"), Err(SigError::Fields));
}

#[test]
fn the_duty_threshold_stays_inside_the_period() {
    assert_eq!(sigstrdec("1:0:0:1").unwrap()[0].dutycyclephase(), 1);
    assert_eq!(sigstrdec("1:0:100:1").unwrap()[0].dutycyclephase(), TURN - 1);
    assert_eq!(sigstrdec("1:0:150:1").unwrap()[0].dutycyclephase(), TURN - 1);
    assert_eq!(sigstrdec("1:0:-5:1").unwrap()[0].dutycyclephase(), 1);
    assert_eq!(sigstrdec("1:0:1e30:1").unwrap()[0].dutycyclephase(), TURN - 1);
    assert_eq!(sigstrdec("1:0:-1e30:1").unwrap()[0].dutycyclephase(), 1);
    assert_eq!(sigstrdec("1:0:0.0009:1").unwrap()[0].dutycyclephase(), 1);
    assert_eq!(sigstrdec("1:0:99.9999:1").unwrap()[0].dutycyclephase(), TURN - 1_440);
    assert_eq!(sigstrdec("1:0:0.001:1").unwrap()[0].dutycyclephase(), 1_440);
    assert_eq!(sigstrdec("1:0:99.999:1").unwrap()[0].dutycyclephase(), TURN - 1_440);
}

#[test]
fn one_signal_alone_is_decoded_from_bytes() {
    let sig = sigdec(b"1000:0:25:5000").unwrap();
    assert_eq!(sig.frequency(), 1_000_000);
    assert_eq!(sig.dutycyclephase(), TURN / 4);
    assert_eq!(sig.amplitude(), 5_000_000);
    assert_eq!(sigdec(b""), Err(SigError::Fields));
    assert_eq!(sigdec(b"1 2:0:25:5000"), Err(SigError::Number));
}

#[test]
fn a_description_is_made_from_thousandths() {
    assert_eq!(Sigparam::new(0, MAX_MILLI + 1, 0, 0), Err(SigError::Number));
    assert_eq!(Sigparam::new(0, -MAX_MILLI - 1, 0, 0), Err(SigError::Number));
    assert_eq!(Sigparam::new(-1, MAX_MILLI + 1, 0, -1), Err(SigError::Number));
    assert_eq!(Sigparam::new(24_000_001, 0, 0, 0), Err(SigError::Frequency));
    assert_eq!(Sigparam::new(24_000_001, 0, 0, -1), Err(SigError::Frequency));
    assert_eq!(Sigparam::new(0, 0, 0, 32_767_001), Err(SigError::Amplitude));
    let sig = Sigparam::new(24_000_000, MAX_MILLI, i64::MAX, 32_767_000).unwrap();
    assert_eq!(sig.phasestep(), TURN / 2);
    assert_eq!(sig.phase(), 399_999_999_999_999_600);
    assert_eq!(sig.dutycyclephase(), TURN - 1);
    let low = Sigparam::new(0, -MAX_MILLI, i64::MIN, 0).unwrap();
    assert_eq!(low.phase(), -399_999_999_999_999_600);
    assert_eq!(low.dutycyclephase(), 1);
}
