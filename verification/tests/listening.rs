//! What the sound comes to: the spectrogram, the labels it scores, and the
//! windows that pass through.

use describe::double::{is_probability, whole};
use describe::fbank::{
    extract, frame_row, mel_filter_bank, num_frames, project, Formulas, FRAME_LENGTH, HOP_LENGTH,
    MAX_FRAMES, NUM_FREQ_BINS, NUM_MEL_BINS, SAMPLE_RATE,
};
use describe::fourier::fft;
use describe::host::{AudioFormat, Format, FramePayload, Rational, TensorType, VideoFormat};
use describe::labels::{label, labels, top_labels, COUNT};
use describe::sounds::{
    answer, ask, is_repeat, label_set, parse_params, ticks_of_samples, Heard, Opened, OutFrame,
    Params, RawParams, STRIDE, WINDOW,
};
use describe::words::{le_bytes, le_f32s};
use std::f64::consts::PI;

fn sine(count: usize, hz: f64) -> Vec<f32> {
    (0..count)
        .map(|i| (2.0 * PI * hz * i as f64 / f64::from(SAMPLE_RATE)).sin() as f32)
        .collect()
}

const NORM_MEAN: f64 = -4.267_739_3;
const NORM_STD: f64 = 4.568_997_4;
const MEL_FLOOR: f64 = 1.192_092_955_078_125e-7;
const PREEMPHASIS: f64 = 0.97;

fn hertz_to_mel(hertz: f64) -> f64 {
    1127.0 * (1.0 + hertz / 700.0).ln()
}

fn filters() -> Vec<f64> {
    let (low, high) = (hertz_to_mel(20.0), hertz_to_mel(f64::from(SAMPLE_RATE) / 2.0));
    let step = (high - low) / (NUM_MEL_BINS + 1) as f64;
    let boundaries: Vec<f64> = (0..NUM_MEL_BINS + 2).map(|i| low + step * i as f64).collect();
    let width = f64::from(SAMPLE_RATE) / ((NUM_FREQ_BINS - 1) as f64 * 2.0);
    let freqs: Vec<f64> = (0..NUM_FREQ_BINS).map(|bin| hertz_to_mel(width * bin as f64)).collect();
    mel_filter_bank(&freqs, &boundaries, &|freq: f64, low: f64, peak: f64, high: f64| {
        ((freq - low) / (peak - low)).min((high - freq) / (high - peak)).max(0.0)
    })
}

fn step(len: usize) -> (f64, f64) {
    let angle = -2.0 * PI / len as f64;
    (angle.cos(), angle.sin())
}

fn times(a: (f64, f64), b: (f64, f64)) -> (f64, f64) {
    (a.0 * b.0 - a.1 * b.1, a.0 * b.1 + a.1 * b.0)
}

fn butterfly(u: (f64, f64), b: (f64, f64), w: (f64, f64)) -> ((f64, f64), (f64, f64)) {
    let v = times(b, w);
    ((u.0 + v.0, u.1 + v.1), (u.0 - v.0, u.1 - v.1))
}

fn mean(frame: &[f32]) -> f64 {
    frame.iter().map(|s| f64::from(*s)).sum::<f64>() / FRAME_LENGTH as f64
}

fn settle(sample: f32, mean: f64) -> f64 {
    f64::from(sample) - mean
}

fn emphasize(value: f64, before: Option<f64>) -> f64 {
    match before {
        None => value * (1.0 - PREEMPHASIS),
        Some(before) => value - PREEMPHASIS * before,
    }
}

fn taper(n: usize, value: f64) -> (f64, f64) {
    let hann = 0.5 - 0.5 * (2.0 * PI * n as f64 / (FRAME_LENGTH as f64 - 1.0)).cos();
    (value * hann, 0.0)
}

fn power(c: (f64, f64)) -> f64 {
    c.0 * c.0 + c.1 * c.1
}

fn gather(sum: f64, weight: f64, power: f64) -> f64 {
    sum + weight * power
}

fn logged(mel: f64) -> f64 {
    mel.max(MEL_FLOOR).ln()
}

type Complex = (f64, f64);

/// The arithmetic of the reference extractor.
type Reference = Formulas<
    f64,
    Complex,
    Complex,
    fn(&[f32]) -> f64,
    fn(f32, f64) -> f64,
    fn(f64, Option<f64>) -> f64,
    fn(usize, f64) -> Complex,
    fn(usize) -> Complex,
    fn(Complex, Complex) -> Complex,
    fn(Complex, Complex, Complex) -> (Complex, Complex),
    fn(Complex) -> f64,
    fn(f64, f64, f64) -> f64,
    fn(f64) -> f64,
>;

fn reference() -> Reference {
    Formulas {
        mean,
        settle,
        emphasize,
        taper,
        blank: (0.0, 0.0),
        one: (1.0, 0.0),
        step,
        turn: times,
        butterfly,
        power,
        filters: filters(),
        zero: 0.0,
        gather,
        finish: logged,
    }
}

fn normalized(value: f64) -> f32 {
    ((value - NORM_MEAN) / (NORM_STD * 2.0)) as f32
}

fn features_of(samples: &[f32]) -> Vec<f32> {
    extract(samples, &reference(), &normalized)
}

/// An arithmetic under which a frame's row is its first sample throughout, if
/// that is no less than seven.
type Plain = Formulas<
    u32,
    u32,
    (),
    fn(&[u32]) -> u32,
    fn(u32, u32) -> u32,
    fn(u32, Option<u32>) -> u32,
    fn(usize, u32) -> u32,
    fn(usize),
    fn((), ()),
    fn(u32, u32, ()) -> (u32, u32),
    fn(u32) -> u32,
    fn(u32, u32, u32) -> u32,
    fn(u32) -> u32,
>;

fn plain() -> Plain {
    Formulas {
        mean: |frame| frame[0],
        settle: |_, mean| mean,
        emphasize: |value, _| value,
        taper: |_, value| value,
        blank: 0,
        one: (),
        step: |_| (),
        turn: |_, _| (),
        butterfly: |a, b, _| (a, b),
        power: |value| value,
        filters: vec![1; NUM_FREQ_BINS * NUM_MEL_BINS],
        zero: 7,
        gather: |sum, weight, power| sum.max(weight * power),
        finish: |sum| sum,
    }
}

#[test]
fn frame_count_matches_the_no_centering_formula() {
    assert_eq!(num_frames(0), 0);
    assert_eq!(num_frames(399), 0, "under one frame");
    assert_eq!(num_frames(400), 1, "exactly one frame, no hop taken");
    assert_eq!(num_frames(559), 1, "one sample short of a second frame");
    assert_eq!(num_frames(560), 2, "exactly enough for a second frame");
    assert_eq!(num_frames(800), 3, "three 400-sample frames 160 apart");
    assert_eq!(num_frames(160_000), 998, "a 10 s window");
}

#[test]
fn the_fft_matches_a_brute_force_dft_on_a_small_case() {
    // n=8, a mixed real signal: cheap enough to check against the DFT's own
    // definition rather than trust the FFT to check itself.
    let signal: [f64; 8] = [1.0, 2.0, -1.0, 0.5, 0.0, -2.0, 3.0, 1.5];
    let mut values: Vec<(f64, f64)> = signal.iter().map(|x| (*x, 0.0)).collect();
    fft(&mut values, (1.0, 0.0), &step, &times, &butterfly);
    for k in 0..8 {
        let (mut want_re, mut want_im) = (0.0, 0.0);
        for (n, &x) in signal.iter().enumerate() {
            let angle = -2.0 * PI * k as f64 * n as f64 / 8.0;
            want_re += x * angle.cos();
            want_im += x * angle.sin();
        }
        assert!((values[k].0 - want_re).abs() < 1e-9, "bin {k} real");
        assert!((values[k].1 - want_im).abs() < 1e-9, "bin {k} imaginary");
    }
}

#[test]
fn the_fft_reads_its_input_in_reversed_order() {
    // With a butterfly that changes nothing, only the permutation is left.
    let mut values: Vec<u8> = (0..8).collect();
    fft(&mut values, (), &|_| (), &|_, _| (), &|a, b, _| (a, b));
    assert_eq!(values, vec![0, 4, 2, 6, 1, 5, 3, 7]);
    let mut one = vec![9u8];
    fft(&mut one, (), &|_| (), &|_, _| (), &|a, b, _| (a, b));
    assert_eq!(one, vec![9]);
}

#[test]
fn the_fft_is_the_dft_exactly_where_arithmetic_is_exact() {
    // Modulo 17, where two is an eighth root of one.
    let root = |len: usize| -> u64 {
        let mut w = 1;
        for _ in 0..8 / len {
            w = w * 2 % 17;
        }
        w
    };
    let signal: [u64; 8] = [3, 1, 4, 1, 5, 9, 2, 6];
    let mut values = signal.to_vec();
    fft(
        &mut values,
        1,
        &root,
        &|w: u64, by: u64| w * by % 17,
        &|a: u64, b: u64, w: u64| ((a + b * w) % 17, (a + 17 * 17 - b * w) % 17),
    );
    for (k, value) in values.iter().enumerate() {
        let mut want = 0;
        for (i, x) in signal.iter().enumerate() {
            let mut w = 1;
            for _ in 0..i * k {
                w = w * 2 % 17;
            }
            want = (want + x * w) % 17;
        }
        assert_eq!(*value, want, "bin {k}");
    }
}

#[test]
fn every_frame_fits_and_no_other_does() {
    for count in [0, 399, 400, 559, 560, 721, 5_000] {
        let frames = num_frames(count);
        assert!((0..frames).all(|t| t * HOP_LENGTH + FRAME_LENGTH <= count));
        assert!(frames * HOP_LENGTH + FRAME_LENGTH > count);
    }
}

#[test]
fn the_mel_filter_bank_rows_sum_to_no_more_than_the_dc_response() {
    // Each of the 128 triangular filters peaks at 1.0 and is 0 elsewhere in a
    // well-formed bank; a value outside [0, 1] would mean the triangle
    // construction is wrong.
    let filters = filters();
    assert_eq!(filters.len(), NUM_FREQ_BINS * NUM_MEL_BINS);
    for &weight in &filters {
        assert!((0.0..=1.000_001).contains(&weight), "{weight} out of range");
    }
    // At least one filter actually has weight somewhere - an all-zero bank
    // would still pass the range check above.
    assert!(filters.iter().any(|&w| w > 0.0));
}

/// Pinned from `transformers.audio_utils.spectrogram`/`mel_filter_bank` run
/// the way `ASTFeatureExtractor` calls them without `torchaudio` installed,
/// over an 800-sample 440 Hz sine at 16 kHz - three frames. Bins 63, 64 and
/// 127 floor out on every frame of this signal, which is itself part of what
/// the fixture checks.
#[test]
fn fbank_matches_the_reference_extractor_on_a_sine() {
    let samples = sine(800, 440.0);
    assert_eq!(num_frames(samples.len()), 3);

    let expected: [(usize, usize, f64); 15] = [
        (0, 0, -12.743_317_604_064_941),
        (0, 1, -14.231_415_748_596_191),
        (0, 63, -15.942_384_719_848_633),
        (0, 64, -15.942_384_719_848_633),
        (0, 127, -15.942_384_719_848_633),
        (1, 0, -11.045_696_258_544_922),
        (1, 1, -13.163_240_432_739_258),
        (1, 63, -15.942_384_719_848_633),
        (1, 64, -15.942_384_719_848_633),
        (1, 127, -15.942_384_719_848_633),
        (2, 0, -10.674_262_046_813_965),
        (2, 1, -12.854_706_764_221_191),
        (2, 63, -15.942_384_719_848_633),
        (2, 64, -15.942_384_719_848_633),
        (2, 127, -15.942_384_719_848_633),
    ];
    let formulas = reference();
    for (frame, bin, want) in expected {
        let got = frame_row(&samples, frame * HOP_LENGTH, &formulas)[bin];
        assert!(
            (got - want).abs() < 1e-4,
            "frame {frame} bin {bin}: got {got}, want {want}"
        );
    }
}

#[test]
fn extract_pads_short_audio_with_normalized_zero_rows() {
    let samples = sine(800, 440.0);
    let features = features_of(&samples);
    assert_eq!(features.len(), MAX_FRAMES * NUM_MEL_BINS);

    let padded_zero = ((0.0 - NORM_MEAN) / (NORM_STD * 2.0)) as f32;
    // Frame 3 (index 3) was never written by the three real frames.
    let row3 = &features[3 * NUM_MEL_BINS..4 * NUM_MEL_BINS];
    assert!(row3.iter().all(|&v| (v - padded_zero).abs() < 1e-6));
    // The last frame is padding too.
    let last = &features[(MAX_FRAMES - 1) * NUM_MEL_BINS..];
    assert!(last.iter().all(|&v| (v - padded_zero).abs() < 1e-6));

    // Frame 0 is real: its normalized value matches the pinned fbank value at
    // bin 0, through the same normalization `extract` applies.
    let want = ((-12.743_317_604_064_941 - NORM_MEAN) / (NORM_STD * 2.0)) as f32;
    assert!((features[0] - want).abs() < 1e-4);
}

#[test]
fn audio_shorter_than_one_frame_is_all_padding() {
    let features = features_of(&sine(100, 440.0));
    let padded_zero = ((0.0 - NORM_MEAN) / (NORM_STD * 2.0)) as f32;
    assert!(features.iter().all(|&v| (v - padded_zero).abs() < 1e-6));
}

#[test]
fn a_window_wider_than_max_frames_is_truncated_not_overrun() {
    // 1024 frames need 1024*160 + 240 = 164_080 samples; one hop more is 999
    // frames, comfortably past 998 for a 10 s window and enough to prove
    // extract() does not panic or grow past MAX_FRAMES.
    let long = sine(164_080 + HOP_LENGTH * 30, 220.0);
    assert!(num_frames(long.len()) > MAX_FRAMES);
    let features = features_of(&long);
    assert_eq!(features.len(), MAX_FRAMES * NUM_MEL_BINS);
}

#[test]
fn each_row_starts_a_hop_after_the_one_before_it() {
    let long: Vec<u32> = (0..164_080 + HOP_LENGTH as u32 * 30).collect();
    assert!(num_frames(long.len()) > MAX_FRAMES);
    let features = extract(&long, &plain(), &|value: u32| value);
    assert_eq!(features.len(), MAX_FRAMES * NUM_MEL_BINS);
    assert_eq!(features[0], 7, "the frame at zero lies under the floor");
    assert_eq!(features[NUM_MEL_BINS], HOP_LENGTH as u32, "the second row starts a hop later");
    assert_eq!(
        features[MAX_FRAMES * NUM_MEL_BINS - 1],
        ((MAX_FRAMES - 1) * HOP_LENGTH) as u32
    );
}

#[test]
fn a_filter_meets_each_power_with_its_own_weight() {
    let powers: Vec<u64> = (0..NUM_FREQ_BINS as u64).map(|bin| bin % 3).collect();
    let weights: Vec<u64> = (0..(NUM_FREQ_BINS * NUM_MEL_BINS) as u64).collect();
    for mel in [0, 1, NUM_MEL_BINS - 1] {
        let got = project(
            &powers,
            &weights,
            mel,
            5,
            &|sum: u64, weight: u64, power: u64| sum + weight * power,
            &|sum: u64| 2 * sum,
        );
        let mut want = 5;
        for bin in 0..NUM_FREQ_BINS {
            want += (bin % 3) as u64 * (bin * NUM_MEL_BINS + mel) as u64;
        }
        assert_eq!(got, 2 * want, "filter {mel}");
    }
}

#[test]
fn there_are_exactly_527_labels_in_config_json_order() {
    assert_eq!(labels().len(), COUNT);
    assert_eq!(label(0), Some("Speech"));
    assert_eq!(label(1), Some("Male speech, man speaking"));
    assert_eq!(label(501), Some("Sine wave"));
    assert_eq!(label(526), Some("Field recording"));
    assert_eq!(label(527), None);
}

#[test]
fn no_label_repeats() {
    let all = labels();
    for (i, a) in all.iter().enumerate() {
        for b in &all[i + 1..] {
            assert_ne!(a, b, "{a} appears twice");
        }
    }
}

/// A logit's probability.
fn sigmoid(logit: f32) -> f64 {
    1.0 / (1.0 + (-f64::from(logit)).exp())
}

/// A logit's probability, as a bit pattern.
fn score(logit: u32) -> Option<u64> {
    let probability = sigmoid(f32::from_bits(logit));
    (!probability.is_nan()).then(|| probability.to_bits())
}

/// The labels picked from logits, each with its probability.
fn picked(logits: &[f32; COUNT], threshold: f64, top: usize) -> Vec<(usize, f64)> {
    let scores: Vec<Option<u64>> = logits.iter().map(|l| score(l.to_bits())).collect();
    top_labels(&scores, threshold.to_bits(), top)
        .into_iter()
        .map(|(index, bits)| (index, f64::from_bits(bits)))
        .collect()
}

/// A logit of 0 is a probability of exactly 0.5, so it is the cleanest value
/// to pin a threshold test on.
#[test]
fn a_class_at_the_threshold_is_kept_and_just_under_it_is_not() {
    let mut logits = [-100.0f32; COUNT];
    logits[501] = 0.0;
    assert_eq!(picked(&logits, 0.5, 10), vec![(501, 0.5)], "0.5 is not below 0.5");

    logits[501] = -0.001;
    assert!(picked(&logits, 0.5, 10).is_empty(), "just under 0.5 is excluded");
}

#[test]
fn only_the_top_n_scores_survive_highest_first() {
    let mut logits = [-100.0f32; COUNT];
    logits[0] = 1.0; // sigmoid(1) ~= 0.731
    logits[1] = 5.0; // sigmoid(5) ~= 0.993
    logits[2] = 3.0; // sigmoid(3) ~= 0.953
    let picked = picked(&logits, 0.0, 2);
    assert_eq!(picked.len(), 2);
    assert_eq!(picked[0].0, 1, "highest score first");
    assert_eq!(picked[1].0, 2);
}

#[test]
fn a_top_of_zero_keeps_nothing() {
    let logits = [100.0f32; COUNT];
    assert!(picked(&logits, 0.0, 0).is_empty());
}

#[test]
fn equal_scores_keep_class_order_and_no_number_is_no_score() {
    let mut logits = [-100.0f32; COUNT];
    logits[7] = 2.0;
    logits[3] = 2.0;
    logits[5] = f32::NAN;
    let found: Vec<usize> = picked(&logits, 0.5, 10).into_iter().map(|(i, _)| i).collect();
    assert_eq!(found, vec![3, 7]);
}

/// The parameters a JSON text spells, field by field.
fn parse(text: &str) -> Result<RawParams, String> {
    let value: serde_json::Value = serde_json::from_str(text).map_err(|e| e.to_string())?;
    let object = value.as_object().ok_or_else(|| "not an object".to_string())?;
    let mut raw = RawParams {
        threshold: 0.3f64.to_bits(),
        top: 3.0f64.to_bits(),
    };
    for (name, value) in object {
        let number = value.as_f64().ok_or_else(|| format!("{name} is no number"))?.to_bits();
        match name.as_str() {
            "threshold" => raw.threshold = number,
            "top" => raw.top = number,
            other => return Err(format!("unknown field `{other}`")),
        }
    }
    Ok(raw)
}

fn show(bits: u64) -> String {
    f64::from_bits(bits).to_string()
}

fn params(written: &str) -> Result<Params, String> {
    parse_params(written, &parse, &show)
}

#[test]
fn no_params_at_all_are_the_defaults() {
    for written in ["", "{}", "  "] {
        let parsed = params(written).expect("the defaults");
        assert_eq!(f64::from_bits(parsed.threshold), 0.3);
        assert_eq!(parsed.top, 3);
    }
}

#[test]
fn each_parameter_can_be_set_on_its_own() {
    let parsed = params(r#"{"threshold":0.8}"#).expect("one of them");
    assert_eq!(f64::from_bits(parsed.threshold), 0.8);
    assert_eq!(parsed.top, 3, "the rest keep their defaults");

    let parsed = params(r#"{"top":5}"#).expect("the other one");
    assert_eq!(f64::from_bits(parsed.threshold), 0.3);
    assert_eq!(parsed.top, 5);
}

#[test]
fn a_threshold_outside_a_probability_is_refused() {
    assert!(params(r#"{"threshold":1.5}"#).is_err());
    assert!(params(r#"{"threshold":-0.1}"#).is_err());
    assert_eq!(
        params(r#"{"threshold":1.5}"#).err().as_deref(),
        Some("sounds: threshold is a probability, and 1.5 is not between 0 and 1")
    );
}

#[test]
fn a_top_that_is_not_a_non_negative_whole_number_is_refused() {
    assert!(params(r#"{"top":-1}"#).is_err());
    assert!(params(r#"{"top":2.5}"#).is_err());
    assert!(params(r#"{"top":0}"#).is_ok(), "zero is whole");
    assert_eq!(
        params(r#"{"top":2.5}"#).err().as_deref(),
        Some("sounds: top is a count of labels, and 2.5 is not a whole number at least 0")
    );
}

#[test]
fn a_parameter_this_module_does_not_have_is_refused() {
    assert!(params(r#"{"treshold":0.5}"#).is_err());
    assert_eq!(
        params(r#" {"treshold":0.5} "#).err().as_deref(),
        Some("sounds: bad params: unknown field `treshold`")
    );
}

#[test]
fn a_pattern_is_judged_by_the_number_it_stands_for() {
    for (number, probable) in [
        (0.0, true),
        (-0.0, true),
        (f64::MIN_POSITIVE, true),
        (0.999_999, true),
        (1.0, true),
        (1.000_000_000_000_001, false),
        (-5e-324, false),
        (f64::INFINITY, false),
        (f64::NAN, false),
    ] {
        assert_eq!(is_probability(number.to_bits()), probable, "{number}");
    }
    for (number, count) in [
        (0.0, Some(0)),
        (-0.0, Some(0)),
        (1.0, Some(1)),
        (3.0, Some(3)),
        (2_251_799_813_685_248.5, None),
        (4_503_599_627_370_497.0, Some(4_503_599_627_370_497)),
        (36_028_797_018_963_968.0, Some(36_028_797_018_963_968)),
        (1e300, Some(usize::MAX)),
        (0.5, None),
        (1e-300, None),
        (-1.0, None),
        (f64::INFINITY, None),
        (f64::NAN, None),
    ] {
        assert_eq!(whole(f64::to_bits(number)), count, "{number}");
    }
}

#[test]
fn patterns_order_as_the_numbers_they_stand_for() {
    let numbers = [0.0, 5e-324, 1e-310, f64::MIN_POSITIVE, 0.3, 0.5, 1.0, 2.5, 1e300];
    for pair in numbers.windows(2) {
        assert!(pair[0] < pair[1] && pair[0].to_bits() < pair[1].to_bits());
    }
}

#[test]
fn label_set_ignores_rank_order() {
    assert_eq!(
        label_set(&["Speech", "Music"]),
        label_set(&["Music", "Speech"])
    );
    assert_eq!(label_set(&["b", "ab", "a", "B", ""]), vec!["", "B", "a", "ab", "b"]);
}

#[test]
fn is_repeat_is_false_before_the_first_window() {
    assert!(!is_repeat(&None, &["Speech"]));
}

#[test]
fn is_repeat_is_true_for_the_same_set_in_a_different_order() {
    let previous = Some(label_set(&["Speech", "Music"]));
    assert!(is_repeat(&previous, &["Music", "Speech"]));
}

#[test]
fn is_repeat_is_false_for_a_different_set() {
    let previous = Some(label_set(&["Speech"]));
    assert!(!is_repeat(&previous, &["Music"]));
    // A subset or superset is still a different set.
    assert!(!is_repeat(&previous, &["Speech", "Music"]));
}

#[test]
fn the_stride_is_half_the_window() {
    assert_eq!(WINDOW, STRIDE * 2, "consecutive clips overlap by half");
    assert_eq!(WINDOW, SAMPLE_RATE * 10);
}

#[test]
fn floats_survive_the_trip_through_a_tensors_bytes() {
    let values = [0.0f32, -1.0, 0.5, f32::MIN_POSITIVE];
    let words: Vec<u32> = values.iter().map(|v| v.to_bits()).collect();
    let back: Vec<f32> = le_f32s(&le_bytes(&words)).into_iter().map(f32::from_bits).collect();
    assert_eq!(back, values);
}

#[test]
fn samples_become_ticks_at_one_tick_per_sample() {
    // At one tick per sample, which is what a stream of this rate is counted
    // in, samples are ticks.
    assert_eq!(ticks_of_samples(80_000, 1, SAMPLE_RATE as i32), 80_000);
    assert_eq!(ticks_of_samples(0, 1, SAMPLE_RATE as i32), 0);
}

#[test]
fn samples_round_to_the_nearest_tick() {
    assert_eq!(ticks_of_samples(16_000, 1, 1000), 1000);
    assert_eq!(ticks_of_samples(8, 1, 1000), 1, "half a tick rounds up");
    assert_eq!(ticks_of_samples(7, 1, 1000), 0);
    assert_eq!(ticks_of_samples(8, -1, 1000), -1, "and away from zero");
    assert_eq!(ticks_of_samples(1, 0, 1000), i64::MAX, "no time at all takes every tick");
    assert_eq!(ticks_of_samples(1, 0, 0), 0);
}

/// One tick a sample.
const SAMPLES: Rational = Rational { num: 1, den: 16_000 };

fn listening() -> Opened {
    let format = Format::Audio(AudioFormat {
        sample_fmt: "f32".to_string(),
        sample_rate: 16_000,
        channels: 1,
    });
    Opened::init(&format, SAMPLES, "", &parse, &show).expect("mono floats at 16 kHz")
}

fn sent(frames: &[OutFrame]) -> Vec<u32> {
    let mut words = Vec::new();
    for frame in frames {
        match &frame.frame {
            FramePayload::New(bytes) => words.extend(le_f32s(bytes)),
            FramePayload::Same => panic!("an overlapping window is never passed through whole"),
        }
    }
    words
}

fn texts(frame: &OutFrame) -> Vec<&'static str> {
    frame.rows.iter().map(|cue| cue.text).collect()
}

#[test]
fn overlapping_windows_send_every_sample_once() {
    let stream: Vec<u32> = (0..20).collect();
    let window = |from: usize, to: usize, found: Vec<&'static str>| Heard {
        pts: 500 + from as i64,
        samples: stream[from..to].to_vec(),
        found,
    };
    let mut opened = listening();
    let windows = vec![
        window(0, 8, vec!["Speech"]),
        window(4, 12, vec!["Speech"]),
        window(8, 16, vec!["Music", "Speech"]),
        window(12, 20, vec!["Speech", "Music"]),
    ];
    let frames = opened.process(&windows);
    assert_eq!(sent(&frames), stream, "what is sent is what was heard");
    assert_eq!(
        frames.iter().map(|f| f.pts).collect::<Vec<_>>(),
        vec![500, 508, 512, 516],
        "each frame at its first sample not sent before"
    );
    assert_eq!(
        frames.iter().map(texts).collect::<Vec<_>>(),
        vec![vec!["Speech"], vec![], vec!["Music", "Speech"], vec![]],
        "only news leaves rows"
    );
    assert_eq!((frames[2].rows[0].pts, frames[2].rows[0].samples), (508, 8));
}

#[test]
fn calls_join_however_the_windows_are_handed_over() {
    let window = |from: u32, found: Vec<&'static str>| Heard {
        pts: i64::from(from),
        samples: (from..from + 8).collect(),
        found,
    };
    let windows = || {
        vec![
            window(0, vec!["Speech"]),
            window(4, vec!["Music", "Speech"]),
            window(8, vec!["Speech", "Music"]),
        ]
    };
    let at_once = listening().process(&windows());
    let mut parts = listening();
    let mut frames = Vec::new();
    for heard in windows() {
        frames.extend(parts.process(&vec![heard]));
    }
    assert_eq!(sent(&frames), sent(&at_once));
    assert_eq!(
        frames.iter().map(|f| (f.pts, texts(f))).collect::<Vec<_>>(),
        at_once.iter().map(|f| (f.pts, texts(f))).collect::<Vec<_>>()
    );
}

#[test]
fn after_the_first_window_a_stride_leaves_each_time() {
    let mut opened = listening();
    let mut counts = Vec::new();
    for i in 0..3i64 {
        let samples = vec![0u32; WINDOW as usize];
        let out = opened.step(i * i64::from(STRIDE), &samples, &[]).expect("new samples");
        counts.push(sent(&[out]).len());
    }
    assert_eq!(counts, vec![WINDOW as usize, STRIDE as usize, STRIDE as usize]);
}

#[test]
fn every_sample_past_the_first_quarter_is_in_the_middle_of_one_window() {
    let (window, stride) = (WINDOW as usize, STRIDE as usize);
    for at in [40_000, 79_999, 80_000, 119_999, 120_000, 199_999, 1_000_000] {
        let middles = (0..20)
            .filter(|k| (k * stride + window / 4..k * stride + 3 * window / 4).contains(&at))
            .count();
        assert_eq!(middles, 1, "sample {at}");
    }
}

#[test]
fn the_labels_do_not_touch_the_audio() {
    let mut quiet = listening();
    let mut loud = listening();
    for (pts, samples) in [(0, [1u32, 2, 3, 4]), (2, [3, 4, 5, 6])] {
        let a = quiet.step(pts, &samples, &[]).expect("new samples");
        let b = loud.step(pts, &samples, &["Music", "Speech"]).expect("new samples");
        assert_eq!(a.pts, b.pts);
        assert_eq!(sent(&[a]), sent(&[b]));
    }
}

#[test]
fn a_window_with_nothing_new_leaves_rows_alone_or_nothing() {
    let mut opened = listening();
    assert!(opened.step(0, &[1, 2, 3, 4], &["Speech"]).is_some());
    assert!(opened.step(0, &[1, 2, 3, 4], &["Speech"]).is_none(), "nothing new at all");
    let rows_alone = opened.step(0, &[1, 2, 3, 4], &["Music"]).expect("the labels are new");
    assert_eq!(sent(&[rows_alone]).len(), 0);
    assert!(opened.step(4, &[], &[]).is_none(), "an empty window");
    assert_eq!(opened.emitted_through, Some((0, 4)), "which moves nothing");
}

#[test]
fn a_gap_between_windows_skips_nothing() {
    let mut opened = listening();
    opened.step(0, &[1, 2], &[]);
    let out = opened.step(10, &[3, 4], &[]).expect("new samples");
    assert_eq!(out.pts, 10);
    assert_eq!(sent(&[out]), vec![3, 4]);
}

#[test]
fn a_window_is_stamped_as_far_as_its_first_new_sample() {
    let heard = |pts: i64, count: usize| Heard { pts, samples: vec![0; count], found: vec![] };
    let mut opened = listening();
    // The window runs past the last timestamp there is, and is stamped before.
    let late = vec![heard(i64::MAX - 2, 8)];
    assert!(opened.can_stamp(&late));
    assert_eq!(opened.process(&late)[0].pts, i64::MAX - 2);
    // Four samples sent already and nothing to say: nothing is left to stamp.
    assert!(opened.can_stamp(&vec![heard(i64::MAX - 1, 4)]));
    assert!(opened.process(&vec![heard(i64::MAX - 1, 4)]).is_empty());
    let news = Heard { pts: i64::MAX - 1, samples: vec![0; 4], found: vec!["Speech"] };
    let mut said = listening();
    said.process(&late);
    assert!(!said.can_stamp(&vec![news]), "a label would be stamped past the end");
    assert!(!listening().can_stamp(&vec![heard(i64::MAX - 3, 8), heard(i64::MAX - 1, 8)]));
    assert!(listening().can_stamp(&vec![heard(i64::MAX - 3, 8), heard(i64::MAX, 0)]));
}

#[test]
fn coarse_ticks_skip_the_nearest_sample() {
    let mut opened = listening();
    opened.time_base = Rational { num: 1, den: 1000 };
    // 24 samples are a tick and a half; a window one tick later shares eight.
    opened.step(0, &[0; 24], &[]);
    let out = opened.step(1, &(0..24).collect::<Vec<u32>>(), &[]).expect("new samples");
    assert_eq!(out.pts, 2, "half a tick rounds up");
    assert_eq!(sent(&[out])[0], 8);
}

#[test]
fn a_stream_that_is_not_mono_floats_at_16_khz_is_refused() {
    let audio = |sample_fmt: &str, sample_rate: u32, channels: u32| {
        Format::Audio(AudioFormat {
            sample_fmt: sample_fmt.to_string(),
            sample_rate,
            channels,
        })
    };
    let video = Format::Video(VideoFormat {
        pix_fmt: "rgba".to_string(),
        width: 1,
        height: 1,
    });
    let refused = |format: &Format, params: &str| {
        Opened::init(format, SAMPLES, params, &parse, &show).err().unwrap_or_default()
    };
    assert_eq!(refused(&video, ""), "sounds listens to samples, and this stream is video");
    assert_eq!(
        refused(&audio("s16", 8_000, 2), ""),
        "sounds does not accept sample format s16"
    );
    assert_eq!(
        refused(&audio("f32", 48_000, 2), ""),
        "sounds listens at 16000 Hz, and this instance is 48000 Hz"
    );
    assert_eq!(
        refused(&audio("f32", 16_000, 2), "x"),
        "sounds listens in mono, and this instance has 2 channels"
    );
    assert!(refused(&audio("f32", 16_000, 1), "x").starts_with("sounds: bad params: "));
}

#[test]
fn new_params_take_hold_and_refused_ones_do_not() {
    let mut opened = listening();
    assert!(opened.set_params(r#"{"threshold":0.5,"top":1}"#, &parse, &show).is_ok());
    assert_eq!((f64::from_bits(opened.threshold), opened.top), (0.5, 1));
    assert!(opened.set_params(r#"{"top":-1}"#, &parse, &show).is_err());
    assert_eq!((f64::from_bits(opened.threshold), opened.top), (0.5, 1));
}

#[test]
fn sounds_says_what_it_is() {
    let meta = describe::sounds::describe();
    assert_eq!(meta.meta.name, "sounds");
    assert_eq!(meta.meta.sample_formats, vec!["f32"]);
    assert_eq!(meta.meta.sample_rates, vec![16_000]);
    assert_eq!(meta.meta.channel_counts, vec![1]);
    assert_eq!((meta.window, meta.stride), (WINDOW, STRIDE));
    assert!(!meta.reads_rows && !meta.forwards_rows && meta.one_to_one && !meta.pure);
}

#[test]
fn the_classifier_is_fed_its_features_unless_there_is_no_frame() {
    let samples: Vec<u32> = (100..660).collect();
    let feed = ask(&samples, &plain(), &|value: u32| value + 1).expect("two frames");
    assert_eq!(feed.name, "input_values");
    assert_eq!(feed.dims, vec![1, 1024, 128]);
    assert!(matches!(feed.ty, TensorType::Fp32));
    let words = le_f32s(&feed.data);
    assert_eq!(words.len(), 1024 * 128);
    assert_eq!((words[0], words[128], words[256]), (101, 261, 8));
    assert!(ask(&samples[..399], &plain(), &|value: u32| value).is_none());
}

fn logits_named(name: &str, logits: &[f32]) -> Vec<(String, Vec<u8>)> {
    let words: Vec<u32> = logits.iter().map(|l| l.to_bits()).collect();
    vec![("other".to_string(), Vec::new()), (name.to_string(), le_bytes(&words))]
}

#[test]
fn an_answer_becomes_the_names_of_its_best_classes() {
    let mut logits = [-100.0f32; COUNT];
    logits[501] = 4.0;
    logits[0] = 1.0;
    logits[137] = 2.0;
    let outputs = logits_named("logits", &logits);
    let found = answer(&outputs, 0.3f64.to_bits(), 3, &score).expect("527 logits");
    assert_eq!(found, vec!["Sine wave", label(137).expect("a class"), "Speech"]);
    let best = answer(&outputs, 0.3f64.to_bits(), 1, &score).expect("527 logits");
    assert_eq!(best, vec!["Sine wave"]);
}

#[test]
fn an_answer_of_another_name_or_length_is_refused() {
    let threshold = 0.3f64.to_bits();
    assert_eq!(
        answer(&logits_named("scores", &[0.0; COUNT]), threshold, 3, &score).err().as_deref(),
        Some("sounds: the graph returned no tensor named logits")
    );
    assert_eq!(
        answer(&logits_named("logits", &[0.0; 10]), threshold, 3, &score).err().as_deref(),
        Some("sounds: the graph returned 10 logit(s), expected 527")
    );
}
