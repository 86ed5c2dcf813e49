use chaosymmetry::color::scale::log2_floor;
use chaosymmetry::color::scale::ColorScale;
use chaosymmetry::color::scale::LinearColorScale;
use chaosymmetry::color::scale::LogColorScale;
use chaosymmetry::color::ScaleValue;

fn as_f64(s: ScaleValue) -> f64 {
    s.num as f64 / s.den as f64
}

#[test]
fn linear_scale_from_freq_simple() {
    let mut scale = LinearColorScale::default();
    let freqs = vec![vec![0, 1, 0], vec![1, 2, 1], vec![0, 1, 0]];
    scale.init_from_freq(&freqs);

    assert_eq!(scale.min_freq, 1);
    assert_eq!(scale.max_freq, 2);
}

#[test]
fn linear_scale_coloring() {
    let scale = LinearColorScale {
        min_freq: 10,
        max_freq: 20,
    };

    assert_eq!(as_f64(scale.freq_to_scale(10)), 0.0);
    assert_eq!(as_f64(scale.freq_to_scale(15)), 0.5);
    assert_eq!(as_f64(scale.freq_to_scale(20)), 1.0);
}

#[test]
fn log_scale_from_freq_simple() {
    let mut scale = LogColorScale::default();
    let freqs = vec![vec![0, 1, 0], vec![1, 1024, 1], vec![0, 1, 0]];
    scale.init_from_freq(&freqs);

    assert_eq!(scale.min_log, 0);
    assert_eq!(scale.max_log, 10);
}

#[test]
fn log_scale_coloring() {
    let scale = LogColorScale {
        min_log: 0,
        max_log: 10,
    };

    assert_eq!(as_f64(scale.freq_to_scale(1)), 0.0);
    assert_eq!(as_f64(scale.freq_to_scale(8)), 0.3);
    assert_eq!(as_f64(scale.freq_to_scale(256)), 0.8);
    assert_eq!(as_f64(scale.freq_to_scale(512)), 0.9);
    assert_eq!(as_f64(scale.freq_to_scale(1024)), 1.0);
}

#[test]
fn linear_scale_extremes_on_cross_histogram() {
    // The cross-shaped histogram: min positive count 1, max count 2.
    let mut scale = LinearColorScale::default();
    let freqs = vec![vec![0, 1, 0], vec![1, 2, 1], vec![0, 1, 0]];
    scale.init_from_freq(&freqs);

    assert_eq!(as_f64(scale.freq_to_scale(0)), 0.0);
    assert_eq!(as_f64(scale.freq_to_scale(1)), 0.0);
    assert_eq!(as_f64(scale.freq_to_scale(2)), 1.0);
}

#[test]
fn linear_scale_uniform_histogram_maps_max_to_one() {
    // Every positive cell holds the same count, so min == max; the maximum
    // observed count still maps to 1 and zero still maps to 0.
    let mut scale = LinearColorScale::default();
    let freqs = vec![vec![5, 5], vec![5, 5]];
    scale.init_from_freq(&freqs);

    assert_eq!(as_f64(scale.freq_to_scale(0)), 0.0);
    assert_eq!(as_f64(scale.freq_to_scale(5)), 1.0);
}

#[test]
fn log_scale_two_powers() {
    // Counts {1, 1024}: the log range is [0, 10].
    let mut scale = LogColorScale::default();
    let freqs = vec![vec![1, 1024]];
    scale.init_from_freq(&freqs);

    assert_eq!(scale.min_log, 0);
    assert_eq!(scale.max_log, 10);
    assert_eq!(as_f64(scale.freq_to_scale(8)), 0.3);
    assert_eq!(as_f64(scale.freq_to_scale(256)), 0.8);
}

#[test]
fn calibration_is_idempotent() {
    let freqs = vec![vec![0, 3, 9], vec![27, 0, 81]];

    let mut lin1 = LinearColorScale::default();
    lin1.init_from_freq(&freqs);
    let probe: Vec<ScaleValue> = (0..100).map(|c| lin1.freq_to_scale(c)).collect();
    lin1.init_from_freq(&freqs);
    let probe2: Vec<ScaleValue> = (0..100).map(|c| lin1.freq_to_scale(c)).collect();
    assert_eq!(probe, probe2);

    let mut lg = LogColorScale::default();
    lg.init_from_freq(&freqs);
    let lp: Vec<ScaleValue> = (0..100).map(|c| lg.freq_to_scale(c)).collect();
    lg.init_from_freq(&freqs);
    let lp2: Vec<ScaleValue> = (0..100).map(|c| lg.freq_to_scale(c)).collect();
    assert_eq!(lp, lp2);
}

#[test]
fn scale_dispatch_matches_variants() {
    let freqs = vec![vec![0, 2, 8]];

    let mut lin = ColorScale::Linear(LinearColorScale::default());
    lin.init_from_freq(&freqs);
    // min 2, max 8: count 5 maps to 3/6.
    let s = lin.freq_to_scale(5);
    assert_eq!(as_f64(s), 0.5);

    let mut lg = ColorScale::Log(LogColorScale::default());
    lg.init_from_freq(&freqs);
    // log range [1, 3]: count 4 maps to (2 - 1) / 2.
    let s = lg.freq_to_scale(4);
    assert_eq!(as_f64(s), 0.5);
}

#[test]
fn log2_floor_exact_values() {
    assert_eq!(log2_floor(1), 0);
    assert_eq!(log2_floor(2), 1);
    assert_eq!(log2_floor(3), 1);
    assert_eq!(log2_floor(4), 2);
    assert_eq!(log2_floor(1023), 9);
    assert_eq!(log2_floor(1024), 10);
    assert_eq!(log2_floor(u64::MAX), 63);
}

#[test]
fn all_zero_histogram_keeps_zero_black_free() {
    // With no positive cells the sentinels are in place and every positive
    // probe maps to 1, while zero still maps to 0.
    let mut scale = LinearColorScale::default();
    let freqs = vec![vec![0, 0], vec![0, 0]];
    scale.init_from_freq(&freqs);

    assert_eq!(scale.min_freq, u64::MAX);
    assert_eq!(scale.max_freq, 0);
    assert_eq!(as_f64(scale.freq_to_scale(0)), 0.0);
}
