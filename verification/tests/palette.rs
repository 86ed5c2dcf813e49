use chaosymmetry::color::palette::Buckets;
use chaosymmetry::color::palette::GradientError;
use chaosymmetry::color::palette::Grayscale;
use chaosymmetry::color::palette::NaiveGradient;
use chaosymmetry::color::palette::Stop;
use chaosymmetry::color::ScaleValue;

fn half() -> ScaleValue {
    ScaleValue { num: 1, den: 2 }
}

fn quarter() -> ScaleValue {
    ScaleValue { num: 1, den: 4 }
}

fn three_quarters() -> ScaleValue {
    ScaleValue { num: 3, den: 4 }
}

#[test]
fn test_grayscale() {
    let coloring = Grayscale {};

    assert_eq!(coloring.color_from_scale(ScaleValue::zero()), [u8::MAX; 4]);
    assert_eq!(coloring.color_from_scale(half()), [127, 127, 127, u8::MAX]);
    assert_eq!(
        coloring.color_from_scale(ScaleValue::one()),
        [u8::MIN, u8::MIN, u8::MIN, u8::MAX]
    );
}

#[test]
fn linear_gradient_grayscale() {
    let coloring: NaiveGradient =
        NaiveGradient::try_from(vec![[u8::MIN; 4], [u8::MAX; 4]], vec![]).unwrap();

    assert_eq!(coloring.color_from_scale(ScaleValue::zero()), [u8::MIN; 4]);
    assert_eq!(coloring.color_from_scale(half()), [127; 4]);
    assert_eq!(coloring.color_from_scale(ScaleValue::one()), [u8::MAX; 4]);
}

#[test]
fn linear_gradient_three_stops() {
    let coloring: NaiveGradient = NaiveGradient::try_from(
        vec![[u8::MIN; 4], [u8::MAX; 4], [u8::MIN; 4]],
        vec![Stop { num: 1, den: 2 }],
    )
    .unwrap();

    assert_eq!(coloring.color_from_scale(ScaleValue::zero()), [u8::MIN; 4]);
    assert_eq!(coloring.color_from_scale(quarter()), [127; 4]);
    assert_eq!(coloring.color_from_scale(half()), [u8::MAX; 4]);
    assert_eq!(coloring.color_from_scale(three_quarters()), [127; 4]);
    assert_eq!(coloring.color_from_scale(ScaleValue::one()), [u8::MIN; 4]);
}

#[test]
fn two_buckets() {
    let coloring = Buckets {
        colors: vec![[u8::MIN; 4], [u8::MAX; 4]],
    };

    assert_eq!(coloring.color_from_scale(ScaleValue::zero()), [u8::MIN; 4]);
    assert_eq!(coloring.color_from_scale(quarter()), [u8::MIN; 4]);
    assert_eq!(coloring.color_from_scale(half()), [u8::MAX; 4]);
    assert_eq!(coloring.color_from_scale(three_quarters()), [u8::MAX; 4]);
    assert_eq!(coloring.color_from_scale(ScaleValue::one()), [u8::MAX; 4]);
}

#[test]
fn three_buckets() {
    let coloring = Buckets {
        colors: vec![[u8::MIN; 4], [127; 4], [u8::MAX; 4]],
    };

    assert_eq!(coloring.color_from_scale(ScaleValue::zero()), [u8::MIN; 4]);
    assert_eq!(coloring.color_from_scale(quarter()), [u8::MIN; 4]);
    assert_eq!(coloring.color_from_scale(half()), [127; 4]);
    assert_eq!(coloring.color_from_scale(three_quarters()), [u8::MAX; 4]);
    assert_eq!(coloring.color_from_scale(ScaleValue::one()), [u8::MAX; 4]);
}

#[test]
fn gradient_rejects_count_mismatch() {
    let r = NaiveGradient::try_from(vec![[0; 4]], vec![]);
    assert_eq!(r.err(), Some(GradientError::CountMismatch));

    let r = NaiveGradient::try_from(vec![[0; 4], [1; 4]], vec![Stop { num: 1, den: 2 }]);
    assert_eq!(r.err(), Some(GradientError::CountMismatch));
}

#[test]
fn gradient_rejects_unsorted_stops() {
    let r = NaiveGradient::try_from(
        vec![[0; 4], [1; 4], [2; 4], [3; 4]],
        vec![Stop { num: 1, den: 2 }, Stop { num: 1, den: 4 }],
    );
    assert_eq!(r.err(), Some(GradientError::UnsortedStops));

    // Equal stops are not strictly increasing either.
    let r = NaiveGradient::try_from(
        vec![[0; 4], [1; 4], [2; 4], [3; 4]],
        vec![Stop { num: 1, den: 2 }, Stop { num: 2, den: 4 }],
    );
    assert_eq!(r.err(), Some(GradientError::UnsortedStops));
}

#[test]
fn gradient_rejects_stop_out_of_range() {
    // A stop of exactly 0.
    let r = NaiveGradient::try_from(
        vec![[0; 4], [1; 4], [2; 4]],
        vec![Stop { num: 0, den: 2 }],
    );
    assert_eq!(r.err(), Some(GradientError::StopOutOfRange));

    // A stop of exactly 1.
    let r = NaiveGradient::try_from(
        vec![[0; 4], [1; 4], [2; 4]],
        vec![Stop { num: 2, den: 2 }],
    );
    assert_eq!(r.err(), Some(GradientError::StopOutOfRange));

    // A malformed fraction.
    let r = NaiveGradient::try_from(
        vec![[0; 4], [1; 4], [2; 4]],
        vec![Stop { num: 1, den: 0 }],
    );
    assert_eq!(r.err(), Some(GradientError::StopOutOfRange));
}

#[test]
fn gradient_endpoints_hit_first_and_last_color() {
    let coloring = NaiveGradient::try_from(
        vec![[10, 20, 30, 40], [50, 60, 70, 80], [90, 100, 110, 120]],
        vec![Stop { num: 1, den: 3 }],
    )
    .unwrap();

    assert_eq!(coloring.color_from_scale(ScaleValue::zero()), [10, 20, 30, 40]);
    assert_eq!(coloring.color_from_scale(ScaleValue::one()), [90, 100, 110, 120]);
}

#[test]
fn bucket_top_is_inclusive() {
    let coloring = Buckets {
        colors: vec![[1; 4], [2; 4], [3; 4], [4; 4], [5; 4]],
    };
    // Exactly 1.0 selects the last bucket even though floor(1.0 * 5) == 5.
    assert_eq!(coloring.color_from_scale(ScaleValue { num: 7, den: 7 }), [5; 4]);
    // Just below the first boundary stays in bucket 0.
    assert_eq!(coloring.color_from_scale(ScaleValue { num: 1, den: 6 }), [1; 4]);
    // Exactly on a boundary moves to the next bucket.
    assert_eq!(coloring.color_from_scale(ScaleValue { num: 1, den: 5 }), [2; 4]);
}
