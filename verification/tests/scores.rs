use ml_runner::scores::{
    below, default_threshold, is_in_unit_range, run_threshold, top_class, FALLBACK_THRESHOLD,
    INFINITY, ONE,
};

const VALUES: [f32; 14] = [
    0.0,
    -0.0,
    1.0,
    -1.0,
    0.6,
    0.59999996,
    1.0000001,
    f32::MIN_POSITIVE,
    1e-45,
    -1e-45,
    f32::MAX,
    f32::INFINITY,
    f32::NEG_INFINITY,
    f32::NAN,
];

fn bits(values: &[f32]) -> Vec<u32> {
    values.iter().map(|v| v.to_bits()).collect()
}

#[test]
fn constants_are_those_floats() {
    assert_eq!(FALLBACK_THRESHOLD, 0.6f32.to_bits());
    assert_eq!(ONE, 1.0f32.to_bits());
    assert_eq!(INFINITY, f32::INFINITY.to_bits());
}

#[test]
fn comparison_is_that_of_floats() {
    for a in VALUES {
        for b in VALUES {
            assert_eq!(below(a.to_bits(), b.to_bits()), a < b, "{a} {b}");
        }
    }
}

#[test]
fn unit_range_is_that_of_floats() {
    for v in VALUES {
        assert_eq!(is_in_unit_range(v.to_bits()), (0.0..=1.0).contains(&v), "{v}");
    }
}

#[test]
fn leading_class() {
    assert_eq!(top_class(&bits(&[0.1, 0.7, 0.2])), (1, 0.7f32.to_bits()));
    assert_eq!(top_class(&bits(&[0.9])), (0, 0.9f32.to_bits()));
    assert_eq!(top_class(&Vec::new()), (0, 0));
}

#[test]
fn of_equal_scores_the_last_leads() {
    assert_eq!(top_class(&bits(&[0.4, 0.4, 0.2])).0, 1);
    assert_eq!(top_class(&bits(&[0.0, -0.0])).0, 1);
}

#[test]
fn leading_class_as_by_max_by() {
    for a in VALUES {
        for b in VALUES {
            for c in VALUES {
                let scores = [a, b, c];
                let expected = scores
                    .iter()
                    .enumerate()
                    .max_by(|x, y| x.1.partial_cmp(y.1).unwrap_or(std::cmp::Ordering::Equal))
                    .map(|(i, p)| (i, p.to_bits()));
                assert_eq!(Some(top_class(&bits(&scores))), expected, "{a} {b} {c}");
            }
        }
    }
}

#[test]
fn thresholds() {
    let half = 0.5f32.to_bits();
    assert_eq!(default_threshold(None), 0.6f32.to_bits());
    assert_eq!(default_threshold(Some(half)), half);
    assert_eq!(default_threshold(Some(1.5f32.to_bits())), 0.6f32.to_bits());
    assert_eq!(default_threshold(Some(f32::NAN.to_bits())), 0.6f32.to_bits());
    assert_eq!(run_threshold(Some(half), Some(ONE)), Some(half));
    assert_eq!(run_threshold(None, Some(ONE)), Some(ONE));
    assert_eq!(run_threshold(None, None), Some(0.6f32.to_bits()));
    assert_eq!(run_threshold(Some((-0.1f32).to_bits()), None), None);
    assert_eq!(run_threshold(Some(f32::NAN.to_bits()), Some(half)), None);
}
