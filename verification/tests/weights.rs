use ml_runner::weights::{weights_exist, HALVES, QUARTERS};

/// Whether a resized pixel has a weight, in floats.
fn has_weight(edge: u32, new_edge: u32, pixel: u32) -> bool {
    let ratio = edge as f32 / new_edge as f32;
    let reach = if ratio < 1.0 { 1.0 } else { ratio };
    let position = (pixel as f32 + 0.5) * ratio;
    let last = i64::from(edge) - 1;
    let left = ((position - reach).floor() as i64).clamp(0, last);
    let right = ((position + reach).ceil() as i64).max(left + 1).min(last + 1);
    let middle = position - 0.5;
    let near = |i: i64| ((i as u32) as f32 - middle).abs() / reach < 1.0;
    (left..right).any(near)
}

fn every_pixel_has_weight(edge: u32, new_edge: u32) -> bool {
    (0..new_edge).rev().all(|pixel| has_weight(edge, new_edge, pixel))
}

#[test]
fn edges_of_photos() {
    for edge in 1..70 {
        for new_edge in 0..70 {
            assert!(weights_exist(edge, new_edge));
            assert!(every_pixel_has_weight(edge, new_edge), "{edge} {new_edge}");
        }
    }
    assert!(weights_exist(u32::MAX, HALVES));
    assert!(weights_exist(QUARTERS, u32::MAX));
}

#[test]
fn enlarged_edges() {
    assert!(weights_exist(5_000_000, 10_000_000));
    assert!(every_pixel_has_weight(5_000_000, 10_000_000));
    assert!(weights_exist(4_194_305, 4_329_605));
    assert!(every_pixel_has_weight(4_194_305, 4_329_605));
    assert!(!weights_exist(7_383_351, 8_962_392));
    assert!(!has_weight(7_383_351, 8_962_392, 8_962_391));
    assert!(!weights_exist(8_330_344, 40_375_330));
    assert!(!has_weight(8_330_344, 40_375_330, 40_375_329));
}

#[test]
fn a_pixel_before_the_last_can_have_no_weight() {
    assert!(!weights_exist(17_000_003, 17_809_526));
    assert!(!has_weight(17_000_003, 17_809_526, 17_576_130));
    assert!(has_weight(17_000_003, 17_809_526, 17_809_525));
    assert!(!weights_exist(16_777_217, 33_554_434));
    assert!(!every_pixel_has_weight(16_777_217, 33_554_434));
}

#[test]
fn long_edges_with_weights_all_over() {
    assert!(weights_exist(17_000_003, 17_850_003));
    assert!(every_pixel_has_weight(17_000_003, 17_850_003));
}

#[test]
fn reduced_edges() {
    assert!(weights_exist(26_777_208, 13_388_604));
    assert!(every_pixel_has_weight(26_777_208, 13_388_604));
    assert!(!weights_exist(46_777_190, 15_592_396));
    assert!(!has_weight(46_777_190, 15_592_396, 15_592_395));
}

#[test]
fn edges_that_stay() {
    assert!(weights_exist(HALVES, HALVES));
    assert!(every_pixel_has_weight(HALVES, HALVES));
    assert!(weights_exist(HALVES + 1, HALVES + 1));
    assert!(every_pixel_has_weight(HALVES + 1, HALVES + 1));
    assert!(!weights_exist(10_823_738, 10_823_738));
    assert!(!has_weight(10_823_738, 10_823_738, 10_823_737));
}
