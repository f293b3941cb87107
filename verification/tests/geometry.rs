use ml_runner::geometry::resize_crop_dims;

/// What torchvision's `Resize` and `CenterCrop` compute, in its own terms.
fn resize_and_center_crop(src_w: u32, src_h: u32, target: u32) -> (u32, u32, u32, u32) {
    let (short, long) = (src_w.min(src_h), src_w.max(src_h));
    let new_long = (u128::from(target) * u128::from(long) / u128::from(short))
        .min(u128::from(u32::MAX)) as u32;
    let (w, h) = if src_w <= src_h { (target, new_long) } else { (new_long, target) };
    let margin = |edge: u32| (f64::from(edge - target) / 2.0).round_ties_even() as u32;
    (w, h, margin(w), margin(h))
}

#[test]
fn photos_in_both_orientations() {
    assert_eq!(resize_crop_dims(1920, 1080, 640), (1137, 640, 248, 0));
    assert_eq!(resize_crop_dims(1080, 1920, 640), (640, 1137, 0, 248));
    assert_eq!(resize_crop_dims(4000, 3000, 640), (853, 640, 106, 0));
    assert_eq!(resize_crop_dims(3000, 4000, 640), (640, 853, 0, 106));
    assert_eq!(resize_crop_dims(640, 640, 640), (640, 640, 0, 0));
    assert_eq!(resize_crop_dims(100, 50, 224), (448, 224, 112, 0));
}

#[test]
fn fractions_of_the_longer_edge_are_dropped() {
    assert_eq!(resize_crop_dims(2, 3, 5), (5, 7, 0, 1));
    assert_eq!(resize_crop_dims(2, 3, 1), (1, 1, 0, 0));
    assert_eq!(resize_crop_dims(10, 19, 1), (1, 1, 0, 0));
}

#[test]
fn odd_rests_leave_an_even_margin() {
    assert_eq!(resize_crop_dims(10, 11, 10), (10, 11, 0, 0));
    assert_eq!(resize_crop_dims(10, 13, 10), (10, 13, 0, 2));
    assert_eq!(resize_crop_dims(10, 15, 10), (10, 15, 0, 2));
    assert_eq!(resize_crop_dims(10, 17, 10), (10, 17, 0, 4));
}

#[test]
fn empty_images_and_targets() {
    assert_eq!(resize_crop_dims(0, 0, 0), (0, 0, 0, 0));
    assert_eq!(resize_crop_dims(0, 0, 640), (640, 640, 0, 0));
    assert_eq!(resize_crop_dims(0, 7, 0), (0, 0, 0, 0));
    assert_eq!(resize_crop_dims(5, 6, 0), (0, 0, 0, 0));
    let (w, h, x0, _) = resize_crop_dims(0, 7, 640);
    assert_eq!((w, h, x0), (640, u32::MAX, 0));
}

#[test]
fn small_images_as_in_torchvision() {
    for w in 1..60 {
        for h in 1..60 {
            for t in 1..40 {
                let expected = resize_and_center_crop(w, h, t);
                assert_eq!(resize_crop_dims(w, h, t), expected, "{w} {h} {t}");
            }
        }
    }
}

#[test]
fn huge_images_as_in_torchvision() {
    let edges = [
        1, 2, 3, 7, 0x7fff_ffff, 0x8000_0000, 0x8000_0001, 0xffff_fffd, 0xffff_fffe, 0xffff_ffff,
        1_000_003, 94_906_267, 94_906_265,
    ];
    for w in edges {
        for h in edges {
            for t in edges {
                let expected = resize_and_center_crop(w, h, t);
                assert_eq!(resize_crop_dims(w, h, t), expected, "{w} {h} {t}");
            }
        }
    }
}

#[test]
fn the_crop_is_centred_in_the_shorter_edge() {
    for (w, h) in [(1920, 1080), (1081, 1920), (3, 4000), (4000, 3)] {
        let (nw, nh, x0, y0) = resize_crop_dims(w, h, 224);
        assert_eq!(nw.min(nh), 224);
        assert!((nw - 224 - x0).abs_diff(x0) <= 1);
        assert!((nh - 224 - y0).abs_diff(y0) <= 1);
    }
}

#[test]
fn the_aspect_ratio_is_kept() {
    for (w, h) in [(1920u64, 1080u64), (4000, 3), (799, 601)] {
        let (nw, _, _, _) = resize_crop_dims(w as u32, h as u32, 224);
        let nw = u64::from(nw);
        assert!(nw * h <= w * 224 && w * 224 < (nw + 1) * h);
    }
}
