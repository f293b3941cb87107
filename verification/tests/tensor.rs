use ml_runner::metadata::ModelInfo;
use ml_runner::tensor::{crop_to_tensor, input_tensor, pixel_mode, PixelMode, Raster};
use ml_runner::weights::{HALVES, QUARTERS};

fn model(width: u32, height: u32, channels: usize) -> ModelInfo {
    ModelInfo { class_names: Vec::new(), width, height, channels, input_name: String::new() }
}

fn raster(width: u32, height: u32, mode: PixelMode, pixels: Vec<u8>) -> Raster {
    Raster { width, height, mode, pixels }
}

#[test]
fn modes() {
    assert_eq!(pixel_mode(3, false), PixelMode::Rgb);
    assert_eq!(pixel_mode(1, false), PixelMode::Gray);
    assert_eq!(pixel_mode(3, true), PixelMode::Gray);
}

#[test]
fn colours_are_laid_out_in_planes() {
    let pixels = vec![1, 2, 3, 4, 5, 6, 7, 8, 9, 10, 11, 12];
    let out = crop_to_tensor(&pixels, PixelMode::Rgb, 2, 2, 0, 0, 2, 3);
    assert_eq!(out, vec![1, 4, 7, 10, 2, 5, 8, 11, 3, 6, 9, 12]);
}

#[test]
fn a_fourth_channel_stays_empty_and_a_third_is_left_out() {
    let pixels = vec![1, 2, 3];
    assert_eq!(crop_to_tensor(&pixels, PixelMode::Rgb, 1, 1, 0, 0, 1, 4), vec![1, 2, 3, 0]);
    assert_eq!(crop_to_tensor(&pixels, PixelMode::Rgb, 1, 1, 0, 0, 1, 2), vec![1, 2]);
}

#[test]
fn gray_fills_every_channel() {
    let pixels = vec![1, 2, 3, 4, 5, 6];
    let out = crop_to_tensor(&pixels, PixelMode::Gray, 3, 2, 1, 0, 2, 2);
    assert_eq!(out, vec![2, 3, 5, 6, 2, 3, 5, 6]);
}

#[test]
fn an_image_of_the_right_size_is_not_changed() {
    let pixels = vec![9, 8, 7, 6];
    let image = raster(2, 2, PixelMode::Gray, pixels.clone());
    assert_eq!(input_tensor(image, &model(2, 2, 1), false), Some(pixels));
}

#[test]
fn the_shorter_edge_of_the_input_is_the_target() {
    let image = raster(2, 2, PixelMode::Gray, vec![9, 8, 7, 6]);
    assert_eq!(input_tensor(image, &model(2, 5, 1), false), Some(vec![9, 8, 7, 6]));
}

#[test]
fn a_gray_image_is_resized_as_by_the_image_crate() {
    let pixels: Vec<u8> = (0..48u32).map(|i| (i * 37 % 251) as u8).collect();
    let source = image::GrayImage::from_raw(8, 6, pixels.clone()).unwrap();
    let resized = image::imageops::resize(&source, 4, 3, image::imageops::FilterType::Triangle);
    let mut expected: Vec<u8> = Vec::new();
    for y in 0..3 {
        for x in 0..3 {
            expected.push(resized.get_pixel(x, y)[0]);
        }
    }
    let image = raster(8, 6, PixelMode::Gray, pixels.clone());
    let out = input_tensor(image, &model(3, 3, 1), false).unwrap();
    assert_eq!(out, expected);
    assert_ne!(out, pixels[..9].to_vec());
}

#[test]
fn a_colour_image_is_resized_as_by_the_image_crate() {
    let pixels: Vec<u8> = (0..180u32).map(|i| (i * 91 % 256) as u8).collect();
    let source = image::RgbImage::from_raw(6, 10, pixels.clone()).unwrap();
    let resized = image::imageops::resize(&source, 4, 6, image::imageops::FilterType::Triangle);
    let mut expected: Vec<u8> = Vec::new();
    for ch in 0..3 {
        for y in 0..4 {
            for x in 0..4 {
                expected.push(resized.get_pixel(x, y + 1)[ch]);
            }
        }
    }
    let image = raster(6, 10, PixelMode::Rgb, pixels);
    assert_eq!(input_tensor(image, &model(4, 4, 3), false), Some(expected));
}

#[test]
fn an_even_image_stays_even() {
    let image = raster(5, 9, PixelMode::Gray, vec![77; 45]);
    assert_eq!(input_tensor(image, &model(4, 4, 3), true), Some(vec![77; 48]));
}

#[test]
fn a_long_strip_is_cut_in_the_middle() {
    let edge = 0x10_0001;
    let pixels: Vec<u8> = (0..edge).map(|i| (i % 251) as u8).collect();
    let middle = pixels[edge / 2];
    let strip = raster(edge as u32, 1, PixelMode::Gray, pixels);
    assert_eq!(input_tensor(strip, &model(1, 1, 1), false), Some(vec![middle]));
}

#[test]
fn a_strip_beyond_both_bounds_keeps_its_size() {
    let edge = HALVES as usize + 1;
    let strip = raster(edge as u32, 1, PixelMode::Gray, vec![3; edge]);
    assert_eq!(input_tensor(strip, &model(1, 1, 1), false), Some(vec![3]));
}

#[test]
fn a_long_strip_is_reduced() {
    let edge = QUARTERS as usize + 10;
    let strip = raster(edge as u32, 2, PixelMode::Gray, vec![9; 2 * edge]);
    assert_eq!(input_tensor(strip, &model(1, 1, 1), false), Some(vec![9]));
}

#[test]
fn a_long_strip_is_enlarged() {
    let edge = 5_000_000;
    let strip = raster(1, edge, PixelMode::Gray, vec![200; edge as usize]);
    assert_eq!(input_tensor(strip, &model(2, 2, 1), false), Some(vec![200; 4]));
}

#[test]
fn what_is_too_large_is_refused() {
    let edge = 16_777_217;
    let without_weight = raster(edge, 1, PixelMode::Gray, vec![0; edge as usize]);
    assert_eq!(input_tensor(without_weight, &model(2, 2, 1), false), None);
    let image = raster(1, 1, PixelMode::Rgb, vec![1, 2, 3]);
    assert_eq!(input_tensor(image, &model(u32::MAX, u32::MAX, 3), false), None);
    let image = raster(1, 1, PixelMode::Rgb, vec![1, 2, 3]);
    assert_eq!(input_tensor(image, &model(2, 2, usize::MAX), false), None);
}

#[test]
fn nothing_in_nothing_out() {
    let image = raster(0, 0, PixelMode::Gray, Vec::new());
    assert_eq!(input_tensor(image, &model(2, 2, 1), false), Some(vec![0; 4]));
    let image = raster(3, 3, PixelMode::Gray, vec![5; 9]);
    assert_eq!(input_tensor(image, &model(0, 0, 1), false), Some(Vec::new()));
}
