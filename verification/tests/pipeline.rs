use image::imageops::FilterType;
use image::{GrayImage, RgbImage};

use image_upscaler::upscaler::pipeline::resample_to_target;
use image_upscaler::upscaler::tiling::{Rgb, RgbRaster};

fn gradient(w: u32, h: u32) -> RgbRaster {
    let mut img = RgbRaster::new(w, h);
    for y in 0..h {
        for x in 0..w {
            img.put_pixel(x, y, Rgb([(x * 7 % 256) as u8, (y * 3 % 256) as u8, ((x + y) % 256) as u8]));
        }
    }
    img
}

#[test]
fn native_size_is_used_verbatim() {
    let sr = gradient(12, 8);
    let out = resample_to_target(&sr, None, 3, 2, 12, 8);
    assert_eq!((out.width, out.height, out.has_alpha), (12, 8, false));
    assert_eq!(out.bytes, sr.to_bytes());
}

#[test]
fn other_sizes_are_lanczos_resampled() {
    let sr = gradient(12, 8);
    let out = resample_to_target(&sr, None, 3, 2, 9, 5);
    assert_eq!((out.width, out.height), (9, 5));
    let img = RgbImage::from_raw(12, 8, sr.to_bytes()).unwrap();
    let expected = image::imageops::resize(&img, 9, 5, FilterType::Lanczos3).into_raw();
    assert_eq!(out.bytes, expected);
    assert_ne!(out.bytes, sr.to_bytes());
}

#[test]
fn alpha_is_resampled_from_the_source_and_attached() {
    let sr = gradient(8, 8);
    let alpha: Vec<u8> = (0..4u8).map(|i| i * 60).collect();
    let out = resample_to_target(&sr, Some(&alpha), 2, 2, 8, 8);
    assert!(out.has_alpha);
    assert_eq!(out.bytes.len(), 8 * 8 * 4);
    let a = GrayImage::from_raw(2, 2, alpha.clone()).unwrap();
    let a_up = image::imageops::resize(&a, 8, 8, FilterType::Lanczos3).into_raw();
    let rgb = sr.to_bytes();
    for k in 0..64 {
        assert_eq!(&out.bytes[4 * k..4 * k + 3], &rgb[3 * k..3 * k + 3]);
        assert_eq!(out.bytes[4 * k + 3], a_up[k]);
    }
}

#[test]
fn alpha_passes_through_at_source_size() {
    let sr = gradient(4, 3);
    let alpha: Vec<u8> = (0..12u8).map(|i| 255 - i * 9).collect();
    let out = resample_to_target(&sr, Some(&alpha), 4, 3, 4, 3);
    for k in 0..12 {
        assert_eq!(out.bytes[4 * k + 3], alpha[k]);
    }
}

#[test]
fn raster_bytes_roundtrip() {
    let sr = gradient(5, 4);
    let bytes = sr.to_bytes();
    assert_eq!(bytes.len(), 60);
    assert_eq!(&bytes[0..3], &[0, 0, 0]);
    let back = RgbRaster::from_bytes(5, 4, &bytes).unwrap();
    assert_eq!(back, sr);
    assert!(RgbRaster::from_bytes(5, 4, &bytes[..59].to_vec()).is_none());
    assert!(RgbRaster::from_pixels(2, 2, vec![Rgb([1, 2, 3]); 3]).is_none());
    assert_eq!(RgbRaster::from_pixels(1, 3, vec![Rgb([1, 2, 3]); 3]).unwrap().get_pixel(0, 2), Rgb([1, 2, 3]));
}

#[test]
fn opaque_alpha_stays_opaque_when_enlarged() {
    let sr = gradient(12, 9);
    let alpha = vec![255u8; 4 * 3];
    let out = resample_to_target(&sr, Some(&alpha), 4, 3, 11, 7);
    assert_eq!(out.bytes.len(), 11 * 7 * 4);
    for k in 0..77 {
        assert_eq!(out.bytes[4 * k + 3], 255);
    }
    let half = vec![128u8; 5 * 2];
    let out = resample_to_target(&sr, Some(&half), 5, 2, 13, 9);
    assert!((0..13 * 9).all(|k| out.bytes[4 * k + 3] == 128));
}

#[test]
fn target_width_and_height_are_not_swapped() {
    let sr = gradient(4, 4);
    let out = resample_to_target(&sr, None, 4, 4, 10, 6);
    assert_eq!((out.width, out.height), (10, 6));
    let img = RgbImage::from_raw(4, 4, sr.to_bytes()).unwrap();
    let expected = image::imageops::resize(&img, 10, 6, FilterType::Lanczos3).into_raw();
    assert_eq!(out.bytes, expected);
}

#[test]
fn constant_planes_survive_shrinking() {
    let mut sr = RgbRaster::new(40, 30);
    for y in 0..30 {
        for x in 0..40 {
            sr.put_pixel(x, y, Rgb([12, 200, 77]));
        }
    }
    let alpha = vec![255u8; 60 * 45];
    let out = resample_to_target(&sr, Some(&alpha), 60, 45, 7, 5);
    assert_eq!((out.width, out.height), (7, 5));
    for k in 0..35 {
        assert_eq!(&out.bytes[4 * k..4 * k + 4], &[12, 200, 77, 255]);
    }
}
