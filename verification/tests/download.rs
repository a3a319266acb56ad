use std::path::{Path, PathBuf};

use image_upscaler::upscaler::download::{human_bytes, model_path, models};

#[test]
fn human_bytes_scales_units() {
    assert_eq!(human_bytes(512), "512 B");
    assert_eq!(human_bytes(2048), "2 KB");
    assert_eq!(human_bytes(64 * 1024 * 1024), "64.0 MB");
}

/// The float formatting the byte counts follow, written with floats.
fn float_human_bytes(n: u64) -> String {
    const KB: f64 = 1024.0;
    const MB: f64 = KB * 1024.0;
    let n = n as f64;
    if n >= MB {
        format!("{:.1} MB", n / MB)
    } else if n >= KB {
        format!("{:.0} KB", n / KB)
    } else {
        format!("{n:.0} B")
    }
}

#[test]
fn human_bytes_matches_float_formatting() {
    let mut samples: Vec<u64> = vec![
        0,
        1,
        9,
        10,
        1023,
        1024,
        1535,
        1536,
        2560,
        1024 * 1024 - 1,
        1024 * 1024,
        1024 * 1024 + 1,
        u64::MAX,
        u64::MAX - 1,
        (1u64 << 53) - 1,
        1u64 << 53,
        (1u64 << 53) + 1,
        (1u64 << 53) + 3,
        (1u64 << 60) + 12345,
    ];
    // Exact ties on the first decimal, and their neighbours.
    for k in 1u64..200 {
        let n = k * 1024 * 1024 + 1024 * 512 / 10 * 0 + (k * 104857);
        samples.push(n);
        samples.push(k * 1024 * 1024 + 52428);
        samples.push(k * 1024 * 1024 + 52429);
        samples.push(k * 1024 * 1024 + 157286);
        samples.push(k * 1024 * 1024 + 524288);
        samples.push(k * 512 + 512);
    }
    let mut x: u64 = 0x9e37_79b9_7f4a_7c15;
    for _ in 0..20000 {
        x ^= x << 13;
        x ^= x >> 7;
        x ^= x << 17;
        samples.push(x);
        samples.push(x >> (x % 64));
    }
    for n in samples {
        assert_eq!(human_bytes(n), float_human_bytes(n), "n = {n}");
    }
}

#[test]
fn human_bytes_rounds_ties_to_even() {
    assert_eq!(human_bytes(1536), "2 KB");
    assert_eq!(human_bytes(2560), "2 KB");
    assert_eq!(human_bytes(1023), "1023 B");
    assert_eq!(human_bytes(1024 * 1024 - 1), "1024 KB");
    assert_eq!(human_bytes(0), "0 B");
}

#[test]
fn curated_models_are_well_formed() {
    for spec in models() {
        assert!(spec.url.starts_with("https://"), "model URL must be https");
        assert!(spec.scale >= 2);
        assert!(spec.file_name.ends_with(".onnx"));
    }
}

#[test]
fn model_path_lives_under_cache_dir() {
    let cache = "/home/user/.cache/image-upscaler/models";
    let spec = models()[0];
    let p = PathBuf::from(model_path(cache, &spec));
    assert!(p.starts_with(Path::new(cache)));
    assert!(p.ends_with(spec.file_name));
    assert_eq!(p, Path::new(cache).join("realesrgan-x4plus.onnx"));
}
