use std::cell::Cell;
use std::sync::atomic::{AtomicU32, AtomicUsize, Ordering};

use rayon::iter::{IntoParallelRefIterator, ParallelIterator};

use image_upscaler::upscaler::tiling::{
    extract_tile, reflect, stitch_tiles, tile_inputs, tile_origins, upscale_with_tiles, Rgb, RgbRaster,
    TilingConfig,
};

fn gradient(w: u32, h: u32) -> RgbRaster {
    let mut img = RgbRaster::new(w, h);
    for y in 0..h {
        for x in 0..w {
            img.put_pixel(x, y, Rgb([(x % 256) as u8, (y % 256) as u8, ((x + y) % 256) as u8]));
        }
    }
    img
}

fn scale4(t: &RgbRaster) -> RgbRaster {
    let mut o = RgbRaster::new(t.width() * 4, t.height() * 4);
    for y in 0..o.height() {
        for x in 0..o.width() {
            o.put_pixel(x, y, t.get_pixel(x / 4, y / 4));
        }
    }
    o
}

/// Tiles upscaled on rayon's worker threads, then stitched in tile order.
fn upscale_parallel<F, P>(src: &RgbRaster, cfg: &TilingConfig, upscale: F, progress: P) -> RgbRaster
where
    F: Fn(&RgbRaster) -> RgbRaster + Sync,
    P: Fn(f32) + Sync,
{
    let inputs = tile_inputs(src, cfg);
    let total = inputs.len().max(1);
    let done = AtomicUsize::new(0);
    let tiles: Vec<RgbRaster> = inputs
        .par_iter()
        .map(|input| {
            let out = upscale(input);
            let n = done.fetch_add(1, Ordering::Relaxed) + 1;
            progress(n as f32 / total as f32);
            out
        })
        .collect();
    stitch_tiles(src.width(), src.height(), cfg, &tiles)
}

#[test]
fn identity_reconstructs_source_exactly() {
    let src = gradient(50, 37);
    let cfg = TilingConfig { tile_size: 16, overlap: 4, scale: 1 };
    let out = upscale_with_tiles(&src, &cfg, |t: &RgbRaster| t.clone(), |_, _| {});
    assert_eq!((out.width(), out.height()), (src.width(), src.height()));
    assert_eq!(out.into_pixels(), src.into_pixels());
}

#[test]
fn identity_reconstructs_when_smaller_than_tile() {
    let src = gradient(10, 6);
    let cfg = TilingConfig { tile_size: 32, overlap: 8, scale: 1 };
    let out = upscale_with_tiles(&src, &cfg, |t: &RgbRaster| t.clone(), |_, _| {});
    assert_eq!((out.width(), out.height()), (src.width(), src.height()));
    assert_eq!(out.into_pixels(), src.into_pixels());
}

#[test]
fn output_dimensions_scale_correctly() {
    let src = gradient(20, 13);
    let cfg = TilingConfig { tile_size: 8, overlap: 2, scale: 4 };
    let out = upscale_with_tiles(&src, &cfg, scale4, |_, _| {});
    assert_eq!((out.width(), out.height()), (80, 52));
}

#[test]
fn progress_reaches_one() {
    let src = gradient(30, 30);
    let cfg = TilingConfig { tile_size: 16, overlap: 4, scale: 1 };
    let last = Cell::new(0.0f32);
    upscale_with_tiles(&src, &cfg, |t: &RgbRaster| t.clone(), |done, total| {
        last.set(done as f32 / total as f32)
    });
    let last = last.get();
    assert!((last - 1.0).abs() < 1e-6, "final progress was {last}");
}

#[test]
fn parallel_matches_sequential_identity() {
    let src = gradient(50, 37);
    let cfg = TilingConfig { tile_size: 16, overlap: 4, scale: 1 };
    let seq = upscale_with_tiles(&src, &cfg, |t: &RgbRaster| t.clone(), |_, _| {});
    let par = upscale_parallel(&src, &cfg, |t: &RgbRaster| t.clone(), |_| {});
    assert_eq!((seq.width(), seq.height()), (par.width(), par.height()));
    assert_eq!(seq.into_pixels(), par.into_pixels());
}

#[test]
fn parallel_matches_sequential_scaled() {
    let src = gradient(37, 41);
    let cfg = TilingConfig { tile_size: 8, overlap: 2, scale: 4 };
    let seq = upscale_with_tiles(&src, &cfg, scale4, |_, _| {});
    let par = upscale_parallel(&src, &cfg, scale4, |_| {});
    assert_eq!(seq.into_pixels(), par.into_pixels());
}

#[test]
fn parallel_progress_reaches_one() {
    let src = gradient(40, 28);
    let cfg = TilingConfig { tile_size: 12, overlap: 3, scale: 1 };
    let max_milli = AtomicU32::new(0);
    upscale_parallel(&src, &cfg, |t: &RgbRaster| t.clone(), |p| {
        max_milli.fetch_max((p * 1000.0) as u32, Ordering::Relaxed);
    });
    assert_eq!(max_milli.load(Ordering::Relaxed), 1000);
}

#[test]
fn replicating_tiles_replicates_the_source() {
    let src = gradient(37, 41);
    let cfg = TilingConfig { tile_size: 8, overlap: 2, scale: 4 };
    let out = upscale_with_tiles(&src, &cfg, scale4, |_, _| {});
    assert_eq!(out.into_pixels(), scale4(&src).into_pixels());
}

#[test]
fn degenerate_configurations_still_reconstruct() {
    let src = gradient(9, 7);
    for (tile_size, overlap) in [(0, 0), (1, 0), (2, 1), (3, 5), (5, 2), (4, 2), (7, 100)] {
        let cfg = TilingConfig { tile_size, overlap, scale: 1 };
        let out = upscale_with_tiles(&src, &cfg, |t: &RgbRaster| t.clone(), |_, _| {});
        assert_eq!(out.into_pixels(), src.clone().into_pixels(), "tile {tile_size} overlap {overlap}");
        let cfg = TilingConfig { tile_size, overlap, scale: 0 };
        let out = upscale_with_tiles(&src, &cfg, |t: &RgbRaster| t.clone(), |_, _| {});
        assert_eq!(out.into_pixels(), src.clone().into_pixels());
    }
}

#[test]
fn broken_upscaler_leaves_black_cores() {
    let src = gradient(10, 10);
    let cfg = TilingConfig { tile_size: 4, overlap: 1, scale: 1 };
    let out = upscale_with_tiles(&src, &cfg, |_t: &RgbRaster| RgbRaster::new(1, 1), |_, _| {});
    assert!(out.into_pixels().iter().all(|p| *p == Rgb([0, 0, 0])));
}

#[test]
fn step_and_origins() {
    let cfg = TilingConfig { tile_size: 16, overlap: 4, scale: 1 };
    assert_eq!(cfg.step(), 8);
    assert_eq!(TilingConfig { tile_size: 8, overlap: 4, scale: 1 }.step(), 1);
    assert_eq!(TilingConfig { tile_size: 8, overlap: u32::MAX, scale: 1 }.step(), 1);
    assert_eq!(TilingConfig { tile_size: 0, overlap: 0, scale: 1 }.step(), 1);
    let o = tile_origins(20, 9, &cfg);
    assert_eq!(o, vec![(0, 0), (8, 0), (16, 0), (0, 8), (8, 8), (16, 8)]);
    assert_eq!(tile_origins(0, 0, &cfg), vec![(0, 0)]);
    assert_eq!(tile_origins(16, 8, &cfg), vec![(0, 0), (8, 0)]);
}

#[test]
fn reflect_mirrors_without_repeating_edges() {
    assert_eq!(reflect(-1, 5), 1);
    assert_eq!(reflect(-2, 5), 2);
    assert_eq!(reflect(5, 5), 3);
    assert_eq!(reflect(6, 5), 2);
    assert_eq!(reflect(8, 5), 0);
    assert_eq!(reflect(-8, 5), 0);
    assert_eq!(reflect(3, 5), 3);
    assert_eq!(reflect(12, 1), 0);
    assert_eq!(reflect(-7, 0), 0);
    assert_eq!(reflect(i64::MIN, 4_000_000_000), reflect(i64::MIN % 7_999_999_998 + 7_999_999_998, 4_000_000_000));
}

#[test]
fn extracted_tile_reflects_at_edges() {
    let src = gradient(5, 4);
    let cfg = TilingConfig { tile_size: 4, overlap: 1, scale: 1 };
    let t = extract_tile(&src, &cfg, 0, 0);
    assert_eq!((t.width(), t.height()), (4, 4));
    // Column -1 mirrors to 1, row -1 mirrors to 1.
    assert_eq!(t.get_pixel(0, 0), src.get_pixel(1, 1));
    assert_eq!(t.get_pixel(1, 1), src.get_pixel(0, 0));
    assert_eq!(t.get_pixel(3, 2), src.get_pixel(2, 1));
}

#[test]
fn tile_inputs_are_the_extracted_tiles_in_order() {
    let src = gradient(21, 10);
    let cfg = TilingConfig { tile_size: 10, overlap: 2, scale: 1 };
    let inputs = tile_inputs(&src, &cfg);
    let origins = tile_origins(21, 10, &cfg);
    assert_eq!(inputs.len(), origins.len());
    assert_eq!(inputs.len(), 8);
    for (t, &(cx, cy)) in inputs.iter().zip(origins.iter()) {
        assert_eq!(*t, extract_tile(&src, &cfg, cx, cy));
    }
}
