use rand::rngs::StdRng;
use rand::SeedableRng;

use stereogram::depth::{DepthSource, Heightmap};
use stereogram::pattern::{PatternTile, Rgb};
use stereogram::synth::{disparity, link_row, synthesize, DisparityParams, SynthError};

fn params(width: usize, height: usize) -> DisparityParams {
    DisparityParams {
        near_distance: 200,
        far_distance: 250,
        eye_separation: 300,
        observer_distance: 1000,
        width,
        height,
    }
}

fn tile(width: usize, height: usize) -> PatternTile {
    let mut pixels = Vec::new();
    for i in 0..width * height {
        let v = (i * 7 + 3) as u8;
        pixels.push(Rgb { r: v, g: v.wrapping_add(1), b: v.wrapping_add(2) });
    }
    PatternTile { width, height, pixels }
}

fn field(width: usize, height: usize, samples: Vec<u8>) -> Heightmap {
    Heightmap { width, height, pixels: samples }
}

#[test]
fn disparity_at_farthest_and_nearest() {
    let p = params(8, 1);
    assert_eq!(disparity(&p, 0), 50);
    assert_eq!(disparity(&p, 255), 39);
}

#[test]
fn disparity_never_grows_with_depth() {
    let p = params(8, 1);
    for d in 0..255u8 {
        assert!(disparity(&p, d + 1) <= disparity(&p, d));
    }
}

#[test]
fn narrow_row_is_all_seed_columns() {
    let p = params(8, 1);
    let depth = field(8, 1, vec![0; 8]);
    assert_eq!(link_row(&p, &depth, 0), vec![0, 1, 2, 3, 4, 5, 6, 7]);
    let pat = tile(5, 1);
    let out = synthesize(&depth, &pat, &p).unwrap();
    assert_eq!(out.len(), 8);
    for x in 0..8 {
        assert_eq!(out[x], pat.pixels[x % 5]);
    }
}

#[test]
fn seed_columns_take_tiled_pattern() {
    let (w, h) = (120, 3);
    let p = params(w, h);
    let depth = field(w, h, vec![0; w * h]);
    let pat = tile(50, 3);
    let out = synthesize(&depth, &pat, &p).unwrap();
    for y in 0..h {
        let look = link_row(&p, &depth, y);
        let mut seeds = 0;
        for x in 0..w {
            if look[x] == x {
                seeds += 1;
                assert_eq!(out[y * w + x], pat.pixels[(y % 3) * 50 + x % 50]);
            } else {
                assert_eq!(look[x] + 50, x);
            }
        }
        assert_eq!(seeds, 50);
    }
}

#[test]
fn linked_columns_repeat_their_target() {
    let (w, h) = (120, 2);
    let p = params(w, h);
    let mut samples = vec![0u8; w * h];
    for y in 0..h {
        for x in 60..70 {
            samples[y * w + x] = 255;
        }
    }
    let depth = field(w, h, samples);
    let pat = tile(50, 2);
    let out = synthesize(&depth, &pat, &p).unwrap();
    let mut linked = 0;
    for y in 0..h {
        let look = link_row(&p, &depth, y);
        for x in 0..w {
            if look[x] != x {
                linked += 1;
                assert!(look[x] < x);
                assert_eq!(out[y * w + x], out[y * w + look[x]]);
            }
        }
    }
    assert!(linked > 0);
}

#[test]
fn links_past_the_right_edge_are_skipped() {
    let w = 60;
    let p = params(w, 1);
    let depth = field(w, 1, vec![0; w]);
    let look = link_row(&p, &depth, 0);
    for x in 0..50 {
        assert_eq!(look[x], x);
    }
    for x in 50..60 {
        assert_eq!(look[x], x - 50);
    }
}

#[test]
fn synthesis_is_repeatable() {
    let (w, h) = (90, 4);
    let p = params(w, h);
    let samples: Vec<u8> = (0..w * h).map(|i| (i * 13 % 256) as u8).collect();
    let depth = field(w, h, samples);
    let pat = tile(50, 4);
    let a = synthesize(&depth, &pat, &p).unwrap();
    let b = synthesize(&depth, &pat, &p).unwrap();
    assert_eq!(a, b);
}

#[test]
fn invalid_distances_are_refused() {
    let mut p = params(8, 1);
    p.far_distance = 200;
    let depth = field(8, 1, vec![0; 8]);
    assert_eq!(synthesize(&depth, &tile(5, 1), &p), Err(SynthError::InvalidParams));
}

#[test]
fn wrong_sizes_are_refused() {
    let p = params(8, 2);
    let short = field(8, 2, vec![0; 15]);
    assert_eq!(synthesize(&short, &tile(5, 2), &p), Err(SynthError::DimensionMismatch));
    let ok = field(8, 2, vec![0; 16]);
    assert_eq!(synthesize(&ok, &tile(5, 3), &p), Err(SynthError::DimensionMismatch));
}

#[test]
fn marker_block_after_refresh() {
    let mut pat = tile(50, 12);
    let mut rng = StdRng::seed_from_u64(7);
    pat.refresh(&mut rng);
    let blue = Rgb { r: 0, g: 0, b: 255 };
    for y in 0..12 {
        for x in 0..50 {
            let c = pat.at(x, y);
            if x < 4 && y < 8 {
                assert_eq!(c, blue);
            } else {
                assert!(c.r == c.g && c.g == c.b);
            }
        }
    }
}

#[test]
fn fill_paints_noise_and_markers() {
    let mut pat = PatternTile::new(5, 9);
    let noise: Vec<u8> = (0..45).map(|i| (i * 5) as u8).collect();
    pat.fill(&noise);
    assert_eq!(pat.at(4, 0), Rgb { r: 20, g: 20, b: 20 });
    assert_eq!(pat.at(3, 7), Rgb { r: 0, g: 0, b: 255 });
    assert_eq!(pat.at(0, 8), Rgb { r: 200, g: 200, b: 200 });
}

#[test]
fn depth_follows_the_pan_offset() {
    let source = DepthSource { width: 3, height: 2, luma: vec![10, 20, 30, 40, 50, 60] };
    assert_eq!(source.sample_luma(2, 1), Some(60));
    assert_eq!(source.sample_luma(-1, 0), None);
    let mut hm = Heightmap::new(4, 2);
    hm.update(&source, 1, 0);
    assert_eq!(hm.at(0, 0), 0);
    assert_eq!(hm.at(1, 0), 10);
    assert_eq!(hm.at(3, 1), 60);
    hm.update(&source, 0, -1);
    assert_eq!(hm.at(0, 0), 40);
    assert_eq!(hm.at(2, 0), 60);
    assert_eq!(hm.at(0, 1), 0);
    assert_eq!(hm.at(3, 0), 0);
}

#[test]
fn new_tile_is_black() {
    let pat = PatternTile::new(50, 6);
    assert_eq!(pat.pixels.len(), 300);
    for c in &pat.pixels {
        assert_eq!(*c, Rgb { r: 0, g: 0, b: 0 });
    }
}

#[test]
fn samples_linked_off_the_row_do_not_show() {
    let w = 60;
    let p = params(w, 1);
    let pat = tile(50, 1);
    let flat = field(w, 1, vec![0; w]);
    // Columns 0..19 link to a left partner before the row at any depth, and
    // columns 45..60 to a right partner past it.
    let mut samples = vec![0u8; w];
    for x in (0..19).chain(45..60) {
        samples[x] = 255;
    }
    let bumped = field(w, 1, samples);
    assert_eq!(synthesize(&flat, &pat, &p), synthesize(&bumped, &pat, &p));
}
