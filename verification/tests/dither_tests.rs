use ditherer::diffuse_pixel;
use ditherer::atkinson_taps;
use ditherer::dither_atkinson;
use ditherer::dither_bayer;
use ditherer::dither_floyd_steinberg;
use ditherer::dither_random_threshold;
use ditherer::dither_sierra_lite;
use ditherer::floyd_steinberg_taps;
use ditherer::random_threshold_pixel;
use ditherer::sierra_lite_taps;
use ditherer::BiLevel;
use ditherer::DitherError;
use ditherer::InvertedBiLevel;
use ditherer::PixelGrid;

const BAYER_PATTERN: [[u8; 8]; 8] = [
    [0, 32, 8, 40, 2, 34, 10, 42],
    [48, 16, 56, 24, 50, 18, 58, 26],
    [12, 44, 4, 36, 14, 46, 6, 38],
    [60, 28, 52, 20, 62, 30, 54, 22],
    [3, 35, 11, 43, 1, 33, 9, 41],
    [51, 19, 59, 27, 49, 17, 57, 25],
    [15, 47, 7, 39, 13, 45, 5, 37],
    [63, 31, 55, 23, 61, 29, 53, 21],
];

fn make(width: usize, height: usize, channels: usize, data: &[u8]) -> PixelGrid {
    assert_eq!(data.len(), width * height * channels);
    PixelGrid { width, height, channels, data: data.to_vec() }
}

fn gradient(width: usize, height: usize, channels: usize) -> PixelGrid {
    let mut data = Vec::new();
    for y in 0..height {
        for x in 0..width {
            for c in 0..channels {
                data.push(((x * 37 + y * 11 + c * 73) % 256) as u8);
            }
        }
    }
    make(width, height, channels, &data)
}

fn assert_all_bilevel(grid: &PixelGrid) {
    for b in grid.data.iter() {
        assert!(*b == 0 || *b == 255, "channel value {} is not bilevel", b);
    }
}

#[test]
fn bilevel_closure_all_algorithms() {
    let runs: [fn(&mut PixelGrid) -> Result<(), DitherError>; 5] = [
        |g| dither_floyd_steinberg(g, &BiLevel),
        |g| dither_atkinson(g, &BiLevel),
        |g| dither_sierra_lite(g, &BiLevel),
        |g| dither_bayer(g, &BiLevel),
        |g| dither_random_threshold(g, &BiLevel),
    ];
    for run in runs.iter() {
        let mut g = gradient(9, 7, 3);
        run(&mut g).unwrap();
        assert_all_bilevel(&g);
    }
}

#[test]
fn bilevel_closure_inverted_map() {
    let mut g = gradient(6, 5, 1);
    dither_atkinson(&mut g, &InvertedBiLevel).unwrap();
    assert_all_bilevel(&g);
}

#[test]
fn shape_preservation_all_algorithms() {
    let runs: [fn(&mut PixelGrid) -> Result<(), DitherError>; 5] = [
        |g| dither_floyd_steinberg(g, &BiLevel),
        |g| dither_atkinson(g, &BiLevel),
        |g| dither_sierra_lite(g, &BiLevel),
        |g| dither_bayer(g, &BiLevel),
        |g| dither_random_threshold(g, &BiLevel),
    ];
    for run in runs.iter() {
        let mut g = gradient(5, 3, 3);
        run(&mut g).unwrap();
        assert_eq!(g.width, 5);
        assert_eq!(g.height, 3);
        assert_eq!(g.channels, 3);
        assert_eq!(g.data.len(), 5 * 3 * 3);
    }
}

#[test]
fn determinism_of_deterministic_algorithms() {
    let runs: [fn(&mut PixelGrid) -> Result<(), DitherError>; 4] = [
        |g| dither_floyd_steinberg(g, &BiLevel),
        |g| dither_atkinson(g, &BiLevel),
        |g| dither_sierra_lite(g, &BiLevel),
        |g| dither_bayer(g, &BiLevel),
    ];
    for run in runs.iter() {
        let mut a = gradient(11, 6, 2);
        let mut b = gradient(11, 6, 2);
        run(&mut a).unwrap();
        run(&mut b).unwrap();
        assert_eq!(a.data, b.data);
    }
}

#[test]
fn random_threshold_statistics_near_midtone() {
    let trials = 200;
    let mut set_pixels = 0usize;
    let mut total = 0usize;
    for _ in 0..trials {
        let mut g = PixelGrid::new(8, 8, 1, 128).unwrap();
        dither_random_threshold(&mut g, &BiLevel).unwrap();
        for b in g.data.iter() {
            if *b == 255 {
                set_pixels += 1;
            }
            total += 1;
        }
    }
    let fraction = set_pixels as f64 / total as f64;
    assert!(
        fraction > 0.40 && fraction < 0.60,
        "fraction of set pixels {} is far from the midtone level",
        fraction
    );
}

#[test]
fn boundary_safety_small_grids() {
    let runs: [fn(&mut PixelGrid) -> Result<(), DitherError>; 5] = [
        |g| dither_floyd_steinberg(g, &BiLevel),
        |g| dither_atkinson(g, &BiLevel),
        |g| dither_sierra_lite(g, &BiLevel),
        |g| dither_bayer(g, &BiLevel),
        |g| dither_random_threshold(g, &BiLevel),
    ];
    for run in runs.iter() {
        for (w, h) in [(1usize, 1usize), (1, 5), (5, 1)] {
            let mut g = gradient(w, h, 1);
            run(&mut g).unwrap();
            assert_all_bilevel(&g);
            assert_eq!(g.width, w);
            assert_eq!(g.height, h);
        }
    }
}

#[test]
fn empty_grid_is_rejected() {
    let runs: [fn(&mut PixelGrid) -> Result<(), DitherError>; 5] = [
        |g| dither_floyd_steinberg(g, &BiLevel),
        |g| dither_atkinson(g, &BiLevel),
        |g| dither_sierra_lite(g, &BiLevel),
        |g| dither_bayer(g, &BiLevel),
        |g| dither_random_threshold(g, &BiLevel),
    ];
    for run in runs.iter() {
        let mut g = PixelGrid::new(0, 4, 1, 0).unwrap();
        assert_eq!(run(&mut g), Err(DitherError::EmptyGrid));
        let mut g = PixelGrid::new(4, 0, 2, 0).unwrap();
        assert_eq!(run(&mut g), Err(DitherError::EmptyGrid));
        assert_eq!(g.data.len(), 0);
    }
}

#[test]
fn grid_constructor_errors() {
    assert_eq!(
        PixelGrid::new(4, 4, 0, 0).err(),
        Some(DitherError::ZeroChannels)
    );
    assert_eq!(
        PixelGrid::new(usize::MAX, 2, 2, 0).err(),
        Some(DitherError::TooLarge)
    );
}

#[test]
fn grid_fill_get_set() {
    let mut g = PixelGrid::new(3, 2, 2, 77).unwrap();
    assert_eq!(g.data.len(), 12);
    for b in g.data.iter() {
        assert_eq!(*b, 77);
    }
    g.set(2, 1, 1, 9);
    assert_eq!(g.get(2, 1, 1), 9);
    assert_eq!(g.get(0, 0, 0), 77);
    assert_eq!(g.data[(1 * 3 + 2) * 2 + 1], 9);
}

#[test]
fn bayer_periodicity_constant_input() {
    let mut g = PixelGrid::new(24, 24, 1, 100).unwrap();
    dither_bayer(&mut g, &BiLevel).unwrap();
    for y in 0..24usize {
        for x in 0..24usize {
            if x + 8 < 24 {
                assert_eq!(g.get(x, y, 0), g.get(x + 8, y, 0));
            }
            if y + 8 < 24 {
                assert_eq!(g.get(x, y, 0), g.get(x, y + 8, 0));
            }
        }
    }
}

#[test]
fn bayer_uniform_gray_matches_pattern() {
    let mut g = PixelGrid::new(8, 8, 1, 128).unwrap();
    dither_bayer(&mut g, &BiLevel).unwrap();
    for y in 0..8usize {
        for x in 0..8usize {
            let expected = if 128u8 >> 2 > BAYER_PATTERN[x % 8][y % 8] { 255 } else { 0 };
            assert_eq!(g.get(x, y, 0), expected, "mismatch at ({}, {})", x, y);
        }
    }
}

#[test]
fn atkinson_single_bright_pixel_step() {
    // One raster step at the bright corner pixel: the quantizer sends 255 to
    // 0, so a residual of 255 / 8 = 31 reaches every in-bounds neighbor of
    // the Atkinson mask; the offset (-1, +1) falls outside the grid and is
    // skipped.
    let mut g = PixelGrid::new(4, 4, 1, 0).unwrap();
    g.set(0, 0, 0, 255);
    let taps = atkinson_taps();
    diffuse_pixel(&mut g, &InvertedBiLevel, 0, 0, &taps, 8);
    assert_eq!(g.get(0, 0, 0), 0);
    assert_eq!(g.get(1, 0, 0), 31);
    assert_eq!(g.get(2, 0, 0), 31);
    assert_eq!(g.get(0, 1, 0), 31);
    assert_eq!(g.get(1, 1, 0), 31);
    assert_eq!(g.get(0, 2, 0), 31);
    // every other pixel is untouched
    assert_eq!(g.get(3, 0, 0), 0);
    assert_eq!(g.get(2, 2, 0), 0);
}

#[test]
fn atkinson_single_bright_pixel_interior_step() {
    // The same step from an interior pixel reaches all six neighbors.
    let mut g = PixelGrid::new(4, 4, 1, 0).unwrap();
    g.set(1, 1, 0, 255);
    let taps = atkinson_taps();
    diffuse_pixel(&mut g, &InvertedBiLevel, 1, 1, &taps, 8);
    assert_eq!(g.get(1, 1, 0), 0);
    assert_eq!(g.get(2, 1, 0), 31);
    assert_eq!(g.get(3, 1, 0), 31);
    assert_eq!(g.get(0, 2, 0), 31);
    assert_eq!(g.get(1, 2, 0), 31);
    assert_eq!(g.get(2, 2, 0), 31);
    assert_eq!(g.get(1, 3, 0), 31);
}

#[test]
fn sierra_lite_exact_two_pixels() {
    // (0,0): 100 quantizes to 0, residual 100 / 4 = 25, weight 2 to the
    // right: 100 + 50 = 150, which then quantizes to 255.
    let mut g = make(2, 1, 1, &[100, 100]);
    dither_sierra_lite(&mut g, &BiLevel).unwrap();
    assert_eq!(g.data, vec![0, 255]);
}

#[test]
fn sierra_lite_truncates_toward_zero() {
    // (0,0): 140 quantizes to 255, residual (140 - 255) / 4 = -28 truncated
    // toward zero (flooring would give -29), weight 2 to the right:
    // 184 - 56 = 128 > 127, so the neighbor still quantizes to 255.
    let mut g = make(2, 1, 1, &[140, 184]);
    dither_sierra_lite(&mut g, &BiLevel).unwrap();
    assert_eq!(g.data, vec![255, 255]);
}

#[test]
fn atkinson_exact_two_pixels() {
    // (0,0): 100 quantizes to 0, residual 100 / 8 = 12, weight 1 to the
    // right: 100 + 12 = 112, which quantizes to 0.
    let mut g = make(2, 1, 1, &[100, 100]);
    dither_atkinson(&mut g, &BiLevel).unwrap();
    assert_eq!(g.data, vec![0, 0]);
}

#[test]
fn floyd_steinberg_exact_two_pixels() {
    // (0,0): 100 quantizes to 0, residual 100 / 16 = 6, weight 7 to the
    // right: 100 + 42 = 142, which quantizes to 255.
    let mut g = make(2, 1, 1, &[100, 100]);
    dither_floyd_steinberg(&mut g, &BiLevel).unwrap();
    assert_eq!(g.data, vec![0, 255]);
}

#[test]
fn multi_channel_single_pixel() {
    let runs: [fn(&mut PixelGrid) -> Result<(), DitherError>; 3] = [
        |g| dither_floyd_steinberg(g, &BiLevel),
        |g| dither_atkinson(g, &BiLevel),
        |g| dither_sierra_lite(g, &BiLevel),
    ];
    for run in runs.iter() {
        let mut g = make(1, 1, 3, &[10, 200, 128]);
        run(&mut g).unwrap();
        assert_eq!(g.data, vec![0, 255, 255]);
    }
}

#[test]
fn kernel_weight_sums() {
    let sum = |taps: &Vec<ditherer::Tap>| -> i32 { taps.iter().map(|t| t.weight).sum() };
    assert_eq!(sum(&sierra_lite_taps()), 4);
    assert_eq!(sum(&atkinson_taps()), 6);
    assert_eq!(sum(&floyd_steinberg_taps()), 16);
}

#[test]
fn random_threshold_pixel_boundaries() {
    let mut px = vec![128, 0, 255];
    random_threshold_pixel(&mut px, 127);
    // 128 + 127 - 127 = 128 > 127; 0 + 127 - 127 = 0; 255 + 127 - 127 = 255
    assert_eq!(px, vec![255, 0, 255]);

    let mut px = vec![128, 0];
    random_threshold_pixel(&mut px, 0);
    // 128 - 127 = 1; 0 - 127 = -127
    assert_eq!(px, vec![0, 0]);

    let mut px = vec![0, 127];
    random_threshold_pixel(&mut px, 255);
    // 0 + 255 - 127 = 128; 127 + 255 - 127 = 255
    assert_eq!(px, vec![255, 255]);
}

#[test]
fn bayer_ignores_color_map() {
    // The inverted map and the standard map give the same Bayer output: the
    // capability is accepted for uniformity but not consulted.
    let mut a = gradient(8, 8, 1);
    let mut b = gradient(8, 8, 1);
    dither_bayer(&mut a, &BiLevel).unwrap();
    dither_bayer(&mut b, &InvertedBiLevel).unwrap();
    assert_eq!(a.data, b.data);
}

#[test]
fn inverted_bilevel_inverts() {
    let mut g = make(1, 1, 2, &[200, 50]);
    dither_sierra_lite(&mut g, &InvertedBiLevel).unwrap();
    assert_eq!(g.data, vec![0, 255]);
}
