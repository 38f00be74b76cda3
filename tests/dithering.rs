use dither::bayer::{apply_bayer_dithering, generate_bayer_matrix, ordered_dither};
use dither::color::{color_distance, color_luma, string_to_color, Color, NamedColor};
use dither::diffusion::{
    diffusion_erreur, diffusion_erreur_floyd_steinberg, diffusion_erreur_palette, DiffusionKernel,
};
use dither::noise::{dither_with_thresholds, random_dither, threshold_dither};
use dither::palette::{limited_palette, nearest_color, nearest_color_index, reduce_to_palette};
use dither::raster::Image;
use dither::DitherError;
use rand::rngs::StdRng;
use rand::SeedableRng;

fn c(r: u8, g: u8, b: u8) -> Color {
    Color { r, g, b }
}

fn black() -> Color {
    c(0, 0, 0)
}

fn white() -> Color {
    c(255, 255, 255)
}

fn image(width: usize, height: usize, pixels: Vec<Color>) -> Image {
    assert_eq!(pixels.len(), width * height);
    Image { width, height, pixels }
}

fn gray(v: u8) -> Color {
    c(v, v, v)
}

#[test]
fn luma_uses_rec709_weights() {
    assert_eq!(color_luma(black()), 0);
    assert_eq!(color_luma(white()), 255);
    assert_eq!(color_luma(c(255, 0, 0)), 54);
    assert_eq!(color_luma(c(0, 255, 0)), 182);
    assert_eq!(color_luma(c(0, 0, 255)), 18);
    assert_eq!(color_luma(gray(100)), 100);
}

#[test]
fn distance_is_squared_euclidean() {
    assert_eq!(color_distance(black(), white()), 195075);
    assert_eq!(color_distance(c(1, 2, 3), c(4, 6, 3)), 25);
    assert_eq!(color_distance(c(9, 9, 9), c(9, 9, 9)), 0);
}

#[test]
fn single_entry_palette_returns_its_colour() {
    for col in [black(), white(), c(12, 200, 7), c(255, 0, 128)] {
        assert_eq!(nearest_color(col, &[col]), Ok(col));
        assert_eq!(nearest_color(c(3, 4, 5), &[col]), Ok(col));
    }
}

#[test]
fn black_white_split_at_half_mean() {
    let pal = [black(), white()];
    assert_eq!(nearest_color(gray(127), &pal), Ok(black()));
    assert_eq!(nearest_color(gray(128), &pal), Ok(white()));
    // Channel sum 382 is below 382.5, 383 is above.
    assert_eq!(nearest_color(c(127, 127, 128), &pal), Ok(black()));
    assert_eq!(nearest_color(c(127, 128, 128), &pal), Ok(white()));
    // Repeated calls agree.
    for _ in 0..3 {
        assert_eq!(nearest_color(c(127, 127, 128), &pal), Ok(black()));
    }
}

#[test]
fn nearest_ties_go_to_first_entry() {
    let pal = [c(0, 0, 10), c(0, 0, 30), c(0, 0, 10)];
    assert_eq!(nearest_color_index(c(0, 0, 20), &pal), 0);
    assert_eq!(nearest_color_index(c(0, 0, 10), &pal), 0);
    assert_eq!(nearest_color_index(c(0, 0, 29), &pal), 1);
}

#[test]
fn nearest_on_empty_palette_is_an_error() {
    assert_eq!(nearest_color(black(), &[]), Err(DitherError::InvalidPalette));
}

#[test]
fn limited_palette_bounds() {
    assert_eq!(limited_palette(0), Err(DitherError::InvalidPalette));
    assert_eq!(limited_palette(1), Err(DitherError::InvalidPalette));
    assert_eq!(limited_palette(6), Err(DitherError::InvalidPalette));
    assert_eq!(limited_palette(2), Ok(vec![black(), white()]));
    assert_eq!(
        limited_palette(5),
        Ok(vec![black(), white(), c(255, 0, 0), c(0, 0, 255), c(0, 255, 0)])
    );
}

#[test]
fn reduce_to_palette_maps_each_pixel() {
    let img = image(3, 1, vec![c(250, 10, 10), c(10, 10, 240), gray(200)]);
    let pal = limited_palette(5).unwrap();
    let out = reduce_to_palette(&img, &pal).unwrap();
    assert_eq!(out.pixels, vec![c(255, 0, 0), c(0, 0, 255), white()]);
    assert_eq!(reduce_to_palette(&img, &[]), Err(DitherError::InvalidPalette));
}

#[test]
fn one_pixel_image_gives_one_palette_entry() {
    let pal = [c(10, 20, 30), c(200, 100, 0), white()];
    for col in [black(), c(190, 90, 10), gray(240)] {
        let img = image(1, 1, vec![col]);
        let expected = nearest_color(col, &pal).unwrap();
        let flat = reduce_to_palette(&img, &pal).unwrap();
        assert_eq!(flat.pixels, vec![expected]);
        let fs = diffusion_erreur_floyd_steinberg(&img, &pal).unwrap();
        assert_eq!(fs.pixels, vec![expected]);
        assert!(pal.contains(&fs.pixels[0]));
    }
}

#[test]
fn bayer_order_one_is_zero() {
    let m = generate_bayer_matrix(1).unwrap();
    assert_eq!(m.order, 1);
    assert_eq!(m.levels, vec![vec![0]]);
}

#[test]
fn bayer_order_two_and_four() {
    assert_eq!(generate_bayer_matrix(2).unwrap().levels, vec![vec![0, 2], vec![3, 1]]);
    assert_eq!(
        generate_bayer_matrix(4).unwrap().levels,
        vec![
            vec![0, 8, 2, 10],
            vec![12, 4, 14, 6],
            vec![3, 11, 1, 9],
            vec![15, 7, 13, 5],
        ]
    );
}

#[test]
fn bayer_levels_are_a_permutation_up_to_64() {
    let mut order = 1;
    while order <= 64 {
        let m = generate_bayer_matrix(order).unwrap();
        let mut seen = vec![false; order * order];
        for row in &m.levels {
            assert_eq!(row.len(), order);
            for &v in row {
                assert!(v < order * order);
                assert!(!seen[v]);
                seen[v] = true;
            }
        }
        assert!(seen.iter().all(|&s| s));
        order *= 2;
    }
}

#[test]
fn bayer_rejects_non_powers_of_two() {
    for order in [0, 3, 5, 6, 12, 100] {
        assert_eq!(generate_bayer_matrix(order).unwrap_err(), DitherError::InvalidMatrixOrder);
    }
}

#[test]
fn ordered_dither_compares_against_tiled_thresholds() {
    // Order 2: thresholds 0, 2/4, 3/4, 1/4.
    let m = generate_bayer_matrix(2).unwrap();
    let img = image(4, 1, vec![gray(100); 4]);
    let out = ordered_dither(&img, &m, black(), white());
    // 100/255 > 0 and > 1/4 but not > 1/2.
    assert_eq!(out.pixels, vec![white(), black(), white(), black()]);
    let img = image(1, 2, vec![gray(100); 2]);
    let out = ordered_dither(&img, &m, black(), white());
    assert_eq!(out.pixels, vec![white(), black()]);
}

#[test]
fn bayer_dithering_keeps_black_and_white() {
    let pixels: Vec<Color> = (0..20).map(|i| if i % 3 == 0 { white() } else { black() }).collect();
    let img = image(5, 4, pixels);
    let once = apply_bayer_dithering(&img);
    assert_eq!(once, img);
    let twice = apply_bayer_dithering(&once);
    assert_eq!(twice, img);
}

#[test]
fn bayer_dithering_twice_equals_once() {
    let pixels: Vec<Color> = (0..30u32).map(|i| c((i * 8) as u8, (i * 5) as u8, 90)).collect();
    let img = image(6, 5, pixels);
    let once = apply_bayer_dithering(&img);
    assert!(once.pixels.iter().all(|&p| p == black() || p == white()));
    assert_eq!(apply_bayer_dithering(&once), once);
}

#[test]
fn floyd_steinberg_two_by_two_regression() {
    let img = image(2, 2, vec![gray(10), gray(250), gray(10), gray(250)]);
    let out = diffusion_erreur_floyd_steinberg(&img, &[black(), white()]).unwrap();
    assert_eq!(out.width, 2);
    assert_eq!(out.height, 2);
    assert_eq!(out.pixels, vec![black(), white(), black(), white()]);
}

#[test]
fn floyd_steinberg_spreads_exact_fractions() {
    // A palette without white: the working values can be observed through
    // which entry each pixel lands on.
    // Row 0: 100 -> black (error 100); right neighbour 0 + 700/16 = 43.
    let pal = [black(), gray(43), gray(44)];
    let img = image(2, 1, vec![gray(100), gray(0)]);
    let out = diffusion_erreur_floyd_steinberg(&img, &pal).unwrap();
    assert_eq!(out.pixels, vec![gray(44), gray(43)]);
}

#[test]
fn error_diffusion_is_idempotent_on_palette_images() {
    let img = image(3, 2, vec![black(), white(), white(), black(), black(), white()]);
    let pal = [black(), white()];
    let out = diffusion_erreur_floyd_steinberg(&img, &pal).unwrap();
    assert_eq!(out, img);
    let k = DiffusionKernel::half_right_half_down();
    assert_eq!(diffusion_erreur_palette(&img, &pal, &k).unwrap(), img);
}

#[test]
fn error_diffusion_twice_equals_once() {
    let pixels: Vec<Color> = (0..24u32).map(|i| c((i * 11) as u8, (i * 7) as u8, (255 - i * 9) as u8)).collect();
    let img = image(6, 4, pixels);
    let pal = limited_palette(5).unwrap();
    let once = diffusion_erreur_floyd_steinberg(&img, &pal).unwrap();
    assert!(once.pixels.iter().all(|p| pal.contains(p)));
    let twice = diffusion_erreur_floyd_steinberg(&once, &pal).unwrap();
    assert_eq!(twice, once);
}

#[test]
fn error_diffusion_clamps_at_zero() {
    // 120 goes to 200: the error -80 pushed onto black neighbours is clamped
    // at zero, so the result is exactly the quantised pixel.
    let img = image(3, 2, vec![black(), gray(120), black(), black(), black(), black()]);
    let pal = [black(), gray(200)];
    let k = DiffusionKernel::floyd_steinberg();
    let out = diffusion_erreur_palette(&img, &pal, &k).unwrap();
    assert_eq!(out.pixels, vec![black(), gray(200), black(), black(), black(), black()]);
}

#[test]
fn error_diffusion_empty_palette_is_an_error() {
    let img = image(1, 1, vec![gray(3)]);
    assert_eq!(diffusion_erreur_floyd_steinberg(&img, &[]), Err(DitherError::InvalidPalette));
}

#[test]
fn error_diffusion_on_empty_image() {
    let img = image(0, 3, vec![]);
    let out = diffusion_erreur_floyd_steinberg(&img, &[black()]).unwrap();
    assert_eq!(out, img);
}

#[test]
fn kernel_validation() {
    assert!(DiffusionKernel::new(vec![vec![0, 0, 7], vec![3, 5, 1]], 16, 1, 0).is_ok());
    assert!(DiffusionKernel::new(vec![vec![0, 1], vec![1, 0]], 2, 0, 0).is_ok());
    let bad = [
        DiffusionKernel::new(vec![], 16, 0, 0),
        DiffusionKernel::new(vec![vec![]], 16, 0, 0),
        DiffusionKernel::new(vec![vec![0, 7], vec![3, 5, 1]], 16, 0, 0),
        DiffusionKernel::new(vec![vec![0, 0, 7], vec![3, 5, 1]], 0, 1, 0),
        DiffusionKernel::new(vec![vec![0, 0, 7], vec![3, 5, 1]], 16, 3, 0),
        DiffusionKernel::new(vec![vec![0, 0, 7], vec![3, 5, 1]], 16, 0, 2),
        DiffusionKernel::new(vec![vec![1, 0, 7], vec![3, 5, 1]], 16, 1, 0),
        DiffusionKernel::new(vec![vec![0, 2, 7], vec![3, 5, 1]], 16, 1, 0),
        DiffusionKernel::new(vec![vec![0, 0, 7], vec![3, 5, 1]], 16, 0, 1),
    ];
    for k in bad {
        assert_eq!(k.unwrap_err(), DitherError::InvalidKernel);
    }
}

#[test]
fn custom_kernel_half_right_half_down() {
    let k = DiffusionKernel::new(vec![vec![0, 1], vec![1, 0]], 2, 0, 0).unwrap();
    let pal = [black(), gray(150)];
    let img = image(2, 2, vec![gray(100), gray(100), gray(100), gray(0)]);
    let out = diffusion_erreur_palette(&img, &pal, &k).unwrap();
    // (0,0): 100 -> 150, error -50: (1,0) and (0,1) become 75.
    // (1,0): 75 is as far from 0 as from 150; the first entry wins: black,
    //        error 75: (1,1) becomes 0 + 37.5, rounded down to 37.
    // (0,1): 75 -> black, error 75: (1,1) becomes 37 + 37.5 -> 74.
    // (1,1): 74 -> black.
    assert_eq!(out.pixels, vec![gray(150), black(), black(), black()]);
}

#[test]
fn monochrome_diffusion() {
    let img = image(2, 1, vec![gray(100), gray(100)]);
    let out = diffusion_erreur(&img);
    assert_eq!(out.pixels, vec![black(), white()]);
    let img = image(1, 2, vec![c(255, 0, 0), c(255, 0, 0)]);
    // Brightness 54 -> black, error 54; below: 54 + 27 = 81 -> black.
    let out = diffusion_erreur(&img);
    assert_eq!(out.pixels, vec![black(), black()]);
    let img = image(2, 2, vec![white(), black(), black(), white()]);
    assert_eq!(diffusion_erreur(&img), img);
}

#[test]
fn threshold_at_127() {
    let img = image(3, 1, vec![gray(127), gray(128), c(0, 255, 0)]);
    let red = c(255, 0, 0);
    let blue = c(0, 0, 255);
    let out = threshold_dither(&img, blue, red);
    assert_eq!(out.pixels, vec![blue, red, red]);
}

#[test]
fn explicit_thresholds() {
    let img = image(2, 2, vec![gray(10), gray(10), gray(200), gray(200)]);
    let out = dither_with_thresholds(&img, &[9, 10, 199, 255], black(), white());
    assert_eq!(out.pixels, vec![white(), black(), white(), black()]);
}

#[test]
fn random_dither_is_reproducible_with_a_seed() {
    let pixels: Vec<Color> = (0..64u32).map(|i| gray((i * 4) as u8)).collect();
    let img = image(8, 8, pixels);
    let mut rng1 = StdRng::seed_from_u64(1234);
    let mut rng2 = StdRng::seed_from_u64(1234);
    let a = random_dither(&img, black(), white(), &mut rng1);
    let b = random_dither(&img, black(), white(), &mut rng2);
    assert_eq!(a, b);
    assert!(a.pixels.iter().all(|&p| p == black() || p == white()));
    // The extremes do not depend on the draw: brightness 0 never exceeds a
    // threshold.
    assert_eq!(a.pixels[0], black());
}

#[test]
fn random_dither_follows_drawn_thresholds() {
    let pixels: Vec<Color> = (0..50u32).map(|i| gray((i * 5) as u8)).collect();
    let img = image(10, 5, pixels);
    let mut rng = StdRng::seed_from_u64(7);
    let out = random_dither(&img, black(), white(), &mut rng);
    let mut rng = StdRng::seed_from_u64(7);
    let thresholds: Vec<u8> = (0..50).map(|_| rand::Rng::gen::<u8>(&mut rng)).collect();
    assert_eq!(out, dither_with_thresholds(&img, &thresholds, black(), white()));
}

#[test]
fn colour_names() {
    assert_eq!(string_to_color("noir"), black());
    assert_eq!(string_to_color("blanc"), white());
    assert_eq!(string_to_color("gris"), gray(127));
    assert_eq!(string_to_color("rouge"), c(255, 0, 0));
    assert_eq!(string_to_color("vert"), c(0, 255, 0));
    assert_eq!(string_to_color("bleu"), c(0, 0, 255));
    assert_eq!(string_to_color("jaune"), c(255, 255, 0));
    assert_eq!(string_to_color("cyan"), c(0, 255, 255));
    assert_eq!(string_to_color("magenta"), c(255, 0, 255));
    assert_eq!(string_to_color("violet"), black());
    assert_eq!(string_to_color(""), black());
    assert_eq!(string_to_color("blancs"), black());
    assert_eq!(NamedColor::Yellow.to_color(), c(255, 255, 0));
}

#[test]
fn get_pixel_is_row_major() {
    let img = image(2, 2, vec![gray(1), gray(2), gray(3), gray(4)]);
    assert_eq!(img.get_pixel(1, 0), gray(2));
    assert_eq!(img.get_pixel(0, 1), gray(3));
}

#[test]
fn one_diffusion_step_moves_the_residual_up_to_rounding() {
    // Every grey from 40 up is in the palette, so once pixel (1, 0) has pushed
    // its error the later pixels are matched to themselves and the output
    // shows the working buffer after that single step.
    let mut pal = vec![black()];
    for v in 40..=255u8 {
        pal.push(gray(v));
    }
    let img = image(3, 2, vec![black(), gray(10), gray(100), gray(100), gray(100), gray(100)]);
    let out = diffusion_erreur_floyd_steinberg(&img, &pal).unwrap();
    // Residual 10 per channel: 70/16 right, 30/16 below left, 50/16 below,
    // 10/16 below right, each rounded down.
    assert_eq!(out.pixels, vec![black(), black(), gray(104), gray(101), gray(103), gray(100)]);
    let total = |img: &Image| -> i64 {
        img.pixels.iter().map(|p| p.r as i64 + p.g as i64 + p.b as i64).sum()
    };
    let residual = 30;
    let gain = total(&out) - total(&img) + residual;
    // Weights sum to 16/16; six kernel cells, three channels each.
    assert!(16 * gain <= residual * 16);
    assert!(residual * 16 - 3 * 15 * 6 <= 16 * gain);
    assert_eq!(gain, 24);
}
