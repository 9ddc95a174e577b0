//! End-to-end runs of the engraving pipeline: the direction field, the
//! aggregated region directions, the stripe rendering and the error cases.

use engraver::direction_field::gen_min_grad_map;
use engraver::grid::{Grid, PixelGrid};
use engraver::image_processor::{run, INK, PAPER};
use engraver::quantize::quantize_grid;
use engraver::region::gen_shade_regions;
use engraver::trig::SCALE;
use engraver::EngraveError;

/// A `width x height` brightness grid whose shade climbs along the direction
/// `grad_dir` (an angle in radians), from darkest to brightest.
fn img_grad_factory(width: u32, height: u32, grad_dir: f64) -> Grid<u8> {
    let x_ratio = grad_dir.cos().abs() / (grad_dir.cos().abs() + grad_dir.sin().abs());
    let y_ratio = grad_dir.sin().abs() / (grad_dir.cos().abs() + grad_dir.sin().abs());
    let (width_virt, height_virt) = ((width - 1) as f64 * x_ratio, (height - 1) as f64 * y_ratio);
    let mut data: Vec<u8> = Vec::new();
    for x in 0..width {
        for y in 0..height {
            let (x_virt, y_virt) = (x as f64 * x_ratio, y as f64 * y_ratio);
            let ratio = (x_virt + y_virt) / (width_virt + height_virt);
            let shade = (u8::MAX as f64 * ratio) as u8;
            data.push(shade);
        }
    }
    Grid::from_vec(width, height, data)
}

fn pixel_grid_of(shade: Grid<u8>) -> PixelGrid {
    let alpha = Grid::filled(shade.width, shade.height, 255u8);
    PixelGrid::new(shade, alpha)
}

#[test]
fn calc_regions_avg_min_grad_dirs_5x5_dir_pi4() {
    let img_gs = img_grad_factory(5, 5, 0.0);
    let i_shades = quantize_grid(&img_gs, 5).unwrap();
    let dirs = gen_min_grad_map(&img_gs, 2).unwrap();
    let mut regions = gen_shade_regions(&i_shades);
    for region in regions.iter_mut() {
        region.calc_avg_min_grad_dirs(&dirs, 2);
    }

    // every pixel's least-changing direction is the first candidate, angle
    // zero, whose fixed-point cosine and sine are SCALE and zero
    assert_eq!(regions.len(), 5);
    for region in &regions {
        assert_eq!(region.direction.cos_fp, SCALE);
        assert_eq!(region.direction.sin_fp, 0);
    }
}

/// A flat image gives every pixel the first candidate direction: all
/// directions tie at a zero gradient, and the tie goes to the lowest index.
#[test]
fn scenario_flat_image_all_directions_zero() {
    for n_grad_dir in [1u32, 2, 5, 8] {
        let flat: Grid<u8> = Grid::filled(5, 5, 100);
        let dirs = gen_min_grad_map(&flat, n_grad_dir).unwrap();
        for x in 0..5u32 {
            for y in 0..5u32 {
                assert_eq!(dirs.get(x, y), 0);
            }
        }
    }
}

/// A uniform region of shade index 2 out of 5 with stroke width 4 gets an
/// ink band of width `floor(2 / 5 * 4) = 1`: exactly one out of every 4
/// consecutive projected-distance values along the stripe direction is
/// painted ink.
#[test]
fn scenario_uniform_region_stripe_bands() {
    // brightness 130 quantizes to index 2 of 5 (bucket width 63)
    let shade: Grid<u8> = Grid::filled(8, 4, 130);
    let img = pixel_grid_of(shade);
    let out = run(img, 5, 1, 4).unwrap();
    // a flat region gets direction angle zero: stripes vary along x alone
    for x in 0..8u32 {
        for y in 0..4u32 {
            let expected = if x % 4 < 1 { INK } else { PAPER };
            assert_eq!(out.shade.get(x, y), expected);
        }
    }
}

/// A region of the lowest shade index is painted all paper.
#[test]
fn scenario_lowest_shade_all_paper() {
    // brightness 10 quantizes to index 0 of 5
    let shade: Grid<u8> = Grid::filled(6, 6, 10);
    let img = pixel_grid_of(shade);
    let out = run(img, 5, 2, 4).unwrap();
    for x in 0..6u32 {
        for y in 0..6u32 {
            assert_eq!(out.shade.get(x, y), PAPER);
        }
    }
}

#[test]
fn run_output_two_values_and_alpha_kept() {
    let shade = img_grad_factory(6, 5, 0.3);
    let mut alpha_data: Vec<u8> = Vec::new();
    for i in 0..30u32 {
        alpha_data.push((200 + i % 50) as u8);
    }
    let alpha = Grid::from_vec(6, 5, alpha_data.clone());
    let img = PixelGrid::new(shade, alpha);
    let out = run(img, 4, 3, 5).unwrap();
    assert_eq!(out.shade.width, 6);
    assert_eq!(out.shade.height, 5);
    assert_eq!(out.alpha.data, alpha_data);
    for x in 0..6u32 {
        for y in 0..5u32 {
            let v = out.shade.get(x, y);
            assert!(v == INK || v == PAPER);
        }
    }
}

/// Two runs with identical input and parameters produce bit-identical
/// output.
#[test]
fn run_is_deterministic() {
    let make = || pixel_grid_of(img_grad_factory(7, 6, 1.1));
    let out1 = run(make(), 5, 4, 3).unwrap();
    let out2 = run(make(), 5, 4, 3).unwrap();
    assert_eq!(out1.shade.data, out2.shade.data);
    assert_eq!(out1.alpha.data, out2.alpha.data);
}

#[test]
fn run_rejects_single_shade() {
    let img = pixel_grid_of(Grid::filled(3, 3, 9));
    assert_eq!(run(img, 1, 4, 3).unwrap_err(), EngraveError::InvalidShadeCount);
}

#[test]
fn run_rejects_zero_directions() {
    let img = pixel_grid_of(Grid::filled(3, 3, 9));
    assert_eq!(run(img, 2, 0, 3).unwrap_err(), EngraveError::InvalidDirectionCount);
}

#[test]
fn run_rejects_zero_stroke_width() {
    let img = pixel_grid_of(Grid::filled(3, 3, 9));
    assert_eq!(run(img, 2, 4, 0).unwrap_err(), EngraveError::InvalidStrokeWidth);
}

/// An image smaller than the sampling window leaves every direction without
/// two valid samples, which the pipeline reports instead of guessing.
#[test]
fn run_reports_degenerate_window() {
    let img = pixel_grid_of(Grid::filled(1, 1, 9));
    assert_eq!(run(img, 2, 1, 3).unwrap_err(), EngraveError::DegenerateWindow);
}

#[test]
fn direction_field_rejects_zero_directions() {
    let img: Grid<u8> = Grid::filled(3, 3, 9);
    assert_eq!(gen_min_grad_map(&img, 0).unwrap_err(), EngraveError::InvalidDirectionCount);
}

/// The column-gradient image engraves to vertical structure: each column
/// region is monochromatic in the output, either fully ink or fully paper
/// down the column.
#[test]
fn run_column_gradient_paints_columns() {
    let img = pixel_grid_of(img_grad_factory(5, 5, 0.0));
    let out = run(img, 5, 2, 4).unwrap();
    for x in 0..5u32 {
        let top = out.shade.get(x, 0);
        assert!(top == INK || top == PAPER);
        for y in 1..5u32 {
            assert_eq!(out.shade.get(x, y), top);
        }
    }
}

/// An empty image runs through the whole pipeline and yields an empty image.
#[test]
fn empty_image_runs() {
    let img = pixel_grid_of(Grid::from_vec(0, 0, Vec::new()));
    let out = run(img, 5, 4, 3).unwrap();
    assert_eq!(out.shade.width, 0);
    assert_eq!(out.shade.height, 0);
    assert_eq!(out.shade.data.len(), 0);
}

/// The regions of a segmentation partition the grid: every pixel lies in
/// exactly one region, regions are monochromatic, and no two 4-adjacent
/// pixels of equal shade index end up in different regions.
#[test]
fn partition_and_maximality_concrete() {
    let img = img_grad_factory(6, 4, 0.8);
    let i_shades = quantize_grid(&img, 3).unwrap();
    let regions = gen_shade_regions(&i_shades);
    let mut owner = vec![vec![usize::MAX; 4]; 6];
    for (k, region) in regions.iter().enumerate() {
        for &(x, y) in &region.coords {
            // each pixel claimed at most once, and monochromatically
            assert_eq!(owner[x as usize][y as usize], usize::MAX);
            owner[x as usize][y as usize] = k;
            assert_eq!(i_shades.get(x, y), region.i_shade);
        }
    }
    for x in 0..6usize {
        for y in 0..4usize {
            // every pixel claimed
            assert_ne!(owner[x][y], usize::MAX);
            // equal-shade 4-neighbors share the owner
            if x + 1 < 6 && i_shades.get(x as u32, y as u32) == i_shades.get(x as u32 + 1, y as u32)
            {
                assert_eq!(owner[x][y], owner[x + 1][y]);
            }
            if y + 1 < 4 && i_shades.get(x as u32, y as u32) == i_shades.get(x as u32, y as u32 + 1)
            {
                assert_eq!(owner[x][y], owner[x][y + 1]);
            }
        }
    }
}

/// The half-angle reconstruction keeps every direction inside the half-open
/// half-circle: a mean vector that collapses onto the negative axis folds
/// back to angle zero instead of angle pi, and an ordinary downward mean
/// vector lands strictly inside the range.
#[test]
fn half_angle_direction_stays_in_range() {
    // a truncated mean like (5, -1) has its full length along the x axis:
    // without the fold it would come out as angle pi
    let d = engraver::trig::half_angle_direction(5, -1);
    assert_eq!(d.cos_fp, SCALE);
    assert_eq!(d.sin_fp, 0);
    // a straight-down doubled mean reconstructs the three-eighths turn
    let d2 = engraver::trig::half_angle_direction(0, -SCALE);
    assert_eq!(d2.cos_fp, -759_250_124);
    assert_eq!(d2.sin_fp, 759_250_124);
    // and the zero vector leaves the direction at angle zero
    let d3 = engraver::trig::half_angle_direction(0, 0);
    assert_eq!(d3.cos_fp, SCALE);
    assert_eq!(d3.sin_fp, 0);
}
