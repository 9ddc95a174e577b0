//! Pixel windows, line sampling and the gradient measure on small images.

use engraver::grid::Grid;
use engraver::pixel_subset::{GradKey, PixelSubset};
use engraver::trig::isqrt;

/// A `width x height` brightness grid whose shade climbs along the direction
/// `grad_dir` (an angle in radians), from darkest to brightest.
fn img_grad_factory(width: u32, height: u32, grad_dir: f64) -> Grid<u8> {
    let x_ratio = grad_dir.cos().abs() / (grad_dir.cos().abs() + grad_dir.sin().abs());
    let y_ratio = grad_dir.sin().abs() / (grad_dir.cos().abs() + grad_dir.sin().abs());
    let (width_virt, height_virt) = ((width - 1) as f64 * x_ratio, (height - 1) as f64 * y_ratio);
    let mut data: Vec<u8> = Vec::new();
    for x in 0..width {
        for y in 0..height {
            let (x_virt, y_virt) = (x as f64 * x_ratio, y as f64 * y_ratio);
            let ratio = (x_virt + y_virt) / (width_virt + height_virt);
            let shade = (u8::MAX as f64 * ratio) as u8;
            data.push(shade);
        }
    }
    Grid::from_vec(width, height, data)
}

#[test]
fn find_i_min_grad_img_5x5_dir_0_ij_2() {
    let img_gs = img_grad_factory(5, 5, 0.0);
    let mut pxl_subset = PixelSubset::new(1);
    pxl_subset.fill(&img_gs, (2, 2));

    // the four directions of angle 0, pi/4, pi/2 and 3*pi/4
    let expected = 0;
    let result = pxl_subset.find_i_min_grad_dir(4);

    assert_eq!(expected, result);
}

#[test]
fn find_i_min_grad_img_5x5_dir_0_ij_0() {
    let img_gs = img_grad_factory(5, 5, 0.0);
    let mut pxl_subset = PixelSubset::new(1);
    pxl_subset.fill(&img_gs, (0, 0));

    let expected = 0;
    let result = pxl_subset.find_i_min_grad_dir(4);

    assert_eq!(expected, result);
}

#[test]
fn calc_grad_img_5x5_dir_0_ij_0() {
    let img_gs = img_grad_factory(5, 5, 0.0);
    let mut pxl_subset = PixelSubset::new(1);
    pxl_subset.fill(&img_gs, (2, 2));

    // a zero gradient over the line's two sample pairs
    let expected = GradKey::Finite(0, 2);
    let result = pxl_subset.calc_grad(0, 4);

    assert_eq!(expected, result);
}

#[test]
fn calc_grad_img_5x5_dir_0_ij_2() {
    let img_gs = img_grad_factory(5, 5, 0.0);
    let mut pxl_subset = PixelSubset::new(1);
    pxl_subset.fill(&img_gs, (2, 2));

    let expected = GradKey::Finite(0, 2);
    let result = pxl_subset.calc_grad(0, 4);

    assert_eq!(expected, result);
}

#[test]
fn calc_grad_img_5x5_dir_pi4_ij_0() {
    let img_gs = img_grad_factory(5, 5, std::f64::consts::PI / 4.0);
    let mut pxl_subset = PixelSubset::new(1);
    pxl_subset.fill(&img_gs, (0, 0));

    // fewer than two valid samples: no usable gradient data
    let expected = GradKey::Infinite;
    let result = pxl_subset.calc_grad(1, 4);

    assert_eq!(expected, result);
}

#[test]
fn calc_grad_img_5x5_dir_pi4_ij_2() {
    let img_gs = img_grad_factory(5, 5, std::f64::consts::PI / 4.0);
    let mut pxl_subset = PixelSubset::new(1);
    pxl_subset.fill(&img_gs, (2, 2));

    let expected = GradKey::Finite(0, 2);
    let result = pxl_subset.calc_grad(1, 4);

    assert_eq!(expected, result);
}

#[test]
fn calc_grad_img_5x5_dir_pi4_ij_4() {
    let img_gs = img_grad_factory(5, 5, std::f64::consts::PI / 4.0);
    let mut pxl_subset = PixelSubset::new(1);
    pxl_subset.fill(&img_gs, (4, 4));

    let expected = GradKey::Infinite;
    let result = pxl_subset.calc_grad(1, 4);

    assert_eq!(expected, result);
}

#[test]
fn fill_5x5_x0_y0_n1() {
    let img_gs = img_grad_factory(5, 5, 3.0 * std::f64::consts::PI / 4.0);
    let mut pxl_subset = PixelSubset::new(1);
    pxl_subset.fill(&img_gs, (0, 0));

    let expected = vec![
        vec![None, None, None],
        vec![None, Some(img_gs.get(0, 0)), Some(img_gs.get(0, 1))],
        vec![None, Some(img_gs.get(1, 0)), Some(img_gs.get(1, 1))],
    ];
    assert_eq!(expected, pxl_subset.pixels);
}

#[test]
fn fill_5x5_x2_y2_n1() {
    let img_gs = img_grad_factory(5, 5, 3.0 * std::f64::consts::PI / 4.0);
    let mut pxl_subset = PixelSubset::new(1);
    pxl_subset.fill(&img_gs, (2, 2));

    let expected = vec![
        vec![Some(img_gs.get(1, 1)), Some(img_gs.get(1, 2)), Some(img_gs.get(1, 3))],
        vec![Some(img_gs.get(2, 1)), Some(img_gs.get(2, 2)), Some(img_gs.get(2, 3))],
        vec![Some(img_gs.get(3, 1)), Some(img_gs.get(3, 2)), Some(img_gs.get(3, 3))],
    ];
    assert_eq!(expected, pxl_subset.pixels);
}

#[test]
fn get_subpixels_5x5_x0_y0_n1() {
    let img_gs = img_grad_factory(5, 5, 3.0 * std::f64::consts::PI / 4.0);
    let mut pxl_subset = PixelSubset::new(1);
    pxl_subset.fill(&img_gs, (0, 0));

    let expected = vec![
        vec![None, None, None],
        vec![None, Some(img_gs.get(0, 0)), Some(img_gs.get(0, 1))],
        vec![None, Some(img_gs.get(1, 0)), Some(img_gs.get(1, 1))],
    ];
    assert_eq!(expected, pxl_subset.pixels);
}

#[test]
fn get_subpixels_5x5_x2_y2_n1() {
    let img_gs = img_grad_factory(5, 5, 3.0 * std::f64::consts::PI / 4.0);
    let mut pxl_subset = PixelSubset::new(1);
    pxl_subset.fill(&img_gs, (2, 2));

    let expected = vec![
        vec![Some(img_gs.get(1, 1)), Some(img_gs.get(1, 2)), Some(img_gs.get(1, 3))],
        vec![Some(img_gs.get(2, 1)), Some(img_gs.get(2, 2)), Some(img_gs.get(2, 3))],
        vec![Some(img_gs.get(3, 1)), Some(img_gs.get(3, 2)), Some(img_gs.get(3, 3))],
    ];
    assert_eq!(expected, pxl_subset.pixels);
}

fn line_points_for(direct_k: u32, direct_n: u32) -> Vec<(u32, u32)> {
    let img_gs = img_grad_factory(5, 5, 3.0 * std::f64::consts::PI / 4.0);
    let mut pxl_subset = PixelSubset::new(2);
    pxl_subset.fill(&img_gs, (2, 2));
    pxl_subset.get_pixels_in_line(direct_k, direct_n)
}

#[test]
fn pixel_subset_get_pixels_in_line_dir_0() {
    let expected: Vec<(u32, u32)> = vec![(2, 0), (2, 1), (2, 2), (2, 3), (2, 4)];
    assert_eq!(expected, line_points_for(0, 4));
}

#[test]
fn pixel_subset_get_pixels_in_line_dir_pi4() {
    let expected: Vec<(u32, u32)> = vec![(4, 0), (3, 1), (2, 2), (1, 3), (0, 4)];
    assert_eq!(expected, line_points_for(1, 4));
}

#[test]
fn pixel_subset_get_pixels_in_line_dir_pi2() {
    let expected: Vec<(u32, u32)> = vec![(0, 2), (1, 2), (2, 2), (3, 2), (4, 2)];
    assert_eq!(expected, line_points_for(2, 4));
}

#[test]
fn pixel_subset_get_pixels_in_line_dir_pi34() {
    let expected: Vec<(u32, u32)> = vec![(0, 0), (1, 1), (2, 2), (3, 3), (4, 4)];
    assert_eq!(expected, line_points_for(3, 4));
}

#[test]
fn pixel_subset_get_pixels_in_line_dir_pi() {
    let expected: Vec<(u32, u32)> = vec![(2, 0), (2, 1), (2, 2), (2, 3), (2, 4)];
    assert_eq!(expected, line_points_for(4, 4));
}

#[test]
fn processing_get_pixels_in_line_dir_0() {
    let expected: Vec<(u32, u32)> = vec![(2, 0), (2, 1), (2, 2), (2, 3), (2, 4)];
    assert_eq!(expected, line_points_for(0, 4));
}

#[test]
fn processing_get_pixels_in_line_dir_pi4() {
    let expected: Vec<(u32, u32)> = vec![(4, 0), (3, 1), (2, 2), (1, 3), (0, 4)];
    assert_eq!(expected, line_points_for(1, 4));
}

#[test]
fn processing_get_pixels_in_line_dir_pi2() {
    let expected: Vec<(u32, u32)> = vec![(0, 2), (1, 2), (2, 2), (3, 2), (4, 2)];
    assert_eq!(expected, line_points_for(2, 4));
}

#[test]
fn processing_get_pixels_in_line_dir_pi34() {
    let expected: Vec<(u32, u32)> = vec![(0, 0), (1, 1), (2, 2), (3, 3), (4, 4)];
    assert_eq!(expected, line_points_for(3, 4));
}

#[test]
fn processing_get_pixels_in_line_dir_pi() {
    let expected: Vec<(u32, u32)> = vec![(2, 0), (2, 1), (2, 2), (2, 3), (2, 4)];
    assert_eq!(expected, line_points_for(4, 4));
}

#[test]
fn isqrt_exact_values() {
    assert_eq!(isqrt(0), 0);
    assert_eq!(isqrt(1), 1);
    assert_eq!(isqrt(15), 3);
    assert_eq!(isqrt(16), 4);
    assert_eq!(isqrt(u64::MAX), 0xFFFF_FFFF);
}

#[test]
fn gen_directs_to_eval4() {
    // four candidate directions: the fixed-point angles 0, pi/4, pi/2, 3*pi/4
    let expected: Vec<i64> = vec![0, 843_314_856, 1_686_629_713, 2_529_944_569];
    let mut result: Vec<i64> = Vec::new();
    for k in 0..4u64 {
        result.push(engraver::trig::angle_fp(k, 4));
    }
    assert_eq!(expected, result);
}
