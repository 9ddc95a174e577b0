//! Quantization and segmentation behavior on small gradient images.

use engraver::grid::Grid;
use engraver::quantize::{quantize_grid, quantize_shade};
use engraver::region::{gen_shade_regions, ShadeRegion};
use engraver::EngraveError;
use engraver::StrokeDirection;

/// A `width x height` brightness grid whose shade climbs along the direction
/// `grad_dir` (an angle in radians), from darkest to brightest.
fn img_grad_factory(width: u32, height: u32, grad_dir: f64) -> Grid<u8> {
    let x_ratio = grad_dir.cos().abs() / (grad_dir.cos().abs() + grad_dir.sin().abs());
    let y_ratio = grad_dir.sin().abs() / (grad_dir.cos().abs() + grad_dir.sin().abs());
    let (width_virt, height_virt) = ((width - 1) as f64 * x_ratio, (height - 1) as f64 * y_ratio);
    let mut data: Vec<u8> = Vec::new();
    for x in 0..width {
        for y in 0..height {
            let (x_virt, y_virt) = (x as f64 * x_ratio, y as f64 * y_ratio);
            let ratio = (x_virt + y_virt) / (width_virt + height_virt);
            let shade = (u8::MAX as f64 * ratio) as u8;
            data.push(shade);
        }
    }
    Grid::from_vec(width, height, data)
}

fn quantized(width: u32, height: u32, grad_dir: f64, n_shades: u8) -> Grid<u8> {
    quantize_grid(&img_grad_factory(width, height, grad_dir), n_shades).unwrap()
}

#[test]
fn shade_region_find_neighbors() {
    let i_shades = quantized(3, 3, 0.0, 3);
    let shade_region = ShadeRegion {
        coords: vec![(0, 0)],
        i_shade: 0,
        direction: StrokeDirection::zero(),
    };
    let mut alloc_pixels: Grid<bool> = Grid::filled(3, 3, false);

    let expected = vec![(0, 0), (0, 2)];
    let result = shade_region.find_neighbors(&(0, 1), &i_shades, &mut alloc_pixels);

    assert_eq!(expected, result);
}

#[test]
fn shade_region_find_all_coords() {
    let i_shades = quantized(5, 5, 0.0, 5);
    let mut alloc_pixels: Grid<bool> = Grid::filled(5, 5, false);
    let mut shade_region = ShadeRegion {
        coords: vec![(0, 0)],
        i_shade: 0,
        direction: StrokeDirection::zero(),
    };
    alloc_pixels.set(0, 0, true);

    shade_region.find_all_coords(&i_shades, &mut alloc_pixels);

    let expected = vec![(0, 0), (0, 1), (0, 2), (0, 3), (0, 4)];
    assert_eq!(expected, shade_region.coords);
}

#[test]
fn processing_shade_region_find_neighbors() {
    let i_shades = quantized(3, 3, 0.0, 3);
    let shade_region = ShadeRegion {
        coords: vec![(0, 0)],
        i_shade: 0,
        direction: StrokeDirection::zero(),
    };
    let mut alloc_pixels: Grid<bool> = Grid::filled(3, 3, false);

    let expected = vec![(0, 0), (0, 2)];
    let result = shade_region.find_neighbors(&(0, 1), &i_shades, &mut alloc_pixels);

    assert_eq!(expected, result);
}

#[test]
fn processing_shade_region_find_all_coords() {
    let i_shades = quantized(5, 5, 0.0, 5);
    let mut alloc_pixels: Grid<bool> = Grid::filled(5, 5, false);
    let mut shade_region = ShadeRegion {
        coords: vec![(0, 0)],
        i_shade: 0,
        direction: StrokeDirection::zero(),
    };
    alloc_pixels.set(0, 0, true);

    shade_region.find_all_coords(&i_shades, &mut alloc_pixels);

    let expected = vec![(0, 0), (0, 1), (0, 2), (0, 3), (0, 4)];
    assert_eq!(expected, shade_region.coords);
}

#[test]
fn gen_shade_regions_5x5_dir0() {
    let i_shades = quantized(5, 5, 0.0, 5);
    let regions = gen_shade_regions(&i_shades);

    let expected = vec![
        vec![(0, 0), (0, 1), (0, 2), (0, 3), (0, 4)],
        vec![(1, 0), (1, 1), (1, 2), (1, 3), (1, 4)],
        vec![(2, 0), (2, 1), (2, 2), (2, 3), (2, 4)],
        vec![(3, 0), (3, 1), (3, 2), (3, 3), (3, 4)],
        vec![(4, 0), (4, 1), (4, 2), (4, 3), (4, 4)],
    ];
    let result: Vec<Vec<(u32, u32)>> = regions.into_iter().map(|region| region.coords).collect();
    assert_eq!(expected, result);
}

#[test]
fn find_color_regions_5x5_dir0() {
    let i_shades = quantized(5, 5, 0.0, 5);
    let regions = gen_shade_regions(&i_shades);

    let expected_coords = vec![
        vec![(0, 0), (0, 1), (0, 2), (0, 3), (0, 4)],
        vec![(1, 0), (1, 1), (1, 2), (1, 3), (1, 4)],
        vec![(2, 0), (2, 1), (2, 2), (2, 3), (2, 4)],
        vec![(3, 0), (3, 1), (3, 2), (3, 3), (3, 4)],
        vec![(4, 0), (4, 1), (4, 2), (4, 3), (4, 4)],
    ];
    let expected_shades = vec![0u8, 1, 2, 3, 4];
    let coords: Vec<Vec<(u32, u32)>> =
        regions.iter().map(|region| region.coords.clone()).collect();
    let shades: Vec<u8> = regions.iter().map(|region| region.i_shade).collect();
    assert_eq!(expected_coords, coords);
    assert_eq!(expected_shades, shades);
}

/// A 5x5 image whose brightness climbs strictly by column splits into five
/// column regions whose shade indices match their column index.
#[test]
fn scenario_column_gradient_five_regions() {
    let img = img_grad_factory(5, 5, 0.0);
    // brightness climbs strictly by column
    for x in 0..4u32 {
        for y in 0..5u32 {
            assert!(img.get(x, y) < img.get(x + 1, y));
        }
    }
    let i_shades = quantize_grid(&img, 5).unwrap();
    let regions = gen_shade_regions(&i_shades);
    assert_eq!(regions.len(), 5);
    for (k, region) in regions.iter().enumerate() {
        assert_eq!(region.i_shade as usize, k);
        let expected: Vec<(u32, u32)> = (0..5).map(|y| (k as u32, y)).collect();
        assert_eq!(region.coords, expected);
    }
}

#[test]
fn quantize_exact_values() {
    // with five shades the bucket width is 63
    assert_eq!(quantize_shade(0, 5), 0);
    assert_eq!(quantize_shade(62, 5), 0);
    assert_eq!(quantize_shade(63, 5), 1);
    assert_eq!(quantize_shade(255, 5), 4);
    // with two shades the bucket width is 255: only 255 reaches index 1
    assert_eq!(quantize_shade(254, 2), 0);
    assert_eq!(quantize_shade(255, 2), 1);
}

#[test]
fn quantize_monotone_samples() {
    for n_shades in [2u8, 3, 5, 7, 255] {
        let mut prev = 0u8;
        for b in 0..=255u16 {
            let q = quantize_shade(b as u8, n_shades);
            assert!(q >= prev);
            assert!(q < n_shades);
            prev = q;
        }
    }
}

#[test]
fn quantize_rejects_single_shade() {
    let img: Grid<u8> = Grid::filled(2, 2, 9);
    assert_eq!(quantize_grid(&img, 1).unwrap_err(), EngraveError::InvalidShadeCount);
    assert_eq!(quantize_grid(&img, 0).unwrap_err(), EngraveError::InvalidShadeCount);
}

/// Two diagonally touching cells of equal shade stay in separate regions:
/// connectivity is 4-directional.
#[test]
fn diagonal_cells_stay_separate() {
    // a 2x2 checkerboard of two shades
    let data = vec![0u8, 255, 255, 0];
    let img = Grid::from_vec(2, 2, data);
    let i_shades = quantize_grid(&img, 2).unwrap();
    let regions = gen_shade_regions(&i_shades);
    assert_eq!(regions.len(), 4);
    for region in &regions {
        assert_eq!(region.coords.len(), 1);
    }
}
