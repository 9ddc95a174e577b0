//! Brightness quantization: maps each 8-bit brightness value to one of
//! `n_shades` discrete shade indices, by equally spaced buckets.

use vstd::prelude::*;
use vstd::arithmetic::div_mod::lemma_div_is_ordered;
use vstd::arithmetic::div_mod::lemma_div_is_ordered_by_denominator;

use crate::grid::Grid;
use crate::EngraveError;

verus! {

/// Width of one shade bucket for `n_shades` levels.
pub open spec fn spec_shade_step(n_shades: int) -> int
    recommends
        n_shades >= 2,
{
    255int / (n_shades - 1)
}

/// The shade index of brightness `b` under `n_shades` levels: `b` divided by
/// the bucket width, clamped to the top index.
pub open spec fn spec_quantize(b: int, n_shades: int) -> int
    recommends
        n_shades >= 2,
{
    if b / spec_shade_step(n_shades) > n_shades - 1 {
        n_shades - 1
    } else {
        b / spec_shade_step(n_shades)
    }
}

/// The bucket width is at least one for any legal shade count.
pub proof fn lemma_step_pos(n_shades: int)
    requires
        2 <= n_shades <= 256,
    ensures
        1 <= spec_shade_step(n_shades) <= 255,
{
    lemma_div_is_ordered_by_denominator(255, n_shades - 1, 255);
    lemma_div_is_ordered_by_denominator(255, 1, n_shades - 1);
}

/// Shade indices always lie in `[0, n_shades)`.
pub proof fn lemma_quantize_range(b: int, n_shades: int)
    requires
        0 <= b <= 255,
        2 <= n_shades <= 256,
    ensures
        0 <= spec_quantize(b, n_shades) < n_shades,
{
    lemma_step_pos(n_shades);
    lemma_div_is_ordered(0, b, spec_shade_step(n_shades));
}

/// Law: quantization is monotone in brightness. A brighter pixel never gets
/// a smaller shade index.
pub proof fn lemma_quantize_monotonic(b1: int, b2: int, n_shades: int)
    requires
        0 <= b1 <= b2 <= 255,
        2 <= n_shades <= 256,
    ensures
        spec_quantize(b1, n_shades) <= spec_quantize(b2, n_shades),
{
    lemma_step_pos(n_shades);
    lemma_div_is_ordered(b1, b2, spec_shade_step(n_shades));
}

/// Quantizes one brightness value.
pub fn quantize_shade(b: u8, n_shades: u8) -> (r: u8)
    requires
        n_shades >= 2,
    ensures
        r as int == spec_quantize(b as int, n_shades as int),
        r < n_shades,
{
    proof {
        lemma_step_pos(n_shades as int);
        lemma_quantize_range(b as int, n_shades as int);
    }
    let step: u8 = 255 / (n_shades - 1);
    let i: u8 = b / step;
    if i > n_shades - 1 {
        n_shades - 1
    } else {
        i
    }
}

/// Quantizes a whole brightness grid, or reports that fewer than two shades
/// were requested (the bucket width would divide by zero).
pub fn quantize_grid(img: &Grid<u8>, n_shades: u8) -> (r: Result<Grid<u8>, EngraveError>)
    requires
        img.wf(),
    ensures
        n_shades < 2 <==> r is Err,
        r is Err ==> r->Err_0 == EngraveError::InvalidShadeCount,
        r is Ok ==> {
            &&& r->Ok_0.wf()
            &&& r->Ok_0.width == img.width
            &&& r->Ok_0.height == img.height
            &&& forall|x: int, y: int|
                img.in_range(x, y) ==> r->Ok_0.at(x, y) as int == spec_quantize(
                    img.at(x, y) as int,
                    n_shades as int,
                )
        },
{
    if n_shades < 2 {
        return Err(EngraveError::InvalidShadeCount);
    }
    let _n: usize = img.data.len();
    let mut out: Grid<u8> = Grid::filled(img.width, img.height, 0u8);
    let mut x: u32 = 0;
    while x < img.width
        invariant
            img.wf(),
            n_shades >= 2,
            x <= img.width,
            out.wf(),
            out.width == img.width,
            out.height == img.height,
            forall|x2: int, y2: int|
                img.in_range(x2, y2) && x2 < x as int ==> out.at(x2, y2) as int == spec_quantize(
                    img.at(x2, y2) as int,
                    n_shades as int,
                ),
        decreases img.width - x,
    {
        let mut y: u32 = 0;
        while y < img.height
            invariant
                img.wf(),
                n_shades >= 2,
                x < img.width,
                y <= img.height,
                out.wf(),
                out.width == img.width,
                out.height == img.height,
                forall|x2: int, y2: int|
                    img.in_range(x2, y2) && x2 < x as int ==> out.at(x2, y2)
                        as int == spec_quantize(img.at(x2, y2) as int, n_shades as int),
                forall|y2: int|
                    0 <= y2 < y as int ==> out.at(x as int, y2) as int == spec_quantize(
                        img.at(x as int, y2) as int,
                        n_shades as int,
                    ),
            decreases img.height - y,
        {
            let b = img.get(x, y);
            out.set(x, y, quantize_shade(b, n_shades));
            y = y + 1;
        }
        x = x + 1;
    }
    Ok(out)
}

} // verus!
