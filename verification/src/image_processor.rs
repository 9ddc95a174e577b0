//! The whole engraving pipeline: quantize the image's brightness into shade
//! indices, segment the grid into shade regions, find each pixel's
//! minimum-gradient direction, aggregate one stripe direction per region,
//! and paint every region with periodic ink/paper stripes whose width
//! encodes its shade and whose orientation follows its direction.

use vstd::prelude::*;

use crate::direction_field::{gen_min_grad_map, is_first_min_dir, pixel_degenerate, pixel_grad};
use crate::grid::{Grid, PixelGrid};
use crate::quantize::{lemma_quantize_range, quantize_grid, spec_quantize};
use crate::region::{
    coord_at, coord_in_range, gen_shade_regions, in_some_region, spec_region_direction,
    ShadeRegion,
};
use crate::trig::SCALE;
use crate::EngraveError;
use crate::StrokeDirection;

verus! {

/// The brightness painted on stripe pixels: full ink.
pub const INK: u8 = 0;

/// The brightness left between stripes: blank paper, the maximum intensity,
/// which is reserved for the background.
pub const PAPER: u8 = 255;

/// The width of a region's ink band inside each stripe period: the shade
/// index's share of the stroke width, rounded down. A higher shade index
/// gets a wider ink band.
pub open spec fn spec_black_width(i_shade: int, n_shades: int, stroke_width: int) -> int {
    i_shade * stroke_width / n_shades
}

/// Law: the ink band always fits strictly inside the stripe period; shade
/// index zero gets no ink band at all; and the top shade index fills the
/// period up to at most one `n_shades`-th of it plus one.
pub proof fn lemma_black_width_bounds(i_shade: int, n_shades: int, stroke_width: int)
    requires
        0 <= i_shade < n_shades,
        1 <= stroke_width,
    ensures
        0 <= spec_black_width(i_shade, n_shades, stroke_width) < stroke_width,
        i_shade == 0 ==> spec_black_width(i_shade, n_shades, stroke_width) == 0,
        i_shade == n_shades - 1 ==> spec_black_width(i_shade, n_shades, stroke_width)
            >= stroke_width - stroke_width / n_shades - 1,
{
    let p = i_shade * stroke_width;
    assert(0 <= i_shade * stroke_width <= (n_shades - 1) * stroke_width) by (nonlinear_arith)
        requires
            0 <= i_shade <= n_shades - 1,
            1 <= stroke_width,
    ;
    vstd::arithmetic::div_mod::lemma_div_pos_is_pos(p, n_shades);
    // the quotient stays below the stroke width
    vstd::arithmetic::div_mod::lemma_fundamental_div_mod(p, n_shades);
    vstd::arithmetic::div_mod::lemma_mod_bound(p, n_shades);
    if p / n_shades >= stroke_width {
        assert(n_shades * (p / n_shades) >= n_shades * stroke_width) by (nonlinear_arith)
            requires
                p / n_shades >= stroke_width,
                1 <= n_shades,
        ;
        assert(p < n_shades * stroke_width) by (nonlinear_arith)
            requires
                p <= (n_shades - 1) * stroke_width,
                1 <= stroke_width,
                1 <= n_shades,
        ;
    }
    if i_shade == 0 {
        assert(0int * stroke_width == 0) by (nonlinear_arith);
        vstd::arithmetic::div_mod::lemma_div_of0(n_shades);
    }
    if i_shade == n_shades - 1 {
        let q = stroke_width / n_shades;
        let r = stroke_width % n_shades;
        vstd::arithmetic::div_mod::lemma_fundamental_div_mod(stroke_width, n_shades);
        vstd::arithmetic::div_mod::lemma_mod_bound(stroke_width, n_shades);
        assert(p == n_shades * (stroke_width - q) - r) by (nonlinear_arith)
            requires
                p == (n_shades - 1) * stroke_width,
                stroke_width == n_shades * q + r,
        ;
        if r == 0 {
            assert(p == n_shades * (stroke_width - q));
            vstd::arithmetic::div_mod::lemma_div_multiples_vanish(stroke_width - q, n_shades);
            assert(n_shades * (stroke_width - q) == (stroke_width - q) * n_shades)
                by (nonlinear_arith);
            assert(((stroke_width - q) * n_shades) / n_shades == stroke_width - q) by {
                vstd::arithmetic::div_mod::lemma_div_multiples_vanish(
                    stroke_width - q,
                    n_shades,
                );
                assert(n_shades * (stroke_width - q) == (stroke_width - q) * n_shades)
                    by (nonlinear_arith);
            }
        } else {
            assert(p == n_shades * (stroke_width - q - 1) + (n_shades - r)) by (nonlinear_arith)
                requires
                    p == n_shades * (stroke_width - q) - r,
            ;
            vstd::arithmetic::div_mod::lemma_fundamental_div_mod_converse(
                p,
                n_shades,
                stroke_width - q - 1,
                n_shades - r,
            );
        }
    }
}

/// Whether the stripe pattern paints ink at `(x, y)` for a region of the
/// given direction: project the coordinate onto the direction, reduce it by
/// the Euclidean remainder into one stripe period, and paint ink on exactly
/// the first `black_width` of the period's `stroke_width` projected-distance
/// values.
pub open spec fn spec_stripe_ink(
    x: int,
    y: int,
    dir: StrokeDirection,
    stroke_width: int,
    black_width: int,
) -> bool {
    let p = x * dir.cos_fp + y * dir.sin_fp;
    (p % (stroke_width * SCALE)) / (SCALE as int) < black_width
}

/// The Euclidean remainder of a negative value: the divisor minus the
/// remainder of the value's magnitude, or zero when the magnitude divides
/// evenly.
proof fn lemma_mod_of_negative(p: int, q: int)
    requires
        p < 0,
        1 <= q,
    ensures
        p % q == if (-p) % q == 0 {
            0int
        } else {
            q - (-p) % q
        },
{
    let t = (-p) / q;
    let mag = (-p) % q;
    vstd::arithmetic::div_mod::lemma_fundamental_div_mod(-p, q);
    vstd::arithmetic::div_mod::lemma_mod_bound(-p, q);
    if mag == 0 {
        assert(p == q * (-t) + 0) by (nonlinear_arith)
            requires
                -p == q * t + 0,
        ;
        vstd::arithmetic::div_mod::lemma_fundamental_div_mod_converse(p, q, -t, 0);
    } else {
        assert(p == q * (-t - 1) + (q - mag)) by (nonlinear_arith)
            requires
                -p == q * t + mag,
        ;
        vstd::arithmetic::div_mod::lemma_fundamental_div_mod_converse(p, q, -t - 1, q - mag);
    }
}

/// Law: a region of the lowest shade index is painted all paper: with an
/// ink band of width zero, no projected distance is inked.
pub proof fn lemma_zero_band_all_paper(x: int, y: int, dir: StrokeDirection, stroke_width: int)
    requires
        1 <= stroke_width,
    ensures
        !spec_stripe_ink(x, y, dir, stroke_width, 0),
{
    let p = x * dir.cos_fp + y * dir.sin_fp;
    let period = stroke_width * SCALE;
    assert(stroke_width * SCALE >= 1) by (nonlinear_arith)
        requires
            1 <= stroke_width,
            1 <= SCALE as int,
    ;
    vstd::arithmetic::div_mod::lemma_mod_bound(p, period);
    vstd::arithmetic::div_mod::lemma_div_pos_is_pos(p % period, SCALE as int);
}

/// The brightness the stripe pattern paints at `(x, y)`.
pub open spec fn spec_stripe_shade(
    x: int,
    y: int,
    dir: StrokeDirection,
    stroke_width: int,
    black_width: int,
) -> u8 {
    if spec_stripe_ink(x, y, dir, stroke_width, black_width) {
        INK
    } else {
        PAPER
    }
}

/// Paints every region's pixels into the canvas: each pixel gets ink or
/// paper by the region's stripe pattern, and pixels outside every region
/// keep their value.
pub fn make_output_img(
    regions: &Vec<ShadeRegion>,
    n_shades: u8,
    stroke_width: u32,
    canvas: &mut Grid<u8>,
)
    requires
        old(canvas).wf(),
        1 <= n_shades,
        1 <= stroke_width,
        forall|k: int, i: int|
            0 <= k < regions@.len() && 0 <= i < (#[trigger] regions@[k]).coords@.len()
                ==> coord_in_range(*old(canvas), #[trigger] regions@[k].coords@[i]),
        forall|k: int|
            0 <= k < regions@.len() ==> {
                &&& (#[trigger] regions@[k]).i_shade < n_shades
                &&& -SCALE <= regions@[k].direction.cos_fp <= SCALE
                &&& -SCALE <= regions@[k].direction.sin_fp <= SCALE
            },
        forall|k1: int, k2: int, c: (u32, u32)|
            0 <= k1 < regions@.len() && 0 <= k2 < regions@.len() && k1 != k2
                && #[trigger] regions@[k1].has(c) ==> !(#[trigger] regions@[k2].has(c)),
    ensures
        final(canvas).wf(),
        final(canvas).width == old(canvas).width,
        final(canvas).height == old(canvas).height,
        forall|k: int, i: int|
            0 <= k < regions@.len() && 0 <= i < (#[trigger] regions@[k]).coords@.len()
                ==> final(canvas).at(
                (#[trigger] regions@[k].coords@[i]).0 as int,
                regions@[k].coords@[i].1 as int,
            ) == spec_stripe_shade(
                regions@[k].coords@[i].0 as int,
                regions@[k].coords@[i].1 as int,
                regions@[k].direction,
                stroke_width as int,
                spec_black_width(regions@[k].i_shade as int, n_shades as int, stroke_width as int),
            ),
        forall|c: (u32, u32)|
            coord_in_range(*old(canvas), c) && !in_some_region(regions@, c) ==> final(canvas).at(
                c.0 as int,
                c.1 as int,
            ) == old(canvas).at(c.0 as int, c.1 as int),
{
    let mut k: usize = 0;
    while k < regions.len()
        invariant
            canvas.wf(),
            canvas.width == old(canvas).width,
            canvas.height == old(canvas).height,
            1 <= n_shades,
            1 <= stroke_width,
            k <= regions@.len(),
            forall|k2: int, i: int|
                0 <= k2 < regions@.len() && 0 <= i < (#[trigger] regions@[k2]).coords@.len()
                    ==> coord_in_range(*old(canvas), #[trigger] regions@[k2].coords@[i]),
            forall|k2: int|
                0 <= k2 < regions@.len() ==> {
                    &&& (#[trigger] regions@[k2]).i_shade < n_shades
                    &&& -SCALE <= regions@[k2].direction.cos_fp <= SCALE
                    &&& -SCALE <= regions@[k2].direction.sin_fp <= SCALE
                },
            forall|k1: int, k2: int, c: (u32, u32)|
                0 <= k1 < regions@.len() && 0 <= k2 < regions@.len() && k1 != k2
                    && #[trigger] regions@[k1].has(c) ==> !(#[trigger] regions@[k2].has(c)),
            forall|k2: int, i: int|
                0 <= k2 < k as int && 0 <= i < (#[trigger] regions@[k2]).coords@.len()
                    ==> canvas.at(
                    (#[trigger] regions@[k2].coords@[i]).0 as int,
                    regions@[k2].coords@[i].1 as int,
                ) == spec_stripe_shade(
                    regions@[k2].coords@[i].0 as int,
                    regions@[k2].coords@[i].1 as int,
                    regions@[k2].direction,
                    stroke_width as int,
                    spec_black_width(
                        regions@[k2].i_shade as int,
                        n_shades as int,
                        stroke_width as int,
                    ),
                ),
            forall|c: (u32, u32)|
                coord_in_range(*old(canvas), c) && !in_some_region(regions@, c) ==> canvas.at(
                    c.0 as int,
                    c.1 as int,
                ) == old(canvas).at(c.0 as int, c.1 as int),
        decreases regions@.len() - k,
    {
        let region = &regions[k];
        proof {
            crate::trig::lemma_mul_bound(
                region.i_shade as int,
                stroke_width as int,
                255,
                0xFFFF_FFFF,
            );
            lemma_black_width_bounds(
                region.i_shade as int,
                n_shades as int,
                stroke_width as int,
            );
        }
        let bw64: u64 = (region.i_shade as u64) * (stroke_width as u64) / (n_shades as u64);
        let bw: u32 = bw64 as u32;
        let mut i: usize = 0;
        while i < region.coords.len()
            invariant
                canvas.wf(),
                canvas.width == old(canvas).width,
                canvas.height == old(canvas).height,
                1 <= n_shades,
                1 <= stroke_width,
                k < regions@.len(),
                region == regions@[k as int],
                bw as int == spec_black_width(
                    region.i_shade as int,
                    n_shades as int,
                    stroke_width as int,
                ),
                i <= region.coords@.len(),
                forall|k2: int, i2: int|
                    0 <= k2 < regions@.len() && 0 <= i2 < (
                    #[trigger] regions@[k2]).coords@.len() ==> coord_in_range(
                        *old(canvas),
                        #[trigger] regions@[k2].coords@[i2],
                    ),
                forall|k2: int|
                    0 <= k2 < regions@.len() ==> {
                        &&& (#[trigger] regions@[k2]).i_shade < n_shades
                        &&& -SCALE <= regions@[k2].direction.cos_fp <= SCALE
                        &&& -SCALE <= regions@[k2].direction.sin_fp <= SCALE
                    },
                forall|k1: int, k2: int, c: (u32, u32)|
                    0 <= k1 < regions@.len() && 0 <= k2 < regions@.len() && k1 != k2
                        && #[trigger] regions@[k1].has(c) ==> !(#[trigger] regions@[k2].has(c)),
                forall|k2: int, i2: int|
                    0 <= k2 < k as int && 0 <= i2 < (#[trigger] regions@[k2]).coords@.len()
                        ==> canvas.at(
                        (#[trigger] regions@[k2].coords@[i2]).0 as int,
                        regions@[k2].coords@[i2].1 as int,
                    ) == spec_stripe_shade(
                        regions@[k2].coords@[i2].0 as int,
                        regions@[k2].coords@[i2].1 as int,
                        regions@[k2].direction,
                        stroke_width as int,
                        spec_black_width(
                            regions@[k2].i_shade as int,
                            n_shades as int,
                            stroke_width as int,
                        ),
                    ),
                forall|i2: int|
                    0 <= i2 < i as int ==> canvas.at(
                        (#[trigger] region.coords@[i2]).0 as int,
                        region.coords@[i2].1 as int,
                    ) == spec_stripe_shade(
                        region.coords@[i2].0 as int,
                        region.coords@[i2].1 as int,
                        region.direction,
                        stroke_width as int,
                        spec_black_width(
                            region.i_shade as int,
                            n_shades as int,
                            stroke_width as int,
                        ),
                    ),
                forall|c: (u32, u32)|
                    coord_in_range(*old(canvas), c) && !in_some_region(regions@, c) ==> canvas.at(
                        c.0 as int,
                        c.1 as int,
                    ) == old(canvas).at(c.0 as int, c.1 as int),
            decreases region.coords@.len() - i,
        {
            let c = region.coords[i];
            proof {
                crate::trig::lemma_mul_bound(c.0 as int, SCALE as int, 0xFFFF_FFFF, SCALE as int);
                crate::trig::lemma_mul_bound(c.1 as int, SCALE as int, 0xFFFF_FFFF, SCALE as int);
                assert(crate::trig::abs_i(c.0 as int * region.direction.cos_fp) <= 0xFFFF_FFFF
                    * SCALE) by (nonlinear_arith)
                    requires
                        c.0 as int <= 0xFFFF_FFFF,
                        crate::trig::abs_i(region.direction.cos_fp as int) <= SCALE as int,
                ;
                assert(crate::trig::abs_i(c.1 as int * region.direction.sin_fp) <= 0xFFFF_FFFF
                    * SCALE) by (nonlinear_arith)
                    requires
                        c.1 as int <= 0xFFFF_FFFF,
                        crate::trig::abs_i(region.direction.sin_fp as int) <= SCALE as int,
                ;
                crate::trig::lemma_mul_bound(stroke_width as int, SCALE as int, 0xFFFF_FFFF, SCALE as int);
            }
            let p: i128 = (c.0 as i128) * (region.direction.cos_fp as i128) + (c.1 as i128) * (
            region.direction.sin_fp as i128);
            let period: u128 = (stroke_width as u128) * (SCALE as u128);
            proof {
                assert(stroke_width as int * SCALE >= 1) by (nonlinear_arith)
                    requires
                        1 <= stroke_width,
                        1 <= SCALE as int,
                ;
            }
            let m: u128;
            if p < 0 {
                let mag: u128 = ((-p) as u128) % period;
                proof {
                    lemma_mod_of_negative(p as int, period as int);
                    vstd::arithmetic::div_mod::lemma_mod_bound((-p) as int, period as int);
                }
                m = if mag == 0 {
                    0
                } else {
                    period - mag
                };
            } else {
                m = (p as u128) % period;
            }
            proof {
                vstd::arithmetic::div_mod::lemma_mod_bound(p as int, period as int);
            }
            let d: u128 = m / (SCALE as u128);
            let ink: bool = d < bw as u128;
            let value: u8 = if ink {
                INK
            } else {
                PAPER
            };
            let ghost pre = *canvas;
            canvas.set(c.0, c.1, value);
            proof {
                let spec_val = spec_stripe_shade(
                    c.0 as int,
                    c.1 as int,
                    region.direction,
                    stroke_width as int,
                    spec_black_width(
                        region.i_shade as int,
                        n_shades as int,
                        stroke_width as int,
                    ),
                );
                assert(value == spec_val);
                assert(region.coords@.contains(c)) by {
                    assert(region.coords@[i as int] == c);
                }
                assert(regions@[k as int].has(c));
                // earlier regions' pixels are untouched: they never share a pixel
                assert forall|k2: int, i2: int|
                    0 <= k2 < k as int && 0 <= i2 < (
                    #[trigger] regions@[k2]).coords@.len() implies canvas.at(
                    (#[trigger] regions@[k2].coords@[i2]).0 as int,
                    regions@[k2].coords@[i2].1 as int,
                ) == pre.at(
                    regions@[k2].coords@[i2].0 as int,
                    regions@[k2].coords@[i2].1 as int,
                ) by {
                    assert(regions@[k2].coords@.contains(regions@[k2].coords@[i2]));
                    assert(regions@[k2].has(regions@[k2].coords@[i2]));
                    if regions@[k2].coords@[i2] == c {
                        assert(!regions@[k2].has(c));
                        assert(false);
                    }
                }
                // pixels outside every region are untouched
                assert forall|c2: (u32, u32)|
                    coord_in_range(*old(canvas), c2) && !in_some_region(
                        regions@,
                        c2,
                    ) implies canvas.at(c2.0 as int, c2.1 as int) == old(canvas).at(
                    c2.0 as int,
                    c2.1 as int,
                ) by {
                    if c2 == c {
                        assert(in_some_region(regions@, c));
                        assert(false);
                    }
                }
            }
            i = i + 1;
        }
        k = k + 1;
    }
}

/// What a successful run produced, witnessed by the intermediate stages: a
/// quantized shade grid, a minimum-gradient direction field, and a set of
/// shade regions that partition the grid, each painted with its stripe
/// pattern.
pub open spec fn run_witness(
    img: PixelGrid,
    n_shades: int,
    n_grad_dir: int,
    stroke_width: int,
    quant: Grid<u8>,
    dirs: Grid<u32>,
    regions: Seq<ShadeRegion>,
    out: PixelGrid,
) -> bool {
    // the quantized grid holds each pixel's shade index
    &&& quant.wf()
    &&& quant.width == img.spec_width()
    &&& quant.height == img.spec_height()
    &&& forall|x: int, y: int|
        quant.in_range(x, y) ==> #[trigger] quant.at(x, y) as int == spec_quantize(
            img.shade.at(x, y) as int,
            n_shades,
        )
    // the direction field holds each pixel's first minimum-gradient direction
    &&& dirs.wf()
    &&& dirs.width == img.spec_width()
    &&& dirs.height == img.spec_height()
    &&& forall|x: int, y: int|
        dirs.in_range(x, y) ==> is_first_min_dir(
            img.shade,
            x,
            y,
            n_grad_dir,
            #[trigger] dirs.at(x, y) as int,
        )
    // the regions are a maximal monochromatic 4-connected partition
    &&& forall|k: int|
        0 <= k < regions.len() ==> (#[trigger] regions[k]).wf(quant) && regions[k].closed(quant)
    &&& forall|k1: int, k2: int, c: (u32, u32)|
        0 <= k1 < regions.len() && 0 <= k2 < regions.len() && k1 != k2
            && #[trigger] regions[k1].has(c) ==> !(#[trigger] regions[k2].has(c))
    &&& forall|c: (u32, u32)| coord_in_range(quant, c) ==> in_some_region(regions, c)
    // each region carries the aggregated direction of its members
    &&& forall|k: int|
        0 <= k < regions.len() ==> (#[trigger] regions[k]).direction == spec_region_direction(
            regions[k].coords@,
            dirs,
            n_grad_dir,
        )
    // and the output is each region's stripe pattern over its pixels
    &&& forall|k: int, i: int|
        0 <= k < regions.len() && 0 <= i < (#[trigger] regions[k]).coords@.len()
            ==> out.shade.at(
            (#[trigger] regions[k].coords@[i]).0 as int,
            regions[k].coords@[i].1 as int,
        ) == spec_stripe_shade(
            regions[k].coords@[i].0 as int,
            regions[k].coords@[i].1 as int,
            regions[k].direction,
            stroke_width,
            spec_black_width(regions[k].i_shade as int, n_shades, stroke_width),
        )
}

/// Runs the whole engraving pipeline on a grayscale image. On success the
/// output image has the input's frame, carries its alpha channel through
/// unmodified, and holds only the two brightness values `INK` and `PAPER`,
/// laid out as the stripe patterns of a maximal monochromatic partition of
/// the quantized input (the `run_witness` ensures names each stage's exact
/// contribution). Each parameter that spec rules out is reported by its own
/// error; `DegenerateWindow` reports a pixel whose window holds no usable
/// gradient data in any direction.
#[verifier::rlimit(100)]
pub fn run(img: PixelGrid, n_shades: u8, n_grad_dir: u32, stroke_width: u32) -> (r: Result<
    PixelGrid,
    EngraveError,
>)
    requires
        img.wf(),
    ensures
        n_shades < 2 ==> r == Err::<PixelGrid, EngraveError>(EngraveError::InvalidShadeCount),
        n_shades >= 2 && n_grad_dir == 0 ==> r == Err::<PixelGrid, EngraveError>(
            EngraveError::InvalidDirectionCount,
        ),
        n_shades >= 2 && n_grad_dir >= 1 && stroke_width == 0 ==> r == Err::<
            PixelGrid,
            EngraveError,
        >(EngraveError::InvalidStrokeWidth),
        n_shades >= 2 && n_grad_dir >= 1 && stroke_width >= 1 && r is Err ==> r->Err_0
            == EngraveError::DegenerateWindow && exists|x: int, y: int|
            img.shade.in_range(x, y) && pixel_degenerate(img.shade, x, y, n_grad_dir as int),
        r is Ok ==> {
            let out = r->Ok_0;
            &&& n_shades >= 2
            &&& n_grad_dir >= 1
            &&& stroke_width >= 1
            &&& out.wf()
            &&& out.spec_width() == img.spec_width()
            &&& out.spec_height() == img.spec_height()
            &&& out.alpha == img.alpha
            &&& forall|x: int, y: int|
                img.shade.in_range(x, y) ==> !pixel_degenerate(
                    img.shade,
                    x,
                    y,
                    n_grad_dir as int,
                )
            &&& forall|x: int, y: int|
                out.shade.in_range(x, y) ==> #[trigger] out.shade.at(x, y) == INK || out.shade.at(
                    x,
                    y,
                ) == PAPER
            &&& exists|quant: Grid<u8>, dirs: Grid<u32>, regions: Seq<ShadeRegion>| run_witness(
                img,
                n_shades as int,
                n_grad_dir as int,
                stroke_width as int,
                quant,
                dirs,
                regions,
                out,
            )
        },
{
    if n_shades < 2 {
        return Err(EngraveError::InvalidShadeCount);
    }
    if n_grad_dir == 0 {
        return Err(EngraveError::InvalidDirectionCount);
    }
    if stroke_width == 0 {
        return Err(EngraveError::InvalidStrokeWidth);
    }
    let quant = match quantize_grid(&img.shade, n_shades) {
        Ok(q) => q,
        Err(e) => {
            return Err(e);
        },
    };
    let dirs = match gen_min_grad_map(&img.shade, n_grad_dir) {
        Ok(d) => d,
        Err(e) => {
            return Err(e);
        },
    };
    let mut regions = gen_shade_regions(&quant);
    let ghost regs0 = regions@;
    let n_regions = regions.len();
    let mut k: usize = 0;
    while k < n_regions
        invariant
            img.wf(),
            dirs.wf(),
            quant.wf(),
            dirs.width == quant.width,
            dirs.height == quant.height,
            quant.width == img.shade.width,
            quant.height == img.shade.height,
            1 <= n_grad_dir,
            forall|x: int, y: int|
                img.shade.in_range(x, y) ==> is_first_min_dir(
                    img.shade,
                    x,
                    y,
                    n_grad_dir as int,
                    #[trigger] dirs.at(x, y) as int,
                ),
            n_regions == regions@.len(),
            regs0.len() == regions@.len(),
            k <= n_regions,
            // coordinates and shades never change; only directions are set
            forall|k2: int|
                0 <= k2 < regions@.len() ==> (#[trigger] regions@[k2]).coords
                    == regs0[k2].coords && regions@[k2].i_shade == regs0[k2].i_shade,
            forall|k2: int|
                0 <= k2 < regions@.len() ==> (#[trigger] regions@[k2]).wf(quant)
                    && regions@[k2].closed(quant),
            forall|k1: int, k2: int, c: (u32, u32)|
                0 <= k1 < regions@.len() && 0 <= k2 < regions@.len() && k1 != k2
                    && #[trigger] regions@[k1].has(c) ==> !(#[trigger] regions@[k2].has(c)),
            forall|c: (u32, u32)| coord_in_range(quant, c) ==> in_some_region(regions@, c),
            forall|k2: int|
                0 <= k2 < k as int ==> {
                    &&& (#[trigger] regions@[k2]).direction == spec_region_direction(
                        regions@[k2].coords@,
                        dirs,
                        n_grad_dir as int,
                    )
                    &&& -SCALE <= regions@[k2].direction.cos_fp <= SCALE
                    &&& 0 <= regions@[k2].direction.sin_fp <= SCALE
                },
        decreases n_regions - k,
    {
        let ghost pre = regions@;
        proof {
            assert(regions@[k as int].wf(quant));
            assert forall|i: int|
                0 <= i < regions@[k as int].coords@.len() implies coord_in_range(
                dirs,
                #[trigger] regions@[k as int].coords@[i],
            ) by {
                assert(coord_in_range(quant, regions@[k as int].coords@[i]));
            }
            assert forall|i: int|
                0 <= i < regions@[k as int].coords@.len() implies (#[trigger] dirs.at(
                regions@[k as int].coords@[i].0 as int,
                regions@[k as int].coords@[i].1 as int,
            )) < n_grad_dir by {
                let c = regions@[k as int].coords@[i];
                assert(coord_in_range(quant, c));
                assert(img.shade.in_range(c.0 as int, c.1 as int));
                assert(is_first_min_dir(
                    img.shade,
                    c.0 as int,
                    c.1 as int,
                    n_grad_dir as int,
                    dirs.at(c.0 as int, c.1 as int) as int,
                ));
            }
        }
        let region = &mut regions[k];
        region.calc_avg_min_grad_dirs(&dirs, n_grad_dir);
        proof {
            // all shared facts survive: only one region's direction changed
            assert forall|k2: int|
                0 <= k2 < regions@.len() implies (#[trigger] regions@[k2]).coords
                    == regs0[k2].coords && regions@[k2].i_shade == regs0[k2].i_shade by {
                if k2 != k as int {
                    assert(regions@[k2] == pre[k2]);
                }
            }
            assert forall|k2: int|
                0 <= k2 < regions@.len() implies (#[trigger] regions@[k2]).wf(quant)
                    && regions@[k2].closed(quant) by {
                if k2 != k as int {
                    assert(regions@[k2] == pre[k2]);
                } else {
                    lemma_region_facts_direction_independent(pre[k2], regions@[k2], quant);
                }
            }
            assert forall|k1: int, k2: int, c: (u32, u32)|
                0 <= k1 < regions@.len() && 0 <= k2 < regions@.len() && k1 != k2
                    && #[trigger] regions@[k1].has(c) implies !(#[trigger] regions@[k2].has(
                c,
            )) by {
                assert(regions@[k1].coords == pre[k1].coords);
                assert(regions@[k2].coords == pre[k2].coords);
                assert(pre[k1].has(c) == regions@[k1].has(c));
                assert(pre[k2].has(c) == regions@[k2].has(c));
            }
            assert forall|c: (u32, u32)| coord_in_range(quant, c) implies in_some_region(
                regions@,
                c,
            ) by {
                assert(in_some_region(pre, c));
                let k2 = choose|k2: int| 0 <= k2 < pre.len() && (#[trigger] pre[k2]).has(c);
                assert(regions@[k2].coords == pre[k2].coords);
                assert(regions@[k2].has(c));
            }
        }
        k = k + 1;
    }
    // paint the stripes over the input's brightness channel
    let PixelGrid { shade: mut canvas, alpha } = img;
    proof {
        assert forall|k2: int, i: int|
            0 <= k2 < regions@.len() && 0 <= i < (
            #[trigger] regions@[k2]).coords@.len() implies coord_in_range(
            canvas,
            #[trigger] regions@[k2].coords@[i],
        ) by {
            assert(regions@[k2].wf(quant));
            assert(coord_in_range(quant, regions@[k2].coords@[i]));
        }
        assert forall|k2: int| 0 <= k2 < regions@.len() implies (
        #[trigger] regions@[k2]).i_shade < n_shades by {
            let c = regions@[k2].coords@[0];
            assert(coord_in_range(quant, c));
            assert(coord_at(quant, c) == regions@[k2].i_shade);
            lemma_quantize_range(img.shade.at(c.0 as int, c.1 as int) as int, n_shades as int);
        }
    }
    make_output_img(&regions, n_shades, stroke_width, &mut canvas);
    let out = PixelGrid::new(canvas, alpha);
    proof {
        assert forall|x: int, y: int| img.shade.in_range(x, y) implies !pixel_degenerate(
            img.shade,
            x,
            y,
            n_grad_dir as int,
        ) by {
            assert(dirs.in_range(x, y));
            assert(!(pixel_grad(img.shade, x, y, n_grad_dir as int, dirs.at(x, y) as int)
                is Infinite));
        }
        assert forall|x: int, y: int| out.shade.in_range(x, y) implies #[trigger] out.shade.at(
            x,
            y,
        ) == INK || out.shade.at(x, y) == PAPER by {
            let c = (x as u32, y as u32);
            assert(coord_in_range(quant, c));
            assert(in_some_region(regions@, c));
            let k2 = choose|k2: int| 0 <= k2 < regions@.len() && (#[trigger] regions@[k2]).has(c);
            let i = choose|i: int|
                0 <= i < regions@[k2].coords@.len() && regions@[k2].coords@[i] == c;
            assert(out.shade.at(c.0 as int, c.1 as int) == spec_stripe_shade(
                c.0 as int,
                c.1 as int,
                regions@[k2].direction,
                stroke_width as int,
                spec_black_width(
                    regions@[k2].i_shade as int,
                    n_shades as int,
                    stroke_width as int,
                ),
            ));
        }
        assert(out.shade == canvas);
        assert forall|x: int, y: int| dirs.in_range(x, y) implies is_first_min_dir(
            img.shade,
            x,
            y,
            n_grad_dir as int,
            #[trigger] dirs.at(x, y) as int,
        ) by {
            assert(img.shade.in_range(x, y));
        }
        assert forall|k2: int, i: int|
            0 <= k2 < regions@.len() && 0 <= i < (
            #[trigger] regions@[k2]).coords@.len() implies out.shade.at(
            (#[trigger] regions@[k2].coords@[i]).0 as int,
            regions@[k2].coords@[i].1 as int,
        ) == spec_stripe_shade(
            regions@[k2].coords@[i].0 as int,
            regions@[k2].coords@[i].1 as int,
            regions@[k2].direction,
            stroke_width as int,
            spec_black_width(regions@[k2].i_shade as int, n_shades as int, stroke_width as int),
        ) by {
            assert(canvas.at(
                regions@[k2].coords@[i].0 as int,
                regions@[k2].coords@[i].1 as int,
            ) == spec_stripe_shade(
                regions@[k2].coords@[i].0 as int,
                regions@[k2].coords@[i].1 as int,
                regions@[k2].direction,
                stroke_width as int,
                spec_black_width(
                    regions@[k2].i_shade as int,
                    n_shades as int,
                    stroke_width as int,
                ),
            ));
        }
        assert forall|x: int, y: int| quant.in_range(x, y) implies #[trigger] quant.at(
            x,
            y,
        ) as int == spec_quantize(img.shade.at(x, y) as int, n_shades as int) by {
            assert(img.shade.in_range(x, y));
        }
        assert(run_witness(
            img,
            n_shades as int,
            n_grad_dir as int,
            stroke_width as int,
            quant,
            dirs,
            regions@,
            out,
        ));
    }
    Ok(out)
}


/// One pixel's stripe value is the same under any two admissible stage
/// witnesses: the owning regions coincide, so their shade indices and
/// aggregated directions agree.
proof fn lemma_pixel_value_unique(
    c: (u32, u32),
    r1: ShadeRegion,
    r2: ShadeRegion,
    quant1: Grid<u8>,
    quant2: Grid<u8>,
    dirs1: Grid<u32>,
    dirs2: Grid<u32>,
    n_grad_dir: int,
)
    requires
        quant1.wf(),
        quant2.wf(),
        quant1.width == quant2.width,
        quant1.height == quant2.height,
        forall|x: int, y: int| quant1.in_range(x, y) ==> quant1.at(x, y) == quant2.at(x, y),
        dirs1.width == quant1.width,
        dirs1.height == quant1.height,
        dirs2.width == dirs1.width,
        dirs2.height == dirs1.height,
        forall|x: int, y: int| dirs1.in_range(x, y) ==> dirs1.at(x, y) == dirs2.at(x, y),
        r1.wf(quant1),
        r1.closed(quant1),
        r2.wf(quant2),
        r2.closed(quant2),
        r1.has(c),
        r2.has(c),
        r1.direction == spec_region_direction(r1.coords@, dirs1, n_grad_dir),
        r2.direction == spec_region_direction(r2.coords@, dirs2, n_grad_dir),
    ensures
        r1.i_shade == r2.i_shade,
        r1.direction == r2.direction,
{
    crate::region::lemma_region_wf_transfer(r2, quant1, quant2);
    crate::region::lemma_regions_coincide(r1, r2, quant1, c);
    assert forall|a: (u32, u32)| r1.coords@.contains(a) <==> r2.coords@.contains(a) by {
        assert(r1.has(a) <==> r2.has(a));
    }
    crate::region::lemma_region_direction_same_members(
        r1.coords@,
        r2.coords@,
        dirs1,
        n_grad_dir,
    );
    assert forall|t: int| 0 <= t < r2.coords@.len() implies coord_in_range(
        dirs1,
        #[trigger] r2.coords@[t],
    ) by {
        assert(coord_in_range(quant1, r2.coords@[t]));
    }
    crate::region::lemma_region_direction_pointwise(r2.coords@, dirs1, dirs2, n_grad_dir);
}

/// Law: the engraving is a function of the image and the parameters alone.
/// Any two outputs that the pipeline's success contract admits for the same
/// input agree on every pixel: the quantized grid is pinned pointwise, the
/// direction field's first minima are unique, a maximal monochromatic
/// partition is unique up to the order its members are listed in, and the
/// aggregated direction and stripe pattern depend only on the member sets.
#[verifier::rlimit(100)]
pub proof fn lemma_run_witness_unique(
    img: PixelGrid,
    n_shades: int,
    n_grad_dir: int,
    stroke_width: int,
    quant1: Grid<u8>,
    dirs1: Grid<u32>,
    regions1: Seq<ShadeRegion>,
    out1: PixelGrid,
    quant2: Grid<u8>,
    dirs2: Grid<u32>,
    regions2: Seq<ShadeRegion>,
    out2: PixelGrid,
)
    requires
        img.wf(),
        run_witness(img, n_shades, n_grad_dir, stroke_width, quant1, dirs1, regions1, out1),
        run_witness(img, n_shades, n_grad_dir, stroke_width, quant2, dirs2, regions2, out2),
        out1.shade.width == img.spec_width(),
        out1.shade.height == img.spec_height(),
        out2.shade.width == img.spec_width(),
        out2.shade.height == img.spec_height(),
    ensures
        forall|x: int, y: int|
            out1.shade.in_range(x, y) ==> out1.shade.at(x, y) == out2.shade.at(x, y),
{
    // the two quantized grids agree pointwise
    assert forall|x: int, y: int| quant1.in_range(x, y) implies quant1.at(x, y) == quant2.at(
        x,
        y,
    ) by {
        assert(quant1.at(x, y) as int == spec_quantize(img.shade.at(x, y) as int, n_shades));
        assert(quant2.at(x, y) as int == spec_quantize(img.shade.at(x, y) as int, n_shades));
    }
    // the two direction fields agree pointwise
    assert forall|x: int, y: int| dirs1.in_range(x, y) implies dirs1.at(x, y) == dirs2.at(
        x,
        y,
    ) by {
        crate::direction_field::lemma_first_min_dir_unique(
            img.shade,
            x,
            y,
            n_grad_dir,
            dirs1.at(x, y) as int,
            dirs2.at(x, y) as int,
        );
    }
    assert forall|x: int, y: int| out1.shade.in_range(x, y) implies out1.shade.at(x, y)
        == out2.shade.at(x, y) by {
        let c = ((x as u32), (y as u32));
        assert(c.0 as int == x && c.1 as int == y);
        assert(coord_in_range(quant1, c));
        assert(coord_in_range(quant2, c));
        assert(in_some_region(regions1, c));
        assert(in_some_region(regions2, c));
        let k1 = choose|k: int| 0 <= k < regions1.len() && (#[trigger] regions1[k]).has(c);
        let k2 = choose|k: int| 0 <= k < regions2.len() && (#[trigger] regions2[k]).has(c);
        let r1 = regions1[k1];
        let r2 = regions2[k2];
        lemma_pixel_value_unique(c, r1, r2, quant1, quant2, dirs1, dirs2, n_grad_dir);
        // both outputs paint the pixel with the same stripe pattern
        let i1 = choose|i: int| 0 <= i < r1.coords@.len() && r1.coords@[i] == c;
        let i2 = choose|i: int| 0 <= i < r2.coords@.len() && r2.coords@[i] == c;
        assert(out1.shade.at(x, y) == spec_stripe_shade(
            x,
            y,
            r1.direction,
            stroke_width,
            spec_black_width(r1.i_shade as int, n_shades, stroke_width),
        ));
        assert(out2.shade.at(x, y) == spec_stripe_shade(
            x,
            y,
            r2.direction,
            stroke_width,
            spec_black_width(r2.i_shade as int, n_shades, stroke_width),
        ));
    }
}

/// A region's well-formedness and maximality read only its coordinates and
/// shade index, never its direction.
proof fn lemma_region_facts_direction_independent(
    before: ShadeRegion,
    after: ShadeRegion,
    shades: Grid<u8>,
)
    requires
        before.wf(shades),
        before.closed(shades),
        after.coords == before.coords,
        after.i_shade == before.i_shade,
    ensures
        after.wf(shades),
        after.closed(shades),
{
    assert forall|i: int, c: (u32, u32)|
        0 <= i < after.coords@.len() && coord_in_range(shades, c) && #[trigger] crate::region::adj4(
            after.coords@[i],
            c,
        ) && coord_at(shades, c) == after.i_shade implies after.has(c) by {
        assert(before.coords@[i] == after.coords@[i]);
        assert(before.has(c));
    }
}

} // verus!
