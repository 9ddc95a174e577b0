//! The minimum-gradient direction field: for every pixel, the index of the
//! candidate direction along which the local brightness changes least. The
//! `n_grad_dir` candidate directions have the angles `k * pi / n_grad_dir`
//! for `k` below `n_grad_dir`, covering a half-circle; a direction index is
//! the exact model of its angle.

use vstd::prelude::*;

use crate::grid::Grid;
use crate::pixel_subset::{grad_le, spec_grad_of, spec_line_point, spec_window_rows, window_cell, window_has, GradKey, PixelSubset};
use crate::EngraveError;

verus! {

/// The window radius used for `n_grad_dir` candidate directions: enough
/// layers that each direction's sample line can differ from the others'.
pub open spec fn window_radius(n_grad_dir: int) -> int {
    n_grad_dir / 4 + 1
}

/// The gradient measure of direction `k` at pixel `(x, y)` of an image.
pub open spec fn pixel_grad(img: Grid<u8>, x: int, y: int, n: int, k: int) -> GradKey {
    spec_grad_of(
        spec_window_rows(img, x, y, window_radius(n)),
        window_radius(n),
        k,
        n,
    )
}

/// No direction at pixel `(x, y)` has two valid samples: the pixel's window
/// gives no usable gradient data in any direction.
pub open spec fn pixel_degenerate(img: Grid<u8>, x: int, y: int, n: int) -> bool {
    forall|k: int| 0 <= k < n ==> #[trigger] pixel_grad(img, x, y, n, k) is Infinite
}

/// `d` is the direction the field stores at `(x, y)`: the first index whose
/// gradient measure is minimal among all `n` candidates.
pub open spec fn is_first_min_dir(img: Grid<u8>, x: int, y: int, n: int, d: int) -> bool {
    &&& 0 <= d < n
    &&& forall|k: int|
        0 <= k < n ==> grad_le(pixel_grad(img, x, y, n, d), #[trigger] pixel_grad(img, x, y, n, k))
    &&& forall|k: int|
        0 <= k < d ==> !grad_le(#[trigger] pixel_grad(img, x, y, n, k), pixel_grad(img, x, y, n, d))
}

/// Law: a pixel's stored direction is unique: two indices that are both
/// first minima of the gradient measure coincide. Together with the exact
/// contracts of the other stages, this pins the direction field to one value
/// per input.
pub proof fn lemma_first_min_dir_unique(
    img: Grid<u8>,
    x: int,
    y: int,
    n: int,
    d1: int,
    d2: int,
)
    requires
        is_first_min_dir(img, x, y, n, d1),
        is_first_min_dir(img, x, y, n, d2),
    ensures
        d1 == d2,
{
    if d1 < d2 {
        assert(grad_le(pixel_grad(img, x, y, n, d2), pixel_grad(img, x, y, n, d1)));
        assert(!grad_le(pixel_grad(img, x, y, n, d1), pixel_grad(img, x, y, n, d2)));
        assert(grad_le(pixel_grad(img, x, y, n, d1), pixel_grad(img, x, y, n, d2)));
    }
    if d2 < d1 {
        assert(grad_le(pixel_grad(img, x, y, n, d1), pixel_grad(img, x, y, n, d2)));
        assert(!grad_le(pixel_grad(img, x, y, n, d2), pixel_grad(img, x, y, n, d1)));
        assert(grad_le(pixel_grad(img, x, y, n, d2), pixel_grad(img, x, y, n, d1)));
    }
}

/// Law: every direction the field can store denotes an angle in the
/// half-open half-circle: `k * pi / n` lies in `[0, pi)` exactly when the
/// index `k` lies in `[0, n)`.
pub proof fn lemma_direction_angle_range(k: int, n: int)
    requires
        1 <= n,
        0 <= k < n,
    ensures
        0 <= crate::trig::spec_angle_fp(k, n) < crate::trig::PI_FP,
{
    vstd::arithmetic::div_mod::lemma_div_pos_is_pos(k * crate::trig::PI_FP, n);
    assert(k * crate::trig::PI_FP <= (n - 1) * crate::trig::PI_FP) by (nonlinear_arith)
        requires
            k <= n - 1,
    ;
    vstd::arithmetic::div_mod::lemma_fundamental_div_mod(k * crate::trig::PI_FP, n);
    vstd::arithmetic::div_mod::lemma_mod_bound(k * crate::trig::PI_FP, n);
    if k * crate::trig::PI_FP / n >= crate::trig::PI_FP {
        assert(n * (k * crate::trig::PI_FP / n) >= n * crate::trig::PI_FP) by (nonlinear_arith)
            requires
                k * crate::trig::PI_FP / n >= crate::trig::PI_FP,
                1 <= n,
        ;
        assert(k * crate::trig::PI_FP < n * crate::trig::PI_FP) by (nonlinear_arith)
            requires
                k * crate::trig::PI_FP <= (n - 1) * crate::trig::PI_FP,
                1 <= n,
        ;
    }
}

/// Law: on a flat image, every pixel's minimum-gradient direction is the
/// first candidate. Direction zero samples a perfectly straight line, the
/// constant brightness makes every sampled pair's difference zero, and a
/// zero measure ties with or beats every other direction, so the first
/// index wins. Together with the field's first-minimum contract this pins
/// a flat image's whole direction field to index zero, the angle `0`.
pub proof fn lemma_flat_image_first_dir(img: Grid<u8>, b: u8, x: int, y: int, n: int)
    requires
        img.wf(),
        forall|x2: int, y2: int| img.in_range(x2, y2) ==> img.at(x2, y2) == b,
        img.height >= 2,
        1 <= n <= u32::MAX,
        img.in_range(x, y),
    ensures
        is_first_min_dir(img, x, y, n, 0),
{
    let r = window_radius(n);
    vstd::arithmetic::div_mod::lemma_div_pos_is_pos(n, 4);
    assert(r <= 0x4000_0000) by {
        vstd::arithmetic::div_mod::lemma_div_is_ordered(n, u32::MAX as int, 4);
        vstd::arithmetic::div_mod::lemma_fundamental_div_mod_converse(
            u32::MAX as int,
            4,
            0x3FFF_FFFF,
            3,
        );
    }
    let pxv = spec_window_rows(img, x, y, r);
    assert(pxv.len() == 2 * r + 1);
    assert(forall|i: int| 0 <= i < pxv.len() ==> (#[trigger] pxv[i]).len() == 2 * r + 1);
    // direction zero's sample line runs straight down the window's center row
    assert forall|l: int| true implies #[trigger] spec_line_point(r, 0, n, l) == (r, r + l) by {
        crate::trig::lemma_first_dir_line_straight(n, l);
    }
    // two of its cells are full: the image is at least two pixels tall
    let l1: int = if y + 1 < img.height as int {
        0
    } else {
        -1
    };
    let l2: int = l1 + 1;
    assert forall|l: int| -r <= l <= r && 0 <= y + l < img.height as int implies window_has(
        pxv,
        spec_line_point(r, 0, n, l).0,
        spec_line_point(r, 0, n, l).1,
    ) by {
        assert(pxv[r] =~= Seq::new((2 * r + 1) as nat, |j: int| window_cell(img, x, y, r, r, j)));
        assert(pxv[r][r + l] == window_cell(img, x, y, r, r, r + l));
    }
    assert(window_has(pxv, spec_line_point(r, 0, n, l1).0, spec_line_point(r, 0, n, l1).1));
    assert(window_has(pxv, spec_line_point(r, 0, n, l2).0, spec_line_point(r, 0, n, l2).1));
    crate::pixel_subset::lemma_line_points_lb2(pxv, r, 0, n, -r, l1, l2);
    let pts = crate::pixel_subset::spec_line_points_from(pxv, r, 0, n);
    assert(pts.len() >= 2);
    // every sampled cell carries the flat brightness
    crate::pixel_subset::lemma_line_points_has(pxv, r, 0, n, -r);
    assert forall|t: int| 0 <= t < pts.len() implies crate::pixel_subset::window_shade(
        pxv,
        #[trigger] pts[t],
    ) == b by {
        let p = pts[t];
        assert(crate::pixel_subset::window_has(pxv, p.0 as int, p.1 as int));
        assert(pxv[p.0 as int] =~= Seq::new(
            (2 * r + 1) as nat,
            |j: int| window_cell(img, x, y, r, p.0 as int, j),
        ));
        assert(pxv[p.0 as int][p.1 as int] == window_cell(
            img,
            x,
            y,
            r,
            p.0 as int,
            p.1 as int,
        ));
    }
    crate::pixel_subset::lemma_pair_sum_constant(pts, pxv, b, 1);
    let key0 = pixel_grad(img, x, y, n, 0);
    assert(key0 == GradKey::Finite(0u128, (pts.len() - 1) as u128));
    // the zero measure ties with or beats every candidate
    assert forall|k: int| 0 <= k < n implies grad_le(
        key0,
        #[trigger] pixel_grad(img, x, y, n, k),
    ) by {
        match pixel_grad(img, x, y, n, k) {
            GradKey::Finite(nk, pk) => {
                assert(0int * pk as int == 0) by (nonlinear_arith);
                assert(nk as int * ((pts.len() - 1) as u128) as int >= 0) by (nonlinear_arith)
                    requires
                        nk as int >= 0,
                        ((pts.len() - 1) as u128) as int >= 0,
                ;
            },
            GradKey::Infinite => {},
        }
    }
}

/// Computes the minimum-gradient direction field of an image: for every
/// pixel, the first direction index of lowest gradient measure. Fails with
/// `InvalidDirectionCount` when no directions were requested, and with
/// `DegenerateWindow` when some pixel has no direction with two valid
/// samples.
pub fn gen_min_grad_map(img: &Grid<u8>, n_grad_dir: u32) -> (r: Result<Grid<u32>, EngraveError>)
    requires
        img.wf(),
    ensures
        n_grad_dir == 0 ==> r == Err::<Grid<u32>, EngraveError>(EngraveError::InvalidDirectionCount),
        r is Err ==> (r->Err_0 == EngraveError::InvalidDirectionCount && n_grad_dir == 0) || (
        r->Err_0 == EngraveError::DegenerateWindow && n_grad_dir >= 1 && exists|x: int, y: int|
            img.in_range(x, y) && pixel_degenerate(*img, x, y, n_grad_dir as int)),
        r is Ok ==> {
            &&& n_grad_dir >= 1
            &&& r->Ok_0.wf()
            &&& r->Ok_0.width == img.width
            &&& r->Ok_0.height == img.height
            &&& forall|x: int, y: int|
                img.in_range(x, y) ==> {
                    &&& is_first_min_dir(
                        *img,
                        x,
                        y,
                        n_grad_dir as int,
                        #[trigger] r->Ok_0.at(x, y) as int,
                    )
                    &&& !(pixel_grad(*img, x, y, n_grad_dir as int, r->Ok_0.at(x, y) as int)
                        is Infinite)
                }
        },
{
    if n_grad_dir == 0 {
        return Err(EngraveError::InvalidDirectionCount);
    }
    let n_layers: u32 = n_grad_dir / 4 + 1;
    let _n: usize = img.data.len();
    let mut out: Grid<u32> = Grid::filled(img.width, img.height, 0u32);
    let mut y: u32 = 0;
    while y < img.height
        invariant
            img.wf(),
            n_grad_dir >= 1,
            n_layers == n_grad_dir / 4 + 1,
            y <= img.height,
            out.wf(),
            out.width == img.width,
            out.height == img.height,
            forall|x2: int, y2: int|
                img.in_range(x2, y2) && y2 < y as int ==> is_first_min_dir(
                    *img,
                    x2,
                    y2,
                    n_grad_dir as int,
                    #[trigger] out.at(x2, y2) as int,
                ) && !(pixel_grad(*img, x2, y2, n_grad_dir as int, out.at(x2, y2) as int)
                    is Infinite),
        decreases img.height - y,
    {
        let mut x: u32 = 0;
        while x < img.width
            invariant
                img.wf(),
                n_grad_dir >= 1,
                n_layers == n_grad_dir / 4 + 1,
                y < img.height,
                x <= img.width,
                out.wf(),
                out.width == img.width,
                out.height == img.height,
                forall|x2: int, y2: int|
                    img.in_range(x2, y2) && (y2 < y as int || y2 == y as int && x2 < x as int)
                        ==> is_first_min_dir(
                        *img,
                        x2,
                        y2,
                        n_grad_dir as int,
                        #[trigger] out.at(x2, y2) as int,
                    ) && !(pixel_grad(*img, x2, y2, n_grad_dir as int, out.at(x2, y2) as int)
                        is Infinite),
            decreases img.width - x,
        {
            let mut ps = PixelSubset::new(n_layers);
            ps.fill(img, (x, y));
            proof {
                ps.lemma_window_rows(*img, x as int, y as int);
            }
            let d = ps.find_i_min_grad_dir(n_grad_dir);
            let key = ps.calc_grad(d as u32, n_grad_dir);
            proof {
                assert(ps.n_layers as int == window_radius(n_grad_dir as int));
            }
            match key {
                GradKey::Infinite => {
                    proof {
                        assert forall|k: int|
                            0 <= k < n_grad_dir as int implies #[trigger] pixel_grad(
                            *img,
                            x as int,
                            y as int,
                            n_grad_dir as int,
                            k,
                        ) is Infinite by {
                            assert(ps.spec_grad(k, n_grad_dir as int) == pixel_grad(
                                *img,
                                x as int,
                                y as int,
                                n_grad_dir as int,
                                k,
                            ));
                            assert(grad_le(
                                ps.spec_grad(d as int, n_grad_dir as int),
                                ps.spec_grad(k, n_grad_dir as int),
                            ));
                            assert(ps.spec_grad(d as int, n_grad_dir as int) is Infinite);
                        }
                        assert(pixel_degenerate(*img, x as int, y as int, n_grad_dir as int));
                        assert(img.in_range(x as int, y as int));
                        assert(exists|x2: int, y2: int|
                            img.in_range(x2, y2) && pixel_degenerate(
                                *img,
                                x2,
                                y2,
                                n_grad_dir as int,
                            )) by {
                            assert(img.in_range(x as int, y as int) && pixel_degenerate(
                                *img,
                                x as int,
                                y as int,
                                n_grad_dir as int,
                            ));
                        }
                    }
                    return Err(EngraveError::DegenerateWindow);
                },
                GradKey::Finite(_, _) => {
                    proof {
                        let xi = x as int;
                        let yi = y as int;
                        let ni = n_grad_dir as int;
                        let di = d as int;
                        assert(ps.spec_grad(di, ni) == pixel_grad(*img, xi, yi, ni, di));
                        assert forall|k: int| 0 <= k < ni implies grad_le(
                            pixel_grad(*img, xi, yi, ni, di),
                            #[trigger] pixel_grad(*img, xi, yi, ni, k),
                        ) by {
                            assert(ps.spec_grad(k, ni) == pixel_grad(*img, xi, yi, ni, k));
                            assert(grad_le(ps.spec_grad(di, ni), ps.spec_grad(k, ni)));
                        }
                        assert forall|k: int| 0 <= k < di implies !grad_le(
                            #[trigger] pixel_grad(*img, xi, yi, ni, k),
                            pixel_grad(*img, xi, yi, ni, di),
                        ) by {
                            assert(ps.spec_grad(k, ni) == pixel_grad(*img, xi, yi, ni, k));
                            assert(!grad_le(ps.spec_grad(k, ni), ps.spec_grad(di, ni)));
                        }
                        assert(is_first_min_dir(*img, xi, yi, ni, di));
                        assert(!(pixel_grad(*img, xi, yi, ni, di) is Infinite));
                    }
                    out.set(x, y, d as u32);
                },
            }
            x = x + 1;
        }
        y = y + 1;
    }
    Ok(out)
}

} // verus!
