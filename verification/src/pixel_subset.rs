//! Windows of pixels around a center, and the directional gradient measure
//! over them. For each candidate direction the window is sampled along a
//! rasterized line through its center; the gradient of the direction is the
//! average, over consecutive valid samples, of the brightness difference
//! divided by the distance between the samples. All of it is exact integer
//! arithmetic: distances enter through `SCALE / sqrt(d)` rounded down, and
//! averages are compared as exact rationals.

use vstd::prelude::*;

use crate::grid::Grid;
use crate::trig::{
    abs_i, dir_is_shallow, isqrt, lemma_div_bound, lemma_isqrt_bounds, lemma_mul_bound,
    line_offset, spec_dir_shallow, spec_isqrt, spec_line_offset, SCALE,
};

verus! {

/// A copied window of pixels centered on one pixel of a source image:
/// `pixels[i][j]` is the brightness of the cell at window coordinates
/// `(i, j)`, or `None` where the window reaches past the image.
pub struct PixelSubset {
    /// The window's cells, as a square array of side `2 * n_layers + 1`.
    pub pixels: Vec<Vec<Option<u8>>>,
    /// Number of pixel layers around the window's center.
    pub n_layers: u32,
}

/// What a window cell holds: the image value where the cell lies inside the
/// image, and nothing where it reaches past it.
pub open spec fn window_cell(img: Grid<u8>, cx: int, cy: int, r: int, i: int, j: int) -> Option<
    u8,
> {
    let xi = cx - r + i;
    let yj = cy - r + j;
    if 0 <= xi < img.width as int && 0 <= yj < img.height as int {
        Some(img.at(xi, yj))
    } else {
        None
    }
}

/// The brightness a window holds at a sample coordinate; zero outside or on
/// an empty cell, though samples are only ever taken on full cells.
pub open spec fn window_shade(pixels: Seq<Seq<Option<u8>>>, p: (u32, u32)) -> int {
    if p.0 < pixels.len() && p.1 < pixels[p.0 as int].len() {
        match pixels[p.0 as int][p.1 as int] {
            Some(v) => v as int,
            None => 0,
        }
    } else {
        0
    }
}

/// Whether the window holds a sample at `(i, j)`: the coordinate is inside
/// the window and the cell is full.
pub open spec fn window_has(pixels: Seq<Seq<Option<u8>>>, i: int, j: int) -> bool {
    0 <= i < pixels.len() && 0 <= j < pixels[i].len() && pixels[i][j] is Some
}

/// The window coordinates of the sample at line offset `l` of direction `k`
/// out of `n`, in a window of radius `r`: step along one axis, displace
/// along the other by the rounded slope.
pub open spec fn spec_line_point(r: int, k: int, n: int, l: int) -> (int, int) {
    let off = spec_line_offset(k, n, l);
    if spec_dir_shallow(k, n) {
        (r - off, r + l)
    } else {
        (r + l, r - off)
    }
}

/// The valid samples of the line of direction `k` out of `n` through the
/// window's center, in offset order from `l` upward: offsets whose sample
/// coordinates leave the window or land on an empty cell are skipped.
pub open spec fn spec_line_points(
    pixels: Seq<Seq<Option<u8>>>,
    r: int,
    k: int,
    n: int,
    l: int,
) -> Seq<(u32, u32)>
    decreases r - l + 1,
{
    if l > r {
        Seq::empty()
    } else {
        let p = spec_line_point(r, k, n, l);
        let rest = spec_line_points(pixels, r, k, n, l + 1);
        if window_has(pixels, p.0, p.1) {
            seq![(p.0 as u32, p.1 as u32)] + rest
        } else {
            rest
        }
    }
}

/// All valid samples of the line of direction `k` out of `n`.
pub open spec fn spec_line_points_from(
    pixels: Seq<Seq<Option<u8>>>,
    r: int,
    k: int,
    n: int,
) -> Seq<(u32, u32)> {
    spec_line_points(pixels, r, k, n, -r)
}

/// A line over a window of radius `r` has at most `2 * r + 1` samples.
pub proof fn lemma_line_points_len(
    pixels: Seq<Seq<Option<u8>>>,
    r: int,
    k: int,
    n: int,
    l: int,
)
    ensures
        spec_line_points(pixels, r, k, n, l).len() <= if l > r {
            0int
        } else {
            r - l + 1
        },
    decreases r - l + 1,
{
    if l <= r {
        lemma_line_points_len(pixels, r, k, n, l + 1);
    }
}

impl PixelSubset {
    /// The window has its square shape: `2 * n_layers + 1` rows of that same
    /// length.
    pub open spec fn shape_wf(self) -> bool {
        &&& self.n_layers <= 0x4000_0000
        &&& self.pixels@.len() == 2 * self.n_layers as int + 1
        &&& forall|i: int|
            0 <= i < self.pixels@.len() ==> (#[trigger] self.pixels@[i])@.len() == 2
                * self.n_layers as int + 1
    }

    /// The window holds exactly the image cells around `(cx, cy)`.
    pub open spec fn window_of(self, img: Grid<u8>, cx: int, cy: int) -> bool {
        forall|i: int, j: int|
            0 <= i < 2 * self.n_layers as int + 1 && 0 <= j < 2 * self.n_layers as int + 1
                ==> #[trigger] self.pixels@[i]@[j] == window_cell(
                img,
                cx,
                cy,
                self.n_layers as int,
                i,
                j,
            )
    }

    /// An empty window for `n_layers` layers around a center to be chosen by
    /// `fill`.
    pub fn new(n_layers: u32) -> (ps: PixelSubset)
        requires
            n_layers <= 0x4000_0000,
        ensures
            ps.pixels@.len() == 0,
            ps.n_layers == n_layers,
    {
        PixelSubset { pixels: Vec::new(), n_layers }
    }

    /// Fills the window with the image cells around `ref_pixel_coords`,
    /// copying brightness values and marking the cells that reach past the
    /// image as empty. Returns the number of rows filled.
    pub fn fill(&mut self, img: &Grid<u8>, ref_pixel_coords: (u32, u32)) -> (count: usize)
        requires
            img.wf(),
            old(self).pixels@.len() == 0,
            old(self).n_layers <= 0x4000_0000,
        ensures
            final(self).n_layers == old(self).n_layers,
            final(self).shape_wf(),
            final(self).window_of(*img, ref_pixel_coords.0 as int, ref_pixel_coords.1 as int),
            count == final(self).pixels@.len(),
    {
        let r: i64 = self.n_layers as i64;
        let side: usize = 2 * (self.n_layers as usize) + 1;
        let cx: i64 = ref_pixel_coords.0 as i64;
        let cy: i64 = ref_pixel_coords.1 as i64;
        let mut i: usize = 0;
        while i < side
            invariant
                img.wf(),
                side == 2 * self.n_layers as int + 1,
                r == self.n_layers as int,
                self.n_layers == old(self).n_layers,
                cx == ref_pixel_coords.0 as int,
                cy == ref_pixel_coords.1 as int,
                i <= side,
                self.pixels@.len() == i as int,
                forall|i2: int|
                    0 <= i2 < i as int ==> (#[trigger] self.pixels@[i2])@.len() == side as int,
                forall|i2: int, j2: int|
                    0 <= i2 < i as int && 0 <= j2 < side as int
                        ==> #[trigger] self.pixels@[i2]@[j2] == window_cell(
                        *img,
                        cx as int,
                        cy as int,
                        r as int,
                        i2,
                        j2,
                    ),
            decreases side - i,
        {
            let mut row: Vec<Option<u8>> = Vec::new();
            let mut j: usize = 0;
            while j < side
                invariant
                    img.wf(),
                    side == 2 * self.n_layers as int + 1,
                    r == self.n_layers as int,
                    cx == ref_pixel_coords.0 as int,
                    cy == ref_pixel_coords.1 as int,
                    i < side,
                    j <= side,
                    row@.len() == j as int,
                    forall|j2: int|
                        0 <= j2 < j as int ==> row@[j2] == window_cell(
                            *img,
                            cx as int,
                            cy as int,
                            r as int,
                            i as int,
                            j2,
                        ),
                decreases side - j,
            {
                let xi: i64 = cx - r + i as i64;
                let yj: i64 = cy - r + j as i64;
                if 0 <= xi && xi < img.width as i64 && 0 <= yj && yj < img.height as i64 {
                    row.push(Some(img.get(xi as u32, yj as u32)));
                } else {
                    row.push(None);
                }
                j = j + 1;
            }
            self.pixels.push(row);
            i = i + 1;
        }
        side
    }

    /// Collects the valid samples of the line of direction `k` out of `n`
    /// through the window's center, in offset order. Every returned
    /// coordinate lies inside the window on a full cell.
    pub fn get_pixels_in_line(&self, k: u32, n: u32) -> (pts: Vec<(u32, u32)>)
        requires
            self.shape_wf(),
            1 <= n,
            k <= n,
        ensures
            pts@ == spec_line_points_from(
                self.pixels@.map_values(|row: Vec<Option<u8>>| row@),
                self.n_layers as int,
                k as int,
                n as int,
            ),
            forall|t: int|
                0 <= t < pts@.len() ==> window_has(
                    self.pixels@.map_values(|row: Vec<Option<u8>>| row@),
                    (#[trigger] pts@[t]).0 as int,
                    pts@[t].1 as int,
                ),
            pts@.len() <= 2 * self.n_layers as int + 1,
    {
        let ghost pxv = self.pixels@.map_values(|row: Vec<Option<u8>>| row@);
        let r: i64 = self.n_layers as i64;
        let ghost ri = r as int;
        let mut pts: Vec<(u32, u32)> = Vec::new();
        let mut l: i64 = -r;
        proof {
            lemma_line_points_len(pxv, ri, k as int, n as int, -ri);
        }
        while l <= r
            invariant
                self.shape_wf(),
                1 <= n,
                k <= n,
                r == self.n_layers as int,
                ri == r as int,
                pxv == self.pixels@.map_values(|row: Vec<Option<u8>>| row@),
                -r <= l <= r + 1,
                spec_line_points_from(pxv, ri, k as int, n as int) == pts@ + spec_line_points(
                    pxv,
                    ri,
                    k as int,
                    n as int,
                    l as int,
                ),
                forall|t: int|
                    0 <= t < pts@.len() ==> window_has(
                        pxv,
                        (#[trigger] pts@[t]).0 as int,
                        pts@[t].1 as int,
                    ),
                pts@.len() + (r - l + 1) <= 2 * self.n_layers as int + 1,
            decreases r - l + 1,
        {
            let off: i64 = line_offset(k, n, l);
            let shallow = dir_is_shallow(k, n);
            let pi: i64 = if shallow {
                r - off
            } else {
                r + l
            };
            let pj: i64 = if shallow {
                r + l
            } else {
                r - off
            };
            proof {
                assert(spec_line_point(ri, k as int, n as int, l as int) == (
                    pi as int,
                    pj as int,
                ));
            }
            let side: i64 = 2 * r + 1;
            let ghost pts_pre = pts@;
            if 0 <= pi && pi < side && 0 <= pj && pj < side {
                let row = &self.pixels[pi as usize];
                let cell = row[pj as usize];
                if cell.is_some() {
                    pts.push((pi as u32, pj as u32));
                }
            }
            proof {
                let p = spec_line_point(ri, k as int, n as int, l as int);
                let rest = spec_line_points(pxv, ri, k as int, n as int, l as int + 1);
                assert(pxv.len() == self.pixels@.len());
                if 0 <= p.0 && p.0 < side as int {
                    assert(pxv[p.0] == self.pixels@[p.0]@);
                }
                if window_has(pxv, p.0, p.1) {
                    assert(pts@ == pts_pre.push((p.0 as u32, p.1 as u32)));
                    assert(pts_pre + (seq![(p.0 as u32, p.1 as u32)] + rest) =~= pts@ + rest);
                } else {
                    assert(pts@ == pts_pre);
                }
            }
            l = l + 1;
        }
        pts
    }
}

/// The gradient measure of one direction through a window. `Finite(num,
/// pairs)` stands for the exact rational `num / (pairs * SCALE)`: the
/// absolute value of the summed per-pair differentials, averaged over the
/// number of pairs. `Infinite` marks a direction with fewer than two valid
/// samples, which has no usable data and loses to every finite measure.
#[derive(Clone, Copy, PartialEq, Eq, Structural, Debug)]
pub enum GradKey {
    /// An exact finite measure: the pair `(numerator, pair count)`.
    Finite(u128, u128),
    /// No measure: fewer than two valid samples.
    Infinite,
}

/// The order of gradient measures, as exact rational comparison by cross
/// multiplication; `Infinite` sits above every finite measure.
pub open spec fn grad_le(a: GradKey, b: GradKey) -> bool {
    match (a, b) {
        (GradKey::Finite(n1, p1), GradKey::Finite(n2, p2)) => n1 as int * p2 as int <= n2 as int
            * p1 as int,
        (GradKey::Finite(_, _), GradKey::Infinite) => true,
        (GradKey::Infinite, GradKey::Finite(_, _)) => false,
        (GradKey::Infinite, GradKey::Infinite) => true,
    }
}

/// Bounds under which cross multiplication cannot overflow: at most one pair
/// per window cell, and a numerator of at most `255 * SCALE` per pair.
pub open spec fn grad_wf(g: GradKey) -> bool {
    match g {
        GradKey::Finite(num, pairs) => 1 <= pairs <= 0x8000_0001 && num as int <= 0x8000_0001
            * 255 * SCALE,
        GradKey::Infinite => true,
    }
}

/// The gradient order is transitive.
pub proof fn lemma_grad_le_trans(a: GradKey, b: GradKey, c: GradKey)
    requires
        grad_wf(a),
        grad_wf(b),
        grad_wf(c),
        grad_le(a, b),
        grad_le(b, c),
    ensures
        grad_le(a, c),
{
    match (a, b, c) {
        (GradKey::Finite(n1, p1), GradKey::Finite(n2, p2), GradKey::Finite(n3, p3)) => {
            assert(n1 as int * p3 as int <= n3 as int * p1 as int) by (nonlinear_arith)
                requires
                    n1 as int * p2 as int <= n2 as int * p1 as int,
                    n2 as int * p3 as int <= n3 as int * p2 as int,
                    1 <= p1 as int,
                    1 <= p2 as int,
                    1 <= p3 as int,
                    0 <= n1 as int,
                    0 <= n2 as int,
                    0 <= n3 as int,
            ;
        },
        _ => {},
    }
}

/// Decides whether measure `a` is strictly below measure `b`.
pub fn grad_lt(a: GradKey, b: GradKey) -> (r: bool)
    requires
        grad_wf(a),
        grad_wf(b),
    ensures
        r == !grad_le(b, a),
{
    match (a, b) {
        (GradKey::Finite(n1, p1), GradKey::Finite(n2, p2)) => {
            proof {
                lemma_mul_bound(n1 as int, p2 as int, 0x8000_0001 * 255 * SCALE, 0x8000_0001);
                lemma_mul_bound(n2 as int, p1 as int, 0x8000_0001 * 255 * SCALE, 0x8000_0001);
            }
            n1 * p2 < n2 * p1
        },
        (GradKey::Finite(_, _), GradKey::Infinite) => true,
        (GradKey::Infinite, _) => false,
    }
}

/// The squared distance between two sample coordinates.
pub open spec fn spec_dsq(a: (u32, u32), b: (u32, u32)) -> int {
    (a.0 - b.0) * (a.0 - b.0) + (a.1 - b.1) * (a.1 - b.1)
}

/// `SCALE / sqrt(dsq)` rounded down: the fixed-point reciprocal of the
/// distance between two samples. Distinct consecutive samples never have a
/// zero squared distance; the measure maps it to zero.
pub open spec fn spec_inv_dist(dsq: int) -> int {
    if dsq <= 0 {
        0
    } else {
        spec_isqrt((SCALE as int * SCALE as int / dsq) as nat) as int
    }
}

/// The reciprocal distance never exceeds `SCALE`.
pub proof fn lemma_inv_dist_bound(dsq: int)
    ensures
        0 <= spec_inv_dist(dsq) <= SCALE,
{
    if dsq > 0 {
        lemma_div_bound(SCALE as int * SCALE as int, dsq, SCALE as int * SCALE as int, 1);
        let v = (SCALE as int * SCALE as int / dsq) as nat;
        lemma_isqrt_bounds(v);
        let q = spec_isqrt(v);
        if q > SCALE as nat {
            assert(q * q >= (SCALE as nat + 1) * (SCALE as nat + 1)) by (nonlinear_arith)
                requires
                    q >= SCALE as nat + 1,
            ;
            assert((SCALE as int + 1) * (SCALE as int + 1) > SCALE as int * SCALE)
                by (nonlinear_arith);
        }
    }
}

/// The summed per-pair differentials of a sample line, from the pair ending
/// at index `idx` on: brightness difference times reciprocal distance, over
/// consecutive samples.
pub open spec fn spec_pair_sum(pts: Seq<(u32, u32)>, pixels: Seq<Seq<Option<u8>>>, idx: int) -> int
    decreases pts.len() - idx,
{
    if idx < 1 || idx >= pts.len() {
        0
    } else {
        let d = window_shade(pixels, pts[idx]) - window_shade(pixels, pts[idx - 1]);
        d * spec_inv_dist(spec_dsq(pts[idx], pts[idx - 1])) + spec_pair_sum(pts, pixels, idx + 1)
    }
}

/// Each pair contributes at most `255 * SCALE` to the sum.
pub proof fn lemma_pair_sum_bound(pts: Seq<(u32, u32)>, pixels: Seq<Seq<Option<u8>>>, idx: int)
    requires
        1 <= idx,
    ensures
        abs_i(spec_pair_sum(pts, pixels, idx)) <= if idx >= pts.len() {
            0int
        } else {
            (pts.len() - idx) * 255 * SCALE
        },
    decreases pts.len() - idx,
{
    if idx < pts.len() {
        lemma_pair_sum_bound(pts, pixels, idx + 1);
        let d = window_shade(pixels, pts[idx]) - window_shade(pixels, pts[idx - 1]);
        let q = spec_inv_dist(spec_dsq(pts[idx], pts[idx - 1]));
        lemma_inv_dist_bound(spec_dsq(pts[idx], pts[idx - 1]));
        assert(abs_i(d * q) <= 255 * SCALE) by (nonlinear_arith)
            requires
                -255 <= d <= 255,
                0 <= q <= SCALE as int,
        ;
        assert((pts.len() - idx) * 255 * SCALE == 255 * SCALE + (pts.len() - idx - 1) * 255
            * SCALE) by (nonlinear_arith);
    }
}


/// Every sample a line yields lies on a full window cell.
pub proof fn lemma_line_points_has(
    pixels: Seq<Seq<Option<u8>>>,
    r: int,
    k: int,
    n: int,
    l: int,
)
    requires
        pixels.len() <= u32::MAX,
        forall|i: int| 0 <= i < pixels.len() ==> (#[trigger] pixels[i]).len() <= u32::MAX,
    ensures
        forall|t: int|
            0 <= t < spec_line_points(pixels, r, k, n, l).len() ==> window_has(
                pixels,
                (#[trigger] spec_line_points(pixels, r, k, n, l)[t]).0 as int,
                spec_line_points(pixels, r, k, n, l)[t].1 as int,
            ),
    decreases r - l + 1,
{
    if l <= r {
        lemma_line_points_has(pixels, r, k, n, l + 1);
        let p = spec_line_point(r, k, n, l);
        assert(window_has(pixels, p.0, p.1) ==> pixels[p.0].len() <= u32::MAX);
        let rest = spec_line_points(pixels, r, k, n, l + 1);
        let whole = spec_line_points(pixels, r, k, n, l);
        if window_has(pixels, p.0, p.1) {
            assert forall|t: int| 0 <= t < whole.len() implies window_has(
                pixels,
                (#[trigger] whole[t]).0 as int,
                whole[t].1 as int,
            ) by {
                if t == 0 {
                    assert(whole[0] == (p.0 as u32, p.1 as u32));
                } else {
                    assert(whole[t] == rest[t - 1]);
                }
            }
        }
    }
}

/// A line over constant brightness has a vanishing pair sum: every pair's
/// brightness difference is zero.
pub proof fn lemma_pair_sum_constant(
    pts: Seq<(u32, u32)>,
    pixels: Seq<Seq<Option<u8>>>,
    b: u8,
    idx: int,
)
    requires
        1 <= idx,
        forall|t: int| 0 <= t < pts.len() ==> window_shade(pixels, #[trigger] pts[t]) == b,
    ensures
        spec_pair_sum(pts, pixels, idx) == 0,
    decreases pts.len() - idx,
{
    if 1 <= idx < pts.len() {
        lemma_pair_sum_constant(pts, pixels, b, idx + 1);
        let q = spec_inv_dist(spec_dsq(pts[idx], pts[idx - 1]));
        assert(0int * q == 0) by (nonlinear_arith);
    }
}

/// A line holding one full cell yields at least one sample.
proof fn lemma_line_points_lb1(
    pixels: Seq<Seq<Option<u8>>>,
    r: int,
    k: int,
    n: int,
    l: int,
    l0: int,
)
    requires
        l <= l0 <= r,
        window_has(pixels, spec_line_point(r, k, n, l0).0, spec_line_point(r, k, n, l0).1),
    ensures
        spec_line_points(pixels, r, k, n, l).len() >= 1,
    decreases l0 - l,
{
    if l < l0 {
        lemma_line_points_lb1(pixels, r, k, n, l + 1, l0);
    }
}

/// A line holding two full cells yields at least two samples.
pub proof fn lemma_line_points_lb2(
    pixels: Seq<Seq<Option<u8>>>,
    r: int,
    k: int,
    n: int,
    l: int,
    l1: int,
    l2: int,
)
    requires
        l <= l1 < l2 <= r,
        window_has(pixels, spec_line_point(r, k, n, l1).0, spec_line_point(r, k, n, l1).1),
        window_has(pixels, spec_line_point(r, k, n, l2).0, spec_line_point(r, k, n, l2).1),
    ensures
        spec_line_points(pixels, r, k, n, l).len() >= 2,
    decreases l1 - l,
{
    if l < l1 {
        lemma_line_points_lb2(pixels, r, k, n, l + 1, l1, l2);
    } else {
        lemma_line_points_lb1(pixels, r, k, n, l1 + 1, l2);
    }
}

/// The window contents around `(cx, cy)` in an image, as the window's rows:
/// what `fill` copies for a window of radius `r`.
pub open spec fn spec_window_rows(img: Grid<u8>, cx: int, cy: int, r: int) -> Seq<Seq<Option<u8>>> {
    Seq::new(
        (2 * r + 1) as nat,
        |i: int| Seq::new((2 * r + 1) as nat, |j: int| window_cell(img, cx, cy, r, i, j)),
    )
}

/// The gradient measure of direction `k` out of `n` over a window of radius
/// `r`: infinite with fewer than two valid samples, else the summed
/// differentials' absolute value over the pair count.
pub open spec fn spec_grad_of(pixels: Seq<Seq<Option<u8>>>, r: int, k: int, n: int) -> GradKey {
    let pts = spec_line_points_from(pixels, r, k, n);
    if pts.len() < 2 {
        GradKey::Infinite
    } else {
        GradKey::Finite(abs_i(spec_pair_sum(pts, pixels, 1)) as u128, (pts.len() - 1) as u128)
    }
}

impl PixelSubset {
    /// The window's cells as a sequence of rows.
    pub open spec fn view_rows(self) -> Seq<Seq<Option<u8>>> {
        self.pixels@.map_values(|row: Vec<Option<u8>>| row@)
    }

    /// The gradient measure of direction `k` out of `n` through this window.
    pub open spec fn spec_grad(self, k: int, n: int) -> GradKey {
        spec_grad_of(self.view_rows(), self.n_layers as int, k, n)
    }

    /// A filled window's rows are exactly the window contents of its image.
    pub proof fn lemma_window_rows(self, img: Grid<u8>, cx: int, cy: int)
        requires
            self.shape_wf(),
            self.window_of(img, cx, cy),
        ensures
            self.view_rows() == spec_window_rows(img, cx, cy, self.n_layers as int),
    {
        let a = self.view_rows();
        let b = spec_window_rows(img, cx, cy, self.n_layers as int);
        assert(a.len() == b.len());
        assert forall|i: int| 0 <= i < a.len() implies a[i] == b[i] by {
            assert(a[i] == self.pixels@[i]@);
            assert(a[i].len() == b[i].len());
            assert forall|j: int| 0 <= j < a[i].len() implies a[i][j] == b[i][j] by {
                assert(a[i][j] == self.pixels@[i]@[j]);
            }
            assert(a[i] =~= b[i]);
        }
        assert(a =~= b);
    }

    /// Reads the brightness the window holds at a sample coordinate.
    fn shade_at(&self, p: (u32, u32)) -> (r: u8)
        requires
            self.shape_wf(),
            window_has(self.view_rows(), p.0 as int, p.1 as int),
        ensures
            r as int == window_shade(self.view_rows(), p),
    {
        let row = &self.pixels[p.0 as usize];
        match row[p.1 as usize] {
            Some(v) => v,
            None => 0,
        }
    }

    /// Computes the gradient measure of direction `k` out of `n`: collect
    /// the line's valid samples, and average the brightness differences of
    /// consecutive samples over the distances between them.
    pub fn calc_grad(&self, k: u32, n: u32) -> (g: GradKey)
        requires
            self.shape_wf(),
            1 <= n,
            k <= n,
        ensures
            g == self.spec_grad(k as int, n as int),
            grad_wf(g),
    {
        let ghost pxv = self.view_rows();
        let pts = self.get_pixels_in_line(k, n);
        let ghost ptv = pts@;
        let m = pts.len();
        if m < 2 {
            return GradKey::Infinite;
        }
        let mut sum: i128 = 0;
        let mut idx: usize = 1;
        while idx < m
            invariant
                self.shape_wf(),
                pxv == self.view_rows(),
                ptv == pts@,
                ptv == spec_line_points_from(pxv, self.n_layers as int, k as int, n as int),
                forall|t: int|
                    0 <= t < ptv.len() ==> window_has(
                        pxv,
                        (#[trigger] ptv[t]).0 as int,
                        ptv[t].1 as int,
                    ),
                2 <= m == ptv.len() <= 2 * self.n_layers as int + 1,
                1 <= idx <= m,
                abs_i(sum as int) <= (idx - 1) * 255 * SCALE,
                idx as int - 1 <= 0x8000_0001,
                sum as int + spec_pair_sum(ptv, pxv, idx as int) == spec_pair_sum(ptv, pxv, 1),
            decreases m - idx,
        {
            let p = pts[idx];
            let q = pts[idx - 1];
            let sp = self.shade_at(p);
            let sq = self.shade_at(q);
            let dia: u64 = if p.0 < q.0 {
                (q.0 - p.0) as u64
            } else {
                (p.0 - q.0) as u64
            };
            let dja: u64 = if p.1 < q.1 {
                (q.1 - p.1) as u64
            } else {
                (p.1 - q.1) as u64
            };
            proof {
                assert(window_has(pxv, p.0 as int, p.1 as int));
                assert(window_has(pxv, q.0 as int, q.1 as int));
                assert((p.0 as int) < 2 * self.n_layers as int + 1 && (q.0 as int) < 2
                    * self.n_layers as int + 1);
                assert(pxv[p.0 as int].len() == self.pixels@[p.0 as int]@.len());
                assert(pxv[q.0 as int].len() == self.pixels@[q.0 as int]@.len());
                assert(dia as int <= 0x8000_0001 && dja as int <= 0x8000_0001);
                lemma_mul_bound(dia as int, dia as int, 0x8000_0001, 0x8000_0001);
                lemma_mul_bound(dja as int, dja as int, 0x8000_0001, 0x8000_0001);
                assert(dia as int * dia as int + dja as int * dja as int == spec_dsq(p, q))
                    by (nonlinear_arith)
                    requires
                        dia as int == abs_i(p.0 as int - q.0 as int),
                        dja as int == abs_i(p.1 as int - q.1 as int),
                ;
                lemma_mul_bound(SCALE as int, SCALE as int, SCALE as int, SCALE as int);
            }
            let dsq: u64 = dia * dia + dja * dja;
            let s2: u64 = (SCALE as u64) * (SCALE as u64);
            let qinv: u64;
            if dsq == 0 {
                qinv = 0;
            } else {
                proof {
                    lemma_div_bound(s2 as int, dsq as int, s2 as int, 1);
                }
                qinv = isqrt(s2 / dsq);
            }
            proof {
                assert(qinv as int == spec_inv_dist(spec_dsq(p, q)));
                lemma_inv_dist_bound(spec_dsq(p, q));
            }
            let ds: i64 = sp as i64 - sq as i64;
            proof {
                assert(abs_i(ds as int * qinv as int) <= 255 * SCALE) by (nonlinear_arith)
                    requires
                        -255 <= ds as int <= 255,
                        0 <= qinv as int <= SCALE as int,
                ;
                assert((idx as int) * 255 * SCALE == (idx as int - 1) * 255 * SCALE + 255 * SCALE)
                    by (nonlinear_arith);
                assert((idx as int) * 255 * SCALE <= 0x8000_0001 * 255 * SCALE)
                    by (nonlinear_arith)
                    requires
                        idx as int <= 0x8000_0001,
                ;
            }
            let term: i128 = (ds as i128) * (qinv as i128);
            sum = sum + term;
            idx = idx + 1;
        }
        let numu: u128 = (if sum < 0 {
            -sum
        } else {
            sum
        }) as u128;
        let pairs: u128 = (m - 1) as u128;
        proof {
            assert(spec_pair_sum(ptv, pxv, m as int) == 0);
            assert(numu as int == abs_i(spec_pair_sum(ptv, pxv, 1)));
            assert((m - 1) as int * 255 * SCALE <= 0x8000_0001 * 255 * SCALE) by (nonlinear_arith)
                requires
                    m as int - 1 <= 0x8000_0001,
            ;
        }
        GradKey::Finite(numu, pairs)
    }

    /// Finds the first direction index with the lowest gradient measure
    /// among the `n_grad_dir` candidate directions: directions are examined
    /// in increasing index order, and only a strictly smaller measure
    /// replaces the current choice.
    pub fn find_i_min_grad_dir(&self, n_grad_dir: u32) -> (r: usize)
        requires
            self.shape_wf(),
            1 <= n_grad_dir,
        ensures
            r < n_grad_dir,
            forall|j: int|
                0 <= j < n_grad_dir as int ==> grad_le(
                    self.spec_grad(r as int, n_grad_dir as int),
                    #[trigger] self.spec_grad(j, n_grad_dir as int),
                ),
            forall|j: int|
                0 <= j < r as int ==> !grad_le(
                    #[trigger] self.spec_grad(j, n_grad_dir as int),
                    self.spec_grad(r as int, n_grad_dir as int),
                ),
            grad_wf(self.spec_grad(r as int, n_grad_dir as int)),
    {
        let mut best: usize = 0;
        let mut best_key = self.calc_grad(0, n_grad_dir);
        let mut k: u32 = 1;
        while k < n_grad_dir
            invariant
                self.shape_wf(),
                1 <= n_grad_dir,
                1 <= k <= n_grad_dir,
                best < k,
                best_key == self.spec_grad(best as int, n_grad_dir as int),
                grad_wf(best_key),
                forall|j: int|
                    0 <= j < k as int ==> grad_wf(#[trigger] self.spec_grad(j, n_grad_dir as int)),
                forall|j: int|
                    0 <= j < k as int ==> grad_le(
                        best_key,
                        #[trigger] self.spec_grad(j, n_grad_dir as int),
                    ),
                forall|j: int|
                    0 <= j < best as int ==> !grad_le(
                        #[trigger] self.spec_grad(j, n_grad_dir as int),
                        best_key,
                    ),
            decreases n_grad_dir - k,
        {
            let cand = self.calc_grad(k, n_grad_dir);
            if grad_lt(cand, best_key) {
                proof {
                    assert forall|j: int| 0 <= j < k as int implies grad_le(
                        cand,
                        #[trigger] self.spec_grad(j, n_grad_dir as int),
                    ) by {
                        lemma_grad_le_trans(cand, best_key, self.spec_grad(j, n_grad_dir as int));
                    }
                    assert forall|j: int| 0 <= j < k as int implies !grad_le(
                        #[trigger] self.spec_grad(j, n_grad_dir as int),
                        cand,
                    ) by {
                        if grad_le(self.spec_grad(j, n_grad_dir as int), cand) {
                            lemma_grad_le_trans(
                                best_key,
                                self.spec_grad(j, n_grad_dir as int),
                                cand,
                            );
                        }
                    }
                }
                best = k as usize;
                best_key = cand;
            }
            k = k + 1;
        }
        best
    }
}

} // verus!
