//! Shade regions: maximal 4-connected clusters of pixels that share one
//! quantized shade index. Segmentation claims pixels with an allocation grid
//! and grows each region by wavefront expansion from a seed, in raster order.

use vstd::prelude::*;

use crate::grid::Grid;
use crate::trig::{abs_i, spec_doubled_vec, SCALE};
use crate::StrokeDirection;

verus! {

/// Two coordinates are 4-adjacent: one step apart horizontally or vertically.
pub open spec fn adj4(a: (u32, u32), b: (u32, u32)) -> bool {
    ||| (a.0 == b.0 && (a.1 + 1 == b.1 || b.1 + 1 == a.1))
    ||| (a.1 == b.1 && (a.0 + 1 == b.0 || b.0 + 1 == a.0))
}

/// Coordinate `coords[i]` is 4-adjacent to some earlier coordinate of the
/// sequence. Holding this for every `i >= 1` makes the sequence 4-connected:
/// a chain of adjacencies links each coordinate back to the first.
pub open spec fn linked_to_earlier(coords: Seq<(u32, u32)>, i: int) -> bool {
    exists|j: int| 0 <= j < i && adj4(coords[j], coords[i])
}

/// `c` is 4-adjacent to one of `coords[lo..hi]`.
pub open spec fn adj_to_slice(coords: Seq<(u32, u32)>, lo: int, hi: int, c: (u32, u32)) -> bool {
    exists|j: int| lo <= j < hi && adj4(coords[j], c)
}

/// `c` occurs in the sequence after the seed entry.
pub open spec fn found_after_seed(coords: Seq<(u32, u32)>, c: (u32, u32)) -> bool {
    exists|t: int| 1 <= t < coords.len() && coords[t] == c
}

/// The candidate cell `(cx, cy)` as a sequence: kept exactly when it lies
/// inside the grid, carries the wanted shade index, and is still unclaimed.
pub open spec fn spec_neighbor_pick(
    cx: int,
    cy: int,
    shades: Grid<u8>,
    i_shade: u8,
    alloc: Grid<bool>,
) -> Seq<(u32, u32)> {
    if 0 <= cx < shades.width as int && 0 <= cy < shades.height as int && shades.at(cx, cy)
        == i_shade && !alloc.at(cx, cy) {
        seq![(cx as u32, cy as u32)]
    } else {
        Seq::empty()
    }
}

/// Exactly what collecting a cell's neighbors returns: its fresh matching
/// 4-neighbors, in the order left, right, up, down.
pub open spec fn spec_found_neighbors(
    c: (u32, u32),
    shades: Grid<u8>,
    i_shade: u8,
    alloc: Grid<bool>,
) -> Seq<(u32, u32)> {
    spec_neighbor_pick(c.0 - 1, c.1 as int, shades, i_shade, alloc) + spec_neighbor_pick(
        c.0 + 1,
        c.1 as int,
        shades,
        i_shade,
        alloc,
    ) + spec_neighbor_pick(c.0 as int, c.1 - 1, shades, i_shade, alloc) + spec_neighbor_pick(
        c.0 as int,
        c.1 + 1,
        shades,
        i_shade,
        alloc,
    )
}

/// The coordinate names a cell of the grid.
pub open spec fn coord_in_range<T: Copy>(g: Grid<T>, c: (u32, u32)) -> bool {
    g.in_range(c.0 as int, c.1 as int)
}

/// The shade stored at a coordinate.
pub open spec fn coord_at(g: Grid<u8>, c: (u32, u32)) -> u8 {
    g.at(c.0 as int, c.1 as int)
}

/// Whether the allocation grid has claimed a coordinate.
pub open spec fn coord_claimed(g: Grid<bool>, c: (u32, u32)) -> bool {
    g.at(c.0 as int, c.1 as int)
}

/// Number of unclaimed cells in an allocation sequence; segmentation's
/// termination measure.
pub open spec fn count_unclaimed(s: Seq<bool>) -> nat
    decreases s.len(),
{
    if s.len() == 0 {
        0
    } else {
        count_unclaimed(s.drop_last()) + if s.last() {
            0nat
        } else {
            1nat
        }
    }
}

/// Claiming an unclaimed cell lowers the unclaimed count by one.
pub proof fn lemma_count_unclaimed_update(s: Seq<bool>, i: int)
    requires
        0 <= i < s.len(),
        !s[i],
    ensures
        count_unclaimed(s.update(i, true)) + 1 == count_unclaimed(s),
    decreases s.len(),
{
    let t = s.update(i, true);
    if i == s.len() - 1 {
        assert(t.drop_last() =~= s.drop_last());
    } else {
        assert(t.drop_last() =~= s.drop_last().update(i, true));
        lemma_count_unclaimed_update(s.drop_last(), i);
        assert(t.last() == s.last());
    }
}

/// `c` belongs to at least one of the regions.
pub open spec fn in_some_region(regions: Seq<ShadeRegion>, c: (u32, u32)) -> bool {
    exists|k: int| 0 <= k < regions.len() && (#[trigger] regions[k]).has(c)
}

/// Membership in a concatenation is membership in either part.
pub proof fn lemma_contains_concat<A>(s: Seq<A>, t: Seq<A>, c: A)
    ensures
        (s + t).contains(c) <==> s.contains(c) || t.contains(c),
{
    if (s + t).contains(c) {
        let i = choose|i: int| 0 <= i < (s + t).len() && (s + t)[i] == c;
        if i < s.len() {
            assert(s[i] == c);
        } else {
            assert(t[i - s.len()] == c);
        }
    }
    if s.contains(c) {
        let i = choose|i: int| 0 <= i < s.len() && s[i] == c;
        assert((s + t)[i] == c);
    }
    if t.contains(c) {
        let i = choose|i: int| 0 <= i < t.len() && t[i] == c;
        assert((s + t)[s.len() + i] == c);
    }
}

/// A nonempty candidate pick holds exactly its candidate cell.
proof fn lemma_pick_entry(
    cx: int,
    cy: int,
    shades: Grid<u8>,
    i_shade: u8,
    a: Grid<bool>,
    t: int,
)
    requires
        0 <= t < spec_neighbor_pick(cx, cy, shades, i_shade, a).len(),
    ensures
        t == 0,
        0 <= cx < shades.width as int,
        0 <= cy < shades.height as int,
        spec_neighbor_pick(cx, cy, shades, i_shade, a)[t] == (cx as u32, cy as u32),
{
}

/// A candidate pick reads the allocation grid only at its own cell: two
/// grids that differ only by claims of other cells pick alike.
proof fn lemma_pick_stable(
    v: Seq<(u32, u32)>,
    cand: (u32, u32),
    shades: Grid<u8>,
    i_shade: u8,
    a0: Grid<bool>,
    pre: Grid<bool>,
)
    requires
        forall|c: (u32, u32)|
            coord_in_range(shades, c) ==> (coord_claimed(pre, c) <==> coord_claimed(a0, c)
                || v.contains(c)),
        !v.contains(cand),
    ensures
        spec_neighbor_pick(cand.0 as int, cand.1 as int, shades, i_shade, pre)
            == spec_neighbor_pick(cand.0 as int, cand.1 as int, shades, i_shade, a0),
{
    if coord_in_range(shades, cand) {
        assert(coord_claimed(pre, cand) <==> coord_claimed(a0, cand));
    }
}

/// After one wavefront round, the grown region `cur` (the round-start region
/// `s0` extended by the freshly claimed batch `tp`) satisfies the wavefront
/// loop's invariant again: it is well formed, its members are claimed, and
/// the claims grew by exactly its members found after the seed.
proof fn lemma_round_reestablish(
    cur: ShadeRegion,
    s0: ShadeRegion,
    shades: Grid<u8>,
    e0: Grid<bool>,
    r0: Grid<bool>,
    a: Grid<bool>,
    tp: Seq<(u32, u32)>,
    first: int,
)
    requires
        shades.wf(),
        s0.wf(shades),
        cur.coords@ == s0.coords@ + tp,
        cur.i_shade == s0.i_shade,
        0 <= first <= s0.coords@.len(),
        // the round claimed exactly the batch
        forall|c: (u32, u32)|
            coord_in_range(shades, c) ==> (coord_claimed(a, c) <==> coord_claimed(r0, c)
                || tp.contains(c)),
        // batch entries are fresh matching cells adjacent to the frontier
        forall|t: int|
            0 <= t < tp.len() ==> {
                &&& coord_in_range(shades, #[trigger] tp[t])
                &&& coord_at(shades, tp[t]) == s0.i_shade
                &&& !coord_claimed(r0, tp[t])
            },
        forall|t: int, u: int| 0 <= t < u < tp.len() ==> tp[t] != tp[u],
        forall|t: int|
            0 <= t < tp.len() ==> adj_to_slice(
                s0.coords@,
                first,
                s0.coords@.len() as int,
                #[trigger] tp[t],
            ),
        // round-start members were claimed then and still are
        forall|i: int|
            0 <= i < s0.coords@.len() ==> coord_claimed(r0, #[trigger] s0.coords@[i]),
        forall|i: int|
            0 <= i < s0.coords@.len() ==> coord_claimed(a, #[trigger] s0.coords@[i]),
        // the claims at round start grew from the entry claims by the members
        forall|c: (u32, u32)|
            coord_in_range(shades, c) ==> (coord_claimed(r0, c) <==> coord_claimed(e0, c)
                || found_after_seed(s0.coords@, c)),
        forall|t: int|
            1 <= t < s0.coords@.len() ==> !coord_claimed(e0, #[trigger] s0.coords@[t]),
    ensures
        cur.wf(shades),
        forall|i: int|
            0 <= i < cur.coords@.len() ==> coord_claimed(a, #[trigger] cur.coords@[i]),
        forall|c: (u32, u32)|
            coord_in_range(shades, c) ==> (coord_claimed(a, c) <==> coord_claimed(e0, c)
                || found_after_seed(cur.coords@, c)),
        forall|t: int|
            1 <= t < cur.coords@.len() ==> !coord_claimed(e0, #[trigger] cur.coords@[t]),
{
    let n0 = s0.coords@.len() as int;
    assert(cur.coords@.len() == n0 + tp.len());
    assert(cur.coords@.len() >= 1);
    assert forall|i: int| 0 <= i < cur.coords@.len() implies coord_in_range(
        shades,
        #[trigger] cur.coords@[i],
    ) && coord_at(shades, cur.coords@[i]) == cur.i_shade && coord_claimed(
        a,
        cur.coords@[i],
    ) by {
        if i < n0 {
            assert(cur.coords@[i] == s0.coords@[i]);
        } else {
            assert(cur.coords@[i] == tp[i - n0]);
            assert(tp.contains(tp[i - n0]));
        }
    }
    assert forall|i: int, j: int| 0 <= i < j < cur.coords@.len() implies cur.coords@[i]
        != cur.coords@[j] by {
        if i < n0 && j >= n0 {
            assert(cur.coords@[i] == s0.coords@[i]);
            assert(cur.coords@[j] == tp[j - n0]);
            assert(coord_claimed(r0, s0.coords@[i]));
            assert(!coord_claimed(r0, tp[j - n0]));
        } else if i >= n0 {
            assert(cur.coords@[i] == tp[i - n0]);
            assert(cur.coords@[j] == tp[j - n0]);
        } else {
            assert(cur.coords@[i] == s0.coords@[i]);
            assert(cur.coords@[j] == s0.coords@[j]);
        }
    }
    assert forall|i: int| 1 <= i < cur.coords@.len() implies linked_to_earlier(
        cur.coords@,
        i,
    ) by {
        if i < n0 {
            assert(cur.coords@[i] == s0.coords@[i]);
            assert(linked_to_earlier(s0.coords@, i));
            let j = choose|j: int| 0 <= j < i && adj4(s0.coords@[j], s0.coords@[i]);
            assert(cur.coords@[j] == s0.coords@[j]);
            assert(0 <= j < i && adj4(cur.coords@[j], cur.coords@[i]));
        } else {
            assert(cur.coords@[i] == tp[i - n0]);
            assert(adj_to_slice(s0.coords@, first, n0, tp[i - n0]));
            let j = choose|j: int| first <= j < n0 && adj4(s0.coords@[j], tp[i - n0]);
            assert(cur.coords@[j] == s0.coords@[j]);
            assert(0 <= j < i && adj4(cur.coords@[j], cur.coords@[i]));
        }
    }
    assert forall|c: (u32, u32)| coord_in_range(shades, c) implies (coord_claimed(a, c)
        <==> coord_claimed(e0, c) || found_after_seed(cur.coords@, c)) by {
        if coord_claimed(a, c) {
            if coord_claimed(r0, c) {
                if !coord_claimed(e0, c) {
                    assert(found_after_seed(s0.coords@, c));
                    let t = choose|t: int| 1 <= t < n0 && s0.coords@[t] == c;
                    assert(cur.coords@[t] == c);
                    assert(found_after_seed(cur.coords@, c));
                }
            } else {
                let t = choose|t: int| 0 <= t < tp.len() && tp[t] == c;
                assert(cur.coords@[n0 + t] == c);
                assert(n0 + t >= 1);
                assert(found_after_seed(cur.coords@, c));
            }
        }
        if coord_claimed(e0, c) {
            assert(coord_claimed(r0, c));
            assert(coord_claimed(a, c));
        }
        if found_after_seed(cur.coords@, c) {
            let t = choose|t: int| 1 <= t < cur.coords@.len() && cur.coords@[t] == c;
            if t < n0 {
                assert(s0.coords@[t] == c);
                assert(found_after_seed(s0.coords@, c));
                assert(coord_claimed(r0, c));
                assert(coord_claimed(a, c));
            } else {
                assert(tp[t - n0] == c);
                assert(tp.contains(c));
                assert(coord_claimed(a, c));
            }
        }
    }
    assert forall|t: int| 1 <= t < cur.coords@.len() implies !coord_claimed(
        e0,
        #[trigger] cur.coords@[t],
    ) by {
        if t < n0 {
            assert(cur.coords@[t] == s0.coords@[t]);
        } else {
            assert(cur.coords@[t] == tp[t - n0]);
            assert(!coord_claimed(r0, tp[t - n0]));
            if coord_claimed(e0, tp[t - n0]) {
                assert(coord_claimed(r0, tp[t - n0]));
            }
        }
    }
}

/// A maximal 4-connected cluster of pixels sharing one shade index, in the
/// order the wavefront discovered them, together with the direction its
/// stripes will take.
pub struct ShadeRegion {
    /// Coordinates of the member pixels, in discovery order.
    pub coords: Vec<(u32, u32)>,
    /// The shade index shared by every member pixel.
    pub i_shade: u8,
    /// Aggregated stripe direction; set once by the direction aggregator.
    pub direction: StrokeDirection,
}

impl ShadeRegion {
    /// The coordinate is a member of this region.
    pub open spec fn has(self, c: (u32, u32)) -> bool {
        self.coords@.contains(c)
    }

    /// The region is consistent with a shade grid: nonempty, in bounds,
    /// monochromatic, duplicate-free, and 4-connected. Connectivity is stated
    /// in discovery order: every member after the seed is 4-adjacent to some
    /// earlier member, so a path inside the region links each member to the
    /// seed.
    pub open spec fn wf(self, shades: Grid<u8>) -> bool {
        &&& self.coords@.len() >= 1
        &&& forall|i: int|
            0 <= i < self.coords@.len() ==> coord_in_range(shades, #[trigger] self.coords@[i])
        &&& forall|i: int|
            0 <= i < self.coords@.len() ==> coord_at(shades, #[trigger] self.coords@[i])
                == self.i_shade
        &&& forall|i: int, j: int|
            0 <= i < j < self.coords@.len() ==> self.coords@[i] != self.coords@[j]
        &&& forall|i: int| 1 <= i < self.coords@.len() ==> linked_to_earlier(self.coords@, i)
    }

    /// The region is maximal: every in-bounds 4-neighbor of a member that
    /// carries the region's shade index is itself a member.
    pub open spec fn closed(self, shades: Grid<u8>) -> bool {
        forall|i: int, c: (u32, u32)|
            0 <= i < self.coords@.len() && coord_in_range(shades, c) && #[trigger] adj4(
                self.coords@[i],
                c,
            ) && coord_at(shades, c) == self.i_shade ==> self.has(c)
    }

    /// Running state of one `find_neighbors` call: relative to the allocation
    /// grid `a0` it started from, the grid `a` has claimed exactly the fresh
    /// matching neighbors of `refc` collected so far in `v`.
    pub open spec fn claim_inv(
        self,
        refc: (u32, u32),
        shades: Grid<u8>,
        a0: Grid<bool>,
        a: Grid<bool>,
        v: Seq<(u32, u32)>,
    ) -> bool {
        &&& a.wf()
        &&& a.width == shades.width
        &&& a.height == shades.height
        &&& forall|c: (u32, u32)|
            coord_in_range(shades, c) ==> (coord_claimed(a, c) <==> coord_claimed(a0, c)
                || v.contains(c))
        &&& forall|t: int|
            0 <= t < v.len() ==> {
                &&& coord_in_range(shades, #[trigger] v[t])
                &&& coord_at(shades, v[t]) == self.i_shade
                &&& adj4(refc, v[t])
                &&& !coord_claimed(a0, v[t])
            }
        &&& forall|t: int, u: int| 0 <= t < u < v.len() ==> v[t] != v[u]
        &&& count_unclaimed(a.data@) + v.len() == count_unclaimed(a0.data@)
    }

    /// Claims the unclaimed in-bounds 4-neighbors of `ref_coords` whose shade
    /// index matches the region's, and returns exactly them, in the order
    /// left, right, up, down.
    pub fn find_neighbors(
        &self,
        ref_coords: &(u32, u32),
        shades: &Grid<u8>,
        alloc: &mut Grid<bool>,
    ) -> (added: Vec<(u32, u32)>)
        requires
            shades.wf(),
            old(alloc).wf(),
            old(alloc).width == shades.width,
            old(alloc).height == shades.height,
            coord_in_range(*shades, *ref_coords),
        ensures
            final(alloc).wf(),
            final(alloc).width == shades.width,
            final(alloc).height == shades.height,
            // claiming flips exactly the returned coordinates
            forall|c: (u32, u32)|
                coord_in_range(*shades, c) ==> (coord_claimed(*final(alloc), c) <==> coord_claimed(
                    *old(alloc),
                    c,
                ) || added@.contains(c)),
            // every returned coordinate is a fresh matching neighbor
            forall|t: int|
                0 <= t < added@.len() ==> {
                    &&& coord_in_range(*shades, #[trigger] added@[t])
                    &&& coord_at(*shades, added@[t]) == self.i_shade
                    &&& adj4(*ref_coords, added@[t])
                    &&& !coord_claimed(*old(alloc), added@[t])
                },
            forall|t: int, u: int| 0 <= t < u < added@.len() ==> added@[t] != added@[u],
            // afterwards, every matching neighbor of the reference is claimed
            forall|c: (u32, u32)|
                coord_in_range(*shades, c) && adj4(*ref_coords, c) && coord_at(*shades, c)
                    == self.i_shade ==> coord_claimed(*final(alloc), c),
            count_unclaimed(final(alloc).data@) + added@.len() == count_unclaimed(
                old(alloc).data@,
            ),
            // and they come in the fixed candidate order: left, right, up, down
            added@ == spec_found_neighbors(*ref_coords, *shades, self.i_shade, *old(alloc)),
    {
        let x = ref_coords.0;
        let y = ref_coords.1;
        let ghost a0 = *alloc;
        let ghost p1 = spec_neighbor_pick(x - 1, y as int, *shades, self.i_shade, a0);
        let ghost p2 = spec_neighbor_pick(x + 1, y as int, *shades, self.i_shade, a0);
        let ghost p3 = spec_neighbor_pick(x as int, y - 1, *shades, self.i_shade, a0);
        let ghost p4 = spec_neighbor_pick(x as int, y + 1, *shades, self.i_shade, a0);
        let mut added: Vec<(u32, u32)> = Vec::new();
        if x > 0 {
            self.claim_neighbor(x - 1, y, shades, alloc, &mut added, Ghost(a0), Ghost(*ref_coords));
        }
        proof {
            assert(added@ =~= p1);
        }
        if x + 1 < shades.width {
            let ghost pre = *alloc;
            self.claim_neighbor(x + 1, y, shades, alloc, &mut added, Ghost(a0), Ghost(*ref_coords));
            proof {
                assert(!p1.contains((((x + 1) as u32), y))) by {
                    if p1.contains((((x + 1) as u32), y)) {
                        let t = choose|t: int| 0 <= t < p1.len() && p1[t] == (((x + 1) as u32), y);
                        lemma_pick_entry(x - 1, y as int, *shades, self.i_shade, a0, t);
                    }
                }
                lemma_pick_stable(p1, (((x + 1) as u32), y), *shades, self.i_shade, a0, pre);
            }
        }
        proof {
            assert(added@ =~= p1 + p2);
        }
        if y > 0 {
            let ghost pre = *alloc;
            self.claim_neighbor(x, y - 1, shades, alloc, &mut added, Ghost(a0), Ghost(*ref_coords));
            proof {
                assert(!(p1 + p2).contains((x, ((y - 1) as u32)))) by {
                    lemma_contains_concat(p1, p2, (x, ((y - 1) as u32)));
                    if p1.contains((x, ((y - 1) as u32))) {
                        let t = choose|t: int| 0 <= t < p1.len() && p1[t] == (x, ((y - 1) as u32));
                        lemma_pick_entry(x - 1, y as int, *shades, self.i_shade, a0, t);
                    }
                    if p2.contains((x, ((y - 1) as u32))) {
                        let t = choose|t: int| 0 <= t < p2.len() && p2[t] == (x, ((y - 1) as u32));
                        lemma_pick_entry(x + 1, y as int, *shades, self.i_shade, a0, t);
                    }
                }
                lemma_pick_stable(p1 + p2, (x, ((y - 1) as u32)), *shades, self.i_shade, a0, pre);
            }
        }
        proof {
            assert(added@ =~= p1 + p2 + p3);
        }
        if y + 1 < shades.height {
            let ghost pre = *alloc;
            self.claim_neighbor(x, y + 1, shades, alloc, &mut added, Ghost(a0), Ghost(*ref_coords));
            proof {
                assert(!(p1 + p2 + p3).contains((x, ((y + 1) as u32)))) by {
                    lemma_contains_concat(p1 + p2, p3, (x, ((y + 1) as u32)));
                    lemma_contains_concat(p1, p2, (x, ((y + 1) as u32)));
                    if p1.contains((x, ((y + 1) as u32))) {
                        let t = choose|t: int| 0 <= t < p1.len() && p1[t] == (x, ((y + 1) as u32));
                        lemma_pick_entry(x - 1, y as int, *shades, self.i_shade, a0, t);
                    }
                    if p2.contains((x, ((y + 1) as u32))) {
                        let t = choose|t: int| 0 <= t < p2.len() && p2[t] == (x, ((y + 1) as u32));
                        lemma_pick_entry(x + 1, y as int, *shades, self.i_shade, a0, t);
                    }
                    if p3.contains((x, ((y + 1) as u32))) {
                        let t = choose|t: int| 0 <= t < p3.len() && p3[t] == (x, ((y + 1) as u32));
                        lemma_pick_entry(x as int, y - 1, *shades, self.i_shade, a0, t);
                    }
                }
                lemma_pick_stable(p1 + p2 + p3, (x, ((y + 1) as u32)), *shades, self.i_shade, a0, pre);
            }
        }
        proof {
            assert(added@ =~= p1 + p2 + p3 + p4);
            assert forall|c: (u32, u32)|
                coord_in_range(*shades, c) && adj4(*ref_coords, c) && coord_at(*shades, c)
                    == self.i_shade implies coord_claimed(*alloc, c) by {
                assert(c.0 == x - 1 && c.1 == y || c.0 == x + 1 && c.1 == y || c.0 == x && c.1 == y
                    - 1 || c.0 == x && c.1 == y + 1);
            }
        }
        added
    }

    /// Grows the region from its seed coordinate by wavefront expansion:
    /// each round claims every unclaimed matching 4-neighbor of the previous
    /// round's coordinates and appends them, until a round adds nothing. On
    /// return the region is well formed and every matching neighbor of every
    /// member is claimed; together with the claims of the finished regions
    /// this makes the region maximal.
    pub fn find_all_coords(&mut self, shades: &Grid<u8>, alloc: &mut Grid<bool>)
        requires
            shades.wf(),
            old(alloc).wf(),
            old(alloc).width == shades.width,
            old(alloc).height == shades.height,
            old(self).coords@.len() == 1,
            coord_in_range(*shades, old(self).coords@[0]),
            coord_at(*shades, old(self).coords@[0]) == old(self).i_shade,
            coord_claimed(*old(alloc), old(self).coords@[0]),
        ensures
            final(alloc).wf(),
            final(alloc).width == shades.width,
            final(alloc).height == shades.height,
            final(self).i_shade == old(self).i_shade,
            final(self).direction == old(self).direction,
            final(self).coords@.len() >= 1,
            final(self).coords@[0] == old(self).coords@[0],
            final(self).wf(*shades),
            // every matching neighbor of every member ends up claimed
            forall|i: int, c: (u32, u32)|
                0 <= i < final(self).coords@.len() && coord_in_range(*shades, c) && #[trigger] adj4(
                    final(self).coords@[i],
                    c,
                ) && coord_at(*shades, c) == final(self).i_shade ==> coord_claimed(
                    *final(alloc),
                    c,
                ),
            // the claims grew by exactly the members found after the seed
            forall|c: (u32, u32)|
                coord_in_range(*shades, c) ==> (coord_claimed(*final(alloc), c) <==> coord_claimed(
                    *old(alloc),
                    c,
                ) || found_after_seed(final(self).coords@, c)),
            // those members were unclaimed when the call began
            forall|t: int|
                1 <= t < final(self).coords@.len() ==> !coord_claimed(
                    *old(alloc),
                    #[trigger] final(self).coords@[t],
                ),
    {
        let ghost e0 = *old(alloc);
        let ghost seed = old(self).coords@[0];
        let mut n_to_check: usize = 1;
        while n_to_check > 0
            invariant
                shades.wf(),
                alloc.wf(),
                alloc.width == shades.width,
                alloc.height == shades.height,
                self.i_shade == old(self).i_shade,
                self.direction == old(self).direction,
                1 <= n_to_check <= self.coords@.len() || n_to_check == 0,
                self.coords@.len() >= 1,
                self.coords@[0] == seed,
                self.wf(*shades),
                forall|i: int|
                    0 <= i < self.coords@.len() ==> coord_claimed(
                        *alloc,
                        #[trigger] self.coords@[i],
                    ),
                forall|i: int, c: (u32, u32)|
                    0 <= i < self.coords@.len() - n_to_check && coord_in_range(*shades, c)
                        && #[trigger] adj4(self.coords@[i], c) && coord_at(*shades, c)
                        == self.i_shade ==> coord_claimed(*alloc, c),
                forall|c: (u32, u32)|
                    coord_in_range(*shades, c) ==> (coord_claimed(*alloc, c) <==> coord_claimed(
                        e0,
                        c,
                    ) || found_after_seed(self.coords@, c)),
                forall|t: int|
                    1 <= t < self.coords@.len() ==> !coord_claimed(
                        e0,
                        #[trigger] self.coords@[t],
                    ),
            decreases count_unclaimed(alloc.data@), n_to_check,
        {
            let ghost r0 = *alloc;
            let ghost s0 = *self;
            let len0 = self.coords.len();
            let first = len0 - n_to_check;
            let mut to_push: Vec<(u32, u32)> = Vec::new();
            let mut idx = first;
            while idx < len0
                invariant
                    shades.wf(),
                    alloc.wf(),
                    alloc.width == shades.width,
                    alloc.height == shades.height,
                    *self == s0,
                    len0 == self.coords@.len(),
                    0 <= first <= idx <= len0,
                    self.wf(*shades),
                    // round bookkeeping: claims grew by exactly to_push
                    forall|c: (u32, u32)|
                        coord_in_range(*shades, c) ==> (coord_claimed(*alloc, c)
                            <==> coord_claimed(r0, c) || to_push@.contains(c)),
                    forall|t: int|
                        0 <= t < to_push@.len() ==> {
                            &&& coord_in_range(*shades, #[trigger] to_push@[t])
                            &&& coord_at(*shades, to_push@[t]) == self.i_shade
                            &&& !coord_claimed(r0, to_push@[t])
                        },
                    forall|t: int, u: int|
                        0 <= t < u < to_push@.len() ==> to_push@[t] != to_push@[u],
                    forall|t: int|
                        0 <= t < to_push@.len() ==> adj_to_slice(
                            self.coords@,
                            first as int,
                            idx as int,
                            #[trigger] to_push@[t],
                        ),
                    count_unclaimed(alloc.data@) + to_push@.len() == count_unclaimed(r0.data@),
                    // all members were claimed at round start and stay claimed
                    forall|i: int|
                        0 <= i < self.coords@.len() ==> coord_claimed(
                            r0,
                            #[trigger] self.coords@[i],
                        ),
                    forall|i: int|
                        0 <= i < self.coords@.len() ==> coord_claimed(
                            *alloc,
                            #[trigger] self.coords@[i],
                        ),
                    // neighbors of every member visited so far are claimed
                    forall|i: int, c: (u32, u32)|
                        0 <= i < idx && coord_in_range(*shades, c) && #[trigger] adj4(
                            self.coords@[i],
                            c,
                        ) && coord_at(*shades, c) == self.i_shade ==> coord_claimed(*alloc, c),
                decreases len0 - idx,
            {
                let c = self.coords[idx];
                let ghost a_pre = *alloc;
                let ghost tp_pre = to_push@;
                let mut new = self.find_neighbors(&c, shades, alloc);
                let ghost new_seq = new@;
                to_push.append(&mut new);
                proof {
                    assert(to_push@ == tp_pre + new_seq);
                    assert forall|c2: (u32, u32)| #[trigger]
                        to_push@.contains(c2) implies tp_pre.contains(c2) || new_seq.contains(
                        c2,
                    ) by {
                        lemma_contains_concat(tp_pre, new_seq, c2);
                    }
                    assert forall|c2: (u32, u32)|
                        tp_pre.contains(c2) || new_seq.contains(c2) implies #[trigger] to_push@
                            .contains(c2) by {
                        lemma_contains_concat(tp_pre, new_seq, c2);
                    }
                    // fresh entries of the new batch were unclaimed at round start
                    assert forall|t: int|
                        0 <= t < new_seq.len() implies !coord_claimed(
                        r0,
                        #[trigger] new_seq[t],
                    ) by {
                        assert(!coord_claimed(a_pre, new_seq[t]));
                    }
                    // distinctness across the two batches
                    assert forall|t: int, u: int|
                        0 <= t < u < to_push@.len() implies to_push@[t] != to_push@[u] by {
                        if t < tp_pre.len() && u >= tp_pre.len() {
                            assert(to_push@[t] == tp_pre[t]);
                            assert(to_push@[u] == new_seq[u - tp_pre.len()]);
                            assert(tp_pre.contains(tp_pre[t]));
                            assert(coord_claimed(a_pre, tp_pre[t]));
                            assert(!coord_claimed(a_pre, new_seq[u - tp_pre.len()]));
                        } else if t >= tp_pre.len() {
                            assert(to_push@[t] == new_seq[t - tp_pre.len()]);
                            assert(to_push@[u] == new_seq[u - tp_pre.len()]);
                        } else {
                            assert(to_push@[t] == tp_pre[t]);
                            assert(to_push@[u] == tp_pre[u]);
                        }
                    }
                    // adjacency witnesses survive the append
                    assert forall|t: int| 0 <= t < to_push@.len() implies adj_to_slice(
                        self.coords@,
                        first as int,
                        idx as int + 1,
                        #[trigger] to_push@[t],
                    ) by {
                        if t < tp_pre.len() {
                            assert(to_push@[t] == tp_pre[t]);
                            assert(adj_to_slice(self.coords@, first as int, idx as int, tp_pre[t]));
                            let j = choose|j: int|
                                first as int <= j < idx as int && adj4(self.coords@[j], tp_pre[t]);
                            assert(j < idx as int + 1);
                            assert(adj4(self.coords@[j], to_push@[t]));
                        } else {
                            assert(to_push@[t] == new_seq[t - tp_pre.len()]);
                            let j = idx as int;
                            assert(first as int <= j);
                            assert(j < idx as int + 1);
                            assert(adj4(self.coords@[j], to_push@[t]));
                        }
                    }
                }
                idx = idx + 1;
            }
            n_to_check = to_push.len();
            let ghost tp = to_push@;
            proof {
                assert forall|t2: int| 0 <= t2 < tp.len() implies adj_to_slice(
                    s0.coords@,
                    first as int,
                    s0.coords@.len() as int,
                    #[trigger] tp[t2],
                ) by {
                    assert(adj_to_slice(self.coords@, first as int, idx as int, tp[t2]));
                    let j = choose|j: int|
                        first as int <= j < idx as int && adj4(self.coords@[j], tp[t2]);
                    assert(s0.coords@[j] == self.coords@[j]);
                    assert(j < s0.coords@.len() as int);
                    assert(adj4(s0.coords@[j], tp[t2]));
                }
                assert forall|i: int| 0 <= i < s0.coords@.len() implies coord_claimed(
                    *alloc,
                    #[trigger] s0.coords@[i],
                ) by {
                    assert(s0.coords@[i] == self.coords@[i]);
                }
            }
            let mut t: usize = 0;
            while t < to_push.len()
                invariant
                    0 <= t <= to_push@.len(),
                    to_push@ == tp,
                    self.coords@ == s0.coords@ + tp.subrange(0, t as int),
                    self.i_shade == s0.i_shade,
                    self.direction == s0.direction,
                decreases to_push@.len() - t,
            {
                let c = to_push[t];
                self.coords.push(c);
                proof {
                    assert(self.coords@ =~= s0.coords@ + tp.subrange(0, t as int + 1));
                }
                t = t + 1;
            }
            proof {
                assert(self.coords@ =~= s0.coords@ + tp);
                lemma_round_reestablish(*self, s0, *shades, e0, r0, *alloc, tp, first as int);
            }
        }
    }

    /// Claims cell `(cx, cy)` for this region if its shade matches and it is
    /// still unclaimed, recording it in `added`. `a0` is the allocation grid
    /// the enclosing `find_neighbors` call started from and `refc` its
    /// reference coordinate.
    fn claim_neighbor(
        &self,
        cx: u32,
        cy: u32,
        shades: &Grid<u8>,
        alloc: &mut Grid<bool>,
        added: &mut Vec<(u32, u32)>,
        a0: Ghost<Grid<bool>>,
        refc: Ghost<(u32, u32)>,
    )
        requires
            shades.wf(),
            shades.in_range(cx as int, cy as int),
            adj4(refc@, (cx, cy)),
            self.claim_inv(refc@, *shades, a0@, *old(alloc), (*old(added))@),
        ensures
            self.claim_inv(refc@, *shades, a0@, *final(alloc), (*final(added))@),
            coord_at(*shades, (cx, cy)) == self.i_shade ==> coord_claimed(
                *final(alloc),
                (cx, cy),
            ),
            forall|c: (u32, u32)|
                coord_in_range(*shades, c) && coord_claimed(*old(alloc), c) ==> coord_claimed(
                    *final(alloc),
                    c,
                ),
            (*final(added))@ == (*old(added))@ + spec_neighbor_pick(
                cx as int,
                cy as int,
                *shades,
                self.i_shade,
                *old(alloc),
            ),
    {
        let c = (cx, cy);
        let matches = shades.get(cx, cy) == self.i_shade;
        let claimed = alloc.get(cx, cy);
        if matches && !claimed {
            proof {
                crate::grid::lemma_cell_index_bounds(
                    shades.width as int,
                    shades.height as int,
                    cx as int,
                    cy as int,
                );
                lemma_count_unclaimed_update(
                    alloc.data@,
                    crate::grid::cell_index(shades.height as int, cx as int, cy as int),
                );
            }
            alloc.set(cx, cy, true);
            added.push(c);
            proof {
                let v0 = (*old(added))@;
                let v1 = (*added)@;
                assert(v1 == v0.push(c));
                assert forall|c2: (u32, u32)| v1.contains(c2) implies v0.contains(c2) || c2
                    == c by {
                    let t = choose|t: int| 0 <= t < v1.len() && v1[t] == c2;
                    if t < v0.len() {
                        assert(v0[t] == c2);
                    }
                }
                assert forall|c2: (u32, u32)| coord_in_range(*shades, c2) implies (coord_claimed(
                    *alloc,
                    c2,
                ) <==> coord_claimed(a0@, c2) || v1.contains(c2)) by {
                    if c2 == c {
                        assert(v1[v1.len() - 1] == c);
                        assert(v1.contains(c));
                    } else {
                        assert(v0.contains(c2) ==> v1.contains(c2)) by {
                            if v0.contains(c2) {
                                let t = choose|t: int| 0 <= t < v0.len() && v0[t] == c2;
                                assert(v1[t] == c2);
                            }
                        }
                    }
                }
            }
        }
        proof {
            let pick = spec_neighbor_pick(
                cx as int,
                cy as int,
                *shades,
                self.i_shade,
                *old(alloc),
            );
            if !coord_claimed(*old(alloc), c) && coord_at(*shades, c) == self.i_shade {
                assert(pick =~= seq![c]);
                assert((*added)@ =~= (*old(added))@ + pick);
            } else {
                assert(pick =~= Seq::<(u32, u32)>::empty());
                assert((*added)@ =~= (*old(added))@ + pick);
            }
        }
    }
}

/// A region whose members' matching neighbors are all claimed is maximal,
/// provided the claims belong either to earlier regions (each itself maximal
/// and disjoint from this one) or to the region itself.
proof fn lemma_region_closed_from_claims(
    regions: Seq<ShadeRegion>,
    current: ShadeRegion,
    shades: Grid<u8>,
    alloc: Grid<bool>,
)
    requires
        shades.wf(),
        forall|k: int|
            0 <= k < regions.len() ==> (#[trigger] regions[k]).wf(shades) && regions[k].closed(
                shades,
            ),
        current.wf(shades),
        // every claim lies in an earlier region or in the current one
        forall|c: (u32, u32)|
            coord_in_range(shades, c) && coord_claimed(alloc, c) ==> in_some_region(regions, c)
                || current.has(c),
        // the current region is disjoint from the earlier ones
        forall|k: int, c: (u32, u32)|
            0 <= k < regions.len() && #[trigger] regions[k].has(c) ==> !current.has(c),
        // every matching neighbor of a current member is claimed
        forall|i: int, c: (u32, u32)|
            0 <= i < current.coords@.len() && coord_in_range(shades, c) && #[trigger] adj4(
                current.coords@[i],
                c,
            ) && coord_at(shades, c) == current.i_shade ==> coord_claimed(alloc, c),
    ensures
        current.closed(shades),
{
    assert forall|i: int, c: (u32, u32)|
        0 <= i < current.coords@.len() && coord_in_range(shades, c) && #[trigger] adj4(
            current.coords@[i],
            c,
        ) && coord_at(shades, c) == current.i_shade implies current.has(c) by {
        let a = current.coords@[i];
        assert(coord_claimed(alloc, c));
        if !current.has(c) {
            assert(in_some_region(regions, c));
            let k = choose|k: int| 0 <= k < regions.len() && (#[trigger] regions[k]).has(c);
            let r = regions[k];
            let j = choose|j: int| 0 <= j < r.coords@.len() && r.coords@[j] == c;
            // the neighboring region carries the same shade index
            assert(coord_at(shades, r.coords@[j]) == r.i_shade);
            assert(r.i_shade == current.i_shade);
            // by its maximality, the current member would belong to it
            assert(adj4(r.coords@[j], a));
            assert(coord_in_range(shades, a));
            assert(coord_at(shades, a) == current.i_shade);
            assert(r.has(a));
            // which contradicts disjointness
            assert(current.coords@.contains(a));
            assert(false);
        }
    }
}

/// Law: two 4-adjacent pixels of equal shade index never fall into different
/// regions of a segmentation. Together with each region being monochromatic
/// and 4-connected (part of `ShadeRegion::wf`), this is what makes the
/// regions of `gen_shade_regions` maximal.
pub proof fn lemma_adjacent_same_shade_same_region(
    regions: Seq<ShadeRegion>,
    shades: Grid<u8>,
    k1: int,
    k2: int,
    c1: (u32, u32),
    c2: (u32, u32),
)
    requires
        shades.wf(),
        forall|k: int|
            0 <= k < regions.len() ==> (#[trigger] regions[k]).wf(shades) && regions[k].closed(
                shades,
            ),
        forall|ka: int, kb: int, c: (u32, u32)|
            0 <= ka < regions.len() && 0 <= kb < regions.len() && ka != kb
                && #[trigger] regions[ka].has(c) ==> !(#[trigger] regions[kb].has(c)),
        0 <= k1 < regions.len(),
        0 <= k2 < regions.len(),
        regions[k1].has(c1),
        regions[k2].has(c2),
        adj4(c1, c2),
        coord_at(shades, c1) == coord_at(shades, c2),
    ensures
        k1 == k2,
{
    let r1 = regions[k1];
    let r2 = regions[k2];
    let i1 = choose|i: int| 0 <= i < r1.coords@.len() && r1.coords@[i] == c1;
    let i2 = choose|i: int| 0 <= i < r2.coords@.len() && r2.coords@[i] == c2;
    assert(coord_at(shades, r1.coords@[i1]) == r1.i_shade);
    assert(coord_at(shades, r2.coords@[i2]) == r2.i_shade);
    assert(coord_in_range(shades, r2.coords@[i2]));
    assert(adj4(r1.coords@[i1], c2));
    assert(r1.has(c2));
    if k1 != k2 {
        assert(!regions[k2].has(c2));
        assert(false);
    }
}


/// The raster index of a coordinate: its position in the row-by-row scan of
/// a grid that is `w` cells wide.
pub open spec fn raster_index(c: (u32, u32), w: int) -> int {
    c.1 * w + c.0
}

/// Raster order agrees with the scan order: a coordinate of a lower row, or
/// of the same row and a lower column, has the smaller raster index.
pub proof fn lemma_raster_order(c1: (u32, u32), c2: (u32, u32), w: int)
    requires
        (c1.0 as int) < w,
        (c1.1 as int) < (c2.1 as int) || c1.1 == c2.1 && (c1.0 as int) < (c2.0 as int),
    ensures
        raster_index(c1, w) < raster_index(c2, w),
{
    if (c1.1 as int) < (c2.1 as int) {
        assert(c1.1 as int * w + c1.0 < c2.1 as int * w + c2.0) by (nonlinear_arith)
            requires
                (c1.0 as int) < w,
                c1.1 as int + 1 <= c2.1 as int,
                0 <= c2.0 as int,
        ;
    } else {
        assert(c1.1 as int * w == c2.1 as int * w) by (nonlinear_arith)
            requires
                c1.1 == c2.1,
        ;
    }
}

/// Total number of member coordinates across a sequence of regions.
pub open spec fn spec_total_coords(regions: Seq<ShadeRegion>) -> int
    decreases regions.len(),
{
    if regions.len() == 0 {
        0
    } else {
        regions[0].coords@.len() + spec_total_coords(regions.drop_first())
    }
}

/// The union of all the regions' member sets.
spec fn regions_coord_set(regions: Seq<ShadeRegion>) -> Set<(u32, u32)>
    decreases regions.len(),
{
    if regions.len() == 0 {
        Set::empty()
    } else {
        regions[0].coords@.to_set() + regions_coord_set(regions.drop_first())
    }
}

/// All cells of a `w x h` grid.
spec fn grid_coord_set(w: int, h: int) -> Set<(u32, u32)> {
    Set::new(|c: (u32, u32)| (c.0 as int) < w && (c.1 as int) < h)
}

/// One column of grid cells has as many members as the grid has rows.
proof fn lemma_column_set_len(x0: u32, h: int)
    requires
        0 <= h <= u32::MAX,
    ensures
        Set::new(|c: (u32, u32)| c.0 == x0 && (c.1 as int) < h).finite(),
        Set::new(|c: (u32, u32)| c.0 == x0 && (c.1 as int) < h).len() == h,
    decreases h,
{
    broadcast use vstd::set::group_set_axioms;

    let col = Set::new(|c: (u32, u32)| c.0 == x0 && (c.1 as int) < h);
    if h == 0 {
        assert(col =~= Set::empty());
    } else {
        lemma_column_set_len(x0, h - 1);
        let smaller = Set::new(|c: (u32, u32)| c.0 == x0 && (c.1 as int) < h - 1);
        assert(col =~= smaller.insert((x0, (h - 1) as u32)));
        assert(!smaller.contains((x0, (h - 1) as u32)));
    }
}

/// A `w x h` grid has exactly `w * h` cells.
proof fn lemma_grid_coord_set_len(w: int, h: int)
    requires
        0 <= w <= u32::MAX,
        0 <= h <= u32::MAX,
    ensures
        grid_coord_set(w, h).finite(),
        grid_coord_set(w, h).len() == w * h,
    decreases w,
{
    broadcast use vstd::set::group_set_axioms;

    if w == 0 {
        assert(grid_coord_set(w, h) =~= Set::empty());
        assert(0int * h == 0) by (nonlinear_arith);
    } else {
        lemma_grid_coord_set_len(w - 1, h);
        lemma_column_set_len((w - 1) as u32, h);
        let col = Set::new(|c: (u32, u32)| c.0 == (w - 1) as u32 && (c.1 as int) < h);
        assert(grid_coord_set(w, h) =~= grid_coord_set(w - 1, h) + col);
        assert(grid_coord_set(w - 1, h).disjoint(col));
        vstd::set_lib::lemma_set_disjoint_lens(grid_coord_set(w - 1, h), col);
        assert(w * h == (w - 1) * h + h) by (nonlinear_arith);
    }
}

/// Membership in the union of the regions' member sets is membership in one
/// of the regions.
proof fn lemma_regions_coord_set_contains(regions: Seq<ShadeRegion>, c: (u32, u32))
    ensures
        regions_coord_set(regions).contains(c) <==> exists|k: int|
            0 <= k < regions.len() && (#[trigger] regions[k]).has(c),
    decreases regions.len(),
{
    broadcast use vstd::set::group_set_axioms;
    broadcast use vstd::seq_lib::group_seq_properties;

    if regions.len() > 0 {
        let rest = regions.drop_first();
        lemma_regions_coord_set_contains(rest, c);
        assert(regions[0].coords@.to_set().contains(c) <==> regions[0].has(c));
        if regions_coord_set(regions).contains(c) {
            if regions[0].has(c) {
                assert(regions[0].has(c) && 0 <= 0 < regions.len());
            } else {
                let k = choose|k: int| 0 <= k < rest.len() && (#[trigger] rest[k]).has(c);
                assert(regions[k + 1].has(c));
            }
        }
        if exists|k: int| 0 <= k < regions.len() && (#[trigger] regions[k]).has(c) {
            let k = choose|k: int| 0 <= k < regions.len() && (#[trigger] regions[k]).has(c);
            if k > 0 {
                assert(rest[k - 1].has(c));
            }
        }
    }
}

/// The regions' member sets together hold one member per coordinate: with
/// duplicate-free, pairwise disjoint regions, the sizes add up.
proof fn lemma_regions_set_len(regions: Seq<ShadeRegion>)
    requires
        forall|k: int, i: int, j: int|
            #![trigger regions[k].coords@[i], regions[k].coords@[j]]
            0 <= k < regions.len() && 0 <= i < j < regions[k].coords@.len()
                ==> regions[k].coords@[i] != regions[k].coords@[j],
        forall|k1: int, k2: int, c: (u32, u32)|
            0 <= k1 < regions.len() && 0 <= k2 < regions.len() && k1 != k2
                && #[trigger] regions[k1].has(c) ==> !(#[trigger] regions[k2].has(c)),
    ensures
        regions_coord_set(regions).finite(),
        regions_coord_set(regions).len() == spec_total_coords(regions),
    decreases regions.len(),
{
    broadcast use vstd::set::group_set_axioms;
    broadcast use vstd::seq_lib::group_seq_properties;

    if regions.len() > 0 {
        let rest = regions.drop_first();
        assert forall|k: int, i: int, j: int|
            #![trigger rest[k].coords@[i], rest[k].coords@[j]]
            0 <= k < rest.len() && 0 <= i < j < rest[k].coords@.len() implies rest[k].coords@[i]
            != rest[k].coords@[j] by {
            assert(rest[k] == regions[k + 1]);
            assert(regions[k + 1].coords@[i] != regions[k + 1].coords@[j]);
        }
        assert forall|k1: int, k2: int, c: (u32, u32)|
            0 <= k1 < rest.len() && 0 <= k2 < rest.len() && k1 != k2 && #[trigger] rest[k1].has(
            c,
        ) implies !(#[trigger] rest[k2].has(c)) by {
            assert(rest[k1] == regions[k1 + 1] && rest[k2] == regions[k2 + 1]);
        }
        lemma_regions_set_len(rest);
        let head = regions[0].coords@;
        assert(head.no_duplicates());
        head.unique_seq_to_set();
        assert(head.to_set().finite());
        assert(head.to_set().disjoint(regions_coord_set(rest))) by {
            assert forall|c: (u32, u32)| head.to_set().contains(c) implies !regions_coord_set(
                rest,
            ).contains(c) by {
                lemma_regions_coord_set_contains(rest, c);
                assert(regions[0].has(c));
                if regions_coord_set(rest).contains(c) {
                    let k = choose|k: int| 0 <= k < rest.len() && (#[trigger] rest[k]).has(c);
                    assert(regions[k + 1].has(c));
                    assert(!regions[k + 1].has(c));
                }
            }
        }
        vstd::set_lib::lemma_set_disjoint_lens(head.to_set(), regions_coord_set(rest));
    }
}

/// Law: the regions of a segmentation hold exactly one member per pixel:
/// the sum of the regions' sizes is the number of grid cells. Together with
/// disjointness and cover this is the partition property in counted form.
pub proof fn lemma_partition_count(regions: Seq<ShadeRegion>, shades: Grid<u8>)
    requires
        shades.wf(),
        forall|k: int| 0 <= k < regions.len() ==> (#[trigger] regions[k]).wf(shades),
        forall|k1: int, k2: int, c: (u32, u32)|
            0 <= k1 < regions.len() && 0 <= k2 < regions.len() && k1 != k2
                && #[trigger] regions[k1].has(c) ==> !(#[trigger] regions[k2].has(c)),
        forall|c: (u32, u32)| coord_in_range(shades, c) ==> in_some_region(regions, c),
    ensures
        spec_total_coords(regions) == shades.width as int * shades.height as int,
{
    broadcast use vstd::set::group_set_axioms;

    let w = shades.width as int;
    let h = shades.height as int;
    assert forall|k: int, i: int, j: int|
        #![trigger regions[k].coords@[i], regions[k].coords@[j]]
        0 <= k < regions.len() && 0 <= i < j < regions[k].coords@.len() implies regions[k].coords@[i]
        != regions[k].coords@[j] by {
        assert(regions[k].wf(shades));
    }
    lemma_regions_set_len(regions);
    lemma_grid_coord_set_len(w, h);
    assert(regions_coord_set(regions) =~= grid_coord_set(w, h)) by {
        assert forall|c: (u32, u32)|
            regions_coord_set(regions).contains(c) implies grid_coord_set(w, h).contains(c) by {
            lemma_regions_coord_set_contains(regions, c);
            let k = choose|k: int| 0 <= k < regions.len() && (#[trigger] regions[k]).has(c);
            let i = choose|i: int|
                0 <= i < regions[k].coords@.len() && regions[k].coords@[i] == c;
            assert(coord_in_range(shades, regions[k].coords@[i]));
        }
        assert forall|c: (u32, u32)|
            grid_coord_set(w, h).contains(c) implies regions_coord_set(regions).contains(c) by {
            assert(coord_in_range(shades, c));
            assert(in_some_region(regions, c));
            lemma_regions_coord_set_contains(regions, c);
        }
    }
}

/// Climbing a region's discovery order: if some member of `r1` belongs to a
/// maximal region `r2` of the same shade index, so does `r1`'s seed.
proof fn lemma_seed_in_other(r1: ShadeRegion, r2: ShadeRegion, shades: Grid<u8>, j: int)
    requires
        shades.wf(),
        r1.wf(shades),
        r2.wf(shades),
        r2.closed(shades),
        r1.i_shade == r2.i_shade,
        0 <= j < r1.coords@.len(),
        r2.has(r1.coords@[j]),
    ensures
        r2.has(r1.coords@[0]),
    decreases j,
{
    if j > 0 {
        assert(linked_to_earlier(r1.coords@, j));
        let jp = choose|jp: int| 0 <= jp < j && adj4(r1.coords@[jp], r1.coords@[j]);
        let t = choose|t: int| 0 <= t < r2.coords@.len() && r2.coords@[t] == r1.coords@[j];
        assert(adj4(r2.coords@[t], r1.coords@[jp]));
        assert(coord_in_range(shades, r1.coords@[jp]));
        assert(coord_at(shades, r1.coords@[jp]) == r2.i_shade);
        assert(r2.has(r1.coords@[jp]));
        lemma_seed_in_other(r1, r2, shades, jp);
    }
}

/// Descending a region's discovery order: once `r1`'s seed belongs to a
/// maximal region `r2` of the same shade index, every member does.
proof fn lemma_member_in_other(r1: ShadeRegion, r2: ShadeRegion, shades: Grid<u8>, j: int)
    requires
        shades.wf(),
        r1.wf(shades),
        r2.wf(shades),
        r2.closed(shades),
        r1.i_shade == r2.i_shade,
        0 <= j < r1.coords@.len(),
        r2.has(r1.coords@[0]),
    ensures
        r2.has(r1.coords@[j]),
    decreases j,
{
    if j > 0 {
        assert(linked_to_earlier(r1.coords@, j));
        let jp = choose|jp: int| 0 <= jp < j && adj4(r1.coords@[jp], r1.coords@[j]);
        lemma_member_in_other(r1, r2, shades, jp);
        let t = choose|t: int| 0 <= t < r2.coords@.len() && r2.coords@[t] == r1.coords@[jp];
        assert(adj4(r2.coords@[t], r1.coords@[j]));
        assert(coord_in_range(shades, r1.coords@[j]));
        assert(coord_at(shades, r1.coords@[j]) == r2.i_shade);
        assert(r2.has(r1.coords@[j]));
    }
}

/// Law: two maximal well-formed regions of one shade grid that share a
/// pixel have exactly the same members and the same shade index. The
/// partition a segmentation returns is therefore the unique one: each
/// region's member set is determined by any one of its pixels.
pub proof fn lemma_regions_coincide(
    r1: ShadeRegion,
    r2: ShadeRegion,
    shades: Grid<u8>,
    c: (u32, u32),
)
    requires
        shades.wf(),
        r1.wf(shades),
        r1.closed(shades),
        r2.wf(shades),
        r2.closed(shades),
        r1.has(c),
        r2.has(c),
    ensures
        r1.i_shade == r2.i_shade,
        forall|a: (u32, u32)| r1.has(a) <==> r2.has(a),
{
    let j1 = choose|j: int| 0 <= j < r1.coords@.len() && r1.coords@[j] == c;
    let j2 = choose|j: int| 0 <= j < r2.coords@.len() && r2.coords@[j] == c;
    assert(coord_at(shades, r1.coords@[j1]) == r1.i_shade);
    assert(coord_at(shades, r2.coords@[j2]) == r2.i_shade);
    assert(r1.i_shade == r2.i_shade);
    assert forall|a: (u32, u32)| r1.has(a) implies r2.has(a) by {
        let j = choose|j: int| 0 <= j < r1.coords@.len() && r1.coords@[j] == a;
        lemma_seed_in_other(r1, r2, shades, j1);
        lemma_member_in_other(r1, r2, shades, j);
    }
    assert forall|a: (u32, u32)| r2.has(a) implies r1.has(a) by {
        let j = choose|j: int| 0 <= j < r2.coords@.len() && r2.coords@[j] == a;
        lemma_seed_in_other(r2, r1, shades, j2);
        lemma_member_in_other(r2, r1, shades, j);
    }
}

/// Segments a quantized shade grid into its shade regions: scan the pixels
/// in raster order, and grow a region by wavefront expansion from every
/// pixel that no earlier region has claimed. The returned regions partition
/// the grid: every cell belongs to exactly one region, each region is
/// 4-connected and monochromatic, and no region can be extended by an
/// adjacent cell of equal shade index.
pub fn gen_shade_regions(shades: &Grid<u8>) -> (regions: Vec<ShadeRegion>)
    requires
        shades.wf(),
    ensures
        forall|k: int|
            0 <= k < regions@.len() ==> (#[trigger] regions@[k]).wf(*shades) && regions@[k].closed(
                *shades,
            ),
        // the regions are pairwise disjoint
        forall|k1: int, k2: int, c: (u32, u32)|
            0 <= k1 < regions@.len() && 0 <= k2 < regions@.len() && k1 != k2
                && #[trigger] regions@[k1].has(c) ==> !(#[trigger] regions@[k2].has(c)),
        // and together they cover the grid
        forall|c: (u32, u32)| coord_in_range(*shades, c) ==> in_some_region(regions@, c),
        // freshly made regions all carry the default stripe direction
        forall|k: int|
            0 <= k < regions@.len() ==> (#[trigger] regions@[k]).direction
                == (StrokeDirection { cos_fp: crate::trig::SCALE, sin_fp: 0 }),
        // the regions come in raster order of their seeds, and each seed is
        // its region's raster-first member
        forall|k1: int, k2: int|
            0 <= k1 < k2 < regions@.len() ==> raster_index(
                (#[trigger] regions@[k1]).coords@[0],
                shades.width as int,
            ) < raster_index((#[trigger] regions@[k2]).coords@[0], shades.width as int),
        forall|k: int, i: int|
            #![trigger regions@[k].coords@[i]]
            0 <= k < regions@.len() && 1 <= i < regions@[k].coords@.len() ==> raster_index(
                regions@[k].coords@[0],
                shades.width as int,
            ) < raster_index(regions@[k].coords@[i], shades.width as int),
{
    let _n: usize = shades.data.len();
    let mut alloc: Grid<bool> = Grid::filled(shades.width, shades.height, false);
    let mut regions: Vec<ShadeRegion> = Vec::new();
    let mut y: u32 = 0;
    while y < shades.height
        invariant
            shades.wf(),
            alloc.wf(),
            alloc.width == shades.width,
            alloc.height == shades.height,
            y <= shades.height,
            forall|k: int|
                0 <= k < regions@.len() ==> (#[trigger] regions@[k]).wf(*shades)
                    && regions@[k].closed(*shades),
            forall|k1: int, k2: int, c: (u32, u32)|
                0 <= k1 < regions@.len() && 0 <= k2 < regions@.len() && k1 != k2
                    && #[trigger] regions@[k1].has(c) ==> !(#[trigger] regions@[k2].has(c)),
            forall|c: (u32, u32)|
                coord_in_range(*shades, c) ==> (coord_claimed(alloc, c) <==> in_some_region(
                    regions@,
                    c,
                )),
            forall|c: (u32, u32)|
                coord_in_range(*shades, c) && c.1 < y ==> coord_claimed(alloc, c),
            forall|k: int|
                0 <= k < regions@.len() ==> (#[trigger] regions@[k]).direction
                    == (StrokeDirection { cos_fp: crate::trig::SCALE, sin_fp: 0 }),
            forall|k: int|
                0 <= k < regions@.len() ==> raster_index(
                    (#[trigger] regions@[k]).coords@[0],
                    shades.width as int,
                ) < y as int * shades.width as int,
            forall|k1: int, k2: int|
                0 <= k1 < k2 < regions@.len() ==> raster_index(
                    (#[trigger] regions@[k1]).coords@[0],
                    shades.width as int,
                ) < raster_index((#[trigger] regions@[k2]).coords@[0], shades.width as int),
            forall|k: int, i: int|
                #![trigger regions@[k].coords@[i]]
                0 <= k < regions@.len() && 1 <= i < regions@[k].coords@.len() ==> raster_index(
                    regions@[k].coords@[0],
                    shades.width as int,
                ) < raster_index(regions@[k].coords@[i], shades.width as int),
        decreases shades.height - y,
    {
        let mut x: u32 = 0;
        while x < shades.width
            invariant
                shades.wf(),
                alloc.wf(),
                alloc.width == shades.width,
                alloc.height == shades.height,
                y < shades.height,
                x <= shades.width,
                forall|k: int|
                    0 <= k < regions@.len() ==> (#[trigger] regions@[k]).wf(*shades)
                        && regions@[k].closed(*shades),
                forall|k1: int, k2: int, c: (u32, u32)|
                    0 <= k1 < regions@.len() && 0 <= k2 < regions@.len() && k1 != k2
                        && #[trigger] regions@[k1].has(c) ==> !(#[trigger] regions@[k2].has(c)),
                forall|c: (u32, u32)|
                    coord_in_range(*shades, c) ==> (coord_claimed(alloc, c) <==> in_some_region(
                        regions@,
                        c,
                    )),
                forall|c: (u32, u32)|
                    coord_in_range(*shades, c) && (c.1 < y || c.1 == y && c.0 < x)
                        ==> coord_claimed(alloc, c),
                forall|k: int|
                    0 <= k < regions@.len() ==> (#[trigger] regions@[k]).direction
                        == (StrokeDirection { cos_fp: crate::trig::SCALE, sin_fp: 0 }),
                forall|k: int|
                    0 <= k < regions@.len() ==> raster_index(
                        (#[trigger] regions@[k]).coords@[0],
                        shades.width as int,
                    ) < y as int * shades.width as int + x as int,
                forall|k1: int, k2: int|
                    0 <= k1 < k2 < regions@.len() ==> raster_index(
                        (#[trigger] regions@[k1]).coords@[0],
                        shades.width as int,
                    ) < raster_index((#[trigger] regions@[k2]).coords@[0], shades.width as int),
                forall|k: int, i: int|
                    #![trigger regions@[k].coords@[i]]
                    0 <= k < regions@.len() && 1 <= i < regions@[k].coords@.len()
                        ==> raster_index(
                        regions@[k].coords@[0],
                        shades.width as int,
                    ) < raster_index(regions@[k].coords@[i], shades.width as int),
            decreases shades.width - x,
        {
            let claimed_here = alloc.get(x, y);
            if !claimed_here {
                let ghost a0 = alloc;
                let ghost regs0 = regions@;
                let i_shade = shades.get(x, y);
                let mut coords: Vec<(u32, u32)> = Vec::new();
                coords.push((x, y));
                let mut region = ShadeRegion {
                    coords,
                    i_shade,
                    direction: StrokeDirection::zero(),
                };
                alloc.set(x, y, true);
                let ghost a1 = alloc;
                region.find_all_coords(shades, &mut alloc);
                proof {
                    let seed = (x, y);
                    let cs = region.coords@;
                    // each member is claimed, and membership explains every claim
                    assert(region.has(seed)) by {
                        assert(cs[0] == seed);
                    }
                    assert forall|c: (u32, u32)|
                        coord_in_range(*shades, c) && coord_claimed(alloc, c)
                            implies in_some_region(regs0, c) || region.has(c) by {
                        if !coord_claimed(a1, c) {
                            assert(found_after_seed(cs, c));
                            let t = choose|t: int| 1 <= t < cs.len() && cs[t] == c;
                            assert(cs.contains(c));
                        } else if c != seed {
                            assert(coord_claimed(a0, c));
                        }
                    }
                    // the new region is disjoint from the finished ones
                    assert forall|k: int, c: (u32, u32)|
                        0 <= k < regs0.len() && #[trigger] regs0[k].has(c)
                            implies !region.has(c) by {
                        if region.has(c) {
                            assert(in_some_region(regs0, c));
                            assert(coord_claimed(a0, c));
                            let t = choose|t: int| 0 <= t < cs.len() && cs[t] == c;
                            if t == 0 {
                                assert(c == seed);
                                assert(!coord_claimed(a0, seed));
                            } else {
                                assert(found_after_seed(cs, c)) by {
                                    assert(1 <= t < cs.len() && cs[t] == c);
                                }
                                assert(!coord_claimed(a1, c));
                                assert(coord_claimed(a1, c));
                            }
                            assert(false);
                        }
                    }
                    lemma_region_closed_from_claims(regs0, region, *shades, alloc);
                }
                let ghost regs_before_push = regions@;
                let ghost new_region = region;
                regions.push(region);
                proof {
                    assert forall|c: (u32, u32)| coord_in_range(*shades, c) implies (coord_claimed(
                        alloc,
                        c,
                    ) <==> in_some_region(regions@, c)) by {
                        if coord_claimed(alloc, c) {
                            if in_some_region(regs_before_push, c) {
                                let k = choose|k: int|
                                    0 <= k < regs_before_push.len() && (
                                    #[trigger] regs_before_push[k]).has(c);
                                assert(regions@[k].has(c));
                            } else {
                                assert(new_region.has(c));
                                assert(regions@[regions@.len() - 1].has(c));
                            }
                            assert(in_some_region(regions@, c));
                        }
                        if in_some_region(regions@, c) {
                            let k = choose|k: int|
                                0 <= k < regions@.len() && (#[trigger] regions@[k]).has(c);
                            if k < regs_before_push.len() {
                                assert(regs_before_push[k].has(c));
                                assert(in_some_region(regs_before_push, c));
                                assert(coord_claimed(a0, c));
                            } else {
                                assert(new_region.has(c));
                                let t = choose|t: int|
                                    0 <= t < new_region.coords@.len() && new_region.coords@[t]
                                        == c;
                                if t == 0 {
                                    assert(coord_claimed(a1, c));
                                } else {
                                    assert(found_after_seed(new_region.coords@, c)) by {
                                        assert(1 <= t < new_region.coords@.len()
                                            && new_region.coords@[t] == c);
                                    }
                                }
                            }
                            assert(coord_claimed(alloc, c));
                        }
                    }
                    assert forall|k1: int, k2: int, c: (u32, u32)|
                        0 <= k1 < regions@.len() && 0 <= k2 < regions@.len() && k1 != k2
                            && #[trigger] regions@[k1].has(c) implies !(#[trigger] regions@[k2].has(
                        c,
                    )) by {
                        if k1 < regs_before_push.len() && k2 < regs_before_push.len() {
                            assert(regs_before_push[k1].has(c));
                        } else if k1 == regs_before_push.len() {
                            assert(new_region.has(c));
                            if regs_before_push[k2].has(c) {
                                assert(false);
                            }
                        } else {
                            assert(regs_before_push[k1].has(c));
                        }
                    }
                    // the new seed extends the raster order of the region list
                    let w = shades.width as int;
                    assert(new_region.coords@[0] == (x, y));
                    assert(raster_index((x, y), w) == y as int * w + x as int);
                    assert forall|k1: int, k2: int|
                        0 <= k1 < k2 < regions@.len() implies raster_index(
                        (#[trigger] regions@[k1]).coords@[0],
                        w,
                    ) < raster_index((#[trigger] regions@[k2]).coords@[0], w) by {
                        assert(regions@[k1] == regs_before_push[k1]);
                        if k2 < regs_before_push.len() {
                            assert(regions@[k2] == regs_before_push[k2]);
                        } else {
                            assert(regions@[k2] == new_region);
                        }
                    }
                    // and it is the raster-first member of its region: every
                    // other member was unclaimed when the scan reached the seed
                    assert forall|k: int, i: int|
                        #![trigger regions@[k].coords@[i]]
                        0 <= k < regions@.len() && 1 <= i < regions@[k].coords@.len()
                            implies raster_index(regions@[k].coords@[0], w) < raster_index(
                        regions@[k].coords@[i],
                        w,
                    ) by {
                        if k < regs_before_push.len() {
                            assert(regions@[k] == regs_before_push[k]);
                        } else {
                            assert(regions@[k] == new_region);
                            let c = new_region.coords@[i];
                            assert(!coord_claimed(a1, c));
                            assert(c != (x, y)) by {
                                assert(coord_claimed(a1, (x, y)));
                            }
                            assert(!coord_claimed(a0, c));
                            assert(coord_in_range(*shades, c));
                            assert(!(c.1 < y || c.1 == y && c.0 < x));
                            lemma_raster_order((x, y), c, w);
                        }
                    }
                }
            }
            x = x + 1;
        }
        proof {
            assert((y as int + 1) * shades.width as int == y as int * shades.width as int
                + shades.width as int) by (nonlinear_arith);
        }
        y = y + 1;
    }
    regions
}

/// Truncating signed division: the quotient rounded toward zero.
pub open spec fn spec_div_trunc(a: int, b: int) -> int {
    if a >= 0 {
        a / b
    } else {
        -((-a) / b)
    }
}

/// The sum of the doubled-angle unit vectors of the field directions at the
/// coordinates from index `i` on.
pub open spec fn spec_dir_vec_sum(
    coords: Seq<(u32, u32)>,
    dirs: Grid<u32>,
    n: int,
    i: int,
) -> (int, int)
    decreases coords.len() - i,
{
    if i < 0 || i >= coords.len() {
        (0, 0)
    } else {
        let v = spec_doubled_vec(dirs.at(coords[i].0 as int, coords[i].1 as int) as int, n);
        let rest = spec_dir_vec_sum(coords, dirs, n, i + 1);
        (v.0 + rest.0, v.1 + rest.1)
    }
}

/// Each coordinate contributes at most `SCALE` per component to the sum.
pub proof fn lemma_dir_vec_sum_bound(coords: Seq<(u32, u32)>, dirs: Grid<u32>, n: int, i: int)
    requires
        0 <= i,
    ensures
        abs_i(spec_dir_vec_sum(coords, dirs, n, i).0) <= if i >= coords.len() {
            0int
        } else {
            (coords.len() - i) * SCALE
        },
        abs_i(spec_dir_vec_sum(coords, dirs, n, i).1) <= if i >= coords.len() {
            0int
        } else {
            (coords.len() - i) * SCALE
        },
    decreases coords.len() - i,
{
    if i < coords.len() {
        lemma_dir_vec_sum_bound(coords, dirs, n, i + 1);
        assert((coords.len() - i) * SCALE == SCALE + (coords.len() - i - 1) * SCALE)
            by (nonlinear_arith);
    }
}

/// The aggregated stripe direction of a set of coordinates: the mean of the
/// doubled-angle unit vectors of their field directions, folded back onto
/// the half-circle by the half-angle reconstruction.
pub open spec fn spec_region_direction(
    coords: Seq<(u32, u32)>,
    dirs: Grid<u32>,
    n: int,
) -> StrokeDirection {
    let s = spec_dir_vec_sum(coords, dirs, n, 0);
    let mx = spec_div_trunc(s.0, coords.len() as int);
    let my = spec_div_trunc(s.1, coords.len() as int);
    let d = crate::trig::spec_half_angle_dir(mx, my);
    StrokeDirection { cos_fp: d.0 as i64, sin_fp: d.1 as i64 }
}

/// Sums from index `j` past a removed position align with sums from `j + 1`
/// of the original sequence.
proof fn lemma_dir_vec_sum_tail_align(
    s: Seq<(u32, u32)>,
    dirs: Grid<u32>,
    n: int,
    t: int,
    j: int,
)
    requires
        0 <= t < s.len(),
        t <= j,
    ensures
        spec_dir_vec_sum(s.remove(t), dirs, n, j) == spec_dir_vec_sum(s, dirs, n, j + 1),
    decreases s.len() - j,
{
    s.remove_ensures(t);
    if j < s.len() - 1 {
        lemma_dir_vec_sum_tail_align(s, dirs, n, t, j + 1);
        assert(s.remove(t)[j] == s[j + 1]);
    }
}

/// Removing one coordinate takes exactly its vector out of the sum.
proof fn lemma_dir_vec_sum_remove(
    s: Seq<(u32, u32)>,
    dirs: Grid<u32>,
    n: int,
    t: int,
    i: int,
)
    requires
        0 <= i <= t < s.len(),
    ensures
        ({
            let v = spec_doubled_vec(dirs.at(s[t].0 as int, s[t].1 as int) as int, n);
            let whole = spec_dir_vec_sum(s, dirs, n, i);
            let rest = spec_dir_vec_sum(s.remove(t), dirs, n, i);
            whole.0 == v.0 + rest.0 && whole.1 == v.1 + rest.1
        }),
    decreases t - i,
{
    s.remove_ensures(t);
    if i == t {
        lemma_dir_vec_sum_tail_align(s, dirs, n, t, i);
    } else {
        assert(s.remove(t)[i] == s[i]);
        lemma_dir_vec_sum_remove(s, dirs, n, t, i + 1);
    }
}

/// Law: the summed direction vectors of a duplicate-free coordinate sequence
/// depend only on its set of members, not on their order: two duplicate-free
/// sequences with the same members have the same length and the same sum.
pub proof fn lemma_dir_vec_sum_same_members(
    s1: Seq<(u32, u32)>,
    s2: Seq<(u32, u32)>,
    dirs: Grid<u32>,
    n: int,
)
    requires
        forall|i: int, j: int| 0 <= i < j < s1.len() ==> s1[i] != s1[j],
        forall|i: int, j: int| 0 <= i < j < s2.len() ==> s2[i] != s2[j],
        forall|c: (u32, u32)| s1.contains(c) <==> s2.contains(c),
    ensures
        s1.len() == s2.len(),
        spec_dir_vec_sum(s1, dirs, n, 0) == spec_dir_vec_sum(s2, dirs, n, 0),
    decreases s1.len(),
{
    if s1.len() == 0 {
        if s2.len() > 0 {
            assert(s2.contains(s2[0]));
            assert(s1.contains(s2[0]));
        }
    } else {
        let a = s1[0];
        assert(s1.contains(a));
        assert(s2.contains(a));
        let t = choose|t: int| 0 <= t < s2.len() && s2[t] == a;
        let r1 = s1.remove(0);
        let r2 = s2.remove(t);
        s1.remove_ensures(0);
        s2.remove_ensures(t);
        // removal keeps both sequences duplicate-free
        assert forall|i: int, j: int| 0 <= i < j < r1.len() implies r1[i] != r1[j] by {
            assert(r1[i] == s1[i + 1] && r1[j] == s1[j + 1]);
        }
        assert forall|i: int, j: int| 0 <= i < j < r2.len() implies r2[i] != r2[j] by {
            if j < t {
                assert(r2[i] == s2[i] && r2[j] == s2[j]);
            } else if i >= t {
                assert(r2[i] == s2[i + 1] && r2[j] == s2[j + 1]);
            } else {
                assert(r2[i] == s2[i] && r2[j] == s2[j + 1]);
            }
        }
        // and removes exactly the shared member from both member sets
        assert forall|c: (u32, u32)| r1.contains(c) implies r2.contains(c) by {
            let i = choose|i: int| 0 <= i < r1.len() && r1[i] == c;
            assert(r1[i] == s1[i + 1]);
            assert(c != a);
            assert(s1.contains(c));
            assert(s2.contains(c));
            let j = choose|j: int| 0 <= j < s2.len() && s2[j] == c;
            assert(j != t);
            if j < t {
                assert(r2[j] == c);
            } else {
                assert(r2[j - 1] == s2[j]);
            }
        }
        assert forall|c: (u32, u32)| r2.contains(c) implies r1.contains(c) by {
            let i = choose|i: int| 0 <= i < r2.len() && r2[i] == c;
            if i < t {
                assert(r2[i] == s2[i]);
                assert(c == s2[i]);
                if i != t {
                    assert(s2[i] != s2[t] || i == t) by {
                        if i < t {
                            assert(s2[i] != s2[t]);
                        }
                    }
                }
            } else {
                assert(r2[i] == s2[i + 1]);
                assert(s2[t] != s2[i + 1]);
            }
            assert(c != a);
            assert(s2.contains(c));
            assert(s1.contains(c));
            let j = choose|j: int| 0 <= j < s1.len() && s1[j] == c;
            assert(j != 0);
            assert(r1[j - 1] == s1[j]);
        }
        lemma_dir_vec_sum_same_members(r1, r2, dirs, n);
        lemma_dir_vec_sum_remove(s1, dirs, n, 0, 0);
        lemma_dir_vec_sum_remove(s2, dirs, n, t, 0);
    }
}

/// Law: a region's aggregated direction depends only on the set of its
/// member coordinates: two duplicate-free coordinate sequences with the same
/// members aggregate to the same stripe direction.
pub proof fn lemma_region_direction_same_members(
    s1: Seq<(u32, u32)>,
    s2: Seq<(u32, u32)>,
    dirs: Grid<u32>,
    n: int,
)
    requires
        forall|i: int, j: int| 0 <= i < j < s1.len() ==> s1[i] != s1[j],
        forall|i: int, j: int| 0 <= i < j < s2.len() ==> s2[i] != s2[j],
        forall|c: (u32, u32)| s1.contains(c) <==> s2.contains(c),
    ensures
        spec_region_direction(s1, dirs, n) == spec_region_direction(s2, dirs, n),
{
    lemma_dir_vec_sum_same_members(s1, s2, dirs, n);
}

/// The summed direction vectors read the direction field only at the
/// sequence's members: two fields that agree pointwise give the same sum.
proof fn lemma_dir_vec_sum_pointwise(
    s: Seq<(u32, u32)>,
    d1: Grid<u32>,
    d2: Grid<u32>,
    n: int,
    i: int,
)
    requires
        0 <= i,
        d1.width == d2.width,
        d1.height == d2.height,
        forall|x: int, y: int| d1.in_range(x, y) ==> d1.at(x, y) == d2.at(x, y),
        forall|t: int| 0 <= t < s.len() ==> coord_in_range(d1, #[trigger] s[t]),
    ensures
        spec_dir_vec_sum(s, d1, n, i) == spec_dir_vec_sum(s, d2, n, i),
    decreases s.len() - i,
{
    if i < s.len() {
        lemma_dir_vec_sum_pointwise(s, d1, d2, n, i + 1);
        assert(coord_in_range(d1, s[i]));
    }
}

/// Law: the aggregated direction reads the direction field only at the
/// region's members: two fields that agree pointwise aggregate alike.
pub proof fn lemma_region_direction_pointwise(
    s: Seq<(u32, u32)>,
    d1: Grid<u32>,
    d2: Grid<u32>,
    n: int,
)
    requires
        d1.width == d2.width,
        d1.height == d2.height,
        forall|x: int, y: int| d1.in_range(x, y) ==> d1.at(x, y) == d2.at(x, y),
        forall|t: int| 0 <= t < s.len() ==> coord_in_range(d1, #[trigger] s[t]),
    ensures
        spec_region_direction(s, d1, n) == spec_region_direction(s, d2, n),
{
    lemma_dir_vec_sum_pointwise(s, d1, d2, n, 0);
}

/// A region's well-formedness and maximality read the shade grid only
/// pointwise: they transfer between grids that agree on every cell.
pub proof fn lemma_region_wf_transfer(r: ShadeRegion, g1: Grid<u8>, g2: Grid<u8>)
    requires
        r.wf(g2),
        r.closed(g2),
        g1.width == g2.width,
        g1.height == g2.height,
        forall|x: int, y: int| g1.in_range(x, y) ==> g1.at(x, y) == g2.at(x, y),
    ensures
        r.wf(g1),
        r.closed(g1),
{
    assert forall|i: int| 0 <= i < r.coords@.len() implies coord_in_range(
        g1,
        #[trigger] r.coords@[i],
    ) && coord_at(g1, r.coords@[i]) == r.i_shade by {
        assert(coord_in_range(g2, r.coords@[i]));
    }
    assert forall|i: int, c: (u32, u32)|
        0 <= i < r.coords@.len() && coord_in_range(g1, c) && #[trigger] adj4(r.coords@[i], c)
            && coord_at(g1, c) == r.i_shade implies r.has(c) by {
        assert(coord_in_range(g2, c));
        assert(coord_at(g2, c) == coord_at(g1, c));
    }
}

impl ShadeRegion {
    /// Aggregates the per-pixel minimum-gradient directions of this region's
    /// members into the region's one stripe direction. Each member's
    /// direction angle is doubled and taken as a unit vector, the vectors
    /// are averaged, and the mean is halved back into the direction range:
    /// doubling joins the two ends of the half-circle of directions, so
    /// that nearly-opposite angles average to a nearby angle instead of a
    /// perpendicular one.
    pub fn calc_avg_min_grad_dirs(&mut self, dirs: &Grid<u32>, n_grad_dir: u32)
        requires
            dirs.wf(),
            1 <= n_grad_dir,
            old(self).coords@.len() >= 1,
            forall|i: int|
                0 <= i < old(self).coords@.len() ==> coord_in_range(
                    *dirs,
                    #[trigger] old(self).coords@[i],
                ),
            forall|i: int|
                0 <= i < old(self).coords@.len() ==> (#[trigger] dirs.at(
                    old(self).coords@[i].0 as int,
                    old(self).coords@[i].1 as int,
                )) < n_grad_dir,
        ensures
            final(self).coords == old(self).coords,
            final(self).i_shade == old(self).i_shade,
            final(self).direction == spec_region_direction(
                old(self).coords@,
                *dirs,
                n_grad_dir as int,
            ),
            -SCALE <= final(self).direction.cos_fp <= SCALE,
            0 <= final(self).direction.sin_fp <= SCALE,
            // the aggregated direction stays inside the half-open half-circle:
            // a zero sine always comes with the full-scale cosine, angle zero
            final(self).direction.sin_fp == 0 ==> final(self).direction.cos_fp == SCALE,
    {
        let ghost cs = self.coords@;
        let len = self.coords.len();
        let mut sx: i128 = 0;
        let mut sy: i128 = 0;
        let mut i: usize = 0;
        while i < len
            invariant
                dirs.wf(),
                1 <= n_grad_dir,
                cs == self.coords@,
                self.coords@.len() == len,
                1 <= len,
                forall|i2: int| 0 <= i2 < len as int ==> coord_in_range(*dirs, #[trigger] cs[i2]),
                forall|i2: int|
                    0 <= i2 < len as int ==> (#[trigger] dirs.at(
                        cs[i2].0 as int,
                        cs[i2].1 as int,
                    )) < n_grad_dir,
                0 <= i <= len,
                abs_i(sx as int) <= i as int * SCALE,
                abs_i(sy as int) <= i as int * SCALE,
                sx as int + spec_dir_vec_sum(cs, *dirs, n_grad_dir as int, i as int).0
                    == spec_dir_vec_sum(cs, *dirs, n_grad_dir as int, 0).0,
                sy as int + spec_dir_vec_sum(cs, *dirs, n_grad_dir as int, i as int).1
                    == spec_dir_vec_sum(cs, *dirs, n_grad_dir as int, 0).1,
            decreases len - i,
        {
            let c = self.coords[i];
            let k = dirs.get(c.0, c.1);
            let v = crate::trig::doubled_dir_vec(k, n_grad_dir);
            proof {
                assert((i as int + 1) * SCALE == i as int * SCALE + SCALE) by (nonlinear_arith);
            }
            sx = sx + v.0 as i128;
            sy = sy + v.1 as i128;
            i = i + 1;
        }
        proof {
            assert(spec_dir_vec_sum(cs, *dirs, n_grad_dir as int, len as int) == (0int, 0int));
            lemma_dir_vec_sum_bound(cs, *dirs, n_grad_dir as int, 0);
            assert(abs_i(spec_dir_vec_sum(cs, *dirs, n_grad_dir as int, 0).0) <= len as int
                * SCALE);
        }
        let cnt: u128 = len as u128;
        let sxm: u128 = (if sx < 0 {
            -sx
        } else {
            sx
        }) as u128;
        let sym: u128 = (if sy < 0 {
            -sy
        } else {
            sy
        }) as u128;
        proof {
            crate::trig::lemma_mul_bound(len as int, SCALE as int, len as int, SCALE as int);
            assert(sxm as int <= len as int * SCALE);
            assert(sym as int <= len as int * SCALE);
            assert(sxm as int / (len as int) <= SCALE) by {
                assert(len as int * SCALE == SCALE as int * len) by (nonlinear_arith);
                vstd::arithmetic::div_mod::lemma_div_is_ordered(
                    sxm as int,
                    SCALE as int * len,
                    len as int,
                );
                vstd::arithmetic::div_mod::lemma_div_multiples_vanish(SCALE as int, len as int);
                assert(SCALE as int * len == len as int * SCALE) by (nonlinear_arith);
            }
            assert(sym as int / (len as int) <= SCALE) by {
                assert(len as int * SCALE == SCALE as int * len) by (nonlinear_arith);
                vstd::arithmetic::div_mod::lemma_div_is_ordered(
                    sym as int,
                    SCALE as int * len,
                    len as int,
                );
                vstd::arithmetic::div_mod::lemma_div_multiples_vanish(SCALE as int, len as int);
            }
            vstd::arithmetic::div_mod::lemma_div_pos_is_pos(sxm as int, len as int);
            vstd::arithmetic::div_mod::lemma_div_pos_is_pos(sym as int, len as int);
        }
        let mxm: u128 = sxm / cnt;
        let mym: u128 = sym / cnt;
        let mx: i64 = if sx < 0 {
            -(mxm as i64)
        } else {
            mxm as i64
        };
        let my: i64 = if sy < 0 {
            -(mym as i64)
        } else {
            mym as i64
        };
        self.direction = crate::trig::half_angle_direction(mx, my);
    }
}

} // verus!
