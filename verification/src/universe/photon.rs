//! Hash grid over the stored photons: each cell lists the photons that
//! landed in it, and a query box lists the cells it overlaps.

use vstd::prelude::*;
use crate::universe::cubical::V3;
use crate::universe::grid::{flat, coords, lemma_index_roundtrip, lemma_coords_roundtrip};

verus! {

/// The cell with grid coordinates `c` in a grid `n` cells wide, if inside.
pub open spec fn cell_of(n: int, c: V3) -> Option<usize> {
    if c.0 < n && c.1 < n && c.2 < n {
        Some(flat(n, c.0 as int, c.1 as int, c.2 as int) as usize)
    } else {
        None
    }
}

/// The cell with grid coordinates `c`, or `None` outside the grid.
pub fn cell_index(c: V3, n: usize) -> (cell: Option<usize>)
    requires
        n * n * n <= usize::MAX,
    ensures
        cell == cell_of(n as int, c),
        cell matches Some(i) ==> i < n * n * n,
{
    let (ix, iy, iz) = c;
    if ix < n && iy < n && iz < n {
        proof {
            lemma_index_roundtrip(n as int, ix as int, iy as int, iz as int);
        }
        assert(iz * n <= iz * n * n) by (nonlinear_arith)
            requires
                n > 0,
        ;
        assert(iy * n <= iz * n * n + iy * n + ix) by (nonlinear_arith);
        Some(iz * n * n + iy * n + ix)
    } else {
        None
    }
}

/// Indices, among the first `k` photons, of those whose grid coordinates
/// fall in cell `cell`, in increasing order (each cut to 32 bits).
pub open spec fn photons_in(at: Seq<V3>, n: int, cell: int, k: nat) -> Seq<u32>
    decreases k,
{
    if k == 0 {
        Seq::empty()
    } else {
        let s = photons_in(at, n, cell, (k - 1) as nat);
        if cell_of(n, at[k - 1]) == Some(cell as usize) {
            s.push((k - 1) as u32)
        } else {
            s
        }
    }
}

/// `v` is the number, cut to 32 bits, of a photon whose grid coordinates
/// lie in the grid and flatten to cell `c`.
pub open spec fn photon_in_cell(at: Seq<V3>, n: int, c: int, v: u32) -> bool {
    exists|i: int|
        0 <= i < at.len() && v == i as u32 && at[i].0 < n && at[i].1 < n && at[i].2 < n && c == at[i].2 * n * n
            + at[i].1 * n + at[i].0
}

/// Lower bound of a query box along one axis, clamped to the grid.
pub open spec fn clamp_lo(lo: isize) -> int {
    if lo < 0 {
        0
    } else {
        lo as int
    }
}

/// Upper bound of a query box along one axis, clamped to the grid.
pub open spec fn clamp_hi(hi: usize, n: int) -> int {
    if hi < n - 1 {
        hi as int
    } else {
        n - 1
    }
}

/// Grid coordinates `c` lie in the box `lo..=hi` (clamped to the grid).
pub open spec fn in_box(c: V3, lo: (isize, isize, isize), hi: (usize, usize, usize), n: int) -> bool {
    &&& clamp_lo(lo.0) <= c.0 <= clamp_hi(hi.0, n)
    &&& clamp_lo(lo.1) <= c.1 <= clamp_hi(hi.1, n)
    &&& clamp_lo(lo.2) <= c.2 <= clamp_hi(hi.2, n)
}

/// `c` comes before `(x, y, z)` with z major and x minor.
pub open spec fn before(c: V3, x: int, y: int, z: int) -> bool {
    ||| c.2 < z
    ||| c.2 == z && c.1 < y
    ||| c.2 == z && c.1 == y && c.0 < x
}

/// Cells earlier in z-major order have smaller indices.
proof fn lemma_flat_order(n: int, c: V3, x: int, y: int, z: int)
    requires
        c.0 < n,
        c.1 < n,
        c.2 < n,
        0 <= x < n,
        0 <= y < n,
        0 <= z < n,
        before(c, x, y, z),
    ensures
        flat(n, c.0 as int, c.1 as int, c.2 as int) < flat(n, x, y, z),
{
    let (a, b, d) = (c.0 as int, c.1 as int, c.2 as int);
    if d < z {
        assert(flat(n, a, b, d) < flat(n, x, y, z)) by (nonlinear_arith)
            requires
                0 <= a < n,
                0 <= b < n,
                0 <= d < z,
                0 <= x,
                0 <= y,
        ;
    } else if b < y {
        assert(flat(n, a, b, d) < flat(n, x, y, z)) by (nonlinear_arith)
            requires
                0 <= a < n,
                0 <= b < y,
                d == z,
                0 <= x,
        ;
    }
}

/// A hash grid of `grid_n`³ cells, each listing the indices of the photons in it.
pub struct PhotonGrid {
    /// Cells per side.
    pub grid_n: usize,
    /// Photon indices of each cell.
    pub cells: Vec<Vec<u32>>,
}

impl PhotonGrid {
    /// One list per cell.
    pub open spec fn wf(&self) -> bool {
        &&& self.grid_n * self.grid_n * self.grid_n <= usize::MAX
        &&& self.cells@.len() == self.grid_n * self.grid_n * self.grid_n
    }

    /// Bin the photons by the grid coordinates of their positions: photon `i`
    /// goes to the cell at `at[i]`, or nowhere when that lies outside the grid.
    pub fn bin(grid_n: usize, at: &[V3]) -> (g: PhotonGrid)
        requires
            grid_n * grid_n * grid_n <= usize::MAX,
        ensures
            g.wf(),
            g.grid_n == grid_n,
            forall|c: int|
                0 <= c < grid_n * grid_n * grid_n ==> (#[trigger] g.cells@[c])@ == photons_in(
                    at@,
                    grid_n as int,
                    c,
                    at@.len() as nat,
                ),
            forall|i: int|
                0 <= i < at@.len() && (#[trigger] at@[i]).0 < grid_n && at@[i].1 < grid_n && at@[i].2 < grid_n
                    ==> g.cells@[at@[i].2 * grid_n * grid_n + at@[i].1 * grid_n + at@[i].0]@.contains(i as u32),
            forall|c: int, k: int|
                0 <= c < grid_n * grid_n * grid_n && 0 <= k < g.cells@[c]@.len() ==> #[trigger] photon_in_cell(
                    at@,
                    grid_n as int,
                    c,
                    g.cells@[c]@[k],
                ),
    {
        let n = grid_n;
        assert(n * n <= n * n * n || n == 0) by (nonlinear_arith);
        let total = n * n * n;
        let mut cells: Vec<Vec<u32>> = Vec::new();
        while cells.len() < total
            invariant
                cells@.len() <= total,
                forall|c: int| 0 <= c < cells@.len() ==> (#[trigger] cells@[c])@ == Seq::<u32>::empty(),
            decreases total - cells@.len(),
        {
            cells.push(Vec::new());
        }
        let mut i: usize = 0;
        while i < at.len()
            invariant
                n * n * n <= usize::MAX,
                total == n * n * n,
                cells@.len() == total,
                i <= at@.len(),
                forall|c: int|
                    0 <= c < total ==> (#[trigger] cells@[c])@ == photons_in(at@, n as int, c, i as nat),
            decreases at@.len() - i,
        {
            let ghost before_step = cells@;
            match cell_index(at[i], n) {
                Some(idx) => {
                    cells[idx].push(i as u32);
                    assert forall|c: int| 0 <= c < total implies (#[trigger] cells@[c])@ == photons_in(
                        at@,
                        n as int,
                        c,
                        (i + 1) as nat,
                    ) by {
                        if c != idx {
                            assert(cells@[c] == before_step[c]);
                        }
                    }
                },
                None => {},
            }
            i = i + 1;
        }
        proof {
            let len = at@.len() as nat;
            assert forall|i: int|
                0 <= i < at@.len() && (#[trigger] at@[i]).0 < n && at@[i].1 < n && at@[i].2 < n implies cells@[at@[i].2
                    * n * n + at@[i].1 * n + at@[i].0]@.contains(i as u32) by {
                let v = at@[i];
                lemma_index_roundtrip(n as int, v.0 as int, v.1 as int, v.2 as int);
                let c = flat(n as int, v.0 as int, v.1 as int, v.2 as int);
                lemma_photons_in_facts(at@, n as int, c, len);
            }
            assert forall|c: int, k: int| 0 <= c < n * n * n && 0 <= k < cells@[c]@.len() implies #[trigger] photon_in_cell(
                at@,
                n as int,
                c,
                cells@[c]@[k],
            ) by {
                lemma_photons_in_facts(at@, n as int, c, len);
                let i = choose|i: int| 0 <= i < len && photons_in(at@, n as int, c, len)[k] == i as u32 && cell_of(n as int, at@[i]) == Some(c as usize);
                let v = at@[i];
                lemma_index_roundtrip(n as int, v.0 as int, v.1 as int, v.2 as int);
            }
        }
        PhotonGrid { grid_n, cells }
    }

    /// The cells overlapping the box `lo..=hi` of grid coordinates, after
    /// clamping it to the grid: every such cell once, in increasing order.
    pub fn neighbor_cells(&self, lo: (isize, isize, isize), hi: (usize, usize, usize)) -> (out: Vec<usize>)
        requires
            self.grid_n > 0,
            self.grid_n * self.grid_n * self.grid_n <= usize::MAX,
        ensures
            forall|i: int, j: int| 0 <= i < j < out@.len() ==> out@[i] < out@[j],
            forall|i: int|
                0 <= i < out@.len() ==> #[trigger] out@[i] < self.grid_n * self.grid_n * self.grid_n
                    && in_box(coords(self.grid_n as int, out@[i] as int), lo, hi, self.grid_n as int),
            forall|c: int|
                0 <= c < self.grid_n * self.grid_n * self.grid_n && in_box(
                    coords(self.grid_n as int, c),
                    lo,
                    hi,
                    self.grid_n as int,
                ) ==> out@.contains(c as usize),
    {
        let n = self.grid_n;
        let ghost ni = n as int;
        let x0: usize = if lo.0 < 0 { 0 } else { lo.0 as usize };
        let x1: usize = if hi.0 < n - 1 { hi.0 } else { n - 1 };
        let y0: usize = if lo.1 < 0 { 0 } else { lo.1 as usize };
        let y1: usize = if hi.1 < n - 1 { hi.1 } else { n - 1 };
        let z0: usize = if lo.2 < 0 { 0 } else { lo.2 as usize };
        let z1: usize = if hi.2 < n - 1 { hi.2 } else { n - 1 };
        let mut out: Vec<usize> = Vec::new();
        let mut iz = z0;
        while iz <= z1
            invariant
                n == self.grid_n,
                ni == n as int,
                n > 0,
                n * n * n <= usize::MAX,
                x0 == clamp_lo(lo.0),
                x1 == clamp_hi(hi.0, ni),
                y0 == clamp_lo(lo.1),
                y1 == clamp_hi(hi.1, ni),
                z0 == clamp_lo(lo.2),
                z1 == clamp_hi(hi.2, ni),
                z1 < n,
                y1 < n,
                x1 < n,
                z0 <= iz,
                iz <= z1 + 1 || iz == z0,
                forall|i: int, j: int| 0 <= i < j < out@.len() ==> out@[i] < out@[j],
                forall|i: int|
                    0 <= i < out@.len() ==> #[trigger] out@[i] < n * n * n && in_box(
                        coords(ni, out@[i] as int),
                        lo,
                        hi,
                        ni,
                    ) && coords(ni, out@[i] as int).2 < iz,
                forall|c: int|
                    0 <= c < n * n * n && in_box(coords(ni, c), lo, hi, ni) && coords(ni, c).2 < iz
                        ==> out@.contains(c as usize),
            decreases z1 + 1 - iz,
        {
            let mut iy = y0;
            while iy <= y1
                invariant
                    n == self.grid_n,
                    ni == n as int,
                    n > 0,
                    n * n * n <= usize::MAX,
                    x0 == clamp_lo(lo.0),
                    x1 == clamp_hi(hi.0, ni),
                    y0 == clamp_lo(lo.1),
                    y1 == clamp_hi(hi.1, ni),
                    z0 == clamp_lo(lo.2),
                    z1 == clamp_hi(hi.2, ni),
                    z0 <= iz <= z1,
                    z1 < n,
                    y1 < n,
                    x1 < n,
                    y0 <= iy,
                    iy <= y1 + 1 || iy == y0,
                    forall|i: int, j: int| 0 <= i < j < out@.len() ==> out@[i] < out@[j],
                    forall|i: int|
                        0 <= i < out@.len() ==> #[trigger] out@[i] < n * n * n && in_box(
                            coords(ni, out@[i] as int),
                            lo,
                            hi,
                            ni,
                        ) && before(coords(ni, out@[i] as int), 0, iy as int, iz as int),
                    forall|c: int|
                        0 <= c < n * n * n && in_box(coords(ni, c), lo, hi, ni) && before(
                            coords(ni, c),
                            0,
                            iy as int,
                            iz as int,
                        ) ==> out@.contains(c as usize),
                decreases y1 + 1 - iy,
            {
                let mut ix = x0;
                while ix <= x1
                    invariant
                        n == self.grid_n,
                        ni == n as int,
                        n > 0,
                        n * n * n <= usize::MAX,
                        x0 == clamp_lo(lo.0),
                        x1 == clamp_hi(hi.0, ni),
                        y0 == clamp_lo(lo.1),
                        y1 == clamp_hi(hi.1, ni),
                        z0 == clamp_lo(lo.2),
                        z1 == clamp_hi(hi.2, ni),
                        z0 <= iz <= z1,
                        y0 <= iy <= y1,
                        z1 < n,
                        y1 < n,
                        x1 < n,
                        x0 <= ix,
                        ix <= x1 + 1 || ix == x0,
                        forall|i: int, j: int| 0 <= i < j < out@.len() ==> out@[i] < out@[j],
                        forall|i: int|
                            0 <= i < out@.len() ==> #[trigger] out@[i] < n * n * n && in_box(
                                coords(ni, out@[i] as int),
                                lo,
                                hi,
                                ni,
                            ) && before(coords(ni, out@[i] as int), ix as int, iy as int, iz as int),
                        forall|c: int|
                            0 <= c < n * n * n && in_box(coords(ni, c), lo, hi, ni) && before(
                                coords(ni, c),
                                ix as int,
                                iy as int,
                                iz as int,
                            ) ==> out@.contains(c as usize),
                    decreases x1 + 1 - ix,
                {
                    proof {
                        lemma_index_roundtrip(ni, ix as int, iy as int, iz as int);
                    }
                    assert(iz * n <= iz * n * n) by (nonlinear_arith)
                        requires
                            n > 0,
                    ;
                    assert(iy * n <= iz * n * n + iy * n + ix) by (nonlinear_arith);
                    assert(iz * n * n + iy * n + ix < n * n * n);
                    let idx = iz * n * n + iy * n + ix;
                    let ghost old_out = out@;
                    proof {
                        assert forall|i: int| 0 <= i < old_out.len() implies #[trigger] old_out[i] < idx by {
                            let c = coords(ni, old_out[i] as int);
                            lemma_coords_roundtrip(ni, old_out[i] as int);
                            lemma_flat_order(ni, c, ix as int, iy as int, iz as int);
                        }
                    }
                    out.push(idx);
                    proof {
                        assert forall|c: int|
                            0 <= c < n * n * n && in_box(coords(ni, c), lo, hi, ni) && before(
                                coords(ni, c),
                                ix + 1,
                                iy as int,
                                iz as int,
                            ) implies out@.contains(c as usize) by {
                            lemma_coords_roundtrip(ni, c);
                            if before(coords(ni, c), ix as int, iy as int, iz as int) {
                                assert(old_out.contains(c as usize));
                                let w = choose|w: int| 0 <= w < old_out.len() && old_out[w] == c as usize;
                                assert(out@[w] == c as usize);
                            } else {
                                assert(c == idx);
                                assert(out@[old_out.len() as int] == idx);
                            }
                        }
                    }
                    ix = ix + 1;
                }
                iy = iy + 1;
            }
            iz = iz + 1;
        }
        out
    }
}

/// The photons listed for `cell` among the first `k` are exactly those whose
/// coordinates fall in it.
proof fn lemma_photons_in_facts(at: Seq<V3>, n: int, cell: int, k: nat)
    requires
        k <= at.len(),
    ensures
        forall|i: int| 0 <= i < k && cell_of(n, #[trigger] at[i]) == Some(cell as usize) ==> photons_in(at, n, cell, k).contains(i as u32),
        forall|m: int|
            0 <= m < photons_in(at, n, cell, k).len() ==> exists|i: int|
                0 <= i < k && #[trigger] photons_in(at, n, cell, k)[m] == i as u32 && cell_of(n, at[i]) == Some(cell as usize),
    decreases k,
{
    if k > 0 {
        lemma_photons_in_facts(at, n, cell, (k - 1) as nat);
        let prev = photons_in(at, n, cell, (k - 1) as nat);
        let s = photons_in(at, n, cell, k);
        assert forall|i: int| 0 <= i < k && cell_of(n, #[trigger] at[i]) == Some(cell as usize) implies s.contains(i as u32) by {
            if i < k - 1 {
                assert(prev.contains(i as u32));
                let m = choose|m: int| 0 <= m < prev.len() && prev[m] == i as u32;
                assert(s[m] == prev[m]);
            } else {
                assert(s[prev.len() as int] == (k - 1) as u32);
            }
        }
        assert forall|m: int| 0 <= m < s.len() implies exists|i: int|
            0 <= i < k && #[trigger] s[m] == i as u32 && cell_of(n, at[i]) == Some(cell as usize) by {
            if m < prev.len() {
                assert(s[m] == prev[m]);
                let i = choose|i: int| 0 <= i < k - 1 && #[trigger] prev[m] == i as u32 && cell_of(n, at[i]) == Some(cell as usize);
                assert(s[m] == i as u32);
            } else {
                assert(s[m] == (k - 1) as u32);
            }
        }
    }
}

} // verus!
