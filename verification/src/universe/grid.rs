//! Dense voxel grid: for each of the N³ cells, whether it is solid (the
//! signed distance at its centre is negative) and its material id.

use vstd::prelude::*;
use crate::universe::cubical::V3;

verus! {

/// Cell `(x, y, z)` of a grid `n` cells wide, flattened: x fastest, then y, then z.
pub open spec fn flat(n: int, x: int, y: int, z: int) -> int {
    z * n * n + y * n + x
}

/// Coordinates of the flattened cell `k`.
pub open spec fn coords(n: int, k: int) -> V3 {
    ((k % n) as usize, ((k / n) % n) as usize, ((k / n) / n) as usize)
}

/// Flattening a cell inside the grid gives an index below N³ that maps back
/// to the same coordinates.
pub proof fn lemma_index_roundtrip(n: int, x: int, y: int, z: int)
    requires
        0 <= x < n,
        0 <= y < n,
        0 <= z < n,
    ensures
        0 <= flat(n, x, y, z) < n * n * n,
        coords(n, flat(n, x, y, z)) == (x as usize, y as usize, z as usize),
{
    let k = flat(n, x, y, z);
    assert(k == (z * n + y) * n + x) by (nonlinear_arith)
        requires
            k == z * n * n + y * n + x,
    ;
    assert(0 <= z * n + y) by (nonlinear_arith)
        requires
            0 <= z,
            0 <= y,
            0 < n,
    ;
    vstd::arithmetic::div_mod::lemma_fundamental_div_mod_converse(k, n, z * n + y, x);
    vstd::arithmetic::div_mod::lemma_fundamental_div_mod_converse(z * n + y, n, z, y);
    assert(0 <= k < n * n * n) by (nonlinear_arith)
        requires
            k == z * n * n + y * n + x,
            0 <= x < n,
            0 <= y < n,
            0 <= z < n,
    ;
}

/// Every index below N³ is the flattening of its coordinates, which lie inside the grid.
pub proof fn lemma_coords_roundtrip(n: int, k: int)
    requires
        0 <= k < n * n * n,
        n <= usize::MAX,
    ensures
        coords(n, k).0 < n,
        coords(n, k).1 < n,
        coords(n, k).2 < n,
        flat(n, coords(n, k).0 as int, coords(n, k).1 as int, coords(n, k).2 as int) == k,
{
    assert(n > 0) by (nonlinear_arith)
        requires
            0 <= k < n * n * n,
    ;
    assert(k < n * (n * n)) by (nonlinear_arith)
        requires
            k < n * n * n,
    ;
    assert(n * n > 0) by (nonlinear_arith)
        requires
            n > 0,
    ;
    vstd::arithmetic::div_mod::lemma_multiply_divide_lt(k, n, n * n);
    vstd::arithmetic::div_mod::lemma_multiply_divide_lt(k / n, n, n);
    assert(0 <= k / n) by (nonlinear_arith)
        requires
            0 <= k,
            n > 0,
    ;
    assert(0 <= k / n / n) by (nonlinear_arith)
        requires
            0 <= k / n,
            n > 0,
    ;
    vstd::arithmetic::div_mod::lemma_mod_pos_bound(k, n);
    vstd::arithmetic::div_mod::lemma_mod_pos_bound(k / n, n);
    vstd::arithmetic::div_mod::lemma_fundamental_div_mod(k, n);
    vstd::arithmetic::div_mod::lemma_fundamental_div_mod(k / n, n);
    let x = k % n;
    let q = k / n;
    let y = q % n;
    let z = q / n;
    assert(k == z * n * n + y * n + x) by (nonlinear_arith)
        requires
            k == n * q + x,
            q == n * z + y,
    ;
}

/// Two cells inside the grid share an index only if they are the same cell.
pub proof fn lemma_index_injective(n: int, a: V3, b: V3)
    requires
        a.0 < n,
        a.1 < n,
        a.2 < n,
        b.0 < n,
        b.1 < n,
        b.2 < n,
        flat(n, a.0 as int, a.1 as int, a.2 as int) == flat(n, b.0 as int, b.1 as int, b.2 as int),
    ensures
        a == b,
{
    lemma_index_roundtrip(n, a.0 as int, a.1 as int, a.2 as int);
    lemma_index_roundtrip(n, b.0 as int, b.1 as int, b.2 as int);
}

/// The cell after the last one of a row starts the next row, and the cell
/// after the last row of a slice starts the next slice.
proof fn lemma_flat_carry(n: int, y: int, z: int)
    ensures
        flat(n, n, y, z) == flat(n, 0, y + 1, z),
        flat(n, 0, n, z) == flat(n, 0, 0, z + 1),
{
    assert(z * n * n + y * n + n == z * n * n + (y + 1) * n + 0) by (nonlinear_arith);
    assert(z * n * n + n * n + 0 == (z + 1) * n * n + 0 * n + 0) by (nonlinear_arith);
}

/// Dense 3D grid of N³ cells, indexed by integer coordinates `(x, y, z)` with each below N.
pub struct VoxelGrid {
    /// Cells per side.
    pub n: usize,
    /// Whether the signed distance at the cell centre is negative.
    pub solid: Vec<bool>,
    /// Material id of each cell.
    pub material: Vec<u8>,
}

impl VoxelGrid {
    /// N³ cells, each with a solidity flag and a material.
    pub open spec fn wf(&self) -> bool {
        &&& self.n * self.n * self.n <= usize::MAX
        &&& self.solid@.len() == self.n * self.n * self.n
        &&& self.material@.len() == self.n * self.n * self.n
    }

    /// Cell `k` is occupied and passes the material filter.
    pub open spec fn selected(&self, k: int, mat_filter: Option<u8>) -> bool {
        &&& self.solid@[k]
        &&& match mat_filter {
            Some(m) => self.material@[k] == m,
            None => true,
        }
    }

    /// Number of occupied cells of material `mat` among the first `k`.
    pub open spec fn count_upto(&self, mat: u8, k: nat) -> nat
        decreases k,
    {
        if k == 0 {
            0
        } else {
            self.count_upto(mat, (k - 1) as nat) + if self.selected(k - 1, Some(mat)) {
                1nat
            } else {
                0nat
            }
        }
    }

    /// Coordinates of the selected cells among the first `k`, in index order.
    pub open spec fn listed_upto(&self, mat_filter: Option<u8>, k: nat) -> Seq<V3>
        decreases k,
    {
        if k == 0 {
            Seq::empty()
        } else {
            let s = self.listed_upto(mat_filter, (k - 1) as nat);
            if self.selected(k - 1, mat_filter) {
                s.push(coords(self.n as int, k - 1))
            } else {
                s
            }
        }
    }

    /// Cells present both as solidity and as material.
    pub open spec fn cells(&self) -> nat {
        if self.solid@.len() <= self.material@.len() {
            self.solid@.len()
        } else {
            self.material@.len()
        }
    }

    /// An empty grid: no cell is solid, every material is 0.
    pub fn new(n: usize) -> (g: Self)
        requires
            n * n * n <= usize::MAX,
        ensures
            g.wf(),
            g.n == n,
            forall|k: int| 0 <= k < n * n * n ==> !#[trigger] g.solid@[k] && g.material@[k] == 0,
    {
        assert(n * n <= n * n * n || n == 0) by (nonlinear_arith);
        let total = n * n * n;
        let mut solid: Vec<bool> = Vec::new();
        let mut material: Vec<u8> = Vec::new();
        let mut k: usize = 0;
        while k < total
            invariant
                k <= total,
                solid@.len() == k,
                material@.len() == k,
                forall|j: int| 0 <= j < k ==> !#[trigger] solid@[j] && material@[j] == 0,
            decreases total - k,
        {
            solid.push(false);
            material.push(0);
            k = k + 1;
        }
        VoxelGrid { n, solid, material }
    }

    /// Flattened index of cell `(x, y, z)`.
    pub fn index(&self, x: usize, y: usize, z: usize) -> (i: usize)
        requires
            flat(self.n as int, x as int, y as int, z as int) <= usize::MAX,
        ensures
            i == flat(self.n as int, x as int, y as int, z as int),
    {
        let n = self.n;
        assert(z * n <= z * n * n + y * n + x || n == 0) by (nonlinear_arith);
        assert(y * n <= z * n * n + y * n + x) by (nonlinear_arith);
        z * n * n + y * n + x
    }

    /// Whether cell `(x, y, z)` is solid.
    pub fn is_occupied(&self, x: usize, y: usize, z: usize) -> (b: bool)
        requires
            flat(self.n as int, x as int, y as int, z as int) < self.solid@.len(),
        ensures
            b == self.solid@[flat(self.n as int, x as int, y as int, z as int)],
    {
        assert(self.solid@.len() == self.solid.len());
        let i = self.index(x, y, z);
        self.solid[i]
    }

    /// Record the sampled solidity and material of cell `(x, y, z)`.
    pub fn set_cell(&mut self, x: usize, y: usize, z: usize, solid: bool, mat: u8)
        requires
            old(self).wf(),
            x < old(self).n,
            y < old(self).n,
            z < old(self).n,
        ensures
            final(self).n == old(self).n,
            final(self).solid@ == old(self).solid@.update(
                flat(old(self).n as int, x as int, y as int, z as int),
                solid,
            ),
            final(self).material@ == old(self).material@.update(
                flat(old(self).n as int, x as int, y as int, z as int),
                mat,
            ),
            final(self).wf(),
    {
        proof {
            lemma_index_roundtrip(self.n as int, x as int, y as int, z as int);
        }
        let i = self.index(x, y, z);
        self.solid.set(i, solid);
        self.material.set(i, mat);
    }

    /// Count the occupied cells of material `mat`.
    pub fn count_occupied(&self, mat: u8) -> (c: usize)
        ensures
            c == self.count_upto(mat, self.cells()),
    {
        let len = if self.solid.len() <= self.material.len() {
            self.solid.len()
        } else {
            self.material.len()
        };
        let mut c: usize = 0;
        let mut k: usize = 0;
        while k < len
            invariant
                len == self.cells(),
                k <= len,
                c == self.count_upto(mat, k as nat),
                c <= k,
            decreases len - k,
        {
            if self.solid[k] && self.material[k] == mat {
                c = c + 1;
            }
            k = k + 1;
        }
        c
    }

    /// Coordinates of the occupied cells, in index order, keeping only those
    /// of material `m` when the filter is `Some(m)`.
    pub fn occupied_indices(&self, mat_filter: Option<u8>) -> (out: Vec<V3>)
        requires
            self.n * self.n * self.n <= usize::MAX,
            self.solid@.len() >= self.n * self.n * self.n,
            mat_filter is Some ==> self.material@.len() >= self.n * self.n * self.n,
        ensures
            out@ == self.listed_upto(mat_filter, (self.n * self.n * self.n) as nat),
            forall|k: int|
                0 <= k < out@.len() ==> {
                    let (x, y, z) = #[trigger] out@[k];
                    let i = z * self.n * self.n + y * self.n + x;
                    &&& x < self.n && y < self.n && z < self.n
                    &&& self.solid@[i]
                    &&& match mat_filter {
                        Some(m) => self.material@[i] == m,
                        None => true,
                    }
                },
            forall|x: usize, y: usize, z: usize|
                x < self.n && y < self.n && z < self.n && #[trigger] self.solid@[z * self.n * self.n + y * self.n + x]
                    && match mat_filter {
                    Some(m) => self.material@[z * self.n * self.n + y * self.n + x] == m,
                    None => true,
                } ==> out@.contains((x, y, z)),
            forall|a: int, b: int|
                0 <= a < b < out@.len() ==> #[trigger] out@[a].2 * self.n * self.n + out@[a].1 * self.n + out@[a].0
                    < #[trigger] out@[b].2 * self.n * self.n + out@[b].1 * self.n + out@[b].0,
    {
        let n = self.n;
        let mut out: Vec<V3> = Vec::new();
        let mut iz: usize = 0;
        while iz < n
            invariant
                n == self.n,
                n * n * n <= usize::MAX,
                self.solid@.len() >= n * n * n,
                mat_filter is Some ==> self.material@.len() >= n * n * n,
                iz <= n,
                out@ == self.listed_upto(mat_filter, flat(n as int, 0, 0, iz as int) as nat),
            decreases n - iz,
        {
            let mut iy: usize = 0;
            while iy < n
                invariant
                    n == self.n,
                    n * n * n <= usize::MAX,
                    self.solid@.len() >= n * n * n,
                    mat_filter is Some ==> self.material@.len() >= n * n * n,
                    iz < n,
                    iy <= n,
                    out@ == self.listed_upto(mat_filter, flat(n as int, 0, iy as int, iz as int) as nat),
                decreases n - iy,
            {
                let mut ix: usize = 0;
                while ix < n
                    invariant
                        n == self.n,
                        n * n * n <= usize::MAX,
                        self.solid@.len() >= n * n * n,
                        mat_filter is Some ==> self.material@.len() >= n * n * n,
                        iz < n,
                        iy < n,
                        ix <= n,
                        out@ == self.listed_upto(
                            mat_filter,
                            flat(n as int, ix as int, iy as int, iz as int) as nat,
                        ),
                    decreases n - ix,
                {
                    proof {
                        lemma_index_roundtrip(n as int, ix as int, iy as int, iz as int);
                    }
                    let idx = self.index(ix, iy, iz);
                    let keep = if self.solid[idx] {
                        match mat_filter {
                            Some(mat) => self.material[idx] == mat,
                            None => true,
                        }
                    } else {
                        false
                    };
                    if keep {
                        out.push((ix, iy, iz));
                    }
                    ix = ix + 1;
                }
                proof {
                    lemma_flat_carry(n as int, iy as int, iz as int);
                }
                iy = iy + 1;
            }
            proof {
                lemma_flat_carry(n as int, iy as int, iz as int);
            }
            iz = iz + 1;
        }
        proof {
            lemma_listing_facts(*self, mat_filter, (n * n * n) as nat);
            assert forall|x: usize, y: usize, z: usize|
                x < n && y < n && z < n && #[trigger] self.solid@[z * n * n + y * n + x] && match mat_filter {
                    Some(m) => self.material@[z * n * n + y * n + x] == m,
                    None => true,
                } implies out@.contains((x, y, z)) by {
                lemma_index_roundtrip(n as int, x as int, y as int, z as int);
                assert(self.selected(flat(n as int, x as int, y as int, z as int), mat_filter));
            }
        }
        out
    }
}

/// Counting the occupied cells of a material agrees with listing them.
pub proof fn lemma_count_matches_listing(g: VoxelGrid, mat: u8, k: nat)
    ensures
        g.count_upto(mat, k) == g.listed_upto(Some(mat), k).len(),
    decreases k,
{
    if k > 0 {
        lemma_count_matches_listing(g, mat, (k - 1) as nat);
    }
}

/// Every listed cell lies inside the grid.
pub proof fn lemma_listed_in_grid(g: VoxelGrid, mat_filter: Option<u8>, k: nat)
    requires
        k <= g.n * g.n * g.n,
    ensures
        forall|i: int|
            0 <= i < g.listed_upto(mat_filter, k).len() ==> {
                let c = #[trigger] g.listed_upto(mat_filter, k)[i];
                c.0 < g.n && c.1 < g.n && c.2 < g.n
            },
    decreases k,
{
    if k > 0 {
        lemma_listed_in_grid(g, mat_filter, (k - 1) as nat);
        let n = g.n as int;
        let j = k - 1;
        lemma_coords_roundtrip(n, j);
        let c = coords(n, j);
        assert(c.0 < n && c.1 < n && c.2 < n);
        let prev = g.listed_upto(mat_filter, j as nat);
        let s = g.listed_upto(mat_filter, k);
        assert forall|i: int| 0 <= i < s.len() implies {
            let e = #[trigger] s[i];
            e.0 < g.n && e.1 < g.n && e.2 < g.n
        } by {
            if i < prev.len() {
                assert(s[i] == prev[i]);
            }
        }
    }
}

/// The listing holds, in increasing index order, exactly the coordinates of
/// the selected cells among the first `k`.
proof fn lemma_listing_facts(g: VoxelGrid, mat_filter: Option<u8>, k: nat)
    requires
        k <= g.n * g.n * g.n,
        g.n <= usize::MAX,
    ensures
        forall|i: int|
            0 <= i < g.listed_upto(mat_filter, k).len() ==> {
                let c = #[trigger] g.listed_upto(mat_filter, k)[i];
                let j = flat(g.n as int, c.0 as int, c.1 as int, c.2 as int);
                &&& c.0 < g.n && c.1 < g.n && c.2 < g.n
                &&& 0 <= j < k
                &&& g.selected(j, mat_filter)
            },
        forall|j: int|
            0 <= j < k && g.selected(j, mat_filter) ==> g.listed_upto(mat_filter, k).contains(
                #[trigger] coords(g.n as int, j),
            ),
        forall|a: int, b: int|
            0 <= a < b < g.listed_upto(mat_filter, k).len() ==> flat(
                g.n as int,
                (#[trigger] g.listed_upto(mat_filter, k)[a]).0 as int,
                g.listed_upto(mat_filter, k)[a].1 as int,
                g.listed_upto(mat_filter, k)[a].2 as int,
            ) < flat(
                g.n as int,
                (#[trigger] g.listed_upto(mat_filter, k)[b]).0 as int,
                g.listed_upto(mat_filter, k)[b].1 as int,
                g.listed_upto(mat_filter, k)[b].2 as int,
            ),
    decreases k,
{
    if k > 0 {
        let n = g.n as int;
        lemma_listing_facts(g, mat_filter, (k - 1) as nat);
        let prev = g.listed_upto(mat_filter, (k - 1) as nat);
        let s = g.listed_upto(mat_filter, k);
        let j = k - 1;
        lemma_coords_roundtrip(n, j);
        assert forall|i: int| 0 <= i < s.len() implies {
            let c = #[trigger] s[i];
            let jj = flat(n, c.0 as int, c.1 as int, c.2 as int);
            &&& c.0 < g.n && c.1 < g.n && c.2 < g.n
            &&& 0 <= jj < k
            &&& g.selected(jj, mat_filter)
        } by {
            if i < prev.len() {
                assert(s[i] == prev[i]);
            }
        }
        assert forall|jj: int| 0 <= jj < k && g.selected(jj, mat_filter) implies s.contains(#[trigger] coords(n, jj)) by {
            if jj < j {
                assert(prev.contains(coords(n, jj)));
                let i = choose|i: int| 0 <= i < prev.len() && prev[i] == coords(n, jj);
                assert(s[i] == prev[i]);
            } else {
                assert(s[prev.len() as int] == coords(n, j));
            }
        }
        assert forall|a: int, b: int| 0 <= a < b < s.len() implies flat(
            n,
            (#[trigger] s[a]).0 as int,
            s[a].1 as int,
            s[a].2 as int,
        ) < flat(n, (#[trigger] s[b]).0 as int, s[b].1 as int, s[b].2 as int) by {
            assert(s[a] == prev[a]);
            if b < prev.len() {
                assert(s[b] == prev[b]);
            } else {
                assert(s[b] == coords(n, j));
            }
        }
    }
}

} // verus!
