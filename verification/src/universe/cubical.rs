//! The cubical complex spanned by a list of voxels, and its boundary matrices over Z₂.
//!
//! Cells are keyed by position and direction. A vertex is `(x, y, z)`; an edge
//! is `(x, y, z, d)`, running from its vertex one step along axis `d`; a face
//! is `(x, y, z, d1, d2)`, spanning axes `d1 < d2`; a cube is `(x, y, z)`.
//! Cells are numbered in the order in which the voxels first produce them.
use vstd::prelude::*;
use crate::universe::gf2::{boundary_of, composes_to_zero, even, sym_diff, lemma_boundary_empty, lemma_boundary_insert};

verus! {

pub type V3 = (usize, usize, usize);

pub type EdgeKey = (usize, usize, usize, u8);

pub type FaceKey = (usize, usize, usize, u8, u8);

/// Every voxel has a successor along each axis.
pub open spec fn voxels_in_range(occ: Seq<V3>) -> bool {
    forall|i: int| 0 <= i < occ.len() ==> cube_ok(#[trigger] occ[i])
}

pub open spec fn inc(a: usize) -> usize {
    (a + 1) as usize
}

/// The 8 vertices of a voxel, in the order `dz`, `dy`, `dx`.
pub open spec fn cube_vertices(c: V3) -> Seq<V3> {
    let (x, y, z) = c;
    seq![
        (x, y, z),
        (inc(x), y, z),
        (x, inc(y), z),
        (inc(x), inc(y), z),
        (x, y, inc(z)),
        (inc(x), y, inc(z)),
        (x, inc(y), inc(z)),
        (inc(x), inc(y), inc(z)),
    ]
}

/// The 12 edges of a voxel: four along X, four along Y, four along Z.
pub open spec fn cube_edges(c: V3) -> Seq<EdgeKey> {
    let (x, y, z) = c;
    seq![
        (x, y, z, 0u8),
        (x, inc(y), z, 0u8),
        (x, y, inc(z), 0u8),
        (x, inc(y), inc(z), 0u8),
        (x, y, z, 1u8),
        (inc(x), y, z, 1u8),
        (x, y, inc(z), 1u8),
        (inc(x), y, inc(z), 1u8),
        (x, y, z, 2u8),
        (inc(x), y, z, 2u8),
        (x, inc(y), z, 2u8),
        (inc(x), inc(y), z, 2u8),
    ]
}

/// The 6 faces of a voxel: two in the XY plane, two in XZ, two in YZ.
pub open spec fn cube_faces(c: V3) -> Seq<FaceKey> {
    let (x, y, z) = c;
    seq![
        (x, y, z, 0u8, 1u8),
        (x, y, inc(z), 0u8, 1u8),
        (x, y, z, 0u8, 2u8),
        (x, inc(y), z, 0u8, 2u8),
        (x, y, z, 1u8, 2u8),
        (inc(x), y, z, 1u8, 2u8),
    ]
}

/// The two endpoints of an edge.
pub open spec fn edge_vertices(e: EdgeKey) -> Seq<V3> {
    let (x, y, z, d) = e;
    seq![
        (x, y, z),
        if d == 0 {
            (inc(x), y, z)
        } else if d == 1 {
            (x, inc(y), z)
        } else {
            (x, y, inc(z))
        },
    ]
}

/// The four edges bounding a face.
pub open spec fn face_edges(f: FaceKey) -> Seq<EdgeKey> {
    let (x, y, z, d1, d2) = f;
    if d1 == 0 && d2 == 1 {
        seq![(x, y, z, 0u8), (x, inc(y), z, 0u8), (x, y, z, 1u8), (inc(x), y, z, 1u8)]
    } else if d1 == 0 && d2 == 2 {
        seq![(x, y, z, 0u8), (x, y, inc(z), 0u8), (x, y, z, 2u8), (inc(x), y, z, 2u8)]
    } else {
        seq![(x, y, z, 1u8), (x, y, inc(z), 1u8), (x, y, z, 2u8), (x, inc(y), z, 2u8)]
    }
}

/// The cells that the first `n` voxels produce, in order, repeats included.
pub open spec fn stream<K>(occ: Seq<V3>, n: int, cells: spec_fn(V3) -> Seq<K>) -> Seq<K>
    decreases n,
{
    if n <= 0 {
        Seq::empty()
    } else {
        stream(occ, n - 1, cells) + cells(occ[n - 1])
    }
}

/// `s` without repeats, each element kept where it first occurs.
pub open spec fn dedup<K>(s: Seq<K>) -> Seq<K>
    decreases s.len(),
{
    if s.len() == 0 {
        Seq::empty()
    } else {
        let d = dedup(s.drop_last());
        if d.contains(s.last()) {
            d
        } else {
            d.push(s.last())
        }
    }
}

/// The number that a list of distinct cells gives to one of them: its position.
pub open spec fn pos<K>(s: Seq<K>, k: K) -> int {
    choose|i: int| 0 <= i < s.len() && s[i] == k
}

/// The numbers of the given cells.
pub open spec fn positions_of<K>(s: Seq<K>, keys: Seq<K>) -> Set<int>
    decreases keys.len(),
{
    if keys.len() == 0 {
        Set::empty()
    } else {
        positions_of(s, keys.drop_last()).insert(pos(s, keys.last()))
    }
}

pub open spec fn vertices_of() -> spec_fn(V3) -> Seq<V3> {
    |c: V3| cube_vertices(c)
}

pub open spec fn edges_of() -> spec_fn(V3) -> Seq<EdgeKey> {
    |c: V3| cube_edges(c)
}

pub open spec fn faces_of() -> spec_fn(V3) -> Seq<FaceKey> {
    |c: V3| cube_faces(c)
}

/// The vertices of the complex, numbered in order of first appearance.
pub open spec fn vertex_list(occ: Seq<V3>) -> Seq<V3> {
    dedup(stream(occ, occ.len() as int, vertices_of()))
}

/// The edges of the complex, numbered in order of first appearance.
pub open spec fn edge_list(occ: Seq<V3>) -> Seq<EdgeKey> {
    dedup(stream(occ, occ.len() as int, edges_of()))
}

/// The faces of the complex, numbered in order of first appearance.
pub open spec fn face_list(occ: Seq<V3>) -> Seq<FaceKey> {
    dedup(stream(occ, occ.len() as int, faces_of()))
}

/// ∂₁: column `i` holds the numbers of the two endpoints of edge `i`.
pub open spec fn boundary_1(occ: Seq<V3>) -> Seq<Set<int>> {
    let e = edge_list(occ);
    Seq::new(e.len(), |i: int| positions_of(vertex_list(occ), edge_vertices(e[i])))
}

/// ∂₂: column `i` holds the numbers of the four edges of face `i`.
pub open spec fn boundary_2(occ: Seq<V3>) -> Seq<Set<int>> {
    let f = face_list(occ);
    Seq::new(f.len(), |i: int| positions_of(edge_list(occ), face_edges(f[i])))
}

/// ∂₃: column `i` holds the numbers of the six faces of voxel `i`.
pub open spec fn boundary_3(occ: Seq<V3>) -> Seq<Set<int>> {
    Seq::new(occ.len(), |i: int| positions_of(face_list(occ), cube_faces(occ[i])))
}

// ---------------------------------------------------------------------------
// Lists without repeats
// ---------------------------------------------------------------------------

pub proof fn lemma_dedup<K>(s: Seq<K>)
    ensures
        dedup(s).no_duplicates(),
        forall|k: K| dedup(s).contains(k) <==> s.contains(k),
    decreases s.len(),
{
    if s.len() > 0 {
        lemma_dedup(s.drop_last());
        let d = dedup(s.drop_last());
        assert forall|k: K| s.contains(k) <==> (s.drop_last().contains(k) || k == s.last()) by {
            if s.contains(k) {
                let i = choose|i: int| 0 <= i < s.len() && s[i] == k;
                if i < s.len() - 1 {
                    assert(s.drop_last()[i] == k);
                }
            }
            if s.drop_last().contains(k) {
                let i = choose|i: int| 0 <= i < s.drop_last().len() && s.drop_last()[i] == k;
                assert(s[i] == k);
            }
            if k == s.last() {
                assert(s[s.len() - 1] == k);
            }
        }
        if !d.contains(s.last()) {
            assert forall|k: K| d.push(s.last()).contains(k) <==> (d.contains(k) || k == s.last()) by {
                if d.push(s.last()).contains(k) {
                    let i = choose|i: int| 0 <= i < d.push(s.last()).len() && d.push(s.last())[i] == k;
                    if i < d.len() {
                        assert(d[i] == k);
                    }
                }
                if d.contains(k) {
                    let i = choose|i: int| 0 <= i < d.len() && d[i] == k;
                    assert(d.push(s.last())[i] == k);
                }
                if k == s.last() {
                    assert(d.push(s.last())[d.len() as int] == k);
                }
            }
        }
    } else {
        assert forall|k: K| !dedup(s).contains(k) && !s.contains(k) by {}
    }
}

/// An element of a list without repeats sits at its position.
pub proof fn lemma_pos<K>(s: Seq<K>, k: K)
    requires
        s.no_duplicates(),
        s.contains(k),
    ensures
        0 <= pos(s, k) < s.len(),
        s[pos(s, k)] == k,
        forall|i: int| 0 <= i < s.len() && s[i] == k ==> i == pos(s, k),
{
}

/// Distinct elements have distinct positions.
pub proof fn lemma_pos_injective<K>(s: Seq<K>, a: K, b: K)
    requires
        s.no_duplicates(),
        s.contains(a),
        s.contains(b),
        a != b,
    ensures
        pos(s, a) != pos(s, b),
{
    lemma_pos(s, a);
    lemma_pos(s, b);
}

pub proof fn lemma_stream_contains<K>(occ: Seq<V3>, n: int, cells: spec_fn(V3) -> Seq<K>, k: K)
    requires
        0 <= n <= occ.len(),
    ensures
        stream(occ, n, cells).contains(k) <==> exists|i: int, t: int|
            0 <= i < n && 0 <= t < cells(occ[i]).len() && #[trigger] cells(occ[i])[t] == k,
    decreases n,
{
    if n > 0 {
        lemma_stream_contains(occ, n - 1, cells, k);
        let a = stream(occ, n - 1, cells);
        let b = cells(occ[n - 1]);
        if (a + b).contains(k) {
            let j = choose|j: int| 0 <= j < (a + b).len() && (a + b)[j] == k;
            if j < a.len() {
                assert(a[j] == k);
            } else {
                assert(b[j - a.len()] == k);
            }
        }
        if exists|i: int, t: int|
            0 <= i < n && 0 <= t < cells(occ[i]).len() && #[trigger] cells(occ[i])[t] == k {
            let (i, t) = choose|i: int, t: int|
                0 <= i < n && 0 <= t < cells(occ[i]).len() && #[trigger] cells(occ[i])[t] == k;
            if i < n - 1 {
                let j = choose|j: int| 0 <= j < a.len() && a[j] == k;
                assert((a + b)[j] == k);
            } else {
                assert((a + b)[a.len() + t] == k);
            }
        }
    }
}

/// A cell of a listed voxel is listed.
pub proof fn lemma_cell_listed<K>(occ: Seq<V3>, cells: spec_fn(V3) -> Seq<K>, i: int, t: int)
    requires
        0 <= i < occ.len(),
        0 <= t < cells(occ[i]).len(),
    ensures
        dedup(stream(occ, occ.len() as int, cells)).contains(cells(occ[i])[t]),
{
    let k = cells(occ[i])[t];
    lemma_stream_contains(occ, occ.len() as int, cells, k);
    lemma_dedup(stream(occ, occ.len() as int, cells));
}

/// A listed cell belongs to a listed voxel.
pub proof fn lemma_listed_cell<K>(occ: Seq<V3>, cells: spec_fn(V3) -> Seq<K>, k: K) -> (it: (int, int))
    requires
        dedup(stream(occ, occ.len() as int, cells)).contains(k),
    ensures
        0 <= it.0 < occ.len(),
        0 <= it.1 < cells(occ[it.0]).len(),
        cells(occ[it.0])[it.1] == k,
{
    lemma_stream_contains(occ, occ.len() as int, cells, k);
    lemma_dedup(stream(occ, occ.len() as int, cells));
    choose|i: int, t: int|
        0 <= i < occ.len() && 0 <= t < cells(occ[i]).len() && #[trigger] cells(occ[i])[t] == k
}


/// An edge whose step stays in range.
pub open spec fn edge_ok(e: EdgeKey) -> bool {
    &&& e.3 <= 2
    &&& e.3 == 0 ==> e.0 < usize::MAX
    &&& e.3 == 1 ==> e.1 < usize::MAX
    &&& e.3 == 2 ==> e.2 < usize::MAX
}

/// A face in one of the three planes whose steps stay in range.
pub open spec fn face_ok(f: FaceKey) -> bool {
    ||| f.3 == 0 && f.4 == 1 && f.0 < usize::MAX && f.1 < usize::MAX
    ||| f.3 == 0 && f.4 == 2 && f.0 < usize::MAX && f.2 < usize::MAX
    ||| f.3 == 1 && f.4 == 2 && f.1 < usize::MAX && f.2 < usize::MAX
}

pub open spec fn cube_ok(c: V3) -> bool {
    c.0 < usize::MAX && c.1 < usize::MAX && c.2 < usize::MAX
}

/// The edges of a voxel run between its vertices.
pub proof fn lemma_cube_edge(c: V3, t: int)
    requires
        cube_ok(c),
        0 <= t < 12,
    ensures
        edge_ok(cube_edges(c)[t]),
        cube_vertices(c).contains(edge_vertices(cube_edges(c)[t])[0]),
        cube_vertices(c).contains(edge_vertices(cube_edges(c)[t])[1]),
        edge_vertices(cube_edges(c)[t])[0] != edge_vertices(cube_edges(c)[t])[1],
{
    let cv = cube_vertices(c);
    let e = cube_edges(c)[t];
    let ev = edge_vertices(e);
    if t == 0 {
        assert(cv[0] == ev[0] && cv[1] == ev[1]);
    } else if t == 1 {
        assert(cv[2] == ev[0] && cv[3] == ev[1]);
    } else if t == 2 {
        assert(cv[4] == ev[0] && cv[5] == ev[1]);
    } else if t == 3 {
        assert(cv[6] == ev[0] && cv[7] == ev[1]);
    } else if t == 4 {
        assert(cv[0] == ev[0] && cv[2] == ev[1]);
    } else if t == 5 {
        assert(cv[1] == ev[0] && cv[3] == ev[1]);
    } else if t == 6 {
        assert(cv[4] == ev[0] && cv[6] == ev[1]);
    } else if t == 7 {
        assert(cv[5] == ev[0] && cv[7] == ev[1]);
    } else if t == 8 {
        assert(cv[0] == ev[0] && cv[4] == ev[1]);
    } else if t == 9 {
        assert(cv[1] == ev[0] && cv[5] == ev[1]);
    } else if t == 10 {
        assert(cv[2] == ev[0] && cv[6] == ev[1]);
    } else if t == 11 {
        assert(cv[3] == ev[0] && cv[7] == ev[1]);
    }
}

/// The edges of a face of a voxel are edges of that voxel.
pub proof fn lemma_cube_face(c: V3, t: int)
    requires
        cube_ok(c),
        0 <= t < 6,
    ensures
        face_ok(cube_faces(c)[t]),
        face_edges(cube_faces(c)[t]).len() == 4,
        face_edges(cube_faces(c)[t]).no_duplicates(),
        forall|u: int| 0 <= u < 4 ==> cube_edges(c).contains(#[trigger] face_edges(cube_faces(c)[t])[u]),
{
    let ce = cube_edges(c);
    let fe = face_edges(cube_faces(c)[t]);
    if t == 0 {
        assert(ce[0] == fe[0] && ce[1] == fe[1] && ce[4] == fe[2] && ce[5] == fe[3]);
    } else if t == 1 {
        assert(ce[2] == fe[0] && ce[3] == fe[1] && ce[6] == fe[2] && ce[7] == fe[3]);
    } else if t == 2 {
        assert(ce[0] == fe[0] && ce[2] == fe[1] && ce[8] == fe[2] && ce[9] == fe[3]);
    } else if t == 3 {
        assert(ce[1] == fe[0] && ce[3] == fe[1] && ce[10] == fe[2] && ce[11] == fe[3]);
    } else if t == 4 {
        assert(ce[4] == fe[0] && ce[6] == fe[1] && ce[8] == fe[2] && ce[10] == fe[3]);
    } else if t == 5 {
        assert(ce[5] == fe[0] && ce[7] == fe[1] && ce[9] == fe[2] && ce[11] == fe[3]);
    }
}


// ---------------------------------------------------------------------------
// The cells of the complex
// ---------------------------------------------------------------------------

/// Listed edges run between listed vertices.
pub proof fn lemma_edge_listed_facts(occ: Seq<V3>, e: EdgeKey)
    requires
        voxels_in_range(occ),
        edge_list(occ).contains(e),
    ensures
        edge_ok(e),
        edge_vertices(e).len() == 2,
        vertex_list(occ).contains(edge_vertices(e)[0]),
        vertex_list(occ).contains(edge_vertices(e)[1]),
        edge_vertices(e)[0] != edge_vertices(e)[1],
{
    let (i, t) = lemma_listed_cell(occ, edges_of(), e);
    let c = occ[i];
    assert(cube_ok(c));
    lemma_cube_edge(c, t);
    let ev = edge_vertices(e);
    let a = choose|a: int| 0 <= a < cube_vertices(c).len() && cube_vertices(c)[a] == ev[0];
    let b = choose|b: int| 0 <= b < cube_vertices(c).len() && cube_vertices(c)[b] == ev[1];
    lemma_cell_listed(occ, vertices_of(), i, a);
    lemma_cell_listed(occ, vertices_of(), i, b);
}

/// Listed faces are bounded by four distinct listed edges.
pub proof fn lemma_face_listed_facts(occ: Seq<V3>, f: FaceKey)
    requires
        voxels_in_range(occ),
        face_list(occ).contains(f),
    ensures
        face_ok(f),
        face_edges(f).len() == 4,
        face_edges(f).no_duplicates(),
        forall|u: int| 0 <= u < 4 ==> edge_list(occ).contains(#[trigger] face_edges(f)[u]),
{
    let (i, t) = lemma_listed_cell(occ, faces_of(), f);
    let c = occ[i];
    assert(cube_ok(c));
    lemma_cube_face(c, t);
    assert forall|u: int| 0 <= u < 4 implies edge_list(occ).contains(#[trigger] face_edges(f)[u]) by {
        let fe = face_edges(f);
        assert(cube_edges(c).contains(fe[u]));
        let a = choose|a: int| 0 <= a < cube_edges(c).len() && cube_edges(c)[a] == fe[u];
        lemma_cell_listed(occ, edges_of(), i, a);
    }
}

/// The six faces of a listed voxel are distinct listed faces.
pub proof fn lemma_cube_faces_listed(occ: Seq<V3>, i: int)
    requires
        voxels_in_range(occ),
        0 <= i < occ.len(),
    ensures
        cube_faces(occ[i]).len() == 6,
        cube_faces(occ[i]).no_duplicates(),
        forall|t: int| 0 <= t < 6 ==> face_list(occ).contains(#[trigger] cube_faces(occ[i])[t]),
{
    assert(cube_ok(occ[i]));
    assert forall|t: int| 0 <= t < 6 implies face_list(occ).contains(#[trigger] cube_faces(occ[i])[t]) by {
        lemma_cell_listed(occ, faces_of(), i, t);
    }
}

pub proof fn lemma_lists_distinct(occ: Seq<V3>)
    ensures
        vertex_list(occ).no_duplicates(),
        edge_list(occ).no_duplicates(),
        face_list(occ).no_duplicates(),
{
    lemma_dedup(stream(occ, occ.len() as int, vertices_of()));
    lemma_dedup(stream(occ, occ.len() as int, edges_of()));
    lemma_dedup(stream(occ, occ.len() as int, faces_of()));
}


// ---------------------------------------------------------------------------
// Numbered cells and the boundary matrices
// ---------------------------------------------------------------------------

/// The sum of the columns of `d` numbered by the given cells.
pub open spec fn xor_cols<K>(d: Seq<Set<int>>, s: Seq<K>, keys: Seq<K>) -> Set<int>
    decreases keys.len(),
{
    if keys.len() == 0 {
        Set::empty()
    } else {
        sym_diff(xor_cols(d, s, keys.drop_last()), d[pos(s, keys.last())])
    }
}

pub proof fn lemma_positions_push<K>(s: Seq<K>, keys: Seq<K>, k: K)
    ensures
        positions_of(s, keys.push(k)) == positions_of(s, keys).insert(pos(s, k)),
{
    assert(keys.push(k).drop_last() =~= keys);
}

pub proof fn lemma_xor_cols_push<K>(d: Seq<Set<int>>, s: Seq<K>, keys: Seq<K>, k: K)
    ensures
        xor_cols(d, s, keys.push(k)) == sym_diff(xor_cols(d, s, keys), d[pos(s, k)]),
{
    assert(keys.push(k).drop_last() =~= keys);
}

pub proof fn lemma_positions_contains<K>(s: Seq<K>, keys: Seq<K>, i: int)
    ensures
        positions_of(s, keys).contains(i) <==> exists|t: int|
            0 <= t < keys.len() && i == pos(s, #[trigger] keys[t]),
    decreases keys.len(),
{
    if keys.len() > 0 {
        let kp = keys.drop_last();
        lemma_positions_contains(s, kp, i);
        if positions_of(s, keys).contains(i) {
            if i == pos(s, keys.last()) {
                assert(keys[keys.len() - 1] == keys.last());
            } else {
                let t = choose|t: int| 0 <= t < kp.len() && i == pos(s, #[trigger] kp[t]);
                assert(keys[t] == kp[t]);
            }
        }
        if exists|t: int| 0 <= t < keys.len() && i == pos(s, #[trigger] keys[t]) {
            let t = choose|t: int| 0 <= t < keys.len() && i == pos(s, #[trigger] keys[t]);
            if t < keys.len() - 1 {
                assert(kp[t] == keys[t]);
            }
        }
    }
}

/// The image of the numbers of distinct listed cells is the sum of their columns.
pub proof fn lemma_positions_boundary<K>(d: Seq<Set<int>>, s: Seq<K>, keys: Seq<K>)
    requires
        s.no_duplicates(),
        keys.no_duplicates(),
        forall|t: int| 0 <= t < keys.len() ==> s.contains(#[trigger] keys[t]),
        d.len() == s.len(),
    ensures
        boundary_of(d, positions_of(s, keys), s.len() as int) == xor_cols(d, s, keys),
    decreases keys.len(),
{
    if keys.len() == 0 {
        lemma_boundary_empty(d, s.len() as int);
    } else {
        let kp = keys.drop_last();
        let k = keys.last();
        assert(keys[keys.len() - 1] == k);
        assert(kp.no_duplicates()) by {
            assert forall|a: int, b: int| 0 <= a < b < kp.len() implies kp[a] != kp[b] by {
                assert(keys[a] == kp[a] && keys[b] == kp[b]);
            }
        }
        assert forall|t: int| 0 <= t < kp.len() implies s.contains(#[trigger] kp[t]) by {
            assert(keys[t] == kp[t]);
        }
        lemma_positions_boundary(d, s, kp);
        lemma_pos(s, k);
        assert(!positions_of(s, kp).contains(pos(s, k))) by {
            lemma_positions_contains(s, kp, pos(s, k));
            if positions_of(s, kp).contains(pos(s, k)) {
                let t = choose|t: int| 0 <= t < kp.len() && pos(s, k) == pos(s, #[trigger] kp[t]);
                assert(keys[t] == kp[t]);
                assert(kp[t] != k);
                lemma_pos_injective(s, kp[t], k);
            }
        }
        lemma_boundary_insert(d, positions_of(s, kp), pos(s, k), s.len() as int);
    }
}

/// Column of ∂₁ for a listed edge.
pub proof fn lemma_d1_col(occ: Seq<V3>, e: EdgeKey)
    requires
        voxels_in_range(occ),
        edge_list(occ).contains(e),
    ensures
        0 <= pos(edge_list(occ), e) < boundary_1(occ).len(),
        boundary_1(occ)[pos(edge_list(occ), e)] == Set::<int>::empty().insert(
            pos(vertex_list(occ), edge_vertices(e)[0]),
        ).insert(pos(vertex_list(occ), edge_vertices(e)[1])),
        pos(vertex_list(occ), edge_vertices(e)[0]) != pos(vertex_list(occ), edge_vertices(e)[1]),
{
    lemma_lists_distinct(occ);
    lemma_pos(edge_list(occ), e);
    lemma_edge_listed_facts(occ, e);
    let ev = edge_vertices(e);
    let v = vertex_list(occ);
    assert(ev =~= Seq::<V3>::empty().push(ev[0]).push(ev[1]));
    lemma_positions_push(v, Seq::<V3>::empty().push(ev[0]), ev[1]);
    lemma_positions_push(v, Seq::<V3>::empty(), ev[0]);
    lemma_pos_injective(v, ev[0], ev[1]);
}

/// Column of ∂₂ for a listed face.
pub proof fn lemma_d2_col(occ: Seq<V3>, f: FaceKey)
    requires
        voxels_in_range(occ),
        face_list(occ).contains(f),
    ensures
        0 <= pos(face_list(occ), f) < boundary_2(occ).len(),
        boundary_2(occ)[pos(face_list(occ), f)] == positions_of(edge_list(occ), face_edges(f)),
{
    lemma_lists_distinct(occ);
    lemma_pos(face_list(occ), f);
}

/// Four cells given by a literal list.
pub proof fn lemma_xor_cols_4<K>(d: Seq<Set<int>>, s: Seq<K>, a: K, b: K, c: K, e: K)
    ensures
        xor_cols(d, s, seq![a, b, c, e]) == sym_diff(
            sym_diff(sym_diff(sym_diff(Set::empty(), d[pos(s, a)]), d[pos(s, b)]), d[pos(s, c)]),
            d[pos(s, e)],
        ),
{
    let s0 = Seq::<K>::empty();
    assert(seq![a, b, c, e] =~= s0.push(a).push(b).push(c).push(e));
    lemma_xor_cols_push(d, s, s0, a);
    lemma_xor_cols_push(d, s, s0.push(a), b);
    lemma_xor_cols_push(d, s, s0.push(a).push(b), c);
    lemma_xor_cols_push(d, s, s0.push(a).push(b).push(c), e);
}

/// Four numbered cells given by a literal list.
pub proof fn lemma_positions_4<K>(s: Seq<K>, a: K, b: K, c: K, e: K)
    ensures
        positions_of(s, seq![a, b, c, e]) == Set::<int>::empty().insert(pos(s, a)).insert(
            pos(s, b),
        ).insert(pos(s, c)).insert(pos(s, e)),
{
    let s0 = Seq::<K>::empty();
    assert(seq![a, b, c, e] =~= s0.push(a).push(b).push(c).push(e));
    lemma_positions_push(s, s0, a);
    lemma_positions_push(s, s0.push(a), b);
    lemma_positions_push(s, s0.push(a).push(b), c);
    lemma_positions_push(s, s0.push(a).push(b).push(c), e);
}


// ---------------------------------------------------------------------------
// The boundary of a boundary is zero
// ---------------------------------------------------------------------------

proof fn lemma_face_boundary_zero(occ: Seq<V3>, f: FaceKey)
    requires
        voxels_in_range(occ),
        face_list(occ).contains(f),
    ensures
        boundary_of(boundary_1(occ), positions_of(edge_list(occ), face_edges(f)), edge_list(occ).len() as int)
            == Set::<int>::empty(),
{
    lemma_lists_distinct(occ);
    lemma_face_listed_facts(occ, f);
    let e = edge_list(occ);
    let v = vertex_list(occ);
    let d1 = boundary_1(occ);
    let fe = face_edges(f);
    lemma_positions_boundary(d1, e, fe);
    assert(fe =~= seq![fe[0], fe[1], fe[2], fe[3]]);
    lemma_xor_cols_4(d1, e, fe[0], fe[1], fe[2], fe[3]);
    lemma_d1_col(occ, fe[0]);
    lemma_d1_col(occ, fe[1]);
    lemma_d1_col(occ, fe[2]);
    lemma_d1_col(occ, fe[3]);
    let r = xor_cols(d1, e, fe);
    if f.3 == 0 && f.4 == 1 {
        assert(edge_vertices(fe[0])[0] == edge_vertices(fe[2])[0]);
        assert(edge_vertices(fe[0])[1] == edge_vertices(fe[3])[0]);
        assert(edge_vertices(fe[1])[0] == edge_vertices(fe[2])[1]);
        assert(edge_vertices(fe[1])[1] == edge_vertices(fe[3])[1]);
    } else if f.3 == 0 && f.4 == 2 {
        assert(edge_vertices(fe[0])[0] == edge_vertices(fe[2])[0]);
        assert(edge_vertices(fe[0])[1] == edge_vertices(fe[3])[0]);
        assert(edge_vertices(fe[1])[0] == edge_vertices(fe[2])[1]);
        assert(edge_vertices(fe[1])[1] == edge_vertices(fe[3])[1]);
    } else {
        assert(edge_vertices(fe[0])[0] == edge_vertices(fe[2])[0]);
        assert(edge_vertices(fe[0])[1] == edge_vertices(fe[3])[0]);
        assert(edge_vertices(fe[1])[0] == edge_vertices(fe[2])[1]);
        assert(edge_vertices(fe[1])[1] == edge_vertices(fe[3])[1]);
    }
    assert(r =~= Set::<int>::empty());
}

/// ∂₁ ∘ ∂₂ = 0 on the cubical complex of any list of voxels.
pub proof fn lemma_d1_d2_zero(occ: Seq<V3>)
    requires
        voxels_in_range(occ),
    ensures
        composes_to_zero(boundary_1(occ), boundary_2(occ)),
{
    let fl = face_list(occ);
    assert forall|j: int| 0 <= j < boundary_2(occ).len() implies #[trigger] boundary_of(
        boundary_1(occ),
        boundary_2(occ)[j],
        boundary_1(occ).len() as int,
    ) == Set::<int>::empty() by {
        assert(fl.contains(fl[j]));
        lemma_face_boundary_zero(occ, fl[j]);
    }
}


pub proof fn lemma_pos_injective_all<K>(s: Seq<K>)
    requires
        s.no_duplicates(),
    ensures
        forall|a: K, b: K|
            s.contains(a) && s.contains(b) && a != b ==> #[trigger] pos(s, a) != #[trigger] pos(s, b),
{
    assert forall|a: K, b: K| s.contains(a) && s.contains(b) && a != b implies #[trigger] pos(s, a)
        != #[trigger] pos(s, b) by {
        lemma_pos_injective(s, a, b);
    }
}

/// Six cells given by a literal list.
pub proof fn lemma_xor_cols_6<K>(d: Seq<Set<int>>, s: Seq<K>, k: Seq<K>)
    requires
        k.len() == 6,
    ensures
        xor_cols(d, s, k) == sym_diff(
            sym_diff(
                sym_diff(
                    sym_diff(sym_diff(sym_diff(Set::empty(), d[pos(s, k[0])]), d[pos(s, k[1])]), d[pos(s, k[2])]),
                    d[pos(s, k[3])],
                ),
                d[pos(s, k[4])],
            ),
            d[pos(s, k[5])],
        ),
{
    let s0 = Seq::<K>::empty();
    assert(k =~= s0.push(k[0]).push(k[1]).push(k[2]).push(k[3]).push(k[4]).push(k[5]));
    lemma_xor_cols_push(d, s, s0, k[0]);
    lemma_xor_cols_push(d, s, s0.push(k[0]), k[1]);
    lemma_xor_cols_push(d, s, s0.push(k[0]).push(k[1]), k[2]);
    lemma_xor_cols_push(d, s, s0.push(k[0]).push(k[1]).push(k[2]), k[3]);
    lemma_xor_cols_push(d, s, s0.push(k[0]).push(k[1]).push(k[2]).push(k[3]), k[4]);
    lemma_xor_cols_push(d, s, s0.push(k[0]).push(k[1]).push(k[2]).push(k[3]).push(k[4]), k[5]);
}

proof fn lemma_face_col_explicit(occ: Seq<V3>, f: FaceKey)
    requires
        voxels_in_range(occ),
        face_list(occ).contains(f),
    ensures
        boundary_2(occ)[pos(face_list(occ), f)] == Set::<int>::empty().insert(
            pos(edge_list(occ), face_edges(f)[0]),
        ).insert(pos(edge_list(occ), face_edges(f)[1])).insert(
            pos(edge_list(occ), face_edges(f)[2]),
        ).insert(pos(edge_list(occ), face_edges(f)[3])),
{
    lemma_d2_col(occ, f);
    lemma_face_listed_facts(occ, f);
    let fe = face_edges(f);
    assert(fe =~= seq![fe[0], fe[1], fe[2], fe[3]]);
    lemma_positions_4(edge_list(occ), fe[0], fe[1], fe[2], fe[3]);
}

#[verifier::rlimit(30)]
proof fn lemma_cube_boundary_zero(occ: Seq<V3>, i: int)
    requires
        voxels_in_range(occ),
        0 <= i < occ.len(),
    ensures
        boundary_of(boundary_2(occ), boundary_3(occ)[i], face_list(occ).len() as int)
            == Set::<int>::empty(),
{
    lemma_lists_distinct(occ);
    lemma_cube_faces_listed(occ, i);
    let c = occ[i];
    assert(cube_ok(c));
    let fl = face_list(occ);
    let el = edge_list(occ);
    let d2 = boundary_2(occ);
    let cf = cube_faces(c);
    assert(boundary_3(occ)[i] == positions_of(fl, cf));
    lemma_positions_boundary(d2, fl, cf);
    lemma_xor_cols_6(d2, fl, cf);
    lemma_face_col_explicit(occ, cf[0]);
    lemma_face_col_explicit(occ, cf[1]);
    lemma_face_col_explicit(occ, cf[2]);
    lemma_face_col_explicit(occ, cf[3]);
    lemma_face_col_explicit(occ, cf[4]);
    lemma_face_col_explicit(occ, cf[5]);
    assert forall|t: int| 0 <= t < 12 implies el.contains(#[trigger] cube_edges(c)[t]) by {
        lemma_cell_listed(occ, edges_of(), i, t);
    }
    lemma_pos_injective_all(el);
    let ce = cube_edges(c);
    let p = Seq::new(12, |t: int| pos(el, ce[t]));
    assert forall|a: int, b: int| 0 <= a < 12 && 0 <= b < 12 && a != b implies p[a] != p[b] by {
        assert(el.contains(ce[a]) && el.contains(ce[b]));
        assert(ce[a] != ce[b]);
    }
    assert(face_edges(cf[0]) == seq![ce[0], ce[1], ce[4], ce[5]]);
    assert(face_edges(cf[1]) == seq![ce[2], ce[3], ce[6], ce[7]]);
    assert(face_edges(cf[2]) == seq![ce[0], ce[2], ce[8], ce[9]]);
    assert(face_edges(cf[3]) == seq![ce[1], ce[3], ce[10], ce[11]]);
    assert(face_edges(cf[4]) == seq![ce[4], ce[6], ce[8], ce[10]]);
    assert(face_edges(cf[5]) == seq![ce[5], ce[7], ce[9], ce[11]]);
    let r = xor_cols(d2, fl, cf);
    assert(r =~= Set::<int>::empty());
}

/// Every edge column of ∂₁ holds exactly its two endpoints.
pub proof fn lemma_d1_columns_even(occ: Seq<V3>)
    requires
        voxels_in_range(occ),
    ensures
        forall|j: int| 0 <= j < boundary_1(occ).len() ==> even(#[trigger] boundary_1(occ)[j]),
{
    lemma_lists_distinct(occ);
    let el = edge_list(occ);
    assert forall|j: int| 0 <= j < boundary_1(occ).len() implies even(#[trigger] boundary_1(occ)[j]) by {
        assert(el.contains(el[j]));
        lemma_d1_col(occ, el[j]);
        lemma_pos(el, el[j]);
        assert(pos(el, el[j]) == j);
        let a = pos(vertex_list(occ), edge_vertices(el[j])[0]);
        let b = pos(vertex_list(occ), edge_vertices(el[j])[1]);
        assert(Set::<int>::empty().insert(a).len() == 1);
        assert(Set::<int>::empty().insert(a).insert(b).len() == 2);
    }
}

/// A nonempty list of voxels spans at least one vertex.
pub proof fn lemma_vertices_nonempty(occ: Seq<V3>)
    requires
        occ.len() > 0,
    ensures
        vertex_list(occ).len() > 0,
{
    lemma_cell_listed(occ, vertices_of(), 0, 0);
}

/// ∂₂ ∘ ∂₃ = 0 on the cubical complex of any list of voxels.
pub proof fn lemma_d2_d3_zero(occ: Seq<V3>)
    requires
        voxels_in_range(occ),
    ensures
        composes_to_zero(boundary_2(occ), boundary_3(occ)),
{
    assert forall|j: int| 0 <= j < boundary_3(occ).len() implies #[trigger] boundary_of(
        boundary_2(occ),
        boundary_3(occ)[j],
        boundary_2(occ).len() as int,
    ) == Set::<int>::empty() by {
        lemma_cube_boundary_zero(occ, j);
    }
}

} // verus!
