//! Moving every voxel by the same offset leaves the Betti numbers unchanged.

use vstd::prelude::*;
use crate::universe::cubical::{
    boundary_1, boundary_2, boundary_3, cube_edges, cube_faces, cube_vertices, dedup, edge_list,
    edge_vertices, edges_of, face_edges, face_list, faces_of, lemma_cell_listed,
    lemma_cube_faces_listed, lemma_listed_cell, lemma_lists_distinct, lemma_pos, pos, positions_of, stream, vertex_list, vertices_of, voxels_in_range, EdgeKey, FaceKey, V3,
};
use crate::universe::gf2::{
    col_renamed_from, col_renamed_into, gf2_rank, lemma_rank_renamed, one_to_one, renamed_from,
    renamed_into,
};
use crate::universe::invariance::{betti_of, lemma_betti_same_voxels, same_voxels};

verus! {

/// `v` moved by `t`.
pub open spec fn shift_v(t: V3, v: V3) -> V3 {
    ((v.0 + t.0) as usize, (v.1 + t.1) as usize, (v.2 + t.2) as usize)
}

/// Edge `e` moved by `t`.
pub open spec fn shift_e(t: V3, e: EdgeKey) -> EdgeKey {
    ((e.0 + t.0) as usize, (e.1 + t.1) as usize, (e.2 + t.2) as usize, e.3)
}

/// Face `f` moved by `t`.
pub open spec fn shift_f(t: V3, f: FaceKey) -> FaceKey {
    ((f.0 + t.0) as usize, (f.1 + t.1) as usize, (f.2 + t.2) as usize, f.3, f.4)
}

/// Every voxel moved by `t`.
pub open spec fn translate(occ: Seq<V3>, t: V3) -> Seq<V3> {
    occ.map_values(|c: V3| shift_v(t, c))
}

/// Voxel `c` moved by `t` still has a successor along each axis.
pub open spec fn shift_fits(t: V3, c: V3) -> bool {
    &&& c.0 + t.0 < usize::MAX
    &&& c.1 + t.1 < usize::MAX
    &&& c.2 + t.2 < usize::MAX
}

/// Every voxel of `occ` moved by `t` still has a successor along each axis.
pub open spec fn translation_fits(occ: Seq<V3>, t: V3) -> bool {
    forall|i: int| 0 <= i < occ.len() ==> shift_fits(t, #[trigger] occ[i])
}

/// The cells of a moved voxel are its cells moved, and so are their boundaries.
proof fn lemma_shift_cube(t: V3, c: V3)
    requires
        shift_fits(t, c),
    ensures
        cube_vertices(shift_v(t, c)) == cube_vertices(c).map_values(|v: V3| shift_v(t, v)),
        cube_edges(shift_v(t, c)) == cube_edges(c).map_values(|e: EdgeKey| shift_e(t, e)),
        cube_faces(shift_v(t, c)) == cube_faces(c).map_values(|f: FaceKey| shift_f(t, f)),
        forall|u: int|
            0 <= u < 12 ==> edge_vertices(shift_e(t, #[trigger] cube_edges(c)[u])) == edge_vertices(
                cube_edges(c)[u],
            ).map_values(|v: V3| shift_v(t, v)),
        forall|u: int|
            0 <= u < 6 ==> face_edges(shift_f(t, #[trigger] cube_faces(c)[u])) == face_edges(
                cube_faces(c)[u],
            ).map_values(|e: EdgeKey| shift_e(t, e)),
{
    assert(cube_vertices(shift_v(t, c)) =~= cube_vertices(c).map_values(|v: V3| shift_v(t, v)));
    assert(cube_edges(shift_v(t, c)) =~= cube_edges(c).map_values(|e: EdgeKey| shift_e(t, e)));
    assert(cube_faces(shift_v(t, c)) =~= cube_faces(c).map_values(|f: FaceKey| shift_f(t, f)));
    assert forall|u: int| 0 <= u < 12 implies edge_vertices(shift_e(t, #[trigger] cube_edges(c)[u]))
        == edge_vertices(cube_edges(c)[u]).map_values(|v: V3| shift_v(t, v)) by {
        assert(edge_vertices(shift_e(t, cube_edges(c)[u])) =~= edge_vertices(cube_edges(c)[u]).map_values(
            |v: V3| shift_v(t, v),
        ));
    }
    assert forall|u: int| 0 <= u < 6 implies face_edges(shift_f(t, #[trigger] cube_faces(c)[u]))
        == face_edges(cube_faces(c)[u]).map_values(|e: EdgeKey| shift_e(t, e)) by {
        assert(face_edges(shift_f(t, cube_faces(c)[u])) =~= face_edges(cube_faces(c)[u]).map_values(
            |e: EdgeKey| shift_e(t, e),
        ));
    }
}

/// The cells listed for the moved voxels are the moved cells listed for the voxels.
proof fn lemma_moved_cells<K>(
    o1: Seq<V3>,
    t: V3,
    cells: spec_fn(V3) -> Seq<K>,
    g: spec_fn(K) -> K,
)
    requires
        forall|i: int| 0 <= i < o1.len() ==> #[trigger] cells(shift_v(t, o1[i])) == cells(o1[i]).map_values(g),
    ensures
        forall|k: K|
            #[trigger] dedup(stream(o1, o1.len() as int, cells)).contains(k) ==> dedup(
                stream(translate(o1, t), o1.len() as int, cells),
            ).contains(g(k)),
        forall|k: K|
            #[trigger] dedup(stream(translate(o1, t), o1.len() as int, cells)).contains(k) ==> exists|k1: K|
                dedup(stream(o1, o1.len() as int, cells)).contains(k1) && k == #[trigger] g(k1),
{
    let o2 = translate(o1, t);
    assert(o2.len() == o1.len());
    assert forall|k: K| #[trigger] dedup(stream(o1, o1.len() as int, cells)).contains(k) implies dedup(
        stream(o2, o1.len() as int, cells),
    ).contains(g(k)) by {
        let (i, u) = lemma_listed_cell(o1, cells, k);
        assert(o2[i] == shift_v(t, o1[i]));
        assert(cells(o2[i]) == cells(o1[i]).map_values(g));
        lemma_cell_listed(o2, cells, i, u);
    }
    assert forall|k: K| #[trigger] dedup(stream(o2, o1.len() as int, cells)).contains(k) implies exists|k1: K|
        dedup(stream(o1, o1.len() as int, cells)).contains(k1) && k == #[trigger] g(k1) by {
        let (i, u) = lemma_listed_cell(o2, cells, k);
        assert(o2[i] == shift_v(t, o1[i]));
        assert(cells(o2[i]) == cells(o1[i]).map_values(g));
        lemma_cell_listed(o1, cells, i, u);
        assert(g(cells(o1[i])[u]) == k);
    }
}

/// Renumbering from `s1` to `s2` through the key map `g`.
pub open spec fn renumber_by<K>(s1: Seq<K>, s2: Seq<K>, g: spec_fn(K) -> K) -> spec_fn(int) -> int {
    |i: int|
        if 0 <= i < s1.len() {
            pos(s2, g(s1[i]))
        } else {
            i
        }
}

/// `s2` lists exactly the keys of `s1` moved by the one-to-one map `g`.
pub open spec fn moved_list<K>(s1: Seq<K>, s2: Seq<K>, g: spec_fn(K) -> K) -> bool {
    &&& s1.no_duplicates()
    &&& s2.no_duplicates()
    &&& forall|k: K| #[trigger] s1.contains(k) ==> s2.contains(g(k))
    &&& forall|k: K| #[trigger] s2.contains(k) ==> exists|k1: K| s1.contains(k1) && k == #[trigger] g(k1)
    &&& forall|a: K, b: K| s1.contains(a) && s1.contains(b) && #[trigger] g(a) == #[trigger] g(b) ==> a == b
}

/// The two lists have the same length, and renumbering between them is one to one.
proof fn lemma_renumber_by<K>(s1: Seq<K>, s2: Seq<K>, g: spec_fn(K) -> K)
    requires
        moved_list(s1, s2, g),
    ensures
        s1.len() == s2.len(),
        one_to_one(renumber_by(s1, s2, g)),
{
    s1.unique_seq_to_set();
    s2.unique_seq_to_set();
    assert(s1.to_set().map(g) =~= s2.to_set()) by {
        assert forall|k: K| s2.to_set().contains(k) implies s1.to_set().map(g).contains(k) by {
            let k1 = choose|k1: K| s1.contains(k1) && k == #[trigger] g(k1);
            assert(s1.to_set().contains(k1));
        }
    }
    assert(vstd::relations::injective_on(g, s1.to_set()));
    vstd::set_lib::lemma_map_size(s1.to_set(), s2.to_set(), g);
    let f = renumber_by(s1, s2, g);
    assert forall|x: int, y: int| #[trigger] f(x) == #[trigger] f(y) implies x == y by {
        if 0 <= x < s1.len() {
            assert(s1.contains(s1[x]));
            lemma_pos(s2, g(s1[x]));
        }
        if 0 <= y < s1.len() {
            assert(s1.contains(s1[y]));
            lemma_pos(s2, g(s1[y]));
        }
        if 0 <= x < s1.len() && 0 <= y < s1.len() {
            assert(s1[x] == s1[y]);
        }
    }
}

/// Renumbering the positions of keys listed in `s1` gives the positions of the moved keys in `s2`.
proof fn lemma_positions_moved<K>(s1: Seq<K>, s2: Seq<K>, g: spec_fn(K) -> K, keys: Seq<K>)
    requires
        moved_list(s1, s2, g),
        forall|u: int| 0 <= u < keys.len() ==> s1.contains(#[trigger] keys[u]),
    ensures
        positions_of(s1, keys).map(renumber_by(s1, s2, g)) == positions_of(s2, keys.map_values(g)),
    decreases keys.len(),
{
    let f = renumber_by(s1, s2, g);
    if keys.len() == 0 {
        assert(positions_of(s1, keys).map(f) =~= Set::<int>::empty());
        assert(keys.map_values(g) =~= Seq::<K>::empty());
    } else {
        let k = keys.last();
        assert(s1.contains(keys[keys.len() - 1]));
        lemma_positions_moved(s1, s2, g, keys.drop_last());
        assert(keys.map_values(g).drop_last() =~= keys.drop_last().map_values(g));
        assert(keys.map_values(g).last() == g(k));
        lemma_pos(s1, k);
        lemma_pos(s2, g(k));
        assert(f(pos(s1, k)) == pos(s2, g(k)));
        let p = positions_of(s1, keys.drop_last());
        let q = pos(s1, k);
        assert forall|x: int| #[trigger] p.insert(q).map(f).contains(x) <==> p.map(f).insert(f(q)).contains(x) by {
            if p.insert(q).map(f).contains(x) {
                let y = choose|y: int| p.insert(q).contains(y) && f(y) == x;
                if y != q {
                    assert(p.contains(y));
                    assert(p.map(f).contains(x));
                }
            }
            if p.map(f).insert(f(q)).contains(x) {
                if x == f(q) {
                    assert(p.insert(q).contains(q));
                } else {
                    let y = choose|y: int| p.contains(y) && f(y) == x;
                    assert(p.insert(q).contains(y));
                }
            }
        }
        assert(p.insert(q).map(f) =~= p.map(f).insert(f(q)));
    }
}

/// `v` moved by `t` does not wrap around.
pub open spec fn fits_v(t: V3, v: V3) -> bool {
    v.0 + t.0 <= usize::MAX && v.1 + t.1 <= usize::MAX && v.2 + t.2 <= usize::MAX
}

/// `e` moved by `t` does not wrap around.
pub open spec fn fits_e(t: V3, e: EdgeKey) -> bool {
    e.0 + t.0 <= usize::MAX && e.1 + t.1 <= usize::MAX && e.2 + t.2 <= usize::MAX
}

/// `f` moved by `t` does not wrap around.
pub open spec fn fits_f(t: V3, f: FaceKey) -> bool {
    f.0 + t.0 <= usize::MAX && f.1 + t.1 <= usize::MAX && f.2 + t.2 <= usize::MAX
}

/// The cells of a voxel that fits do not wrap around when moved.
proof fn lemma_cube_cells_fit(t: V3, c: V3)
    requires
        shift_fits(t, c),
    ensures
        forall|u: int| 0 <= u < 8 ==> fits_v(t, #[trigger] cube_vertices(c)[u]),
        forall|u: int| 0 <= u < 12 ==> fits_e(t, #[trigger] cube_edges(c)[u]),
        forall|u: int| 0 <= u < 6 ==> fits_f(t, #[trigger] cube_faces(c)[u]),
{
    assert forall|u: int| 0 <= u < 8 implies fits_v(t, #[trigger] cube_vertices(c)[u]) by {}
    assert forall|u: int| 0 <= u < 12 implies fits_e(t, #[trigger] cube_edges(c)[u]) by {}
    assert forall|u: int| 0 <= u < 6 implies fits_f(t, #[trigger] cube_faces(c)[u]) by {}
}

/// The lists of cells of the moved voxels are the moved lists.
proof fn lemma_lists_moved(o1: Seq<V3>, t: V3)
    requires
        translation_fits(o1, t),
    ensures
        voxels_in_range(o1),
        voxels_in_range(translate(o1, t)),
        moved_list(vertex_list(o1), vertex_list(translate(o1, t)), |v: V3| shift_v(t, v)),
        moved_list(edge_list(o1), edge_list(translate(o1, t)), |e: EdgeKey| shift_e(t, e)),
        moved_list(face_list(o1), face_list(translate(o1, t)), |f: FaceKey| shift_f(t, f)),
        forall|e: EdgeKey|
            #[trigger] edge_list(o1).contains(e) ==> edge_vertices(shift_e(t, e)) == edge_vertices(e).map_values(
                |v: V3| shift_v(t, v),
            ),
        forall|f: FaceKey|
            #[trigger] face_list(o1).contains(f) ==> face_edges(shift_f(t, f)) == face_edges(f).map_values(
                |e: EdgeKey| shift_e(t, e),
            ),
{
    let o2 = translate(o1, t);
    let gv = |v: V3| shift_v(t, v);
    let ge = |e: EdgeKey| shift_e(t, e);
    let gf = |f: FaceKey| shift_f(t, f);
    assert forall|i: int| 0 <= i < o1.len() implies #[trigger] vertices_of()(shift_v(t, o1[i])) == vertices_of()(
        o1[i],
    ).map_values(gv) by {
        assert(shift_fits(t, o1[i]));
        lemma_shift_cube(t, o1[i]);
    }
    assert forall|i: int| 0 <= i < o1.len() implies #[trigger] edges_of()(shift_v(t, o1[i])) == edges_of()(
        o1[i],
    ).map_values(ge) by {
        assert(shift_fits(t, o1[i]));
        lemma_shift_cube(t, o1[i]);
    }
    assert forall|i: int| 0 <= i < o1.len() implies #[trigger] faces_of()(shift_v(t, o1[i])) == faces_of()(
        o1[i],
    ).map_values(gf) by {
        assert(shift_fits(t, o1[i]));
        lemma_shift_cube(t, o1[i]);
    }
    assert(voxels_in_range(o1)) by {
        assert forall|i: int| 0 <= i < o1.len() implies crate::universe::cubical::cube_ok(#[trigger] o1[i]) by {
            assert(shift_fits(t, o1[i]));
        }
    }
    assert(voxels_in_range(o2)) by {
        assert forall|i: int| 0 <= i < o2.len() implies crate::universe::cubical::cube_ok(#[trigger] o2[i]) by {
            assert(shift_fits(t, o1[i]));
        }
    }
    lemma_moved_cells(o1, t, vertices_of(), gv);
    lemma_moved_cells(o1, t, edges_of(), ge);
    lemma_moved_cells(o1, t, faces_of(), gf);
    lemma_lists_distinct(o1);
    lemma_lists_distinct(o2);
    assert forall|a: V3, b: V3|
        vertex_list(o1).contains(a) && vertex_list(o1).contains(b) && #[trigger] gv(a) == #[trigger] gv(b) implies a == b by {
        let (i, u) = lemma_listed_cell(o1, vertices_of(), a);
        let (j, w) = lemma_listed_cell(o1, vertices_of(), b);
        assert(shift_fits(t, o1[i]) && shift_fits(t, o1[j]));
        lemma_cube_cells_fit(t, o1[i]);
        lemma_cube_cells_fit(t, o1[j]);
        assert(fits_v(t, cube_vertices(o1[i])[u]) && fits_v(t, cube_vertices(o1[j])[w]));
    }
    assert forall|a: EdgeKey, b: EdgeKey|
        edge_list(o1).contains(a) && edge_list(o1).contains(b) && #[trigger] ge(a) == #[trigger] ge(b) implies a == b by {
        let (i, u) = lemma_listed_cell(o1, edges_of(), a);
        let (j, w) = lemma_listed_cell(o1, edges_of(), b);
        assert(shift_fits(t, o1[i]) && shift_fits(t, o1[j]));
        lemma_cube_cells_fit(t, o1[i]);
        lemma_cube_cells_fit(t, o1[j]);
        assert(fits_e(t, cube_edges(o1[i])[u]) && fits_e(t, cube_edges(o1[j])[w]));
    }
    assert forall|a: FaceKey, b: FaceKey|
        face_list(o1).contains(a) && face_list(o1).contains(b) && #[trigger] gf(a) == #[trigger] gf(b) implies a == b by {
        let (i, u) = lemma_listed_cell(o1, faces_of(), a);
        let (j, w) = lemma_listed_cell(o1, faces_of(), b);
        assert(shift_fits(t, o1[i]) && shift_fits(t, o1[j]));
        lemma_cube_cells_fit(t, o1[i]);
        lemma_cube_cells_fit(t, o1[j]);
        assert(fits_f(t, cube_faces(o1[i])[u]) && fits_f(t, cube_faces(o1[j])[w]));
    }
    assert forall|e: EdgeKey| #[trigger] edge_list(o1).contains(e) implies edge_vertices(shift_e(t, e))
        == edge_vertices(e).map_values(|v: V3| shift_v(t, v)) by {
        let (i, u) = lemma_listed_cell(o1, edges_of(), e);
        assert(shift_fits(t, o1[i]));
        lemma_shift_cube(t, o1[i]);
    }
    assert forall|f: FaceKey| #[trigger] face_list(o1).contains(f) implies face_edges(shift_f(t, f))
        == face_edges(f).map_values(|e: EdgeKey| shift_e(t, e)) by {
        let (i, u) = lemma_listed_cell(o1, faces_of(), f);
        assert(shift_fits(t, o1[i]));
        lemma_shift_cube(t, o1[i]);
    }
}

proof fn lemma_rank1_moved(o1: Seq<V3>, t: V3)
    requires
        translation_fits(o1, t),
    ensures
        gf2_rank(boundary_1(o1)) == gf2_rank(boundary_1(translate(o1, t))),
{
    let o2 = translate(o1, t);
    lemma_lists_moved(o1, t);
    let gv = |v: V3| shift_v(t, v);
    let ge = |e: EdgeKey| shift_e(t, e);
    let vl1 = vertex_list(o1);
    let vl2 = vertex_list(o2);
    let el1 = edge_list(o1);
    let el2 = edge_list(o2);
    lemma_renumber_by(vl1, vl2, gv);
    let a = boundary_1(o1);
    let b = boundary_1(o2);
    let f = renumber_by(vl1, vl2, gv);
    assert forall|j: int| 0 <= j < b.len() implies #[trigger] col_renamed_from(b, a, f, j) by {
        assert(el2.contains(el2[j]));
        let e = choose|e: EdgeKey| el1.contains(e) && el2[j] == #[trigger] ge(e);
        lemma_pos(el1, e);
        crate::universe::cubical::lemma_edge_listed_facts(o1, e);
        lemma_positions_moved(vl1, vl2, gv, edge_vertices(e));
        let i = pos(el1, e);
        assert(a[i] == positions_of(vl1, edge_vertices(e)));
        assert(b[j] == positions_of(vl2, edge_vertices(e).map_values(gv)));
        assert(0 <= i < a.len() && b[j] == a[i].map(f));
    }
    assert forall|i: int| 0 <= i < a.len() implies #[trigger] col_renamed_into(a, b, f, i) by {
        let e = el1[i];
        assert(el1.contains(e));
        lemma_pos(el2, ge(e));
        crate::universe::cubical::lemma_edge_listed_facts(o1, e);
        lemma_positions_moved(vl1, vl2, gv, edge_vertices(e));
        let j = pos(el2, ge(e));
        assert(b[j] == positions_of(vl2, edge_vertices(e).map_values(gv)));
        assert(0 <= j < b.len() && b[j] == a[i].map(f));
    }
    assert(renamed_from(b, a, f));
    assert(renamed_into(a, b, f));
    lemma_rank_renamed(a, b, f);
}

proof fn lemma_rank2_moved(o1: Seq<V3>, t: V3)
    requires
        translation_fits(o1, t),
    ensures
        gf2_rank(boundary_2(o1)) == gf2_rank(boundary_2(translate(o1, t))),
{
    let o2 = translate(o1, t);
    lemma_lists_moved(o1, t);
    let ge = |e: EdgeKey| shift_e(t, e);
    let gf = |f: FaceKey| shift_f(t, f);
    let el1 = edge_list(o1);
    let el2 = edge_list(o2);
    let fl1 = face_list(o1);
    let fl2 = face_list(o2);
    lemma_renumber_by(el1, el2, ge);
    let a = boundary_2(o1);
    let b = boundary_2(o2);
    let f = renumber_by(el1, el2, ge);
    assert forall|j: int| 0 <= j < b.len() implies #[trigger] col_renamed_from(b, a, f, j) by {
        assert(fl2.contains(fl2[j]));
        let x = choose|x: FaceKey| fl1.contains(x) && fl2[j] == #[trigger] gf(x);
        lemma_pos(fl1, x);
        crate::universe::cubical::lemma_face_listed_facts(o1, x);
        lemma_positions_moved(el1, el2, ge, face_edges(x));
        let i = pos(fl1, x);
        assert(a[i] == positions_of(el1, face_edges(x)));
        assert(b[j] == positions_of(el2, face_edges(x).map_values(ge)));
        assert(0 <= i < a.len() && b[j] == a[i].map(f));
    }
    assert forall|i: int| 0 <= i < a.len() implies #[trigger] col_renamed_into(a, b, f, i) by {
        let x = fl1[i];
        assert(fl1.contains(x));
        lemma_pos(fl2, gf(x));
        crate::universe::cubical::lemma_face_listed_facts(o1, x);
        lemma_positions_moved(el1, el2, ge, face_edges(x));
        let j = pos(fl2, gf(x));
        assert(b[j] == positions_of(el2, face_edges(x).map_values(ge)));
        assert(0 <= j < b.len() && b[j] == a[i].map(f));
    }
    assert(renamed_from(b, a, f));
    assert(renamed_into(a, b, f));
    lemma_rank_renamed(a, b, f);
}

proof fn lemma_rank3_moved(o1: Seq<V3>, t: V3)
    requires
        translation_fits(o1, t),
    ensures
        gf2_rank(boundary_3(o1)) == gf2_rank(boundary_3(translate(o1, t))),
{
    let o2 = translate(o1, t);
    lemma_lists_moved(o1, t);
    let gf = |f: FaceKey| shift_f(t, f);
    let fl1 = face_list(o1);
    let fl2 = face_list(o2);
    lemma_renumber_by(fl1, fl2, gf);
    let a = boundary_3(o1);
    let b = boundary_3(o2);
    let f = renumber_by(fl1, fl2, gf);
    assert forall|i: int| 0 <= i < a.len() implies b[i] == a[i].map(f) by {
        assert(shift_fits(t, o1[i]));
        lemma_shift_cube(t, o1[i]);
        lemma_cube_faces_listed(o1, i);
        lemma_positions_moved(fl1, fl2, gf, cube_faces(o1[i]));
        assert(o2[i] == shift_v(t, o1[i]));
    }
    assert forall|j: int| 0 <= j < b.len() implies #[trigger] col_renamed_from(b, a, f, j) by {
        assert(b[j] == a[j].map(f));
    }
    assert forall|i: int| 0 <= i < a.len() implies #[trigger] col_renamed_into(a, b, f, i) by {
        assert(b[i] == a[i].map(f));
    }
    assert(renamed_from(b, a, f));
    assert(renamed_into(a, b, f));
    lemma_rank_renamed(a, b, f);
}

/// Moving every voxel by the same offset leaves the Betti numbers unchanged.
pub proof fn lemma_betti_translated(occ: Seq<V3>, t: V3)
    requires
        translation_fits(occ, t),
    ensures
        betti_of(translate(occ, t)) == betti_of(occ),
{
    let o2 = translate(occ, t);
    lemma_lists_moved(occ, t);
    lemma_renumber_by(vertex_list(occ), vertex_list(o2), |v: V3| shift_v(t, v));
    lemma_renumber_by(edge_list(occ), edge_list(o2), |e: EdgeKey| shift_e(t, e));
    lemma_renumber_by(face_list(occ), face_list(o2), |f: FaceKey| shift_f(t, f));
    lemma_rank1_moved(occ, t);
    lemma_rank2_moved(occ, t);
    lemma_rank3_moved(occ, t);
}

/// Moving the voxels by one offset, reordering them and repeating some leaves
/// the Betti numbers unchanged: `betti_numbers` gives the same result on both lists.
pub proof fn lemma_betti_invariant(o1: Seq<V3>, o2: Seq<V3>, t: V3)
    requires
        translation_fits(o1, t),
        same_voxels(translate(o1, t), o2),
    ensures
        betti_of(o2) == betti_of(o1),
{
    let m = translate(o1, t);
    lemma_lists_moved(o1, t);
    assert(voxels_in_range(o2)) by {
        assert forall|i: int| 0 <= i < o2.len() implies crate::universe::cubical::cube_ok(#[trigger] o2[i]) by {
            assert(o2.contains(o2[i]));
            let j = choose|j: int| 0 <= j < m.len() && m[j] == o2[i];
        }
    }
    lemma_betti_translated(o1, t);
    lemma_betti_same_voxels(m, o2);
}

} // verus!
