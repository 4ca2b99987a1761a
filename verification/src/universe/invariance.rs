//! The Betti numbers depend only on the set of voxels: not on their order,
//! not on repeats, and not on where the set sits in the grid.

use vstd::prelude::*;
use crate::universe::cubical::{
    boundary_1, boundary_2, boundary_3, cube_faces, dedup, edge_list, edge_vertices, edges_of,
    face_edges, face_list, faces_of, lemma_cell_listed, lemma_cube_faces_listed,
    lemma_edge_listed_facts, lemma_face_listed_facts, lemma_listed_cell, lemma_lists_distinct,
    lemma_pos, pos, positions_of, stream, vertex_list, vertices_of, voxels_in_range, V3,
};
use crate::universe::gf2::{
    col_renamed_from, col_renamed_into, gf2_rank, lemma_rank_renamed, one_to_one, renamed_from,
    renamed_into,
};

verus! {

/// Two voxel lists hold the same voxels, in any order and with any repeats.
pub open spec fn same_voxels(a: Seq<V3>, b: Seq<V3>) -> bool {
    forall|v: V3| a.contains(v) <==> b.contains(v)
}

/// The Betti numbers β₀, β₁, β₂ of the cubical complex of `occ` over Z₂.
pub open spec fn betti_of(occ: Seq<V3>) -> (int, int, int) {
    (
        vertex_list(occ).len() - gf2_rank(boundary_1(occ)),
        edge_list(occ).len() - gf2_rank(boundary_1(occ)) - gf2_rank(boundary_2(occ)),
        face_list(occ).len() - gf2_rank(boundary_2(occ)) - gf2_rank(boundary_3(occ)),
    )
}

/// The renumbering that sends the position of a key in `s1` to its position in `s2`.
pub open spec fn renumber<K>(s1: Seq<K>, s2: Seq<K>) -> spec_fn(int) -> int {
    |i: int|
        if 0 <= i < s1.len() {
            pos(s2, s1[i])
        } else {
            i
        }
}

/// The same voxels produce the same cells.
proof fn lemma_same_cells<K>(o1: Seq<V3>, o2: Seq<V3>, cells: spec_fn(V3) -> Seq<K>)
    requires
        same_voxels(o1, o2),
    ensures
        forall|k: K|
            dedup(stream(o1, o1.len() as int, cells)).contains(k) <==> dedup(
                stream(o2, o2.len() as int, cells),
            ).contains(k),
{
    assert forall|k: K|
        dedup(stream(o1, o1.len() as int, cells)).contains(k) <==> dedup(
            stream(o2, o2.len() as int, cells),
        ).contains(k) by {
        if dedup(stream(o1, o1.len() as int, cells)).contains(k) {
            let (i, t) = lemma_listed_cell(o1, cells, k);
            assert(o1.contains(o1[i]));
            let j = choose|j: int| 0 <= j < o2.len() && o2[j] == o1[i];
            lemma_cell_listed(o2, cells, j, t);
        }
        if dedup(stream(o2, o2.len() as int, cells)).contains(k) {
            let (i, t) = lemma_listed_cell(o2, cells, k);
            assert(o2.contains(o2[i]));
            let j = choose|j: int| 0 <= j < o1.len() && o1[j] == o2[i];
            lemma_cell_listed(o1, cells, j, t);
        }
    }
}

/// Two lists without repeats of the same keys have the same length, and
/// renumbering between them is one to one.
proof fn lemma_renumber<K>(s1: Seq<K>, s2: Seq<K>)
    requires
        s1.no_duplicates(),
        s2.no_duplicates(),
        forall|k: K| s1.contains(k) <==> s2.contains(k),
    ensures
        s1.len() == s2.len(),
        one_to_one(renumber(s1, s2)),
{
    s1.unique_seq_to_set();
    s2.unique_seq_to_set();
    assert(s1.to_set() =~= s2.to_set());
    let f = renumber(s1, s2);
    assert forall|x: int, y: int| #[trigger] f(x) == #[trigger] f(y) implies x == y by {
        if 0 <= x < s1.len() {
            assert(s1.contains(s1[x]));
            lemma_pos(s2, s1[x]);
        }
        if 0 <= y < s1.len() {
            assert(s1.contains(s1[y]));
            lemma_pos(s2, s1[y]);
        }
    }
}

/// Renumbering the positions of keys listed in `s1` gives their positions in `s2`.
proof fn lemma_positions_renumber<K>(s1: Seq<K>, s2: Seq<K>, keys: Seq<K>)
    requires
        s1.no_duplicates(),
        s2.no_duplicates(),
        forall|k: K| s1.contains(k) <==> s2.contains(k),
        forall|u: int| 0 <= u < keys.len() ==> s1.contains(#[trigger] keys[u]),
    ensures
        positions_of(s1, keys).map(renumber(s1, s2)) == positions_of(s2, keys),
    decreases keys.len(),
{
    let f = renumber(s1, s2);
    if keys.len() == 0 {
        assert(positions_of(s1, keys).map(f) =~= Set::<int>::empty());
    } else {
        let k = keys.last();
        assert(s1.contains(keys[keys.len() - 1]));
        lemma_positions_renumber(s1, s2, keys.drop_last());
        lemma_pos(s1, k);
        lemma_pos(s2, k);
        assert(f(pos(s1, k)) == pos(s2, k));
        let p = positions_of(s1, keys.drop_last());
        let q = pos(s1, k);
        assert forall|x: int| #[trigger] p.insert(q).map(f).contains(x) <==> p.map(f).insert(f(q)).contains(x) by {
            if p.insert(q).map(f).contains(x) {
                let y = choose|y: int| p.insert(q).contains(y) && f(y) == x;
                if y != q {
                    assert(p.contains(y));
                    assert(p.map(f).contains(x));
                }
            }
            if p.map(f).insert(f(q)).contains(x) {
                if x == f(q) {
                    assert(p.insert(q).contains(q));
                } else {
                    let y = choose|y: int| p.contains(y) && f(y) == x;
                    assert(p.insert(q).contains(y));
                }
            }
        }
        assert(p.insert(q).map(f) =~= p.map(f).insert(f(q)));
    }
}

/// The facts shared by the three rank equalities below.
proof fn lemma_lists_renumbered(o1: Seq<V3>, o2: Seq<V3>)
    requires
        same_voxels(o1, o2),
    ensures
        vertex_list(o1).no_duplicates(),
        vertex_list(o2).no_duplicates(),
        edge_list(o1).no_duplicates(),
        edge_list(o2).no_duplicates(),
        face_list(o1).no_duplicates(),
        face_list(o2).no_duplicates(),
        forall|k: V3| vertex_list(o1).contains(k) <==> vertex_list(o2).contains(k),
        forall|k: (usize, usize, usize, u8)| edge_list(o1).contains(k) <==> edge_list(o2).contains(k),
        forall|k: (usize, usize, usize, u8, u8)| face_list(o1).contains(k) <==> face_list(o2).contains(k),
        vertex_list(o1).len() == vertex_list(o2).len(),
        edge_list(o1).len() == edge_list(o2).len(),
        face_list(o1).len() == face_list(o2).len(),
        one_to_one(renumber(vertex_list(o1), vertex_list(o2))),
        one_to_one(renumber(edge_list(o1), edge_list(o2))),
        one_to_one(renumber(face_list(o1), face_list(o2))),
{
    lemma_lists_distinct(o1);
    lemma_lists_distinct(o2);
    lemma_same_cells(o1, o2, vertices_of());
    lemma_same_cells(o1, o2, edges_of());
    lemma_same_cells(o1, o2, faces_of());
    lemma_renumber(vertex_list(o1), vertex_list(o2));
    lemma_renumber(edge_list(o1), edge_list(o2));
    lemma_renumber(face_list(o1), face_list(o2));
}

proof fn lemma_rank1_same(o1: Seq<V3>, o2: Seq<V3>)
    requires
        voxels_in_range(o1),
        same_voxels(o1, o2),
    ensures
        gf2_rank(boundary_1(o1)) == gf2_rank(boundary_1(o2)),
{
    lemma_lists_renumbered(o1, o2);
    let vl1 = vertex_list(o1);
    let vl2 = vertex_list(o2);
    let el1 = edge_list(o1);
    let el2 = edge_list(o2);
    let a = boundary_1(o1);
    let b = boundary_1(o2);
    let fv = renumber(vl1, vl2);
    assert forall|j: int| 0 <= j < b.len() implies #[trigger] col_renamed_from(b, a, fv, j) by {
        let e = el2[j];
        assert(el2.contains(e));
        lemma_pos(el1, e);
        lemma_edge_listed_facts(o1, e);
        lemma_positions_renumber(vl1, vl2, edge_vertices(e));
        let i = pos(el1, e);
        assert(b[j] == positions_of(vl2, edge_vertices(e)));
        assert(a[i] == positions_of(vl1, edge_vertices(e)));
        assert(0 <= i < a.len() && b[j] == a[i].map(fv));
    }
    assert(renamed_from(b, a, fv));
    assert(renamed_into(a, b, fv)) by {
        assert forall|i: int| 0 <= i < a.len() implies #[trigger] col_renamed_into(a, b, fv, i) by {
            let e = el1[i];
            assert(el1.contains(e));
            lemma_pos(el2, e);
            lemma_edge_listed_facts(o1, e);
            lemma_positions_renumber(vl1, vl2, edge_vertices(e));
            assert(b[pos(el2, e)] == b[pos(el2, e)]);
        }
    }
    lemma_rank_renamed(a, b, fv);
}

proof fn lemma_rank2_same(o1: Seq<V3>, o2: Seq<V3>)
    requires
        voxels_in_range(o1),
        same_voxels(o1, o2),
    ensures
        gf2_rank(boundary_2(o1)) == gf2_rank(boundary_2(o2)),
{
    lemma_lists_renumbered(o1, o2);
    let el1 = edge_list(o1);
    let el2 = edge_list(o2);
    let fl1 = face_list(o1);
    let fl2 = face_list(o2);
    let a = boundary_2(o1);
    let b = boundary_2(o2);
    let fe = renumber(el1, el2);
    assert(renamed_from(b, a, fe)) by {
        assert forall|j: int| 0 <= j < b.len() implies #[trigger] col_renamed_from(b, a, fe, j) by {
            let f = fl2[j];
            assert(fl2.contains(f));
            lemma_pos(fl1, f);
            lemma_face_listed_facts(o1, f);
            lemma_positions_renumber(el1, el2, face_edges(f));
            assert(a[pos(fl1, f)] == a[pos(fl1, f)]);
        }
    }
    assert(renamed_into(a, b, fe)) by {
        assert forall|i: int| 0 <= i < a.len() implies #[trigger] col_renamed_into(a, b, fe, i) by {
            let f = fl1[i];
            assert(fl1.contains(f));
            lemma_pos(fl2, f);
            lemma_face_listed_facts(o1, f);
            lemma_positions_renumber(el1, el2, face_edges(f));
            assert(b[pos(fl2, f)] == b[pos(fl2, f)]);
        }
    }
    lemma_rank_renamed(a, b, fe);
}

proof fn lemma_rank3_same(o1: Seq<V3>, o2: Seq<V3>)
    requires
        voxels_in_range(o1),
        same_voxels(o1, o2),
    ensures
        gf2_rank(boundary_3(o1)) == gf2_rank(boundary_3(o2)),
{
    lemma_lists_renumbered(o1, o2);
    let fl1 = face_list(o1);
    let fl2 = face_list(o2);
    let a = boundary_3(o1);
    let b = boundary_3(o2);
    let ff = renumber(fl1, fl2);
    assert(renamed_from(b, a, ff)) by {
        assert forall|j: int| 0 <= j < b.len() implies #[trigger] col_renamed_from(b, a, ff, j) by {
            assert(o2.contains(o2[j]));
            let i = choose|i: int| 0 <= i < o1.len() && o1[i] == o2[j];
            lemma_cube_faces_listed(o1, i);
            lemma_positions_renumber(fl1, fl2, cube_faces(o1[i]));
            assert(a[i] == a[i]);
        }
    }
    assert(renamed_into(a, b, ff)) by {
        assert forall|i: int| 0 <= i < a.len() implies #[trigger] col_renamed_into(a, b, ff, i) by {
            assert(o1.contains(o1[i]));
            let j = choose|j: int| 0 <= j < o2.len() && o2[j] == o1[i];
            lemma_cube_faces_listed(o1, i);
            lemma_positions_renumber(fl1, fl2, cube_faces(o1[i]));
            assert(b[j] == b[j]);
        }
    }
    lemma_rank_renamed(a, b, ff);
}

/// Reordering the voxels or repeating some of them leaves the Betti numbers unchanged.
pub proof fn lemma_betti_same_voxels(o1: Seq<V3>, o2: Seq<V3>)
    requires
        voxels_in_range(o1),
        voxels_in_range(o2),
        same_voxels(o1, o2),
    ensures
        betti_of(o1) == betti_of(o2),
{
    lemma_lists_renumbered(o1, o2);
    lemma_rank1_same(o1, o2);
    lemma_rank2_same(o1, o2);
    lemma_rank3_same(o1, o2);
}

} // verus!
