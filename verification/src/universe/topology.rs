//! Homology over Z₂ of the cubical complex spanned by a set of voxels.
use vstd::prelude::*;
use std::collections::BTreeMap;
use std::collections::HashMap;
use vstd::laws_cmp::obeys_cmp;
use crate::api::HomologyGroups;
use crate::universe::cubical::{
    boundary_1, boundary_2, boundary_3, cube_edges, cube_faces, cube_ok, cube_vertices, dedup,
    edge_list, edge_ok, edge_vertices, edges_of, face_edges, face_list, face_ok, faces_of,
    lemma_d1_columns_even, lemma_d1_d2_zero, lemma_d2_d3_zero, lemma_dedup, lemma_edge_listed_facts,
    lemma_vertices_nonempty,
    lemma_face_listed_facts, lemma_cube_faces_listed, lemma_lists_distinct, lemma_pos,
    lemma_pos_injective, lemma_positions_contains, lemma_positions_push, pos, positions_of, stream, vertex_list, vertices_of, voxels_in_range,
    EdgeKey, FaceKey, V3,
};
use crate::universe::invariance::betti_of;
use crate::universe::gf2::{
    lemma_entries_below_sets, lemma_even_rank_bound, lemma_rank_sum,
    boundary_of, column_sets, columns_sorted, composes_to_zero, lemma_boundary_empty,
    lemma_boundary_insert, count_nonempty, elems, entries_below, gf2_rank, indices_below,
    is_max, is_reduction, lemma_chain_frame, lemma_count_nonempty_le, lemma_elems_empty,
    lemma_elems_push, lemma_reduction_facts, lemma_reduction_rank, lemma_sd_empty,
    lemma_sorted_last_is_max, lemma_sorted_nonempty, pivots_distinct, reduces_column, has_pivot, strictly_sorted, sym_diff,
    xor_chain,
};

verus! {

/// XOR two sorted vectors (symmetric difference) in place.
pub fn xor_sorted(a: &mut Vec<usize>, b: &[usize])
    requires
        strictly_sorted(old(a)@),
        strictly_sorted(b@),
    ensures
        strictly_sorted(final(a)@),
        elems(final(a)@) == sym_diff(elems(old(a)@), elems(b@)),
{
    let ghost a0 = a@;
    let alen = a.len();
    let blen = b.len();
    let mut result: Vec<usize> = Vec::new();
    let mut i: usize = 0;
    let mut j: usize = 0;
    proof {
        lemma_elems_empty();
        assert(a0.subrange(0, 0) =~= Seq::<usize>::empty());
        assert(b@.subrange(0, 0) =~= Seq::<usize>::empty());
        lemma_sd_empty(Set::<int>::empty());
    }
    while i < alen || j < blen
        invariant
            a@ == a0,
            alen == a0.len(),
            blen == b@.len(),
            i <= alen,
            j <= blen,
            strictly_sorted(a0),
            strictly_sorted(b@),
            strictly_sorted(result@),
            forall|p: int, q: int| 0 <= p < i && j <= q < blen ==> a0[p] < b@[q],
            forall|p: int, q: int| 0 <= q < j && i <= p < alen ==> b@[q] < a0[p],
            forall|k: int, p: int| 0 <= k < result@.len() && i <= p < alen ==> result@[k] < a0[p],
            forall|k: int, q: int| 0 <= k < result@.len() && j <= q < blen ==> result@[k] < b@[q],
            elems(result@) == sym_diff(
                elems(a0.subrange(0, i as int)),
                elems(b@.subrange(0, j as int)),
            ),
        decreases alen - i + blen - j,
    {
        let ghost sa = a0.subrange(0, i as int);
        let ghost sb = b@.subrange(0, j as int);
        if j >= blen || (i < alen && a[i] < b[j]) {
            let x = a[i];
            proof {
                assert(a0.subrange(0, i + 1) =~= sa.push(x));
                lemma_elems_push(sa, x);
                lemma_elems_push(result@, x);
                assert(!elems(sb).contains(x as int)) by {
                    if elems(sb).contains(x as int) {
                        let q = choose|q: int| 0 <= q < sb.len() && sb[q] as int == x as int;
                        assert(b@[q] < a0[i as int]);
                    }
                }
                assert(!elems(sa).contains(x as int)) by {
                    if elems(sa).contains(x as int) {
                        let p = choose|p: int| 0 <= p < sa.len() && sa[p] as int == x as int;
                        assert(a0[p] < a0[i as int]);
                    }
                }
                assert(sym_diff(elems(sa.push(x)), elems(sb)) =~= sym_diff(elems(sa), elems(sb)).insert(
                    x as int,
                ));
            }
            result.push(x);
            i = i + 1;
        } else if i >= alen || b[j] < a[i] {
            let y = b[j];
            proof {
                assert(b@.subrange(0, j + 1) =~= sb.push(y));
                lemma_elems_push(sb, y);
                lemma_elems_push(result@, y);
                assert(!elems(sa).contains(y as int)) by {
                    if elems(sa).contains(y as int) {
                        let p = choose|p: int| 0 <= p < sa.len() && sa[p] as int == y as int;
                        assert(a0[p] < b@[j as int]);
                    }
                }
                assert(!elems(sb).contains(y as int)) by {
                    if elems(sb).contains(y as int) {
                        let q = choose|q: int| 0 <= q < sb.len() && sb[q] as int == y as int;
                        assert(b@[q] < b@[j as int]);
                    }
                }
                assert(sym_diff(elems(sa), elems(sb.push(y))) =~= sym_diff(elems(sa), elems(sb)).insert(
                    y as int,
                ));
            }
            result.push(y);
            j = j + 1;
        } else {
            let x = a[i];
            proof {
                assert(a0.subrange(0, i + 1) =~= sa.push(x));
                assert(b@.subrange(0, j + 1) =~= sb.push(x));
                lemma_elems_push(sa, x);
                lemma_elems_push(sb, x);
                assert(!elems(sb).contains(x as int)) by {
                    if elems(sb).contains(x as int) {
                        let q = choose|q: int| 0 <= q < sb.len() && sb[q] as int == x as int;
                        assert(b@[q] < b@[j as int]);
                    }
                }
                assert(!elems(sa).contains(x as int)) by {
                    if elems(sa).contains(x as int) {
                        let p = choose|p: int| 0 <= p < sa.len() && sa[p] as int == x as int;
                        assert(a0[p] < a0[i as int]);
                    }
                }
                assert(sym_diff(elems(sa.push(x)), elems(sb.push(x))) =~= sym_diff(
                    elems(sa),
                    elems(sb),
                ));
            }
            i = i + 1;
            j = j + 1;
        }
    }
    proof {
        assert(a0.subrange(0, alen as int) =~= a0);
        assert(b@.subrange(0, blen as int) =~= b@);
    }
    *a = result;
}


/// The row of the last entry of a column, plus one; zero for an empty column.
pub open spec fn pivot_measure(v: Seq<usize>) -> int {
    if v.len() == 0 {
        0
    } else {
        v.last() + 1
    }
}

/// The pivot table maps the last row of each nonempty reduced column to that column.
pub open spec fn pivot_table_ok(pivots: Map<usize, usize>, work: Seq<Vec<usize>>, j: int) -> bool {
    &&& forall|p: usize|
        #[trigger] pivots.contains_key(p) ==> pivots[p] < j && work[pivots[p] as int]@.len() > 0
            && work[pivots[p] as int]@.last() == p
    &&& forall|k: int|
        0 <= k < j && work[k]@.len() > 0 ==> #[trigger] pivots.contains_key(work[k]@.last())
            && pivots[work[k]@.last()] == k
}

/// The first `j` columns of `work` reduce the first `j` columns of `cols`, with
/// the additions recorded in `kss`.
pub open spec fn partially_reduced(
    cols: Seq<Vec<usize>>,
    work: Seq<Vec<usize>>,
    kss: Seq<Seq<int>>,
    j: int,
) -> bool {
    &&& kss.len() == work.len()
    &&& forall|k: int|
        0 <= k < j ==> indices_below(#[trigger] kss[k], k) && column_sets(work)[k] == xor_chain(
            column_sets(cols)[k],
            kss[k],
            column_sets(work),
        )
    &&& pivots_distinct(column_sets(work), j)
}

proof fn lemma_sorted_max_is_last(s: Seq<usize>, p: int)
    requires
        strictly_sorted(s),
        is_max(elems(s), p),
    ensures
        s.len() > 0,
        s.last() as int == p,
{
    lemma_sorted_nonempty(s);
    lemma_sorted_last_is_max(s);
}

/// Column reduction over Z₂. Returns the rank of the matrix.
pub fn column_reduce_rank_z2(cols: &[Vec<usize>], n_rows: usize) -> (rank: usize)
    requires
        columns_sorted(cols@),
    ensures
        rank == gf2_rank(column_sets(cols@)),
        exists|r: Seq<Set<int>>| is_reduction(column_sets(cols@), r),
        entries_below(cols@, n_rows as int) ==> rank <= n_rows,
{
    broadcast use vstd::std_specs::hash::group_hash_axioms;
    let n_cols = cols.len();
    let mut work: Vec<Vec<usize>> = Vec::new();
    for i in 0..n_cols
        invariant
            n_cols == cols@.len(),
            work@.len() == i,
            forall|k: int| 0 <= k < i ==> #[trigger] work@[k]@ == cols@[k]@,
    {
        work.push(cols[i].clone());
    }
    let mut pivot_col: HashMap<usize, usize> = HashMap::new();
    let mut rank: usize = 0;
    let ghost mut kss: Seq<Seq<int>> = Seq::new(n_cols as nat, |k: int| Seq::<int>::empty());
    let ghost m = column_sets(cols@);
    for j in 0..n_cols
        invariant
            n_cols == cols@.len(),
            m == column_sets(cols@),
            work@.len() == n_cols,
            columns_sorted(cols@),
            columns_sorted(work@),
            forall|k: int| j <= k < n_cols ==> #[trigger] work@[k]@ == cols@[k]@,
            entries_below(cols@, n_rows as int) ==> entries_below(work@, n_rows as int),
            partially_reduced(cols@, work@, kss, j as int),
            pivot_table_ok(pivot_col@, work@, j as int),
            rank == count_nonempty(column_sets(work@), j as nat),
            rank <= j,
    {
        let ghost mut ks: Seq<int> = Seq::empty();
        proof {
            assert(column_sets(work@)[j as int] == m[j as int]);
            assert(xor_chain(m[j as int], ks, column_sets(work@)) == m[j as int]);
        }
        loop
            invariant_except_break
                pivot_table_ok(pivot_col@, work@, j as int),
                rank == count_nonempty(column_sets(work@), j as nat),
                rank <= j,
            invariant
                n_cols == cols@.len(),
                m == column_sets(cols@),
                work@.len() == n_cols,
                0 <= j < n_cols,
                columns_sorted(cols@),
                columns_sorted(work@),
                forall|k: int| j < k < n_cols ==> #[trigger] work@[k]@ == cols@[k]@,
                entries_below(cols@, n_rows as int) ==> entries_below(work@, n_rows as int),
                partially_reduced(cols@, work@, kss, j as int),
                indices_below(ks, j as int),
                column_sets(work@)[j as int] == xor_chain(m[j as int], ks, column_sets(work@)),
            ensures
                partially_reduced(cols@, work@, kss.update(j as int, ks), j + 1),
                pivot_table_ok(pivot_col@, work@, j + 1),
                rank == count_nonempty(column_sets(work@), (j + 1) as nat),
                rank <= j + 1,
            decreases pivot_measure(work@[j as int]@),
        {
            if work[j].is_empty() {
                proof {
                    let w = work@;
                    lemma_sorted_nonempty(w[j as int]@);
                    assert(column_sets(w)[j as int] == Set::<int>::empty());
                    let kss2 = kss.update(j as int, ks);
                    assert forall|k: int| 0 <= k < j + 1 implies indices_below(#[trigger] kss2[k], k)
                        && column_sets(w)[k] == xor_chain(column_sets(cols@)[k], kss2[k], column_sets(w)) by {
                        if k < j {
                            assert(kss2[k] == kss[k]);
                        }
                    }
                    assert forall|j1: int, j2: int, p: int|
                        0 <= j1 < j + 1 && 0 <= j2 < j + 1 && #[trigger] is_max(column_sets(w)[j1], p)
                            && #[trigger] is_max(column_sets(w)[j2], p) implies j1 == j2 by {
                        if j1 == j || j2 == j {
                            assert(!column_sets(w)[j as int].contains(p));
                        }
                    }
                }
                break;
            }
            let last_idx = work[j].len() - 1;
            let pivot = work[j][last_idx];
            match pivot_col.get(&pivot) {
                Some(kref) => {
                    let k = *kref;
                    let ghost w0 = work@;
                    let col_k = work[k].clone();
                    let mut cur = work[j].clone();
                    proof {
                        assert(col_k@ == w0[k as int]@);
                        assert(cur@ == w0[j as int]@);
                        lemma_sorted_last_is_max(cur@);
                        lemma_sorted_last_is_max(col_k@);
                    }
                    xor_sorted(&mut cur, &col_k);
                    let ghost newcol = cur@;
                    work.set(j, cur);
                    proof {
                        let w = work@;
                        let r0 = column_sets(w0);
                        let r = column_sets(w);
                        assert(r[j as int] == elems(newcol));
                        assert(forall|i: int| 0 <= i < n_cols && i != j ==> w[i] == w0[i]);
                        assert forall|i: int| 0 <= i < j implies r0[i] == r[i] by {
                            assert(w[i] == w0[i]);
                        }
                        // the new column reaches its last row below the pivot
                        assert forall|x: int| elems(newcol).contains(x) implies x < pivot by {
                            assert(elems(w0[j as int]@).contains(x) != elems(w0[k as int]@).contains(x));
                        }
                        if newcol.len() > 0 {
                            assert(elems(newcol).contains(newcol[newcol.len() - 1] as int));
                        }
                        // record the addition
                        let ks2 = ks.push(k as int);
                        assert(ks2.drop_last() =~= ks);
                        lemma_chain_frame(m[j as int], ks, r0, r, j as int);
                        assert(indices_below(ks2, j as int));
                        assert(r[j as int] == xor_chain(m[j as int], ks2, r)) by {
                            assert(r[k as int] == r0[k as int]);
                        }
                        ks = ks2;
                        // the first j columns are untouched
                        assert forall|i: int| 0 <= i < j implies indices_below(#[trigger] kss[i], i)
                            && r[i] == xor_chain(column_sets(cols@)[i], kss[i], r) by {
                            lemma_chain_frame(column_sets(cols@)[i], kss[i], r0, r, i);
                        }
                        assert forall|j1: int, j2: int, p: int|
                            0 <= j1 < j && 0 <= j2 < j && #[trigger] is_max(r[j1], p)
                                && #[trigger] is_max(r[j2], p) implies j1 == j2 by {
                            assert(r[j1] == r0[j1] && r[j2] == r0[j2]);
                        }
                        assert(pivot_table_ok(pivot_col@, w, j as int)) by {
                            assert forall|p: usize| #[trigger] pivot_col@.contains_key(p) implies pivot_col@[p] < j
                                && w[pivot_col@[p] as int]@.len() > 0 && w[pivot_col@[p] as int]@.last() == p by {
                                assert(w[pivot_col@[p] as int] == w0[pivot_col@[p] as int]);
                            }
                            assert forall|i: int| 0 <= i < j && w[i]@.len() > 0 implies #[trigger] pivot_col@.contains_key(w[i]@.last())
                                && pivot_col@[w[i]@.last()] == i by {
                                assert(w[i] == w0[i]);
                            }
                        }
                        lemma_count_frame(column_sets(w0), column_sets(w), j as nat);
                        assert(entries_below(cols@, n_rows as int) ==> entries_below(w, n_rows as int)) by {
                            if entries_below(cols@, n_rows as int) {
                                assert forall|a: int, b: int|
                                    0 <= a < w.len() && 0 <= b < w[a]@.len() implies #[trigger] w[a]@[b] < n_rows by {
                                    if a == j {
                                        assert(elems(newcol).contains(newcol[b] as int));
                                        if elems(w0[j as int]@).contains(newcol[b] as int) {
                                            let t = choose|t: int| 0 <= t < w0[j as int]@.len() && w0[j as int]@[t] as int == newcol[b] as int;
                                            assert(w0[j as int]@[t] < n_rows);
                                        } else {
                                            assert(elems(w0[k as int]@).contains(newcol[b] as int));
                                            let t = choose|t: int| 0 <= t < w0[k as int]@.len() && w0[k as int]@[t] as int == newcol[b] as int;
                                            assert(w0[k as int]@[t] < n_rows);
                                        }
                                    } else {
                                        assert(w[a] == w0[a]);
                                    }
                                }
                            }
                        }
                    }
                },
                None => {
                    pivot_col.insert(pivot, j);
                    proof {
                        let w = work@;
                        let r = column_sets(w);
                        lemma_sorted_last_is_max(w[j as int]@);
                        assert(is_max(r[j as int], pivot as int));
                        let kss2 = kss.update(j as int, ks);
                        assert forall|k: int| 0 <= k < j + 1 implies indices_below(#[trigger] kss2[k], k)
                            && r[k] == xor_chain(column_sets(cols@)[k], kss2[k], r) by {
                            if k < j {
                                assert(kss2[k] == kss[k]);
                            }
                        }
                        assert forall|j1: int, j2: int, p: int|
                            0 <= j1 < j + 1 && 0 <= j2 < j + 1 && #[trigger] is_max(r[j1], p)
                                && #[trigger] is_max(r[j2], p) implies j1 == j2 by {
                            if j1 == j && j2 < j {
                                lemma_sorted_max_is_last(w[j2]@, p);
                                lemma_sorted_max_is_last(w[j as int]@, p);
                            }
                            if j2 == j && j1 < j {
                                lemma_sorted_max_is_last(w[j1]@, p);
                                lemma_sorted_max_is_last(w[j as int]@, p);
                            }
                        }
                        lemma_sorted_nonempty(w[j as int]@);
                    }
                    rank += 1;
                    break;
                },
            }
        }
        proof {
            kss = kss.update(j as int, ks);
        }
    }
    proof {
        let w = work@;
        let r = column_sets(w);
        reveal(is_reduction);
        assert forall|k: int| 0 <= k < r.len() implies #[trigger] reduces_column(m, r, k) by {
            assert(indices_below(kss[k], k) && r[k] == xor_chain(m[k], kss[k], r));
        }
        assert forall|k: int| 0 <= k < r.len() implies #[trigger] has_pivot(r[k]) by {
            lemma_sorted_nonempty(w[k]@);
            if w[k]@.len() > 0 {
                lemma_sorted_last_is_max(w[k]@);
            }
        }
        assert(is_reduction(m, r));
        lemma_reduction_rank(m, r, n_cols as nat);
        if entries_below(cols@, n_rows as int) {
            assert forall|k: int, x: int| 0 <= k < n_cols && #[trigger] r[k].contains(x) implies 0 <= x < n_rows by {
                let t = choose|t: int| 0 <= t < w[k]@.len() && w[k]@[t] as int == x;
                assert(w[k]@[t] < n_rows);
            }
            lemma_count_nonempty_le(r, n_cols as nat, n_rows as int);
        }
    }
    rank
}

proof fn lemma_count_frame(a: Seq<Set<int>>, b: Seq<Set<int>>, n: nat)
    requires
        n <= a.len(),
        n <= b.len(),
        forall|i: int| 0 <= i < n ==> a[i] == b[i],
    ensures
        count_nonempty(a, n) == count_nonempty(b, n),
    decreases n,
{
    if n > 0 {
        lemma_count_frame(a, b, (n - 1) as nat);
    }
}


/// Verify d² = 0 by checking ∂_lower ∘ ∂_upper = 0 (over Z₂).
pub fn verify_d_squared_zero(d_lower: &[Vec<usize>], d_upper: &[Vec<usize>]) -> (ok: bool)
    requires
        columns_sorted(d_lower@),
        columns_sorted(d_upper@),
    ensures
        ok == composes_to_zero(column_sets(d_lower@), column_sets(d_upper@)),
{
    let ghost lower = column_sets(d_lower@);
    let ghost upper = column_sets(d_upper@);
    let nl = d_lower.len();
    let nu = d_upper.len();
    for j in 0..nu
        invariant
            nl == d_lower@.len(),
            nu == d_upper@.len(),
            lower == column_sets(d_lower@),
            upper == column_sets(d_upper@),
            columns_sorted(d_lower@),
            columns_sorted(d_upper@),
            forall|jj: int| 0 <= jj < j ==> #[trigger] boundary_of(lower, upper[jj], nl as int)
                == Set::<int>::empty(),
    {
        let col_upper = &d_upper[j];
        let mut result: Vec<usize> = Vec::new();
        let len = col_upper.len();
        proof {
            lemma_elems_empty();
            assert(col_upper@.subrange(0, 0) =~= Seq::<usize>::empty());
            lemma_boundary_empty(lower, nl as int);
        }
        for i in 0..len
            invariant
                nl == d_lower@.len(),
                len == col_upper@.len(),
                col_upper@ == d_upper@[j as int]@,
                lower == column_sets(d_lower@),
                columns_sorted(d_lower@),
                strictly_sorted(col_upper@),
                strictly_sorted(result@),
                elems(result@) == boundary_of(lower, elems(col_upper@.subrange(0, i as int)), nl as int),
        {
            let idx = col_upper[i];
            let ghost pre = col_upper@.subrange(0, i as int);
            proof {
                assert(col_upper@.subrange(0, i + 1) =~= pre.push(idx));
                lemma_elems_push(pre, idx);
                assert(!elems(pre).contains(idx as int)) by {
                    if elems(pre).contains(idx as int) {
                        let t = choose|t: int| 0 <= t < pre.len() && pre[t] as int == idx as int;
                        assert(col_upper@[t] < col_upper@[i as int]);
                    }
                }
                lemma_boundary_insert(lower, elems(pre), idx as int, nl as int);
            }
            if idx < nl {
                proof {
                    assert(strictly_sorted(d_lower@[idx as int]@));
                }
                xor_sorted(&mut result, &d_lower[idx]);
            }
        }
        proof {
            assert(col_upper@.subrange(0, len as int) =~= col_upper@);
            assert(upper[j as int] == elems(col_upper@));
        }
        if !result.is_empty() {
            proof {
                assert(elems(result@).contains(result@[0] as int));
                assert(lower.len() == nl);
                assert(boundary_of(lower, upper[j as int], lower.len() as int) != Set::<int>::empty());
                assert(!composes_to_zero(lower, upper));
            }
            return false;
        }
        proof {
            lemma_sorted_nonempty(result@);
        }
    }
    true
}


// ---------------------------------------------------------------------------
// Numbering the cells of the complex
// ---------------------------------------------------------------------------

/// `map` gives each element of `keys` its position, and `keys` has no repeats.
pub open spec fn numbering<K>(map: Map<K, usize>, keys: Seq<K>) -> bool {
    &&& keys.no_duplicates()
    &&& forall|k: K| #[trigger] map.contains_key(k) <==> keys.contains(k)
    &&& forall|i: int| 0 <= i < keys.len() ==> #[trigger] map[keys[i]] == i
}

proof fn lemma_numbering_pos<K>(map: Map<K, usize>, keys: Seq<K>, k: K)
    requires
        numbering(map, keys),
        map.contains_key(k),
    ensures
        keys.contains(k),
        map[k] as int == pos(keys, k),
        0 <= pos(keys, k) < keys.len(),
        keys[pos(keys, k)] == k,
{
    assert(keys.contains(k));
    lemma_pos(keys, k);
    assert(map[keys[pos(keys, k)]] == pos(keys, k));
}

/// Give `k` the next number unless it already has one.
fn intern<K: Ord + Copy>(map: &mut BTreeMap<K, usize>, keys: &mut Vec<K>, k: K, Ghost(seen): Ghost<Seq<K>>)
    requires
        key_order::<K>(),
        numbering(old(map)@, old(keys)@),
        old(keys)@ == dedup(seen),
    ensures
        numbering(final(map)@, final(keys)@),
        final(keys)@ == dedup(seen.push(k)),
{
    broadcast use vstd::std_specs::btree::group_btree_axioms;
    proof {
        assert(seen.push(k).drop_last() =~= seen);
        assert(seen.push(k).last() == k);
    }
    if !map.contains_key(&k) {
        let n = keys.len();
        map.insert(k, n);
        keys.push(k);
        proof {
            let ks = keys@;
            assert(ks.no_duplicates()) by {
                assert forall|a: int, b: int| 0 <= a < b < ks.len() implies ks[a] != ks[b] by {
                    if b == ks.len() - 1 {
                        assert(old(keys)@.contains(ks[a]));
                    } else {
                        assert(ks[a] == old(keys)@[a] && ks[b] == old(keys)@[b]);
                    }
                }
            }
            assert forall|x: K| #[trigger] map@.contains_key(x) <==> ks.contains(x) by {
                if ks.contains(x) && x != k {
                    let i = choose|i: int| 0 <= i < ks.len() && ks[i] == x;
                    assert(old(keys)@[i] == x);
                }
                if old(keys)@.contains(x) {
                    let i = choose|i: int| 0 <= i < old(keys)@.len() && old(keys)@[i] == x;
                    assert(ks[i] == x);
                }
                if x == k {
                    assert(ks[ks.len() - 1] == k);
                }
            }
            assert forall|i: int| 0 <= i < ks.len() implies #[trigger] map@[ks[i]] == i by {
                if i < ks.len() - 1 {
                    assert(ks[i] == old(keys)@[i]);
                    assert(old(map)@[old(keys)@[i]] == i);
                }
            }
        }
    }
}

fn cube_vertex_keys(c: V3) -> (v: Vec<V3>)
    requires
        cube_ok(c),
    ensures
        v@ == cube_vertices(c),
{
    let (x, y, z) = c;
    let v = vec![
        (x, y, z),
        (x + 1, y, z),
        (x, y + 1, z),
        (x + 1, y + 1, z),
        (x, y, z + 1),
        (x + 1, y, z + 1),
        (x, y + 1, z + 1),
        (x + 1, y + 1, z + 1),
    ];
    assert(v@ =~= cube_vertices(c));
    v
}

fn cube_edge_keys(c: V3) -> (v: Vec<EdgeKey>)
    requires
        cube_ok(c),
    ensures
        v@ == cube_edges(c),
{
    let (x, y, z) = c;
    // X-edges at (x, y+dy, z+dz), Y-edges at (x+dx, y, z+dz), Z-edges at (x+dx, y+dy, z)
    let v = vec![
        (x, y, z, 0u8),
        (x, y + 1, z, 0u8),
        (x, y, z + 1, 0u8),
        (x, y + 1, z + 1, 0u8),
        (x, y, z, 1u8),
        (x + 1, y, z, 1u8),
        (x, y, z + 1, 1u8),
        (x + 1, y, z + 1, 1u8),
        (x, y, z, 2u8),
        (x + 1, y, z, 2u8),
        (x, y + 1, z, 2u8),
        (x + 1, y + 1, z, 2u8),
    ];
    assert(v@ =~= cube_edges(c));
    v
}

fn cube_face_keys(c: V3) -> (v: Vec<FaceKey>)
    requires
        cube_ok(c),
    ensures
        v@ == cube_faces(c),
{
    let (x, y, z) = c;
    // XY-faces at (x, y, z+dz), XZ-faces at (x, y+dy, z), YZ-faces at (x+dx, y, z)
    let v = vec![
        (x, y, z, 0u8, 1u8),
        (x, y, z + 1, 0u8, 1u8),
        (x, y, z, 0u8, 2u8),
        (x, y + 1, z, 0u8, 2u8),
        (x, y, z, 1u8, 2u8),
        (x + 1, y, z, 1u8, 2u8),
    ];
    assert(v@ =~= cube_faces(c));
    v
}

/// The two endpoints of an edge.
fn edge_vertex_keys(e: EdgeKey) -> (v: Vec<V3>)
    requires
        edge_ok(e),
    ensures
        v@ == edge_vertices(e),
{
    let (x, y, z, dir) = e;
    let v = if dir == 0 {
        vec![(x, y, z), (x + 1, y, z)]
    } else if dir == 1 {
        vec![(x, y, z), (x, y + 1, z)]
    } else {
        vec![(x, y, z), (x, y, z + 1)]
    };
    assert(v@ =~= edge_vertices(e));
    v
}

/// The four edges bounding a face.
fn face_edge_keys(f: FaceKey) -> (v: Vec<EdgeKey>)
    requires
        face_ok(f),
    ensures
        v@ == face_edges(f),
{
    let (x, y, z, d1, d2) = f;
    let v = if d1 == 0 && d2 == 1 {
        // XY face: x-edges at p and p+Y, y-edges at p and p+X
        vec![(x, y, z, 0u8), (x, y + 1, z, 0u8), (x, y, z, 1u8), (x + 1, y, z, 1u8)]
    } else if d1 == 0 && d2 == 2 {
        // XZ face: x-edges at p and p+Z, z-edges at p and p+X
        vec![(x, y, z, 0u8), (x, y, z + 1, 0u8), (x, y, z, 2u8), (x + 1, y, z, 2u8)]
    } else {
        // YZ face: y-edges at p and p+Z, z-edges at p and p+Y
        vec![(x, y, z, 1u8), (x, y, z + 1, 1u8), (x, y, z, 2u8), (x, y + 1, z, 2u8)]
    };
    assert(v@ =~= face_edges(f));
    v
}


/// The order of `K` obeys the laws of a total order, as the ordered maps need.
pub open spec fn key_order<K: Ord>() -> bool {
    obeys_cmp::<K>()
}

/// The keys of cells are totally ordered.
pub open spec fn key_order_laws() -> bool {
    key_order::<V3>() && key_order::<EdgeKey>() && key_order::<FaceKey>()
}

proof fn lemma_key_order_laws()
    ensures
        key_order_laws(),
{
}

/// Number every vertex, edge and face of the complex, in order of first appearance.
fn number_cells(occupied: &[V3]) -> (res: (
    BTreeMap<V3, usize>,
    BTreeMap<EdgeKey, usize>,
    Vec<EdgeKey>,
    BTreeMap<FaceKey, usize>,
    Vec<FaceKey>,
    usize,
))
    requires
        voxels_in_range(occupied@),
    ensures
        numbering(res.0@, vertex_list(occupied@)),
        numbering(res.1@, res.2@),
        res.2@ == edge_list(occupied@),
        numbering(res.3@, res.4@),
        res.4@ == face_list(occupied@),
        res.5 == vertex_list(occupied@).len(),
{
    let ghost occ = occupied@;
    let mut verts: BTreeMap<V3, usize> = BTreeMap::new();
    let mut vert_keys: Vec<V3> = Vec::new();
    let mut edges: BTreeMap<EdgeKey, usize> = BTreeMap::new();
    let mut edge_keys: Vec<EdgeKey> = Vec::new();
    let mut faces: BTreeMap<FaceKey, usize> = BTreeMap::new();
    let mut face_keys: Vec<FaceKey> = Vec::new();
    proof {
        lemma_key_order_laws();
        assert(stream(occ, 0, vertices_of()) =~= Seq::<V3>::empty());
        assert(stream(occ, 0, edges_of()) =~= Seq::<EdgeKey>::empty());
        assert(stream(occ, 0, faces_of()) =~= Seq::<FaceKey>::empty());
    }
    let n_occ = occupied.len();
    for ci in 0..n_occ
        invariant
            occ == occupied@,
            n_occ == occ.len(),
            voxels_in_range(occ),
            key_order_laws(),
            numbering(verts@, vert_keys@),
            vert_keys@ == dedup(stream(occ, ci as int, vertices_of())),
            numbering(edges@, edge_keys@),
            edge_keys@ == dedup(stream(occ, ci as int, edges_of())),
            numbering(faces@, face_keys@),
            face_keys@ == dedup(stream(occ, ci as int, faces_of())),
    {
        let c = occupied[ci];
        proof {
            assert(cube_ok(occ[ci as int]));
        }
        // 8 vertices
        let vs = cube_vertex_keys(c);
        let ghost sv = stream(occ, ci as int, vertices_of());
        proof {
            assert(sv + vs@.subrange(0, 0) =~= sv);
        }
        for t in 0..8
            invariant
                vs@ == cube_vertices(c),
                key_order_laws(),
                numbering(verts@, vert_keys@),
                vert_keys@ == dedup(sv + vs@.subrange(0, t as int)),
        {
            proof {
                assert((sv + vs@.subrange(0, t as int)).push(vs@[t as int]) =~= sv + vs@.subrange(0, t + 1));
            }
            intern(&mut verts, &mut vert_keys, vs[t], Ghost(sv + vs@.subrange(0, t as int)));
        }
        proof {
            assert(sv + vs@.subrange(0, 8) =~= stream(occ, ci + 1, vertices_of()));
        }
        // 12 edges: 4 in each direction
        let es = cube_edge_keys(c);
        let ghost se = stream(occ, ci as int, edges_of());
        proof {
            assert(se + es@.subrange(0, 0) =~= se);
        }
        for t in 0..12
            invariant
                es@ == cube_edges(c),
                key_order_laws(),
                numbering(edges@, edge_keys@),
                edge_keys@ == dedup(se + es@.subrange(0, t as int)),
        {
            proof {
                assert((se + es@.subrange(0, t as int)).push(es@[t as int]) =~= se + es@.subrange(0, t + 1));
            }
            intern(&mut edges, &mut edge_keys, es[t], Ghost(se + es@.subrange(0, t as int)));
        }
        proof {
            assert(se + es@.subrange(0, 12) =~= stream(occ, ci + 1, edges_of()));
        }
        // 6 faces: 2 per plane orientation
        let fs = cube_face_keys(c);
        let ghost sf = stream(occ, ci as int, faces_of());
        proof {
            assert(sf + fs@.subrange(0, 0) =~= sf);
        }
        for t in 0..6
            invariant
                fs@ == cube_faces(c),
                key_order_laws(),
                numbering(faces@, face_keys@),
                face_keys@ == dedup(sf + fs@.subrange(0, t as int)),
        {
            proof {
                assert((sf + fs@.subrange(0, t as int)).push(fs@[t as int]) =~= sf + fs@.subrange(0, t + 1));
            }
            intern(&mut faces, &mut face_keys, fs[t], Ghost(sf + fs@.subrange(0, t as int)));
        }
        proof {
            assert(sf + fs@.subrange(0, 6) =~= stream(occ, ci + 1, faces_of()));
        }
    }
    let n0 = vert_keys.len();
    (verts, edges, edge_keys, faces, face_keys, n0)
}


/// The number of a cell.
fn lookup<K: Ord>(map: &BTreeMap<K, usize>, k: &K) -> (n: usize)
    requires
        key_order::<K>(),
        map@.contains_key(*k),
    ensures
        n == map@[*k],
{
    broadcast use vstd::std_specs::btree::group_btree_axioms;
    match map.get(k) {
        Some(n) => *n,
        None => {
            proof {
                assert(false);
            }
            0
        },
    }
}

/// Add row `p` to a column over Z₂.
fn add_row(col: &mut Vec<usize>, p: usize)
    requires
        strictly_sorted(old(col)@),
    ensures
        strictly_sorted(final(col)@),
        elems(final(col)@) == sym_diff(elems(old(col)@), Set::<int>::empty().insert(p as int)),
{
    let one: Vec<usize> = vec![p];
    proof {
        assert(one@ =~= Seq::<usize>::empty().push(p));
        lemma_elems_push(Seq::<usize>::empty(), p);
        lemma_elems_empty();
    }
    xor_sorted(col, one.as_slice());
}

proof fn lemma_positions_step<K>(s: Seq<K>, keys: Seq<K>, t: int)
    requires
        s.no_duplicates(),
        keys.no_duplicates(),
        forall|u: int| 0 <= u < keys.len() ==> s.contains(#[trigger] keys[u]),
        0 <= t < keys.len(),
    ensures
        positions_of(s, keys.subrange(0, t + 1)) == positions_of(s, keys.subrange(0, t)).insert(
            pos(s, keys[t]),
        ),
        !positions_of(s, keys.subrange(0, t)).contains(pos(s, keys[t])),
        0 <= pos(s, keys[t]) < s.len(),
{
    assert(keys.subrange(0, t + 1) =~= keys.subrange(0, t).push(keys[t]));
    lemma_positions_push(s, keys.subrange(0, t), keys[t]);
    assert(s.contains(keys[t]));
    lemma_pos(s, keys[t]);
    lemma_positions_contains(s, keys.subrange(0, t), pos(s, keys[t]));
    if positions_of(s, keys.subrange(0, t)).contains(pos(s, keys[t])) {
        let u = choose|u: int|
            0 <= u < keys.subrange(0, t).len() && pos(s, keys[t]) == pos(
                s,
                #[trigger] keys.subrange(0, t)[u],
            );
        assert(keys.subrange(0, t)[u] == keys[u]);
        assert(keys[u] != keys[t]);
        assert(s.contains(keys[u]));
        lemma_pos_injective(s, keys[u], keys[t]);
    }
}

/// The column holding the numbers of the given distinct cells.
fn numbered_column<K: Ord>(map: &BTreeMap<K, usize>, keys: &Vec<K>, Ghost(list): Ghost<Seq<K>>) -> (col: Vec<usize>)
    requires
        key_order::<K>(),
        numbering(map@, list),
        keys@.no_duplicates(),
        forall|u: int| 0 <= u < keys@.len() ==> list.contains(#[trigger] keys@[u]),
    ensures
        strictly_sorted(col@),
        elems(col@) == positions_of(list, keys@),
        forall|i: int| 0 <= i < col@.len() ==> col@[i] < list.len(),
{
    let mut col: Vec<usize> = Vec::new();
    proof {
        lemma_elems_empty();
        assert(keys@.subrange(0, 0) =~= Seq::<K>::empty());
    }
    let n = keys.len();
    for t in 0..n
        invariant
            n == keys@.len(),
            key_order::<K>(),
            numbering(map@, list),
            keys@.no_duplicates(),
            forall|u: int| 0 <= u < keys@.len() ==> list.contains(#[trigger] keys@[u]),
            strictly_sorted(col@),
            elems(col@) == positions_of(list, keys@.subrange(0, t as int)),
            forall|i: int| 0 <= i < col@.len() ==> col@[i] < list.len(),
    {
        let k = &keys[t];
        proof {
            assert(list.contains(*k));
            lemma_positions_step(list, keys@, t as int);
        }
        let p = lookup(map, k);
        proof {
            lemma_numbering_pos(map@, list, *k);
        }
        let ghost before = col@;
        add_row(&mut col, p);
        proof {
            let s0 = positions_of(list, keys@.subrange(0, t as int));
            assert(sym_diff(s0, Set::<int>::empty().insert(p as int)) =~= s0.insert(p as int));
            assert forall|i: int| 0 <= i < col@.len() implies col@[i] < list.len() by {
                assert(elems(col@).contains(col@[i] as int));
                if elems(before).contains(col@[i] as int) {
                    let j = choose|j: int| 0 <= j < before.len() && before[j] as int == col@[i] as int;
                    assert(before[j] < list.len());
                }
            }
        }
    }
    proof {
        assert(keys@.subrange(0, n as int) =~= keys@);
    }
    col
}


/// The boundary matrices ∂₁, ∂₂, ∂₃ over Z₂ of the cubical complex spanned by
/// the voxels, with the number of vertices. Every column is sorted.
pub fn cubical_boundaries(occupied: &[V3]) -> (res: (usize, Vec<Vec<usize>>, Vec<Vec<usize>>, Vec<Vec<usize>>))
    requires
        voxels_in_range(occupied@),
    ensures
        res.0 == vertex_list(occupied@).len(),
        column_sets(res.1@) == boundary_1(occupied@),
        column_sets(res.2@) == boundary_2(occupied@),
        column_sets(res.3@) == boundary_3(occupied@),
        columns_sorted(res.1@),
        columns_sorted(res.2@),
        columns_sorted(res.3@),
        entries_below(res.1@, res.0 as int),
        entries_below(res.2@, res.1@.len() as int),
        entries_below(res.3@, res.2@.len() as int),
{
    let ghost occ = occupied@;
    let (verts, edges, edge_keys, faces, face_keys, n0) = number_cells(occupied);
    proof {
        lemma_lists_distinct(occ);
        lemma_key_order_laws();
    }
    let n1 = edge_keys.len();
    let n2 = face_keys.len();
    let n3 = occupied.len();

    // ∂₁: edges → vertices
    let mut d1_cols: Vec<Vec<usize>> = Vec::new();
    for ei in 0..n1
        invariant
            occ == occupied@,
            voxels_in_range(occ),
            key_order_laws(),
            numbering(verts@, vertex_list(occ)),
            edge_keys@ == edge_list(occ),
            n1 == edge_keys@.len(),
            n0 == vertex_list(occ).len(),
            d1_cols@.len() == ei,
            forall|k: int| 0 <= k < ei ==> #[trigger] elems(d1_cols@[k]@) == boundary_1(occ)[k],
            columns_sorted(d1_cols@),
            entries_below(d1_cols@, n0 as int),
    {
        let e = edge_keys[ei];
        proof {
            assert(edge_list(occ).contains(e));
            lemma_edge_listed_facts(occ, e);
        }
        let ev = edge_vertex_keys(e);
        proof {
            assert(ev@.no_duplicates()) by {
                assert forall|a: int, b: int| 0 <= a < b < ev@.len() implies ev@[a] != ev@[b] by {}
            }
            assert forall|u: int| 0 <= u < ev@.len() implies vertex_list(occ).contains(#[trigger] ev@[u]) by {}
        }
        let col = numbered_column(&verts, &ev, Ghost(vertex_list(occ)));
        d1_cols.push(col);
        proof {
            assert(elems(d1_cols@[ei as int]@) == boundary_1(occ)[ei as int]);
        }
    }
    proof {
        assert(column_sets(d1_cols@) =~= boundary_1(occ));
    }

    // ∂₂: faces → edges
    let mut d2_cols: Vec<Vec<usize>> = Vec::new();
    for fi in 0..n2
        invariant
            occ == occupied@,
            voxels_in_range(occ),
            key_order_laws(),
            numbering(edges@, edge_keys@),
            edge_keys@ == edge_list(occ),
            face_keys@ == face_list(occ),
            n1 == edge_keys@.len(),
            n2 == face_keys@.len(),
            d2_cols@.len() == fi,
            forall|k: int| 0 <= k < fi ==> #[trigger] elems(d2_cols@[k]@) == boundary_2(occ)[k],
            columns_sorted(d2_cols@),
            entries_below(d2_cols@, n1 as int),
    {
        let f = face_keys[fi];
        proof {
            assert(face_list(occ).contains(f));
            lemma_face_listed_facts(occ, f);
        }
        let fe = face_edge_keys(f);
        let col = numbered_column(&edges, &fe, Ghost(edge_list(occ)));
        d2_cols.push(col);
        proof {
            assert(elems(d2_cols@[fi as int]@) == boundary_2(occ)[fi as int]);
        }
    }
    proof {
        assert(column_sets(d2_cols@) =~= boundary_2(occ));
    }

    // ∂₃: cubes → faces
    let mut d3_cols: Vec<Vec<usize>> = Vec::new();
    for ci in 0..n3
        invariant
            occ == occupied@,
            n3 == occ.len(),
            voxels_in_range(occ),
            key_order_laws(),
            numbering(faces@, face_keys@),
            face_keys@ == face_list(occ),
            n2 == face_keys@.len(),
            d3_cols@.len() == ci,
            forall|k: int| 0 <= k < ci ==> #[trigger] elems(d3_cols@[k]@) == boundary_3(occ)[k],
            columns_sorted(d3_cols@),
            entries_below(d3_cols@, n2 as int),
    {
        let c = occupied[ci];
        proof {
            assert(cube_ok(occ[ci as int]));
            lemma_cube_faces_listed(occ, ci as int);
        }
        let cf = cube_face_keys(c);
        let col = numbered_column(&faces, &cf, Ghost(face_list(occ)));
        d3_cols.push(col);
        proof {
            assert(elems(d3_cols@[ci as int]@) == boundary_3(occ)[ci as int]);
        }
    }
    proof {
        assert(column_sets(d3_cols@) =~= boundary_3(occ));
    }
    (n0, d1_cols, d2_cols, d3_cols)
}


/// Compute Betti numbers β₀, β₁, β₂ of the cubical complex spanned by the
/// occupied voxels, by column reduction over Z₂:
/// β₀ = #vertices − rank ∂₁, β₁ = #edges − rank ∂₁ − rank ∂₂,
/// β₂ = #faces − rank ∂₂ − rank ∂₃. A nonempty set of voxels has β₀ ≥ 1.
pub fn betti_numbers(occupied: &[V3]) -> (betti: (usize, usize, usize))
    requires
        voxels_in_range(occupied@),
    ensures
        betti.0 == vertex_list(occupied@).len() - gf2_rank(boundary_1(occupied@)),
        betti.1 == edge_list(occupied@).len() - gf2_rank(boundary_1(occupied@)) - gf2_rank(
            boundary_2(occupied@),
        ),
        betti.2 == face_list(occupied@).len() - gf2_rank(boundary_2(occupied@)) - gf2_rank(
            boundary_3(occupied@),
        ),
        occupied@.len() > 0 ==> betti.0 >= 1,
        (betti.0 as int, betti.1 as int, betti.2 as int) == betti_of(occupied@),
{
    let ghost occ = occupied@;
    let (n0, d1_cols, d2_cols, d3_cols) = cubical_boundaries(occupied);
    let n1 = d1_cols.len();
    let n2 = d2_cols.len();

    // Column reduction over Z₂ for ranks
    let rank1 = column_reduce_rank_z2(d1_cols.as_slice(), n0);
    let rank2 = column_reduce_rank_z2(d2_cols.as_slice(), n1);
    let rank3 = column_reduce_rank_z2(d3_cols.as_slice(), n2);

    proof {
        // the image of each boundary lies in the kernel of the next one
        lemma_d1_d2_zero(occ);
        lemma_d2_d3_zero(occ);
        let r2 = choose|r: Seq<Set<int>>| is_reduction(column_sets(d2_cols@), r);
        let r3 = choose|r: Seq<Set<int>>| is_reduction(column_sets(d3_cols@), r);
        lemma_entries_below_sets(d2_cols@, n1 as int);
        lemma_entries_below_sets(d3_cols@, n2 as int);
        lemma_rank_sum(boundary_1(occ), boundary_2(occ), r2);
        lemma_rank_sum(boundary_2(occ), boundary_3(occ), r3);
        // a nonempty complex has a component
        if occ.len() > 0 {
            let r1 = choose|r: Seq<Set<int>>| is_reduction(column_sets(d1_cols@), r);
            lemma_entries_below_sets(d1_cols@, n0 as int);
            lemma_d1_columns_even(occ);
            lemma_vertices_nonempty(occ);
            lemma_even_rank_bound(boundary_1(occ), r1, n0 as int);
        }
    }
    let b0 = n0 - rank1;
    let b1 = (n1 - rank1) - rank2;
    let b2 = (n2 - rank2) - rank3;
    (b0, b1, b2)
}


/// Homology over Z₂ of the cubical complex spanned by the voxels: the Betti
/// numbers β₀, β₁, β₂ (all zero for no voxels), and whether ∂∘∂ = 0 holds,
/// which it always does.
pub fn homology_groups(occupied: &[V3]) -> (groups: HomologyGroups)
    requires
        voxels_in_range(occupied@),
    ensures
        occupied@.len() == 0 ==> groups.beta@ == seq![0usize, 0usize, 0usize],
        occupied@.len() > 0 ==> groups.beta@.len() == 3
            && groups.beta@[0] == vertex_list(occupied@).len() - gf2_rank(boundary_1(occupied@))
            && groups.beta@[1] == edge_list(occupied@).len() - gf2_rank(boundary_1(occupied@))
                - gf2_rank(boundary_2(occupied@))
            && groups.beta@[2] == face_list(occupied@).len() - gf2_rank(boundary_2(occupied@))
                - gf2_rank(boundary_3(occupied@)),
        occupied@.len() > 0 ==> groups.beta@[0] >= 1,
        groups.d_squared_zero == (composes_to_zero(boundary_1(occupied@), boundary_2(occupied@))
            && composes_to_zero(boundary_2(occupied@), boundary_3(occupied@))),
        groups.d_squared_zero,
{
    proof {
        lemma_d1_d2_zero(occupied@);
        lemma_d2_d3_zero(occupied@);
    }
    if occupied.len() == 0 {
        let beta = vec![0, 0, 0];
        proof {
            assert(beta@ =~= seq![0usize, 0usize, 0usize]);
        }
        return HomologyGroups { beta, d_squared_zero: true };
    }
    let (b0, b1, b2) = betti_numbers(occupied);
    HomologyGroups { beta: vec![b0, b1, b2], d_squared_zero: true }
}

} // verus!
