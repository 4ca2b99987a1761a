//! Linear algebra over Z₂ on columns given as finite sets of row indices.
//!
//! A column is a set of row indices; adding two columns is their symmetric
//! difference. The rank of a sequence of columns is the number of columns
//! that are not a sum of the columns before them.
use vstd::prelude::*;
use vstd::set_lib::*;

verus! {

/// Sum of two columns over Z₂.
pub open spec fn sym_diff(a: Set<int>, b: Set<int>) -> Set<int> {
    Set::new(|x: int| a.contains(x) != b.contains(x))
}

/// The row indices held by a column stored as a vector.
pub open spec fn elems(v: Seq<usize>) -> Set<int> {
    Set::new(|x: int| exists|i: int| 0 <= i < v.len() && v[i] as int == x)
}

/// Every entry is smaller than the next one.
pub open spec fn strictly_sorted(v: Seq<usize>) -> bool {
    forall|i: int, j: int| 0 <= i < j < v.len() ==> v[i] < v[j]
}

/// The columns of a matrix stored as vectors, as sets.
pub open spec fn column_sets(cols: Seq<Vec<usize>>) -> Seq<Set<int>> {
    Seq::new(cols.len(), |j: int| elems(cols[j]@))
}

/// Every column is strictly sorted.
pub open spec fn columns_sorted(cols: Seq<Vec<usize>>) -> bool {
    forall|j: int| 0 <= j < cols.len() ==> strictly_sorted(#[trigger] cols[j]@)
}

/// Every entry of every column is a row index below `rows`.
pub open spec fn entries_below(cols: Seq<Vec<usize>>, rows: int) -> bool {
    forall|j: int, i: int|
        0 <= j < cols.len() && 0 <= i < cols[j]@.len() ==> #[trigger] cols[j]@[i] < rows
}

/// `start` plus the columns named by `ks`, added in order.
pub open spec fn xor_chain(start: Set<int>, ks: Seq<int>, cols: Seq<Set<int>>) -> Set<int>
    decreases ks.len(),
{
    if ks.len() == 0 {
        start
    } else {
        sym_diff(xor_chain(start, ks.drop_last(), cols), cols[ks.last()])
    }
}

/// Every index in `ks` names one of the first `n` columns.
pub open spec fn indices_below(ks: Seq<int>, n: int) -> bool {
    forall|i: int| 0 <= i < ks.len() ==> 0 <= #[trigger] ks[i] < n
}

/// `x` is a sum of columns among the first `n` of `cols`.
pub open spec fn in_span(x: Set<int>, cols: Seq<Set<int>>, n: int) -> bool {
    exists|ks: Seq<int>| indices_below(ks, n) && x == xor_chain(Set::empty(), ks, cols)
}

/// Number of columns among the first `n` that are not a sum of the columns before them.
pub open spec fn rank_prefix(cols: Seq<Set<int>>, n: nat) -> nat
    decreases n,
{
    if n == 0 {
        0
    } else {
        rank_prefix(cols, (n - 1) as nat) + if in_span(cols[n - 1], cols, n - 1) {
            0nat
        } else {
            1nat
        }
    }
}

/// Rank over Z₂ of a sequence of columns.
pub open spec fn gf2_rank(cols: Seq<Set<int>>) -> nat {
    rank_prefix(cols, cols.len())
}

/// The image of the chain `x` under the matrix `d`: the sum of the columns
/// `d[e]` over the indices `e < n` held by `x`.
pub open spec fn boundary_of(d: Seq<Set<int>>, x: Set<int>, n: int) -> Set<int>
    decreases n,
{
    if n <= 0 {
        Set::empty()
    } else if x.contains(n - 1) {
        sym_diff(boundary_of(d, x, n - 1), d[n - 1])
    } else {
        boundary_of(d, x, n - 1)
    }
}

/// `lower ∘ upper = 0`: the image under `lower` of every column of `upper` is empty.
pub open spec fn composes_to_zero(lower: Seq<Set<int>>, upper: Seq<Set<int>>) -> bool {
    forall|j: int|
        0 <= j < upper.len() ==> #[trigger] boundary_of(lower, upper[j], lower.len() as int)
            == Set::<int>::empty()
}

/// `p` is the largest element of `s`.
pub open spec fn is_max(s: Set<int>, p: int) -> bool {
    s.contains(p) && forall|x: int| s.contains(x) ==> x <= p
}

/// No two of the first `n` columns share their largest element.
pub open spec fn pivots_distinct(r: Seq<Set<int>>, n: int) -> bool {
    forall|j1: int, j2: int, p: int|
        0 <= j1 < n && 0 <= j2 < n && #[trigger] is_max(r[j1], p) && #[trigger] is_max(r[j2], p)
            ==> j1 == j2
}

/// `r` is a column reduction of `m`: each column of `r` is the column of `m`
/// plus a sum of earlier columns of `r`, every nonempty column of `r` has a
/// largest element, and no two columns of `r` share it.
#[verifier::opaque]
pub open spec fn is_reduction(m: Seq<Set<int>>, r: Seq<Set<int>>) -> bool {
    &&& r.len() == m.len()
    &&& forall|j: int| 0 <= j < r.len() ==> #[trigger] reduces_column(m, r, j)
    &&& forall|j: int| 0 <= j < r.len() ==> #[trigger] has_pivot(r[j])
    &&& pivots_distinct(r, r.len() as int)
}

/// Column `j` of `r` is column `j` of `m` plus a sum of earlier columns of `r`.
pub open spec fn reduces_column(m: Seq<Set<int>>, r: Seq<Set<int>>, j: int) -> bool {
    exists|ks: Seq<int>| indices_below(ks, j) && r[j] == xor_chain(m[j], ks, r)
}

/// An empty column, or one with a largest element.
pub open spec fn has_pivot(s: Set<int>) -> bool {
    s == Set::<int>::empty() || exists|p: int| is_max(s, p)
}

/// Number of nonempty columns among the first `n`.
pub open spec fn count_nonempty(r: Seq<Set<int>>, n: nat) -> nat
    decreases n,
{
    if n == 0 {
        0
    } else {
        count_nonempty(r, (n - 1) as nat) + if r[n - 1] == Set::<int>::empty() {
            0nat
        } else {
            1nat
        }
    }
}

// ---------------------------------------------------------------------------
// Algebra of the symmetric difference
// ---------------------------------------------------------------------------

pub proof fn lemma_sd_assoc(a: Set<int>, b: Set<int>, c: Set<int>)
    ensures
        sym_diff(sym_diff(a, b), c) == sym_diff(a, sym_diff(b, c)),
{
    assert(sym_diff(sym_diff(a, b), c) =~= sym_diff(a, sym_diff(b, c)));
}

pub proof fn lemma_sd_empty(a: Set<int>)
    ensures
        sym_diff(a, Set::empty()) == a,
        sym_diff(Set::empty(), a) == a,
{
    assert(sym_diff(a, Set::empty()) =~= a);
    assert(sym_diff(Set::empty(), a) =~= a);
}

pub proof fn lemma_sd_self(a: Set<int>)
    ensures
        sym_diff(a, a) == Set::<int>::empty(),
{
    assert(sym_diff(a, a) =~= Set::<int>::empty());
}

/// `(x + y) + y = x`.
pub proof fn lemma_sd_cancel(x: Set<int>, y: Set<int>)
    ensures
        sym_diff(sym_diff(x, y), y) == x,
{
    assert(sym_diff(sym_diff(x, y), y) =~= x);
}

// ---------------------------------------------------------------------------
// Chains and spans
// ---------------------------------------------------------------------------

/// Adding `a` before or after a chain of additions gives the same sum.
pub proof fn lemma_chain_shift(a: Set<int>, b: Set<int>, ks: Seq<int>, cols: Seq<Set<int>>)
    ensures
        xor_chain(sym_diff(a, b), ks, cols) == sym_diff(a, xor_chain(b, ks, cols)),
    decreases ks.len(),
{
    if ks.len() > 0 {
        lemma_chain_shift(a, b, ks.drop_last(), cols);
        lemma_sd_assoc(a, xor_chain(b, ks.drop_last(), cols), cols[ks.last()]);
    }
}

/// A chain started at `a` is `a` plus the chain started at the empty set.
pub proof fn lemma_chain_from(a: Set<int>, ks: Seq<int>, cols: Seq<Set<int>>)
    ensures
        xor_chain(a, ks, cols) == sym_diff(a, xor_chain(Set::empty(), ks, cols)),
{
    lemma_sd_empty(a);
    lemma_chain_shift(a, Set::empty(), ks, cols);
}

pub proof fn lemma_chain_concat(a: Set<int>, ks1: Seq<int>, ks2: Seq<int>, cols: Seq<Set<int>>)
    ensures
        xor_chain(a, ks1 + ks2, cols) == xor_chain(xor_chain(a, ks1, cols), ks2, cols),
    decreases ks2.len(),
{
    if ks2.len() == 0 {
        assert(ks1 + ks2 =~= ks1);
    } else {
        assert((ks1 + ks2).drop_last() =~= ks1 + ks2.drop_last());
        lemma_chain_concat(a, ks1, ks2.drop_last(), cols);
    }
}

/// A chain only reads the columns that it names.
pub proof fn lemma_chain_frame(
    start: Set<int>,
    ks: Seq<int>,
    c1: Seq<Set<int>>,
    c2: Seq<Set<int>>,
    n: int,
)
    requires
        indices_below(ks, n),
        forall|i: int| 0 <= i < n ==> c1[i] == c2[i],
    ensures
        xor_chain(start, ks, c1) == xor_chain(start, ks, c2),
    decreases ks.len(),
{
    if ks.len() > 0 {
        lemma_chain_frame(start, ks.drop_last(), c1, c2, n);
        assert(ks[ks.len() - 1] == ks.last());
    }
}

pub proof fn lemma_span_empty(cols: Seq<Set<int>>, n: int)
    ensures
        in_span(Set::empty(), cols, n),
{
    let ks = Seq::<int>::empty();
    assert(indices_below(ks, n));
    assert(xor_chain(Set::empty(), ks, cols) == Set::<int>::empty());
}

pub proof fn lemma_span_col(cols: Seq<Set<int>>, i: int, n: int)
    requires
        0 <= i < n,
    ensures
        in_span(cols[i], cols, n),
{
    let ks = seq![i];
    assert(indices_below(ks, n));
    assert(ks.drop_last() =~= Seq::<int>::empty());
    assert(ks.last() == i);
    assert(xor_chain(Set::empty(), ks.drop_last(), cols) == Set::<int>::empty());
    lemma_sd_empty(cols[i]);
    assert(xor_chain(Set::empty(), ks, cols) == cols[i]);
}

pub proof fn lemma_span_mono(x: Set<int>, cols: Seq<Set<int>>, n: int, m: int)
    requires
        in_span(x, cols, n),
        n <= m,
    ensures
        in_span(x, cols, m),
{
    let ks = choose|ks: Seq<int>| indices_below(ks, n) && x == xor_chain(Set::empty(), ks, cols);
    assert(indices_below(ks, m));
}

/// The span is closed under addition.
pub proof fn lemma_span_add(x: Set<int>, y: Set<int>, cols: Seq<Set<int>>, n: int)
    requires
        in_span(x, cols, n),
        in_span(y, cols, n),
    ensures
        in_span(sym_diff(x, y), cols, n),
{
    let k1 = choose|ks: Seq<int>| indices_below(ks, n) && x == xor_chain(Set::empty(), ks, cols);
    let k2 = choose|ks: Seq<int>| indices_below(ks, n) && y == xor_chain(Set::empty(), ks, cols);
    let ks = k1 + k2;
    assert(indices_below(ks, n)) by {
        assert forall|i: int| 0 <= i < ks.len() implies 0 <= #[trigger] ks[i] < n by {
            if i < k1.len() {
                assert(ks[i] == k1[i]);
            } else {
                assert(ks[i] == k2[i - k1.len()]);
            }
        }
    }
    lemma_chain_concat(Set::empty(), k1, k2, cols);
    lemma_chain_from(x, k2, cols);
}

/// Sums of the first `n` columns of `a` are sums of the first `m` columns of `b`
/// when each of those columns of `a` is.
pub proof fn lemma_span_transfer(
    a: Seq<Set<int>>,
    b: Seq<Set<int>>,
    n: int,
    m: int,
    x: Set<int>,
)
    requires
        forall|i: int| 0 <= i < n ==> in_span(#[trigger] a[i], b, m),
        in_span(x, a, n),
    ensures
        in_span(x, b, m),
{
    let ks = choose|ks: Seq<int>| indices_below(ks, n) && x == xor_chain(Set::empty(), ks, a);
    lemma_chain_transfer(a, b, n, m, ks);
}

proof fn lemma_chain_transfer(a: Seq<Set<int>>, b: Seq<Set<int>>, n: int, m: int, ks: Seq<int>)
    requires
        forall|i: int| 0 <= i < n ==> in_span(#[trigger] a[i], b, m),
        indices_below(ks, n),
    ensures
        in_span(xor_chain(Set::empty(), ks, a), b, m),
    decreases ks.len(),
{
    if ks.len() == 0 {
        lemma_span_empty(b, m);
    } else {
        lemma_chain_transfer(a, b, n, m, ks.drop_last());
        assert(ks[ks.len() - 1] == ks.last());
        assert(in_span(a[ks.last()], b, m));
        lemma_span_add(xor_chain(Set::empty(), ks.drop_last(), a), a[ks.last()], b, m);
    }
}

/// A sum of the first `n + 1` columns either avoids column `n` or uses it once.
pub proof fn lemma_span_split(x: Set<int>, cols: Seq<Set<int>>, n: int)
    requires
        0 <= n,
        in_span(x, cols, n + 1),
    ensures
        in_span(x, cols, n) || in_span(sym_diff(x, cols[n]), cols, n),
{
    let ks = choose|ks: Seq<int>| indices_below(ks, n + 1) && x == xor_chain(Set::empty(), ks, cols);
    lemma_chain_split(cols, n, ks);
}

proof fn lemma_chain_split(cols: Seq<Set<int>>, n: int, ks: Seq<int>)
    requires
        0 <= n,
        indices_below(ks, n + 1),
    ensures
        in_span(xor_chain(Set::empty(), ks, cols), cols, n) || in_span(
            sym_diff(xor_chain(Set::empty(), ks, cols), cols[n]),
            cols,
            n,
        ),
    decreases ks.len(),
{
    if ks.len() == 0 {
        lemma_span_empty(cols, n);
    } else {
        let xp = xor_chain(Set::empty(), ks.drop_last(), cols);
        let k = ks.last();
        assert(ks[ks.len() - 1] == k);
        lemma_chain_split(cols, n, ks.drop_last());
        let x = sym_diff(xp, cols[k]);
        assert(x == xor_chain(Set::empty(), ks, cols));
        if k < n {
            lemma_span_col(cols, k, n);
            if in_span(xp, cols, n) {
                lemma_span_add(xp, cols[k], cols, n);
            } else {
                lemma_span_add(sym_diff(xp, cols[n]), cols[k], cols, n);
                // (xp + c_n) + c_k == (xp + c_k) + c_n
                assert(sym_diff(sym_diff(xp, cols[n]), cols[k]) =~= sym_diff(x, cols[n]));
            }
        } else {
            assert(k == n);
            lemma_sd_cancel(xp, cols[n]);
        }
    }
}

pub proof fn lemma_span_zero(x: Set<int>, cols: Seq<Set<int>>)
    requires
        in_span(x, cols, 0),
    ensures
        x == Set::<int>::empty(),
{
    let ks = choose|ks: Seq<int>| indices_below(ks, 0) && x == xor_chain(Set::empty(), ks, cols);
    if ks.len() > 0 {
        assert(0 <= ks[0] < 0);
    }
}

// ---------------------------------------------------------------------------
// Column reductions compute the rank
// ---------------------------------------------------------------------------

/// The parts of a reduction, one at a time.
pub proof fn lemma_reduction_facts(m: Seq<Set<int>>, r: Seq<Set<int>>)
    requires
        is_reduction(m, r),
    ensures
        r.len() == m.len(),
        pivots_distinct(r, r.len() as int),
        forall|k: int|
            0 <= k < r.len() ==> #[trigger] has_pivot(r[k]),
{
    reveal(is_reduction);
}

/// A reduced column is the input column plus a sum of earlier reduced columns.
pub proof fn lemma_reduction_column(m: Seq<Set<int>>, r: Seq<Set<int>>, i: int) -> (z: Set<int>)
    requires
        is_reduction(m, r),
        0 <= i < r.len(),
    ensures
        r[i] == sym_diff(m[i], z),
        in_span(z, r, i),
{
    reveal(is_reduction);
    assert(reduces_column(m, r, i));
    let ks = choose|ks: Seq<int>| indices_below(ks, i) && r[i] == xor_chain(m[i], ks, r);
    assert(indices_below(ks, i) && r[i] == xor_chain(m[i], ks, r));
    let z = xor_chain(Set::empty(), ks, r);
    lemma_chain_from(m[i], ks, r);
    z
}

/// Each reduced column is a sum of input columns up to it, and conversely.
pub proof fn lemma_reduction_spans(m: Seq<Set<int>>, r: Seq<Set<int>>, n: int)
    requires
        is_reduction(m, r),
        0 <= n <= r.len(),
    ensures
        forall|i: int| 0 <= i < n ==> #[trigger] in_span(r[i], m, i + 1),
        forall|i: int| 0 <= i < n ==> #[trigger] in_span(m[i], r, i + 1),
    decreases n,
{
    if n > 0 {
        lemma_reduction_spans(m, r, n - 1);
        lemma_reduction_span_at(m, r, n - 1);
    }
}

proof fn lemma_reduction_span_at(m: Seq<Set<int>>, r: Seq<Set<int>>, i: int)
    requires
        is_reduction(m, r),
        0 <= i < r.len(),
        forall|k: int| 0 <= k < i ==> #[trigger] in_span(r[k], m, k + 1),
    ensures
        in_span(r[i], m, i + 1),
        in_span(m[i], r, i + 1),
{
    let z = lemma_reduction_column(m, r, i);
    assert forall|k: int| 0 <= k < i implies in_span(#[trigger] r[k], m, i) by {
        assert(in_span(r[k], m, k + 1));
        lemma_span_mono(r[k], m, k + 1, i);
    }
    lemma_span_transfer(r, m, i, i, z);
    lemma_span_mono(z, m, i, i + 1);
    lemma_span_col(m, i, i + 1);
    lemma_span_add(m[i], z, m, i + 1);
    lemma_span_col(r, i, i + 1);
    lemma_span_mono(z, r, i, i + 1);
    lemma_span_add(r[i], z, r, i + 1);
    lemma_sd_cancel(m[i], z);
}

/// A reduction and the matrix it reduces have the same spans.
pub proof fn lemma_reduction_same_span(m: Seq<Set<int>>, r: Seq<Set<int>>, n: int, x: Set<int>)
    requires
        is_reduction(m, r),
        0 <= n <= r.len(),
    ensures
        in_span(x, m, n) <==> in_span(x, r, n),
{
    lemma_reduction_spans(m, r, n);
    assert forall|i: int| 0 <= i < n implies in_span(#[trigger] r[i], m, n) by {
        assert(in_span(r[i], m, i + 1));
        lemma_span_mono(r[i], m, i + 1, n);
    }
    assert forall|i: int| 0 <= i < n implies in_span(#[trigger] m[i], r, n) by {
        assert(in_span(m[i], r, i + 1));
        lemma_span_mono(m[i], r, i + 1, n);
    }
    if in_span(x, m, n) {
        lemma_span_transfer(m, r, n, n, x);
    }
    if in_span(x, r, n) {
        lemma_span_transfer(r, m, n, n, x);
    }
}

/// A nonempty sum of reduced columns has the largest element of one of them as its largest element.
pub proof fn lemma_span_pivot(r: Seq<Set<int>>, n: int, x: Set<int>)
    requires
        0 <= n <= r.len(),
        pivots_distinct(r, n),
        forall|k: int|
            0 <= k < n ==> #[trigger] has_pivot(r[k]),
        in_span(x, r, n),
        x != Set::<int>::empty(),
    ensures
        exists|k: int, p: int| 0 <= k < n && is_max(r[k], p) && is_max(x, p),
    decreases n,
{
    if n == 0 {
        lemma_span_zero(x, r);
    } else {
        let c = n - 1;
        lemma_span_split(x, r, c);
        assert(pivots_distinct(r, c));
        if in_span(x, r, c) {
            lemma_span_pivot(r, c, x);
            let (k, p) = choose|k: int, p: int| 0 <= k < c && is_max(r[k], p) && is_max(x, p);
            assert(0 <= k < n && is_max(r[k], p) && is_max(x, p));
        } else {
            let y = sym_diff(x, r[c]);
            lemma_sd_cancel(x, r[c]);
            assert(x == sym_diff(y, r[c]));
            if r[c] == Set::<int>::empty() {
                lemma_sd_empty(y);
                lemma_span_pivot(r, c, y);
                let (k, p) = choose|k: int, p: int| 0 <= k < c && is_max(r[k], p) && is_max(y, p);
                assert(0 <= k < n && is_max(r[k], p) && is_max(x, p));
            } else {
                assert(has_pivot(r[c]));
                let q = choose|p: int| is_max(r[c], p);
                assert(is_max(r[c], q));
                if y == Set::<int>::empty() {
                    lemma_sd_empty(r[c]);
                    assert(x == r[c]);
                    assert(0 <= c < n && is_max(r[c], q) && is_max(x, q));
                } else {
                    lemma_span_pivot(r, c, y);
                    let (k, p) = choose|k: int, p: int| 0 <= k < c && is_max(r[k], p) && is_max(y, p);
                    assert(p != q) by {
                        if p == q {
                            assert(is_max(r[k], p) && is_max(r[c], p));
                        }
                    }
                    if p > q {
                        assert(!r[c].contains(p));
                        assert(is_max(x, p));
                        assert(0 <= k < n && is_max(r[k], p) && is_max(x, p));
                    } else {
                        assert(!y.contains(q));
                        assert(is_max(x, q));
                        assert(0 <= c < n && is_max(r[c], q) && is_max(x, q));
                    }
                }
            }
        }
    }
}

/// A reduced column is empty exactly when the input column is a sum of the columns before it.
pub proof fn lemma_reduction_zero_iff(m: Seq<Set<int>>, r: Seq<Set<int>>, j: int)
    requires
        is_reduction(m, r),
        0 <= j < r.len(),
    ensures
        r[j] == Set::<int>::empty() <==> in_span(m[j], m, j),
{
    let z = lemma_reduction_column(m, r, j);
    lemma_reduction_facts(m, r);
    lemma_reduction_same_span(m, r, j, z);
    lemma_reduction_same_span(m, r, j, m[j]);
    if r[j] == Set::<int>::empty() {
        // m[j] + z is empty, so m[j] == z
        assert forall|x: int| m[j].contains(x) == z.contains(x) by {
            assert(!sym_diff(m[j], z).contains(x));
        }
        assert(m[j] =~= z);
    }
    if in_span(m[j], m, j) {
        lemma_span_add(m[j], z, r, j);
        if r[j] != Set::<int>::empty() {
            assert(pivots_distinct(r, j));
            lemma_span_pivot(r, j, r[j]);
            let (k, p) = choose|k: int, p: int| 0 <= k < j && is_max(r[k], p) && is_max(r[j], p);
            assert(is_max(r[k], p) && is_max(r[j], p));
        }
    }
}

/// The number of nonempty columns of any reduction is the rank.
pub proof fn lemma_reduction_rank(m: Seq<Set<int>>, r: Seq<Set<int>>, n: nat)
    requires
        is_reduction(m, r),
        n <= r.len(),
    ensures
        rank_prefix(m, n) == count_nonempty(r, n),
    decreases n,
{
    if n > 0 {
        lemma_reduction_rank(m, r, (n - 1) as nat);
        lemma_reduction_zero_iff(m, r, n - 1);
    }
}


// ---------------------------------------------------------------------------
// Columns stored as vectors
// ---------------------------------------------------------------------------

pub proof fn lemma_elems_push(s: Seq<usize>, x: usize)
    ensures
        elems(s.push(x)) == elems(s).insert(x as int),
{
    assert forall|y: int| elems(s.push(x)).contains(y) == elems(s).insert(x as int).contains(y) by {
        if elems(s).contains(y) {
            let i = choose|i: int| 0 <= i < s.len() && s[i] as int == y;
            assert(s.push(x)[i] == s[i]);
        }
        if y == x as int {
            assert(s.push(x)[s.len() as int] == x);
        }
        if elems(s.push(x)).contains(y) {
            let i = choose|i: int| 0 <= i < s.push(x).len() && s.push(x)[i] as int == y;
            if i < s.len() {
                assert(s[i] == s.push(x)[i]);
            }
        }
    }
    assert(elems(s.push(x)) =~= elems(s).insert(x as int));
}

pub proof fn lemma_elems_empty()
    ensures
        elems(Seq::<usize>::empty()) == Set::<int>::empty(),
{
    assert(elems(Seq::<usize>::empty()) =~= Set::<int>::empty());
}

/// The last entry of a nonempty strictly sorted column is its largest element.
pub proof fn lemma_sorted_last_is_max(s: Seq<usize>)
    requires
        strictly_sorted(s),
        s.len() > 0,
    ensures
        is_max(elems(s), s.last() as int),
{
    assert(s[s.len() - 1] as int == s.last() as int);
    assert forall|x: int| elems(s).contains(x) implies x <= s.last() by {
        let i = choose|i: int| 0 <= i < s.len() && s[i] as int == x;
        if i < s.len() - 1 {
            assert(s[i] < s[s.len() - 1]);
        }
    }
}

pub proof fn lemma_sorted_nonempty(s: Seq<usize>)
    ensures
        (elems(s) == Set::<int>::empty()) == (s.len() == 0),
{
    if s.len() > 0 {
        assert(elems(s).contains(s[0] as int));
    } else {
        assert(s =~= Seq::<usize>::empty());
        lemma_elems_empty();
    }
}


// ---------------------------------------------------------------------------
// Counting pivots
// ---------------------------------------------------------------------------

/// The largest elements of the nonempty columns among the first `n`.
pub open spec fn pivot_set(r: Seq<Set<int>>, n: int) -> Set<int> {
    Set::new(|p: int| exists|k: int| 0 <= k < n && #[trigger] is_max(r[k], p))
}

pub proof fn lemma_pivot_set_len(r: Seq<Set<int>>, n: nat)
    requires
        pivots_distinct(r, n as int),
        forall|k: int|
            0 <= k < n ==> #[trigger] has_pivot(r[k]),
    ensures
        pivot_set(r, n as int).finite(),
        pivot_set(r, n as int).len() == count_nonempty(r, n),
    decreases n,
{
    if n == 0 {
        assert(pivot_set(r, 0) =~= Set::<int>::empty());
    } else {
        let c = n - 1;
        assert(pivots_distinct(r, c));
        lemma_pivot_set_len(r, c as nat);
        if r[c] == Set::<int>::empty() {
            assert(pivot_set(r, n as int) =~= pivot_set(r, c)) by {
                assert forall|p: int| pivot_set(r, n as int).contains(p) implies pivot_set(r, c).contains(p) by {
                    let k = choose|k: int| 0 <= k < n && is_max(r[k], p);
                    assert(k != c);
                }
            }
        } else {
            assert(has_pivot(r[c]));
            let q = choose|p: int| is_max(r[c], p);
            assert(is_max(r[c], q));
            assert(!pivot_set(r, c).contains(q)) by {
                if pivot_set(r, c).contains(q) {
                    let k = choose|k: int| 0 <= k < c && is_max(r[k], q);
                    assert(is_max(r[k], q) && is_max(r[c], q));
                }
            }
            assert(pivot_set(r, n as int) =~= pivot_set(r, c).insert(q)) by {
                assert forall|p: int| pivot_set(r, n as int).contains(p) implies pivot_set(r, c).insert(q).contains(p) by {
                    let k = choose|k: int| 0 <= k < n && is_max(r[k], p);
                    if k == c {
                        assert(p <= q && q <= p);
                    }
                }
                assert(is_max(r[c], q));
            }
        }
    }
}

/// Distinct pivots below `rows` are at most `rows` many.
pub proof fn lemma_count_nonempty_le(r: Seq<Set<int>>, n: nat, rows: int)
    requires
        0 <= rows,
        pivots_distinct(r, n as int),
        forall|k: int|
            0 <= k < n ==> #[trigger] has_pivot(r[k]),
        forall|k: int, x: int| 0 <= k < n && #[trigger] r[k].contains(x) ==> 0 <= x < rows,
    ensures
        count_nonempty(r, n) <= rows,
{
    lemma_pivot_set_len(r, n);
    assert(pivot_set(r, n as int).subset_of(set_int_range(0, rows))) by {
        assert forall|p: int| pivot_set(r, n as int).contains(p) implies set_int_range(0, rows).contains(p) by {
            let k = choose|k: int| 0 <= k < n && is_max(r[k], p);
            assert(r[k].contains(p));
        }
    }
    lemma_int_range(0, rows);
    lemma_len_subset(pivot_set(r, n as int), set_int_range(0, rows));
}


// ---------------------------------------------------------------------------
// Images of chains
// ---------------------------------------------------------------------------

/// Adding one more index to a chain adds its column to the image.
pub proof fn lemma_boundary_insert(d: Seq<Set<int>>, x: Set<int>, c: int, n: int)
    requires
        !x.contains(c),
    ensures
        boundary_of(d, x.insert(c), n) == if 0 <= c < n {
            sym_diff(boundary_of(d, x, n), d[c])
        } else {
            boundary_of(d, x, n)
        },
    decreases n,
{
    if n > 0 {
        let t = n - 1;
        lemma_boundary_insert(d, x, c, t);
        if t != c {
            let b = boundary_of(d, x, t);
            if 0 <= c < t && x.contains(t) {
                assert(sym_diff(sym_diff(b, d[c]), d[t]) =~= sym_diff(sym_diff(b, d[t]), d[c]));
            }
        }
    }
}

pub proof fn lemma_boundary_empty(d: Seq<Set<int>>, n: int)
    ensures
        boundary_of(d, Set::empty(), n) == Set::<int>::empty(),
    decreases n,
{
    if n > 0 {
        lemma_boundary_empty(d, n - 1);
    }
}


/// The image is additive.
pub proof fn lemma_boundary_linear(d: Seq<Set<int>>, x: Set<int>, y: Set<int>, n: int)
    ensures
        boundary_of(d, sym_diff(x, y), n) == sym_diff(boundary_of(d, x, n), boundary_of(d, y, n)),
    decreases n,
{
    if n <= 0 {
        lemma_sd_self(Set::<int>::empty());
    } else {
        lemma_boundary_linear(d, x, y, n - 1);
        let bx = boundary_of(d, x, n - 1);
        let by = boundary_of(d, y, n - 1);
        let c = d[n - 1];
        assert(boundary_of(d, sym_diff(x, y), n) =~= sym_diff(boundary_of(d, x, n), boundary_of(d, y, n)));
    }
}

/// Indices at or above the largest one held by the chain do not change its image.
pub proof fn lemma_boundary_beyond(d: Seq<Set<int>>, x: Set<int>, n: int, m: int)
    requires
        n <= m,
        forall|e: int| n <= e < m ==> !x.contains(e),
    ensures
        boundary_of(d, x, m) == boundary_of(d, x, n),
    decreases m - n,
{
    if n < m {
        lemma_boundary_beyond(d, x, n, m - 1);
    }
}

/// The image of a chain under the first `n` columns is a sum of those columns.
pub proof fn lemma_boundary_in_span(d: Seq<Set<int>>, x: Set<int>, n: int)
    requires
        0 <= n,
    ensures
        in_span(boundary_of(d, x, n), d, n),
    decreases n,
{
    if n == 0 {
        lemma_span_empty(d, 0);
    } else {
        lemma_boundary_in_span(d, x, n - 1);
        lemma_span_mono(boundary_of(d, x, n - 1), d, n - 1, n);
        if x.contains(n - 1) {
            lemma_span_col(d, n - 1, n);
            lemma_span_add(boundary_of(d, x, n - 1), d[n - 1], d, n);
        }
    }
}

/// When `lower ∘ upper = 0`, every sum of columns of `upper` has an empty image.
pub proof fn lemma_boundary_of_span(lower: Seq<Set<int>>, upper: Seq<Set<int>>, k: int, x: Set<int>)
    requires
        composes_to_zero(lower, upper),
        k <= upper.len(),
        in_span(x, upper, k),
    ensures
        boundary_of(lower, x, lower.len() as int) == Set::<int>::empty(),
{
    let ks = choose|ks: Seq<int>| indices_below(ks, k) && x == xor_chain(Set::empty(), ks, upper);
    lemma_boundary_of_chain(lower, upper, k, ks);
}

proof fn lemma_boundary_of_chain(lower: Seq<Set<int>>, upper: Seq<Set<int>>, k: int, ks: Seq<int>)
    requires
        composes_to_zero(lower, upper),
        k <= upper.len(),
        indices_below(ks, k),
    ensures
        boundary_of(lower, xor_chain(Set::empty(), ks, upper), lower.len() as int)
            == Set::<int>::empty(),
    decreases ks.len(),
{
    let n = lower.len() as int;
    if ks.len() == 0 {
        lemma_boundary_empty(lower, n);
    } else {
        lemma_boundary_of_chain(lower, upper, k, ks.drop_last());
        let t = ks.last();
        assert(ks[ks.len() - 1] == t);
        assert(boundary_of(lower, upper[t], n) == Set::<int>::empty());
        lemma_boundary_linear(lower, xor_chain(Set::empty(), ks.drop_last(), upper), upper[t], n);
        lemma_sd_empty(Set::<int>::empty());
    }
}

/// Sums of columns with entries in `[0, rows)` have entries in `[0, rows)`.
pub proof fn lemma_span_bounded(x: Set<int>, cols: Seq<Set<int>>, k: int, rows: int)
    requires
        in_span(x, cols, k),
        forall|i: int, e: int| 0 <= i < k && #[trigger] cols[i].contains(e) ==> 0 <= e < rows,
    ensures
        forall|e: int| x.contains(e) ==> 0 <= e < rows,
{
    let ks = choose|ks: Seq<int>| indices_below(ks, k) && x == xor_chain(Set::empty(), ks, cols);
    lemma_chain_bounded(cols, k, rows, ks);
}

proof fn lemma_chain_bounded(cols: Seq<Set<int>>, k: int, rows: int, ks: Seq<int>)
    requires
        indices_below(ks, k),
        forall|i: int, e: int| 0 <= i < k && #[trigger] cols[i].contains(e) ==> 0 <= e < rows,
    ensures
        forall|e: int| xor_chain(Set::empty(), ks, cols).contains(e) ==> 0 <= e < rows,
    decreases ks.len(),
{
    if ks.len() > 0 {
        lemma_chain_bounded(cols, k, rows, ks.drop_last());
        let t = ks.last();
        assert(ks[ks.len() - 1] == t);
        let prev = xor_chain(Set::empty(), ks.drop_last(), cols);
        assert forall|e: int| xor_chain(Set::empty(), ks, cols).contains(e) implies 0 <= e < rows by {
            if !prev.contains(e) {
                assert(cols[t].contains(e));
            }
        }
    }
}

/// The columns among the first `n` that are not sums of the columns before them.
pub open spec fn new_columns(d: Seq<Set<int>>, n: int) -> Set<int> {
    Set::new(|e: int| 0 <= e < n && !in_span(d[e], d, e))
}

pub proof fn lemma_new_columns_len(d: Seq<Set<int>>, n: nat)
    ensures
        new_columns(d, n as int).finite(),
        new_columns(d, n as int).len() == rank_prefix(d, n),
    decreases n,
{
    if n == 0 {
        assert(new_columns(d, 0) =~= Set::<int>::empty());
    } else {
        lemma_new_columns_len(d, (n - 1) as nat);
        if in_span(d[n - 1], d, n - 1) {
            assert(new_columns(d, n as int) =~= new_columns(d, n - 1));
        } else {
            assert(new_columns(d, n as int) =~= new_columns(d, n - 1).insert(n - 1));
        }
    }
}

pub proof fn lemma_len_disjoint_union(a: Set<int>, b: Set<int>)
    requires
        a.finite(),
        b.finite(),
        a.disjoint(b),
    ensures
        a.union(b).finite(),
        a.union(b).len() == a.len() + b.len(),
    decreases a.len(),
{
    if a.len() == 0 {
        assert(a =~= Set::<int>::empty());
        assert(a.union(b) =~= b);
    } else {
        let x = a.choose();
        assert(a.contains(x));
        lemma_len_disjoint_union(a.remove(x), b);
        assert(a.union(b) =~= a.remove(x).union(b).insert(x));
    }
}

/// When `lower ∘ upper = 0`, rank(lower) + rank(upper) ≤ number of columns of `lower`
/// (the image of `upper` lies in the kernel of `lower`).
pub proof fn lemma_rank_sum(lower: Seq<Set<int>>, upper: Seq<Set<int>>, r: Seq<Set<int>>)
    requires
        is_reduction(upper, r),
        composes_to_zero(lower, upper),
        forall|i: int, e: int|
            0 <= i < upper.len() && #[trigger] upper[i].contains(e) ==> 0 <= e < lower.len(),
    ensures
        gf2_rank(lower) + gf2_rank(upper) <= lower.len(),
{
    let n = lower.len() as int;
    lemma_reduction_facts(upper, r);
    lemma_reduction_rank(upper, r, r.len());
    lemma_pivot_set_len(r, r.len());
    lemma_new_columns_len(lower, lower.len());
    lemma_reduction_spans(upper, r, r.len() as int);
    let piv = pivot_set(r, r.len() as int);
    let new = new_columns(lower, n);
    assert forall|p: int| piv.contains(p) implies 0 <= p < n && !new.contains(p) by {
        let j = choose|j: int| 0 <= j < r.len() && #[trigger] is_max(r[j], p);
        let x = r[j];
        assert(in_span(x, upper, j + 1));
        lemma_span_bounded(x, upper, j + 1, n);
        lemma_boundary_of_span(lower, upper, j + 1, x);
        lemma_boundary_beyond(lower, x, p + 1, n);
        let b = boundary_of(lower, x, p);
        assert(boundary_of(lower, x, p + 1) == sym_diff(b, lower[p]));
        assert(lower[p] =~= b) by {
            assert forall|e: int| lower[p].contains(e) == b.contains(e) by {
                assert(!sym_diff(b, lower[p]).contains(e));
            }
        }
        lemma_boundary_in_span(lower, x, p);
    }
    assert(piv.disjoint(new));
    lemma_len_disjoint_union(piv, new);
    assert(piv.union(new).subset_of(set_int_range(0, n)));
    lemma_int_range(0, n);
    lemma_len_subset(piv.union(new), set_int_range(0, n));
}


/// Entries below `rows` as a fact about the column sets.
pub proof fn lemma_entries_below_sets(cols: Seq<Vec<usize>>, rows: int)
    requires
        entries_below(cols, rows),
    ensures
        forall|i: int, e: int|
            0 <= i < column_sets(cols).len() && #[trigger] column_sets(cols)[i].contains(e) ==> 0 <= e
                < rows,
{
    assert forall|i: int, e: int|
        0 <= i < column_sets(cols).len() && #[trigger] column_sets(cols)[i].contains(e) implies 0 <= e
        < rows by {
        let t = choose|t: int| 0 <= t < cols[i]@.len() && cols[i]@[t] as int == e;
        assert(cols[i]@[t] < rows);
    }
}

// ---------------------------------------------------------------------------
// Columns of even weight
// ---------------------------------------------------------------------------

/// A finite column with an even number of entries.
pub open spec fn even(s: Set<int>) -> bool {
    s.finite() && s.len() % 2 == 0
}

/// The sum of two even columns is even: |a Δ b| = |a| + |b| − 2|a ∩ b|.
pub proof fn lemma_sd_even(a: Set<int>, b: Set<int>)
    requires
        even(a),
        even(b),
    ensures
        even(sym_diff(a, b)),
{
    let i = a.intersect(b);
    let da = a.difference(b);
    let db = b.difference(a);
    assert(i.subset_of(a) && da.subset_of(a) && db.subset_of(b));
    lemma_set_subset_finite(a, i);
    lemma_set_subset_finite(a, da);
    lemma_set_subset_finite(b, db);
    assert(a =~= da.union(i));
    assert(b =~= db.union(i));
    assert(sym_diff(a, b) =~= da.union(db));
    lemma_len_disjoint_union(da, i);
    lemma_len_disjoint_union(db, i);
    lemma_len_disjoint_union(da, db);
}

/// Adding even columns to an even column keeps it even.
proof fn lemma_chain_even(start: Set<int>, ks: Seq<int>, cols: Seq<Set<int>>, n: int)
    requires
        even(start),
        indices_below(ks, n),
        forall|i: int| 0 <= i < n ==> even(#[trigger] cols[i]),
    ensures
        even(xor_chain(start, ks, cols)),
    decreases ks.len(),
{
    if ks.len() > 0 {
        lemma_chain_even(start, ks.drop_last(), cols, n);
        assert(0 <= ks[ks.len() - 1] < n);
        lemma_sd_even(xor_chain(start, ks.drop_last(), cols), cols[ks.last()]);
    }
}

/// Every sum of even columns is even.
pub proof fn lemma_span_even(x: Set<int>, cols: Seq<Set<int>>, n: int)
    requires
        in_span(x, cols, n),
        forall|i: int| 0 <= i < n ==> even(#[trigger] cols[i]),
    ensures
        even(x),
{
    let ks = choose|ks: Seq<int>| indices_below(ks, n) && x == xor_chain(Set::empty(), ks, cols);
    assert(Set::<int>::empty().len() == 0);
    lemma_chain_even(Set::empty(), ks, cols, n);
}

/// Columns of even weight over `rows` rows, `rows > 0`, have rank below `rows`:
/// they all lie in the even subspace, which misses the column {0}.
pub proof fn lemma_even_rank_bound(m: Seq<Set<int>>, r: Seq<Set<int>>, rows: int)
    requires
        is_reduction(m, r),
        rows >= 1,
        forall|j: int| 0 <= j < m.len() ==> even(#[trigger] m[j]),
        forall|j: int, e: int| 0 <= j < m.len() && #[trigger] m[j].contains(e) ==> 0 <= e < rows,
    ensures
        gf2_rank(m) <= rows - 1,
{
    lemma_reduction_facts(m, r);
    lemma_reduction_rank(m, r, r.len());
    lemma_reduction_spans(m, r, r.len() as int);
    lemma_pivot_set_len(r, r.len());
    let piv = pivot_set(r, r.len() as int);
    assert forall|p: int| piv.contains(p) implies set_int_range(1, rows).contains(p) by {
        let j = choose|j: int| 0 <= j < r.len() && #[trigger] is_max(r[j], p);
        assert(in_span(r[j], m, j + 1));
        lemma_span_even(r[j], m, j + 1);
        lemma_span_bounded(r[j], m, j + 1, rows);
        assert(r[j].contains(p));
        if p == 0 {
            assert(r[j].subset_of(set![0int]));
            lemma_len_subset(r[j], set![0int]);
            assert(set![0int].len() == 1);
            assert(r[j].len() != 0) by {
                if r[j].len() == 0 {
                    assert(r[j] =~= Set::<int>::empty());
                }
            }
        }
    }
    lemma_int_range(1, rows);
    lemma_len_subset(piv, set_int_range(1, rows));
}

// ---------------------------------------------------------------------------
// The rank depends only on the span
// ---------------------------------------------------------------------------

/// All sums of columns among the first `n`.
pub open spec fn span_set(cols: Seq<Set<int>>, n: int) -> Set<Set<int>> {
    Set::new(|x: Set<int>| in_span(x, cols, n))
}

/// The first `n` columns have 2^rank sums.
pub proof fn lemma_span_size(cols: Seq<Set<int>>, n: nat)
    requires
        n <= cols.len(),
    ensures
        span_set(cols, n as int).finite(),
        span_set(cols, n as int).len() == vstd::arithmetic::power2::pow2(rank_prefix(cols, n)),
    decreases n,
{
    if n == 0 {
        assert forall|x: Set<int>| #[trigger] in_span(x, cols, 0) <==> x == Set::<int>::empty() by {
            if in_span(x, cols, 0) {
                lemma_span_zero(x, cols);
            }
            if x == Set::<int>::empty() {
                lemma_span_empty(cols, 0);
            }
        }
        assert(span_set(cols, 0) =~= set![Set::<int>::empty()]);
        vstd::arithmetic::power2::lemma2_to64();
    } else {
        let m = n - 1;
        lemma_span_size(cols, (n - 1) as nat);
        let s = span_set(cols, m);
        let c = cols[m];
        let f = |x: Set<int>| sym_diff(x, c);
        let t = s.map(f);
        assert forall|x: Set<int>| #[trigger] span_set(cols, n as int).contains(x) <==> s.union(t).contains(x) by {
            if in_span(x, cols, n as int) {
                lemma_span_split(x, cols, m);
                if !in_span(x, cols, m) {
                    lemma_sd_cancel(x, c);
                    assert(s.contains(sym_diff(x, c)));
                    assert(f(sym_diff(x, c)) == x);
                    assert(t.contains(x));
                }
            }
            if s.contains(x) {
                lemma_span_mono(x, cols, m, n as int);
            }
            if t.contains(x) {
                let y = choose|y: Set<int>| s.contains(y) && f(y) == x;
                lemma_span_mono(y, cols, m, n as int);
                lemma_span_col(cols, m, n as int);
                lemma_span_add(y, c, cols, n as int);
            }
        }
        assert(span_set(cols, n as int) =~= s.union(t));
        assert(vstd::relations::injective_on(f, s)) by {
            assert forall|a: Set<int>, b: Set<int>| s.contains(a) && s.contains(b) && #[trigger] f(a) == #[trigger] f(b) implies a == b by {
                lemma_sd_cancel(a, c);
                lemma_sd_cancel(b, c);
            }
        }
        lemma_map_size(s, t, f);
        let r = rank_prefix(cols, m as nat);
        if in_span(c, cols, m) {
            assert forall|x: Set<int>| t.contains(x) implies s.contains(x) by {
                let y = choose|y: Set<int>| s.contains(y) && f(y) == x;
                lemma_span_add(y, c, cols, m);
            }
            assert(s.union(t) =~= s);
        } else {
            assert(s.disjoint(t)) by {
                assert forall|x: Set<int>| s.contains(x) implies !t.contains(x) by {
                    if t.contains(x) {
                        let y = choose|y: Set<int>| s.contains(y) && f(y) == x;
                        lemma_span_add(y, x, cols, m);
                        assert(sym_diff(y, x) =~= c);
                    }
                }
            }
            lemma_set_disjoint_lens(s, t);
            assert(s + t == s.union(t));
            vstd::arithmetic::power2::lemma_pow2_unfold(r + 1);
        }
    }
}

/// The rank depends only on the span: if every column of `a` is a sum of
/// columns of `b` and every column of `b` a sum of columns of `a`, the two
/// have the same rank.
pub proof fn lemma_rank_depends_on_span(a: Seq<Set<int>>, b: Seq<Set<int>>)
    requires
        forall|i: int| 0 <= i < a.len() ==> in_span(#[trigger] a[i], b, b.len() as int),
        forall|j: int| 0 <= j < b.len() ==> in_span(#[trigger] b[j], a, a.len() as int),
    ensures
        gf2_rank(a) == gf2_rank(b),
{
    lemma_span_size(a, a.len());
    lemma_span_size(b, b.len());
    assert forall|x: Set<int>| #[trigger] span_set(a, a.len() as int).contains(x) <==> span_set(b, b.len() as int).contains(x) by {
        if in_span(x, a, a.len() as int) {
            lemma_span_transfer(a, b, a.len() as int, b.len() as int, x);
        }
        if in_span(x, b, b.len() as int) {
            lemma_span_transfer(b, a, b.len() as int, a.len() as int, x);
        }
    }
    assert(span_set(a, a.len() as int) =~= span_set(b, b.len() as int));
    if gf2_rank(a) < gf2_rank(b) {
        vstd::arithmetic::power2::lemma_pow2_strictly_increases(gf2_rank(a), gf2_rank(b));
    } else if gf2_rank(b) < gf2_rank(a) {
        vstd::arithmetic::power2::lemma_pow2_strictly_increases(gf2_rank(b), gf2_rank(a));
    }
}

/// Permuting the columns, and adding copies of columns or sums of two of
/// them, leaves the rank unchanged.
pub proof fn lemma_rank_permuted_extended(cols: Seq<Set<int>>, cols2: Seq<Set<int>>)
    requires
        forall|i: int| 0 <= i < cols.len() ==> cols2.contains(#[trigger] cols[i]),
        forall|j: int|
            #![trigger cols2[j]]
            0 <= j < cols2.len() ==> exists|i1: int, i2: int|
                #![trigger cols[i1], cols[i2]]
                0 <= i1 < cols.len() && 0 <= i2 < cols.len() && (cols2[j] == cols[i1] || cols2[j] == sym_diff(
                    cols[i1],
                    cols[i2],
                )),
    ensures
        gf2_rank(cols2) == gf2_rank(cols),
{
    assert forall|i: int| 0 <= i < cols.len() implies in_span(#[trigger] cols[i], cols2, cols2.len() as int) by {
        let j = choose|j: int| 0 <= j < cols2.len() && cols2[j] == cols[i];
        lemma_span_col(cols2, j, cols2.len() as int);
    }
    assert forall|j: int| 0 <= j < cols2.len() implies in_span(#[trigger] cols2[j], cols, cols.len() as int) by {
        let (i1, i2) = choose|i1: int, i2: int|
            #![trigger cols[i1], cols[i2]]
            0 <= i1 < cols.len() && 0 <= i2 < cols.len() && (cols2[j] == cols[i1] || cols2[j] == sym_diff(
                cols[i1],
                cols[i2],
            ));
        lemma_span_col(cols, i1, cols.len() as int);
        lemma_span_col(cols, i2, cols.len() as int);
        if cols2[j] != cols[i1] {
            lemma_span_add(cols[i1], cols[i2], cols, cols.len() as int);
        }
    }
    lemma_rank_depends_on_span(cols2, cols);
}

// ---------------------------------------------------------------------------
// Renaming the rows keeps the rank
// ---------------------------------------------------------------------------

/// `f` never sends two rows to the same row.
pub open spec fn one_to_one(f: spec_fn(int) -> int) -> bool {
    forall|x: int, y: int| #[trigger] f(x) == #[trigger] f(y) ==> x == y
}

proof fn lemma_map_sd(a: Set<int>, b: Set<int>, f: spec_fn(int) -> int)
    requires
        one_to_one(f),
    ensures
        sym_diff(a, b).map(f) == sym_diff(a.map(f), b.map(f)),
{
    assert forall|x: int| #[trigger] sym_diff(a, b).map(f).contains(x) <==> sym_diff(a.map(f), b.map(f)).contains(x) by {
        if sym_diff(a, b).map(f).contains(x) {
            let y = choose|y: int| sym_diff(a, b).contains(y) && f(y) == x;
            if a.contains(y) {
                assert(a.map(f).contains(x));
                if b.map(f).contains(x) {
                    let z = choose|z: int| b.contains(z) && f(z) == x;
                    assert(z == y);
                }
            } else {
                assert(b.map(f).contains(x));
                if a.map(f).contains(x) {
                    let z = choose|z: int| a.contains(z) && f(z) == x;
                    assert(z == y);
                }
            }
        }
        if sym_diff(a.map(f), b.map(f)).contains(x) {
            if a.map(f).contains(x) {
                let y = choose|y: int| a.contains(y) && f(y) == x;
                if b.contains(y) {
                    assert(b.map(f).contains(x));
                }
                assert(sym_diff(a, b).contains(y));
            } else {
                let y = choose|y: int| b.contains(y) && f(y) == x;
                if a.contains(y) {
                    assert(a.map(f).contains(x));
                }
                assert(sym_diff(a, b).contains(y));
            }
        }
    }
    assert(sym_diff(a, b).map(f) =~= sym_diff(a.map(f), b.map(f)));
}

proof fn lemma_chain_map(start: Set<int>, ks: Seq<int>, a: Seq<Set<int>>, a2: Seq<Set<int>>, f: spec_fn(int) -> int)
    requires
        one_to_one(f),
        a2.len() == a.len(),
        forall|k: int| 0 <= k < a.len() ==> #[trigger] a2[k] == a[k].map(f),
        indices_below(ks, a.len() as int),
    ensures
        xor_chain(start.map(f), ks, a2) == xor_chain(start, ks, a).map(f),
    decreases ks.len(),
{
    if ks.len() > 0 {
        lemma_chain_map(start, ks.drop_last(), a, a2, f);
        assert(0 <= ks[ks.len() - 1] < a.len());
        lemma_map_sd(xor_chain(start, ks.drop_last(), a), a[ks.last()], f);
    }
}

/// Column `j` of `b` is a column of `a` with its rows renamed by `f`.
pub open spec fn col_renamed_from(b: Seq<Set<int>>, a: Seq<Set<int>>, f: spec_fn(int) -> int, j: int) -> bool {
    exists|i: int| 0 <= i < a.len() && b[j] == #[trigger] a[i].map(f)
}

/// Column `i` of `a`, its rows renamed by `f`, is a column of `b`.
pub open spec fn col_renamed_into(a: Seq<Set<int>>, b: Seq<Set<int>>, f: spec_fn(int) -> int, i: int) -> bool {
    exists|j: int| 0 <= j < b.len() && #[trigger] b[j] == a[i].map(f)
}

/// Every column of `b` is a column of `a` with its rows renamed by `f`.
pub open spec fn renamed_from(b: Seq<Set<int>>, a: Seq<Set<int>>, f: spec_fn(int) -> int) -> bool {
    forall|j: int| 0 <= j < b.len() ==> #[trigger] col_renamed_from(b, a, f, j)
}

/// Every column of `a`, its rows renamed by `f`, is a column of `b`.
pub open spec fn renamed_into(a: Seq<Set<int>>, b: Seq<Set<int>>, f: spec_fn(int) -> int) -> bool {
    forall|i: int| 0 <= i < a.len() ==> #[trigger] col_renamed_into(a, b, f, i)
}

/// Renaming the rows one to one, and listing the renamed columns in any
/// order and with repeats, keeps the rank.
pub proof fn lemma_rank_renamed(a: Seq<Set<int>>, b: Seq<Set<int>>, f: spec_fn(int) -> int)
    requires
        one_to_one(f),
        renamed_from(b, a, f),
        renamed_into(a, b, f),
    ensures
        gf2_rank(a) == gf2_rank(b),
{
    let n = a.len() as int;
    let a2 = Seq::new(a.len(), |i: int| a[i].map(f));
    assert forall|j: int| 0 <= j < b.len() implies in_span(#[trigger] b[j], a2, n) by {
        assert(col_renamed_from(b, a, f, j));
        let i = choose|i: int| 0 <= i < a.len() && b[j] == #[trigger] a[i].map(f);
        lemma_span_col(a2, i, n);
    }
    assert forall|i: int| 0 <= i < a2.len() implies in_span(#[trigger] a2[i], b, b.len() as int) by {
        assert(col_renamed_into(a, b, f, i));
        let j = choose|j: int| 0 <= j < b.len() && #[trigger] b[j] == a[i].map(f);
        lemma_span_col(b, j, b.len() as int);
    }
    lemma_rank_depends_on_span(a2, b);
    lemma_span_size(a, a.len());
    lemma_span_size(a2, a2.len());
    let g = |x: Set<int>| x.map(f);
    let sa = span_set(a, n);
    let sa2 = span_set(a2, n);
    assert(Set::<int>::empty().map(f) =~= Set::<int>::empty());
    assert forall|y: Set<int>| #[trigger] sa2.contains(y) <==> sa.map(g).contains(y) by {
        if sa2.contains(y) {
            let ks = choose|ks: Seq<int>| indices_below(ks, n) && y == xor_chain(Set::empty(), ks, a2);
            lemma_chain_map(Set::empty(), ks, a, a2, f);
            let x = xor_chain(Set::empty(), ks, a);
            assert(sa.contains(x));
            assert(g(x) == y);
        }
        if sa.map(g).contains(y) {
            let x = choose|x: Set<int>| sa.contains(x) && g(x) == y;
            let ks = choose|ks: Seq<int>| indices_below(ks, n) && x == xor_chain(Set::empty(), ks, a);
            lemma_chain_map(Set::empty(), ks, a, a2, f);
            assert(in_span(y, a2, n));
        }
    }
    assert(sa2 =~= sa.map(g));
    assert(vstd::relations::injective_on(g, sa)) by {
        assert forall|x1: Set<int>, x2: Set<int>| sa.contains(x1) && sa.contains(x2) && #[trigger] g(x1) == #[trigger] g(x2) implies x1 == x2 by {
            assert forall|e: int| x1.contains(e) <==> x2.contains(e) by {
                if x1.contains(e) {
                    assert(g(x2).contains(f(e)));
                    let z = choose|z: int| x2.contains(z) && f(z) == f(e);
                }
                if x2.contains(e) {
                    assert(g(x1).contains(f(e)));
                    let z = choose|z: int| x1.contains(z) && f(z) == f(e);
                }
            }
            assert(x1 =~= x2);
        }
    }
    lemma_map_size(sa, sa2, g);
    if gf2_rank(a) < gf2_rank(a2) {
        vstd::arithmetic::power2::lemma_pow2_strictly_increases(gf2_rank(a), gf2_rank(a2));
    } else if gf2_rank(a2) < gf2_rank(a) {
        vstd::arithmetic::power2::lemma_pow2_strictly_increases(gf2_rank(a2), gf2_rank(a));
    }
}

} // verus!
