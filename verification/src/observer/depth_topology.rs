//! Topology of binary images on a pixel grid: connected components under
//! 4-adjacency, and the components that are holes (do not reach the border).
//!
//! Pixel `p` of a `width × height` image sits at column `p % width` and row
//! `p / width`.
use vstd::prelude::*;
use vstd::arithmetic::div_mod::{lemma_fundamental_div_mod, lemma_fundamental_div_mod_converse};
use vstd::set_lib::{lemma_int_range, lemma_len_subset, set_int_range};
use crate::observer::union_find::{
    born, born_mask, born_set, find, forest, is_forest, lemma_enter, lemma_roots_count_components,
    lemma_same_born, lemma_sets_finite, lemma_union, linked_except, ranks, roots_of, uf_ok,
};

verus! {

/// Pixel `p` lies in the image and is set.
pub open spec fn in_mask(mask: Seq<bool>, p: int) -> bool {
    0 <= p < mask.len() && mask[p]
}

/// `b` is one of the four neighbours of `a`.
pub open spec fn adjacent(w: int, h: int, a: int, b: int) -> bool {
    &&& 0 <= a < w * h
    &&& {
        ||| (b == a - 1 && a % w > 0)
        ||| (b == a + 1 && a % w + 1 < w)
        ||| (b == a - w && a / w > 0)
        ||| (b == a + w && a / w + 1 < h)
    }
}

/// A walk through set pixels, each step to a neighbour.
pub open spec fn is_path(mask: Seq<bool>, w: int, h: int, path: Seq<int>) -> bool {
    &&& path.len() > 0
    &&& forall|i: int| 0 <= i < path.len() ==> in_mask(mask, #[trigger] path[i])
    &&& forall|i: int| 0 <= i < path.len() - 1 ==> adjacent(w, h, #[trigger] path[i], path[i + 1])
}

/// `b` can be reached from `a` by a walk through set pixels.
pub open spec fn reach(mask: Seq<bool>, w: int, h: int, a: int, b: int) -> bool {
    exists|path: Seq<int>| is_path(mask, w, h, path) && path[0] == a && path.last() == b
}

/// Pixel `s` is set and no earlier pixel reaches it: the first pixel of its component.
pub open spec fn is_first_of_component(mask: Seq<bool>, w: int, h: int, s: int) -> bool {
    in_mask(mask, s) && forall|j: int| 0 <= j < s ==> !#[trigger] reach(mask, w, h, j, s)
}

/// Pixel `p` lies on the border of the image.
pub open spec fn on_border(w: int, h: int, p: int) -> bool {
    &&& 0 <= p < w * h
    &&& p % w == 0 || p % w == w - 1 || p / w == 0 || p / w == h - 1
}

/// Pixel `p` is reached from a set border pixel.
pub open spec fn exterior(mask: Seq<bool>, w: int, h: int, p: int) -> bool {
    exists|b: int| on_border(w, h, b) && #[trigger] reach(mask, w, h, b, p)
}

/// Number of components among whose first pixels lie below `k`.
pub open spec fn count_firsts(mask: Seq<bool>, w: int, h: int, k: nat) -> nat
    decreases k,
{
    if k == 0 {
        0
    } else {
        count_firsts(mask, w, h, (k - 1) as nat) + if is_first_of_component(mask, w, h, k - 1) {
            1nat
        } else {
            0nat
        }
    }
}

/// Number of components that do not reach the border, among whose first pixels lie below `k`.
pub open spec fn count_interior_firsts(mask: Seq<bool>, w: int, h: int, k: nat) -> nat
    decreases k,
{
    if k == 0 {
        0
    } else {
        count_interior_firsts(mask, w, h, (k - 1) as nat) + if is_first_of_component(mask, w, h, k - 1)
            && !exterior(mask, w, h, k - 1) {
            1nat
        } else {
            0nat
        }
    }
}

/// Every set neighbour of a marked pixel is marked.
pub open spec fn closed(mask: Seq<bool>, w: int, h: int, marked: Seq<bool>) -> bool {
    forall|p: int, b: int|
        0 <= p < marked.len() && marked[p] && #[trigger] adjacent(w, h, p, b) && in_mask(mask, b)
            ==> 0 <= b < marked.len() && marked[b]
}

// ---------------------------------------------------------------------------
// Walks
// ---------------------------------------------------------------------------

pub proof fn lemma_reach_refl(mask: Seq<bool>, w: int, h: int, a: int)
    requires
        in_mask(mask, a),
    ensures
        reach(mask, w, h, a, a),
{
    let path = seq![a];
    assert(is_path(mask, w, h, path));
    assert(path[0] == a && path.last() == a);
}

pub proof fn lemma_reach_step(mask: Seq<bool>, w: int, h: int, a: int, b: int, c: int)
    requires
        reach(mask, w, h, a, b),
        adjacent(w, h, b, c),
        in_mask(mask, c),
    ensures
        reach(mask, w, h, a, c),
{
    let path = choose|path: Seq<int>| is_path(mask, w, h, path) && path[0] == a && path.last() == b;
    let p2 = path.push(c);
    assert forall|i: int| 0 <= i < p2.len() implies in_mask(mask, #[trigger] p2[i]) by {
        if i < path.len() {
            assert(p2[i] == path[i]);
        }
    }
    assert forall|i: int| 0 <= i < p2.len() - 1 implies adjacent(w, h, #[trigger] p2[i], p2[i + 1]) by {
        if i < path.len() - 1 {
            assert(p2[i] == path[i] && p2[i + 1] == path[i + 1]);
        } else {
            assert(p2[i] == path[path.len() - 1]);
        }
    }
    assert(is_path(mask, w, h, p2));
    assert(p2[0] == a && p2.last() == c);
}

/// A closed set of marked pixels holds every pixel reached from one of them.
pub proof fn lemma_closed_reach(mask: Seq<bool>, w: int, h: int, marked: Seq<bool>, a: int, b: int)
    requires
        closed(mask, w, h, marked),
        0 <= a < marked.len(),
        marked[a],
        reach(mask, w, h, a, b),
    ensures
        0 <= b < marked.len(),
        marked[b],
{
    let path = choose|path: Seq<int>| is_path(mask, w, h, path) && path[0] == a && path.last() == b;
    lemma_closed_path(mask, w, h, marked, path, path.len() - 1);
}

proof fn lemma_closed_path(mask: Seq<bool>, w: int, h: int, marked: Seq<bool>, path: Seq<int>, i: int)
    requires
        closed(mask, w, h, marked),
        is_path(mask, w, h, path),
        0 <= path[0] < marked.len(),
        marked[path[0]],
        0 <= i < path.len(),
    ensures
        0 <= path[i] < marked.len(),
        marked[path[i]],
    decreases i,
{
    if i > 0 {
        lemma_closed_path(mask, w, h, marked, path, i - 1);
        assert(adjacent(w, h, path[i - 1], path[i]));
        assert(in_mask(mask, path[i]));
    }
}

pub proof fn lemma_reach_trans(mask: Seq<bool>, w: int, h: int, a: int, b: int, c: int)
    requires
        reach(mask, w, h, a, b),
        reach(mask, w, h, b, c),
    ensures
        reach(mask, w, h, a, c),
{
    let p1 = choose|path: Seq<int>| is_path(mask, w, h, path) && path[0] == a && path.last() == b;
    let p2 = choose|path: Seq<int>| is_path(mask, w, h, path) && path[0] == b && path.last() == c;
    let p = p1 + p2.drop_first();
    assert forall|i: int| 0 <= i < p.len() implies in_mask(mask, #[trigger] p[i]) by {
        if i < p1.len() {
            assert(p[i] == p1[i]);
        } else {
            assert(p[i] == p2[i - p1.len() + 1]);
        }
    }
    assert forall|i: int| 0 <= i < p.len() - 1 implies adjacent(w, h, #[trigger] p[i], p[i + 1]) by {
        if i < p1.len() - 1 {
            assert(p[i] == p1[i] && p[i + 1] == p1[i + 1]);
        } else if i == p1.len() - 1 {
            assert(p[i] == p1[p1.len() - 1]);
            assert(p[i + 1] == p2[1]);
            assert(adjacent(w, h, p2[0], p2[1]));
        } else {
            assert(p[i] == p2[i - p1.len() + 1] && p[i + 1] == p2[i - p1.len() + 2]);
        }
    }
    if p2.len() == 1 {
        assert(p =~= p1);
    } else {
        assert(p.last() == p2.last());
    }
    assert(is_path(mask, w, h, p));
    assert(p[0] == a);
}

// ---------------------------------------------------------------------------
// Counting unmarked pixels
// ---------------------------------------------------------------------------

pub open spec fn count_unmarked(s: Seq<bool>) -> nat
    decreases s.len(),
{
    if s.len() == 0 {
        0
    } else {
        count_unmarked(s.drop_last()) + if s.last() {
            0nat
        } else {
            1nat
        }
    }
}

pub proof fn lemma_count_unmarked_mark(s: Seq<bool>, i: int)
    requires
        0 <= i < s.len(),
        !s[i],
    ensures
        count_unmarked(s.update(i, true)) + 1 == count_unmarked(s),
    decreases s.len(),
{
    let t = s.update(i, true);
    if i == s.len() - 1 {
        assert(t.drop_last() =~= s.drop_last());
    } else {
        assert(t.drop_last() =~= s.drop_last().update(i, true));
        lemma_count_unmarked_mark(s.drop_last(), i);
    }
}


/// Every set neighbour of a marked pixel is marked, except for the pixels still queued.
pub open spec fn closed_except(mask: Seq<bool>, w: int, h: int, marked: Seq<bool>, queue: Seq<usize>) -> bool {
    forall|p: int, b: int|
        0 <= p < marked.len() && marked[p] && !queue.contains(p as usize) && #[trigger] adjacent(w, h, p, b)
            && in_mask(mask, b) ==> 0 <= b < marked.len() && marked[b]
}

/// `p` is reached from one of the pixels in `starts`.
pub open spec fn reached_from(mask: Seq<bool>, w: int, h: int, starts: Seq<usize>, p: int) -> bool {
    exists|i: int| 0 <= i < starts.len() && #[trigger] reach(mask, w, h, starts[i] as int, p)
}

// ---------------------------------------------------------------------------
// Flood fill
// ---------------------------------------------------------------------------

/// The 4-connected neighbours of pixel `idx`: left, right, up, down.
fn neighbors(idx: usize, width: usize, height: usize) -> (nbs: Vec<usize>)
    requires
        idx < width * height,
        width * height <= usize::MAX,
    ensures
        nbs@.len() <= 4,
        nbs@.len() == neighbor_seq(width as int, height as int, idx as int).len(),
        forall|i: int| 0 <= i < nbs@.len() ==> #[trigger] nbs@[i] as int == neighbor_seq(width as int, height as int, idx as int)[i],
        forall|i: int| 0 <= i < nbs@.len() ==> adjacent(width as int, height as int, idx as int, #[trigger] nbs@[i] as int)
            && nbs@[i] < width * height,
        forall|b: int| #[trigger] adjacent(width as int, height as int, idx as int, b) ==> exists|i: int|
            0 <= i < nbs@.len() && nbs@[i] as int == b,
{
    let ghost w = width as int;
    let ghost h = height as int;
    assert(width > 0) by {
        if width == 0 {
            assert(width * height == 0) by (nonlinear_arith)
                requires
                    width == 0,
            ;
        }
    }
    let x = idx % width;
    let y = idx / width;
    proof {
        lemma_fundamental_div_mod(idx as int, w);
        assert(idx as int == w * y + x);
        assert(y < h) by (nonlinear_arith)
            requires
                idx as int == w * y + x,
                idx < w * h,
                0 <= x,
                0 < w,
        ;
    }
    let mut nbs: Vec<usize> = Vec::new();
    let ghost i = idx as int;
    let ghost s1: Seq<int> = if x > 0 { seq![i - 1] } else { Seq::empty() };
    let ghost s2: Seq<int> = if x + 1 < width { seq![i + 1] } else { Seq::empty() };
    let ghost s3: Seq<int> = if y > 0 { seq![i - w] } else { Seq::empty() };
    let ghost s4: Seq<int> = if y + 1 < height { seq![i + w] } else { Seq::empty() };
    if x > 0 {
        nbs.push(idx - 1);
    }
    assert(nbs@.map_values(|v: usize| v as int) =~= s1);
    if x + 1 < width {
        assert(idx + 1 < w * h) by (nonlinear_arith)
            requires
                idx as int == w * y + x,
                x + 1 < w,
                y < h,
                0 <= y,
        ;
        nbs.push(idx + 1);
    }
    assert(nbs@.map_values(|v: usize| v as int) =~= s1 + s2);
    if y > 0 {
        assert(idx >= w) by (nonlinear_arith)
            requires
                idx as int == w * y + x,
                y >= 1,
                0 <= x,
                0 < w,
        ;
        nbs.push(idx - width);
    }
    assert(nbs@.map_values(|v: usize| v as int) =~= s1 + s2 + s3);
    if y + 1 < height {
        assert(idx + w < w * h) by (nonlinear_arith)
            requires
                idx as int == w * y + x,
                x < w,
                y + 1 < h,
                0 <= x,
        ;
        nbs.push(idx + width);
    }
    assert(nbs@.map_values(|v: usize| v as int) =~= s1 + s2 + s3 + s4);
    assert(s1 + s2 + s3 + s4 == neighbor_seq(w, h, i));
    assert forall|k: int| 0 <= k < nbs@.len() implies #[trigger] nbs@[k] as int == neighbor_seq(w, h, i)[k] by {
        assert(nbs@.map_values(|v: usize| v as int)[k] == nbs@[k] as int);
    }
    proof {
        assert forall|b: int| #[trigger] adjacent(w, h, idx as int, b) implies exists|i: int|
            0 <= i < nbs@.len() && nbs@[i] as int == b by {
            if b == idx - 1 && x > 0 {
                assert(nbs@[0] as int == b);
            } else if b == idx + 1 && x + 1 < width {
                if x > 0 {
                    assert(nbs@[1] as int == b);
                } else {
                    assert(nbs@[0] as int == b);
                }
            } else if b == idx - w && y > 0 {
                assert(nbs@[nbs@.len() - 1 - if y + 1 < height { 1int } else { 0int }] as int == b);
            } else {
                assert(nbs@[nbs@.len() - 1] as int == b);
            }
        }
    }
    nbs
}

/// The neighbours of pixel `p`, in the order left, right, above, below.
pub open spec fn neighbor_seq(w: int, h: int, p: int) -> Seq<int> {
    let x = p % w;
    let y = p / w;
    (if x > 0 {
        seq![p - 1]
    } else {
        Seq::empty()
    }) + (if x + 1 < w {
        seq![p + 1]
    } else {
        Seq::empty()
    }) + (if y > 0 {
        seq![p - w]
    } else {
        Seq::empty()
    }) + (if y + 1 < h {
        seq![p + w]
    } else {
        Seq::empty()
    })
}

/// Mark every set pixel reached from the queued pixels.
fn flood(binary: &[bool], width: usize, height: usize, visited: &mut Vec<bool>, queue: Vec<usize>)
    requires
        binary@.len() == width * height,
        old(visited)@.len() == binary@.len(),
        forall|p: int| 0 <= p < binary@.len() && old(visited)@[p] ==> binary@[p],
        forall|i: int| 0 <= i < queue@.len() ==> #[trigger] queue@[i] < binary@.len() && old(visited)@[queue@[i] as int],
        closed_except(binary@, width as int, height as int, old(visited)@, queue@),
    ensures
        final(visited)@.len() == binary@.len(),
        forall|p: int| 0 <= p < binary@.len() && old(visited)@[p] ==> final(visited)@[p],
        forall|p: int| 0 <= p < binary@.len() && final(visited)@[p] ==> binary@[p],
        closed(binary@, width as int, height as int, final(visited)@),
        forall|p: int|
            0 <= p < binary@.len() && final(visited)@[p] && !old(visited)@[p] ==> reached_from(
                binary@,
                width as int,
                height as int,
                queue@,
                p,
            ),
{
    let ghost mask = binary@;
    let ghost w = width as int;
    let ghost h = height as int;
    let ghost orig = queue@;
    let ghost v0 = visited@;
    let n = binary.len();
    let mut queue = queue;
    proof {
        assert forall|i: int| 0 <= i < queue@.len() implies reached_from(mask, w, h, orig, #[trigger] queue@[i] as int) by {
            lemma_reach_refl(mask, w, h, queue@[i] as int);
            assert(reach(mask, w, h, orig[i] as int, queue@[i] as int));
        }
    }
    while queue.len() > 0
        invariant
            mask == binary@,
            n == mask.len(),
            n == width * height,
            w == width,
            h == height,
            visited@.len() == n,
            forall|p: int| 0 <= p < n && v0[p] ==> visited@[p],
            forall|p: int| 0 <= p < n && visited@[p] ==> mask[p],
            forall|i: int| 0 <= i < queue@.len() ==> #[trigger] queue@[i] < n && visited@[queue@[i] as int],
            forall|i: int| 0 <= i < queue@.len() ==> reached_from(mask, w, h, orig, #[trigger] queue@[i] as int),
            closed_except(mask, w, h, visited@, queue@),
            forall|p: int| 0 <= p < n && visited@[p] && !v0[p] ==> reached_from(mask, w, h, orig, p),
        decreases 5 * count_unmarked(visited@) + queue@.len(),
    {
        let ghost m0 = 5 * count_unmarked(visited@) + queue@.len();
        let ghost q0 = queue@;
        let idx = queue.pop().unwrap();
        proof {
            assert(q0.last() == idx);
            assert(q0[q0.len() - 1] == idx);
            assert(queue@ == q0.drop_last());
            assert forall|p: int, b: int|
                0 <= p < visited@.len() && visited@[p] && !queue@.contains(p as usize) && p != idx
                    && #[trigger] adjacent(w, h, p, b) && in_mask(mask, b) implies 0 <= b < visited@.len()
                    && visited@[b] by {
                if q0.contains(p as usize) {
                    let t = choose|t: int| 0 <= t < q0.len() && q0[t] == p as usize;
                    if t < q0.len() - 1 {
                        assert(queue@[t] == p as usize);
                    }
                }
            }
        }
        let nbs = neighbors(idx, width, height);
        let k_n = nbs.len();
        for k in 0..k_n
            invariant
                mask == binary@,
                n == mask.len(),
                n == width * height,
                w == width,
                h == height,
                idx < n,
                visited@[idx as int],
                reached_from(mask, w, h, orig, idx as int),
                k_n == nbs@.len(),
                k_n <= 4,
                forall|i: int| 0 <= i < nbs@.len() ==> adjacent(w, h, idx as int, #[trigger] nbs@[i] as int)
                    && nbs@[i] < n,
                visited@.len() == n,
                forall|p: int| 0 <= p < n && v0[p] ==> visited@[p],
                forall|p: int| 0 <= p < n && visited@[p] ==> mask[p],
                forall|i: int| 0 <= i < queue@.len() ==> #[trigger] queue@[i] < n && visited@[queue@[i] as int],
                forall|i: int| 0 <= i < queue@.len() ==> reached_from(mask, w, h, orig, #[trigger] queue@[i] as int),
                forall|p: int, b: int|
                    0 <= p < visited@.len() && visited@[p] && !queue@.contains(p as usize) && p != idx
                        && #[trigger] adjacent(w, h, p, b) && in_mask(mask, b) ==> 0 <= b < visited@.len()
                        && visited@[b],
                forall|i: int| 0 <= i < k ==> visited@[#[trigger] nbs@[i] as int] || !mask[nbs@[i] as int],
                forall|p: int| 0 <= p < n && visited@[p] && !v0[p] ==> reached_from(mask, w, h, orig, p),
                5 * count_unmarked(visited@) + queue@.len() <= m0 - 1,
        {
            let nb = nbs[k];
            if binary[nb] && !visited[nb] {
                let ghost before = visited@;
                let ghost qb = queue@;
                proof {
                    lemma_count_unmarked_mark(visited@, nb as int);
                    let i0 = choose|i: int| 0 <= i < orig.len() && reach(mask, w, h, orig[i] as int, idx as int);
                    lemma_reach_step(mask, w, h, orig[i0] as int, idx as int, nb as int);
                    assert(reach(mask, w, h, orig[i0] as int, nb as int));
                }
                visited.set(nb, true);
                queue.push(nb);
                proof {
                    assert(visited@ == before.update(nb as int, true));
                    assert forall|i: int| 0 <= i < queue@.len() implies #[trigger] queue@[i] < n && visited@[queue@[i] as int] by {
                        if i < qb.len() {
                            assert(queue@[i] == qb[i]);
                        }
                    }
                    assert forall|i: int| 0 <= i < queue@.len() implies reached_from(mask, w, h, orig, #[trigger] queue@[i] as int) by {
                        if i < qb.len() {
                            assert(queue@[i] == qb[i]);
                        } else {
                            assert(queue@[i] == nb);
                        }
                    }
                    assert forall|p: int, b: int|
                        0 <= p < visited@.len() && visited@[p] && !queue@.contains(p as usize) && p != idx
                            && #[trigger] adjacent(w, h, p, b) && in_mask(mask, b) implies 0 <= b < visited@.len()
                            && visited@[b] by {
                        if p != nb {
                            assert(before[p]);
                            if qb.contains(p as usize) {
                                let t = choose|t: int| 0 <= t < qb.len() && qb[t] == p as usize;
                                assert(queue@[t] == p as usize);
                            }
                        } else {
                            assert(queue@[queue@.len() - 1] == nb);
                        }
                    }
                }
            }
        }
        proof {
            assert forall|p: int, b: int|
                0 <= p < visited@.len() && visited@[p] && !queue@.contains(p as usize) && #[trigger] adjacent(w, h, p, b)
                    && in_mask(mask, b) implies 0 <= b < visited@.len() && visited@[b] by {
                if p == idx {
                    let i = choose|i: int| 0 <= i < nbs@.len() && nbs@[i] as int == b;
                    assert(visited@[nbs@[i] as int] || !mask[nbs@[i] as int]);
                }
            }
        }
    }
    proof {
        assert forall|p: int, b: int|
            0 <= p < visited@.len() && visited@[p] && #[trigger] adjacent(w, h, p, b) && in_mask(mask, b)
                implies 0 <= b < visited@.len() && visited@[b] by {
            assert(!queue@.contains(p as usize));
        }
    }
}


/// A vector of `n` unmarked pixels.
fn unmarked(n: usize) -> (v: Vec<bool>)
    ensures
        v@.len() == n,
        forall|p: int| 0 <= p < n ==> !v@[p],
{
    let mut v: Vec<bool> = Vec::new();
    for i in 0..n
        invariant
            v@.len() == i,
            forall|p: int| 0 <= p < i ==> !v@[p],
    {
        v.push(false);
    }
    v
}

/// Every marked pixel is reached from the first pixel of a component lying below `k`.
pub open spec fn covered_by_firsts(mask: Seq<bool>, w: int, h: int, marked: Seq<bool>, k: int) -> bool {
    forall|p: int|
        0 <= p < marked.len() && marked[p] ==> exists|r: int|
            0 <= r < k && is_first_of_component(mask, w, h, r) && #[trigger] reach(mask, w, h, r, p)
}

/// Mark the component of the unmarked set pixel `start`, when every marked
/// pixel lies in a closed region.
fn mark_component(binary: &[bool], width: usize, height: usize, visited: &mut Vec<bool>, start: usize)
    requires
        binary@.len() == width * height,
        old(visited)@.len() == binary@.len(),
        start < binary@.len(),
        binary@[start as int],
        !old(visited)@[start as int],
        forall|p: int| 0 <= p < binary@.len() && old(visited)@[p] ==> binary@[p],
        closed(binary@, width as int, height as int, old(visited)@),
    ensures
        final(visited)@.len() == binary@.len(),
        final(visited)@[start as int],
        forall|p: int| 0 <= p < binary@.len() && old(visited)@[p] ==> final(visited)@[p],
        forall|p: int| 0 <= p < binary@.len() && final(visited)@[p] ==> binary@[p],
        closed(binary@, width as int, height as int, final(visited)@),
        forall|p: int|
            0 <= p < binary@.len() && final(visited)@[p] && !old(visited)@[p] ==> reach(
                binary@,
                width as int,
                height as int,
                start as int,
                p,
            ),
{
    let ghost w = width as int;
    let ghost h = height as int;
    let ghost v0 = visited@;
    let queue = vec![start];
    visited.set(start, true);
    proof {
        assert(queue@ =~= seq![start]);
        assert forall|p: int, b: int|
            0 <= p < visited@.len() && visited@[p] && !queue@.contains(p as usize) && #[trigger] adjacent(w, h, p, b)
                && in_mask(binary@, b) implies 0 <= b < visited@.len() && visited@[b] by {
            if p != start {
                assert(v0[p]);
            } else {
                assert(queue@[0] == start);
            }
        }
    }
    let ghost v1 = visited@;
    flood(binary, width, height, visited, queue);
    proof {
        assert forall|p: int|
            0 <= p < binary@.len() && visited@[p] && !v0[p] implies reach(binary@, w, h, start as int, p) by {
            if !v1[p] {
                let i = choose|i: int| 0 <= i < queue@.len() && #[trigger] reach(binary@, w, h, queue@[i] as int, p);
                assert(queue@[i] == start);
            } else {
                assert(p == start);
                lemma_reach_refl(binary@, w, h, p);
            }
        }
    }
}

/// Count connected components in a binary image (4-connected).
pub fn count_components(binary: &[bool], width: usize, height: usize) -> (count: usize)
    requires
        binary@.len() == width * height,
    ensures
        count == count_firsts(binary@, width as int, height as int, binary@.len() as nat),
{
    let ghost mask = binary@;
    let ghost w = width as int;
    let ghost h = height as int;
    let n = binary.len();
    let mut visited = unmarked(n);
    let mut count: usize = 0;
    for start in 0..n
        invariant
            mask == binary@,
            n == mask.len(),
            n == width * height,
            w == width,
            h == height,
            visited@.len() == n,
            forall|p: int| 0 <= p < n && visited@[p] ==> mask[p],
            closed(mask, w, h, visited@),
            forall|p: int| 0 <= p < start && in_mask(mask, p) ==> visited@[p],
            covered_by_firsts(mask, w, h, visited@, start as int),
            count == count_firsts(mask, w, h, start as nat),
            count <= start,
    {
        if binary[start] && !visited[start] {
            proof {
                assert forall|j: int| 0 <= j < start implies !#[trigger] reach(mask, w, h, j, start as int) by {
                    if reach(mask, w, h, j, start as int) {
                        let path = choose|path: Seq<int>| is_path(mask, w, h, path) && path[0] == j && path.last() == start as int;
                        assert(in_mask(mask, path[0]));
                        lemma_closed_reach(mask, w, h, visited@, j, start as int);
                    }
                }
                assert(is_first_of_component(mask, w, h, start as int));
            }
            let ghost before = visited@;
            mark_component(binary, width, height, &mut visited, start);
            count += 1;
            proof {
                assert forall|p: int| 0 <= p < visited@.len() && visited@[p] implies exists|r: int|
                    0 <= r < start + 1 && is_first_of_component(mask, w, h, r) && #[trigger] reach(mask, w, h, r, p) by {
                    if before[p] {
                        let r = choose|r: int| 0 <= r < start && is_first_of_component(mask, w, h, r) && #[trigger] reach(mask, w, h, r, p);
                    } else {
                        assert(reach(mask, w, h, start as int, p));
                    }
                }
            }
        } else {
            proof {
                if binary[start as int] {
                    let r = choose|r: int| 0 <= r < start && is_first_of_component(mask, w, h, r) && #[trigger] reach(mask, w, h, r, start as int);
                    assert(reach(mask, w, h, r, start as int));
                }
                assert(!is_first_of_component(mask, w, h, start as int));
            }
        }
    }
    count
}


/// Marked pixels: the exterior, and pixels reached from the first pixel of an
/// interior component lying below `k`.
pub open spec fn covered_by_interior_firsts(mask: Seq<bool>, w: int, h: int, marked: Seq<bool>, k: int) -> bool {
    forall|p: int|
        0 <= p < marked.len() && marked[p] ==> exterior(mask, w, h, p) || exists|r: int|
            0 <= r < k && is_first_of_component(mask, w, h, r) && !exterior(mask, w, h, r)
                && #[trigger] reach(mask, w, h, r, p)
}

pub open spec fn bottom_pixel(w: int, h: int, x: int) -> int {
    (h - 1) * w + x
}

pub open spec fn left_pixel(w: int, y: int) -> int {
    y * w
}

pub open spec fn right_pixel(w: int, y: int) -> int {
    y * w + w - 1
}

/// Where the pixel `y * w + x` with `x < w` sits.
proof fn lemma_pixel_at(w: int, h: int, x: int, y: int)
    requires
        0 <= x < w,
        0 <= y < h,
    ensures
        (y * w + x) % w == x,
        (y * w + x) / w == y,
        0 <= y * w + x < w * h,
{
    lemma_fundamental_div_mod_converse(y * w + x, w, y, x);
    assert(0 <= y * w + x < w * h) by (nonlinear_arith)
        requires
            0 <= x < w,
            0 <= y < h,
    ;
}

/// Queue pixel `p` and mark it.
fn push_marked(queue: &mut Vec<usize>, visited: &mut Vec<bool>, p: usize)
    requires
        p < old(visited)@.len(),
    ensures
        final(queue)@ == old(queue)@.push(p),
        final(visited)@ == old(visited)@.update(p as int, true),
        forall|q: int|
            0 <= q < old(visited)@.len() && old(visited)@[q] && old(queue)@.contains(q as usize)
                ==> final(queue)@.contains(q as usize),
        final(queue)@.contains(p),
{
    let ghost q0 = queue@;
    queue.push(p);
    visited.set(p, true);
    proof {
        assert(queue@[queue@.len() - 1] == p);
        assert forall|q: int|
            0 <= q < old(visited)@.len() && old(visited)@[q] && q0.contains(q as usize) implies queue@.contains(q as usize) by {
            let t = choose|t: int| 0 <= t < q0.len() && q0[t] == q as usize;
            assert(queue@[t] == q as usize);
        }
    }
}

/// Mark the set pixels reached from the border of the image.
fn mark_exterior(binary: &[bool], width: usize, height: usize) -> (visited: Vec<bool>)
    requires
        binary@.len() == width * height,
        height > 0,
        width > 0 || height <= 2,
    ensures
        visited@.len() == binary@.len(),
        forall|p: int| 0 <= p < binary@.len() && visited@[p] ==> binary@[p],
        closed(binary@, width as int, height as int, visited@),
        forall|p: int| 0 <= p < binary@.len() ==> (visited@[p] <==> exterior(binary@, width as int, height as int, p)),
{
    let ghost mask = binary@;
    let ghost w = width as int;
    let ghost h = height as int;
    let n = binary.len();
    let mut visited = unmarked(n);
    let mut border_queue: Vec<usize> = Vec::new();
    // First: the border pixels that are set.
    for x in 0..width
        invariant
            mask == binary@,
            n == mask.len(),
            n == width * height,
            w == width,
            h == height,
            height > 0,
            visited@.len() == n,
            forall|p: int| 0 <= p < n && visited@[p] ==> mask[p],
            forall|i: int| 0 <= i < border_queue@.len() ==> #[trigger] border_queue@[i] < n
                && visited@[border_queue@[i] as int] && on_border(w, h, border_queue@[i] as int),
            forall|p: int| 0 <= p < n && visited@[p] ==> border_queue@.contains(p as usize),
            forall|x2: int| 0 <= x2 < x && mask[x2] ==> visited@[x2],
            forall|x2: int| 0 <= x2 < x && mask[bottom_pixel(w, h, x2)] ==> 0 <= #[trigger] bottom_pixel(w, h, x2) < n && visited@[bottom_pixel(w, h, x2)],
    {
        proof {
            lemma_pixel_at(w, h, x as int, 0);
            lemma_pixel_at(w, h, x as int, h - 1);
        }
        if binary[x] {
            push_marked(&mut border_queue, &mut visited, x);
        }
        let bot = (height - 1) * width + x;
        if binary[bot] {
            push_marked(&mut border_queue, &mut visited, bot);
        }
    }
    if height >= 2 {
        for y in 1..height - 1
            invariant
                mask == binary@,
                n == mask.len(),
                n == width * height,
                w == width,
                h == height,
                height >= 2,
                width > 0 || height <= 2,
                visited@.len() == n,
                forall|p: int| 0 <= p < n && visited@[p] ==> mask[p],
                forall|i: int| 0 <= i < border_queue@.len() ==> #[trigger] border_queue@[i] < n
                    && visited@[border_queue@[i] as int] && on_border(w, h, border_queue@[i] as int),
                forall|p: int| 0 <= p < n && visited@[p] ==> border_queue@.contains(p as usize),
                forall|x2: int| 0 <= x2 < w && mask[x2] ==> visited@[x2],
                forall|x2: int| 0 <= x2 < w && mask[bottom_pixel(w, h, x2)] ==> 0 <= #[trigger] bottom_pixel(w, h, x2) < n && visited@[bottom_pixel(w, h, x2)],
                forall|y2: int| 1 <= y2 < y && mask[left_pixel(w, y2)] ==> 0 <= #[trigger] left_pixel(w, y2) < n && visited@[left_pixel(w, y2)],
                forall|y2: int| 1 <= y2 < y && mask[right_pixel(w, y2)] ==> 0 <= #[trigger] right_pixel(w, y2) < n && visited@[right_pixel(w, y2)],
        {
            proof {
                lemma_pixel_at(w, h, 0, y as int);
                lemma_pixel_at(w, h, w - 1, y as int);
            }
            let left = y * width;
            let right = y * width + width - 1;
            if binary[left] {
                push_marked(&mut border_queue, &mut visited, left);
            }
            if binary[right] {
                push_marked(&mut border_queue, &mut visited, right);
            }
        }
    }
    proof {
        // every set border pixel is marked
        assert forall|b: int| on_border(w, h, b) && in_mask(mask, b) implies visited@[b] by {
            lemma_fundamental_div_mod(b, w);
            let x = b % w;
            let y = b / w;
            assert(b == w * y + x);
            assert(0 <= y < h) by (nonlinear_arith)
                requires
                    b == w * y + x,
                    0 <= b < w * h,
                    0 <= x < w,
            ;
            if y == 0 {
                assert(b == x) by (nonlinear_arith)
                    requires
                        b == w * y + x,
                        y == 0,
                ;
            } else if y == h - 1 {
                assert(b == bottom_pixel(w, h, x)) by (nonlinear_arith)
                    requires
                        b == w * y + x,
                        y == h - 1,
                ;
            } else if x == 0 {
                assert(b == left_pixel(w, y)) by (nonlinear_arith)
                    requires
                        b == w * y + x,
                        x == 0,
                ;
            } else {
                assert(x == w - 1);
                assert(b == right_pixel(w, y)) by (nonlinear_arith)
                    requires
                        b == w * y + x,
                        x == w - 1,
                ;
            }
        }
        assert forall|p: int, b: int|
            0 <= p < visited@.len() && visited@[p] && !border_queue@.contains(p as usize) && #[trigger] adjacent(w, h, p, b)
                && in_mask(mask, b) implies 0 <= b < visited@.len() && visited@[b] by {}
    }
    let ghost v0 = visited@;
    let ghost q0 = border_queue@;
    flood(binary, width, height, &mut visited, border_queue);
    proof {
        assert forall|p: int| 0 <= p < n implies (visited@[p] <==> exterior(mask, w, h, p)) by {
            if visited@[p] {
                if v0[p] {
                    let i = choose|i: int| 0 <= i < q0.len() && q0[i] as int == p;
                    assert(q0.contains(p as usize));
                    let t = choose|t: int| 0 <= t < q0.len() && q0[t] == p as usize;
                    assert(on_border(w, h, q0[t] as int));
                    lemma_reach_refl(mask, w, h, p);
                } else {
                    let i = choose|i: int| 0 <= i < q0.len() && #[trigger] reach(mask, w, h, q0[i] as int, p);
                    assert(on_border(w, h, q0[i] as int));
                }
            }
            if exterior(mask, w, h, p) {
                let b = choose|b: int| on_border(w, h, b) && #[trigger] reach(mask, w, h, b, p);
                let path = choose|path: Seq<int>| is_path(mask, w, h, path) && path[0] == b && path.last() == p;
                assert(in_mask(mask, path[0]));
                assert(v0[b]);
                lemma_closed_reach(mask, w, h, visited@, b, p);
            }
        }
    }
    visited
}

/// Count INTERIOR connected components: components in the binary image that
/// do NOT touch the image border. These are holes surrounded by the complement.
pub fn count_interior_components(binary: &[bool], width: usize, height: usize) -> (count: usize)
    requires
        binary@.len() == width * height,
        height > 0,
        width > 0 || height <= 2,
    ensures
        count == count_interior_firsts(binary@, width as int, height as int, binary@.len() as nat),
{
    let ghost mask = binary@;
    let ghost w = width as int;
    let ghost h = height as int;
    let n = binary.len();
    // First: flood-fill from all border pixels that are set. These are exterior components.
    let mut visited = mark_exterior(binary, width, height);
    // Now count remaining unvisited set components: these are interior.
    let mut count: usize = 0;
    for start in 0..n
        invariant
            mask == binary@,
            n == mask.len(),
            n == width * height,
            w == width,
            h == height,
            visited@.len() == n,
            forall|p: int| 0 <= p < n && visited@[p] ==> mask[p],
            forall|p: int| 0 <= p < n && exterior(mask, w, h, p) ==> visited@[p],
            closed(mask, w, h, visited@),
            forall|p: int| 0 <= p < start && in_mask(mask, p) ==> visited@[p],
            covered_by_interior_firsts(mask, w, h, visited@, start as int),
            count == count_interior_firsts(mask, w, h, start as nat),
            count <= start,
    {
        if binary[start] && !visited[start] {
            proof {
                assert forall|j: int| 0 <= j < start implies !#[trigger] reach(mask, w, h, j, start as int) by {
                    if reach(mask, w, h, j, start as int) {
                        let path = choose|path: Seq<int>| is_path(mask, w, h, path) && path[0] == j && path.last() == start as int;
                        assert(in_mask(mask, path[0]));
                        lemma_closed_reach(mask, w, h, visited@, j, start as int);
                    }
                }
                assert(is_first_of_component(mask, w, h, start as int));
                assert(!exterior(mask, w, h, start as int));
            }
            let ghost before = visited@;
            mark_component(binary, width, height, &mut visited, start);
            count += 1;
            proof {
                assert forall|p: int| 0 <= p < visited@.len() && visited@[p] implies exterior(mask, w, h, p) || exists|r: int|
                    0 <= r < start + 1 && is_first_of_component(mask, w, h, r) && !exterior(mask, w, h, r)
                        && #[trigger] reach(mask, w, h, r, p) by {
                    if before[p] {
                        if !exterior(mask, w, h, p) {
                            let r = choose|r: int| 0 <= r < start && is_first_of_component(mask, w, h, r)
                                && !exterior(mask, w, h, r) && #[trigger] reach(mask, w, h, r, p);
                        }
                    } else {
                        assert(reach(mask, w, h, start as int, p));
                    }
                }
            }
        } else {
            proof {
                if binary[start as int] && !exterior(mask, w, h, start as int) {
                    let r = choose|r: int| 0 <= r < start && is_first_of_component(mask, w, h, r)
                        && !exterior(mask, w, h, r) && #[trigger] reach(mask, w, h, r, start as int);
                    assert(reach(mask, w, h, r, start as int));
                }
            }
        }
    }
    count
}


/// Every interior component is a component.
pub proof fn lemma_interior_at_most_all(mask: Seq<bool>, w: int, h: int, k: nat)
    ensures
        count_interior_firsts(mask, w, h, k) <= count_firsts(mask, w, h, k),
    decreases k,
{
    if k > 0 {
        lemma_interior_at_most_all(mask, w, h, (k - 1) as nat);
    }
}

/// The image with every pixel flipped.
pub open spec fn complement(mask: Seq<bool>) -> Seq<bool> {
    Seq::new(mask.len(), |i: int| !mask[i])
}

/// Topology of one thresholded depth map.
pub struct MaskTopology {
    /// Connected components of the foreground.
    pub fg_components: usize,
    /// Connected components of the background.
    pub bg_components: usize,
    /// Holes: background components that do not reach the border.
    pub b1_estimate: usize,
}

/// The image with every pixel flipped.
pub fn flip(binary: &[bool]) -> (bg: Vec<bool>)
    ensures
        bg@ == complement(binary@),
        bg@.len() == binary@.len(),
        forall|i: int| 0 <= i < binary@.len() ==> bg@[i] == !binary@[i],
{
    let mut bg: Vec<bool> = Vec::new();
    for i in 0..binary.len()
        invariant
            bg@.len() == i,
            forall|j: int| 0 <= j < i ==> bg@[j] == !binary@[j],
    {
        bg.push(!binary[i]);
    }
    assert(bg@ =~= complement(binary@));
    bg
}

/// Count the components of the foreground (`true` pixels: depth below the
/// threshold) and of the background, and the holes: background components
/// completely surrounded by foreground. β₁ of the foreground is the number of holes.
pub fn mask_topology(binary: &[bool], width: usize, height: usize) -> (t: MaskTopology)
    requires
        binary@.len() == width * height,
        height > 0,
        width > 0 || height <= 2,
    ensures
        t.fg_components == count_firsts(binary@, width as int, height as int, binary@.len() as nat),
        t.bg_components == count_firsts(complement(binary@), width as int, height as int, binary@.len() as nat),
        t.b1_estimate == count_interior_firsts(complement(binary@), width as int, height as int, binary@.len() as nat),
        t.b1_estimate <= t.bg_components,
        forall|bg: Seq<bool>|
            bg.len() == binary@.len() && (forall|i: int| 0 <= i < bg.len() ==> bg[i] == !binary@[i]) ==> {
                &&& t.bg_components == #[trigger] count_firsts(bg, width as int, height as int, bg.len() as nat)
                &&& t.b1_estimate == count_interior_firsts(bg, width as int, height as int, bg.len() as nat)
            },
{
    let fg_components = count_components(binary, width, height);
    let bg = flip(binary);
    let interior_holes = count_interior_components(&bg, width, height);
    let bg_components = count_components(&bg, width, height);
    proof {
        lemma_interior_at_most_all(bg@, width as int, height as int, binary@.len() as nat);
    }
    proof {
        assert forall|m: Seq<bool>|
            m.len() == binary@.len() && (forall|i: int| 0 <= i < m.len() ==> m[i] == !binary@[i]) implies {
                &&& bg_components == #[trigger] count_firsts(m, width as int, height as int, m.len() as nat)
                &&& interior_holes == count_interior_firsts(m, width as int, height as int, m.len() as nat)
            } by {
            assert(m =~= bg@);
        }
    }
    MaskTopology { fg_components, bg_components, b1_estimate: interior_holes }
}


// ---------------------------------------------------------------------------
// Adjacency is symmetric
// ---------------------------------------------------------------------------

/// If `b` is a neighbour of `a`, then `a` is a neighbour of `b`.
pub proof fn lemma_adjacent_symmetric(w: int, h: int, a: int, b: int)
    requires
        0 <= w,
        0 <= h,
        adjacent(w, h, a, b),
    ensures
        adjacent(w, h, b, a),
{
    assert(w > 0) by (nonlinear_arith)
        requires
            0 <= a < w * h,
            0 <= h,
            0 <= w,
    ;
    lemma_fundamental_div_mod(a, w);
    let x = a % w;
    let y = a / w;
    assert(0 <= x < w);
    assert(a == w * y + x);
    assert(0 <= y < h) by (nonlinear_arith)
        requires
            a == w * y + x,
            0 <= a < w * h,
            0 <= x < w,
    ;
    if b == a - 1 && x > 0 {
        assert(b == y * w + (x - 1)) by (nonlinear_arith)
            requires
                b == a - 1,
                a == w * y + x,
        ;
        lemma_fundamental_div_mod_converse(b, w, y, x - 1);
    } else if b == a + 1 && x + 1 < w {
        assert(b == y * w + (x + 1)) by (nonlinear_arith)
            requires
                b == a + 1,
                a == w * y + x,
        ;
        lemma_fundamental_div_mod_converse(b, w, y, x + 1);
        assert(b < w * h) by (nonlinear_arith)
            requires
                b == y * w + (x + 1),
                x + 1 < w,
                y + 1 <= h,
                0 <= y,
                0 < w,
        ;
    } else if b == a - w && y > 0 {
        assert(b == (y - 1) * w + x) by (nonlinear_arith)
            requires
                b == a - w,
                a == w * y + x,
        ;
        lemma_fundamental_div_mod_converse(b, w, y - 1, x);
    } else {
        assert(b == a + w && y + 1 < h);
        assert(b == (y + 1) * w + x) by (nonlinear_arith)
            requires
                b == a + w,
                a == w * y + x,
        ;
        lemma_fundamental_div_mod_converse(b, w, y + 1, x);
        assert(b < w * h) by (nonlinear_arith)
            requires
                b == (y + 1) * w + x,
                x < w,
                y + 2 <= h,
                0 <= y,
                0 < w,
        ;
    }
}

/// Walks can be reversed.
pub proof fn lemma_reach_symmetric(mask: Seq<bool>, w: int, h: int, a: int, b: int)
    requires
        0 <= w,
        0 <= h,
        reach(mask, w, h, a, b),
    ensures
        reach(mask, w, h, b, a),
{
    let path = choose|path: Seq<int>| is_path(mask, w, h, path) && path[0] == a && path.last() == b;
    let rev = path.reverse();
    assert forall|i: int| 0 <= i < rev.len() implies in_mask(mask, #[trigger] rev[i]) by {
        assert(rev[i] == path[path.len() - 1 - i]);
    }
    assert forall|i: int| 0 <= i < rev.len() - 1 implies adjacent(w, h, #[trigger] rev[i], rev[i + 1]) by {
        assert(rev[i] == path[path.len() - 1 - i]);
        assert(rev[i + 1] == path[path.len() - 2 - i]);
        assert(adjacent(w, h, path[path.len() - 2 - i], path[path.len() - 1 - i]));
        lemma_adjacent_symmetric(w, h, path[path.len() - 2 - i], path[path.len() - 1 - i]);
    }
    assert(is_path(mask, w, h, rev));
    assert(rev[0] == b);
    assert(rev.last() == path[0]);
}

/// Walks through a mask are walks through any larger mask.
pub proof fn lemma_reach_mono(m1: Seq<bool>, m2: Seq<bool>, w: int, h: int, a: int, b: int)
    requires
        reach(m1, w, h, a, b),
        m1.len() == m2.len(),
        forall|p: int| 0 <= p < m1.len() && m1[p] ==> m2[p],
    ensures
        reach(m2, w, h, a, b),
{
    let path = choose|path: Seq<int>| is_path(m1, w, h, path) && path[0] == a && path.last() == b;
    assert forall|i: int| 0 <= i < path.len() implies in_mask(m2, #[trigger] path[i]) by {
        assert(in_mask(m1, path[i]));
    }
    assert(is_path(m2, w, h, path));
}


// ---------------------------------------------------------------------------
// 0-dimensional persistent homology
// ---------------------------------------------------------------------------

/// Persistence pair of a connected component: it is born at the value of
/// pixel `birth` and dies, merging into an older component, at the value of
/// pixel `death`.
pub struct PersistencePair {
    pub birth: usize,
    pub death: usize,
    pub dimension: usize,
}

/// Every element is at most the next ones: by level, then by pixel.
pub open spec fn lex_sorted(s: Seq<(u32, usize)>) -> bool {
    forall|i: int, j: int|
        0 <= i < j < s.len() ==> s[i].0 < s[j].0 || (s[i].0 == s[j].0 && s[i].1 <= s[j].1)
}

/// Sorts with `slice::sort_unstable` from std. Its documentation promises a
/// rearrangement of the elements in increasing order, and the order of pairs
/// is lexicographic; this contract claims no more than that.
#[verifier::external_body]
fn sort_levels(v: Vec<(u32, usize)>) -> (s: Vec<(u32, usize)>)
    ensures
        s@.len() == v@.len(),
        lex_sorted(s@),
        forall|i: int| 0 <= i < v@.len() ==> s@.contains(#[trigger] v@[i]),
        forall|i: int| 0 <= i < s@.len() ==> v@.contains(#[trigger] s@[i]),
        v@.no_duplicates() ==> s@.no_duplicates(),
{
    let mut s = v;
    s.sort_unstable();
    s
}

/// Number of set entries among the first `k`.
pub open spec fn count_set(s: Seq<bool>, k: nat) -> nat
    decreases k,
{
    if k == 0 {
        0
    } else {
        count_set(s, (k - 1) as nat) + if s[k - 1] {
            1nat
        } else {
            0nat
        }
    }
}

proof fn lemma_count_set(s: Seq<bool>, k: nat)
    requires
        k <= s.len(),
    ensures
        Set::new(|x: int| 0 <= x < k && s[x]).finite(),
        Set::new(|x: int| 0 <= x < k && s[x]).len() == count_set(s, k),
    decreases k,
{
    if k == 0 {
        assert(Set::new(|x: int| 0 <= x < k && s[x]) =~= Set::<int>::empty());
    } else {
        lemma_count_set(s, (k - 1) as nat);
        if s[k - 1] {
            assert(Set::new(|x: int| 0 <= x < k && s[x]) =~= Set::new(|x: int| 0 <= x < k - 1 && s[x]).insert(
                k - 1,
            ));
        } else {
            assert(Set::new(|x: int| 0 <= x < k && s[x]) =~= Set::new(|x: int| 0 <= x < k - 1 && s[x]));
        }
    }
}

/// Pixel `x` comes before position `t` of the processing order.
pub open spec fn processed(order: Seq<(u32, usize)>, t: int, x: int) -> bool {
    exists|i: int| 0 <= i < t && #[trigger] order[i].1 as int == x
}

/// The pairs found so far are sound.
pub open spec fn pairs_ok(pairs: Seq<PersistencePair>, levels: Seq<u32>, finite: Seq<bool>) -> bool {
    forall|i: int|
        0 <= i < pairs.len() ==> {
            let pr = #[trigger] pairs[i];
            &&& pr.dimension == 0
            &&& pr.birth < levels.len()
            &&& pr.death < levels.len()
            &&& finite[pr.birth as int]
            &&& finite[pr.death as int]
            &&& levels[pr.birth as int] <= levels[pr.death as int]
        }
}

/// What a sweep has found so far: for each pixel, the birth pixel of its
/// component (-1 before it enters), and the pairs `(birth, death)` recorded.
pub type Sweep = (Seq<int>, Seq<(int, int)>);

/// Pixel `p` meets its neighbour `q`: if `q` has entered and belongs to
/// another component, the younger of the two (born at the higher level; on a
/// tie, that of `q`) dies at `p` and joins the older one.
pub open spec fn meet(levels: Seq<u32>, st: Sweep, p: int, q: int) -> Sweep {
    let label = st.0;
    if label[q] < 0 || label[q] == label[p] {
        st
    } else {
        let a = label[p];
        let b = label[q];
        let older = if levels[a] <= levels[b] {
            a
        } else {
            b
        };
        let younger = if levels[a] <= levels[b] {
            b
        } else {
            a
        };
        (
            Seq::new(label.len(), |x: int| if label[x] == younger { older } else { label[x] }),
            st.1.push((younger, p)),
        )
    }
}

/// Pixel `p` meets the first `k` of the neighbours `nbs`, in turn.
pub open spec fn meet_all(levels: Seq<u32>, st: Sweep, p: int, nbs: Seq<int>, k: nat) -> Sweep
    decreases k,
{
    if k == 0 {
        st
    } else {
        meet(levels, meet_all(levels, st, p, nbs, (k - 1) as nat), p, nbs[k - 1])
    }
}

/// Pixel `p` enters, if its value is finite, as a component of its own, and
/// meets its neighbours.
pub open spec fn sweep_step(levels: Seq<u32>, finite: Seq<bool>, w: int, h: int, st: Sweep, p: int) -> Sweep {
    if finite[p] {
        let nbs = neighbor_seq(w, h, p);
        meet_all(levels, (st.0.update(p, p), st.1), p, nbs, nbs.len())
    } else {
        st
    }
}

/// The sweep after the first `t` pixels of `order`.
pub open spec fn sweep(levels: Seq<u32>, finite: Seq<bool>, w: int, h: int, order: Seq<(u32, usize)>, t: nat) -> Sweep
    decreases t,
{
    if t == 0 {
        (Seq::new(levels.len(), |x: int| -1int), Seq::empty())
    } else {
        sweep_step(
            levels,
            finite,
            w,
            h,
            sweep(levels, finite, w, h, order, (t - 1) as nat),
            order[t - 1].1 as int,
        )
    }
}

/// `order` lists every pixel once with its level, by increasing level, then index.
pub open spec fn level_order(levels: Seq<u32>, order: Seq<(u32, usize)>) -> bool {
    &&& order.len() == levels.len()
    &&& lex_sorted(order)
    &&& order.no_duplicates()
    &&& forall|i: int| 0 <= i < order.len() ==> #[trigger] order[i].1 < levels.len() && order[i].0 == levels[order[i].1 as int]
    &&& forall|j: int| 0 <= j < levels.len() ==> order.contains((#[trigger] levels[j], j as usize))
}

/// The persistence pairs `(birth pixel, death pixel)` of the components of the
/// sublevel sets, by the elder rule: sweep the pixels by increasing level.
pub open spec fn elder_pairs(levels: Seq<u32>, finite: Seq<bool>, w: int, h: int) -> Seq<(int, int)> {
    let order = choose|order: Seq<(u32, usize)>| level_order(levels, order);
    sweep(levels, finite, w, h, order, levels.len()).1
}

/// The pairs as `(birth, death)`.
pub open spec fn pair_view(pairs: Seq<PersistencePair>) -> Seq<(int, int)> {
    pairs.map_values(|pr: PersistencePair| (pr.birth as int, pr.death as int))
}

/// Two sequences sorted without repetition, with the same elements, are equal.
proof fn lemma_sorted_unique(a: Seq<(u32, usize)>, b: Seq<(u32, usize)>)
    requires
        lex_sorted(a),
        lex_sorted(b),
        a.no_duplicates(),
        b.no_duplicates(),
        forall|x: (u32, usize)| a.contains(x) <==> b.contains(x),
    ensures
        a == b,
    decreases a.len(),
{
    if a.len() == 0 {
        if b.len() > 0 {
            assert(b.contains(b[0]));
        }
        assert(a =~= b);
    } else {
        assert(a.contains(a[0]));
        assert(b.contains(a[0]));
        let j = choose|j: int| 0 <= j < b.len() && b[j] == a[0];
        assert(b.contains(b[0]));
        assert(a.contains(b[0]));
        let i = choose|i: int| 0 <= i < a.len() && a[i] == b[0];
        if j > 0 {
            assert(b[0].0 < b[j].0 || (b[0].0 == b[j].0 && b[0].1 <= b[j].1));
        }
        if i > 0 {
            assert(a[0].0 < a[i].0 || (a[0].0 == a[i].0 && a[0].1 <= a[i].1));
        }
        assert(a[0] == b[0]);
        let a1 = a.drop_first();
        let b1 = b.drop_first();
        assert forall|x: (u32, usize)| a1.contains(x) <==> b1.contains(x) by {
            if a1.contains(x) {
                let k = choose|k: int| 0 <= k < a1.len() && a1[k] == x;
                assert(a[k + 1] == x);
                assert(x != a[0]);
                assert(b.contains(x));
                let m = choose|m: int| 0 <= m < b.len() && b[m] == x;
                assert(m != 0);
                assert(b1[m - 1] == x);
            }
            if b1.contains(x) {
                let k = choose|k: int| 0 <= k < b1.len() && b1[k] == x;
                assert(b[k + 1] == x);
                assert(x != b[0]);
                assert(a.contains(x));
                let m = choose|m: int| 0 <= m < a.len() && a[m] == x;
                assert(m != 0);
                assert(a1[m - 1] == x);
            }
        }
        lemma_sorted_unique(a1, b1);
        assert(a =~= seq![a[0]] + a1);
        assert(b =~= seq![b[0]] + b1);
    }
}

/// The forest and the recorded pairs are those of the sweep `st`: an entered
/// pixel is labelled with the birth pixel of its tree, the others with -1.
pub open spec fn matches_sweep(
    parent: Seq<usize>,
    comp: Seq<int>,
    birth: Seq<usize>,
    pairs: Seq<PersistencePair>,
    st: Sweep,
) -> bool {
    &&& st.0.len() == parent.len()
    &&& forall|x: int|
        0 <= x < parent.len() ==> #[trigger] st.0[x] == if born(parent, x) {
            birth[comp[x]] as int
        } else {
            -1
        }
    &&& pair_view(pairs) == st.1
}

/// Compressing paths keeps the forest in step with the sweep.
proof fn lemma_matches_same_born(
    p1: Seq<usize>,
    p2: Seq<usize>,
    comp: Seq<int>,
    birth: Seq<usize>,
    pairs: Seq<PersistencePair>,
    st: Sweep,
)
    requires
        p1.len() == p2.len(),
        forall|y: int| 0 <= y < p1.len() ==> born(p2, y) == born(p1, y),
        matches_sweep(p1, comp, birth, pairs, st),
    ensures
        matches_sweep(p2, comp, birth, pairs, st),
{
    assert forall|x: int| 0 <= x < p2.len() implies #[trigger] st.0[x] == if born(p2, x) {
        birth[comp[x]] as int
    } else {
        -1
    } by {
        assert(st.0[x] == if born(p1, x) {
            birth[comp[x]] as int
        } else {
            -1
        });
    }
}

/// A pixel entering as a tree of its own enters the sweep as a component of its own.
proof fn lemma_matches_enter(
    p0: Seq<usize>,
    c0: Seq<int>,
    b0: Seq<usize>,
    pairs: Seq<PersistencePair>,
    st: Sweep,
    p1: Seq<usize>,
    c1: Seq<int>,
    b1: Seq<usize>,
    idx: int,
)
    requires
        matches_sweep(p0, c0, b0, pairs, st),
        0 <= idx < p0.len(),
        p1.len() == p0.len(),
        c0.len() == p0.len(),
        b0.len() == p0.len(),
        !born(p0, idx),
        born(p1, idx),
        forall|x: int| 0 <= x < p0.len() && x != idx ==> born(p1, x) == born(p0, x),
        p0.len() <= usize::MAX,
        forall|x: int| 0 <= x < p0.len() && born(p0, x) ==> 0 <= #[trigger] c0[x] < p0.len() && born(p0, c0[x]),
        c1 == c0.update(idx, idx),
        b1 == b0.update(idx, idx as usize),
    ensures
        matches_sweep(p1, c1, b1, pairs, (st.0.update(idx, idx), st.1)),
{
    let st1 = (st.0.update(idx, idx), st.1);
    assert forall|x: int| 0 <= x < p1.len() implies #[trigger] st1.0[x] == if born(p1, x) {
        b1[c1[x]] as int
    } else {
        -1
    } by {
        if x != idx {
            assert(st.0[x] == if born(p0, x) {
                b0[c0[x]] as int
            } else {
                -1
            });
            if born(p0, x) {
                assert(born(p0, c0[x]));
                assert(c0[x] != idx);
            }
        }
    }
}

/// Merging two trees, the younger tree's birth dying, is the merge of the sweep.
proof fn lemma_matches_merge(
    levels: Seq<u32>,
    pc: Seq<usize>,
    c_prev: Seq<int>,
    bc: Seq<usize>,
    pairs_before: Seq<PersistencePair>,
    st: Sweep,
    p2: Seq<usize>,
    c2: Seq<int>,
    b2: Seq<usize>,
    pairs2: Seq<PersistencePair>,
    idx: int,
    nb: int,
    older: int,
    younger: int,
    s: int,
    tt: int,
)
    requires
        matches_sweep(pc, c_prev, bc, pairs_before, st),
        ledger_ok(pc, c_prev, bc, pairs_before),
        pc.len() <= usize::MAX,
        c_prev.len() == pc.len(),
        bc.len() == pc.len(),
        levels.len() == pc.len(),
        forall|x: int| 0 <= x < pc.len() && born(pc, x) ==> #[trigger] is_root(pc, c_prev, c_prev[x]),
        forall|r: int| #[trigger] is_root(pc, c_prev, r) ==> bc[r] < pc.len(),
        0 <= idx < pc.len(),
        0 <= nb < pc.len(),
        born(pc, idx),
        born(pc, nb),
        c_prev[idx] != c_prev[nb],
        levels[bc[c_prev[idx]] as int] <= levels[bc[c_prev[nb]] as int] ==> older == c_prev[idx] && younger
            == c_prev[nb],
        !(levels[bc[c_prev[idx]] as int] <= levels[bc[c_prev[nb]] as int]) ==> older == c_prev[nb] && younger
            == c_prev[idx],
        (s == older && tt == younger) || (s == younger && tt == older),
        c2 == Seq::new(c_prev.len(), |x: int| if c_prev[x] == tt { s } else { c_prev[x] }),
        b2.len() == bc.len(),
        b2[s] == bc[older],
        forall|r: int| 0 <= r < bc.len() && r != s ==> b2[r] == bc[r],
        p2.len() == pc.len(),
        forall|y: int| 0 <= y < pc.len() ==> born(p2, y) == born(pc, y),
        pairs2 == pairs_before.push(PersistencePair { birth: bc[younger], death: idx as usize, dimension: 0 }),
    ensures
        matches_sweep(p2, c2, b2, pairs2, meet(levels, st, idx, nb)),
{
    let ra = c_prev[idx];
    let rb = c_prev[nb];
    assert(is_root(pc, c_prev, ra) && is_root(pc, c_prev, rb));
    let lp = st.0;
    assert(lp[idx] == bc[ra] as int);
    assert(lp[nb] == bc[rb] as int);
    assert(bc[ra] != bc[rb]);
    let m = meet(levels, st, idx, nb);
    assert(m.1 == st.1.push((bc[younger] as int, idx)));
    assert(pair_view(pairs2) =~= m.1) by {
        assert(pair_view(pairs_before) == st.1);
        assert(pair_view(pairs2)[pairs_before.len() as int] == (bc[younger] as int, idx));
        assert forall|i: int| 0 <= i < pairs_before.len() implies pair_view(pairs2)[i] == st.1[i] by {
            assert(pairs2[i] == pairs_before[i]);
            assert(pair_view(pairs_before)[i] == st.1[i]);
        }
    }
    assert(is_root(pc, c_prev, older) && is_root(pc, c_prev, younger));
    assert forall|x: int| 0 <= x < p2.len() implies #[trigger] m.0[x] == if born(p2, x) {
        b2[c2[x]] as int
    } else {
        -1
    } by {
        assert(lp[x] == if born(pc, x) {
            bc[c_prev[x]] as int
        } else {
            -1
        });
        if born(pc, x) {
            let r = c_prev[x];
            assert(is_root(pc, c_prev, r));
            if r != s && r != tt {
                assert(r != younger);
                assert(bc[r] != bc[younger]);
            } else {
                assert(bc[older] != bc[younger]);
            }
        }
    }
}

/// The pixels of finite value at or below level `v`: the sublevel set at `v`.
pub open spec fn sublevel(levels: Seq<u32>, finite: Seq<bool>, v: u32) -> Seq<bool> {
    Seq::new(levels.len(), |x: int| finite[x] && levels[x] <= v)
}

/// The component born at pixel `b` has, when it dies at pixel `d`, met an
/// older one: another pixel at a level no higher than `b`'s, joined to `b`
/// in the sublevel set at `d`'s level.
pub open spec fn has_elder(levels: Seq<u32>, finite: Seq<bool>, w: int, h: int, b: int, d: int) -> bool {
    exists|o: int|
        0 <= o < levels.len() && o != b && levels[o] <= levels[b] && #[trigger] reach(
            sublevel(levels, finite, levels[d]),
            w,
            h,
            b,
            o,
        )
}

/// The elder rule: each pair's component dies into a component at least as old.
pub open spec fn elder_ok(pairs: Seq<PersistencePair>, levels: Seq<u32>, finite: Seq<bool>, w: int, h: int) -> bool {
    forall|i: int|
        0 <= i < pairs.len() ==> has_elder(levels, finite, w, h, (#[trigger] pairs[i]).birth as int, pairs[i].death as int)
}

/// The birth pixel of each tree lies in that tree.
pub open spec fn labels_ok(parent: Seq<usize>, comp: Seq<int>, birth: Seq<usize>) -> bool {
    forall|r: int| #[trigger] is_root(parent, comp, r) ==> comp[birth[r] as int] == r
}

/// A pixel whose level is strictly below every other pixel of its component
/// (in the image of finite pixels) never dies: it is the birth of no pair.
pub proof fn lemma_minimum_never_dies(
    pairs: Seq<PersistencePair>,
    levels: Seq<u32>,
    finite: Seq<bool>,
    w: int,
    h: int,
    p: int,
)
    requires
        elder_ok(pairs, levels, finite, w, h),
        levels.len() == finite.len(),
        forall|q: int| q != p && #[trigger] reach(finite, w, h, p, q) ==> levels[q] > levels[p],
    ensures
        forall|i: int| 0 <= i < pairs.len() ==> (#[trigger] pairs[i]).birth != p,
{
    assert forall|i: int| 0 <= i < pairs.len() implies (#[trigger] pairs[i]).birth != p by {
        if pairs[i].birth == p {
            assert(has_elder(levels, finite, w, h, p, pairs[i].death as int));
            let o = choose|o: int|
                0 <= o < levels.len() && o != p && levels[o] <= levels[p] && #[trigger] reach(
                    sublevel(levels, finite, levels[pairs[i].death as int]),
                    w,
                    h,
                    p,
                    o,
                );
            lemma_reach_mono(sublevel(levels, finite, levels[pairs[i].death as int]), finite, w, h, p, o);
        }
    }
}

/// At a merge, the birth pixel of the younger tree reaches, within the
/// current sublevel set, the birth pixel of the older one.
proof fn lemma_elder_witness(
    levels: Seq<u32>,
    finite: Seq<bool>,
    w: int,
    h: int,
    pc: Seq<usize>,
    c_prev: Seq<int>,
    bc: Seq<usize>,
    rank: Seq<u32>,
    idx: int,
    nb: int,
    older: int,
    younger: int,
)
    requires
        uf_ok(pc, c_prev, rank, w, h),
        levels.len() == pc.len(),
        finite.len() == pc.len(),
        forall|x: int| 0 <= x < pc.len() && born(pc, x) ==> finite[x] && levels[x] <= levels[idx],
        0 <= idx < pc.len(),
        0 <= nb < pc.len(),
        born(pc, idx),
        born(pc, nb),
        adjacent(w, h, idx, nb),
        (older == c_prev[idx] && younger == c_prev[nb]) || (older == c_prev[nb] && younger == c_prev[idx]),
        0 <= bc[older] < pc.len(),
        0 <= bc[younger] < pc.len(),
        born(pc, bc[older] as int),
        born(pc, bc[younger] as int),
        c_prev[bc[older] as int] == older,
        c_prev[bc[younger] as int] == younger,
        bc[older] != bc[younger],
        levels[bc[older] as int] <= levels[bc[younger] as int],
    ensures
        has_elder(levels, finite, w, h, bc[younger] as int, idx),
{
    let bm = born_mask(pc);
    let yb = bc[younger] as int;
    let ob = bc[older] as int;
    let (py, po) = if younger == c_prev[nb] {
        (nb, idx)
    } else {
        (idx, nb)
    };
    assert(adjacent(w, h, py, po)) by {
        if py == nb {
            lemma_adjacent_symmetric(w, h, idx, nb);
        }
    }
    assert(reach(bm, w, h, yb, c_prev[yb]));
    assert(reach(bm, w, h, py, c_prev[py]));
    assert(reach(bm, w, h, po, c_prev[po]));
    assert(reach(bm, w, h, ob, c_prev[ob]));
    lemma_reach_symmetric(bm, w, h, py, younger);
    lemma_reach_symmetric(bm, w, h, ob, older);
    lemma_reach_trans(bm, w, h, yb, younger, py);
    lemma_reach_step(bm, w, h, yb, py, po);
    lemma_reach_trans(bm, w, h, yb, po, older);
    lemma_reach_trans(bm, w, h, yb, older, ob);
    let m = sublevel(levels, finite, levels[idx]);
    lemma_reach_mono(bm, m, w, h, yb, ob);
    assert(reach(m, w, h, yb, ob));
}

/// The pairs come out in order of death.
pub open spec fn deaths_in_order(pairs: Seq<PersistencePair>, levels: Seq<u32>) -> bool {
    forall|i: int, j: int|
        0 <= i < j < pairs.len() ==> levels[#[trigger] pairs[i].death as int] <= levels[#[trigger] pairs[j].death as int]
}

/// No component dies twice: the birth pixels of the pairs are pairwise different.
pub open spec fn births_distinct(pairs: Seq<PersistencePair>) -> bool {
    forall|i: int, j: int| 0 <= i < j < pairs.len() ==> #[trigger] pairs[i].birth != #[trigger] pairs[j].birth
}

/// `r` is the root of a tree of the forest.
pub open spec fn is_root(parent: Seq<usize>, comp: Seq<int>, r: int) -> bool {
    0 <= r < parent.len() && born(parent, r) && comp[r] == r
}

/// The living components have different birth pixels, none of which has died;
/// both pixels of every pair have entered.
pub open spec fn ledger_ok(parent: Seq<usize>, comp: Seq<int>, birth: Seq<usize>, pairs: Seq<PersistencePair>) -> bool {
    &&& forall|r1: int, r2: int|
        #[trigger] is_root(parent, comp, r1) && #[trigger] is_root(parent, comp, r2) && r1 != r2 ==> birth[r1] != birth[r2]
    &&& forall|r: int, i: int|
        #[trigger] is_root(parent, comp, r) && 0 <= i < pairs.len() ==> #[trigger] pairs[i].birth != birth[r]
    &&& forall|i: int|
        0 <= i < pairs.len() ==> born(parent, #[trigger] pairs[i].birth as int) && born(parent, pairs[i].death as int)
    &&& births_distinct(pairs)
}

/// Path compression leaves the ledger as it was.
proof fn lemma_ledger_same_born(
    p1: Seq<usize>,
    p2: Seq<usize>,
    comp: Seq<int>,
    birth: Seq<usize>,
    pairs: Seq<PersistencePair>,
)
    requires
        p1.len() == p2.len(),
        forall|y: int| 0 <= y < p1.len() ==> born(p2, y) == born(p1, y),
        ledger_ok(p1, comp, birth, pairs),
        forall|i: int|
            0 <= i < pairs.len() ==> (#[trigger] pairs[i]).birth < p1.len() && pairs[i].death < p1.len(),
    ensures
        ledger_ok(p2, comp, birth, pairs),
{
    assert forall|r: int| #[trigger] is_root(p2, comp, r) implies is_root(p1, comp, r) by {}
    assert forall|i: int| 0 <= i < pairs.len() implies born(p2, #[trigger] pairs[i].birth as int) && born(
        p2,
        pairs[i].death as int,
    ) by {
        assert(born(p1, pairs[i].birth as int) && born(p1, pairs[i].death as int));
    }
}

/// Every root records an entered pixel as its birth.
pub open spec fn births_ok(parent: Seq<usize>, comp: Seq<int>, birth: Seq<usize>) -> bool {
    forall|r: int|
        0 <= r < parent.len() && born(parent, r) && comp[r] == r ==> #[trigger] birth[r] < parent.len()
            && born(parent, birth[r] as int)
}

/// Compute 0-dimensional persistent homology of a scalar field on a grid,
/// by union-find on sublevel sets. `levels` orders the pixel values (equal
/// values, equal levels); pixels that are not `finite` never enter. Returns
/// the persistence pairs of the connected components: whenever two components
/// meet, the younger one (born at the higher level) dies.
#[verifier::rlimit(60)]
#[verifier::spinoff_prover]
pub fn persistence_h0(levels: &[u32], finite: &[bool], width: usize, height: usize) -> (pairs: Vec<PersistencePair>)
    requires
        levels@.len() == width * height,
        finite@.len() == width * height,
    ensures
        pairs_ok(pairs@, levels@, finite@),
        pairs@.len() + count_firsts(finite@, width as int, height as int, finite@.len() as nat) == count_set(
            finite@,
            finite@.len() as nat,
        ),
        deaths_in_order(pairs@, levels@),
        births_distinct(pairs@),
        pair_view(pairs@) == elder_pairs(levels@, finite@, width as int, height as int),
        elder_ok(pairs@, levels@, finite@, width as int, height as int),
{
    let ghost w = width as int;
    let ghost h = height as int;
    let n = levels.len();
    // Sort pixels by value (ascending = sublevel set filtration)
    let mut v: Vec<(u32, usize)> = Vec::new();
    for i in 0..n
        invariant
            n == levels@.len(),
            v@.len() == i,
            forall|j: int| 0 <= j < i ==> #[trigger] v@[j] == (levels@[j], j as usize),
    {
        v.push((levels[i], i));
    }
    proof {
        assert(v@.no_duplicates()) by {
            assert forall|a: int, b: int| 0 <= a < b < v@.len() implies v@[a] != v@[b] by {
                assert(v@[a].1 != v@[b].1);
            }
        }
    }
    let order = sort_levels(v);
    let ghost ord = order@;
    proof {
        assert forall|i: int| 0 <= i < ord.len() implies #[trigger] ord[i].1 < n && ord[i].0 == levels@[ord[i].1 as int] by {
            assert(v@.contains(ord[i]));
            let j = choose|j: int| 0 <= j < v@.len() && v@[j] == ord[i];
        }
    }
    let mut parent: Vec<usize> = Vec::new();
    let mut rank_uf: Vec<u32> = Vec::new();
    let mut birth: Vec<usize> = Vec::new();
    for i in 0..n
        invariant
            parent@.len() == i,
            rank_uf@.len() == i,
            birth@.len() == i,
            forall|j: int| 0 <= j < i ==> #[trigger] parent@[j] == usize::MAX && rank_uf@[j] == 0,
    {
        parent.push(usize::MAX);
        rank_uf.push(0);
        birth.push(0);
    }
    let mut pairs: Vec<PersistencePair> = Vec::new();
    let ghost mut comp: Seq<int> = Seq::new(n as nat, |x: int| 0);
    proof {
        assert forall|x: int| 0 <= x < n implies #[trigger] rank_uf@[x] == 0 && !born(parent@, x) by {
            assert(parent@[x] == usize::MAX && rank_uf@[x] == 0);
        }
        assert(forest(parent@, comp, ranks(rank_uf@)));
        assert(uf_ok(parent@, comp, rank_uf@, w, h));
        assert forall|j: int| 0 <= j < n implies ord.contains((#[trigger] levels@[j], j as usize)) by {
            assert(v@[j] == (levels@[j], j as usize));
        }
        assert(roots_of(parent@, comp) =~= Set::<int>::empty());
        assert(born_set(parent@) =~= Set::<int>::empty());
        assert forall|r: int| !#[trigger] is_root(parent@, comp, r) by {}
    }
    let ghost mut st: Sweep = sweep(levels@, finite@, w, h, ord, 0);
    proof {
        assert(pair_view(pairs@) =~= st.1);
        assert(matches_sweep(parent@, comp, birth@, pairs@, st));
        assert(labels_ok(parent@, comp, birth@));
    }
    for t in 0..n
        invariant
            n == levels@.len(),
            n == finite@.len(),
            n == width * height,
            w == width,
            h == height,
            ord == order@,
            ord.len() == n,
            lex_sorted(ord),
            ord.no_duplicates(),
            forall|i: int| 0 <= i < ord.len() ==> #[trigger] ord[i].1 < n && ord[i].0 == levels@[ord[i].1 as int],
            forall|j: int| 0 <= j < n ==> ord.contains((#[trigger] levels@[j], j as usize)),
            parent@.len() == n,
            rank_uf@.len() == n,
            birth@.len() == n,
            comp.len() == n,
            uf_ok(parent@, comp, rank_uf@, w, h),
            linked_except(parent@, comp, w, h, -1),
            forall|x: int| 0 <= x < n ==> (born(parent@, x) <==> finite@[x] && processed(ord, t as int, x)),
            births_ok(parent@, comp, birth@),
            pairs_ok(pairs@, levels@, finite@),
            pairs@.len() + roots_of(parent@, comp).len() == born_set(parent@).len(),
            ledger_ok(parent@, comp, birth@, pairs@),
            deaths_in_order(pairs@, levels@),
            st == sweep(levels@, finite@, w, h, ord, t as nat),
            matches_sweep(parent@, comp, birth@, pairs@, st),
            elder_ok(pairs@, levels@, finite@, w, h),
            labels_ok(parent@, comp, birth@),
    {
        let idx = order[t].1;
        let ghost st_t = st;
        proof {
            assert(ord[t as int].1 == idx);
            assert(!processed(ord, t as int, idx as int)) by {
                if processed(ord, t as int, idx as int) {
                    let i = choose|i: int| 0 <= i < t && #[trigger] ord[i].1 as int == idx as int;
                    assert(ord[i] == ord[t as int]);
                }
            }
            assert forall|x: int| 0 <= x < n && processed(ord, t as int, x) implies processed(ord, t + 1, x) by {
                let i = choose|i: int| 0 <= i < t && #[trigger] ord[i].1 as int == x;
            }
            assert(processed(ord, t + 1, idx as int));
            assert forall|x: int| 0 <= x < n && processed(ord, t + 1, x) && x != idx implies processed(ord, t as int, x) by {
                let i = choose|i: int| 0 <= i < t + 1 && #[trigger] ord[i].1 as int == x;
            }
        }
        if finite[idx] {
            // Birth: this pixel enters the sublevel set
            let ghost p0 = parent@;
            let ghost b0 = birth@;
            let ghost c0 = comp;
            proof {
                lemma_sets_finite(p0, comp);
                lemma_enter(p0, comp, rank_uf@, w, h, idx as int);
            }
            parent.set(idx, idx);
            birth.set(idx, idx);
            proof {
                comp = comp.update(idx as int, idx as int);
                assert(births_ok(parent@, comp, birth@)) by {
                    assert forall|r: int| 0 <= r < parent@.len() && born(parent@, r) && comp[r] == r implies #[trigger] birth@[r]
                        < parent@.len() && born(parent@, birth@[r] as int) by {
                        if r != idx {
                            assert(born(p0, r));
                        }
                    }
                }
                lemma_sets_finite(parent@, comp);
                assert(ledger_ok(parent@, comp, birth@, pairs@)) by {
                    assert forall|r: int| #[trigger] is_root(parent@, comp, r) && r != idx implies is_root(p0, c0, r)
                        && birth@[r] == b0[r] && born(p0, b0[r] as int) by {
                        assert(born(p0, r));
                    }
                    assert(!born(p0, idx as int));
                    assert forall|r1: int, r2: int|
                        #[trigger] is_root(parent@, comp, r1) && #[trigger] is_root(parent@, comp, r2) && r1 != r2 implies birth@[r1]
                            != birth@[r2] by {
                        if r1 != idx && r2 != idx {
                            assert(is_root(p0, c0, r1) && is_root(p0, c0, r2));
                        }
                    }
                    assert forall|r: int, i: int|
                        #[trigger] is_root(parent@, comp, r) && 0 <= i < pairs@.len() implies #[trigger] pairs@[i].birth != birth@[r] by {
                        assert(born(p0, pairs@[i].birth as int));
                        if r != idx {
                            assert(is_root(p0, c0, r));
                        }
                    }
                    assert forall|i: int| 0 <= i < pairs@.len() implies born(parent@, #[trigger] pairs@[i].birth as int) && born(
                        parent@,
                        pairs@[i].death as int,
                    ) by {
                        assert(born(p0, pairs@[i].birth as int) && born(p0, pairs@[i].death as int));
                    }
                }
                // every entered pixel comes no later than idx in the order
                assert forall|x: int| 0 <= x < n && born(parent@, x) implies levels@[x] <= levels@[idx as int] by {
                    if x != idx {
                        assert(born(p0, x));
                        assert(processed(ord, t as int, x));
                        let i = choose|i: int| 0 <= i < t && #[trigger] ord[i].1 as int == x;
                        assert(ord[i].0 <= ord[t as int].0);
                        assert(ord[i].0 == levels@[x]);
                    }
                }
            }
            proof {
                assert forall|x: int| 0 <= x < n implies (born(parent@, x) <==> finite@[x] && processed(ord, t + 1, x)) by {
                    if x != idx {
                        assert(born(parent@, x) == born(p0, x));
                    }
                }
            }
            proof {
                assert(!born(p0, idx as int));
                assert forall|x: int| 0 <= x < p0.len() && born(p0, x) implies 0 <= #[trigger] c0[x] < p0.len() && born(p0, c0[x]) by {
                    assert(crate::observer::union_find::node_ok(p0, c0, ranks(rank_uf@), x));
                }
                lemma_matches_enter(p0, c0, b0, pairs@, st, parent@, comp, birth@, idx as int);
                st = (st.0.update(idx as int, idx as int), st.1);
                assert(labels_ok(parent@, comp, birth@)) by {
                    assert forall|r: int| #[trigger] is_root(parent@, comp, r) implies comp[birth@[r] as int] == r by {
                        if r != idx {
                            assert(is_root(p0, c0, r));
                            assert(b0[r] < n && born(p0, b0[r] as int));
                            assert(c0[b0[r] as int] == r);
                        }
                    }
                }
            }
            let ghost st_entered = st;
            // Check 4-connected neighbors
            let nbs = neighbors(idx, width, height);
            let k_n = nbs.len();
            for k in 0..k_n
                invariant
                    n == levels@.len(),
                    n == finite@.len(),
                    n == width * height,
                    w == width,
                    h == height,
                    idx < n,
                    finite@[idx as int],
                    born(parent@, idx as int),
                    k_n == nbs@.len(),
                    forall|i: int| 0 <= i < nbs@.len() ==> adjacent(w, h, idx as int, #[trigger] nbs@[i] as int)
                        && nbs@[i] < n,
                    parent@.len() == n,
                    rank_uf@.len() == n,
                    birth@.len() == n,
                    comp.len() == n,
                    uf_ok(parent@, comp, rank_uf@, w, h),
                    linked_except(parent@, comp, w, h, idx as int),
                    forall|i: int| 0 <= i < k && born(parent@, #[trigger] nbs@[i] as int) ==> comp[nbs@[i] as int] == comp[idx as int],
                    forall|x: int| 0 <= x < n ==> (born(parent@, x) <==> finite@[x] && processed(ord, t + 1, x)),
                    forall|x: int| 0 <= x < n && born(parent@, x) ==> levels@[x] <= levels@[idx as int],
                    births_ok(parent@, comp, birth@),
                    pairs_ok(pairs@, levels@, finite@),
                    pairs@.len() + roots_of(parent@, comp).len() == born_set(parent@).len(),
                    ledger_ok(parent@, comp, birth@, pairs@),
                    deaths_in_order(pairs@, levels@),
                    nbs@.len() == neighbor_seq(w, h, idx as int).len(),
                    forall|i: int| 0 <= i < nbs@.len() ==> #[trigger] nbs@[i] as int == neighbor_seq(w, h, idx as int)[i],
                    matches_sweep(parent@, comp, birth@, pairs@, st),
                    st == meet_all(levels@, st_entered, idx as int, neighbor_seq(w, h, idx as int), k as nat),
                    elder_ok(pairs@, levels@, finite@, w, h),
                    labels_ok(parent@, comp, birth@),
            {
                let nb = nbs[k];
                let ghost p_start = parent@;
                let ghost st_k = st;
                if parent[nb] != usize::MAX {
                    let ghost pa = parent@;
                    proof {
                        assert(forest(pa, comp, ranks(rank_uf@)));
                        assert(is_forest(pa)) by {
                            let cr = (comp, ranks(rank_uf@));
                            assert(forest(pa, cr.0, cr.1));
                        }
                    }
                    let root_a = find(idx, &mut parent);
                    let ghost pb = parent@;
                    proof {
                        assert(forest(pa, comp, ranks(rank_uf@)));
                        lemma_same_born(pa, pb, comp);
                        assert(is_forest(pb)) by {
                            let cr = (comp, ranks(rank_uf@));
                            assert(forest(pb, cr.0, cr.1));
                        }
                    }
                    let root_b = find(nb, &mut parent);
                    proof {
                        assert(forest(pb, comp, ranks(rank_uf@)));
                        lemma_same_born(pb, parent@, comp);
                        lemma_same_born(pa, parent@, comp);
                        assert(root_a as int == comp[idx as int]);
                        assert(root_b as int == comp[nb as int]);
                        assert(uf_ok(parent@, comp, rank_uf@, w, h));
                        assert forall|y: int| 0 <= y < n implies born(parent@, y) == born(pa, y) by {}
                        lemma_ledger_same_born(pa, parent@, comp, birth@, pairs@);
                        lemma_matches_same_born(pa, parent@, comp, birth@, pairs@, st);
                        assert(labels_ok(parent@, comp, birth@)) by {
                            assert forall|r: int| #[trigger] is_root(parent@, comp, r) implies comp[birth@[r] as int] == r by {
                                assert(is_root(pa, comp, r));
                            }
                        }
                        assert(births_ok(parent@, comp, birth@)) by {
                            assert forall|r: int| 0 <= r < parent@.len() && born(parent@, r) && comp[r] == r implies #[trigger] birth@[r]
                                < parent@.len() && born(parent@, birth@[r] as int) by {
                                assert(born(pa, r));
                                assert(birth@[r] < pa.len() && born(pa, birth@[r] as int));
                            }
                        }
                    }
                    if root_a != root_b {
                        // Merge: younger component (higher birth) dies
                        let ghost pc = parent@;
                        let ghost rc = rank_uf@;
                        proof {
                            lemma_sets_finite(pc, comp);
                            assert(births_ok(pc, comp, birth@));
                            assert(forest(pc, comp, ranks(rc)));
                            assert(crate::observer::union_find::node_ok(pc, comp, ranks(rc), idx as int));
                            assert(crate::observer::union_find::node_ok(pc, comp, ranks(rc), comp[idx as int]));
                            assert(crate::observer::union_find::node_ok(pc, comp, ranks(rc), nb as int));
                            assert(crate::observer::union_find::node_ok(pc, comp, ranks(rc), comp[nb as int]));
                            assert(0 <= root_a < pc.len());
                            assert(0 <= root_b < pc.len());
                            let ra = root_a as int;
                            let rb = root_b as int;
                            assert(0 <= ra < pc.len() && born(pc, ra) && comp[ra] == ra);
                            assert(birth@[ra] < pc.len() && born(pc, birth@[ra] as int));
                            assert(0 <= rb < pc.len() && born(pc, rb) && comp[rb] == rb);
                            assert(birth@[rb] < pc.len() && born(pc, birth@[rb] as int));
                        }
                        let (older, younger) = if levels[birth[root_a]] <= levels[birth[root_b]] {
                            (root_a, root_b)
                        } else {
                            (root_b, root_a)
                        };
                        let dying = birth[younger];
                        let ghost pairs_before = pairs@;
                        pairs.push(PersistencePair { birth: dying, death: idx, dimension: 0 });
                        let ghost bc = birth@;
                        // Union by rank
                        if rank_uf[older] < rank_uf[younger] {
                            parent.set(older, younger);
                            let b_old = birth[older];
                            birth.set(younger, b_old);
                            proof {
                                assert(birth@ == bc.update(younger as int, bc[older as int]));
                                lemma_union(pc, comp, rc, w, h, idx as int, idx as int, nb as int, younger as int, older as int, rc);
                            }
                        } else {
                            parent.set(younger, older);
                            if rank_uf[older] == rank_uf[younger] {
                                proof {
                                    assert(rc[older as int] < 64);
                                }
                                let r_new = rank_uf[older] + 1;
                                rank_uf.set(older, r_new);
                            }
                            proof {
                                assert(birth@ == bc);
                                lemma_union(pc, comp, rc, w, h, idx as int, idx as int, nb as int, older as int, younger as int, rank_uf@);
                            }
                        }
                        proof {
                            let (s, tt) = if rc[older as int] < rc[younger as int] {
                                (younger as int, older as int)
                            } else {
                                (older as int, younger as int)
                            };
                            let c2 = Seq::new(comp.len(), |x: int| if comp[x] == tt { s } else { comp[x] });
                            let old_roots = roots_of(pc, comp);
                            let c_prev = comp;
                            comp = c2;
                            assert forall|x: int| 0 <= x < n implies born(parent@, x) == born(pc, x) by {}
                            assert(born_set(parent@) == born_set(pc));
                            lemma_sets_finite(parent@, comp);
                            assert(old_roots.contains(tt));
                            assert(roots_of(parent@, comp).len() + 1 == old_roots.len());
                            assert forall|i: int| 0 <= i < pairs@.len() implies {
                                let pr = #[trigger] pairs@[i];
                                &&& pr.dimension == 0
                                &&& pr.birth < levels@.len()
                                &&& pr.death < levels@.len()
                                &&& finite@[pr.birth as int]
                                &&& finite@[pr.death as int]
                                &&& levels@[pr.birth as int] <= levels@[pr.death as int]
                            } by {
                                if i == pairs@.len() - 1 {
                                    assert(pairs@[i].birth == bc[younger as int]);
                                    assert(born(pc, bc[younger as int] as int));
                                }
                            }
                            assert(births_ok(parent@, comp, birth@)) by {
                                assert forall|r: int| 0 <= r < parent@.len() && born(parent@, r) && comp[r] == r implies #[trigger] birth@[r]
                                    < parent@.len() && born(parent@, birth@[r] as int) by {
                                    assert(born(pc, r));
                                    assert(r != tt);
                                    if r == s {
                                        assert(born(pc, bc[older as int] as int));
                                        assert(birth@[r] == bc[older as int] || birth@[r] == bc[r]);
                                        assert(birth@[r] < pc.len() && born(pc, birth@[r] as int));
                                    } else {
                                        assert(comp[r] == r);
                                        assert(birth@[r] == bc[r]);
                                        assert(bc[r] < pc.len() && born(pc, bc[r] as int));
                                    }
                                }
                            }
                            assert(is_root(pc, c_prev, older as int) && is_root(pc, c_prev, younger as int));
                            assert(birth@[s] == bc[older as int]);
                            assert forall|r: int| #[trigger] is_root(parent@, comp, r) implies is_root(pc, c_prev, r) && r != tt
                                && (r != s ==> birth@[r] == bc[r]) by {
                                assert(born(pc, r));
                                if c_prev[r] == tt {
                                    assert(r == s);
                                }
                            }
                            assert forall|r1: int, r2: int|
                                #[trigger] is_root(parent@, comp, r1) && #[trigger] is_root(parent@, comp, r2) && r1 != r2 implies birth@[r1]
                                    != birth@[r2] by {
                                assert(is_root(pc, c_prev, r1) && is_root(pc, c_prev, r2));
                                if r1 == s {
                                    assert(is_root(pc, c_prev, older as int));
                                } else if r2 == s {
                                    assert(is_root(pc, c_prev, older as int));
                                }
                            }
                            assert forall|r: int, i: int|
                                #[trigger] is_root(parent@, comp, r) && 0 <= i < pairs@.len() implies #[trigger] pairs@[i].birth
                                    != birth@[r] by {
                                assert(is_root(pc, c_prev, r));
                                if i < pairs_before.len() {
                                    assert(pairs@[i] == pairs_before[i]);
                                    if r == s {
                                        assert(is_root(pc, c_prev, older as int));
                                    }
                                } else {
                                    assert(pairs@[i].birth == bc[younger as int]);
                                }
                            }
                            assert forall|i: int| 0 <= i < pairs@.len() implies born(parent@, #[trigger] pairs@[i].birth as int)
                                && born(parent@, pairs@[i].death as int) by {
                                if i < pairs_before.len() {
                                    assert(pairs@[i] == pairs_before[i]);
                                    assert(born(pc, pairs_before[i].birth as int) && born(pc, pairs_before[i].death as int));
                                } else {
                                    assert(born(pc, bc[younger as int] as int));
                                }
                            }
                            assert(births_distinct(pairs@)) by {
                                assert forall|i: int, j: int| 0 <= i < j < pairs@.len() implies #[trigger] pairs@[i].birth
                                    != #[trigger] pairs@[j].birth by {
                                    assert(pairs@[i] == pairs_before[i]);
                                    if j < pairs_before.len() {
                                        assert(pairs@[j] == pairs_before[j]);
                                    } else {
                                        assert(is_root(pc, c_prev, younger as int));
                                    }
                                }
                            }
                            assert(ledger_ok(parent@, comp, birth@, pairs@));
                            assert(deaths_in_order(pairs@, levels@)) by {
                                assert forall|i: int, j: int| 0 <= i < j < pairs@.len() implies levels@[#[trigger] pairs@[i].death as int]
                                    <= levels@[#[trigger] pairs@[j].death as int] by {
                                    assert(pairs@[i] == pairs_before[i]);
                                    if j < pairs_before.len() {
                                        assert(pairs@[j] == pairs_before[j]);
                                    } else {
                                        assert(born(pc, pairs_before[i].death as int));
                                        assert(born(parent@, pairs_before[i].death as int));
                                    }
                                }
                            }
                            assert forall|x: int| 0 <= x < pc.len() && born(pc, x) implies #[trigger] is_root(pc, c_prev, c_prev[x]) by {
                                assert(crate::observer::union_find::node_ok(pc, c_prev, ranks(rc), x));
                                assert(crate::observer::union_find::node_ok(pc, c_prev, ranks(rc), c_prev[x]));
                            }
                            assert forall|r: int| #[trigger] is_root(pc, c_prev, r) implies bc[r] < pc.len() by {
                                assert(births_ok(pc, c_prev, bc));
                                assert(bc[r] < pc.len() && born(pc, bc[r] as int));
                            }
                            assert forall|r: int| 0 <= r < bc.len() && r != s implies birth@[r] == bc[r] by {}
                            assert(labels_ok(pc, c_prev, bc));
                            assert(labels_ok(parent@, comp, birth@)) by {
                                assert forall|r: int| #[trigger] is_root(parent@, comp, r) implies comp[birth@[r] as int] == r by {
                                    assert(is_root(pc, c_prev, r));
                                    if r == s {
                                        assert(c_prev[bc[older as int] as int] == older);
                                    } else {
                                        assert(birth@[r] == bc[r]);
                                        assert(c_prev[bc[r] as int] == r);
                                    }
                                }
                            }
                            assert(uf_ok(pc, c_prev, rc, w, h));
                            assert(c_prev[bc[older as int] as int] == older);
                            assert(c_prev[bc[younger as int] as int] == younger);
                            assert(born(pc, bc[older as int] as int) && born(pc, bc[younger as int] as int));
                            lemma_elder_witness(
                                levels@,
                                finite@,
                                w,
                                h,
                                pc,
                                c_prev,
                                bc,
                                rc,
                                idx as int,
                                nb as int,
                                older as int,
                                younger as int,
                            );
                            assert(elder_ok(pairs@, levels@, finite@, w, h)) by {
                                assert forall|i: int| 0 <= i < pairs@.len() implies has_elder(
                                    levels@,
                                    finite@,
                                    w,
                                    h,
                                    (#[trigger] pairs@[i]).birth as int,
                                    pairs@[i].death as int,
                                ) by {
                                    if i < pairs_before.len() {
                                        assert(pairs@[i] == pairs_before[i]);
                                    }
                                }
                            }
                            lemma_matches_merge(
                                levels@,
                                pc,
                                c_prev,
                                bc,
                                pairs_before,
                                st,
                                parent@,
                                comp,
                                birth@,
                                pairs@,
                                idx as int,
                                nb as int,
                                older as int,
                                younger as int,
                                s,
                                tt,
                            );
                        }
                    } else {
                        proof {
                            assert(st_k.0[idx as int] == st_k.0[nb as int]);
                            assert(meet(levels@, st_k, idx as int, nb as int) == st_k);
                        }
                    }
                } else {
                    proof {
                        assert(st_k.0[nb as int] == -1);
                        assert(meet(levels@, st_k, idx as int, nb as int) == st_k);
                    }
                }
                proof {
                    st = meet(levels@, st_k, idx as int, nb as int);
                }
                proof {
                    assert forall|x: int| 0 <= x < n implies born(parent@, x) == born(p_start, x) by {}
                    assert forall|x: int| 0 <= x < n implies (born(parent@, x) <==> finite@[x] && processed(ord, t + 1, x)) by {
                        assert(born(parent@, x) == born(p_start, x));
                    }
                    assert forall|x: int| 0 <= x < n && born(parent@, x) implies levels@[x] <= levels@[idx as int] by {
                        assert(born(parent@, x) == born(p_start, x));
                    }
                }
            }
            proof {
                assert forall|a: int, b: int|
                    0 <= a < parent@.len() && 0 <= b < parent@.len() && born(parent@, a) && born(parent@, b) && a != -1
                        && b != -1 && #[trigger] adjacent(w, h, a, b) implies comp[a] == comp[b] by {
                    if a == idx {
                        let i = choose|i: int| 0 <= i < nbs@.len() && nbs@[i] as int == b;
                        assert(born(parent@, nbs@[i] as int));
                    } else if b == idx {
                        lemma_adjacent_symmetric(w, h, a, b);
                        let i = choose|i: int| 0 <= i < nbs@.len() && nbs@[i] as int == a;
                        assert(born(parent@, nbs@[i] as int));
                    }
                }
            }
            proof {
                assert(st == sweep_step(levels@, finite@, w, h, st_t, idx as int));
            }
        }
        proof {
            assert(st == sweep(levels@, finite@, w, h, ord, (t + 1) as nat));
        }
    }
    proof {
        let o = choose|o: Seq<(u32, usize)>| level_order(levels@, o);
        assert(level_order(levels@, ord));
        assert(level_order(levels@, o));
        assert forall|x: (u32, usize)| ord.contains(x) <==> o.contains(x) by {
            if ord.contains(x) {
                let i = choose|i: int| 0 <= i < ord.len() && ord[i] == x;
                assert(o.contains((levels@[x.1 as int], x.1)));
            }
            if o.contains(x) {
                let i = choose|i: int| 0 <= i < o.len() && o[i] == x;
                assert(o[i].1 < levels@.len() && o[i].0 == levels@[o[i].1 as int]);
                assert(ord.contains((levels@[x.1 as int], x.1)));
            }
        }
        lemma_sorted_unique(ord, o);
        assert(pair_view(pairs@) == elder_pairs(levels@, finite@, w, h));
        assert forall|x: int| 0 <= x < n implies processed(ord, n as int, x) by {
            assert(ord.contains((levels@[x], x as usize)));
            let i = choose|i: int| 0 <= i < ord.len() && ord[i] == (levels@[x], x as usize);
            assert(ord[i].1 as int == x);
        }
        assert(born_mask(parent@) =~= finite@);
        lemma_roots_count_components(parent@, comp, rank_uf@, w, h);
        lemma_count_set(finite@, n as nat);
        assert(born_set(parent@) =~= Set::new(|x: int| 0 <= x < n && finite@[x]));
    }
    pairs
}

} // verus!
