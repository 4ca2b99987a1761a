//! Union-find forests over pixels, with path compression.
//!
//! `parent[x] == usize::MAX` marks a pixel that has not entered the forest yet.
//! A forest is described by a labelling `comp` that gives every entered pixel
//! the root of its tree, and by ranks that grow strictly towards the roots.
use vstd::prelude::*;
use vstd::arithmetic::power2::{lemma2_to64, lemma_pow2_strictly_increases, lemma_pow2_unfold, pow2};
use vstd::set_lib::{lemma_int_range, lemma_len_subset, lemma_map_size, set_int_range};
use vstd::relations::injective_on;
use crate::observer::depth_topology::{
    adjacent, count_firsts, in_mask, is_first_of_component, is_path, lemma_adjacent_symmetric, lemma_reach_mono, lemma_reach_refl, lemma_reach_step, lemma_reach_symmetric,
    lemma_reach_trans, reach,
};
use crate::universe::gf2::lemma_len_disjoint_union;

verus! {

/// Pixel `x` has entered the forest.
pub open spec fn born(parent: Seq<usize>, x: int) -> bool {
    parent[x] != usize::MAX
}

/// The links of an entered pixel agree with the labelling and the ranks.
pub open spec fn node_ok(parent: Seq<usize>, comp: Seq<int>, rank: Seq<int>, x: int) -> bool {
    let p = parent[x] as int;
    let c = comp[x];
    &&& 0 <= p < parent.len()
    &&& born(parent, p)
    &&& comp[p] == c
    &&& 0 <= c < parent.len()
    &&& born(parent, c)
    &&& parent[c] as int == c
    &&& (p == x ==> c == x)
    &&& (p != x ==> rank[x] < rank[p])
    &&& (c != x ==> rank[x] < rank[c])
}

/// `comp` and `rank` describe the forest held in `parent`.
pub open spec fn forest(parent: Seq<usize>, comp: Seq<int>, rank: Seq<int>) -> bool {
    &&& comp.len() == parent.len()
    &&& rank.len() == parent.len()
    &&& forall|x: int| 0 <= x < parent.len() && born(parent, x) ==> #[trigger] node_ok(parent, comp, rank, x)
    &&& forall|x: int| 0 <= x < parent.len() ==> 0 <= #[trigger] rank[x] < 0x1_0000_0000
}

/// `parent` holds a forest.
pub open spec fn is_forest(parent: Seq<usize>) -> bool {
    exists|cr: (Seq<int>, Seq<int>)| forest(parent, cr.0, cr.1)
}

/// Distance of the rank of `x` from the largest rank.
pub open spec fn find_measure(parent: Seq<usize>, x: int) -> int {
    let cr = choose|cr: (Seq<int>, Seq<int>)| forest(parent, cr.0, cr.1);
    0x1_0000_0000 - cr.1[x]
}

/// The pixel reached from `x` after following `k` parent links.
pub open spec fn chain_at(parent: Seq<usize>, x: int, k: nat) -> int
    decreases k,
{
    if k == 0 {
        x
    } else {
        chain_at(parent, parent[x] as int, (k - 1) as nat)
    }
}

/// `y` lies on the chain of parent links that starts at `x`.
pub open spec fn on_chain(parent: Seq<usize>, x: int, y: int) -> bool {
    exists|k: nat| chain_at(parent, x, k) == y
}

/// A root's chain never leaves it.
proof fn lemma_chain_at_root(parent: Seq<usize>, x: int, k: nat)
    requires
        parent[x] as int == x,
    ensures
        chain_at(parent, x, k) == x,
    decreases k,
{
    if k > 0 {
        lemma_chain_at_root(parent, x, (k - 1) as nat);
    }
}

/// The root of `x`, making every pixel on the way point at the root (path compression).
pub fn find(x: usize, parent: &mut Vec<usize>) -> (root: usize)
    requires
        x < old(parent)@.len(),
        born(old(parent)@, x as int),
        is_forest(old(parent)@),
    ensures
        final(parent)@.len() == old(parent)@.len(),
        forall|comp: Seq<int>, rank: Seq<int>|
            #[trigger] forest(old(parent)@, comp, rank) ==> root as int == comp[x as int] && forest(
                final(parent)@,
                comp,
                rank,
            ),
        forall|y: int| 0 <= y < old(parent)@.len() ==> born(final(parent)@, y) == born(old(parent)@, y),
        final(parent)@[x as int] == root,
        old(parent)@[root as int] == root,
        forall|y: int|
            0 <= y < old(parent)@.len() ==> #[trigger] final(parent)@[y] == if on_chain(old(parent)@, x as int, y) {
                root
            } else {
                old(parent)@[y]
            },
    decreases find_measure(old(parent)@, x as int),
{
    let ghost p0 = parent@;
    let px = parent[x];
    if px != x {
        proof {
            let cr = choose|cr: (Seq<int>, Seq<int>)| forest(p0, cr.0, cr.1);
            assert(node_ok(p0, cr.0, cr.1, x as int));
        }
        let r = find(px, parent);
        let ghost p1 = parent@;
        parent.set(x, r);
        proof {
            assert forall|y: int| 0 <= y < p0.len() implies #[trigger] parent@[y] == if on_chain(p0, x as int, y) {
                r
            } else {
                p0[y]
            } by {
                if y != x {
                    if on_chain(p0, x as int, y) {
                        let k = choose|k: nat| chain_at(p0, x as int, k) == y;
                        assert(k > 0);
                        assert(chain_at(p0, px as int, (k - 1) as nat) == y);
                        assert(on_chain(p0, px as int, y));
                    }
                    if on_chain(p0, px as int, y) {
                        let k = choose|k: nat| chain_at(p0, px as int, k) == y;
                        assert(chain_at(p0, x as int, k + 1) == y);
                    }
                } else {
                    assert(chain_at(p0, x as int, 0) == x);
                }
            }
            assert forall|comp: Seq<int>, rank: Seq<int>| #[trigger] forest(p0, comp, rank) implies r as int
                == comp[x as int] && forest(parent@, comp, rank) by {
                assert(node_ok(p0, comp, rank, x as int));
                assert(forest(p1, comp, rank));
                let c = comp[x as int];
                assert(node_ok(p0, comp, rank, c));
                assert forall|y: int| 0 <= y < parent@.len() && born(parent@, y) implies #[trigger] node_ok(
                    parent@,
                    comp,
                    rank,
                    y,
                ) by {
                    if y != x {
                        assert(born(p1, y));
                        assert(node_ok(p1, comp, rank, y));
                        assert(node_ok(p1, comp, rank, x as int));
                        assert(comp[y] != x);
                    } else {
                        assert(born(p1, c));
                        assert(node_ok(p1, comp, rank, c));
                    }
                }
            }
        }
        r
    } else {
        proof {
            assert forall|comp: Seq<int>, rank: Seq<int>| #[trigger] forest(p0, comp, rank) implies x as int
                == comp[x as int] by {
                assert(node_ok(p0, comp, rank, x as int));
            }
            assert forall|y: int| 0 <= y < p0.len() implies #[trigger] parent@[y] == if on_chain(p0, x as int, y) {
                x
            } else {
                p0[y]
            } by {
                if on_chain(p0, x as int, y) {
                    let k = choose|k: nat| chain_at(p0, x as int, k) == y;
                    lemma_chain_at_root(p0, x as int, k);
                }
            }
        }
        x
    }
}


// ---------------------------------------------------------------------------
// Forests that track the connected components of the entered pixels
// ---------------------------------------------------------------------------

pub open spec fn ranks(r: Seq<u32>) -> Seq<int> {
    Seq::new(r.len(), |i: int| r[i] as int)
}

/// The entered pixels, as an image.
pub open spec fn born_mask(parent: Seq<usize>) -> Seq<bool> {
    Seq::new(parent.len(), |x: int| born(parent, x))
}

pub open spec fn born_set(parent: Seq<usize>) -> Set<int> {
    Set::new(|x: int| 0 <= x < parent.len() && born(parent, x))
}

/// The entered pixels labelled `r`.
pub open spec fn class_of(parent: Seq<usize>, comp: Seq<int>, r: int) -> Set<int> {
    Set::new(|x: int| 0 <= x < parent.len() && born(parent, x) && comp[x] == r)
}

/// The roots of the forest.
pub open spec fn roots_of(parent: Seq<usize>, comp: Seq<int>) -> Set<int> {
    Set::new(|x: int| 0 <= x < parent.len() && born(parent, x) && comp[x] == x)
}

/// Neighbouring entered pixels share their label, except around `skip`.
pub open spec fn linked_except(parent: Seq<usize>, comp: Seq<int>, w: int, h: int, skip: int) -> bool {
    forall|a: int, b: int|
        0 <= a < parent.len() && 0 <= b < parent.len() && born(parent, a) && born(parent, b) && a != skip
            && b != skip && #[trigger] adjacent(w, h, a, b) ==> comp[a] == comp[b]
}

/// The forest is sound: each entered pixel reaches its root through entered
/// pixels, every tree of rank `k` holds at least `2^k` pixels, and ranks stay
/// small (unentered pixels have rank zero).
pub open spec fn uf_ok(parent: Seq<usize>, comp: Seq<int>, rank: Seq<u32>, w: int, h: int) -> bool {
    &&& 0 <= w
    &&& 0 <= h
    &&& parent.len() <= usize::MAX
    &&& rank.len() == parent.len()
    &&& forest(parent, comp, ranks(rank))
    &&& forall|x: int|
        0 <= x < parent.len() && born(parent, x) ==> #[trigger] reach(born_mask(parent), w, h, x, comp[x])
    &&& forall|r: int|
        0 <= r < parent.len() && born(parent, r) && comp[r] == r ==> pow2(rank[r] as nat) <= #[trigger] class_of(
            parent,
            comp,
            r,
        ).len()
    &&& forall|x: int| 0 <= x < parent.len() ==> #[trigger] rank[x] < 64
    &&& forall|x: int| 0 <= x < parent.len() && !born(parent, x) ==> #[trigger] rank[x] == 0
}

pub proof fn lemma_class_finite(parent: Seq<usize>, comp: Seq<int>, r: int)
    ensures
        class_of(parent, comp, r).finite(),
        class_of(parent, comp, r).len() <= parent.len(),
{
    lemma_int_range(0, parent.len() as int);
    assert(class_of(parent, comp, r).subset_of(set_int_range(0, parent.len() as int)));
    lemma_len_subset(class_of(parent, comp, r), set_int_range(0, parent.len() as int));
}

pub proof fn lemma_sets_finite(parent: Seq<usize>, comp: Seq<int>)
    ensures
        roots_of(parent, comp).finite(),
        born_set(parent).finite(),
{
    lemma_int_range(0, parent.len() as int);
    assert(roots_of(parent, comp).subset_of(set_int_range(0, parent.len() as int)));
    lemma_len_subset(roots_of(parent, comp), set_int_range(0, parent.len() as int));
    assert(born_set(parent).subset_of(set_int_range(0, parent.len() as int)));
    lemma_len_subset(born_set(parent), set_int_range(0, parent.len() as int));
}

/// Compressing paths changes nothing but the links.
pub proof fn lemma_same_born(p1: Seq<usize>, p2: Seq<usize>, comp: Seq<int>)
    requires
        p1.len() == p2.len(),
        forall|y: int| 0 <= y < p1.len() ==> born(p2, y) == born(p1, y),
    ensures
        born_mask(p1) == born_mask(p2),
        born_set(p1) == born_set(p2),
        roots_of(p1, comp) == roots_of(p2, comp),
        forall|r: int| class_of(p1, comp, r) == #[trigger] class_of(p2, comp, r),
{
    assert(born_mask(p1) =~= born_mask(p2));
    assert(born_set(p1) =~= born_set(p2));
    assert(roots_of(p1, comp) =~= roots_of(p2, comp));
    assert forall|r: int| class_of(p1, comp, r) == #[trigger] class_of(p2, comp, r) by {
        assert(class_of(p1, comp, r) =~= class_of(p2, comp, r));
    }
}

/// A new pixel enters as a tree of its own.
pub proof fn lemma_enter(parent: Seq<usize>, comp: Seq<int>, rank: Seq<u32>, w: int, h: int, x: int)
    requires
        uf_ok(parent, comp, rank, w, h),
        0 <= x < parent.len(),
        x < usize::MAX,
        !born(parent, x),
        linked_except(parent, comp, w, h, -1),
    ensures
        uf_ok(parent.update(x, x as usize), comp.update(x, x), rank, w, h),
        linked_except(parent.update(x, x as usize), comp.update(x, x), w, h, x),
        roots_of(parent.update(x, x as usize), comp.update(x, x)) == roots_of(parent, comp).insert(x),
        born_set(parent.update(x, x as usize)) == born_set(parent).insert(x),
        !roots_of(parent, comp).contains(x),
        !born_set(parent).contains(x),
{
    let p2 = parent.update(x, x as usize);
    let c2 = comp.update(x, x);
    let rk = ranks(rank);
    assert forall|y: int| 0 <= y < p2.len() && born(p2, y) implies #[trigger] node_ok(p2, c2, rk, y) by {
        if y != x {
            assert(node_ok(parent, comp, rk, y));
            assert(comp[y] != x);
            assert(parent[y] as int != x);
        }
    }
    assert(forest(p2, c2, rk));
    assert forall|y: int| 0 <= y < p2.len() && born(p2, y) implies #[trigger] reach(born_mask(p2), w, h, y, c2[y]) by {
        if y == x {
            lemma_reach_refl(born_mask(p2), w, h, x);
        } else {
            assert(reach(born_mask(parent), w, h, y, comp[y]));
            lemma_reach_mono(born_mask(parent), born_mask(p2), w, h, y, comp[y]);
        }
    }
    assert forall|r: int|
        0 <= r < p2.len() && born(p2, r) && c2[r] == r implies pow2(rank[r] as nat) <= #[trigger] class_of(
        p2,
        c2,
        r,
    ).len() by {
        if r == x {
            assert forall|y: int| class_of(p2, c2, r).contains(y) implies y == x by {
                if y != x {
                    assert(node_ok(parent, comp, rk, y));
                }
            }
            assert(class_of(p2, c2, r) =~= Set::<int>::empty().insert(x));
            lemma2_to64();
        } else {
            assert(class_of(p2, c2, r) =~= class_of(parent, comp, r));
        }
    }
    assert(roots_of(p2, c2) =~= roots_of(parent, comp).insert(x));
    assert(born_set(p2) =~= born_set(parent).insert(x));
}

/// Joining the trees of roots `t` and `s` under `s`.
pub proof fn lemma_union(
    parent: Seq<usize>,
    comp: Seq<int>,
    rank: Seq<u32>,
    w: int,
    h: int,
    skip: int,
    a: int,
    b: int,
    s: int,
    t: int,
    new_rank: Seq<u32>,
)
    requires
        uf_ok(parent, comp, rank, w, h),
        linked_except(parent, comp, w, h, skip),
        0 <= a < parent.len(),
        0 <= b < parent.len(),
        born(parent, a),
        born(parent, b),
        adjacent(w, h, a, b),
        (s == comp[a] && t == comp[b]) || (s == comp[b] && t == comp[a]),
        s != t,
        rank[t] <= rank[s],
        new_rank == if rank[t] == rank[s] {
            rank.update(s, (rank[s] + 1) as u32)
        } else {
            rank
        },
    ensures
        ({
            let p2 = parent.update(t, s as usize);
            let c2 = Seq::new(comp.len(), |x: int| if comp[x] == t { s } else { comp[x] });
            &&& uf_ok(p2, c2, new_rank, w, h)
            &&& linked_except(p2, c2, w, h, skip)
            &&& c2[a] == c2[b]
            &&& roots_of(p2, c2) == roots_of(parent, comp).remove(t)
            &&& roots_of(parent, comp).contains(t)
            &&& born_set(p2) == born_set(parent)
            &&& forall|x: int| 0 <= x < parent.len() && born(parent, x) && comp[x] != t ==> c2[x] == comp[x]
            &&& forall|x: int| 0 <= x < parent.len() && born(parent, x) && comp[x] == t ==> c2[x] == s
        }),
{
    let n = parent.len() as int;
    let p2 = parent.update(t, s as usize);
    let c2 = Seq::new(comp.len(), |x: int| if comp[x] == t { s } else { comp[x] });
    let rk = ranks(rank);
    let rk2 = ranks(new_rank);
    assert(node_ok(parent, comp, rk, a));
    assert(node_ok(parent, comp, rk, b));
    assert(0 <= s < n && 0 <= t < n);
    assert(node_ok(parent, comp, rk, s));
    assert(node_ok(parent, comp, rk, t));
    assert(comp[s] == s && comp[t] == t);
    // sizes
    lemma_class_finite(parent, comp, s);
    lemma_class_finite(parent, comp, t);
    assert(class_of(p2, c2, s) =~= class_of(parent, comp, s).union(class_of(parent, comp, t)));
    lemma_len_disjoint_union(class_of(parent, comp, s), class_of(parent, comp, t));
    lemma_class_finite(p2, c2, s);
    // the new rank of s stays below 64
    assert(pow2(rank[s] as nat) <= class_of(parent, comp, s).len());
    assert(pow2(rank[t] as nat) <= class_of(parent, comp, t).len());
    assert(pow2(new_rank[s] as nat) <= class_of(p2, c2, s).len()) by {
        if rank[t] == rank[s] {
            lemma_pow2_unfold((rank[s] + 1) as nat);
        }
    }
    assert(new_rank[s] < 64) by {
        lemma2_to64();
        if new_rank[s] >= 64 {
            if new_rank[s] > 64 {
                lemma_pow2_strictly_increases(64, new_rank[s] as nat);
            }
            assert(class_of(p2, c2, s).len() <= n);
            assert(n <= usize::MAX);
        }
    }
    // the forest
    assert forall|y: int| 0 <= y < p2.len() && born(p2, y) implies #[trigger] node_ok(p2, c2, rk2, y) by {
        assert(node_ok(parent, comp, rk, y));
        let py = parent[y] as int;
        assert(node_ok(parent, comp, rk, py));
        if y == t {
        } else if comp[y] == t {
            assert(rk[y] < rk[t]);
        } else {
            assert(comp[y] != t);
        }
    }
    assert(forest(p2, c2, rk2));
    // every pixel still reaches its root
    assert(reach(born_mask(parent), w, h, a, comp[a]));
    assert(reach(born_mask(parent), w, h, b, comp[b]));
    assert(born_mask(p2) =~= born_mask(parent));
    let m = born_mask(parent);
    assert(reach(m, w, h, t, s)) by {
        lemma_reach_symmetric(m, w, h, a, comp[a]);
        lemma_reach_symmetric(m, w, h, b, comp[b]);
        lemma_adjacent_symmetric(w, h, a, b);
        lemma_reach_refl(m, w, h, a);
        lemma_reach_step(m, w, h, a, a, b);
        lemma_reach_refl(m, w, h, b);
        lemma_reach_step(m, w, h, b, b, a);
        if t == comp[b] {
            // t -> b -> a -> s
            lemma_reach_trans(m, w, h, comp[b], b, a);
            lemma_reach_trans(m, w, h, comp[b], a, comp[a]);
        } else {
            lemma_reach_trans(m, w, h, comp[a], a, b);
            lemma_reach_trans(m, w, h, comp[a], b, comp[b]);
        }
    }
    assert forall|y: int| 0 <= y < p2.len() && born(p2, y) implies #[trigger] reach(born_mask(p2), w, h, y, c2[y]) by {
        assert(reach(m, w, h, y, comp[y]));
        if comp[y] == t {
            lemma_reach_trans(m, w, h, y, t, s);
        }
    }
    assert forall|r: int|
        0 <= r < p2.len() && born(p2, r) && c2[r] == r implies pow2(new_rank[r] as nat) <= #[trigger] class_of(
        p2,
        c2,
        r,
    ).len() by {
        if r != s {
            assert(comp[r] == r);
            assert(r != t);
            assert(class_of(p2, c2, r) =~= class_of(parent, comp, r));
        }
    }
    assert forall|x: int| 0 <= x < p2.len() implies #[trigger] new_rank[x] < 64 by {
        if x != s {
            assert(rank[x] < 64);
        }
    }
    assert forall|x: int| 0 <= x < p2.len() && !born(p2, x) implies #[trigger] new_rank[x] == 0 by {
        assert(x != s);
    }
    assert(uf_ok(p2, c2, new_rank, w, h));
    assert(roots_of(p2, c2) =~= roots_of(parent, comp).remove(t));
    assert(born_set(p2) =~= born_set(parent));
    assert(roots_of(parent, comp).contains(t));
}


// ---------------------------------------------------------------------------
// Trees are the connected components
// ---------------------------------------------------------------------------

proof fn lemma_path_same_label(parent: Seq<usize>, comp: Seq<int>, w: int, h: int, path: Seq<int>, i: int)
    requires
        linked_except(parent, comp, w, h, -1),
        is_path(born_mask(parent), w, h, path),
        0 <= i < path.len(),
    ensures
        comp[path[i]] == comp[path[0]],
    decreases i,
{
    if i > 0 {
        lemma_path_same_label(parent, comp, w, h, path, i - 1);
        assert(adjacent(w, h, path[i - 1], path[i]));
        assert(in_mask(born_mask(parent), path[i - 1]));
        assert(in_mask(born_mask(parent), path[i]));
    }
}

/// Two entered pixels share a root exactly when one reaches the other.
pub proof fn lemma_same_root_iff_reach(parent: Seq<usize>, comp: Seq<int>, rank: Seq<u32>, w: int, h: int, x: int, y: int)
    requires
        uf_ok(parent, comp, rank, w, h),
        linked_except(parent, comp, w, h, -1),
        0 <= x < parent.len(),
        0 <= y < parent.len(),
        born(parent, x),
        born(parent, y),
    ensures
        (comp[x] == comp[y]) == reach(born_mask(parent), w, h, x, y),
{
    let m = born_mask(parent);
    if reach(m, w, h, x, y) {
        let path = choose|path: Seq<int>| is_path(m, w, h, path) && path[0] == x && path.last() == y;
        lemma_path_same_label(parent, comp, w, h, path, path.len() - 1);
    }
    if comp[x] == comp[y] {
        assert(reach(m, w, h, x, comp[x]));
        assert(reach(m, w, h, y, comp[y]));
        lemma_reach_symmetric(m, w, h, y, comp[y]);
        lemma_reach_trans(m, w, h, x, comp[x], y);
    }
}

/// The first pixels of the components among the first `k` pixels.
pub open spec fn firsts_below(mask: Seq<bool>, w: int, h: int, k: int) -> Set<int> {
    Set::new(|p: int| 0 <= p < k && is_first_of_component(mask, w, h, p))
}

proof fn lemma_firsts_count(mask: Seq<bool>, w: int, h: int, k: nat)
    ensures
        firsts_below(mask, w, h, k as int).finite(),
        firsts_below(mask, w, h, k as int).len() == count_firsts(mask, w, h, k),
    decreases k,
{
    if k == 0 {
        assert(firsts_below(mask, w, h, 0) =~= Set::<int>::empty());
    } else {
        lemma_firsts_count(mask, w, h, (k - 1) as nat);
        if is_first_of_component(mask, w, h, k - 1) {
            assert(firsts_below(mask, w, h, k as int) =~= firsts_below(mask, w, h, k - 1).insert(k - 1));
        } else {
            assert(firsts_below(mask, w, h, k as int) =~= firsts_below(mask, w, h, k - 1));
        }
    }
}

/// A nonempty set of pixels below `k` has a smallest element.
proof fn lemma_has_min(s: Set<int>, k: int) -> (m: int)
    requires
        exists|x: int| s.contains(x),
        forall|x: int| s.contains(x) ==> 0 <= x < k,
    ensures
        s.contains(m),
        forall|x: int| s.contains(x) ==> m <= x,
    decreases k,
{
    if exists|x: int| s.contains(x) && x < k - 1 {
        let s2 = s.filter(|x: int| x < k - 1);
        assert(exists|x: int| s2.contains(x)) by {
            let x = choose|x: int| s.contains(x) && x < k - 1;
            assert(s2.contains(x));
        }
        let m = lemma_has_min(s2, k - 1);
        assert forall|x: int| s.contains(x) implies m <= x by {
            if x < k - 1 {
                assert(s2.contains(x));
            }
        }
        m
    } else {
        let x = choose|x: int| s.contains(x);
        assert(x == k - 1);
        x
    }
}

/// When every set pixel has entered and neighbours share their labels, the
/// trees are exactly the connected components.
pub proof fn lemma_roots_count_components(parent: Seq<usize>, comp: Seq<int>, rank: Seq<u32>, w: int, h: int)
    requires
        uf_ok(parent, comp, rank, w, h),
        linked_except(parent, comp, w, h, -1),
    ensures
        roots_of(parent, comp).len() == count_firsts(born_mask(parent), w, h, parent.len()),
{
    let n = parent.len() as int;
    let m = born_mask(parent);
    let f = firsts_below(m, w, h, n);
    let r = roots_of(parent, comp);
    lemma_firsts_count(m, w, h, parent.len());
    let g = |p: int| comp[p];
    assert(injective_on(g, f)) by {
        assert forall|p: int, q: int| f.contains(p) && f.contains(q) && #[trigger] g(p) == #[trigger] g(q) implies p == q by {
            assert(in_mask(m, p) && in_mask(m, q));
            lemma_same_root_iff_reach(parent, comp, rank, w, h, p, q);
            lemma_same_root_iff_reach(parent, comp, rank, w, h, q, p);
            if p < q {
                assert(!reach(m, w, h, p, q));
            } else if q < p {
                assert(!reach(m, w, h, q, p));
            }
        }
    }
    assert(f.map(g) =~= r) by {
        assert forall|x: int| f.map(g).contains(x) implies r.contains(x) by {
            let p = choose|p: int| f.contains(p) && g(p) == x;
            assert(in_mask(m, p));
            assert(node_ok(parent, comp, ranks(rank), p));
            let c = comp[p];
            assert(node_ok(parent, comp, ranks(rank), c));
        }
        assert forall|x: int| r.contains(x) implies f.map(g).contains(x) by {
            let cls = class_of(parent, comp, x);
            assert(cls.contains(x));
            let mn = lemma_has_min(cls, n);
            assert forall|j: int| 0 <= j < mn implies !#[trigger] reach(m, w, h, j, mn) by {
                if reach(m, w, h, j, mn) {
                    let path = choose|path: Seq<int>| is_path(m, w, h, path) && path[0] == j && path.last() == mn;
                    assert(in_mask(m, path[0]));
                    lemma_same_root_iff_reach(parent, comp, rank, w, h, j, mn);
                    assert(cls.contains(j));
                }
            }
            assert(is_first_of_component(m, w, h, mn));
            assert(f.contains(mn));
            assert(g(mn) == x);
        }
    }
    lemma_map_size(f, r, g);
}

} // verus!
