use torus::observer::depth_topology::{
    count_components, count_interior_components, flip, mask_topology, persistence_h0,
};
use torus::observer::union_find::find;

fn ring_mask() -> Vec<bool> {
    // 6×6 image: a one-pixel ring around a 2×2 hole, with a one-pixel margin
    let mut m = vec![false; 36];
    for x in 1..5 {
        m[6 + x] = true;
        m[4 * 6 + x] = true;
    }
    for y in 1..5 {
        m[y * 6 + 1] = true;
        m[y * 6 + 4] = true;
    }
    m
}

#[test]
fn counts_components_of_ring() {
    let m = ring_mask();
    assert_eq!(count_components(&m, 6, 6), 1);
    let bg: Vec<bool> = m.iter().map(|&b| !b).collect();
    // outer margin and inner hole
    assert_eq!(count_components(&bg, 6, 6), 2);
    assert_eq!(count_interior_components(&bg, 6, 6), 1);
    // the ring itself stays off the border
    assert_eq!(count_interior_components(&m, 6, 6), 1);
}

#[test]
fn diagonal_pixels_are_separate() {
    let m = vec![true, false, false, true];
    assert_eq!(count_components(&m, 2, 2), 2);
}

#[test]
fn empty_and_full_images() {
    assert_eq!(count_components(&[], 0, 0), 0);
    assert_eq!(count_components(&[false; 9], 3, 3), 0);
    assert_eq!(count_components(&[true; 9], 3, 3), 1);
    assert_eq!(count_interior_components(&[true; 9], 3, 3), 0);
    assert_eq!(count_interior_components(&[], 0, 1), 0);
}

#[test]
fn single_interior_pixel() {
    let mut m = vec![false; 9];
    m[4] = true;
    assert_eq!(count_interior_components(&m, 3, 3), 1);
    assert_eq!(count_components(&m, 3, 3), 1);
}

#[test]
fn row_wrap_is_not_adjacency() {
    // pixel 2 ends row 0 and pixel 3 starts row 1: not neighbours
    let m = vec![false, false, true, true, false, false];
    assert_eq!(count_components(&m, 3, 2), 2);
}

#[test]
fn flip_complements_every_pixel() {
    assert_eq!(flip(&[true, false, false]), vec![false, true, true]);
    assert_eq!(flip(&[]), Vec::<bool>::new());
}

#[test]
fn ring_mask_topology() {
    let t = mask_topology(&ring_mask(), 6, 6);
    assert_eq!(t.fg_components, 1);
    assert_eq!(t.bg_components, 2);
    assert_eq!(t.b1_estimate, 1);
}

#[test]
fn solid_square_has_no_hole() {
    let mut m = vec![false; 36];
    for y in 1..5 {
        for x in 1..5 {
            m[y * 6 + x] = true;
        }
    }
    let t = mask_topology(&m, 6, 6);
    assert_eq!(t.fg_components, 1);
    assert_eq!(t.bg_components, 1);
    assert_eq!(t.b1_estimate, 0);
}

#[test]
fn find_compresses_the_path() {
    let mut parent = vec![0, 0, 1, 2];
    assert_eq!(find(3, &mut parent), 0);
    assert_eq!(parent, vec![0, 0, 0, 0]);
    assert_eq!(find(0, &mut parent), 0);
}

#[test]
fn persistence_follows_the_sublevel_order() {
    // levels 0, 2, 1 on a row: pixels 0 and 2 are born first, pixel 1 joins both
    let pairs = persistence_h0(&[0, 2, 1], &[true, true, true], 3, 1);
    assert_eq!(pairs.len(), 2);
    assert_eq!((pairs[0].birth, pairs[0].death, pairs[0].dimension), (1, 1, 0));
    assert_eq!((pairs[1].birth, pairs[1].death, pairs[1].dimension), (2, 1, 0));
}

#[test]
fn persistence_skips_pixels_that_are_not_finite() {
    let pairs = persistence_h0(&[0, 0, 0], &[true, false, true], 3, 1);
    assert!(pairs.is_empty());
    // one component born per finite pixel, all but one die: 4 pixels, 3 pairs
    let pairs = persistence_h0(&[3, 1, 2, 0], &[true; 4], 2, 2);
    assert_eq!(pairs.len(), 3);
    for p in &pairs {
        assert_eq!(p.dimension, 0);
    }
}

/// Threshold a depth map at `n_thresholds` levels between its extremes and
/// return the largest hole count.
fn max_holes(depth: &[f32], width: usize, height: usize, n_thresholds: usize) -> usize {
    let min_d = depth.iter().copied().fold(f32::MAX, f32::min);
    let max_d = depth.iter().copied().fold(f32::MIN, f32::max);
    let mut best = 0;
    for i in 0..n_thresholds {
        let t = min_d + (max_d - min_d) * (i as f32 + 0.5) / n_thresholds as f32;
        let binary: Vec<bool> = depth.iter().map(|&d| d.is_finite() && d < t).collect();
        let topo = mask_topology(&binary, width, height);
        best = best.max(topo.b1_estimate);
    }
    best
}

#[test]
fn ring_depth_map_shows_a_hole() {
    let mut depth = vec![1.0f32; 100];
    for x in 2..8 {
        depth[2 * 10 + x] = 0.5;
        depth[7 * 10 + x] = 0.5;
    }
    for y in 2..8 {
        depth[y * 10 + 2] = 0.5;
        depth[y * 10 + 7] = 0.5;
    }
    for y in 3..7 {
        for x in 3..7 {
            depth[y * 10 + x] = 2.0;
        }
    }
    assert!(max_holes(&depth, 10, 10, 5) >= 1);
}

#[test]
fn solid_disk_depth_map_shows_no_hole() {
    let mut depth = vec![2.0f32; 100];
    for y in 2..8 {
        for x in 2..8 {
            depth[y * 10 + x] = 0.5;
        }
    }
    assert_eq!(max_holes(&depth, 10, 10, 5), 0);
}

#[test]
fn find_leaves_other_trees_alone() {
    let mut parent = vec![0, 0, 1, 2, 4, 4];
    assert_eq!(find(3, &mut parent), 0);
    assert_eq!(parent, vec![0, 0, 0, 0, 4, 4]);
}
