use torus::universe::topology::{
    betti_numbers, column_reduce_rank_z2, cubical_boundaries, homology_groups, verify_d_squared_zero,
    xor_sorted,
};

#[test]
fn single_cube_betti() {
    let occ = vec![(0, 0, 0)];
    let (b0, b1, b2) = betti_numbers(&occ);
    assert_eq!(b0, 1, "single cube: β₀ should be 1");
    assert_eq!(b1, 0, "single cube: β₁ should be 0");
    assert_eq!(b2, 0, "single cube: β₂ should be 0");
}

#[test]
fn two_disconnected_cubes_betti() {
    let occ = vec![(0, 0, 0), (5, 5, 5)];
    let (b0, b1, _) = betti_numbers(&occ);
    assert_eq!(b0, 2, "two disconnected: β₀ should be 2");
    assert_eq!(b1, 0, "two disconnected: β₁ should be 0");
}

#[test]
fn line_of_cubes_betti() {
    let occ = vec![(0, 0, 0), (1, 0, 0), (2, 0, 0)];
    let (b0, b1, _) = betti_numbers(&occ);
    assert_eq!(b0, 1, "line: β₀ should be 1");
    assert_eq!(b1, 0, "line: β₁ should be 0");
}

#[test]
fn ring_of_cubes_betti() {
    // Square ring in XY plane: should have β₁ = 1 (one hole)
    //  ###
    //  # #
    //  ###
    let occ = vec![
        (0, 0, 0), (1, 0, 0), (2, 0, 0),
        (0, 1, 0),            (2, 1, 0),
        (0, 2, 0), (1, 2, 0), (2, 2, 0),
    ];
    let (b0, b1, b2) = betti_numbers(&occ);
    assert_eq!(b0, 1, "ring: β₀ should be 1");
    assert_eq!(b1, 1, "ring: β₁ should be 1 (one hole)");
    assert_eq!(b2, 0, "ring: β₂ should be 0");
}

#[test]
fn hollow_cube_has_a_cavity() {
    // 3×3×3 block with the centre voxel removed: one enclosed void, β₂ = 1.
    let mut occ = Vec::new();
    for z in 0..3usize {
        for y in 0..3usize {
            for x in 0..3usize {
                if (x, y, z) != (1, 1, 1) {
                    occ.push((x, y, z));
                }
            }
        }
    }
    assert_eq!(betti_numbers(&occ), (1, 0, 1));
}

#[test]
fn duplicate_voxels_do_not_change_betti() {
    let occ = vec![(3, 4, 5), (3, 4, 5)];
    assert_eq!(betti_numbers(&occ), (1, 0, 0));
}

#[test]
fn diagonal_cubes_share_an_edge() {
    // Cubes touching along one edge form one component with no loop.
    let occ = vec![(0, 0, 0), (1, 1, 0)];
    assert_eq!(betti_numbers(&occ), (1, 0, 0));
}

#[test]
fn single_cube_complex_counts() {
    let (n0, d1, d2, d3) = cubical_boundaries(&[(0, 0, 0)]);
    assert_eq!(n0, 8);
    assert_eq!(d1.len(), 12);
    assert_eq!(d2.len(), 6);
    assert_eq!(d3.len(), 1);
    // first edge: x-edge at the origin, from vertex 0 to vertex 1
    assert_eq!(d1[0], vec![0, 1]);
    // the XY face at the origin: x-edges 0 and 1, y-edges 4 and 5
    assert_eq!(d2[0], vec![0, 1, 4, 5]);
    assert_eq!(d3[0], vec![0, 1, 2, 3, 4, 5]);
}

#[test]
fn boundary_of_boundary_is_zero_on_ring() {
    let occ = vec![
        (0, 0, 0), (1, 0, 0), (2, 0, 0),
        (0, 1, 0),            (2, 1, 0),
        (0, 2, 0), (1, 2, 0), (2, 2, 0),
    ];
    let (_, d1, d2, d3) = cubical_boundaries(&occ);
    assert!(verify_d_squared_zero(&d1, &d2));
    assert!(verify_d_squared_zero(&d2, &d3));
}

#[test]
fn d_squared_check_detects_nonzero_composition() {
    // ∂ of the single column {0, 1} is {a, b} + {b, c} = {a, c} ≠ 0
    let lower = vec![vec![0, 1], vec![1, 2]];
    let upper = vec![vec![0, 1]];
    assert!(!verify_d_squared_zero(&lower, &upper));
    // indices beyond the lower matrix are ignored
    let upper_out = vec![vec![5]];
    assert!(verify_d_squared_zero(&lower, &upper_out));
}

#[test]
fn xor_sorted_is_symmetric_difference() {
    let mut a = vec![1, 3, 5, 7];
    xor_sorted(&mut a, &[2, 3, 7, 9]);
    assert_eq!(a, vec![1, 2, 5, 9]);
    let mut b: Vec<usize> = vec![];
    xor_sorted(&mut b, &[4]);
    assert_eq!(b, vec![4]);
    let mut c = vec![4, 6];
    xor_sorted(&mut c, &[4, 6]);
    assert!(c.is_empty());
}

#[test]
fn rank_over_z2() {
    // columns {0,1}, {1,2}, {0,2}: the third is the sum of the first two
    let cols = vec![vec![0, 1], vec![1, 2], vec![0, 2]];
    assert_eq!(column_reduce_rank_z2(&cols, 3), 2);
    let empty: Vec<Vec<usize>> = vec![vec![], vec![]];
    assert_eq!(column_reduce_rank_z2(&empty, 0), 0);
    let identity = vec![vec![0], vec![1], vec![2], vec![3]];
    assert_eq!(column_reduce_rank_z2(&identity, 4), 4);
    let repeated = vec![vec![2, 5], vec![2, 5]];
    assert_eq!(column_reduce_rank_z2(&repeated, 6), 1);
}

#[test]
fn homology_of_nothing_is_zero() {
    let h = homology_groups(&[]);
    assert_eq!(h.beta, vec![0, 0, 0]);
    assert!(h.d_squared_zero);
}

#[test]
fn homology_of_ring() {
    let occ = vec![
        (0, 0, 0), (1, 0, 0), (2, 0, 0),
        (0, 1, 0),            (2, 1, 0),
        (0, 2, 0), (1, 2, 0), (2, 2, 0),
    ];
    let h = homology_groups(&occ);
    assert_eq!(h.beta, vec![1, 1, 0]);
    assert!(h.d_squared_zero);
}

fn ring() -> Vec<(usize, usize, usize)> {
    vec![
        (0, 0, 0), (1, 0, 0), (2, 0, 0),
        (0, 1, 0), (2, 1, 0),
        (0, 2, 0), (1, 2, 0), (2, 2, 0),
    ]
}

#[test]
fn betti_ignores_order_repeats_and_offset() {
    let base = betti_numbers(&ring());
    let mut reordered = ring();
    reordered.reverse();
    reordered.push((1, 0, 0));
    reordered.insert(0, (2, 2, 0));
    assert_eq!(betti_numbers(&reordered), base);
    let moved: Vec<(usize, usize, usize)> =
        reordered.iter().map(|&(x, y, z)| (x + 5, y + 3, z + 7)).collect();
    assert_eq!(betti_numbers(&moved), base);
}

#[test]
fn rank_ignores_permutation_and_dependent_columns() {
    let cols = vec![vec![0, 1], vec![1, 2], vec![0, 3]];
    let r = column_reduce_rank_z2(&cols, 4);
    assert_eq!(r, 3);
    // permuted, a copy, and the sum of the first two columns
    let cols2 = vec![vec![0, 3], vec![0, 1], vec![0, 2], vec![1, 2], vec![0, 1]];
    assert_eq!(column_reduce_rank_z2(&cols2, 4), r);
}
