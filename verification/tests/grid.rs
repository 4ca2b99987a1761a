use torus::universe::grid::VoxelGrid;
use torus::universe::photon::{cell_index, PhotonGrid};

#[test]
fn new_grid_is_empty() {
    let g = VoxelGrid::new(3);
    assert_eq!(g.solid.len(), 27);
    assert_eq!(g.material.len(), 27);
    assert_eq!(g.count_occupied(0), 0);
    assert!(g.occupied_indices(None).is_empty());
}

#[test]
fn index_is_x_fastest() {
    let g = VoxelGrid::new(4);
    assert_eq!(g.index(0, 0, 0), 0);
    assert_eq!(g.index(1, 2, 3), 3 * 16 + 2 * 4 + 1);
    assert_eq!(g.index(3, 3, 3), 63);
}

#[test]
fn set_cells_are_listed_in_index_order() {
    let mut g = VoxelGrid::new(2);
    g.set_cell(1, 0, 1, true, 1);
    g.set_cell(0, 1, 0, true, 2);
    g.set_cell(1, 1, 1, false, 1);
    assert!(g.is_occupied(1, 0, 1));
    assert!(g.is_occupied(0, 1, 0));
    assert!(!g.is_occupied(1, 1, 1));
    assert_eq!(g.material[g.index(1, 1, 1)], 1);
    assert_eq!(g.occupied_indices(None), vec![(0, 1, 0), (1, 0, 1)]);
    assert_eq!(g.occupied_indices(Some(1)), vec![(1, 0, 1)]);
    assert_eq!(g.occupied_indices(Some(2)), vec![(0, 1, 0)]);
    assert_eq!(g.occupied_indices(Some(7)), Vec::<(usize, usize, usize)>::new());
    assert_eq!(g.count_occupied(1), 1);
    assert_eq!(g.count_occupied(2), 1);
    assert_eq!(g.count_occupied(0), 0);
}

#[test]
fn cell_index_inside_and_outside() {
    assert_eq!(cell_index((1, 2, 3), 4), Some(57));
    assert_eq!(cell_index((0, 0, 0), 4), Some(0));
    assert_eq!(cell_index((4, 0, 0), 4), None);
    assert_eq!(cell_index((0, 0, 9), 4), None);
}

#[test]
fn photons_are_binned_by_cell() {
    let g = PhotonGrid::bin(2, &[(0, 0, 0), (1, 1, 1), (5, 0, 0), (0, 0, 0)]);
    assert_eq!(g.grid_n, 2);
    assert_eq!(g.cells.len(), 8);
    assert_eq!(g.cells[0], vec![0, 3]);
    assert_eq!(g.cells[7], vec![1]);
    for c in 1..7 {
        assert!(g.cells[c].is_empty());
    }
}

#[test]
fn neighbor_cells_clamp_the_box() {
    let g = PhotonGrid::bin(3, &[]);
    // x in [0, 0], y in [0, 2], z in [1, 1]
    assert_eq!(g.neighbor_cells((-1, 0, 1), (0, 5, 1)), vec![9, 12, 15]);
    // the whole grid, in index order
    let all = g.neighbor_cells((-4, -4, -4), (9, 9, 9));
    assert_eq!(all, (0..27).collect::<Vec<usize>>());
    // an empty box
    assert!(g.neighbor_cells((2, 0, 0), (1, 2, 2)).is_empty());
}
