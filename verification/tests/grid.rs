use thermal_rs::grid::{CellBox, Grid, KERNEL_SIZE};

fn grid(x_size: usize, y_size: usize, z_size: usize) -> Grid {
    Grid { x_size, y_size, z_size }
}

#[test]
fn index_is_row_major_with_x_fastest() {
    let g = grid(3, 4, 5);
    assert_eq!(g.get_pos_index(0, 0, 0), Some(0));
    assert_eq!(g.get_pos_index(1, 0, 0), Some(1));
    assert_eq!(g.get_pos_index(0, 1, 0), Some(3));
    assert_eq!(g.get_pos_index(0, 0, 1), Some(12));
    assert_eq!(g.get_pos_index(1, 2, 3), Some(1 + 2 * 3 + 3 * 3 * 4));
    assert_eq!(g.get_pos_index(2, 3, 4), Some(59));
}

#[test]
fn index_is_none_outside_on_each_axis() {
    let g = grid(3, 4, 5);
    assert_eq!(g.get_pos_index(3, 0, 0), None);
    assert_eq!(g.get_pos_index(0, 4, 0), None);
    assert_eq!(g.get_pos_index(0, 0, 5), None);
}

#[test]
fn each_coordinate_is_held_to_its_own_axis() {
    let g = grid(3, 4, 5);
    assert_eq!(g.get_pos_index(0, 3, 0), Some(9));
    assert_eq!(g.get_pos_index(0, 0, 4), Some(48));
}

#[test]
fn every_cell_has_its_own_index() {
    let g = grid(2, 3, 4);
    let mut seen = vec![false; 24];
    for z in 0..4 {
        for y in 0..3 {
            for x in 0..2 {
                let i = g.get_pos_index(x, y, z).unwrap();
                assert!(!seen[i]);
                seen[i] = true;
            }
        }
    }
    assert!(seen.iter().all(|s| *s));
}

#[test]
fn cell_count_is_the_product() {
    assert_eq!(grid(3, 4, 5).checked_cell_count(), Some(60));
    assert_eq!(grid(0, 4, 5).checked_cell_count(), Some(0));
    assert_eq!(grid(usize::MAX, usize::MAX, 0).checked_cell_count(), Some(0));
    assert_eq!(grid(usize::MAX, 1, 1).checked_cell_count(), Some(usize::MAX));
}

#[test]
fn cell_count_that_does_not_fit_is_none() {
    assert_eq!(grid(usize::MAX, 2, 1).checked_cell_count(), None);
    assert_eq!(grid(usize::MAX, 1, 2).checked_cell_count(), None);
    assert_eq!(grid(1 << 31, 1 << 31, 1 << 31).checked_cell_count(), None);
}

#[test]
fn signed_index_is_none_for_negative_coordinates() {
    let g = grid(3, 3, 3);
    assert_eq!(g.get_ipos_index(-1, 0, 0), None);
    assert_eq!(g.get_ipos_index(0, -1, 0), None);
    assert_eq!(g.get_ipos_index(0, 0, -1), None);
    assert_eq!(g.get_ipos_index(3, 0, 0), None);
    assert_eq!(g.get_ipos_index(i128::MAX, 0, 0), None);
    assert_eq!(g.get_ipos_index(1, 1, 1), Some(13));
}

#[test]
fn corner_cell_has_three_neighbors() {
    let g = grid(3, 3, 3);
    assert_eq!(g.neighbor_indices(0, 0, 0), vec![1, 3, 9]);
    assert_eq!(g.neighbor_indices(2, 2, 2), vec![25, 23, 17]);
}

#[test]
fn center_cell_has_six_neighbors_in_kernel_order() {
    let g = grid(3, 3, 3);
    assert_eq!(KERNEL_SIZE, 6);
    assert_eq!(g.neighbor_indices(1, 1, 1), vec![14, 16, 22, 12, 10, 4]);
}

#[test]
fn face_and_edge_cells_have_five_and_four_neighbors() {
    let g = grid(3, 3, 3);
    assert_eq!(g.neighbor_indices(1, 1, 0), vec![5, 7, 13, 3, 1]);
    assert_eq!(g.neighbor_indices(1, 0, 0), vec![2, 4, 10, 0]);
}

#[test]
fn single_cell_grid_has_no_neighbors() {
    assert_eq!(grid(1, 1, 1).neighbor_indices(0, 0, 0), Vec::<usize>::new());
}

#[test]
fn neighbors_are_mutual() {
    let g = grid(3, 2, 4);
    for z in 0..4 {
        for y in 0..2 {
            for x in 0..3 {
                let i = g.get_pos_index(x, y, z).unwrap();
                for n in g.neighbor_indices(x, y, z) {
                    let (nx, ny, nz) = (n % 3, (n / 3) % 2, n / 6);
                    assert!(g.neighbor_indices(nx, ny, nz).contains(&i));
                }
            }
        }
    }
}

#[test]
fn box_contains_its_corners_and_nothing_beyond() {
    let b = CellBox { min: (1, 2, 3), max: (4, 5, 6) };
    assert!(b.contains_cell((1, 2, 3)));
    assert!(b.contains_cell((4, 5, 6)));
    assert!(b.contains_cell((2, 5, 3)));
    assert!(!b.contains_cell((0, 2, 3)));
    assert!(!b.contains_cell((5, 5, 6)));
    assert!(!b.contains_cell((1, 1, 3)));
    assert!(!b.contains_cell((1, 6, 3)));
    assert!(!b.contains_cell((1, 2, 2)));
    assert!(!b.contains_cell((1, 2, 7)));
}

#[test]
fn boxes_overlap_when_all_three_intervals_do() {
    let a = CellBox { min: (0, 0, 0), max: (3, 3, 3) };
    assert!(a.overlaps(&CellBox { min: (3, 3, 3), max: (5, 5, 5) }));
    assert!(a.overlaps(&CellBox { min: (1, 1, 1), max: (2, 2, 2) }));
    assert!(!a.overlaps(&CellBox { min: (4, 0, 0), max: (5, 3, 3) }));
    assert!(!a.overlaps(&CellBox { min: (0, 4, 0), max: (3, 5, 3) }));
    assert!(!a.overlaps(&CellBox { min: (0, 0, 4), max: (3, 3, 5) }));
    assert!(CellBox { min: (4, 0, 0), max: (5, 3, 3) }.overlaps(&CellBox {
        min: (5, 3, 3),
        max: (9, 9, 9)
    }));
}
