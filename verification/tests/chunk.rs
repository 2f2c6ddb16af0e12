use thermal_rs::chunk::{indices_in, ChunkLayout};
use thermal_rs::grid::{CellBox, Grid};

fn grid(x_size: usize, y_size: usize, z_size: usize) -> Grid {
    Grid { x_size, y_size, z_size }
}

#[test]
fn layout_needs_a_positive_edge_and_an_addressable_grid() {
    assert!(ChunkLayout::new(grid(3, 3, 3), 0).is_none());
    assert!(ChunkLayout::new(grid(usize::MAX, 2, 1), 4).is_none());
    assert!(ChunkLayout::new(grid(3, 3, 3), 1).is_some());
    assert!(ChunkLayout::new(grid(0, 0, 0), 1).is_some());
}

#[test]
fn chunk_count_rounds_up_on_each_axis() {
    assert_eq!(ChunkLayout::new(grid(3, 3, 3), 2).unwrap().len(), 8);
    assert_eq!(ChunkLayout::new(grid(4, 4, 4), 2).unwrap().len(), 8);
    assert_eq!(ChunkLayout::new(grid(5, 4, 1), 2).unwrap().len(), 3 * 2 * 1);
    assert_eq!(ChunkLayout::new(grid(3, 3, 3), 3).unwrap().len(), 1);
    assert_eq!(ChunkLayout::new(grid(3, 3, 3), 100).unwrap().len(), 1);
    assert_eq!(ChunkLayout::new(grid(3, 3, 3), usize::MAX).unwrap().len(), 1);
    assert_eq!(ChunkLayout::new(grid(3, 3, 3), 1).unwrap().len(), 27);
}

#[test]
fn empty_grid_has_no_chunks() {
    assert_eq!(ChunkLayout::new(grid(0, 3, 3), 2).unwrap().len(), 0);
    assert_eq!(ChunkLayout::new(grid(3, 0, 3), 2).unwrap().len(), 0);
    assert_eq!(ChunkLayout::new(grid(3, 3, 0), 2).unwrap().len(), 0);
    assert_eq!(ChunkLayout::new(grid(usize::MAX, usize::MAX, 0), 1).unwrap().len(), 0);
}

#[test]
fn chunks_are_numbered_z_fastest_then_y_then_x() {
    let layout = ChunkLayout::new(grid(3, 3, 3), 2).unwrap();
    assert_eq!(layout.chunk(0), CellBox { min: (0, 0, 0), max: (1, 1, 1) });
    assert_eq!(layout.chunk(1), CellBox { min: (0, 0, 2), max: (1, 1, 2) });
    assert_eq!(layout.chunk(2), CellBox { min: (0, 2, 0), max: (1, 2, 1) });
    assert_eq!(layout.chunk(3), CellBox { min: (0, 2, 2), max: (1, 2, 2) });
    assert_eq!(layout.chunk(4), CellBox { min: (2, 0, 0), max: (2, 1, 1) });
    assert_eq!(layout.chunk(7), CellBox { min: (2, 2, 2), max: (2, 2, 2) });
}

#[test]
fn last_chunk_holds_the_remainder() {
    let layout = ChunkLayout::new(grid(10, 1, 1), 4).unwrap();
    assert_eq!(layout.len(), 3);
    assert_eq!(layout.chunk(0), CellBox { min: (0, 0, 0), max: (3, 0, 0) });
    assert_eq!(layout.chunk(1), CellBox { min: (4, 0, 0), max: (7, 0, 0) });
    assert_eq!(layout.chunk(2), CellBox { min: (8, 0, 0), max: (9, 0, 0) });
}

#[test]
fn even_division_leaves_no_empty_chunk() {
    let layout = ChunkLayout::new(grid(8, 1, 1), 4).unwrap();
    assert_eq!(layout.len(), 2);
    assert_eq!(layout.chunk(1), CellBox { min: (4, 0, 0), max: (7, 0, 0) });
}

#[test]
fn indices_of_a_box_follow_its_row_major_order() {
    let g = grid(3, 3, 3);
    let b = CellBox { min: (1, 1, 0), max: (2, 2, 1) };
    assert_eq!(indices_in(&g, &b), vec![4, 5, 7, 8, 13, 14, 16, 17]);
}

#[test]
fn chunk_indices_are_those_of_its_box() {
    let layout = ChunkLayout::new(grid(3, 3, 3), 2).unwrap();
    assert_eq!(layout.cell_indices(0), vec![0, 1, 3, 4, 9, 10, 12, 13]);
    assert_eq!(layout.cell_indices(1), vec![18, 19, 21, 22]);
    assert_eq!(layout.cell_indices(7), vec![26]);
}

fn assert_shares_out(g: Grid, chunk_size: usize) {
    let layout = ChunkLayout::new(g, chunk_size).unwrap();
    let count = g.checked_cell_count().unwrap();
    let mut written = vec![0u32; count];
    for k in 0..layout.len() {
        let indices = layout.cell_indices(k);
        assert!(!indices.is_empty());
        for i in indices {
            written[i] += 1;
        }
    }
    assert!(written.iter().all(|n| *n == 1));
}

#[test]
fn every_cell_belongs_to_exactly_one_chunk() {
    for chunk_size in [1, 2, 3, 4, 5, 7, 64] {
        assert_shares_out(grid(3, 3, 3), chunk_size);
        assert_shares_out(grid(5, 4, 7), chunk_size);
        assert_shares_out(grid(8, 8, 1), chunk_size);
        assert_shares_out(grid(1, 1, 9), chunk_size);
    }
}
