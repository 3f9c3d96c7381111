use particles::cell::{Cell, OBJECTS_PER_CELL};
use particles::grid::Grid;
use particles::{Placement, CELLS_HEIGHT, CELLS_WIDTH, NUM_CELLS};

fn place(id: usize, cell_x: usize, cell_y: usize) -> Placement {
    Placement { id, cell_x, cell_y }
}

#[test]
fn cell_lists_objects_in_order() {
    let mut c = Cell::new();
    assert_eq!(c.count(), 0);
    c.add_object(7);
    c.add_object(3);
    assert_eq!(c.count(), 2);
    assert_eq!(c.object(0), 7);
    assert_eq!(c.object(1), 3);
    c.clear();
    assert_eq!(c.count(), 0);
    c.add_object(9);
    assert_eq!(c.count(), 1);
    assert_eq!(c.object(0), 9);
}

#[test]
fn cell_holds_up_to_capacity() {
    let mut c = Cell::new();
    for i in 0..OBJECTS_PER_CELL {
        c.add_object(i * 10);
    }
    assert_eq!(c.count(), OBJECTS_PER_CELL);
    assert_eq!(c.object(OBJECTS_PER_CELL - 1), (OBJECTS_PER_CELL - 1) * 10);
}

#[test]
fn grid_dimensions_agree() {
    assert_eq!(CELLS_WIDTH, 727);
    assert_eq!(CELLS_HEIGHT, 454);
    assert_eq!(NUM_CELLS, CELLS_WIDTH * CELLS_HEIGHT);
}

#[test]
fn grid_hands_out_consecutive_ids() {
    let mut g = Grid::new();
    assert_eq!(g.object_count(), 0);
    assert_eq!(g.new_object(), 0);
    assert_eq!(g.new_object(), 1);
    assert_eq!(g.new_object(), 2);
    assert_eq!(g.object_count(), 3);
}

#[test]
fn new_grid_examines_no_pairs() {
    let g = Grid::new();
    let all = 0..CELLS_WIDTH;
    assert!(g.neighbours_in_grid(&all));
    assert!(g.solve_collisions(all).is_empty());
}

#[test]
fn grid_pairs_follow_neighbour_order() {
    let mut g = Grid::new();
    let ps = vec![place(0, 5, 7), place(1, 5, 7), place(2, 6, 7)];
    assert!(Grid::placements_fit(&ps));
    g.update_grid(&ps);
    assert!(g.neighbours_in_grid(&(5..6)));
    assert_eq!(g.solve_collisions(5..6), vec![(0, 2), (0, 1), (1, 2), (1, 0)]);
    // Column 6 sees the two objects of column 5 through its left neighbours.
    assert_eq!(g.solve_collisions(6..7), vec![(2, 0), (2, 1)]);
    assert_eq!(g.solve_collisions(4..8), vec![(0, 2), (0, 1), (1, 2), (1, 0), (2, 0), (2, 1)]);
}

#[test]
fn grid_first_column_revisits_its_own_squares() {
    // At column and row 0 the squares to the left and below are the square
    // itself, so it is examined four times.
    let mut g = Grid::new();
    g.update_grid(&vec![place(0, 0, 0), place(1, 0, 0)]);
    let pairs = g.solve_collisions(0..1);
    assert_eq!(pairs, vec![(0, 1), (0, 1), (0, 1), (0, 1), (1, 0), (1, 0), (1, 0), (1, 0)]);
}

#[test]
fn grid_diagonal_neighbours() {
    let mut g = Grid::new();
    g.update_grid(&vec![place(4, 10, 10), place(5, 11, 11), place(6, 9, 9), place(7, 12, 10)]);
    // (11, 11) is the upper right, (9, 9) the lower left neighbour of (10, 10); (12, 10) is too far.
    assert_eq!(g.solve_collisions(10..11), vec![(4, 5), (4, 6)]);
}

#[test]
fn grid_update_replaces_previous_placements() {
    let mut g = Grid::new();
    g.update_grid(&vec![place(0, 3, 3), place(1, 3, 3)]);
    g.update_grid(&vec![place(0, 3, 3), place(1, 8, 8)]);
    assert!(g.solve_collisions(0..CELLS_WIDTH).is_empty());
}

#[test]
fn grid_placements_fit_checks_capacity() {
    let four: Vec<Placement> = (0..4).map(|i| place(i, 2, 2)).collect();
    assert!(Grid::placements_fit(&four));
    let five: Vec<Placement> = (0..5).map(|i| place(i, 2, 2)).collect();
    assert!(!Grid::placements_fit(&five));
    let spread: Vec<Placement> = (0..5).map(|i| place(i, 2, 2 + i / 4)).collect();
    assert!(Grid::placements_fit(&spread));
}

#[test]
fn grid_placements_fit_checks_range() {
    assert!(Grid::placements_fit(&vec![place(0, CELLS_WIDTH - 1, CELLS_HEIGHT - 1)]));
    assert!(!Grid::placements_fit(&vec![place(0, CELLS_WIDTH, 0)]));
    // A row past the top wraps into the next column, as the flat index does.
    assert!(Grid::placements_fit(&vec![place(0, 0, CELLS_HEIGHT)]));
    assert!(!Grid::placements_fit(&vec![place(0, CELLS_WIDTH - 1, CELLS_HEIGHT)]));
    assert!(Grid::placements_fit(&Vec::new()));
}

#[test]
fn grid_flat_index_wraps_rows() {
    // Row CELLS_HEIGHT of column 0 is row 0 of column 1.
    let mut g = Grid::new();
    g.update_grid(&vec![place(0, 0, CELLS_HEIGHT), place(1, 1, 0)]);
    assert_eq!(g.solve_collisions(1..2), vec![(0, 1), (0, 1), (1, 0), (1, 0)]);
}

#[test]
fn grid_neighbours_in_grid_checks_edges() {
    let mut g = Grid::new();
    g.update_grid(&vec![place(0, CELLS_WIDTH - 1, 0)]);
    assert!(!g.neighbours_in_grid(&(CELLS_WIDTH - 1..CELLS_WIDTH)));
    assert!(g.neighbours_in_grid(&(0..CELLS_WIDTH - 1)));
    assert!(!g.neighbours_in_grid(&(0..CELLS_WIDTH + 1)));
    assert!(g.neighbours_in_grid(&(5..2)));
    g.update_grid(&vec![place(0, CELLS_WIDTH - 2, CELLS_HEIGHT - 1)]);
    assert!(!g.neighbours_in_grid(&(0..CELLS_WIDTH - 1)));
    g.update_grid(&vec![place(0, CELLS_WIDTH - 2, CELLS_HEIGHT - 2)]);
    assert!(g.neighbours_in_grid(&(0..CELLS_WIDTH - 1)));
}

#[test]
fn grid_empty_range_examines_nothing() {
    let mut g = Grid::new();
    g.update_grid(&vec![place(0, 3, 3), place(1, 3, 3)]);
    assert!(g.solve_collisions(4..3).is_empty());
    assert!(g.solve_collisions(3..3).is_empty());
}
