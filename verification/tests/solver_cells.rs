use particles::grid::Grid;
use particles::solver::Solver;
use particles::{Placement, CELLS_HEIGHT, CELLS_WIDTH};

fn place(id: usize, cell_x: usize, cell_y: usize) -> Placement {
    Placement { id, cell_x, cell_y }
}

#[test]
fn solver_hands_out_consecutive_ids() {
    let mut s = Solver::new();
    assert_eq!(s.object_count(), 0);
    assert_eq!(s.new_object(), 0);
    assert_eq!(s.new_object(), 1);
    assert_eq!(s.object_count(), 2);
}

#[test]
fn new_solver_examines_no_pairs() {
    let s = Solver::new();
    assert!(s.solve_collisions(0..CELLS_WIDTH).is_empty());
}

#[test]
fn solver_cells_are_unbounded() {
    let mut s = Solver::new();
    let ps: Vec<Placement> = (0..6).map(|i| place(i, 4, 4)).collect();
    assert!(Solver::placements_in_grid(&ps));
    s.set_cells(&ps);
    let pairs = s.solve_collisions(4..5);
    // Each of the six objects meets the five others once, through its own square.
    assert_eq!(pairs.len(), 30);
    assert_eq!(&pairs[0..5], &[(0, 1), (0, 2), (0, 3), (0, 4), (0, 5)]);
}

#[test]
fn solver_pairs_follow_neighbour_order() {
    let mut s = Solver::new();
    s.set_cells(&vec![place(0, 5, 7), place(1, 5, 7), place(2, 6, 7)]);
    assert_eq!(s.solve_collisions(5..6), vec![(0, 2), (0, 1), (1, 2), (1, 0)]);
    assert_eq!(s.solve_collisions(6..7), vec![(2, 0), (2, 1)]);
}

#[test]
fn solver_first_column_revisits_its_own_squares() {
    let mut s = Solver::new();
    s.set_cells(&vec![place(0, 0, 0), place(1, 0, 0)]);
    assert_eq!(
        s.solve_collisions(0..1),
        vec![(0, 1), (0, 1), (0, 1), (0, 1), (1, 0), (1, 0), (1, 0), (1, 0)]
    );
}

#[test]
fn solver_set_cells_replaces_previous_placements() {
    let mut s = Solver::new();
    s.set_cells(&vec![place(0, 3, 3), place(1, 3, 3)]);
    s.set_cells(&vec![place(0, 3, 3), place(1, 8, 8)]);
    assert!(s.solve_collisions(0..CELLS_WIDTH).is_empty());
}

#[test]
fn solver_placements_in_grid_checks_each_coordinate() {
    assert!(Solver::placements_in_grid(&vec![place(0, CELLS_WIDTH - 1, CELLS_HEIGHT - 1)]));
    assert!(!Solver::placements_in_grid(&vec![place(0, CELLS_WIDTH, 0)]));
    // Unlike the flat grid, a row past the top is refused.
    assert!(!Solver::placements_in_grid(&vec![place(0, 0, CELLS_HEIGHT)]));
}

#[test]
fn solver_neighbours_in_grid_checks_edges() {
    let mut s = Solver::new();
    s.set_cells(&vec![place(0, 3, CELLS_HEIGHT - 1)]);
    assert!(!s.neighbours_in_grid(&(3..4)));
    assert!(s.neighbours_in_grid(&(4..CELLS_WIDTH)));
    s.set_cells(&vec![place(0, CELLS_WIDTH - 1, 3)]);
    assert!(!s.neighbours_in_grid(&(0..CELLS_WIDTH)));
    assert!(s.neighbours_in_grid(&(0..CELLS_WIDTH - 1)));
    assert!(!s.neighbours_in_grid(&(0..CELLS_WIDTH + 1)));
}

#[test]
fn solver_and_grid_examine_the_same_pairs() {
    let ps = vec![
        place(0, 5, 7),
        place(1, 5, 7),
        place(2, 6, 8),
        place(3, 4, 6),
        place(4, 0, 0),
        place(5, 1, 1),
        place(6, 100, 200),
        place(7, 101, 200),
    ];
    let mut s = Solver::new();
    s.set_cells(&ps);
    let mut g = Grid::new();
    assert!(Grid::placements_fit(&ps));
    g.update_grid(&ps);
    let all = 0..CELLS_WIDTH - 1;
    assert!(s.neighbours_in_grid(&all));
    let pairs = s.solve_collisions(all.clone());
    assert!(!pairs.is_empty());
    assert_eq!(g.solve_collisions(all), pairs);
}
