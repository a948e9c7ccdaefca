use algorithms::percolation::{
    coord_to_idx, get_color, is_white, neighbour, percolates, set_sym_white, set_white, Coords,
    Dir, Grid, Simulation, Square, CELLS, L,
};
use algorithms::union_find::pc_quick_union;

#[test]
fn grid_constants() {
    assert_eq!(L, 20);
    assert_eq!(CELLS, L * L);
}

#[test]
fn colours() {
    assert!(is_white(Square::White));
    assert!(!is_white(Square::Black));
    let mut grid = Grid::new();
    assert_eq!(get_color(&grid, &Coords(3, 4)), Square::Black);
    set_white(&mut grid, &Coords(3, 4));
    assert_eq!(get_color(&grid, &Coords(3, 4)), Square::White);
    assert_eq!(get_color(&grid, &Coords(4, 3)), Square::Black);
}

#[test]
fn neighbours_stop_at_the_border() {
    assert_eq!(neighbour(&Coords(0, 0), &Dir::Left), Coords(0, 0));
    assert_eq!(neighbour(&Coords(0, 0), &Dir::Up), Coords(0, 0));
    assert_eq!(neighbour(&Coords(0, 0), &Dir::Right), Coords(1, 0));
    assert_eq!(neighbour(&Coords(0, 0), &Dir::Down), Coords(0, 1));
    assert_eq!(neighbour(&Coords(19, 19), &Dir::Right), Coords(19, 19));
    assert_eq!(neighbour(&Coords(19, 19), &Dir::Down), Coords(19, 19));
    assert_eq!(neighbour(&Coords(19, 19), &Dir::Left), Coords(18, 19));
    assert_eq!(neighbour(&Coords(19, 19), &Dir::Up), Coords(19, 18));
    assert_eq!(neighbour(&Coords(5, 7), &Dir::Left), Coords(4, 7));
    assert_eq!(neighbour(&Coords(5, 7), &Dir::Right), Coords(6, 7));
    assert_eq!(neighbour(&Coords(5, 7), &Dir::Up), Coords(5, 6));
    assert_eq!(neighbour(&Coords(5, 7), &Dir::Down), Coords(5, 8));
}

#[test]
fn indices_are_dense() {
    assert_eq!(coord_to_idx(&Coords(0, 0)), 0);
    assert_eq!(coord_to_idx(&Coords(3, 0)), 3);
    assert_eq!(coord_to_idx(&Coords(0, 1)), 20);
    assert_eq!(coord_to_idx(&Coords(5, 7)), 145);
    assert_eq!(coord_to_idx(&Coords(19, 19)), 399);
    let mut seen = vec![false; CELLS];
    for a in 0..L {
        for b in 0..L {
            let idx = coord_to_idx(&Coords(a, b));
            assert!(!seen[idx]);
            seen[idx] = true;
        }
    }
    assert!(seen.iter().all(|&s| s));
}

#[test]
fn white_squares_join_their_white_neighbours() {
    let mut grid = Grid::new();
    let mut sets = pc_quick_union::new(CELLS);
    set_sym_white(&mut grid, &mut sets, &Coords(4, 4));
    set_sym_white(&mut grid, &mut sets, &Coords(6, 4));
    let a = coord_to_idx(&Coords(4, 4));
    let b = coord_to_idx(&Coords(5, 4));
    let c = coord_to_idx(&Coords(6, 4));
    assert!(!pc_quick_union::connected(&mut sets, a, c));
    set_sym_white(&mut grid, &mut sets, &Coords(5, 4));
    assert!(pc_quick_union::connected(&mut sets, a, b));
    assert!(pc_quick_union::connected(&mut sets, a, c));
    // a diagonal neighbour does not count
    set_sym_white(&mut grid, &mut sets, &Coords(7, 5));
    let d = coord_to_idx(&Coords(7, 5));
    assert!(!pc_quick_union::connected(&mut sets, c, d));
}

#[test]
fn a_white_line_from_first_to_last_row_percolates() {
    let mut grid = Grid::new();
    let mut sets = pc_quick_union::new(CELLS);
    for row in 0..L {
        assert!(!percolates(&grid, &mut sets));
        set_sym_white(&mut grid, &mut sets, &Coords(row, 7));
    }
    assert!(percolates(&grid, &mut sets));
}

#[test]
fn a_white_first_and_last_row_alone_do_not_percolate() {
    let mut grid = Grid::new();
    let mut sets = pc_quick_union::new(CELLS);
    for place in 0..L {
        set_sym_white(&mut grid, &mut sets, &Coords(0, place));
        set_sym_white(&mut grid, &mut sets, &Coords(L - 1, place));
    }
    assert!(!percolates(&grid, &mut sets));
}

#[test]
fn simulation_ends_when_the_grid_percolates() {
    let mut sim = Simulation::new();
    assert_eq!(sim.opened, 0);
    for row in 0..L {
        let coords = Coords(row, 3);
        assert!(sim.is_candidate(&coords));
        let done = sim.open(&coords);
        assert!(!sim.is_candidate(&coords));
        assert_eq!(done, row == L - 1);
    }
    assert_eq!(sim.opened, L);
}
