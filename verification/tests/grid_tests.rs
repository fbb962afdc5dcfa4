use mazes::{Coord, Grid, MazeError, RandomSource};

#[test]
fn initializes_grid() {
    let new_grid = Grid::initialize(10, 5).unwrap();
    assert_eq!(10, new_grid.rows);
    assert_eq!(5, new_grid.columns);
    assert_eq!(10, new_grid.grid.len());
    assert_eq!(5, new_grid.grid[0].len());
}

#[test]
fn prepares_grid() {
    let grid_of_cells = Grid::prepare_grid(20, 7);
    assert_eq!(20, grid_of_cells.len());
    assert_eq!(7, grid_of_cells[0].len());
}

#[test]
fn configures_cells() {
    let mut grid = Grid::initialize(10, 5).unwrap();
    let cell_ref = grid.get_cell_ref(0, 0).unwrap();
    assert!(cell_ref.north.is_none());
    grid.configure_cells();

    let cell_ref = grid.get_cell_ref(2, 2).unwrap();

    // Assert that the neighbours exist
    assert!(cell_ref.north.is_some());
    assert!(cell_ref.east.is_some());
    assert!(cell_ref.west.is_some());
    assert!(cell_ref.south.is_some());

    // Assert that the neighbours are correct
    let northern_neighbour = cell_ref.north.unwrap();
    assert_eq!((1, 2), (northern_neighbour.row(), northern_neighbour.column()));
    let eastern_neighbour = cell_ref.east.unwrap();
    assert_eq!((2, 3), (eastern_neighbour.row(), eastern_neighbour.column()));
    let western_neighbour = cell_ref.west.unwrap();
    assert_eq!((2, 1), (western_neighbour.row(), western_neighbour.column()));
    let southern_neighbour = cell_ref.south.unwrap();
    assert_eq!((3, 2), (southern_neighbour.row(), southern_neighbour.column()));
}

#[test]
fn gets_correct_cell_ref() {
    let mut grid = Grid::initialize(2, 4).unwrap();
    grid.configure_cells();
    assert!(grid.get_cell_ref(20, 45).is_none());
    let cell_ref = grid.get_cell_ref(1, 3).unwrap();
    assert_eq!((1, 3), (cell_ref.row, cell_ref.column));
}

#[test]
fn random_cell_exists() {
    let mut grid = Grid::initialize(5, 5).unwrap();
    grid.configure_cells();
    let mut rng = RandomSource::system();
    let rand_coord = grid.get_random_cell(&mut rng);
    let rand_cell = &grid.grid[rand_coord.row()][rand_coord.column()];
    assert_eq!(rand_cell.row, rand_coord.row());
    assert_eq!(rand_cell.column, rand_coord.column());
}

#[test]
fn rejects_zero_dimensions() {
    assert!(matches!(Grid::initialize(0, 5), Err(MazeError::InvalidDimensions)));
    assert!(matches!(Grid::initialize(5, 0), Err(MazeError::InvalidDimensions)));
    assert!(matches!(Grid::initialize(0, 0), Err(MazeError::InvalidDimensions)));
    assert!(Grid::initialize(1, 1).is_ok());
}

#[test]
fn cell_at_signals_out_of_bounds() {
    let grid = Grid::initialize(2, 2).unwrap();
    assert!(matches!(grid.cell_at(20, 45), Err(MazeError::CellOutOfBounds)));
    assert!(matches!(grid.cell_at(0, 2), Err(MazeError::CellOutOfBounds)));
    let cell = grid.cell_at(1, 1).unwrap();
    assert_eq!((1, 1), (cell.row, cell.column));
}

#[test]
fn size_is_rows_times_columns() {
    let grid = Grid::initialize(4, 7).unwrap();
    assert_eq!(28, grid.size());
}

#[test]
fn deadends_on_single_cell_grid_is_zero() {
    let grid = Grid::initialize(1, 1).unwrap();
    assert_eq!(0, grid.deadends());
}

#[test]
fn reset_clears_links_and_keeps_adjacency() {
    let mut grid = Grid::initialize(3, 3).unwrap();
    grid.configure_cells();
    let mut rng = RandomSource::system();
    mazes::BinaryTree::on(&mut grid, &mut rng);
    assert!(total_links(&grid) > 0);
    grid.reset();
    assert_eq!(0, total_links(&grid));
    let cell = grid.get_cell_ref(1, 1).unwrap();
    assert_eq!(Some(Coord(0, 1)), cell.north);
    assert_eq!(Some(Coord(2, 1)), cell.south);
    assert_eq!(Some(Coord(1, 2)), cell.east);
    assert_eq!(Some(Coord(1, 0)), cell.west);
}

fn total_links(grid: &Grid) -> usize {
    let mut n: usize = 0;
    for row in &grid.grid {
        for cell in row {
            n += cell.links.len();
        }
    }
    n
}
