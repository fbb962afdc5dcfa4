use mazes::{
    AldousBroder, BinaryTree, Coord, Grid, HuntAndKill, RandomSource, RecursiveBacktracker,
    SideWinder, Wilsons,
};

fn total_links(grid: &Grid) -> usize {
    let mut n: usize = 0;
    for row in &grid.grid {
        for cell in row {
            n += cell.links.len();
        }
    }
    n
}

fn assert_spanning(grid: &Grid) {
    let cells = grid.rows * grid.columns;
    // A spanning tree has exactly rows * columns - 1 passages, each
    // recorded on both endpoints.
    assert_eq!(2 * (cells - 1), total_links(grid));
    // Breadth-first search from any cell reaches every cell.
    let field = grid.find_distances(Coord(0, 0));
    assert_eq!(cells, field.get_cells().len());
    let field = grid.find_distances(Coord(grid.rows - 1, grid.columns - 1));
    assert_eq!(cells, field.get_cells().len());
    // Links are symmetric everywhere.
    for row in &grid.grid {
        for cell in row {
            for linked in cell.get_links() {
                let other = grid.cell_at(linked.row(), linked.column()).unwrap();
                assert!(other.is_linked(&Coord(cell.row, cell.column)));
            }
        }
    }
}

fn fresh(rows: usize, columns: usize) -> Grid {
    let mut grid = Grid::initialize(rows, columns).unwrap();
    grid.configure_cells();
    grid
}

#[test]
fn binary_tree_spans_grid() {
    let mut grid = fresh(4, 5);
    let mut rng = RandomSource::system();
    BinaryTree::on(&mut grid, &mut rng);
    assert_spanning(&grid);
}

#[test]
fn side_winder_spans_grid() {
    let mut grid = fresh(5, 4);
    let mut rng = RandomSource::system();
    SideWinder::on(&mut grid, &mut rng);
    assert_spanning(&grid);
}

#[test]
fn recursive_backtracker_spans_grid() {
    let mut grid = fresh(5, 5);
    let mut rng = RandomSource::system();
    RecursiveBacktracker::on(&mut grid, &mut rng);
    assert_spanning(&grid);
}

#[test]
fn hunt_and_kill_spans_grid() {
    let mut grid = fresh(4, 4);
    let mut rng = RandomSource::system();
    HuntAndKill::on(&mut grid, &mut rng);
    assert_spanning(&grid);
}

#[test]
fn aldous_broder_spans_grid() {
    let mut grid = fresh(4, 4);
    let mut rng = RandomSource::system();
    let complete = AldousBroder::on(&mut grid, &mut rng, 2_000_000);
    assert!(complete);
    assert_spanning(&grid);
}

#[test]
fn wilsons_spans_grid() {
    let mut grid = fresh(4, 4);
    let mut rng = RandomSource::system();
    let complete = Wilsons::on(&mut grid, &mut rng, 2_000_000);
    assert!(complete);
    assert_spanning(&grid);
}

#[test]
fn single_row_grid_becomes_a_corridor() {
    // The unique spanning tree of a 1 x N grid is the N - 1 horizontal
    // passages; every algorithm must produce exactly that.
    let n: usize = 6;
    for algorithm in 0..6 {
        let mut grid = fresh(1, n);
        let mut rng = RandomSource::system();
        match algorithm {
            0 => BinaryTree::on(&mut grid, &mut rng),
            1 => SideWinder::on(&mut grid, &mut rng),
            2 => RecursiveBacktracker::on(&mut grid, &mut rng),
            3 => HuntAndKill::on(&mut grid, &mut rng),
            4 => assert!(AldousBroder::on(&mut grid, &mut rng, 2_000_000)),
            _ => assert!(Wilsons::on(&mut grid, &mut rng, 2_000_000)),
        }
        assert_eq!(2 * (n - 1), total_links(&grid));
        for col in 0..n - 1 {
            let cell = grid.cell_at(0, col).unwrap();
            assert!(cell.is_linked(&Coord(0, col + 1)));
        }
    }
}

#[test]
fn binary_tree_with_all_zero_randomness_is_deterministic() {
    // A source that always yields zero makes the coin always choose
    // north; on a 2 x 2 grid the link set is then fixed exactly.
    let mut grid = fresh(2, 2);
    let mut rng = RandomSource::fixed(Vec::new());
    BinaryTree::on(&mut grid, &mut rng);
    // (0,0) has no north, so it links east to (0,1).
    assert!(grid.cell_at(0, 0).unwrap().is_linked(&Coord(0, 1)));
    // Both bottom cells have a north candidate and link it.
    assert!(grid.cell_at(1, 0).unwrap().is_linked(&Coord(0, 0)));
    assert!(grid.cell_at(1, 1).unwrap().is_linked(&Coord(0, 1)));
    // The north-east corner carves nothing itself; it holds exactly the
    // two passages its neighbours opened.
    assert_eq!(2, grid.cell_at(0, 1).unwrap().links.len());
    // The bottom cells are not linked to each other.
    assert!(!grid.cell_at(1, 0).unwrap().is_linked(&Coord(1, 1)));
    assert_eq!(2 * 3, total_links(&grid));
}

#[test]
fn reset_allows_a_fresh_run() {
    let mut grid = fresh(4, 4);
    let mut rng = RandomSource::system();
    BinaryTree::on(&mut grid, &mut rng);
    assert_spanning(&grid);
    grid.reset();
    assert_eq!(0, total_links(&grid));
    RecursiveBacktracker::on(&mut grid, &mut rng);
    assert_spanning(&grid);
    grid.reset();
    SideWinder::on(&mut grid, &mut rng);
    assert_spanning(&grid);
}

#[test]
fn single_cell_grid_is_already_spanning() {
    for algorithm in 0..6 {
        let mut grid = fresh(1, 1);
        let mut rng = RandomSource::system();
        match algorithm {
            0 => BinaryTree::on(&mut grid, &mut rng),
            1 => SideWinder::on(&mut grid, &mut rng),
            2 => RecursiveBacktracker::on(&mut grid, &mut rng),
            3 => HuntAndKill::on(&mut grid, &mut rng),
            4 => assert!(AldousBroder::on(&mut grid, &mut rng, 100)),
            _ => assert!(Wilsons::on(&mut grid, &mut rng, 100)),
        }
        assert_eq!(0, total_links(&grid));
        assert_eq!(0, grid.deadends());
    }
}

#[test]
fn deadends_stay_within_bounds() {
    let mut grid = fresh(6, 6);
    let mut rng = RandomSource::system();
    HuntAndKill::on(&mut grid, &mut rng);
    let d = grid.deadends();
    assert!(d <= grid.size());
    // A spanning tree of more than one cell has at least one dead end.
    assert!(d >= 1);
}

#[test]
fn fixed_source_cycles_its_values() {
    let mut rng = RandomSource::fixed(vec![3, 1, 4]);
    assert_eq!(3, rng.random_below(10));
    assert_eq!(1, rng.random_below(10));
    assert_eq!(4, rng.random_below(10));
    assert_eq!(3, rng.random_below(10));
    // Values reduce below the bound.
    let mut rng = RandomSource::fixed(vec![7]);
    assert_eq!(1, rng.random_below(2));
    // An empty sequence yields zero forever.
    let mut rng = RandomSource::fixed(Vec::new());
    assert_eq!(0, rng.random_below(5));
    assert_eq!(0, rng.random_below(5));
}
