use mazes::{Coord, Distances, Grid, MazeError, RandomSource};

#[test]
fn root_distance_is_always_zero() {
    let mut grid = Grid::initialize(4, 4).unwrap();
    grid.configure_cells();
    let mut rng = RandomSource::system();
    mazes::RecursiveBacktracker::on(&mut grid, &mut rng);
    let root = Coord(2, 3);
    let field = grid.find_distances(root);
    assert_eq!(Ok(0), field.get_cell_distance(&root));
    let origin_field = grid.find_distances(Coord(0, 0));
    assert_eq!(Ok(0), origin_field.get_cell_distance(&Coord(0, 0)));
}

#[test]
fn unreached_coord_reports_error() {
    let field = Distances::initialize(Coord(0, 0));
    assert_eq!(Err(MazeError::CoordNotReached), field.get_cell_distance(&Coord(5, 5)));
    assert!(!field.has_cell(&Coord(5, 5)));
    assert!(field.has_cell(&Coord(0, 0)));
}

#[test]
fn set_and_get_cell_distance_round_trip() {
    let mut field = Distances::initialize(Coord(0, 0));
    field.set_cell_distance(Coord(0, 1), 1);
    field.set_cell_distance(Coord(0, 2), 2);
    field.set_cell_distance(Coord(0, 1), 7);
    assert_eq!(Ok(7), field.get_cell_distance(&Coord(0, 1)));
    assert_eq!(Ok(2), field.get_cell_distance(&Coord(0, 2)));
    assert_eq!(3, field.get_cells().len());
}

#[test]
fn max_finds_greatest_distance() {
    let mut field = Distances::initialize(Coord(0, 0));
    field.set_cell_distance(Coord(0, 1), 4);
    field.set_cell_distance(Coord(1, 1), 9);
    field.set_cell_distance(Coord(1, 0), 2);
    let (coord, dist) = field.max();
    assert_eq!(Coord(1, 1), coord);
    assert_eq!(9, dist);
}

#[test]
fn max_of_trivial_field_is_root() {
    let field = Distances::initialize(Coord(3, 4));
    let (coord, dist) = field.max();
    assert_eq!(Coord(3, 4), coord);
    assert_eq!(0, dist);
}

#[test]
fn path_to_root_is_single_cell() {
    let mut grid = Grid::initialize(3, 4).unwrap();
    grid.configure_cells();
    let mut rng = RandomSource::system();
    mazes::HuntAndKill::on(&mut grid, &mut rng);
    let root = Coord(1, 2);
    grid.distances = grid.find_distances(root);
    let path = grid.path_to(root);
    assert_eq!(1, path.get_cells().len());
    assert_eq!(Ok(0), path.get_cell_distance(&root));
    assert_eq!(root, path.root);
}

#[test]
fn path_to_descends_one_step_at_a_time() {
    let mut grid = Grid::initialize(4, 4).unwrap();
    grid.configure_cells();
    let mut rng = RandomSource::system();
    mazes::SideWinder::on(&mut grid, &mut rng);
    grid.distances = grid.find_distances(Coord(0, 0));
    let goal = Coord(3, 3);
    let goal_dist = grid.distances.get_cell_distance(&goal).unwrap();
    let path = grid.path_to(goal);
    assert_eq!(goal_dist + 1, path.get_cells().len());
    assert_eq!(Ok(goal_dist), path.get_cell_distance(&goal));
    assert_eq!(Ok(0), path.get_cell_distance(&Coord(0, 0)));
    // Every recorded distance agrees with the full field.
    for coord in path.get_cells() {
        assert_eq!(
            grid.distances.get_cell_distance(&coord),
            path.get_cell_distance(&coord)
        );
    }
}

#[test]
fn longest_path_spans_the_diameter() {
    let mut grid = Grid::initialize(5, 5).unwrap();
    grid.configure_cells();
    let mut rng = RandomSource::system();
    mazes::RecursiveBacktracker::on(&mut grid, &mut rng);
    let path = grid.longest_path();
    // One endpoint is the root of the final field; the other carries the
    // field's greatest distance.
    let a = grid.distances.root;
    assert_eq!(a, path.root);
    let (_, dmax) = grid.distances.max();
    assert_eq!(dmax + 1, path.get_cells().len());
    // Find the far endpoint of the path.
    let mut far = a;
    for coord in path.get_cells() {
        if path.get_cell_distance(&coord).unwrap() == dmax {
            far = coord;
        }
    }
    // The distance between the endpoints equals the maximum distance of a
    // field rooted at either endpoint.
    let from_far = grid.find_distances(far);
    assert_eq!(Ok(dmax), from_far.get_cell_distance(&a));
    assert_eq!(dmax, from_far.max().1);
    let from_a = grid.find_distances(a);
    assert_eq!(dmax, from_a.max().1);
}

#[test]
fn contents_of_renders_distances_base36() {
    let mut grid = Grid::initialize(1, 3).unwrap();
    grid.configure_cells();
    let mut rng = RandomSource::system();
    mazes::BinaryTree::on(&mut grid, &mut rng);
    grid.distances = grid.find_distances(Coord(0, 0));
    let body0 = grid.contents_of(grid.cell_at(0, 0).unwrap());
    assert_eq!(" 0 ", body0);
    let body2 = grid.contents_of(grid.cell_at(0, 2).unwrap());
    assert_eq!(" 2 ", body2);
    assert_eq!('z', Grid::digit_char(35));
    assert_eq!('~', Grid::digit_char(36));
}

#[test]
fn contents_of_blank_when_unreached() {
    let mut grid = Grid::initialize(2, 2).unwrap();
    grid.configure_cells();
    // No links carved: only the field's root is reached.
    grid.distances = grid.find_distances(Coord(0, 0));
    let body = grid.contents_of(grid.cell_at(1, 1).unwrap());
    assert_eq!("   ", body);
}

#[test]
fn max_tie_falls_to_earliest_record() {
    let mut field = Distances::initialize(Coord(0, 0));
    field.set_cell_distance(Coord(0, 1), 5);
    field.set_cell_distance(Coord(1, 1), 5);
    field.set_cell_distance(Coord(1, 0), 3);
    let (coord, dist) = field.max();
    assert_eq!(Coord(0, 1), coord);
    assert_eq!(5, dist);
}
