use mazes::{Coord, GridCell};

#[test]
fn initializes_gridcell() {
    let grid_cell = GridCell::init(0, 0);
    assert_eq!(0, grid_cell.row);
    assert_eq!(0, grid_cell.column);
    assert!(grid_cell.north.is_none());
    assert!(grid_cell.east.is_none());
    assert!(grid_cell.west.is_none());
    assert!(grid_cell.south.is_none());
    assert_eq!(0, grid_cell.links.len());
}

#[test]
fn links_two_cells() {
    let mut cell_a = GridCell::init(0, 0);
    let mut cell_b = GridCell::init(0, 1);
    GridCell::link(&mut cell_a, &mut cell_b);
    assert!(cell_a.links.contains(&Coord(0, 1)));
    assert!(cell_b.links.contains(&Coord(0, 0)));
    let mut cell_c = GridCell::init(1, 0);
    GridCell::link(&mut cell_a, &mut cell_c);
    assert!(cell_a.links.contains(&Coord(1, 0)));
}

#[test]
fn unlinks_two_cells() {
    let mut cell_a = GridCell::init(0, 0);
    let mut cell_b = GridCell::init(0, 1);
    GridCell::link(&mut cell_a, &mut cell_b);
    GridCell::unlink(&mut cell_a, &mut cell_b);
    assert_eq!(0, cell_a.get_links().len());
    assert_eq!(0, cell_b.get_links().len());
}

#[test]
fn returns_vec_of_links() {
    let mut cell_a = GridCell::init(0, 0);
    let mut cell_b = GridCell::init(0, 1);
    let mut cell_c = GridCell::init(1, 0);

    GridCell::link(&mut cell_a, &mut cell_b);
    GridCell::link(&mut cell_a, &mut cell_c);

    assert_eq!(2, cell_a.get_links().len());
}

#[test]
fn verifies_is_linked() {
    let mut cell_a = GridCell::init(0, 0);
    let mut cell_b = GridCell::init(0, 1);
    let mut cell_c = GridCell::init(1, 0);

    GridCell::link(&mut cell_a, &mut cell_b);
    GridCell::link(&mut cell_a, &mut cell_c);

    assert!(cell_a.is_linked(&Coord(0, 1)));
    assert_eq!(false, cell_c.is_linked(&Coord(0, 1)));
}

#[test]
fn returns_vec_of_neighbours() {
    let mut cell_a = GridCell::init(0, 0);
    let cell_b = GridCell::init(0, 1);

    assert_eq!(0, cell_a.neighbours().len());

    cell_a.north = Some(Coord(cell_b.row, cell_b.column));

    assert_eq!(1, cell_a.neighbours().len());
}

#[test]
fn coord_accessors_match_fields() {
    let c = Coord::from(3, 9);
    assert_eq!(3, c.row());
    assert_eq!(9, c.column());
    assert_eq!(Coord(3, 9), c);
}

#[test]
fn linking_twice_keeps_one_record() {
    let mut cell_a = GridCell::init(0, 0);
    let mut cell_b = GridCell::init(0, 1);
    GridCell::link(&mut cell_a, &mut cell_b);
    GridCell::link(&mut cell_a, &mut cell_b);
    assert_eq!(1, cell_a.get_links().len());
    assert_eq!(1, cell_b.get_links().len());
}

#[test]
fn link_is_symmetric() {
    let mut cell_a = GridCell::init(2, 2);
    let mut cell_b = GridCell::init(2, 3);
    GridCell::link(&mut cell_a, &mut cell_b);
    assert!(cell_a.is_linked(&Coord(2, 3)));
    assert!(cell_b.is_linked(&Coord(2, 2)));
}
