use voxel_logic::grid::{Cell, Coord, Grid};

fn cell(id: u32, name: &str, node: Option<u32>) -> Cell {
    (id, name.to_string(), node)
}

#[test]
fn coord_constructors_and_distance() {
    assert_eq!(Coord::zero(), Coord::new(0, 0, 0));
    assert_eq!(Coord::unit_y(), Coord::new(0, 1, 0));
    assert!(Coord::new(0, 0, 0).is_adjacent(&Coord::new(0, 0, 1)));
    assert!(Coord::new(0, 0, 0).is_adjacent(&Coord::new(-1, 0, 0)));
    assert!(!Coord::new(0, 0, 0).is_adjacent(&Coord::new(0, 0, 0)));
    assert!(!Coord::new(0, 0, 0).is_adjacent(&Coord::new(1, 1, 0)));
    assert!(!Coord::new(0, 0, 0).is_adjacent(&Coord::new(0, 0, 2)));
    assert!(!Coord::new(i32::MIN, 0, 0).is_adjacent(&Coord::new(i32::MAX, 0, 0)));
    assert!(Coord::new(i32::MAX, 0, 0).is_adjacent(&Coord::new(i32::MAX - 1, 0, 0)));
}

#[test]
fn coord_interior_and_checked_plus() {
    assert!(Coord::new(0, 0, 0).is_interior());
    assert!(Coord::new(i32::MAX - 1, i32::MIN + 1, 5).is_interior());
    assert!(!Coord::new(i32::MAX, 0, 0).is_interior());
    assert!(!Coord::new(0, i32::MIN, 0).is_interior());
    assert_eq!(
        Coord::new(1, 2, 3).checked_plus(&Coord::new(10, -20, 30)),
        Some(Coord::new(11, -18, 33))
    );
    assert_eq!(Coord::new(i32::MAX, 0, 0).checked_plus(&Coord::new(1, 0, 0)), None);
    assert_eq!(Coord::new(0, 0, i32::MIN).checked_plus(&Coord::new(0, 0, -1)), None);
}

#[test]
fn grid_set_get_contains_remove() {
    let mut grid = Grid::new();
    assert_eq!(grid.len(), 0);
    assert!(!grid.contains(Coord::new(1, 2, 3)));
    assert_eq!(grid.get(Coord::new(1, 2, 3)), None);
    assert!(grid.set(Coord::new(1, 2, 3), cell(7, "!wire", Some(4))));
    assert!(grid.contains(Coord::new(1, 2, 3)));
    assert!(!grid.contains(Coord::new(3, 2, 1)));
    assert_eq!(grid.get(Coord::new(1, 2, 3)), Some(cell(7, "!wire", Some(4))));
    assert_eq!(grid.len(), 1);
    assert_eq!(grid.remove(Coord::new(1, 2, 3)), Some(cell(7, "!wire", Some(4))));
    assert_eq!(grid.remove(Coord::new(1, 2, 3)), None);
    assert_eq!(grid.len(), 0);
    assert!(!grid.contains(Coord::new(1, 2, 3)));
}

#[test]
fn grid_set_refuses_a_value_that_is_already_there() {
    let mut grid = Grid::default();
    assert!(grid.set(Coord::new(0, 0, 0), cell(1, "block", None)));
    assert!(!grid.set(Coord::new(5, 5, 5), cell(1, "block", None)));
    assert!(!grid.contains(Coord::new(5, 5, 5)));
    assert!(!grid.set(Coord::new(0, 0, 0), cell(1, "block", None)));
    assert_eq!(grid.len(), 1);
    // another value at an occupied position takes its place
    assert!(grid.set(Coord::new(0, 0, 0), cell(2, "block", None)));
    assert_eq!(grid.get(Coord::new(0, 0, 0)), Some(cell(2, "block", None)));
    assert_eq!(grid.len(), 1);
    // and the value that was displaced can be stored again
    assert!(grid.set(Coord::new(5, 5, 5), cell(1, "block", None)));
    assert_eq!(grid.len(), 2);
}

#[test]
fn grid_get_adjacent_returns_the_neighbours_that_exist() {
    let mut grid = Grid::new();
    let centre = Coord::new(0, 0, 0);
    assert!(grid.get_adjacent(centre).is_empty());
    grid.set(centre, cell(0, "c", None));
    grid.set(Coord::new(1, 0, 0), cell(1, "x+", None));
    grid.set(Coord::new(0, -1, 0), cell(2, "y-", None));
    grid.set(Coord::new(0, 0, 1), cell(3, "z+", None));
    grid.set(Coord::new(1, 1, 0), cell(4, "far", None));
    grid.set(Coord::new(0, 0, 2), cell(5, "far2", None));
    let mut found = grid.get_adjacent(centre);
    found.sort_by_key(|e| (e.1).0);
    assert_eq!(
        found,
        vec![
            (Coord::new(1, 0, 0), cell(1, "x+", None)),
            (Coord::new(0, -1, 0), cell(2, "y-", None)),
            (Coord::new(0, 0, 1), cell(3, "z+", None)),
        ]
    );
    for x in [-1, 1] {
        grid.set(Coord::new(x, 0, 0), cell(10 + x as u32, "x", None));
    }
    for y in [-1, 1] {
        grid.set(Coord::new(0, y, 0), cell(20 + y as u32, "y", None));
    }
    for z in [-1, 1] {
        grid.set(Coord::new(0, 0, z), cell(30 + z as u32, "z", None));
    }
    assert_eq!(grid.get_adjacent(centre).len(), 6);
}

#[test]
fn grid_get_adjacent_at_the_edge_of_the_range() {
    let mut grid = Grid::new();
    let corner = Coord::new(i32::MAX, i32::MIN, 0);
    grid.set(Coord::new(i32::MAX - 1, i32::MIN, 0), cell(1, "a", None));
    grid.set(Coord::new(i32::MAX, i32::MIN + 1, 0), cell(2, "b", None));
    let mut found = grid.get_adjacent(corner);
    found.sort_by_key(|e| (e.1).0);
    assert_eq!(
        found,
        vec![
            (Coord::new(i32::MAX - 1, i32::MIN, 0), cell(1, "a", None)),
            (Coord::new(i32::MAX, i32::MIN + 1, 0), cell(2, "b", None)),
        ]
    );
}
