use game_of_life::Grid;
use game_of_life::Vector;

#[test]
fn should_add_cell() {
    let mut grid = Grid::new();
    let point = &Vector { x: 1, y: 2 };
    grid.add_cell(point);

    assert!(grid.contains(point));
}

#[test]
fn should_remove_cell() {
    let mut grid = Grid::new();
    let point = &Vector { x: 1, y: 2 };
    grid.add_cell(point);
    grid.remove_cell(point);

    assert!(!grid.contains(point));
}

#[test]
fn should_find_no_neighbours() {
    let grid = Grid::new();
    let point = &Vector { x: 1, y: 1 };
    assert_eq!(grid.get_neighbours(point), vec![]);
}

#[test]
fn should_find_neighbours() {
    let mut grid = Grid::new();
    grid.add_cells(&vec![
        Vector::new(0, 2),
        Vector::new(1, 2),
        Vector::new(2, 2),
        Vector::new(0, 1),
        Vector::new(2, 1),
        Vector::new(0, 0),
        Vector::new(1, 0),
        Vector::new(2, 0),
    ]);
    let point = Vector { x: 1, y: 1 };
    let neighbours = grid.get_neighbours(&point);
    assert_eq!(neighbours.len(), 8);
    assert!(neighbours.contains(&Vector::new(0, 2)));
    assert!(neighbours.contains(&Vector::new(1, 2)));
    assert!(neighbours.contains(&Vector::new(2, 2)));
    assert!(neighbours.contains(&Vector::new(0, 1)));
    assert!(neighbours.contains(&Vector::new(2, 1)));
    assert!(neighbours.contains(&Vector::new(0, 0)));
    assert!(neighbours.contains(&Vector::new(1, 0)));
    assert!(neighbours.contains(&Vector::new(2, 0)));
}

#[test]
fn adding_twice_keeps_cell_alive_and_population_unchanged() {
    let mut grid = Grid::new();
    let point = &Vector::new(4, -7);
    grid.add_cell(point);
    grid.add_cell(point);

    assert!(grid.contains(point));
    assert_eq!(grid.get_occupied_cells().len(), 1);
}

#[test]
fn removing_dead_cell_changes_nothing() {
    let mut grid = Grid::new();
    grid.add_cell(&Vector::new(0, 0));
    grid.remove_cell(&Vector::new(5, 5));

    assert!(grid.contains(&Vector::new(0, 0)));
    assert_eq!(grid.get_occupied_cells().len(), 1);
}

#[test]
fn neighbourhood_is_symmetric() {
    let mut grid = Grid::new();
    let a = Vector::new(5, 5);
    let b = Vector::new(4, 4);
    grid.add_cell(&a);
    grid.add_cell(&b);

    assert!(grid.get_neighbours(&b).contains(&a));
    assert!(grid.get_neighbours(&a).contains(&b));
}

#[test]
fn occupied_cells_lists_every_alive_cell() {
    let mut grid = Grid::new();
    grid.add_cells(&vec![Vector::new(-1, 0), Vector::new(3, 9), Vector::new(2, 2)]);

    let occupied = grid.get_occupied_cells();
    assert_eq!(occupied.len(), 3);
    assert!(occupied.contains(&Vector::new(-1, 0)));
    assert!(occupied.contains(&Vector::new(3, 9)));
    assert!(occupied.contains(&Vector::new(2, 2)));
}

#[test]
fn add_cells_is_order_independent() {
    let mut first = Grid::new();
    first.add_cells(&vec![Vector::new(1, 1), Vector::new(2, 2), Vector::new(3, 3)]);

    let mut second = Grid::new();
    second.add_cells(&vec![Vector::new(3, 3), Vector::new(1, 1), Vector::new(2, 2)]);

    assert_eq!(first, second);
}

#[test]
fn negative_coordinates_are_part_of_the_lattice() {
    let mut grid = Grid::new();
    let point = &Vector::new(-1000000, -2000000);
    grid.add_cell(point);

    assert!(grid.contains(point));
    assert!(grid.get_neighbours(&Vector::new(-1000001, -2000001)).contains(point));
}
