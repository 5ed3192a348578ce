use game_of_life::Grid;
use game_of_life::Rule;
use game_of_life::Vector;
use game_of_life::rules::HasThreeNeighbours;
use game_of_life::rules::HasTwoOrThreeNeighbours;

#[test]
fn when_two_neighbours_then_complies() {
    let mut grid = Grid::new();
    grid.add_cells(&vec![Vector::new(2, 2), Vector::new(0, 0)]);

    assert!(HasTwoOrThreeNeighbours::complies(&Vector::new(1, 1), &grid));
}

#[test]
fn when_three_neighbours_then_complies() {
    let mut grid = Grid::new();
    grid.add_cells(&vec![Vector::new(2, 2), Vector::new(0, 0), Vector::new(2, 1)]);

    assert!(HasTwoOrThreeNeighbours::complies(&Vector::new(1, 1), &grid));
}

#[test]
fn when_less_than_two_neighbours_then_does_not_comply() {
    let mut grid = Grid::new();
    grid.add_cells(&vec![Vector::new(2, 2)]);

    assert!(!HasTwoOrThreeNeighbours::complies(&Vector::new(1, 1), &grid));
}

#[test]
fn when_more_than_three_neighbours_then_does_not_comply() {
    let mut grid = Grid::new();
    grid.add_cells(&vec![
        Vector::new(2, 2),
        Vector::new(0, 0),
        Vector::new(2, 1),
        Vector::new(1, 2),
    ]);

    assert!(!HasTwoOrThreeNeighbours::complies(&Vector::new(1, 1), &grid));
}

#[test]
fn rules_when_three_neighbours_then_complies() {
    let mut grid = Grid::new();
    grid.add_cells(&vec![Vector::new(2, 2), Vector::new(0, 0), Vector::new(2, 1)]);

    assert!(HasThreeNeighbours::complies(&Vector::new(1, 1), &grid));
}

#[test]
fn when_less_than_three_neighbours_then_does_not_comply() {
    let mut grid = Grid::new();
    grid.add_cells(&vec![Vector::new(2, 1), Vector::new(1, 2)]);

    assert!(!HasThreeNeighbours::complies(&Vector::new(1, 1), &grid));
}

#[test]
fn rules_when_more_than_three_neighbours_then_does_not_comply() {
    let mut grid = Grid::new();
    grid.add_cells(&vec![
        Vector::new(2, 2),
        Vector::new(0, 0),
        Vector::new(2, 1),
        Vector::new(1, 2),
    ]);

    assert!(!HasThreeNeighbours::complies(&Vector::new(1, 1), &grid));
}
