use game_of_life::Game;
use game_of_life::Grid;
use game_of_life::Vector;

#[test]
fn display_game_state() {
    let mut grid = Grid::new();
    grid.add_cells(&vec![Vector::new(1, 2), Vector::new(2, 0)]);

    let game = Game::new(3, 3, grid);
    assert_eq!(game.render(), "..X\n...\n.X.\n");
}

#[test]
fn should_handle_persist_cells() {
    let mut grid = Grid::new();
    grid.add_cells(&vec![
        Vector::new(0, 0),
        Vector::new(0, 1),
        Vector::new(1, 0),
        Vector::new(1, 1),
    ]);

    let mut game = Game::new(3, 3, grid.clone());
    game.update();

    assert_eq!(game.grid, grid)
}

#[test]
fn should_handle_oscillators() {
    let mut state1 = Grid::new();
    state1.add_cells(&vec![Vector::new(1, 0), Vector::new(1, 1), Vector::new(1, 2)]);

    let mut state2 = Grid::new();
    state2.add_cells(&vec![Vector::new(0, 1), Vector::new(1, 1), Vector::new(2, 1)]);

    let mut game = Game::new(3, 3, state1.clone());

    game.update();
    assert_eq!(game.grid, state2);

    game.update();
    assert_eq!(game.grid, state1);

    game.update();
    assert_eq!(game.grid, state2);

    game.update();
    assert_eq!(game.grid, state1);
}

#[test]
fn isolated_cell_dies() {
    let mut grid = Grid::new();
    grid.add_cell(&Vector::new(7, -3));

    let mut game = Game::new(3, 3, grid);
    game.update();

    assert!(!game.grid.contains(&Vector::new(7, -3)));
    assert_eq!(game.grid.get_occupied_cells().len(), 0);
}

#[test]
fn far_apart_cells_all_die() {
    let mut grid = Grid::new();
    grid.add_cells(&vec![
        Vector::new(0, 0),
        Vector::new(1000, 1000),
        Vector::new(-1000, 500),
        Vector::new(2000000, -2000000),
    ]);

    let mut game = Game::new(3, 3, grid);
    game.update();

    assert_eq!(game.grid.get_occupied_cells().len(), 0);
}

#[test]
fn empty_grid_steps_to_empty_grid() {
    let mut game = Game::new(3, 3, Grid::new());
    game.update();

    assert_eq!(game.grid, Grid::new());
    assert_eq!(game.grid.get_occupied_cells().len(), 0);
}

#[test]
fn update_leaves_viewport_unchanged() {
    let mut game = Game::new(5, 4, Grid::new());
    game.update();

    assert_eq!(game.width, 5);
    assert_eq!(game.height, 4);
}

#[test]
fn render_of_empty_viewport_is_empty() {
    let mut grid = Grid::new();
    grid.add_cell(&Vector::new(0, 0));

    assert_eq!(Game::new(0, 3, grid.clone()).render(), "\n\n\n");
    assert_eq!(Game::new(3, 0, grid).render(), "");
}

#[test]
fn render_marks_only_viewport_cells() {
    let mut grid = Grid::new();
    grid.add_cells(&vec![Vector::new(0, 0), Vector::new(-1, 0), Vector::new(0, 5)]);

    let game = Game::new(2, 2, grid);
    assert_eq!(game.render(), "X.\n..\n");
}
