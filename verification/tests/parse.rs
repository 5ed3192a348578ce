use game_of_life::Grid;
use game_of_life::Vector;
use game_of_life::parse_input;

#[test]
fn should_parse_input() {
    let actual = parse_input("1,2;3,4;7,45");
    let expected = vec![Vector::new(1, 2), Vector::new(3, 4), Vector::new(7, 45)];
    assert_eq!(actual, Some(expected));
}

#[test]
fn parses_a_single_pair() {
    assert_eq!(parse_input("0,0"), Some(vec![Vector::new(0, 0)]));
}

#[test]
fn parses_the_largest_coordinate() {
    assert_eq!(parse_input("2147483647,0"), Some(vec![Vector::new(2147483647, 0)]));
}

#[test]
fn rejects_an_empty_input() {
    assert_eq!(parse_input(""), None);
}

#[test]
fn rejects_a_trailing_semicolon() {
    assert_eq!(parse_input("1,2;"), None);
}

#[test]
fn rejects_a_missing_comma() {
    assert_eq!(parse_input("12"), None);
}

#[test]
fn rejects_a_missing_coordinate() {
    assert_eq!(parse_input(",2"), None);
    assert_eq!(parse_input("1,"), None);
}

#[test]
fn rejects_non_digit_characters() {
    assert_eq!(parse_input("a,2"), None);
    assert_eq!(parse_input("1,2x"), None);
    assert_eq!(parse_input("-1,2"), None);
}

#[test]
fn rejects_a_coordinate_too_large_for_the_lattice() {
    assert_eq!(parse_input("2147483648,0"), None);
}

#[test]
fn rejects_one_bad_segment_among_good_ones() {
    assert_eq!(parse_input("1,2;oops;3,4"), None);
}

#[test]
fn parsed_cells_fill_a_grid() {
    let cells = parse_input("1,2;3,4").unwrap();
    let mut grid = Grid::new();
    grid.add_cells(&cells);

    assert!(grid.contains(&Vector::new(1, 2)));
    assert!(grid.contains(&Vector::new(3, 4)));
    assert_eq!(grid.get_occupied_cells().len(), 2);
}
