use minesweeper::minefield::field::{Cell, FieldError, Minefield};
use minesweeper::minefield::grid::{Grid, GridError};

#[test]
fn new() {
    let height = 4;
    let width = 4;
    let expected_num_bombs = 5;
    let field = Minefield::new(height, width, expected_num_bombs).unwrap();
    let mut actual_num_bombs = 0;
    for i in 0..height {
        for j in 0..width {
            match field.dig(i, j) {
                Some(Cell::Bomb) => actual_num_bombs += 1,
                Some(Cell::Clean(_)) => (),
                None => panic!("Digging legal cell was denied: {}, {}", i, j),
            }
        }
    }
    assert_eq!(actual_num_bombs, expected_num_bombs);
}

#[test]
fn preset_example() {
    let field = Minefield::with_bombs(2, 2, &[(0, 0), (0, 1)]).unwrap();

    assert_eq!(field.dig(0, 0), Some(Cell::Bomb));
    assert_eq!(field.dig(1, 1), Some(Cell::Clean(2)));

    assert_eq!(field.submit(&vec![(0, 0), (0, 1)]), true);
    assert_eq!(field.submit(&vec![(0, 1), (0, 0)]), true);
    assert_eq!(field.submit(&vec![(0, 0)]), false);
    assert_eq!(field.submit(&vec![(0, 0), (0, 0)]), false);
    assert_eq!(field.submit(&vec![(0, 0), (0, 1), (1, 0)]), false);
}

fn cell_pattern(pattern: &str) -> Vec<Cell> {
    let mut out: Vec<Cell> = vec![];
    for c in pattern.chars() {
        let car = match c {
            'X' => Some(Cell::Bomb),
            '0'..='8' => Some(Cell::Clean(c.to_digit(10).unwrap() as u8)),
            _ => None,
        };
        if let Some(cell) = car {
            out.push(cell);
        }
    }
    out
}

fn cells_of(field: &Minefield) -> Vec<Cell> {
    let (height, width) = field.shape();
    let mut out = vec![];
    for i in 0..height {
        for j in 0..width {
            out.push(field.dig(i, j).unwrap());
        }
    }
    out
}

#[test]
fn bury_bombs_1() {
    let mut grid = Grid::new(3, 3, vec![Cell::Clean(0); 9]).unwrap();
    let bomb_locations: Vec<(usize, usize)> = vec![(1, 1)];
    Minefield::bury_bombs(&mut grid, &bomb_locations).unwrap();
    let expected_grid = cell_pattern("1111X1111");
    assert_eq!(grid.data(), &expected_grid[..]);
}

#[test]
fn bury_bombs_2() {
    let mut grid = Grid::new(3, 3, vec![Cell::Clean(0); 9]).unwrap();
    let bomb_locations: Vec<(usize, usize)> = vec![(0, 0), (1, 1), (2, 2)];
    Minefield::bury_bombs(&mut grid, &bomb_locations).unwrap();
    let expected_grid = cell_pattern("X212X212X");
    assert_eq!(grid.data(), &expected_grid[..]);
}

#[test]
fn bury_bombs_3() {
    let mut grid = Grid::new(3, 5, vec![Cell::Clean(0); 15]).unwrap();
    let bomb_locations: Vec<(usize, usize)> = vec![(0, 0), (0, 3), (1, 1), (1, 4), (2, 2)];

    // pattern for first 3 bombs
    // X__X_    X22X1
    // _X___ -> 2X211
    // _____    11100
    Minefield::bury_bombs(&mut grid, &bomb_locations[..3]).unwrap();
    let expected_grid = cell_pattern("X22X12X21111100");
    assert_eq!(grid.data(), &expected_grid[..]);

    // pattern
    // X__X_    X22X2
    // _X__X -> 2X33X
    // __X__    12X21
    Minefield::bury_bombs(&mut grid, &bomb_locations[3..]).unwrap();
    let expected_grid = cell_pattern("X22X22X33X12X21");
    assert_eq!(grid.data(), &expected_grid[..]);
}

#[test]
fn bury_bombs_order_does_not_matter() {
    let mut forward = Grid::new(3, 5, vec![Cell::Clean(0); 15]).unwrap();
    let mut backward = Grid::new(3, 5, vec![Cell::Clean(0); 15]).unwrap();
    Minefield::bury_bombs(&mut forward, &[(0, 0), (0, 3), (1, 1), (1, 4), (2, 2)]).unwrap();
    Minefield::bury_bombs(&mut backward, &[(2, 2), (1, 4), (1, 1), (0, 3), (0, 0)]).unwrap();
    assert_eq!(forward.data(), backward.data());
    assert_eq!(forward.data(), &cell_pattern("X22X22X33X12X21")[..]);
}

#[test]
fn bury_bombs_stops_at_a_location_outside() {
    let mut grid = Grid::new(3, 3, vec![Cell::Clean(0); 9]).unwrap();
    let done = Minefield::bury_bombs(&mut grid, &[(0, 0), (3, 1), (2, 2)]);
    assert_eq!(done, Err(GridError::OutOfRange));
    assert_eq!(grid.data(), &cell_pattern("X10110000")[..]);
}

#[test]
fn bury_bombs_counts_a_repeated_location_twice() {
    let mut grid = Grid::new(1, 3, vec![Cell::Clean(0); 3]).unwrap();
    Minefield::bury_bombs(&mut grid, &[(0, 0), (0, 0)]).unwrap();
    assert_eq!(grid.data(), &cell_pattern("X20")[..]);
}

#[test]
fn bury_bombs_never_raises_a_bomb() {
    let mut grid = Grid::new(1, 2, vec![Cell::Bomb, Cell::Clean(7)]).unwrap();
    Minefield::bury_bombs(&mut grid, &[(0, 1)]).unwrap();
    assert_eq!(grid.data(), &[Cell::Bomb, Cell::Bomb][..]);
    let mut grid = Grid::new(1, 2, vec![Cell::Bomb, Cell::Clean(7)]).unwrap();
    Minefield::bury_bombs(&mut grid, &[(0, 0)]).unwrap();
    assert_eq!(grid.data(), &[Cell::Bomb, Cell::Clean(8)][..]);
}

#[test]
fn new_places_exactly_the_bombs_asked_for() {
    for &(height, width, num_bombs) in &[(1, 1, 0), (1, 1, 1), (3, 7, 21), (5, 4, 7), (6, 6, 35)] {
        let field = Minefield::new(height, width, num_bombs).unwrap();
        assert_eq!(field.shape(), (height, width));
        assert_eq!(field.num_bombs(), num_bombs);
        let cells = cells_of(&field);
        let bombs = cells.iter().filter(|c| **c == Cell::Bomb).count();
        assert_eq!(bombs, num_bombs);
    }
}

#[test]
fn new_counts_the_bombs_around_every_clean_cell() {
    let (height, width) = (6usize, 9usize);
    let field = Minefield::new(height, width, 17).unwrap();
    for i in 0..height {
        for j in 0..width {
            if let Some(Cell::Clean(n)) = field.dig(i, j) {
                let mut around = 0;
                for di in 0..3 {
                    for dj in 0..3 {
                        if (di, dj) == (1, 1) || i + di < 1 || j + dj < 1 {
                            continue;
                        }
                        if field.dig(i + di - 1, j + dj - 1) == Some(Cell::Bomb) {
                            around += 1;
                        }
                    }
                }
                assert_eq!(n, around);
            }
        }
    }
}

#[test]
fn new_rejects_an_empty_field() {
    assert_eq!(Minefield::new(0, 4, 0).err(), Some(FieldError::InvalidDimensions));
    assert_eq!(Minefield::new(4, 0, 0).err(), Some(FieldError::InvalidDimensions));
    assert_eq!(Minefield::new(0, 0, 0).err(), Some(FieldError::InvalidDimensions));
    assert_eq!(Minefield::new(0, 0, 3).err(), Some(FieldError::InvalidDimensions));
    assert_eq!(
        Minefield::new(usize::MAX, 2, 0).err(),
        Some(FieldError::InvalidDimensions)
    );
}

#[test]
fn new_rejects_more_bombs_than_cells() {
    assert_eq!(Minefield::new(2, 3, 7).err(), Some(FieldError::TooManyBombs));
    assert_eq!(Minefield::new(1, 1, 2).err(), Some(FieldError::TooManyBombs));
    assert!(Minefield::new(2, 3, 6).is_ok());
}

#[test]
fn with_bombs_names_what_is_wrong() {
    assert_eq!(
        Minefield::with_bombs(0, 3, &[]).err(),
        Some(FieldError::InvalidDimensions)
    );
    assert_eq!(
        Minefield::with_bombs(0, 3, &[(0, 0), (0, 0)]).err(),
        Some(FieldError::InvalidDimensions)
    );
    assert_eq!(
        Minefield::with_bombs(2, 2, &[(0, 0), (2, 0)]).err(),
        Some(FieldError::BombOutOfRange)
    );
    assert_eq!(
        Minefield::with_bombs(2, 2, &[(0, 2)]).err(),
        Some(FieldError::BombOutOfRange)
    );
    assert_eq!(
        Minefield::with_bombs(2, 2, &[(1, 1), (0, 0), (1, 1)]).err(),
        Some(FieldError::DuplicateBomb)
    );
    assert_eq!(
        Minefield::with_bombs(2, 2, &[(1, 1), (1, 1), (5, 5)]).err(),
        Some(FieldError::BombOutOfRange)
    );
}

#[test]
fn with_bombs_single_bomb_in_the_middle() {
    let field = Minefield::with_bombs(3, 3, &[(1, 1)]).unwrap();
    assert_eq!(field.num_bombs(), 1);
    assert_eq!(cells_of(&field), cell_pattern("1111X1111"));
}

#[test]
fn with_bombs_on_the_diagonal() {
    let field = Minefield::with_bombs(3, 3, &[(0, 0), (1, 1), (2, 2)]).unwrap();
    assert_eq!(field.num_bombs(), 3);
    assert_eq!(cells_of(&field), cell_pattern("X212X212X"));
}

#[test]
fn with_bombs_on_every_cell_but_one() {
    let bombs = [(0, 0), (0, 1), (0, 2), (1, 0), (1, 2), (2, 0), (2, 1), (2, 2)];
    let field = Minefield::with_bombs(3, 3, &bombs).unwrap();
    assert_eq!(field.dig(1, 1), Some(Cell::Clean(8)));
    assert_eq!(field.num_bombs(), 8);
}

#[test]
fn dig_outside_the_field_finds_nothing() {
    let field = Minefield::with_bombs(2, 3, &[(1, 2)]).unwrap();
    assert_eq!(field.dig(2, 0), None);
    assert_eq!(field.dig(0, 3), None);
    assert_eq!(field.dig(1, 2), Some(Cell::Bomb));
    assert_eq!(field.dig(0, 0), Some(Cell::Clean(0)));
    assert_eq!(field.dig(0, 1), Some(Cell::Clean(1)));
}

#[test]
fn submit_wants_every_bomb_and_nothing_else() {
    let field = Minefield::with_bombs(3, 3, &[(0, 0), (2, 1)]).unwrap();
    assert!(field.submit(&[(2, 1), (0, 0)]));
    assert!(field.submit(&[(2, 1), (0, 0), (2, 1)]));
    assert!(!field.submit(&[]));
    assert!(!field.submit(&[(2, 1)]));
    assert!(!field.submit(&[(2, 1), (1, 1)]));
    assert!(!field.submit(&[(2, 1), (0, 0), (1, 1)]));
    assert!(!field.submit(&[(2, 1), (0, 0), (3, 3)]));
    assert!(!field.submit(&[(2, 1), (9, 9)]));
}

#[test]
fn submit_on_a_field_without_bombs() {
    let field = Minefield::with_bombs(2, 2, &[]).unwrap();
    assert!(field.submit(&[]));
    assert!(!field.submit(&[(0, 0)]));
}

#[test]
fn to_string_shows_bombs_and_counts() {
    let field = Minefield::with_bombs(3, 5, &[(0, 0), (0, 3), (1, 1), (1, 4), (2, 2)]).unwrap();
    assert_eq!(field.to_string(), "X 2 2 X 2\n2 X 3 3 X\n1 2 X 2 1");
    let grid = Grid::new(1, 2, vec![Cell::Bomb, Cell::Clean(0)]).unwrap();
    assert_eq!(grid.to_string(), "X 0");
}
