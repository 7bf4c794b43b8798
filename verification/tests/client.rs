use minesweeper::minefield::client::{CellState, Client, GameState, InvalidState};
use minesweeper::minefield::field::{Cell, Minefield};

fn generate_test_minefield() -> (Minefield, Vec<(usize, usize)>) {
    let bomb_locations: Vec<(usize, usize)> = vec![(0, 0), (0, 3), (1, 1), (1, 4), (2, 2)];
    let field = Minefield::with_bombs(3, 5, &bomb_locations).unwrap();
    (field, bomb_locations)
}

fn board_of(client: &Client) -> Vec<CellState> {
    client.get_state().data().to_vec()
}

#[test]
fn scenario_0() {
    let mut client = Client::new_random(10, 10, 0);
    assert_eq!(client.flag(0, 0), CellState::Flagged);
    assert_eq!(client.flag(0, 0), CellState::Hidden);
    assert_eq!(client.query_update(0, 0), Cell::Clean(0));
    assert_eq!(
        client.get_state().get(0, 0).unwrap(),
        CellState::Revealed(Cell::Clean(0))
    );
    assert_eq!(client.query_smart(0, 0), GameState::Running);
    for i in 0..10 {
        for j in 0..10 {
            assert_eq!(
                client.get_state().get(i, j),
                Some(CellState::Revealed(Cell::Clean(0)))
            );
        }
    }
}

#[test]
fn scenario_1() {
    let (minefield, bomb_locations) = generate_test_minefield();
    let mut c = Client::from_minefield(minefield);
    // ensure state is pristine when client is created
    let state = c.get_state();
    let (height, width) = state.shape();
    for i in 0..height {
        for j in 0..width {
            assert_eq!(state.get(i, j), Some(CellState::Hidden));
        }
    }
    // ensure game state is 'Running'
    assert_eq!(c.get_game_state(), GameState::Running);

    for (i, j) in bomb_locations {
        c.flag(i, j);
    }
    assert_eq!(c.submit(), Ok(GameState::Won));
    assert_eq!(c.get_game_state(), GameState::Won);

    // it is not allowed to submit another set of bombs. This should return an Err(_)
    assert!(c.submit().is_err());
}

#[test]
fn reveal_board() {
    let (minefield, _) = generate_test_minefield();
    let mut c = Client::from_minefield(minefield);
    // submitting an incorrect set of flagged cell results in losing the game
    assert_eq!(c.submit(), Ok(GameState::Lost));
    assert_eq!(c.get_game_state(), GameState::Lost);

    // mark some cells
    let marked_cells: &[(usize, usize)] = &[(1, 1), (2, 4)];
    for &(i, j) in marked_cells {
        c.flag(i, j);
    }
    // revealing the grid (all=false) reveals all Hidden cells (not flagged and marked)
    c.reveal_board(false);
    let mut cells = c.get_state().iter();
    let mut seen = 0;
    while let Some((i, j, &val)) = cells.next() {
        if marked_cells.contains(&(i, j)) {
            assert_eq!(val, CellState::Flagged);
        } else {
            assert!(matches!(val, CellState::Revealed(_)));
        }
        seen += 1;
    }
    assert_eq!(seen, 15);
}

#[test]
fn from_minefield_starts_hidden_and_running() {
    let (minefield, _) = generate_test_minefield();
    let c = Client::from_minefield(minefield);
    assert_eq!(c.get_state().shape(), (3, 5));
    assert_eq!(c.minefield().shape(), (3, 5));
    assert_eq!(c.num_bombs(), 5);
    assert_eq!(c.get_game_state(), GameState::Running);
    assert_eq!(board_of(&c), vec![CellState::Hidden; 15]);
    assert_eq!(c.get_flag_locations(), vec![]);
}

#[test]
fn new_random_starts_hidden_and_running() {
    let c = Client::new_random(4, 6, 9);
    assert_eq!(c.get_state().shape(), (4, 6));
    assert_eq!(c.num_bombs(), 9);
    assert_eq!(c.get_game_state(), GameState::Running);
    assert_eq!(board_of(&c), vec![CellState::Hidden; 24]);
}

#[test]
fn query_update_uncovers_one_cell() {
    let (minefield, _) = generate_test_minefield();
    let mut c = Client::from_minefield(minefield);
    assert_eq!(c.query_update(2, 4), Cell::Clean(1));
    assert_eq!(c.get_game_state(), GameState::Running);
    let mut expected = vec![CellState::Hidden; 15];
    expected[14] = CellState::Revealed(Cell::Clean(1));
    assert_eq!(board_of(&c), expected);
    assert_eq!(c.query_update(0, 1), Cell::Clean(2));
    expected[1] = CellState::Revealed(Cell::Clean(2));
    assert_eq!(board_of(&c), expected);
}

#[test]
fn query_update_on_a_bomb_loses() {
    let (minefield, _) = generate_test_minefield();
    let mut c = Client::from_minefield(minefield);
    assert_eq!(c.query_update(1, 1), Cell::Bomb);
    assert_eq!(c.get_game_state(), GameState::Lost);
    assert_eq!(c.get_state().get(1, 1), Some(CellState::Revealed(Cell::Bomb)));
}

#[test]
fn query_update_uncovers_a_flagged_cell_too() {
    let (minefield, _) = generate_test_minefield();
    let mut c = Client::from_minefield(minefield);
    c.flag(2, 0);
    assert_eq!(c.query_update(2, 0), Cell::Clean(1));
    assert_eq!(c.get_state().get(2, 0), Some(CellState::Revealed(Cell::Clean(1))));
}

fn shown(pattern: &str) -> Vec<CellState> {
    pattern
        .chars()
        .filter(|c| !c.is_whitespace())
        .map(|c| match c {
            '.' => CellState::Hidden,
            'F' => CellState::Flagged,
            'X' => CellState::Revealed(Cell::Bomb),
            digit => CellState::Revealed(Cell::Clean(digit.to_digit(10).unwrap() as u8)),
        })
        .collect()
}

// The field of the next tests:
//   0 0 0 1 X
//   0 0 0 1 1
//   1 1 0 0 0
//   X 1 0 0 0
fn wide_field() -> Minefield {
    Minefield::with_bombs(4, 5, &[(0, 4), (3, 0)]).unwrap()
}

#[test]
fn query_smart_floods_up_to_the_numbers() {
    let mut c = Client::from_minefield(wide_field());
    assert_eq!(c.query_smart(0, 0), GameState::Running);
    assert_eq!(c.get_game_state(), GameState::Running);
    assert_eq!(
        board_of(&c),
        shown(
            "0001.
             00011
             11000
             .1000"
        )
    );
}

#[test]
fn query_smart_is_the_same_from_any_cell_of_the_region() {
    let mut from_corner = Client::from_minefield(wide_field());
    from_corner.query_smart(3, 4);
    let mut from_middle = Client::from_minefield(wide_field());
    from_middle.query_smart(1, 1);
    assert_eq!(board_of(&from_corner), board_of(&from_middle));
}

#[test]
fn query_smart_on_a_number_uncovers_only_it() {
    let mut c = Client::from_minefield(wide_field());
    assert_eq!(c.query_smart(2, 1), GameState::Running);
    assert_eq!(
        board_of(&c),
        shown(
            ".....
             .....
             .1...
             ....."
        )
    );
    assert_eq!(c.get_game_state(), GameState::Running);
}

#[test]
fn query_smart_on_a_bomb_loses_and_returns_running() {
    let mut c = Client::from_minefield(wide_field());
    assert_eq!(c.query_smart(3, 0), GameState::Running);
    assert_eq!(c.get_game_state(), GameState::Lost);
    assert_eq!(
        board_of(&c),
        shown(
            ".....
             .....
             .....
             X...."
        )
    );
}

#[test]
fn query_smart_stops_at_flags() {
    //   0 0 0 0 0
    let mut c = Client::from_minefield(Minefield::with_bombs(1, 5, &[]).unwrap());
    c.flag(0, 2);
    c.query_smart(0, 0);
    assert_eq!(board_of(&c), shown("00F.."));
    c.query_smart(0, 2);
    assert_eq!(board_of(&c), shown("00000"));
}

#[test]
fn query_smart_stops_at_uncovered_cells() {
    let mut c = Client::from_minefield(Minefield::with_bombs(1, 5, &[]).unwrap());
    c.query_update(0, 1);
    c.query_smart(0, 0);
    assert_eq!(board_of(&c), shown("00..."));
}

#[test]
fn query_smart_from_a_flagged_cell_uncovers_it() {
    let mut c = Client::from_minefield(wide_field());
    c.flag(2, 2);
    c.query_smart(2, 2);
    assert_eq!(
        board_of(&c),
        shown(
            "0001.
             00011
             11000
             .1000"
        )
    );
}

#[test]
fn query_smart_uncovers_a_whole_field_without_bombs() {
    for &(height, width) in &[(1usize, 1usize), (1, 7), (5, 1), (4, 6)] {
        for row in 0..height {
            for col in 0..width {
                let mut c = Client::new_random(height, width, 0);
                c.query_smart(row, col);
                assert_eq!(
                    board_of(&c),
                    vec![CellState::Revealed(Cell::Clean(0)); height * width]
                );
                assert_eq!(c.get_game_state(), GameState::Running);
            }
        }
    }
}

#[test]
fn flag_toggles_hidden_cells_only() {
    let mut c = Client::from_minefield(wide_field());
    assert_eq!(c.flag(1, 3), CellState::Flagged);
    assert_eq!(c.get_state().get(1, 3), Some(CellState::Flagged));
    assert_eq!(c.flag(1, 3), CellState::Hidden);
    assert_eq!(c.get_state().get(1, 3), Some(CellState::Hidden));
    c.query_update(1, 3);
    assert_eq!(c.flag(1, 3), CellState::Revealed(Cell::Clean(1)));
    assert_eq!(c.get_state().get(1, 3), Some(CellState::Revealed(Cell::Clean(1))));
    assert_eq!(c.get_game_state(), GameState::Running);
}

#[test]
fn get_flag_locations_lists_flags_row_by_row() {
    let mut c = Client::from_minefield(wide_field());
    c.flag(3, 0);
    c.flag(0, 4);
    c.flag(1, 2);
    c.flag(1, 0);
    assert_eq!(c.get_flag_locations(), vec![(0, 4), (1, 0), (1, 2), (3, 0)]);
    c.flag(1, 2);
    assert_eq!(c.get_flag_locations(), vec![(0, 4), (1, 0), (3, 0)]);
}

#[test]
fn submit_wins_on_the_exact_flags() {
    let mut c = Client::from_minefield(wide_field());
    c.flag(3, 0);
    c.flag(0, 4);
    let before = board_of(&c);
    assert_eq!(c.submit(), Ok(GameState::Won));
    assert_eq!(c.get_game_state(), GameState::Won);
    assert_eq!(board_of(&c), before);
}

#[test]
fn submit_loses_on_a_flag_too_many_or_too_few() {
    let mut c = Client::from_minefield(wide_field());
    c.flag(3, 0);
    assert_eq!(c.submit(), Ok(GameState::Lost));

    let mut c = Client::from_minefield(wide_field());
    c.flag(3, 0);
    c.flag(0, 4);
    c.flag(0, 0);
    assert_eq!(c.submit(), Ok(GameState::Lost));
    assert_eq!(c.get_game_state(), GameState::Lost);
}

#[test]
fn submit_after_the_end_is_refused() {
    let mut c = Client::from_minefield(wide_field());
    c.flag(3, 0);
    c.flag(0, 4);
    assert_eq!(c.submit(), Ok(GameState::Won));
    assert_eq!(c.submit(), Err(InvalidState { state: GameState::Won }));
    assert_eq!(c.get_game_state(), GameState::Won);

    let mut c = Client::from_minefield(wide_field());
    c.query_update(3, 0);
    let before = board_of(&c);
    assert_eq!(c.submit(), Err(InvalidState { state: GameState::Lost }));
    assert_eq!(c.get_game_state(), GameState::Lost);
    assert_eq!(board_of(&c), before);
}

#[test]
fn reveal_board_spares_flags_unless_told() {
    let mut c = Client::from_minefield(wide_field());
    c.flag(0, 4);
    c.flag(1, 1);
    c.query_update(2, 0);
    c.reveal_board(false);
    assert_eq!(
        board_of(&c),
        shown(
            "0001F
             0F011
             11000
             X1000"
        )
    );
    assert_eq!(c.get_game_state(), GameState::Lost);
    c.reveal_board(true);
    assert_eq!(
        board_of(&c),
        shown(
            "0001X
             00011
             11000
             X1000"
        )
    );
}

#[test]
fn reveal_board_without_a_bomb_in_reach_keeps_running() {
    let mut c = Client::from_minefield(wide_field());
    c.flag(0, 4);
    c.flag(3, 0);
    c.reveal_board(false);
    assert_eq!(c.get_game_state(), GameState::Running);
    assert_eq!(
        board_of(&c),
        shown(
            "0001F
             00011
             11000
             F1000"
        )
    );
}

#[test]
fn reveal_board_keeps_a_won_game_won() {
    let mut c = Client::from_minefield(wide_field());
    c.flag(0, 4);
    c.flag(3, 0);
    assert_eq!(c.submit(), Ok(GameState::Won));
    c.reveal_board(false);
    assert_eq!(c.get_game_state(), GameState::Won);
    c.reveal_board(true);
    assert_eq!(c.get_game_state(), GameState::Won);
    assert_eq!(
        board_of(&c),
        shown(
            "0001X
             00011
             11000
             X1000"
        )
    );
}

#[test]
fn reveal_board_keeps_a_lost_game_lost() {
    let mut c = Client::from_minefield(wide_field());
    assert_eq!(c.submit(), Ok(GameState::Lost));
    c.flag(0, 4);
    c.flag(3, 0);
    c.reveal_board(false);
    assert_eq!(c.get_game_state(), GameState::Lost);
}
