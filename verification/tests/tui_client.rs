use minesweeper::minefield::client::{CellState, Client, GameState};
use minesweeper::minefield::field::{Cell, Minefield};
use minesweeper::tui_client::{
    cellstate_to_prettystring, goodbye_sentence, TuiAction, TuiClient, TuiEvent, GRID_OFFSET,
};

fn generate_test_minefield() -> (Minefield, Vec<(usize, usize)>) {
    let bomb_locations: Vec<(usize, usize)> = vec![(0, 0), (0, 3), (1, 1), (1, 4), (2, 2)];
    let field = Minefield::with_bombs(3, 5, &bomb_locations).unwrap();
    (field, bomb_locations)
}

#[test]
fn coordinates() {
    let (field, _bomb_locations) = generate_test_minefield();
    let (h, w) = field.shape();
    let client = Client::from_minefield(field);
    let mut t_client = TuiClient::new(client);

    // basic conversion checks
    assert_eq!(
        t_client.to_grid_coordinates(GRID_OFFSET.0 + 1, GRID_OFFSET.1 + 1),
        Some((0, 0))
    );
    assert_eq!(
        t_client.to_grid_coordinates(GRID_OFFSET.0 + (h as u16), GRID_OFFSET.1 + (w as u16)),
        Some((2, 4))
    );
    assert_eq!(
        t_client
            .to_grid_coordinates(GRID_OFFSET.0 + 1 + (h as u16), GRID_OFFSET.1 + (w as u16)),
        None
    );
    assert_eq!(
        t_client
            .to_grid_coordinates(GRID_OFFSET.0 + (h as u16), GRID_OFFSET.1 + 1 + (w as u16)),
        None
    );
    assert_eq!(
        t_client.to_grid_coordinates(GRID_OFFSET.0, GRID_OFFSET.1),
        None
    );

    // Checks that the event parsing method does not allow
    // the cursor to leave the grid

    // Upper left corner
    let upp_left_cursor = t_client.cursor();
    assert_eq!(t_client.parse_event(TuiEvent::Left), TuiAction::Nothing);
    assert_eq!(t_client.cursor(), upp_left_cursor); // cannot go left

    assert_eq!(t_client.parse_event(TuiEvent::Up), TuiAction::Nothing);
    assert_eq!(t_client.cursor(), upp_left_cursor); // cannot go up

    assert_eq!(t_client.parse_event(TuiEvent::Down), TuiAction::Nothing);
    assert_eq!(
        t_client.cursor(),
        (upp_left_cursor.0, upp_left_cursor.1 + 1)
    ); // down is allowed

    // Bottom right corner
    let bott_right_curser = (GRID_OFFSET.1 + (w as u16), GRID_OFFSET.0 + (h as u16));
    assert_eq!(
        t_client.parse_event(TuiEvent::Release(
            bott_right_curser.0,
            bott_right_curser.1
        )),
        TuiAction::Nothing
    ); // goto corner
    assert_eq!(t_client.parse_event(TuiEvent::Right), TuiAction::Nothing);
    assert_eq!(t_client.cursor(), bott_right_curser); // cannot go up
    assert_eq!(t_client.parse_event(TuiEvent::Down), TuiAction::Nothing);
    assert_eq!(t_client.cursor(), bott_right_curser); // cannot go up
    assert_eq!(t_client.parse_event(TuiEvent::Left), TuiAction::Nothing);
    assert_eq!(
        t_client.cursor(),
        (bott_right_curser.0 - 1, bott_right_curser.1)
    ); // right is allowed
}

fn small_game() -> TuiClient {
    //   1 X 1
    //   1 1 1
    TuiClient::new(Client::from_minefield(Minefield::with_bombs(2, 3, &[(0, 1)]).unwrap()))
}

#[test]
fn new_puts_the_cursor_on_the_first_cell() {
    let game = small_game();
    assert_eq!(game.cursor(), (4, 6));
    assert_eq!(game.to_grid_coordinates(6, 4), Some((0, 0)));
    assert_eq!(game.client().get_state().shape(), (2, 3));
}

#[test]
fn to_grid_coordinates_at_the_edges_of_the_screen() {
    let game = small_game();
    assert_eq!(game.to_grid_coordinates(0, 0), None);
    assert_eq!(game.to_grid_coordinates(5, 4), None);
    assert_eq!(game.to_grid_coordinates(6, 3), None);
    assert_eq!(game.to_grid_coordinates(7, 6), Some((1, 2)));
    assert_eq!(game.to_grid_coordinates(8, 6), None);
    assert_eq!(game.to_grid_coordinates(7, 7), None);
    assert_eq!(game.to_grid_coordinates(u16::MAX, u16::MAX), None);
}

#[test]
fn parse_event_reads_the_keys() {
    let mut game = small_game();
    assert_eq!(game.parse_event(TuiEvent::Char('q')), TuiAction::Exit);
    assert_eq!(game.parse_event(TuiEvent::Char(' ')), TuiAction::Query);
    assert_eq!(game.parse_event(TuiEvent::Char('f')), TuiAction::Flag);
    assert_eq!(game.parse_event(TuiEvent::Char('s')), TuiAction::Submit);
    assert_eq!(game.parse_event(TuiEvent::Char('x')), TuiAction::Nothing);
    assert_eq!(game.parse_event(TuiEvent::Char('Q')), TuiAction::Nothing);
    assert_eq!(game.parse_event(TuiEvent::Other), TuiAction::Nothing);
    assert_eq!(game.cursor(), (4, 6));
}

#[test]
fn parse_event_ignores_a_click_beside_the_board() {
    let mut game = small_game();
    assert_eq!(game.parse_event(TuiEvent::Release(6, 7)), TuiAction::Nothing);
    assert_eq!(game.cursor(), (6, 7));
    assert_eq!(game.parse_event(TuiEvent::Release(7, 7)), TuiAction::Nothing);
    assert_eq!(game.cursor(), (6, 7));
    assert_eq!(game.parse_event(TuiEvent::Release(0, 0)), TuiAction::Nothing);
    assert_eq!(game.cursor(), (6, 7));
    assert_eq!(game.parse_event(TuiEvent::Up), TuiAction::Nothing);
    assert_eq!(game.cursor(), (6, 6));
    assert_eq!(game.parse_event(TuiEvent::Right), TuiAction::Nothing);
    assert_eq!(game.cursor(), (6, 6));
}

#[test]
fn act_plays_on_the_cell_under_the_cursor() {
    let mut game = small_game();
    assert_eq!(game.act(TuiEvent::Right), TuiAction::Nothing);
    assert_eq!(game.act(TuiEvent::Char('f')), TuiAction::Flag);
    assert_eq!(game.client().get_flag_locations(), vec![(0, 1)]);
    assert_eq!(game.act(TuiEvent::Down), TuiAction::Nothing);
    assert_eq!(game.act(TuiEvent::Char(' ')), TuiAction::Query);
    assert_eq!(
        game.client().get_state().get(1, 1),
        Some(CellState::Revealed(Cell::Clean(1)))
    );
    assert_eq!(game.act(TuiEvent::Char('q')), TuiAction::Exit);
    assert_eq!(game.client().get_game_state(), GameState::Running);
    assert_eq!(game.act(TuiEvent::Char('s')), TuiAction::Submit);
    assert_eq!(game.client().get_game_state(), GameState::Won);
}

#[test]
fn wrap_up_uncovers_all_once_the_game_is_over() {
    let mut game = small_game();
    assert!(!game.wrap_up(false));
    assert_eq!(game.client().get_state().get(0, 0), Some(CellState::Hidden));
    assert!(game.wrap_up(true));
    assert_eq!(game.client().get_game_state(), GameState::Lost);
    assert_eq!(
        game.client().get_state().data(),
        &[
            CellState::Revealed(Cell::Clean(1)),
            CellState::Revealed(Cell::Bomb),
            CellState::Revealed(Cell::Clean(1)),
            CellState::Revealed(Cell::Clean(1)),
            CellState::Revealed(Cell::Clean(1)),
            CellState::Revealed(Cell::Clean(1)),
        ][..]
    );

    let mut won = small_game();
    won.act(TuiEvent::Right);
    won.act(TuiEvent::Char('f'));
    won.act(TuiEvent::Char('s'));
    assert!(won.wrap_up(false));
    assert_eq!(won.client().get_game_state(), GameState::Won);
    assert_eq!(
        won.client().get_state().get(0, 1),
        Some(CellState::Revealed(Cell::Bomb))
    );
}

#[test]
fn goodbye_sentence_for_every_ending() {
    assert_eq!(goodbye_sentence(GameState::Lost, true), "No time anymore ? See you soon !");
    assert_eq!(goodbye_sentence(GameState::Lost, false), "Another time !");
    assert_eq!(goodbye_sentence(GameState::Won, false), "Congratulations ! You're the best! ");
    assert_eq!(goodbye_sentence(GameState::Won, true), "Congratulations ! You're the best! ");
    assert_eq!(goodbye_sentence(GameState::Running, true), "How do you do that ????");
}

#[test]
fn cellstate_to_prettystring_of_every_state() {
    assert_eq!(
        cellstate_to_prettystring(&CellState::Hidden),
        "\x1b[48;5;7m \x1b[49m"
    );
    assert_eq!(
        cellstate_to_prettystring(&CellState::Flagged),
        "\x1b[38;5;0m\x1b[48;5;7m¶\x1b[49m\x1b[39m"
    );
    assert_eq!(cellstate_to_prettystring(&CellState::Marked), "▟");
    assert_eq!(cellstate_to_prettystring(&CellState::Revealed(Cell::Bomb)), "*");
    assert_eq!(cellstate_to_prettystring(&CellState::Revealed(Cell::Clean(0))), " ");
    let numbers = ["4", "2", "1", "6", "10", "5", "7", "7"];
    for count in 1..=8u8 {
        assert_eq!(
            cellstate_to_prettystring(&CellState::Revealed(Cell::Clean(count))),
            format!("\x1b[38;5;{}m{}\x1b[39m", numbers[count as usize - 1], count)
        );
    }
}

#[test]
fn draw_box_of_the_smallest_and_of_a_larger_frame() {
    assert_eq!(TuiClient::draw_box(5, 3, 2, 2), "\x1b[5;3H┏┓\x1b[6;3H┗┛");
    assert_eq!(
        TuiClient::draw_box(5, 3, 4, 5),
        "\x1b[5;3H┏━━━┓\x1b[6;3H┃\x1b[6;7H┃\x1b[7;3H┃\x1b[7;7H┃\x1b[8;3H┗━━━┛"
    );
    assert_eq!(TuiClient::draw_box(0, 1, 2, 3), "\x1b[0;1H┏━┓\x1b[1;1H┗━┛");
}

#[test]
fn draw_paints_the_whole_picture() {
    let mut game = small_game();
    let white = "\x1b[48;5;7m \x1b[49m";
    let head = "\x1b[2J\x1b[1;1H\x1b[48;5;7m\x1b[38;5;0m *  MINESWEEPER ¶ \x1b[49m\x1b[39m\r\n";
    let frame = "\x1b[5;3H┏━━━┓\x1b[6;3H┃\x1b[6;7H┃\x1b[7;3H┃\x1b[7;7H┃\x1b[8;3H┗━━━┛";
    assert_eq!(
        game.draw(None),
        format!(
            "{head}Flagged bombs: 0/1 \r\n{frame}\x1b[6;4H{w}{w}{w}\x1b[7;4H{w}{w}{w}\x1b[6;4H\x1b[1 q",
            head = head,
            frame = frame,
            w = white
        )
    );
    game.act(TuiEvent::Right);
    game.act(TuiEvent::Char('f'));
    game.act(TuiEvent::Down);
    game.act(TuiEvent::Char(' '));
    assert_eq!(
        game.draw(Some("1.5s")),
        format!(
            "{head}Flagged bombs: 1/1 (Submit with 's')\r\nTime: 1.5s{frame}\x1b[6;4H{w}{flag}{w}\x1b[7;4H{w}{one}{w}\x1b[7;5H\x1b[1 q",
            head = head,
            frame = frame,
            w = white,
            flag = "\x1b[38;5;0m\x1b[48;5;7m¶\x1b[49m\x1b[39m",
            one = "\x1b[38;5;4m1\x1b[39m"
        )
    );
}

#[test]
fn farewell_stands_under_the_board() {
    let mut game = small_game();
    assert_eq!(game.farewell(false), "\x1b[10;1H\x1b[JHow do you do that ????\r\n");
    game.wrap_up(true);
    assert_eq!(game.farewell(true), "\x1b[10;1H\x1b[JNo time anymore ? See you soon !\r\n");
}
