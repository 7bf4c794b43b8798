use minesweeper::ascii_client::{to_char_mono, AsciiClient, Command};
use minesweeper::minefield::client::{CellState, Client, GameState};
use minesweeper::minefield::field::{Cell, Minefield};

#[test]
fn input() {
    assert_eq!(AsciiClient::parse_input("a1"), Command::Query(1, 0));
    assert_eq!(AsciiClient::parse_input("e8"), Command::Query(8, 4));
    assert_eq!(AsciiClient::parse_input("q"), Command::Exit);
    assert_eq!(AsciiClient::parse_input("s"), Command::Submit);
    assert_eq!(AsciiClient::parse_input("nn"), Command::Nothing);
    assert_eq!(AsciiClient::parse_input("55"), Command::Nothing);
    assert_eq!(AsciiClient::parse_input("fa4"), Command::Flag(4, 0));
    assert_eq!(AsciiClient::parse_input("dz4"), Command::Query(4, 25));
}

#[test]
fn parse_input_takes_large_letters_too() {
    assert_eq!(AsciiClient::parse_input("Q"), Command::Exit);
    assert_eq!(AsciiClient::parse_input("S"), Command::Submit);
    assert_eq!(AsciiClient::parse_input("B7"), Command::Query(7, 1));
    assert_eq!(AsciiClient::parse_input("FC0"), Command::Flag(0, 2));
    assert_eq!(AsciiClient::parse_input("Dz9"), Command::Query(9, 25));
}

#[test]
fn parse_input_means_nothing_otherwise() {
    for line in ["", "x", "1", "1a", "a", "aa1", "xa1", "fa", "f11", "da1x", "a10", "é1", "fé1", "ｑ", " a1"] {
        assert_eq!(AsciiClient::parse_input(line), Command::Nothing, "{:?}", line);
    }
}

#[test]
fn parse_coordinate_reads_a_letter_and_a_digit() {
    assert_eq!(AsciiClient::parse_coordinate("a0"), Some((0, 0)));
    assert_eq!(AsciiClient::parse_coordinate("z9"), Some((9, 25)));
    assert_eq!(AsciiClient::parse_coordinate("M3"), Some((3, 12)));
    assert_eq!(AsciiClient::parse_coordinate("c4rest"), Some((4, 2)));
    assert_eq!(AsciiClient::parse_coordinate("3c"), None);
    assert_eq!(AsciiClient::parse_coordinate("cc"), None);
    assert_eq!(AsciiClient::parse_coordinate("c٣"), None);
    assert_eq!(AsciiClient::parse_coordinate("7"), None);
}

fn small_game() -> AsciiClient {
    //   1 X 1
    //   1 1 1
    AsciiClient { client: Client::from_minefield(Minefield::with_bombs(2, 3, &[(0, 1)]).unwrap()) }
}

#[test]
fn check_coordinates_keeps_cells_of_the_game() {
    let game = small_game();
    assert_eq!(game.check_coordinates(Command::Query(1, 2)), Command::Query(1, 2));
    assert_eq!(game.check_coordinates(Command::Flag(0, 0)), Command::Flag(0, 0));
    assert_eq!(game.check_coordinates(Command::Query(2, 0)), Command::Nothing);
    assert_eq!(game.check_coordinates(Command::Flag(0, 3)), Command::Nothing);
    assert_eq!(game.check_coordinates(Command::Exit), Command::Exit);
    assert_eq!(game.check_coordinates(Command::Submit), Command::Submit);
    assert_eq!(game.check_coordinates(Command::Nothing), Command::Nothing);
}

#[test]
fn to_char_mono_of_every_state() {
    assert_eq!(to_char_mono(&CellState::Hidden), "█");
    assert_eq!(to_char_mono(&CellState::Flagged), "▓");
    assert_eq!(to_char_mono(&CellState::Marked), "▟");
    assert_eq!(to_char_mono(&CellState::Revealed(Cell::Bomb)), "*");
    assert_eq!(to_char_mono(&CellState::Revealed(Cell::Clean(0))), " ");
    assert_eq!(to_char_mono(&CellState::Revealed(Cell::Clean(1))), "1");
    assert_eq!(to_char_mono(&CellState::Revealed(Cell::Clean(8))), "8");
    assert_eq!(to_char_mono(&CellState::Revealed(Cell::Clean(12))), "12");
}

#[test]
fn to_string_frames_the_board() {
    let mut game = small_game();
    game.client.flag(0, 1);
    game.client.query_update(1, 0);
    assert_eq!(
        game.to_string(),
        "state: Running\n   abc \n  ┏━━━┓\n 0┃█▓█┃\n 1┃1██┃\n  ┗━━━┛\n"
    );
    game.client.query_update(0, 1);
    assert_eq!(
        game.to_string(),
        "state: Lost\n   abc \n  ┏━━━┓\n 0┃█*█┃\n 1┃1██┃\n  ┗━━━┛\n"
    );
}

#[test]
fn to_string_numbers_rows_beyond_nine() {
    let game = AsciiClient { client: Client::from_minefield(Minefield::with_bombs(11, 1, &[]).unwrap()) };
    let text = game.to_string();
    let lines: Vec<&str> = text.lines().collect();
    assert_eq!(lines.len(), 15);
    assert_eq!(lines[1], "   a ");
    assert_eq!(lines[3], " 0┃█┃");
    assert_eq!(lines[12], " 9┃█┃");
    assert_eq!(lines[13], "10┃█┃");
    assert_eq!(lines[14], "  ┗━┛");
}

#[test]
fn to_string_of_a_won_game_with_all_letters() {
    let mut game = AsciiClient { client: Client::from_minefield(Minefield::with_bombs(1, 26, &[]).unwrap()) };
    game.client.submit().unwrap();
    let text = game.to_string();
    let lines: Vec<&str> = text.lines().collect();
    assert_eq!(lines[0], "state: Won");
    assert_eq!(lines[1], "   abcdefghijklmnopqrstuvwxyz ");
}

#[test]
fn perform_plays_the_command() {
    let mut game = small_game();
    assert!(game.perform(Command::Flag(0, 1)));
    assert_eq!(game.client.get_flag_locations(), vec![(0, 1)]);
    assert!(game.perform(Command::Query(1, 1)));
    assert_eq!(
        game.client.get_state().get(1, 1),
        Some(CellState::Revealed(Cell::Clean(1)))
    );
    assert!(game.perform(Command::Nothing));
    assert!(!game.perform(Command::Exit));
    assert_eq!(game.client.get_game_state(), GameState::Running);
    assert!(game.perform(Command::Submit));
    assert_eq!(game.client.get_game_state(), GameState::Won);
}
