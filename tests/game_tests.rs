use voltorb_flip::board::{Board, SumData, TileValue};
use voltorb_flip::game::{Game, GameState};

fn codes(rows: &[&[u8]]) -> Vec<Vec<TileValue>> {
    rows.iter().map(|r| r.iter().map(|&v| TileValue::to_enum(v)).collect()).collect()
}

fn game_of(solution: &[&[u8]], initial: &[&[u8]]) -> Game {
    Game::from_boards(Board::from_tiles(codes(solution)), Board::from_tiles(codes(initial)))
        .expect("a consistent pair of boards")
}

#[test]
fn new_game_is_hidden_and_in_progress() {
    let game = Game::new(5);
    assert_eq!(game.get_state(), GameState::InProgress);
    assert_eq!(game.get_score(), 0);
    assert_eq!(game.curr_board.get_hidden_tile_indices().len(), 25);
    assert_eq!(game.get_sol().get_row_sums(), *game.get_row_sums());
    assert_eq!(game.get_sol().get_col_sums(), *game.get_col_sums());
}

#[test]
fn board_without_twos_or_threes_is_won_at_once() {
    let mut game = game_of(&[&[1, 66], &[1, 1]], &[&[0, 0], &[0, 0]]);
    assert_eq!(game.check_sol(), GameState::Won);
}

#[test]
fn hidden_two_keeps_game_in_progress() {
    let mut game = game_of(&[&[1, 2], &[1, 66]], &[&[0, 0], &[0, 0]]);
    assert_eq!(game.check_sol(), GameState::InProgress);
}

#[test]
fn revealing_a_bomb_loses_and_keeps_score() {
    let mut game = game_of(&[&[2, 66], &[1, 3]], &[&[0, 0], &[0, 0]]);
    assert_eq!(game.click(0, 0), GameState::InProgress);
    let before = game.get_score();
    assert_eq!(game.click(0, 1), GameState::Lost);
    assert_eq!(game.get_score(), before);
    assert_eq!(game.get_state(), GameState::Lost);
    assert_eq!(game.curr_board.get_val(0, 1), TileValue::Voltorb);
}

#[test]
fn revealing_all_twos_and_threes_wins() {
    let mut game = game_of(&[&[2, 66], &[1, 3]], &[&[0, 0], &[0, 0]]);
    assert_eq!(game.click(1, 1), GameState::InProgress);
    assert_eq!(game.click(0, 0), GameState::Won);
    assert_eq!(game.get_state(), GameState::Won);
    assert_eq!(game.curr_board.get_val(1, 0), TileValue::Hidden);
}

#[test]
fn revealing_a_one_changes_no_score() {
    let mut game = game_of(&[&[2, 1], &[1, 1]], &[&[0, 0], &[0, 0]]);
    assert_eq!(game.click(0, 1), GameState::InProgress);
    assert_eq!(game.get_score(), 0);
    assert_eq!(game.curr_board.get_val(0, 1), TileValue::One);
}

#[test]
fn targets_are_the_solution_sums() {
    let game = game_of(&[&[2, 66], &[1, 3]], &[&[0, 0], &[0, 0]]);
    assert_eq!(
        *game.get_row_sums(),
        vec![SumData { value_sum: 2, voltorb_count: 1 }, SumData { value_sum: 4, voltorb_count: 0 }]
    );
    assert_eq!(
        *game.get_col_sums(),
        vec![SumData { value_sum: 3, voltorb_count: 0 }, SumData { value_sum: 3, voltorb_count: 1 }]
    );
}

#[test]
fn from_boards_rejects_inconsistent_boards() {
    let sol = || Board::from_tiles(codes(&[&[2, 66], &[1, 3]]));
    // a revealed cell differing from the solution
    assert!(Game::from_boards(sol(), Board::from_tiles(codes(&[&[3, 0], &[0, 0]]))).is_none());
    // different dimensions
    assert!(Game::from_boards(sol(), Board::new(3, TileValue::Hidden)).is_none());
    // a solution holding a hidden cell
    assert!(Game::from_boards(
        Board::from_tiles(codes(&[&[2, 0], &[1, 3]])),
        Board::new(2, TileValue::Hidden)
    )
    .is_none());
    // a solution holding an invalid value
    assert!(Game::from_boards(
        Board::from_tiles(codes(&[&[2, 9], &[1, 3]])),
        Board::new(2, TileValue::Hidden)
    )
    .is_none());
    // ragged rows
    assert!(Game::from_boards(
        Board::from_tiles(vec![vec![TileValue::One, TileValue::One], vec![TileValue::One]]),
        Board::new(2, TileValue::Hidden)
    )
    .is_none());
    assert!(Game::from_boards(sol(), Board::new(2, TileValue::Hidden)).is_some());
}

#[test]
fn premade_boards_make_games() {
    for p in Board::premade_boards() {
        let game = Game::from_boards(p.solution.clone(), p.initial.clone());
        assert!(game.is_some());
    }
}
