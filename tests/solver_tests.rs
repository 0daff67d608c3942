use voltorb_flip::board::{Board, SumData, TileValue};
use voltorb_flip::game::Game;
use voltorb_flip::rules::{propagate_to_fixpoint, Domain};
use voltorb_flip::solver::{exhaustive, get_col_sums, get_row_sums, optimized_solver, Recommendation};

fn codes(rows: &[&[u8]]) -> Vec<Vec<TileValue>> {
    rows.iter().map(|r| r.iter().map(|&v| TileValue::to_enum(v)).collect()).collect()
}

fn game_of(solution: &[&[u8]], initial: &[&[u8]]) -> Game {
    Game::from_boards(Board::from_tiles(codes(solution)), Board::from_tiles(codes(initial)))
        .expect("a consistent pair of boards")
}

fn premade_game(i: usize) -> Game {
    let p = Board::premade_boards().remove(i);
    Game::from_boards(p.solution, p.initial).expect("fixtures are consistent")
}

fn full(n: usize) -> Vec<Vec<Domain>> {
    vec![vec![Domain { bomb: true, one: true, two: true, three: true }; n]; n]
}

fn probability(r: &Recommendation) -> f64 {
    if r.total == 0 {
        0.0
    } else {
        r.safe_count as f64 / r.total as f64
    }
}

#[test]
fn diagonal_bombs_fully_hidden() {
    let mut game = premade_game(2);
    let r = exhaustive(&mut game);
    assert_eq!(r, Recommendation { row: 0, col: 0, safe_count: 4, total: 6 });
    let p = probability(&r);
    assert!(p > 0.0 && p < 1.0);
}

#[test]
fn diagonal_bombs_optimized_matches() {
    let mut game = premade_game(2);
    let r = optimized_solver(&mut game);
    assert_eq!(r, Recommendation { row: 0, col: 0, safe_count: 4, total: 6 });
}

#[test]
fn first_fixture_has_one_completion() {
    let mut game = premade_game(0);
    assert_eq!(exhaustive(&mut game), Recommendation { row: 1, col: 4, safe_count: 1, total: 1 });
    assert_eq!(optimized_solver(&mut game), Recommendation { row: 1, col: 4, safe_count: 1, total: 1 });
}

#[test]
fn second_fixture_has_two_completions() {
    let mut game = premade_game(1);
    assert_eq!(exhaustive(&mut game), Recommendation { row: 1, col: 1, safe_count: 1, total: 2 });
    assert_eq!(optimized_solver(&mut game), Recommendation { row: 1, col: 1, safe_count: 1, total: 2 });
}

#[test]
fn solvers_agree_on_fixtures() {
    for i in 0..3 {
        let mut a = premade_game(i);
        let mut b = premade_game(i);
        let ex = exhaustive(&mut a);
        let opt = optimized_solver(&mut b);
        assert_eq!(opt.safe_count * ex.total, ex.safe_count * opt.total);
        assert!(ex.safe_count <= ex.total && opt.safe_count <= opt.total);
    }
}

#[test]
fn propagation_proves_a_safe_cell() {
    let mut game = game_of(&[&[1, 1], &[1, 66]], &[&[1, 0], &[1, 0]]);
    assert_eq!(optimized_solver(&mut game), Recommendation { row: 0, col: 1, safe_count: 1, total: 1 });
    assert_eq!(exhaustive(&mut game), Recommendation { row: 0, col: 1, safe_count: 1, total: 1 });
}

#[test]
fn no_hidden_cell_gives_sentinel() {
    let mut game = game_of(&[&[1, 2], &[66, 1]], &[&[1, 2], &[66, 1]]);
    let r = exhaustive(&mut game);
    assert_eq!(r, Recommendation { row: usize::MAX, col: usize::MAX, safe_count: 0, total: 1 });
    assert_eq!(probability(&r), 0.0);
}

#[test]
fn only_bombs_hidden_gives_sentinel() {
    let mut game = game_of(&[&[1, 66], &[66, 1]], &[&[1, 0], &[0, 1]]);
    let r = exhaustive(&mut game);
    assert_eq!(r, Recommendation { row: usize::MAX, col: usize::MAX, safe_count: 0, total: 1 });
    assert_eq!(optimized_solver(&mut game), r);
}

#[test]
fn probabilities_stay_in_unit_interval() {
    for _ in 0..3 {
        let mut game = Game::new(3);
        let ex = exhaustive(&mut game);
        let opt = optimized_solver(&mut game);
        for r in [ex, opt] {
            let p = probability(&r);
            assert!((0.0..=1.0).contains(&p));
        }
        assert!(ex.total > 0);
        assert_eq!(opt.safe_count * ex.total, ex.safe_count * opt.total);
    }
}

#[test]
fn reached_sum_forces_bomb() {
    let tiles = codes(&[&[2, 0], &[0, 0]]);
    let rows = vec![SumData { value_sum: 2, voltorb_count: 1 }, SumData { value_sum: 2, voltorb_count: 0 }];
    let cols = vec![SumData { value_sum: 3, voltorb_count: 0 }, SumData { value_sum: 1, voltorb_count: 1 }];
    let mut doms = full(2);
    propagate_to_fixpoint(&tiles, &rows, &get_row_sums(&tiles), &cols, &get_col_sums(&tiles), &mut doms);
    assert_eq!(doms[0][1], Domain { bomb: true, one: false, two: false, three: false });
    assert_eq!(doms[0][0], Domain { bomb: true, one: true, two: true, three: true });
}

#[test]
fn reached_sum_without_bomb_empties_domain() {
    let tiles = codes(&[&[2, 0], &[0, 0]]);
    let rows = vec![SumData { value_sum: 2, voltorb_count: 0 }, SumData { value_sum: 2, voltorb_count: 0 }];
    let cols = vec![SumData { value_sum: 3, voltorb_count: 0 }, SumData { value_sum: 1, voltorb_count: 0 }];
    let mut doms = full(2);
    propagate_to_fixpoint(&tiles, &rows, &get_row_sums(&tiles), &cols, &get_col_sums(&tiles), &mut doms);
    assert_eq!(doms[0][1], Domain { bomb: false, one: false, two: false, three: false });
}

#[test]
fn no_reward_removes_twos_and_threes() {
    let tiles = codes(&[&[0, 0, 0], &[0, 0, 0], &[0, 0, 0]]);
    let t = SumData { value_sum: 2, voltorb_count: 1 };
    let rows = vec![t; 3];
    let cols = vec![t; 3];
    let mut doms = full(3);
    propagate_to_fixpoint(&tiles, &rows, &get_row_sums(&tiles), &cols, &get_col_sums(&tiles), &mut doms);
    for row in &doms {
        for d in row {
            assert_eq!(*d, Domain { bomb: true, one: true, two: false, three: false });
        }
    }
}

#[test]
fn last_hidden_cell_gets_missing_value() {
    let tiles = codes(&[&[1, 0], &[1, 1]]);
    let rows = vec![SumData { value_sum: 4, voltorb_count: 0 }, SumData { value_sum: 2, voltorb_count: 0 }];
    let cols = vec![SumData { value_sum: 2, voltorb_count: 0 }, SumData { value_sum: 4, voltorb_count: 0 }];
    let mut doms = full(2);
    propagate_to_fixpoint(&tiles, &rows, &get_row_sums(&tiles), &cols, &get_col_sums(&tiles), &mut doms);
    assert_eq!(doms[0][1], Domain { bomb: false, one: false, two: false, three: true });
}

#[test]
fn disagreeing_last_cell_is_contradiction() {
    let tiles = codes(&[&[1, 0], &[1, 1]]);
    let rows = vec![SumData { value_sum: 4, voltorb_count: 0 }, SumData { value_sum: 2, voltorb_count: 0 }];
    let cols = vec![SumData { value_sum: 2, voltorb_count: 0 }, SumData { value_sum: 3, voltorb_count: 0 }];
    let mut doms = full(2);
    propagate_to_fixpoint(&tiles, &rows, &get_row_sums(&tiles), &cols, &get_col_sums(&tiles), &mut doms);
    assert_eq!(doms[0][1], Domain { bomb: false, one: false, two: false, three: false });
}

#[test]
fn second_propagation_changes_nothing() {
    let game = premade_game(0);
    let tiles = game.curr_board.get_tiles().clone();
    let rows = game.get_row_sums().clone();
    let cols = game.get_col_sums().clone();
    let pr = get_row_sums(&tiles);
    let pc = get_col_sums(&tiles);
    let mut doms = full(5);
    propagate_to_fixpoint(&tiles, &rows, &pr, &cols, &pc, &mut doms);
    let once = doms.clone();
    propagate_to_fixpoint(&tiles, &rows, &pr, &cols, &pc, &mut doms);
    assert_eq!(doms, once);
    assert_ne!(once, full(5));
}

#[test]
fn row_and_column_sums_of_tiles() {
    let tiles = codes(&[&[3, 0], &[66, 2]]);
    assert_eq!(
        get_row_sums(&tiles),
        vec![SumData { value_sum: 3, voltorb_count: 0 }, SumData { value_sum: 2, voltorb_count: 1 }]
    );
    assert_eq!(
        get_col_sums(&tiles),
        vec![SumData { value_sum: 3, voltorb_count: 1 }, SumData { value_sum: 2, voltorb_count: 0 }]
    );
}
