use voltorb_flip::board::{Board, SumData, TileValue};

fn codes(rows: &[&[u8]]) -> Vec<Vec<TileValue>> {
    rows.iter().map(|r| r.iter().map(|&v| TileValue::to_enum(v)).collect()).collect()
}

#[test]
fn value_round_trip_for_every_value() {
    for t in [
        TileValue::Hidden,
        TileValue::One,
        TileValue::Two,
        TileValue::Three,
        TileValue::Voltorb,
        TileValue::ERR,
    ] {
        assert_eq!(TileValue::to_enum(t.to_value()), t);
    }
    for v in [0u8, 1, 2, 3, 66] {
        assert_eq!(TileValue::to_enum(v).to_value(), v);
    }
}

#[test]
fn numeric_codes_map_to_values() {
    assert_eq!(TileValue::Hidden.to_value(), 0);
    assert_eq!(TileValue::One.to_value(), 1);
    assert_eq!(TileValue::Two.to_value(), 2);
    assert_eq!(TileValue::Three.to_value(), 3);
    assert_eq!(TileValue::Voltorb.to_value(), 66);
    assert_eq!(TileValue::ERR.to_value(), 255);
}

#[test]
fn unknown_codes_are_invalid() {
    for v in [4u8, 5, 65, 67, 100, 254, 255] {
        assert_eq!(TileValue::to_enum(v), TileValue::ERR);
    }
}

#[test]
fn new_board_is_uniform() {
    let b = Board::new(4, TileValue::Hidden);
    assert_eq!(b.get_board_dim(), 4);
    assert_eq!(b.get_tiles().len(), 4);
    for i in 0..4 {
        for j in 0..4 {
            assert_eq!(b.get_val(i, j), TileValue::Hidden);
        }
    }
}

#[test]
fn empty_board_has_no_cells() {
    let b = Board::new(0, TileValue::One);
    assert_eq!(b.get_board_dim(), 0);
    assert!(b.get_row_sums().is_empty());
    assert!(b.get_hidden_tile_indices().is_empty());
}

#[test]
fn set_val_changes_one_cell() {
    let mut b = Board::new(3, TileValue::Hidden);
    b.set_val(1, 2, TileValue::Three);
    assert_eq!(b.get_val(1, 2), TileValue::Three);
    assert_eq!(b.get_val(2, 1), TileValue::Hidden);
    assert_eq!(b.get_hidden_tile_indices().len(), 8);
}

#[test]
fn row_and_column_sums() {
    let b = Board::from_tiles(codes(&[&[1, 2, 66], &[3, 0, 1], &[66, 66, 2]]));
    assert_eq!(
        b.get_row_sums(),
        vec![
            SumData { value_sum: 3, voltorb_count: 1 },
            SumData { value_sum: 4, voltorb_count: 0 },
            SumData { value_sum: 2, voltorb_count: 2 },
        ]
    );
    assert_eq!(
        b.get_col_sums(),
        vec![
            SumData { value_sum: 4, voltorb_count: 1 },
            SumData { value_sum: 2, voltorb_count: 1 },
            SumData { value_sum: 3, voltorb_count: 1 },
        ]
    );
}

#[test]
fn hidden_cells_in_row_major_order() {
    let b = Board::from_tiles(codes(&[&[0, 1, 0], &[1, 1, 1], &[0, 0, 2]]));
    assert_eq!(b.get_hidden_tile_indices(), vec![(0, 0), (0, 2), (2, 0), (2, 1)]);
}

#[test]
fn solution_from_order_places_twos_threes_bombs() {
    let mut order = Vec::new();
    for r in 0..4 {
        for c in 0..4 {
            order.push((r, c));
        }
    }
    let b = Board::solution_from_order(4, &order);
    let expected = codes(&[&[2, 2, 2, 2], &[2, 2, 3, 3], &[3, 3, 66, 66], &[66, 1, 1, 1]]);
    assert_eq!(b.get_tiles(), &expected);
}

#[test]
fn solution_from_short_order_places_fewer() {
    let order = vec![(2, 2), (0, 0), (1, 1)];
    let b = Board::solution_from_order(3, &order);
    let expected = codes(&[&[2, 1, 1], &[1, 2, 1], &[1, 1, 2]]);
    assert_eq!(b.get_tiles(), &expected);
}

#[test]
fn random_solution_has_fixed_counts() {
    let mut b = Board::new(5, TileValue::Hidden);
    b.create_solution();
    let mut counts = [0usize; 4];
    for i in 0..5 {
        for j in 0..5 {
            match b.get_val(i, j) {
                TileValue::One => counts[0] += 1,
                TileValue::Two => counts[1] += 1,
                TileValue::Three => counts[2] += 1,
                TileValue::Voltorb => counts[3] += 1,
                other => panic!("unexpected value {:?}", other),
            }
        }
    }
    assert_eq!(counts, [12, 6, 4, 3]);
}

#[test]
fn random_solution_on_small_board_runs_out_of_cells() {
    let mut b = Board::new(3, TileValue::Hidden);
    b.create_solution();
    let twos = b.get_tiles().iter().flatten().filter(|&&t| t == TileValue::Two).count();
    let threes = b.get_tiles().iter().flatten().filter(|&&t| t == TileValue::Three).count();
    assert_eq!(twos, 6);
    assert_eq!(threes, 3);
}

#[test]
fn premade_boards_have_their_dimensions() {
    let boards = Board::premade_boards();
    assert_eq!(boards.len(), 3);
    assert_eq!(boards[0].get_board_dim(), 5);
    assert_eq!(boards[1].get_board_dim(), 5);
    assert_eq!(boards[2].get_board_dim(), 3);
    assert_eq!(boards[0].initial.get_hidden_tile_indices().len(), 8);
    assert_eq!(boards[1].solution.get_val(1, 3), TileValue::Voltorb);
    assert_eq!(boards[2].initial.get_hidden_tile_indices().len(), 9);
}

#[test]
fn random_solutions_follow_a_shuffled_order() {
    let mut order = Vec::new();
    for r in 0..5 {
        for c in 0..5 {
            order.push((r, c));
        }
    }
    let unshuffled = Board::solution_from_order(5, &order);
    let mut differs = false;
    for _ in 0..20 {
        let mut b = Board::new(5, TileValue::Hidden);
        b.create_solution();
        if b.get_tiles() != unshuffled.get_tiles() {
            differs = true;
        }
    }
    assert!(differs);
}
