use minefield::{Board, BoardOptions, GameError, Level};

fn count_mines(b: &Board) -> usize {
    b.mines.iter().filter(|m| **m).count()
}

#[test]
fn default_options_are_nine_by_nine_with_ten_mines() {
    let o = BoardOptions::default();
    assert_eq!(o.width, 9);
    assert_eq!(o.height, 9);
    assert_eq!(o.bomb_count, 10);
    assert_eq!(o.area(), 81);
}

#[test]
fn level_presets() {
    assert_eq!(Level::Base.options(), BoardOptions::new(9, 9, 10));
    assert_eq!(Level::Pro.options(), BoardOptions::new(16, 16, 40));
    assert_eq!(Level::Expert.options(), BoardOptions::new(30, 16, 99));
}

#[test]
fn generate_places_exactly_the_requested_mines() {
    for _ in 0..20 {
        let b = Board::generate(&BoardOptions::new(9, 9, 10)).unwrap();
        assert_eq!(b.width, 9);
        assert_eq!(b.height, 9);
        assert_eq!(b.bomb_count, 10);
        assert_eq!(b.mines.len(), 81);
        assert_eq!(count_mines(&b), 10);
    }
}

#[test]
fn generate_accepts_full_and_empty_boards() {
    let full = Board::generate(&BoardOptions::new(4, 4, 16)).unwrap();
    assert_eq!(count_mines(&full), 16);
    let empty = Board::generate(&BoardOptions::new(4, 4, 0)).unwrap();
    assert_eq!(count_mines(&empty), 0);
}

#[test]
fn generate_rejects_impossible_parameters() {
    assert!(matches!(
        Board::generate(&BoardOptions::new(3, 3, 10)),
        Err(GameError::InvalidParameters)
    ));
    assert!(matches!(
        Board::generate(&BoardOptions::new(0, 5, 0)),
        Err(GameError::InvalidParameters)
    ));
    assert!(matches!(
        Board::generate(&BoardOptions::new(5, 0, 0)),
        Err(GameError::InvalidParameters)
    ));
}

#[test]
fn reset_redraws_the_grid_and_keeps_the_count() {
    let mut b = Board::with_mines(2, 2, vec![true, false, false, false]).unwrap();
    assert!(b.reset(&BoardOptions::new(5, 4, 7)).is_ok());
    assert_eq!(b.width, 5);
    assert_eq!(b.height, 4);
    assert_eq!(b.bomb_count, 7);
    assert_eq!(count_mines(&b), 7);
}

#[test]
fn failed_reset_keeps_the_previous_board() {
    let mut b = Board::with_mines(2, 2, vec![true, false, false, false]).unwrap();
    assert_eq!(
        b.reset(&BoardOptions::new(2, 2, 5)),
        Err(GameError::InvalidParameters)
    );
    assert_eq!(b.width, 2);
    assert_eq!(b.height, 2);
    assert_eq!(b.bomb_count, 1);
    assert_eq!(b.mines, vec![true, false, false, false]);
}

#[test]
fn with_mines_rejects_a_layout_of_the_wrong_size() {
    assert!(matches!(
        Board::with_mines(2, 2, vec![true, false]),
        Err(GameError::InvalidParameters)
    ));
}

#[test]
fn mine_lookup_is_false_off_the_board() {
    let b = Board::with_mines(3, 3, vec![
        true, false, false,
        false, false, false,
        false, false, true,
    ])
    .unwrap();
    assert!(b.is_bomb_at((0, 0)));
    assert!(b.is_bomb_at((2, 2)));
    assert!(!b.is_bomb_at((1, 1)));
    assert!(!b.is_bomb_at((3, 0)));
    assert!(!b.is_bomb_at((0, 3)));
    assert!(!b.is_bomb_at((u32::MAX, u32::MAX)));
}

#[test]
fn neighbor_count_on_the_hand_built_grid() {
    // mines in opposite corners of a 3x3 grid: the center sees both
    let b = Board::with_mines(3, 3, vec![
        true, false, false,
        false, false, false,
        false, false, true,
    ])
    .unwrap();
    assert_eq!(b.bomb_count_at((1, 1)), 2);
    assert_eq!(b.bomb_count_at((1, 0)), 1);
    assert_eq!(b.bomb_count_at((2, 0)), 0);
    assert_eq!(b.bomb_count_at((2, 1)), 1);
    // a mine cell itself reports zero, and so does an off-board coordinate
    assert_eq!(b.bomb_count_at((0, 0)), 0);
    assert_eq!(b.bomb_count_at((7, 7)), 0);
}

#[test]
fn neighbor_enumeration_is_clockwise_from_top_left() {
    let b = Board::with_mines(3, 3, vec![false; 9]).unwrap();
    assert_eq!(
        b.safe_square_at((1, 1)),
        vec![
            (0, 2),
            (1, 2),
            (2, 2),
            (2, 1),
            (2, 0),
            (1, 0),
            (0, 0),
            (0, 1)
        ]
    );
    assert_eq!(b.safe_square_at((0, 0)), vec![(0, 1), (1, 1), (1, 0)]);
    assert_eq!(b.safe_square_at((2, 2)), vec![(2, 1), (1, 1), (1, 2)]);
}

#[test]
fn console_output_frames_two_wide_cells_top_row_first() {
    let b = Board::with_mines(2, 2, vec![true, false, false, false]).unwrap();
    assert_eq!(b.console_output(), "-------\n| 0  0|\n|10  0|\n-------");
    let c = Board::with_mines(3, 1, vec![false, true, false]).unwrap();
    assert_eq!(c.console_output(), "----\n| 0 10  0|\n----");
}
