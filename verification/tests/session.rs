use minefield::{
    Board, BoardOptions, CellState, GameError, GamePhase, GameSession, InputEvent, LastStep,
};

fn session_with(width: u32, height: u32, mines: Vec<bool>) -> GameSession {
    GameSession::with_board(Board::with_mines(width, height, mines).unwrap())
}

#[test]
fn new_session_starts_hidden_and_in_progress() {
    let s = GameSession::new(&BoardOptions::new(4, 3, 2)).unwrap();
    assert_eq!(s.phase, GamePhase::InProgress);
    assert!(s.last_step.coord.is_none());
    assert!(!s.last_step.uncover);
    assert!(!s.started());
    for x in 0..4 {
        for y in 0..3 {
            assert_eq!(s.cell_state((x, y)), CellState::Hidden);
        }
    }
}

#[test]
fn new_session_rejects_impossible_parameters() {
    assert!(matches!(
        GameSession::new(&BoardOptions::new(2, 2, 9)),
        Err(GameError::InvalidParameters)
    ));
}

#[test]
fn uncovering_a_numbered_cell_reveals_its_count() {
    let mut s = session_with(3, 3, vec![
        true, false, false,
        false, false, false,
        false, false, true,
    ]);
    s.uncover((1, 0));
    assert_eq!(s.cell_state((1, 0)), CellState::Revealed(1));
    assert_eq!(s.phase, GamePhase::InProgress);
    assert!(s.started());
    assert_eq!(s.last_step.coord, Some((1, 0)));
}

#[test]
fn uncover_off_the_board_is_a_no_op() {
    let mut s = session_with(2, 2, vec![true, false, false, false]);
    s.uncover((5, 5));
    assert_eq!(s.phase, GamePhase::InProgress);
    assert!(s.last_step.coord.is_none());
    for x in 0..2 {
        for y in 0..2 {
            assert_eq!(s.cell_state((x, y)), CellState::Hidden);
        }
    }
}

#[test]
fn win_fires_exactly_on_the_third_safe_reveal() {
    // 2x2 board with one mine: the win comes with the third safe cell,
    // not before
    let mut s = session_with(2, 2, vec![true, false, false, false]);
    s.uncover((1, 0));
    assert_eq!(s.phase, GamePhase::InProgress);
    s.uncover((0, 1));
    assert_eq!(s.phase, GamePhase::InProgress);
    s.uncover((1, 1));
    assert_eq!(s.phase, GamePhase::Won);
    // the win auto-flags the remaining hidden mine
    assert_eq!(s.cell_state((0, 0)), CellState::Flagged);
    assert_eq!(s.count_unrevealed(), 1);
}

#[test]
fn first_click_on_a_mine_is_forgiven_then_fatal() {
    let mut s = session_with(2, 2, vec![true, false, false, true]);
    s.uncover((0, 0));
    assert_eq!(s.phase, GamePhase::InProgress);
    assert_eq!(s.cell_state((0, 0)), CellState::Hidden);
    assert!(s.last_step.uncover);
    assert_eq!(s.last_step.coord, Some((0, 0)));
    s.uncover((0, 0));
    assert_eq!(s.phase, GamePhase::Lost);
    assert_eq!(s.cell_state((0, 0)), CellState::DetonatedMine);
    // the other still-hidden mine is shown by the loss reveal
    assert_eq!(s.cell_state((1, 1)), CellState::RevealedMine);
}

#[test]
fn a_pending_loss_holds_every_other_reveal_back() {
    let mut s = session_with(2, 2, vec![true, false, false, false]);
    s.uncover((0, 0));
    assert!(s.last_step.uncover);
    // while the loss awaits confirmation, other coordinates do nothing
    s.uncover((1, 1));
    assert_eq!(s.cell_state((1, 1)), CellState::Hidden);
    assert!(s.last_step.uncover);
    assert_eq!(s.last_step.coord, Some((0, 0)));
    assert_eq!(s.phase, GamePhase::InProgress);
    // re-triggering the recorded coordinate confirms the loss
    s.uncover((0, 0));
    assert_eq!(s.phase, GamePhase::Lost);
}

#[test]
fn a_flagged_mine_cannot_be_detonated() {
    let mut s = session_with(3, 3, vec![
        true, false, false,
        false, false, false,
        false, false, false,
    ]);
    s.uncover((1, 1));
    s.toggle_mark((0, 0));
    s.uncover((0, 0));
    assert_eq!(s.cell_state((0, 0)), CellState::Flagged);
    assert_eq!(s.phase, GamePhase::InProgress);
    assert_eq!(s.last_step.coord, Some((0, 0)));
}

#[test]
fn a_mine_after_the_first_step_loses_at_once() {
    let mut s = session_with(2, 2, vec![true, false, false, false]);
    s.uncover((1, 1));
    s.uncover((0, 0));
    assert_eq!(s.phase, GamePhase::Lost);
    assert_eq!(s.cell_state((0, 0)), CellState::DetonatedMine);
    // the revealed safe cell keeps its number through the loss
    assert_eq!(s.cell_state((1, 1)), CellState::Revealed(1));
}

#[test]
fn toggling_twice_returns_a_hidden_cell_to_hidden() {
    let mut s = session_with(2, 2, vec![true, false, false, false]);
    s.toggle_mark((0, 1));
    assert_eq!(s.cell_state((0, 1)), CellState::Flagged);
    assert_eq!(s.flagged_count(), 1);
    s.toggle_mark((0, 1));
    assert_eq!(s.cell_state((0, 1)), CellState::Hidden);
    assert_eq!(s.flagged_count(), 0);
}

#[test]
fn toggling_a_revealed_cell_does_nothing() {
    let mut s = session_with(3, 3, vec![
        true, false, false,
        false, false, false,
        false, false, false,
    ]);
    s.uncover((1, 0));
    s.toggle_mark((1, 0));
    assert_eq!(s.cell_state((1, 0)), CellState::Revealed(1));
}

#[test]
fn a_flagged_cell_cannot_be_uncovered() {
    let mut s = session_with(3, 3, vec![
        true, false, false,
        false, false, false,
        false, false, false,
    ]);
    s.uncover((1, 1));
    s.toggle_mark((1, 0));
    s.uncover((1, 0));
    assert_eq!(s.cell_state((1, 0)), CellState::Flagged);
    assert_eq!(s.phase, GamePhase::InProgress);
}

#[test]
fn zero_cascade_reveals_region_and_ring_and_terminates() {
    // one mine in a corner: uncovering the far zero cell floods the
    // whole zero region and the numbered ring around the mine
    let mut s = session_with(4, 1, vec![false, false, false, true]);
    s.uncover((0, 0));
    assert_eq!(s.cell_state((0, 0)), CellState::Revealed(0));
    assert_eq!(s.cell_state((1, 0)), CellState::Revealed(0));
    assert_eq!(s.cell_state((2, 0)), CellState::Revealed(1));
    // everything safe is revealed, so the game is won and the mine flagged
    assert_eq!(s.phase, GamePhase::Won);
    assert_eq!(s.cell_state((3, 0)), CellState::Flagged);
}

#[test]
fn cascade_on_a_mine_free_board_reveals_everything() {
    let mut s = session_with(3, 3, vec![false; 9]);
    s.uncover((1, 1));
    for x in 0..3 {
        for y in 0..3 {
            assert_eq!(s.cell_state((x, y)), CellState::Revealed(0));
        }
    }
    assert_eq!(s.phase, GamePhase::Won);
}

#[test]
fn a_numbered_reveal_opens_nothing_else() {
    // with no flags placed, a cell showing 1 does not expand: every
    // other cell stays hidden
    let mut s = session_with(3, 3, vec![
        true, false, false,
        false, false, false,
        false, false, false,
    ]);
    s.uncover((1, 0));
    assert_eq!(s.cell_state((1, 0)), CellState::Revealed(1));
    for x in 0..3 {
        for y in 0..3 {
            if (x, y) != (1, 0) {
                assert_eq!(s.cell_state((x, y)), CellState::Hidden);
            }
        }
    }
    assert_eq!(s.phase, GamePhase::InProgress);
}

#[test]
fn satisfied_number_expands_on_a_second_click() {
    // flag the one mine next to a revealed 1, click the 1 again: its
    // remaining neighbors open up and the game is won
    let mut s = session_with(3, 3, vec![
        true, false, false,
        false, false, false,
        false, false, false,
    ]);
    s.uncover((1, 1));
    assert_eq!(s.cell_state((1, 1)), CellState::Revealed(1));
    s.toggle_mark((0, 0));
    s.uncover((1, 1));
    assert_eq!(s.phase, GamePhase::Won);
    assert_eq!(s.cell_state((2, 2)), CellState::Revealed(0));
    assert_eq!(s.cell_state((0, 1)), CellState::Revealed(1));
    assert_eq!(s.cell_state((0, 0)), CellState::Flagged);
}

#[test]
fn a_wrong_flag_makes_the_chord_detonate() {
    let mut s = session_with(3, 3, vec![
        true, false, false,
        false, false, false,
        false, false, false,
    ]);
    s.uncover((1, 1));
    s.toggle_mark((1, 0));
    s.uncover((1, 1));
    assert_eq!(s.phase, GamePhase::Lost);
    assert_eq!(s.cell_state((0, 0)), CellState::DetonatedMine);
    assert_eq!(s.last_step.coord, Some((0, 0)));
    // the wrong flag stays on its cell
    assert_eq!(s.cell_state((1, 0)), CellState::Flagged);
}

#[test]
fn events_are_ignored_after_the_game_ends() {
    let mut s = session_with(2, 2, vec![true, false, false, false]);
    s.uncover((1, 1));
    s.uncover((0, 0));
    assert_eq!(s.phase, GamePhase::Lost);
    s.toggle_mark((0, 1));
    assert_eq!(s.cell_state((0, 1)), CellState::Hidden);
    s.uncover((0, 1));
    assert_eq!(s.cell_state((0, 1)), CellState::Hidden);
    assert_eq!(s.phase, GamePhase::Lost);
    assert!(!s.started());
}

#[test]
fn reset_clears_cells_and_phase_and_redraws_mines() {
    let mut s = session_with(2, 2, vec![true, false, false, false]);
    s.uncover((1, 0));
    s.toggle_mark((0, 1));
    assert!(s.request_reset(&BoardOptions::new(2, 2, 1)).is_ok());
    assert_eq!(s.phase, GamePhase::InProgress);
    assert!(s.last_step.coord.is_none());
    assert!(!s.last_step.uncover);
    for x in 0..2 {
        for y in 0..2 {
            assert_eq!(s.cell_state((x, y)), CellState::Hidden);
        }
    }
    assert_eq!(s.board.mines.iter().filter(|m| **m).count(), 1);
}

#[test]
fn reset_with_new_dimensions_rebuilds_the_table() {
    let mut s = session_with(2, 2, vec![true, false, false, false]);
    s.uncover((1, 0));
    assert!(s.request_reset(&BoardOptions::new(5, 3, 4)).is_ok());
    let o = s.options();
    assert_eq!((o.width, o.height, o.bomb_count), (5, 3, 4));
    assert_eq!(s.cells.len(), 15);
    for x in 0..5 {
        for y in 0..3 {
            assert_eq!(s.cell_state((x, y)), CellState::Hidden);
        }
    }
    // the old coordinate space is gone: a coordinate beyond the new
    // bounds reads as hidden and uncovering it does nothing
    s.uncover((5, 0));
    assert_eq!(s.phase, GamePhase::InProgress);
}

#[test]
fn invalid_reset_declines_and_keeps_the_game() {
    let mut s = session_with(2, 2, vec![true, false, false, false]);
    s.uncover((1, 0));
    assert_eq!(
        s.request_reset(&BoardOptions::new(2, 2, 7)),
        Err(GameError::InvalidParameters)
    );
    assert_eq!(s.cell_state((1, 0)), CellState::Revealed(1));
    assert_eq!(s.phase, GamePhase::InProgress);
    assert_eq!(s.last_step.coord, Some((1, 0)));
}

#[test]
fn reset_replays_a_pending_first_click() {
    let mut s = session_with(2, 2, vec![true, false, false, false]);
    s.uncover((0, 0));
    assert!(s.last_step.uncover);
    assert!(s.request_reset(&BoardOptions::new(2, 2, 1)).is_ok());
    // the clicked coordinate was re-applied on the new random board:
    // either it came up safe and is revealed, or it was a mine again and
    // the loss is pending once more — never an immediate loss
    assert_eq!(s.phase, GamePhase::InProgress);
    assert!(matches!(s.cell_state((0, 0)), CellState::Revealed(_)) || s.last_step.uncover);
}

#[test]
fn input_events_dispatch_to_uncover_and_mark() {
    let mut s = session_with(3, 3, vec![
        true, false, false,
        false, false, false,
        false, false, false,
    ]);
    s.handle_input(InputEvent::ToggleMark((0, 0)));
    assert_eq!(s.cell_state((0, 0)), CellState::Flagged);
    s.handle_input(InputEvent::Uncover((1, 1)));
    assert_eq!(s.cell_state((1, 1)), CellState::Revealed(1));
    // the flag satisfies the 1, so the reveal expands over the rest of
    // the board at once and the game is won
    assert_eq!(s.cell_state((2, 2)), CellState::Revealed(0));
    assert_eq!(s.phase, GamePhase::Won);
}

#[test]
fn last_step_reset_clears_both_fields() {
    let mut l = LastStep {
        coord: Some((3, 4)),
        uncover: true,
    };
    l.reset();
    assert!(l.coord.is_none());
    assert!(!l.uncover);
}

#[test]
fn remaining_mines_floors_at_zero() {
    let mut s = session_with(2, 2, vec![true, false, false, false]);
    assert_eq!(s.remaining_mines(), 1);
    s.toggle_mark((0, 0));
    assert_eq!(s.remaining_mines(), 0);
    // over-flagging is permitted; the counter never goes negative
    s.toggle_mark((1, 1));
    assert_eq!(s.remaining_mines(), 0);
    s.toggle_mark((0, 0));
    s.toggle_mark((1, 1));
    assert_eq!(s.remaining_mines(), 1);
}

#[test]
fn unrevealed_count_tracks_reveals() {
    let mut s = session_with(3, 3, vec![
        true, false, false,
        false, false, false,
        false, false, false,
    ]);
    assert_eq!(s.count_unrevealed(), 9);
    s.uncover((1, 1));
    assert_eq!(s.count_unrevealed(), 8);
    s.toggle_mark((0, 0));
    assert_eq!(s.count_unrevealed(), 8);
}
