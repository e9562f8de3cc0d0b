use minesweeper::board::Board;
use minesweeper::cell::CellState;
use minesweeper::shared::{Config, Lang, CELL_PITCH, CELL_SIZE};

#[test]
fn new_game_clamps_invalid_configurations() {
    let b = Board::new_game(0, 0, 1000, 7);
    assert_eq!(b.cols(), 4);
    assert_eq!(b.rows(), 4);
    // Capped to leave room for the first click's 3x3 safe zone.
    assert_eq!(b.total_mines(), 7);

    let b2 = Board::new_game(200, 50, 3, 1);
    assert_eq!(b2.cols(), 99);
    assert_eq!(b2.rows(), 50);
    assert_eq!(b2.total_mines(), 3);
}

#[test]
fn from_mine_layout_rejects_bad_inputs() {
    // Layout of the wrong length.
    assert!(Board::from_mine_layout(4, 4, vec![false; 15], 0).is_none());
    // Dimensions outside the usable range.
    assert!(Board::from_mine_layout(0, 4, vec![false; 0], 0).is_none());
    assert!(Board::from_mine_layout(4, 100, vec![false; 400], 0).is_none());
    // A valid layout is accepted.
    assert!(Board::from_mine_layout(1, 1, vec![false; 1], 0).is_some());
}

#[test]
fn from_mine_layout_reports_its_layout() {
    let mut mines = vec![false; 16];
    mines[5] = true; // (1,1)
    let b = Board::from_mine_layout(4, 4, mines, 0).expect("valid layout");
    assert_eq!(b.total_mines(), 1);
    assert!(b.is_mine(1, 1));
    assert!(!b.is_mine(0, 0));
    assert!(b.is_started());
    assert!(!b.is_game_over());
    for row in 0..4 {
        for col in 0..4 {
            assert_eq!(b.cell_state(col, row), CellState::Unopened);
        }
    }
}

#[test]
fn remaining_flag_budget_follows_flags() {
    let mut b = Board::new_game(4, 4, 5, 2);
    assert_eq!(b.remaining_flag_budget(), 5);
    b.flag_toggle(0, 0);
    b.flag_toggle(1, 2);
    assert_eq!(b.remaining_flag_budget(), 3);
    b.flag_toggle(0, 0);
    assert_eq!(b.remaining_flag_budget(), 4);
}

#[test]
fn over_flagging_drives_the_budget_negative() {
    let mut b = Board::new_game(4, 4, 1, 2);
    b.flag_toggle(0, 0);
    b.flag_toggle(1, 0);
    b.flag_toggle(2, 0);
    assert_eq!(b.remaining_flag_budget(), -2);
}

#[test]
fn config_defaults() {
    let cfg = Config::default();
    assert_eq!(cfg.cell_cols, 10);
    assert_eq!(cfg.cell_rows, 10);
    assert_eq!(cfg.mine_count, 10);
    assert_eq!(cfg.lang, Lang::En);
}

#[test]
fn board_pixel_dimensions() {
    let cfg = Config::default();
    assert_eq!(CELL_SIZE, 32);
    assert_eq!(CELL_PITCH, 33);
    assert_eq!(cfg.board_width(), 330);
    assert_eq!(cfg.board_height(), 330);
}

#[test]
fn cell_coords_to_idx_is_row_major() {
    let cfg = Config::default();
    assert_eq!(cfg.cell_coords_to_idx(0, 0), 0);
    assert_eq!(cfg.cell_coords_to_idx(3, 2), 23);
    assert_eq!(cfg.cell_coords_to_idx(9, 9), 99);
}

#[test]
fn pos_to_cell_skips_grid_lines() {
    let cfg = Config::default();
    // Pixel (0,0) lies on a grid line.
    assert_eq!(cfg.pos_to_cell((0, 0)), None);
    assert_eq!(cfg.pos_to_cell((1, 1)), Some((0, 0)));
    assert_eq!(cfg.pos_to_cell((33, 40)), None);
    assert_eq!(cfg.pos_to_cell((34, 40)), Some((1, 1)));
    // Outside the board.
    assert_eq!(cfg.pos_to_cell((330, 5)), None);
    assert_eq!(cfg.pos_to_cell((5, 400)), None);
}

#[test]
fn en_jp_picks_by_language() {
    assert_eq!(Lang::En.en_jp("yes", "hai"), "yes");
    assert_eq!(Lang::Jp.en_jp("yes", "hai"), "hai");
    let mut cfg = Config::default();
    assert_eq!(cfg.en_jp(1, 2), 1);
    cfg.lang = Lang::Jp;
    assert_eq!(cfg.en_jp(1, 2), 2);
}

#[test]
fn seeded_games_are_reproducible() {
    // The same seed gives the same mine layout; the engine introduces no
    // other randomness.
    let mut a = Board::new_game(9, 9, 10, 42);
    let mut b = Board::new_game(9, 9, 10, 42);
    a.open(4, 4);
    b.open(4, 4);
    for row in 0..9 {
        for col in 0..9 {
            assert_eq!(a.is_mine(col, row), b.is_mine(col, row));
            assert_eq!(a.cell_state(col, row), b.cell_state(col, row));
        }
    }
}
