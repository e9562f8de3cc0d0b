use minesweeper::board::Board;
use minesweeper::cell::CellState;

/// 4x4 board with mines at (0,0) and (2,0), built from an explicit layout.
fn two_mine_board() -> Board {
    let mut mines = vec![false; 16];
    mines[0] = true; // (0,0)
    mines[2] = true; // (2,0)
    Board::from_mine_layout(4, 4, mines, 1).expect("valid layout")
}

fn count_mines(b: &Board) -> usize {
    let mut n = 0;
    for row in 0..b.rows() {
        for col in 0..b.cols() {
            if b.is_mine(col, row) {
                n += 1;
            }
        }
    }
    n
}

#[test]
fn first_click_corner_is_safe() {
    // A first click at (0,0) on a 4x4 board with 1 mine: the mine must land
    // outside the edge-clipped 3x3 block {(0,0),(1,0),(0,1),(1,1)}, so the
    // opening cannot lose.
    for seed in 0..20u64 {
        let mut b = Board::new_game(4, 4, 1, seed);
        let res = b.open(0, 0);
        assert!(!res.became_mine);
        assert_eq!(count_mines(&b), 1);
        assert!(!b.is_mine(0, 0));
        assert!(!b.is_mine(1, 0));
        assert!(!b.is_mine(0, 1));
        assert!(!b.is_mine(1, 1));
        assert_eq!(b.cell_state(0, 0), CellState::Opened);
    }
}

#[test]
fn initialization_count_and_safe_zone() {
    // The full 3x3 safe zone of an interior first click stays mine-free and
    // exactly the configured number of mines is placed.
    for seed in 0..10u64 {
        let mut b = Board::new_game(9, 9, 10, seed);
        let res = b.open(4, 4);
        assert!(!res.became_mine);
        assert_eq!(count_mines(&b), 10);
        for row in 3..6 {
            for col in 3..6 {
                assert!(!b.is_mine(col, row));
            }
        }
    }
}

#[test]
fn flood_opens_zero_region_and_border() {
    let mut b = two_mine_board();
    let res = b.open(3, 3);
    assert!(!res.became_mine);
    assert!(!res.game_over);
    // The whole zero region (rows 2 and 3) and its one-layer border (row 1)
    // open; row 0 stays closed.
    for row in 1..4 {
        for col in 0..4 {
            assert_eq!(b.cell_state(col, row), CellState::Opened);
        }
    }
    for col in 0..4 {
        assert_eq!(b.cell_state(col, 0), CellState::Unopened);
    }
}

#[test]
fn count_correctness_after_layout() {
    let b = {
        let mut mines = vec![false; 9];
        mines[0] = true; // (0,0)
        Board::from_mine_layout(3, 3, mines, 0).expect("valid layout")
    };
    assert_eq!(b.mine_count(1, 0), 1);
    assert_eq!(b.mine_count(0, 1), 1);
    assert_eq!(b.mine_count(1, 1), 1);
    assert_eq!(b.mine_count(2, 0), 0);
    assert_eq!(b.mine_count(2, 2), 0);
}

#[test]
fn chord_with_matching_flags_opens_neighbors() {
    let mut b = two_mine_board();
    b.open(3, 3);
    assert_eq!(b.cell_state(1, 1), CellState::Opened);
    assert_eq!(b.mine_count(1, 1), 2);
    b.flag_toggle(0, 0);
    b.flag_toggle(2, 0);
    let res = b.chord(1, 1);
    assert!(res.matched);
    assert!(!res.became_mine);
    // The one remaining unopened neighbor of (1,1) opens; other closed cells
    // are untouched.
    assert_eq!(b.cell_state(1, 0), CellState::Opened);
    assert_eq!(b.mine_count(1, 0), 2);
    assert_eq!(b.cell_state(3, 0), CellState::Unopened);
    assert_eq!(b.cell_state(0, 0), CellState::Flagged);
    assert_eq!(b.cell_state(2, 0), CellState::Flagged);
}

#[test]
fn chord_with_mismatched_flags_is_refused() {
    let mut b = two_mine_board();
    b.open(3, 3);
    b.flag_toggle(0, 0);
    let res = b.chord(1, 1);
    assert!(!res.matched);
    assert!(!res.became_mine);
    assert!(!res.game_over);
    // Nothing opened.
    assert_eq!(b.cell_state(1, 0), CellState::Unopened);
    assert_eq!(b.cell_state(3, 0), CellState::Unopened);
}

#[test]
fn chord_on_unopened_cell_is_refused() {
    let mut b = two_mine_board();
    let res = b.chord(1, 1);
    assert!(!res.matched);
    assert!(!res.became_mine);
    assert_eq!(b.cell_state(1, 1), CellState::Unopened);
}

#[test]
fn safe_island_relocates_mine_onto_opened_cell() {
    // A lone safe cell surrounded by mines: with nothing revealed yet, no
    // relocation can contradict anything, so the first candidate mine (the
    // top-left neighbor) moves onto the opened cell.
    let mut mines = vec![true; 9];
    mines[4] = false; // (1,1) is the safe island
    let mut b = Board::from_mine_layout(3, 3, mines, 0).expect("valid layout");
    let res = b.open(1, 1);
    assert!(res.became_mine);
    assert!(res.game_over);
    assert!(!res.won);
    // The mine count is conserved and no revealed information existed to be
    // contradicted; the mine moved from (0,0) onto (1,1).
    assert_eq!(count_mines(&b), 8);
    assert!(b.is_mine(1, 1));
    assert!(!b.is_mine(0, 0));
    // The count map was fully regenerated for the new layout.
    assert_eq!(b.mine_count(0, 0), 3);
}

#[test]
fn relocation_rejected_when_it_would_change_revealed_counts() {
    // After the flood of flood_opens_zero_region_and_border, opening (3,0)
    // cannot take the mine from (2,0): the revealed "2" at (1,1) would
    // become a 1. The layout stays put and the opened cell shows its true
    // count.
    let mut b = two_mine_board();
    b.open(3, 3);
    let res = b.open(3, 0);
    assert!(!res.became_mine);
    assert!(b.is_mine(0, 0));
    assert!(b.is_mine(2, 0));
    assert_eq!(b.mine_count(1, 1), 2);
    assert_eq!(b.mine_count(3, 0), 1);
}

#[test]
fn win_only_after_last_safe_cell() {
    let mut b = two_mine_board();
    let r1 = b.open(3, 3);
    assert!(!r1.won);
    assert!(!b.is_won());
    let r2 = b.open(3, 0);
    assert!(!r2.became_mine);
    assert!(!r2.won);
    assert!(!b.is_won());
    let r3 = b.open(1, 0);
    assert!(!r3.became_mine);
    assert!(r3.won);
    assert!(r3.game_over);
    assert!(b.is_won());
    assert!(b.is_game_over());
}

#[test]
fn open_on_opened_cell_is_a_no_op() {
    let mut b = two_mine_board();
    b.open(3, 3);
    let before: Vec<CellState> = (0..4)
        .flat_map(|row| (0..4).map(move |col| (col, row)))
        .map(|(col, row)| b.cell_state(col, row))
        .collect();
    let res = b.open(3, 3);
    assert!(!res.became_mine);
    assert!(!res.game_over);
    let after: Vec<CellState> = (0..4)
        .flat_map(|row| (0..4).map(move |col| (col, row)))
        .map(|(col, row)| b.cell_state(col, row))
        .collect();
    assert_eq!(before, after);
}

#[test]
fn open_on_flagged_cell_is_a_no_op() {
    let mut b = two_mine_board();
    b.flag_toggle(0, 0);
    let res = b.open(0, 0);
    assert!(!res.became_mine);
    assert_eq!(b.cell_state(0, 0), CellState::Flagged);
    assert!(!res.game_over);
}

#[test]
fn flag_toggle_twice_restores_the_cell() {
    let mut b = two_mine_board();
    assert_eq!(b.cell_state(2, 2), CellState::Unopened);
    b.flag_toggle(2, 2);
    assert_eq!(b.cell_state(2, 2), CellState::Flagged);
    b.flag_toggle(2, 2);
    assert_eq!(b.cell_state(2, 2), CellState::Unopened);
}

#[test]
fn flag_toggle_on_opened_cell_is_a_no_op() {
    let mut b = two_mine_board();
    b.open(3, 3);
    b.flag_toggle(3, 3);
    assert_eq!(b.cell_state(3, 3), CellState::Opened);
}

#[test]
fn no_actions_accepted_after_loss() {
    let mut mines = vec![true; 9];
    mines[4] = false;
    let mut b = Board::from_mine_layout(3, 3, mines, 0).expect("valid layout");
    let res = b.open(1, 1);
    assert!(res.game_over);
    // Everything is gated now.
    let r2 = b.open(1, 1);
    assert!(!r2.became_mine);
    assert!(r2.game_over);
    b.flag_toggle(0, 0);
    assert_eq!(b.cell_state(0, 0), CellState::Unopened);
    let r3 = b.chord(1, 1);
    assert!(!r3.matched);
    assert!(r3.game_over);
}

#[test]
fn zero_mines_wins_on_first_open() {
    let mut b = Board::new_game(4, 4, 0, 3);
    let res = b.open(2, 2);
    assert!(!res.became_mine);
    assert!(res.won);
    assert!(res.game_over);
    for row in 0..4 {
        for col in 0..4 {
            assert_eq!(b.cell_state(col, row), CellState::Opened);
        }
    }
}
