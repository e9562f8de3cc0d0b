//! The game board: configuration, cell states, mines, counts, and the
//! player-facing operations.

use vstd::prelude::*;
use crate::cell::CellState;
use crate::grid::{
    count_trues, counts_correct, do_surrounding, generate_mine_counts, in_safe_zone,
    lemma_count_in_bounds, lemma_idx_decompose, lemma_idx_range, lemma_neighbors_of, neighbors_of,
    spec_adj_mines, spec_idx, spec_in_bounds,
};
use crate::flood::{flood_region, mines_after_open, open_cell};
use crate::mines::{initialize_mines, SAFE_CELLS_FOR_FIRST_CLICK};
use crate::rng::rng_with_seed;
use crate::shared::{Config, Lang};

verus! {

/// How a finished game session ends, as reported to the caller that drives
/// the session.
pub enum GameEnd {
    Quit,
}

/// The outcome of an `open` action.
#[derive(Copy, Clone, Debug, PartialEq, Eq, Structural)]
pub struct OpenResult {
    pub became_mine: bool,
    pub game_over: bool,
    pub won: bool,
}

/// The outcome of a `chord` action. `matched` reports whether the flag
/// count around the chorded cell equaled its mine count; when it does not,
/// nothing opens.
#[derive(Copy, Clone, Debug, PartialEq, Eq, Structural)]
pub struct ChordResult {
    pub matched: bool,
    pub became_mine: bool,
    pub game_over: bool,
    pub won: bool,
}

/// Whether every mine-free cell is opened: the win condition.
pub open spec fn all_safe_opened(mines: Seq<bool>, cells: Seq<CellState>) -> bool {
    forall|i: int| 0 <= i < mines.len() && !(#[trigger] mines[i]) ==> cells[i] == CellState::Opened
}

/// Number of flagged cells among a board's cell states.
pub open spec fn count_flagged(s: Seq<CellState>) -> int
    decreases s.len(),
{
    if s.len() == 0 {
        0
    } else {
        count_flagged(s.drop_last()) + if s.last() == CellState::Flagged { 1int } else { 0int }
    }
}

proof fn lemma_count_flagged_bounds(s: Seq<CellState>)
    ensures
        0 <= count_flagged(s) <= s.len(),
    decreases s.len(),
{
    if s.len() > 0 {
        lemma_count_flagged_bounds(s.drop_last());
    }
}

/// The cell states after toggling the flag of cell `i`.
pub open spec fn toggle_model(cells: Seq<CellState>, i: int) -> Seq<CellState> {
    cells.update(
        i,
        match cells[i] {
            CellState::Unopened => CellState::Flagged,
            CellState::Flagged => CellState::Unopened,
            CellState::Opened => CellState::Opened,
        },
    )
}

/// Law: toggling a cell's flag twice restores the cell states exactly.
pub proof fn lemma_flag_toggle_involutive(cells: Seq<CellState>, i: int)
    requires
        0 <= i < cells.len(),
    ensures
        toggle_model(toggle_model(cells, i), i) == cells,
{
    assert(toggle_model(toggle_model(cells, i), i) =~= cells);
}

/// Board dimensions are clamped into the usable range.
pub open spec fn clamp_dim(v: int) -> int {
    if v < 4 {
        4
    } else if v > 99 {
        99
    } else {
        v
    }
}

/// The mine-count map determined by a mine layout.
pub open spec fn counts_for(mines: Seq<bool>, cols: int, rows: int) -> Seq<u8> {
    Seq::new(mines.len(), |i: int| spec_adj_mines(mines, cols, rows, i % cols, i / cols) as u8)
}

/// Any correct mine-count map is exactly the one the layout determines.
pub proof fn lemma_counts_for_correct(k: Seq<u8>, mines: Seq<bool>, cols: int, rows: int)
    requires
        cols >= 1,
        rows >= 1,
        counts_correct(k, mines, cols, rows),
    ensures
        k == counts_for(mines, cols, rows),
{
    let kf = counts_for(mines, cols, rows);
    assert forall|i: int| 0 <= i < k.len() implies k[i] == kf[i] by {
        lemma_idx_decompose(cols, rows, i);
        let c = i % cols;
        let r = i / cols;
        assert(k[spec_idx(cols, c, r)] as int == spec_adj_mines(mines, cols, rows, c, r));
        lemma_neighbors_of(cols, rows, c, r);
        lemma_count_in_bounds(neighbors_of(cols, rows, c, r), mines, cols);
    }
    assert(k =~= kf);
}

/// Computes the flat index `row * cols + col`.
fn flat_index(cols: usize, rows: usize, col: usize, row: usize) -> (i: usize)
    requires
        col < cols,
        row < rows,
        cols <= 99,
        rows <= 99,
    ensures
        i == spec_idx(cols as int, col as int, row as int),
        i < rows * cols,
{
    proof {
        lemma_idx_range(cols as int, rows as int, col as int, row as int);
        assert((row as int) * (cols as int) + (col as int) < 9801) by (nonlinear_arith)
            requires
                col < cols,
                cols <= 99,
                row < rows,
                rows <= 99,
        ;
    }
    row * cols + col
}

/// Builds a vector of `n` copies of one value.
fn fill_vec<T: Copy>(n: usize, value: T) -> (v: Vec<T>)
    ensures
        v@.len() == n,
        forall|i: int| 0 <= i < n ==> v@[i] == value,
{
    let mut v: Vec<T> = Vec::new();
    let mut i: usize = 0;
    while i < n
        invariant
            0 <= i <= n,
            v@.len() == i,
            forall|j: int| 0 <= j < i ==> v@[j] == value,
        decreases n - i,
    {
        v.push(value);
        i += 1;
    }
    v
}

/// Counts the mines of a layout.
fn count_true_cells(mines: &Vec<bool>) -> (n: usize)
    ensures
        n as int == count_trues(mines@),
        n <= mines.len(),
{
    let mut n: usize = 0;
    let mut i: usize = 0;
    while i < mines.len()
        invariant
            0 <= i <= mines@.len(),
            n as int == count_trues(mines@.take(i as int)),
            n <= i,
        decreases mines.len() - i,
    {
        proof {
            assert(mines@.take(i as int + 1).drop_last() =~= mines@.take(i as int));
        }
        if mines[i] {
            n += 1;
        }
        i += 1;
    }
    proof {
        assert(mines@.take(mines@.len() as int) =~= mines@);
    }
    n
}

/// Determines whether every mine-free cell is opened: win detection, scanned
/// over the whole board after every state-changing operation.
pub fn all_safe_cells_opened(cfg: &Config, mines: &Vec<bool>, cells: &Vec<CellState>) -> (won:
    bool)
    requires
        mines.len() == cells.len(),
        mines.len() == cfg.cell_rows * cfg.cell_cols,
    ensures
        won == all_safe_opened(mines@, cells@),
{
    let mut i: usize = 0;
    while i < mines.len()
        invariant
            0 <= i <= mines@.len(),
            mines@.len() == cells@.len(),
            forall|j: int| 0 <= j < i && !(#[trigger] mines@[j]) ==> cells@[j]
                == CellState::Opened,
        decreases mines.len() - i,
    {
        if !mines[i] && !(cells[i] == CellState::Opened) {
            return false;
        }
        i += 1;
    }
    true
}


/// Counts the flagged cells among the neighbors of `(col, row)`.
#[verifier::loop_isolation(false)]
fn count_flagged_neighbors(cfg: &Config, col: usize, row: usize, cells: &Vec<CellState>) -> (n: u8)
    requires
        col < cfg.cell_cols,
        row < cfg.cell_rows,
        cells.len() == cfg.cell_rows * cfg.cell_cols,
        cfg.cell_rows * cfg.cell_cols <= usize::MAX,
    ensures
        n as int == count_flagged_in(
            neighbors_of(cfg.cell_cols as int, cfg.cell_rows as int, col as int, row as int),
            cells@,
            cfg.cell_cols as int,
        ),
{
    let ghost coli = cfg.cell_cols as int;
    let ghost rowi = cfg.cell_rows as int;
    let ghost sns = neighbors_of(coli, rowi, col as int, row as int);
    proof {
        lemma_neighbors_of(coli, rowi, col as int, row as int);
    }
    let nbrs = do_surrounding(cfg, col, row);
    let mut n: u8 = 0;
    let mut t: usize = 0;
    while t < nbrs.len()
        invariant
            0 <= t <= nbrs.len(),
            n as int == count_flagged_in(sns.take(t as int), cells@, coli),
            n <= t,
        decreases nbrs.len() - t,
    {
        let (qx, qy) = nbrs[t];
        proof {
            assert(sns.contains(sns[t as int]));
            lemma_idx_range(coli, rowi, qx as int, qy as int);
            assert(sns.take(t as int + 1).drop_last() =~= sns.take(t as int));
            assert(sns.take(t as int + 1).last() == sns[t as int]);
        }
        let qi = cfg.cell_coords_to_idx(qx, qy);
        if cells[qi] == CellState::Flagged {
            n += 1;
        }
        t += 1;
    }
    proof {
        assert(sns.take(sns.len() as int) =~= sns);
    }
    n
}

/// One Minesweeper game: the engine state an input/rendering layer drives.
pub struct Board {
    pub cols: usize,
    pub rows: usize,
    pub mine_count: usize,
    pub rng: fastrand::Rng,
    pub mines: Vec<bool>,
    pub mine_counts: Vec<u8>,
    pub cells: Vec<CellState>,
    pub started: bool,
    pub over: bool,
    pub won: bool,
}

impl Board {
    pub open spec fn spec_cols(&self) -> int {
        self.cols as int
    }

    pub open spec fn spec_rows(&self) -> int {
        self.rows as int
    }

    /// The configured total number of mines.
    pub open spec fn spec_total_mines(&self) -> int {
        self.mine_count as int
    }

    pub open spec fn mines_view(&self) -> Seq<bool> {
        self.mines@
    }

    pub open spec fn counts_view(&self) -> Seq<u8> {
        self.mine_counts@
    }

    pub open spec fn cells_view(&self) -> Seq<CellState> {
        self.cells@
    }

    pub open spec fn spec_started(&self) -> bool {
        self.started
    }

    pub open spec fn spec_over(&self) -> bool {
        self.over
    }

    pub open spec fn spec_won(&self) -> bool {
        self.won
    }

    /// Well-formedness: dimensions are usable, the three per-cell arrays
    /// cover the board, and once the mine field exists its total and the
    /// count map agree with it. Before the first open there are no mines,
    /// no counts, no opened cells, and room for the safe zone.
    pub open spec fn wf(&self) -> bool {
        &&& 1 <= self.spec_cols() <= 99
        &&& 1 <= self.spec_rows() <= 99
        &&& self.mines_view().len() == self.spec_rows() * self.spec_cols()
        &&& self.counts_view().len() == self.spec_rows() * self.spec_cols()
        &&& self.cells_view().len() == self.spec_rows() * self.spec_cols()
        &&& self.spec_total_mines() <= self.spec_rows() * self.spec_cols()
        &&& (self.spec_started() ==> counts_correct(
            self.counts_view(),
            self.mines_view(),
            self.spec_cols(),
            self.spec_rows(),
        ) && count_trues(self.mines_view()) == self.spec_total_mines())
        &&& (!self.spec_started() ==> (forall|i: int|
            0 <= i < self.mines_view().len() ==> !(#[trigger] self.mines_view()[i])) && (forall|
            i: int,
        |
            0 <= i < self.counts_view().len() ==> (#[trigger] self.counts_view()[i]) == 0) && (
        forall|i: int|
            0 <= i < self.cells_view().len() ==> (#[trigger] self.cells_view()[i])
                != CellState::Opened) && self.spec_total_mines() + SAFE_CELLS_FOR_FIRST_CLICK
            <= self.spec_rows() * self.spec_cols())
        &&& (self.spec_won() ==> self.spec_over())
    }

    /// The `Config` value the grid primitives take, for this board's
    /// dimensions.
    pub(crate) open spec fn spec_cfg(&self) -> Config {
        Config {
            lang: Lang::En,
            cell_cols: self.cols,
            cell_rows: self.rows,
            mine_count: self.mine_count,
            buffer_width: 0,
            buffer_height: 0,
        }
    }

    fn cfg(&self) -> (c: Config)
        ensures
            c == self.spec_cfg(),
    {
        Config {
            lang: Lang::En,
            cell_cols: self.cols,
            cell_rows: self.rows,
            mine_count: self.mine_count,
            buffer_width: 0,
            buffer_height: 0,
        }
    }

    /// Starts a fresh game. Dimensions are clamped into the usable range
    /// and the mine count is capped so the first click's safe zone always
    /// fits; an invalid configuration can never produce an inconsistent
    /// board.
    pub fn new_game(cols: usize, rows: usize, mine_count: usize, rng_seed: u64) -> (b: Board)
        ensures
            b.wf(),
            b.spec_cols() == clamp_dim(cols as int),
            b.spec_rows() == clamp_dim(rows as int),
            b.spec_total_mines() == (if mine_count as int > b.spec_rows() * b.spec_cols()
                - SAFE_CELLS_FOR_FIRST_CLICK {
                b.spec_rows() * b.spec_cols() - SAFE_CELLS_FOR_FIRST_CLICK
            } else {
                mine_count as int
            }),
            !b.spec_started(),
            !b.spec_over(),
            !b.spec_won(),
            forall|i: int| 0 <= i < b.cells_view().len() ==> b.cells_view()[i]
                == CellState::Unopened,
    {
        let cols = if cols < 4 {
            4
        } else if cols > 99 {
            99
        } else {
            cols
        };
        let rows = if rows < 4 {
            4
        } else if rows > 99 {
            99
        } else {
            rows
        };
        proof {
            assert(16 <= rows as int * cols as int <= 9801) by (nonlinear_arith)
                requires
                    4 <= cols <= 99,
                    4 <= rows <= 99,
            ;
        }
        let total = rows * cols;
        let cap = total - SAFE_CELLS_FOR_FIRST_CLICK;
        let mine_count = if mine_count > cap {
            cap
        } else {
            mine_count
        };
        Board {
            cols,
            rows,
            mine_count,
            rng: rng_with_seed(rng_seed),
            mines: fill_vec(total, false),
            mine_counts: fill_vec(total, 0u8),
            cells: fill_vec(total, CellState::Unopened),
            started: false,
            over: false,
            won: false,
        }
    }

    /// Builds an already-initialized board from an explicit mine layout,
    /// with every cell unopened. Returns `None` when the dimensions are
    /// outside `1..=99` or the layout does not cover the board.
    pub fn from_mine_layout(cols: usize, rows: usize, mines: Vec<bool>, rng_seed: u64) -> (r:
        Option<Board>)
        ensures
            r is Some <==> (1 <= cols <= 99 && 1 <= rows <= 99 && mines@.len() == rows as int
                * cols as int),
            r matches Some(b) ==> {
                &&& b.wf()
                &&& b.spec_cols() == cols
                &&& b.spec_rows() == rows
                &&& b.mines_view() == mines@
                &&& b.spec_total_mines() == count_trues(mines@)
                &&& b.spec_started()
                &&& !b.spec_over()
                &&& !b.spec_won()
                &&& forall|i: int| 0 <= i < b.cells_view().len() ==> b.cells_view()[i]
                    == CellState::Unopened
            },
    {
        if cols < 1 || cols > 99 || rows < 1 || rows > 99 {
            return None;
        }
        proof {
            assert(1 <= rows as int * cols as int <= 9801) by (nonlinear_arith)
                requires
                    1 <= cols <= 99,
                    1 <= rows <= 99,
            ;
        }
        let total = rows * cols;
        if mines.len() != total {
            return None;
        }
        let mine_count = count_true_cells(&mines);
        let cfg = Config {
            lang: Lang::En,
            cell_cols: cols,
            cell_rows: rows,
            mine_count,
            buffer_width: 0,
            buffer_height: 0,
        };
        let mut mine_counts = fill_vec(total, 0u8);
        generate_mine_counts(&cfg, &mut mine_counts, &mines);
        Some(
            Board {
                cols,
                rows,
                mine_count,
                rng: rng_with_seed(rng_seed),
                mines,
                mine_counts,
                cells: fill_vec(total, CellState::Unopened),
                started: true,
                over: false,
                won: false,
            },
        )
    }

    pub fn cols(&self) -> (r: usize)
        ensures
            r as int == self.spec_cols(),
    {
        self.cols
    }

    pub fn rows(&self) -> (r: usize)
        ensures
            r as int == self.spec_rows(),
    {
        self.rows
    }

    /// The configured total number of mines.
    pub fn total_mines(&self) -> (r: usize)
        ensures
            r as int == self.spec_total_mines(),
    {
        self.mine_count
    }

    pub fn is_started(&self) -> (r: bool)
        ensures
            r == self.spec_started(),
    {
        self.started
    }

    /// Whether the game has ended in a win or a loss; once true, the
    /// mutating operations no longer accept actions.
    pub fn is_game_over(&self) -> (r: bool)
        ensures
            r == self.spec_over(),
    {
        self.over
    }

    pub fn is_won(&self) -> (r: bool)
        ensures
            r == self.spec_won(),
    {
        self.won
    }

    /// The player-visible state of one cell.
    pub fn cell_state(&self, col: usize, row: usize) -> (r: CellState)
        requires
            self.wf(),
            col < self.spec_cols(),
            row < self.spec_rows(),
        ensures
            r == self.cells_view()[spec_idx(self.spec_cols(), col as int, row as int)],
    {
        let i = flat_index(self.cols, self.rows, col, row);
        self.cells[i]
    }

    /// Whether the cell holds a mine; meaningful for rendering after the
    /// game is over.
    pub fn is_mine(&self, col: usize, row: usize) -> (r: bool)
        requires
            self.wf(),
            col < self.spec_cols(),
            row < self.spec_rows(),
        ensures
            r == self.mines_view()[spec_idx(self.spec_cols(), col as int, row as int)],
    {
        let i = flat_index(self.cols, self.rows, col, row);
        self.mines[i]
    }

    /// The cell's displayed count of adjacent mines.
    pub fn mine_count(&self, col: usize, row: usize) -> (r: u8)
        requires
            self.wf(),
            col < self.spec_cols(),
            row < self.spec_rows(),
        ensures
            r == self.counts_view()[spec_idx(self.spec_cols(), col as int, row as int)],
    {
        let i = flat_index(self.cols, self.rows, col, row);
        self.mine_counts[i]
    }

    /// The configured mine total minus the number of flags placed; negative
    /// when the player has over-flagged.
    pub fn remaining_flag_budget(&self) -> (r: i64)
        requires
            self.wf(),
        ensures
            r as int == self.spec_total_mines() - count_flagged(self.cells_view()),
    {
        proof {
            assert(self.spec_rows() * self.spec_cols() <= 9801) by (nonlinear_arith)
                requires
                    1 <= self.spec_cols() <= 99,
                    1 <= self.spec_rows() <= 99,
            ;
            lemma_count_flagged_bounds(self.cells@);
        }
        let mut flagged: usize = 0;
        let mut i: usize = 0;
        while i < self.cells.len()
            invariant
                0 <= i <= self.cells@.len(),
                flagged as int == count_flagged(self.cells@.take(i as int)),
                flagged <= i,
            decreases self.cells.len() - i,
        {
            proof {
                assert(self.cells@.take(i as int + 1).drop_last() =~= self.cells@.take(i as int));
            }
            if self.cells[i] == CellState::Flagged {
                flagged += 1;
            }
            i += 1;
        }
        proof {
            assert(self.cells@.take(self.cells@.len() as int) =~= self.cells@);
        }
        (self.mine_count as i64) - (flagged as i64)
    }

    /// Toggles a flag: `Unopened <-> Flagged`; a no-op on an opened cell or
    /// after the game is over.
    pub fn flag_toggle(&mut self, col: usize, row: usize)
        requires
            old(self).wf(),
            col < old(self).spec_cols(),
            row < old(self).spec_rows(),
        ensures
            final(self).wf(),
            old(self).spec_over() ==> *final(self) == *old(self),
            !old(self).spec_over() ==> {
                &&& final(self).cells_view() == toggle_model(
                    old(self).cells_view(),
                    spec_idx(old(self).spec_cols(), col as int, row as int),
                )
                &&& final(self).mines_view() == old(self).mines_view()
                &&& final(self).counts_view() == old(self).counts_view()
                &&& final(self).spec_cols() == old(self).spec_cols()
                &&& final(self).spec_rows() == old(self).spec_rows()
                &&& final(self).spec_total_mines() == old(self).spec_total_mines()
                &&& final(self).spec_started() == old(self).spec_started()
                &&& final(self).spec_over() == old(self).spec_over()
                &&& final(self).spec_won() == old(self).spec_won()
            },
    {
        if self.over {
            return ;
        }
        let i = flat_index(self.cols, self.rows, col, row);
        match self.cells[i] {
            CellState::Unopened => {
                self.cells.set(i, CellState::Flagged);
            },
            CellState::Flagged => {
                self.cells.set(i, CellState::Unopened);
            },
            CellState::Opened => {
                proof {
                    assert(self.cells@ =~= toggle_model(
                        self.cells@,
                        spec_idx(self.spec_cols(), col as int, row as int),
                    ));
                }
            },
        }
    }

    /// Opens a cell. A no-op after the game is over or unless the cell is
    /// unopened. The first open of a game lazily places the mines, outside
    /// the click's safe zone. Returns whether the opened cell holds a mine
    /// (the loss trigger), and the resulting game status.
    pub fn open(&mut self, col: usize, row: usize) -> (res: OpenResult)
        requires
            old(self).wf(),
            col < old(self).spec_cols(),
            row < old(self).spec_rows(),
        ensures
            final(self).wf(),
            final(self).spec_cols() == old(self).spec_cols(),
            final(self).spec_rows() == old(self).spec_rows(),
            final(self).spec_total_mines() == old(self).spec_total_mines(),
            res.game_over == final(self).spec_over(),
            res.won == final(self).spec_won(),
            old(self).spec_over() ==> *final(self) == *old(self) && res == (OpenResult {
                became_mine: false,
                game_over: true,
                won: old(self).spec_won(),
            }),
            !old(self).spec_over() && old(self).cells_view()[spec_idx(
                old(self).spec_cols(),
                col as int,
                row as int,
            )] != CellState::Unopened ==> *final(self) == *old(self) && res == (OpenResult {
                became_mine: false,
                game_over: false,
                won: false,
            }),
            !old(self).spec_over() && old(self).cells_view()[spec_idx(
                old(self).spec_cols(),
                col as int,
                row as int,
            )] == CellState::Unopened ==> open_transition(
                *old(self),
                *final(self),
                res,
                col as int,
                row as int,
            ),
            // No already-revealed count ever changes.
            forall|q: (int, int)|
                spec_in_bounds(old(self).spec_cols(), old(self).spec_rows(), q.0, q.1)
                    && old(self).cells_view()[#[trigger] spec_idx(
                    old(self).spec_cols(),
                    q.0,
                    q.1,
                )] == CellState::Opened ==> final(self).counts_view()[spec_idx(
                    old(self).spec_cols(),
                    q.0,
                    q.1,
                )] == old(self).counts_view()[spec_idx(old(self).spec_cols(), q.0, q.1)],
    {
        let ghost coli = self.spec_cols();
        let ghost rowi = self.spec_rows();
        if self.over {
            return OpenResult { became_mine: false, game_over: true, won: self.won };
        }
        let i = flat_index(self.cols, self.rows, col, row);
        if !(self.cells[i] == CellState::Unopened) {
            return OpenResult { became_mine: false, game_over: false, won: false };
        }
        proof {
            assert(self.spec_rows() * self.spec_cols() <= 9801) by (nonlinear_arith)
                requires
                    1 <= self.spec_cols() <= 99,
                    1 <= self.spec_rows() <= 99,
            ;
        }
        let cfg = self.cfg();
        if !self.started {
            initialize_mines(&cfg, &mut self.rng, &mut self.mines, (col, row));
            generate_mine_counts(&cfg, &mut self.mine_counts, &self.mines);
            self.started = true;
        }
        let ghost m = self.mines@;
        let ghost k = self.mine_counts@;
        proof {
            assert(counts_correct(k, m, coli, rowi));
            assert(init_layout_ok(*old(self), m, col as int, row as int));
        }
        open_cell(&cfg, col, row, &mut self.cells, &mut self.mine_counts, &mut self.mines);
        let became_mine = self.mines[i];
        let won = !became_mine && all_safe_cells_opened(&cfg, &self.mines, &self.cells);
        self.over = became_mine || won;
        self.won = won;
        let res = OpenResult { became_mine, game_over: self.over, won };
        proof {
            assert(open_applied(*old(self), m, k, *self, res, col as int, row as int));
            assert(open_transition(*old(self), *self, res, col as int, row as int));
            assert forall|q: (int, int)|
                spec_in_bounds(coli, rowi, q.0, q.1) && old(self).cells_view()[#[trigger] spec_idx(
                    coli,
                    q.0,
                    q.1,
                )] == CellState::Opened
                implies self.counts_view()[spec_idx(coli, q.0, q.1)]
                    == old(self).counts_view()[spec_idx(coli, q.0, q.1)] by {
                lemma_idx_range(coli, rowi, q.0, q.1);
            }
        }
        res
    }

    /// Chords on an opened cell: when exactly as many neighbors are flagged
    /// as the cell's mine count, every unopened neighbor opens (each with
    /// the full flood and anti-guess behavior, in enumeration order). On a
    /// flag-count mismatch nothing opens and `matched` is false, so the
    /// caller can alert the player. A no-op on unopened or flagged cells
    /// and after the game is over.
    #[verifier::loop_isolation(false)]
    #[verifier::rlimit(100)]
    pub fn chord(&mut self, col: usize, row: usize) -> (res: ChordResult)
        requires
            old(self).wf(),
            col < old(self).spec_cols(),
            row < old(self).spec_rows(),
        ensures
            final(self).wf(),
            final(self).spec_cols() == old(self).spec_cols(),
            final(self).spec_rows() == old(self).spec_rows(),
            final(self).spec_total_mines() == old(self).spec_total_mines(),
            res.game_over == final(self).spec_over(),
            res.won == final(self).spec_won(),
            old(self).spec_over() ==> *final(self) == *old(self) && res == (ChordResult {
                matched: false,
                became_mine: false,
                game_over: true,
                won: old(self).spec_won(),
            }),
            !old(self).spec_over() && old(self).cells_view()[spec_idx(
                old(self).spec_cols(),
                col as int,
                row as int,
            )] != CellState::Opened ==> *final(self) == *old(self) && res == (ChordResult {
                matched: false,
                became_mine: false,
                game_over: false,
                won: false,
            }),
            !old(self).spec_over() && old(self).cells_view()[spec_idx(
                old(self).spec_cols(),
                col as int,
                row as int,
            )] == CellState::Opened && count_flagged_in(
                neighbors_of(old(self).spec_cols(), old(self).spec_rows(), col as int, row as int),
                old(self).cells_view(),
                old(self).spec_cols(),
            ) != old(self).counts_view()[spec_idx(old(self).spec_cols(), col as int, row as int)]
                as int ==> *final(self) == *old(self) && res == (ChordResult {
                matched: false,
                became_mine: false,
                game_over: false,
                won: false,
            }),
            !old(self).spec_over() && old(self).cells_view()[spec_idx(
                old(self).spec_cols(),
                col as int,
                row as int,
            )] == CellState::Opened && count_flagged_in(
                neighbors_of(old(self).spec_cols(), old(self).spec_rows(), col as int, row as int),
                old(self).cells_view(),
                old(self).spec_cols(),
            ) == old(self).counts_view()[spec_idx(old(self).spec_cols(), col as int, row as int)]
                as int ==> ({
                let ns = neighbors_of(old(self).spec_cols(), old(self).spec_rows(), col as int,
                    row as int);
                let fold = chord_opens(
                    old(self).mines_view(),
                    old(self).cells_view(),
                    old(self).spec_cols(),
                    old(self).spec_rows(),
                    ns,
                    ns.len() as int,
                );
                &&& res.matched
                &&& final(self).mines_view() == fold.0
                &&& final(self).cells_view() == fold.1
                &&& counts_correct(final(self).counts_view(), fold.0, old(self).spec_cols(),
                    old(self).spec_rows())
                &&& res.became_mine == fold.2
                &&& res.won == (!fold.2 && all_safe_opened(fold.0, fold.1))
                &&& res.game_over == (fold.2 || res.won)
                &&& final(self).spec_started()
            }),
            // No already-revealed count ever changes.
            forall|q: (int, int)|
                spec_in_bounds(old(self).spec_cols(), old(self).spec_rows(), q.0, q.1)
                    && old(self).cells_view()[#[trigger] spec_idx(
                    old(self).spec_cols(),
                    q.0,
                    q.1,
                )] == CellState::Opened ==> final(self).counts_view()[spec_idx(
                    old(self).spec_cols(),
                    q.0,
                    q.1,
                )] == old(self).counts_view()[spec_idx(old(self).spec_cols(), q.0, q.1)],
    {
        let ghost coli = self.spec_cols();
        let ghost rowi = self.spec_rows();
        if self.over {
            return ChordResult { matched: false, became_mine: false, game_over: true, won: self.won };
        }
        let i = flat_index(self.cols, self.rows, col, row);
        if !(self.cells[i] == CellState::Opened) {
            return ChordResult { matched: false, became_mine: false, game_over: false, won: false };
        }
        proof {
            assert(self.spec_rows() * self.spec_cols() <= 9801) by (nonlinear_arith)
                requires
                    1 <= self.spec_cols() <= 99,
                    1 <= self.spec_rows() <= 99,
            ;
            assert(self.started);
        }
        let cfg = self.cfg();
        let flag_count = count_flagged_neighbors(&cfg, col, row, &self.cells);
        if flag_count != self.mine_counts[i] {
            return ChordResult { matched: false, became_mine: false, game_over: false, won: false };
        }
        let ghost m0 = self.mines@;
        let ghost c0 = self.cells@;
        let ghost k0 = self.mine_counts@;
        let ghost ns = neighbors_of(coli, rowi, col as int, row as int);
        proof {
            lemma_neighbors_of(coli, rowi, col as int, row as int);
        }
        let nbrs = do_surrounding(&cfg, col, row);
        let mut hit = false;
        let mut t: usize = 0;
        while t < nbrs.len()
            invariant
                0 <= t <= nbrs.len(),
                self.cols == old(self).cols,
                self.rows == old(self).rows,
                self.mine_count == old(self).mine_count,
                self.started,
                self.over == old(self).over,
                self.won == old(self).won,
                self.mines@.len() == rowi * coli,
                self.mine_counts@.len() == rowi * coli,
                self.cells@.len() == rowi * coli,
                counts_correct(self.mine_counts@, self.mines@, coli, rowi),
                count_trues(self.mines@) == count_trues(m0),
                self.mines@ == chord_opens(m0, c0, coli, rowi, ns, t as int).0,
                self.cells@ == chord_opens(m0, c0, coli, rowi, ns, t as int).1,
                hit == chord_opens(m0, c0, coli, rowi, ns, t as int).2,
                forall|q: (int, int)|
                    spec_in_bounds(coli, rowi, q.0, q.1) && c0[#[trigger] spec_idx(coli, q.0, q.1)]
                        == CellState::Opened ==> self.cells@[spec_idx(coli, q.0, q.1)]
                        == CellState::Opened,
                forall|q: (int, int)|
                    spec_in_bounds(coli, rowi, q.0, q.1) && c0[#[trigger] spec_idx(coli, q.0, q.1)]
                        == CellState::Opened ==> self.mine_counts@[spec_idx(coli, q.0, q.1)]
                        == k0[spec_idx(coli, q.0, q.1)],
            decreases nbrs.len() - t,
        {
            let (qx, qy) = nbrs[t];
            proof {
                assert(ns.contains(ns[t as int]));
                lemma_idx_range(coli, rowi, qx as int, qy as int);
            }
            let qi = flat_index(self.cols, self.rows, qx, qy);
            let ghost m_prev = self.mines@;
            let ghost c_prev = self.cells@;
            let ghost k_prev = self.mine_counts@;
            let ghost hit_prev = hit;
            if self.cells[qi] == CellState::Unopened {
                open_cell(&cfg, qx, qy, &mut self.cells, &mut self.mine_counts, &mut self.mines);
                if self.mines[qi] {
                    hit = true;
                }
                proof {
                    assert(ns[t as int] == (qx as int, qy as int));
                    lemma_chord_step(m0, c0, k_prev, self.mines@, self.cells@, hit_prev, coli,
                        rowi, ns, t as int);
                    assert(hit == (hit_prev || self.mines@[spec_idx(coli, qx as int, qy as int)]));
                    assert forall|q: (int, int)|
                        spec_in_bounds(coli, rowi, q.0, q.1) && c0[#[trigger] spec_idx(coli, q.0,
                            q.1)] == CellState::Opened
                        implies self.cells@[spec_idx(coli, q.0, q.1)] == CellState::Opened
                            && self.mine_counts@[spec_idx(coli, q.0, q.1)] == k0[spec_idx(coli,
                            q.0, q.1)] by {
                        lemma_idx_range(coli, rowi, q.0, q.1);
                        assert(c_prev[spec_idx(coli, q.0, q.1)] == CellState::Opened);
                    }
                }
            } else {
                proof {
                    assert(chord_opens(m0, c0, coli, rowi, ns, t as int + 1)
                        == chord_opens(m0, c0, coli, rowi, ns, t as int));
                }
            }
            t += 1;
        }
        let became_mine = hit;
        let won = !hit && all_safe_cells_opened(&cfg, &self.mines, &self.cells);
        self.over = hit || won;
        self.won = won;
        let res = ChordResult { matched: true, became_mine, game_over: self.over, won };
        proof {
            assert(t as int == ns.len());
            assert forall|q: (int, int)|
                spec_in_bounds(coli, rowi, q.0, q.1) && old(self).cells_view()[#[trigger] spec_idx(
                    coli,
                    q.0,
                    q.1,
                )] == CellState::Opened
                implies self.counts_view()[spec_idx(coli, q.0, q.1)]
                    == old(self).counts_view()[spec_idx(coli, q.0, q.1)] by {
                lemma_idx_range(coli, rowi, q.0, q.1);
            }
        }
        res
    }
}

/// What holds of the mine layout that an `open` acts on: the existing field
/// for a started game, or a fresh placement that has exactly the configured
/// number of mines and respects the first click's safe zone.
pub open spec fn init_layout_ok(pre: Board, m: Seq<bool>, c: int, r: int) -> bool {
    if pre.spec_started() {
        m == pre.mines_view()
    } else {
        &&& m.len() == pre.spec_rows() * pre.spec_cols()
        &&& count_trues(m) == pre.spec_total_mines()
        &&& forall|cc: int, rr: int|
            spec_in_bounds(pre.spec_cols(), pre.spec_rows(), cc, rr) && in_safe_zone(c, r, cc, rr)
                ==> !m[#[trigger] spec_idx(pre.spec_cols(), cc, rr)]
    }
}

/// How opening the unopened cell `(c, r)` over the layout `m` with correct
/// count map `k` transforms the board and determines the result.
pub open spec fn open_applied(
    pre: Board,
    m: Seq<bool>,
    k: Seq<u8>,
    post: Board,
    res: OpenResult,
    c: int,
    r: int,
) -> bool {
    let cols = pre.spec_cols();
    let rows = pre.spec_rows();
    let m2 = mines_after_open(m, k, pre.cells_view(), cols, rows, c, r);
    let reg = flood_region((c, r), pre.cells_view(), m2, cols, rows);
    &&& post.mines_view() == m2
    &&& counts_correct(post.counts_view(), m2, cols, rows)
    &&& post.cells_view().len() == rows * cols
    &&& forall|p: (int, int)|
        spec_in_bounds(cols, rows, p.0, p.1)
            ==> post.cells_view()[#[trigger] spec_idx(cols, p.0, p.1)] == (if reg.contains(p) {
                CellState::Opened
            } else {
                pre.cells_view()[spec_idx(cols, p.0, p.1)]
            })
    &&& res.became_mine == m2[spec_idx(cols, c, r)]
    &&& res.won == (!res.became_mine && all_safe_opened(m2, post.cells_view()))
    &&& res.game_over == (res.became_mine || res.won)
    &&& post.spec_over() == res.game_over
    &&& post.spec_won() == res.won
    &&& post.spec_started()
    &&& post.spec_cols() == cols
    &&& post.spec_rows() == rows
    &&& post.spec_total_mines() == pre.spec_total_mines()
}

/// The full effect of an accepted `open` on an unopened cell: some layout
/// consistent with the game phase is acted on as [`open_applied`] says.
pub open spec fn open_transition(pre: Board, post: Board, res: OpenResult, c: int, r: int) -> bool {
    exists|m: Seq<bool>, k: Seq<u8>|
        #![trigger counts_correct(k, m, pre.spec_cols(), pre.spec_rows())]
        {
            &&& init_layout_ok(pre, m, c, r)
            &&& counts_correct(k, m, pre.spec_cols(), pre.spec_rows())
            &&& (pre.spec_started() ==> k == pre.counts_view())
            &&& open_applied(pre, m, k, post, res, c, r)
        }
}

/// Number of flagged cells among a given list of cells.
pub open spec fn count_flagged_in(ps: Seq<(int, int)>, cells: Seq<CellState>, cols: int) -> int
    decreases ps.len(),
{
    if ps.len() == 0 {
        0
    } else {
        count_flagged_in(ps.drop_last(), cells, cols) + if cells[spec_idx(
            cols,
            ps.last().0,
            ps.last().1,
        )] == CellState::Flagged {
            1int
        } else {
            0int
        }
    }
}

/// The states after a chord opened the first `t` enumerated neighbors of the
/// chorded cell, in order: the mine layout, the cell states, and whether any
/// directly opened neighbor held a mine when it opened.
pub open spec fn chord_opens(
    mines: Seq<bool>,
    cells: Seq<CellState>,
    cols: int,
    rows: int,
    ns: Seq<(int, int)>,
    t: int,
) -> (Seq<bool>, Seq<CellState>, bool)
    decreases t,
{
    if t <= 0 {
        (mines, cells, false)
    } else {
        let prev = chord_opens(mines, cells, cols, rows, ns, t - 1);
        let q = ns[t - 1];
        if prev.1[spec_idx(cols, q.0, q.1)] == CellState::Unopened {
            let m2 = mines_after_open(prev.0, counts_for(prev.0, cols, rows), prev.1, cols, rows,
                q.0, q.1);
            let reg = flood_region(q, prev.1, m2, cols, rows);
            let c2 = Seq::new(prev.1.len(), |i: int| if reg.contains((i % cols, i / cols)) {
                CellState::Opened
            } else {
                prev.1[i]
            });
            (m2, c2, prev.2 || m2[spec_idx(cols, q.0, q.1)])
        } else {
            prev
        }
    }
}

/// A pointwise flood mapping determines the new cell states exactly.
proof fn lemma_cells_seq_from_pointwise(
    cells2: Seq<CellState>,
    c_prev: Seq<CellState>,
    reg: Set<(int, int)>,
    cols: int,
    rows: int,
)
    requires
        cols >= 1,
        rows >= 1,
        cells2.len() == rows * cols,
        c_prev.len() == rows * cols,
        forall|p: (int, int)|
            spec_in_bounds(cols, rows, p.0, p.1)
                ==> cells2[#[trigger] spec_idx(cols, p.0, p.1)] == (if reg.contains(p) {
                    CellState::Opened
                } else {
                    c_prev[spec_idx(cols, p.0, p.1)]
                }),
    ensures
        cells2 == Seq::new(c_prev.len(), |i: int| if reg.contains((i % cols, i / cols)) {
            CellState::Opened
        } else {
            c_prev[i]
        }),
{
    let target = Seq::new(c_prev.len(), |i: int| if reg.contains((i % cols, i / cols)) {
        CellState::Opened
    } else {
        c_prev[i]
    });
    assert forall|i: int| 0 <= i < cells2.len() implies cells2[i] == target[i] by {
        lemma_idx_decompose(cols, rows, i);
        let p = ((i % cols), (i / cols));
        assert(cells2[spec_idx(cols, p.0, p.1)] == (if reg.contains(p) {
            CellState::Opened
        } else {
            c_prev[spec_idx(cols, p.0, p.1)]
        }));
    }
    assert(cells2 =~= target);
}

/// One chord step extends the fold by one enumerated neighbor.
proof fn lemma_chord_step(
    m0: Seq<bool>,
    c0: Seq<CellState>,
    k_prev: Seq<u8>,
    m_new: Seq<bool>,
    c_new: Seq<CellState>,
    hit_prev: bool,
    cols: int,
    rows: int,
    ns: Seq<(int, int)>,
    t: int,
)
    requires
        0 <= t < ns.len(),
        cols >= 1,
        rows >= 1,
        chord_opens(m0, c0, cols, rows, ns, t).1[spec_idx(cols, ns[t].0, ns[t].1)]
            == CellState::Unopened,
        counts_correct(k_prev, chord_opens(m0, c0, cols, rows, ns, t).0, cols, rows),
        m_new == mines_after_open(
            chord_opens(m0, c0, cols, rows, ns, t).0,
            k_prev,
            chord_opens(m0, c0, cols, rows, ns, t).1,
            cols,
            rows,
            ns[t].0,
            ns[t].1,
        ),
        c_new.len() == rows * cols,
        chord_opens(m0, c0, cols, rows, ns, t).1.len() == rows * cols,
        forall|p: (int, int)|
            spec_in_bounds(cols, rows, p.0, p.1)
                ==> c_new[#[trigger] spec_idx(cols, p.0, p.1)] == (if flood_region(
                    ns[t],
                    chord_opens(m0, c0, cols, rows, ns, t).1,
                    m_new,
                    cols,
                    rows,
                ).contains(p) {
                    CellState::Opened
                } else {
                    chord_opens(m0, c0, cols, rows, ns, t).1[spec_idx(cols, p.0, p.1)]
                }),
        hit_prev == chord_opens(m0, c0, cols, rows, ns, t).2,
    ensures
        chord_opens(m0, c0, cols, rows, ns, t + 1).0 == m_new,
        chord_opens(m0, c0, cols, rows, ns, t + 1).1 == c_new,
        chord_opens(m0, c0, cols, rows, ns, t + 1).2 == (hit_prev || m_new[spec_idx(
            cols,
            ns[t].0,
            ns[t].1,
        )]),
{
    let prev = chord_opens(m0, c0, cols, rows, ns, t);
    lemma_counts_for_correct(k_prev, prev.0, cols, rows);
    let q = ns[t];
    assert(ns[t + 1 - 1] == q);
    let reg = flood_region(q, prev.1, m_new, cols, rows);
    lemma_cells_seq_from_pointwise(c_new, prev.1, reg, cols, rows);
    assert((q.0, q.1) == q);
}

} // verus!
