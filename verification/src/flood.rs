//! Flood-opening of connected zero-count regions.
//!
//! Opening an unopened cell opens it; if its (possibly relocated) mine count
//! is zero, all unopened neighbors open too, transitively, through an
//! explicit work list. The result is characterized exactly: the cells that
//! open are the least set that contains the clicked cell and is closed under
//! stepping from a zero-count member to an unopened neighbor.

use vstd::prelude::*;
use crate::antiguess::{
    accepted_candidate, lemma_count_in_zero, lemma_no_candidate_next_to_opened_zero, relocated,
    try_move_mine,
};
use crate::cell::CellState;
use crate::grid::{
    adjacent, count_trues, counts_correct, do_surrounding, lemma_idx_injective, lemma_idx_range,
    lemma_neighbors_of, neighbors_of, spec_adj_mines, spec_idx, spec_in_bounds,
};
use crate::shared::Config;

verus! {

/// Whether a set of cells is closed under the flood step: from any member
/// with mine count zero, every unopened in-bounds neighbor is also a member.
pub open spec fn flood_closed(
    s: Set<(int, int)>,
    cells: Seq<CellState>,
    mines: Seq<bool>,
    cols: int,
    rows: int,
) -> bool {
    forall|x: (int, int), y: (int, int)|
        #![trigger s.contains(x), s.contains(y)]
        s.contains(x) && spec_in_bounds(cols, rows, x.0, x.1)
            && spec_adj_mines(mines, cols, rows, x.0, x.1) == 0
            && adjacent(x.0, x.1, y.0, y.1)
            && spec_in_bounds(cols, rows, y.0, y.1)
            && cells[spec_idx(cols, y.0, y.1)] == CellState::Unopened
            ==> s.contains(y)
}

/// The cells that flood-opening from `start` reaches: the intersection of
/// all flood-closed sets containing `start`. This is the connected
/// zero-count region around `start` together with its one-layer border of
/// nonzero cells, connectivity running through unopened cells only.
pub open spec fn flood_region(
    start: (int, int),
    cells: Seq<CellState>,
    mines: Seq<bool>,
    cols: int,
    rows: int,
) -> Set<(int, int)> {
    Set::new(
        |y: (int, int)|
            forall|s: Set<(int, int)>|
                #[trigger] flood_closed(s, cells, mines, cols, rows) && s.contains(start)
                    ==> s.contains(y),
    )
}

/// The flood region contains its start, is itself flood-closed, and is
/// contained in every flood-closed set that holds the start.
pub proof fn lemma_flood_region_basics(
    start: (int, int),
    cells: Seq<CellState>,
    mines: Seq<bool>,
    cols: int,
    rows: int,
)
    ensures
        flood_region(start, cells, mines, cols, rows).contains(start),
        flood_closed(flood_region(start, cells, mines, cols, rows), cells, mines, cols, rows),
        forall|s: Set<(int, int)>|
            #[trigger] flood_closed(s, cells, mines, cols, rows) && s.contains(start)
                ==> flood_region(start, cells, mines, cols, rows).subset_of(s),
{
    let reg = flood_region(start, cells, mines, cols, rows);
    assert(reg.contains(start));
    assert forall|x: (int, int), y: (int, int)|
        #![trigger reg.contains(x), reg.contains(y)]
        reg.contains(x) && spec_in_bounds(cols, rows, x.0, x.1)
            && spec_adj_mines(mines, cols, rows, x.0, x.1) == 0
            && adjacent(x.0, x.1, y.0, y.1)
            && spec_in_bounds(cols, rows, y.0, y.1)
            && cells[spec_idx(cols, y.0, y.1)] == CellState::Unopened
        implies reg.contains(y) by {
        assert forall|s: Set<(int, int)>|
            #[trigger] flood_closed(s, cells, mines, cols, rows) && s.contains(start)
            implies s.contains(y) by {
            assert(s.contains(x));
        }
    }
    assert forall|s: Set<(int, int)>|
        #[trigger] flood_closed(s, cells, mines, cols, rows) && s.contains(start)
        implies reg.subset_of(s) by {
        assert forall|y: (int, int)| reg.contains(y) implies s.contains(y) by {}
    }
}

/// The mine layout after the anti-guess step that accompanies opening the
/// cell `(c, r)`; a cell that already holds a mine is opened without any
/// relocation attempt.
pub open spec fn mines_after_open(
    mines: Seq<bool>,
    counts: Seq<u8>,
    cells: Seq<CellState>,
    cols: int,
    rows: int,
    c: int,
    r: int,
) -> Seq<bool> {
    if mines[spec_idx(cols, c, r)] {
        mines
    } else {
        match accepted_candidate(mines, counts, cells, cols, rows, c, r) {
            None => mines,
            Some(n) => relocated(mines, cols, c, r, n.0, n.1),
        }
    }
}

/// Whether the work list holds the cell `y`.
pub open spec fn stack_has(st: Seq<(usize, usize)>, y: (int, int)) -> bool {
    exists|j: int| 0 <= j < st.len() && (#[trigger] st[j]).0 == y.0 && st[j].1 == y.1
}

/// Number of unopened cells on the board; the flood's termination measure.
pub open spec fn count_unopened(s: Seq<CellState>) -> int
    decreases s.len(),
{
    if s.len() == 0 {
        0
    } else {
        count_unopened(s.drop_last()) + if s.last() == CellState::Unopened { 1int } else { 0int }
    }
}

proof fn lemma_count_unopened_bounds(s: Seq<CellState>)
    ensures
        0 <= count_unopened(s) <= s.len(),
    decreases s.len(),
{
    if s.len() > 0 {
        lemma_count_unopened_bounds(s.drop_last());
    }
}

proof fn lemma_count_unopened_update(s: Seq<CellState>, i: int, v: CellState)
    requires
        0 <= i < s.len(),
    ensures
        count_unopened(s.update(i, v)) == count_unopened(s)
            - (if s[i] == CellState::Unopened { 1int } else { 0int })
            + (if v == CellState::Unopened { 1int } else { 0int }),
    decreases s.len(),
{
    let su = s.update(i, v);
    if i == s.len() - 1 {
        assert(su.drop_last() =~= s.drop_last());
    } else {
        assert(su.drop_last() =~= s.drop_last().update(i, v));
        lemma_count_unopened_update(s.drop_last(), i, v);
    }
}

/// Pushes every currently-unopened in-bounds neighbor of the just-opened
/// zero-count cell `(px, py)` onto the work list.
#[verifier::loop_isolation(false)]
fn push_unopened_neighbors(
    cfg: &Config,
    px: usize,
    py: usize,
    cells: &Vec<CellState>,
    stack: &mut Vec<(usize, usize)>,
    Ghost(old_cells): Ghost<Seq<CellState>>,
    Ghost(m1): Ghost<Seq<bool>>,
    Ghost(region): Ghost<Set<(int, int)>>,
    Ghost(opened): Ghost<Set<(int, int)>>,
)
    requires
        px < cfg.cell_cols,
        py < cfg.cell_rows,
        cfg.cell_rows * cfg.cell_cols <= usize::MAX,
        cells.len() == cfg.cell_rows * cfg.cell_cols,
        old_cells.len() == cfg.cell_rows * cfg.cell_cols,
        opened.contains((px as int, py as int)),
        region.contains((px as int, py as int)),
        spec_adj_mines(m1, cfg.cell_cols as int, cfg.cell_rows as int, px as int, py as int) == 0,
        flood_closed(region, old_cells, m1, cfg.cell_cols as int, cfg.cell_rows as int),
        forall|p: (int, int)|
            spec_in_bounds(cfg.cell_cols as int, cfg.cell_rows as int, p.0, p.1)
                ==> cells@[#[trigger] spec_idx(cfg.cell_cols as int, p.0, p.1)] == (
                if opened.contains(p) {
                    CellState::Opened
                } else {
                    old_cells[spec_idx(cfg.cell_cols as int, p.0, p.1)]
                }),
        forall|j: int| 0 <= j < old(stack)@.len()
            ==> spec_in_bounds(cfg.cell_cols as int, cfg.cell_rows as int,
                (#[trigger] old(stack)@[j]).0 as int, old(stack)@[j].1 as int)
                && old_cells[spec_idx(cfg.cell_cols as int, old(stack)@[j].0 as int,
                    old(stack)@[j].1 as int)] == CellState::Unopened
                && region.contains((old(stack)@[j].0 as int, old(stack)@[j].1 as int)),
        forall|j: int| 0 <= j < old(stack)@.len()
            ==> exists|x: (int, int)|
                opened.contains(x) && spec_adj_mines(m1, cfg.cell_cols as int,
                    cfg.cell_rows as int, x.0, x.1) == 0
                    && adjacent(x.0, x.1, (#[trigger] old(stack)@[j]).0 as int,
                        old(stack)@[j].1 as int),
    ensures
        forall|j: int| 0 <= j < final(stack)@.len()
            ==> spec_in_bounds(cfg.cell_cols as int, cfg.cell_rows as int,
                (#[trigger] final(stack)@[j]).0 as int, final(stack)@[j].1 as int)
                && old_cells[spec_idx(cfg.cell_cols as int, final(stack)@[j].0 as int,
                    final(stack)@[j].1 as int)] == CellState::Unopened
                && region.contains((final(stack)@[j].0 as int, final(stack)@[j].1 as int)),
        forall|j: int| 0 <= j < final(stack)@.len()
            ==> exists|x: (int, int)|
                opened.contains(x) && spec_adj_mines(m1, cfg.cell_cols as int,
                    cfg.cell_rows as int, x.0, x.1) == 0
                    && adjacent(x.0, x.1, (#[trigger] final(stack)@[j]).0 as int,
                        final(stack)@[j].1 as int),
        forall|y: (int, int)| #[trigger] stack_has(old(stack)@, y) ==> stack_has(final(stack)@, y),
        forall|y: (int, int)|
            adjacent(px as int, py as int, y.0, y.1)
                && spec_in_bounds(cfg.cell_cols as int, cfg.cell_rows as int, y.0, y.1)
                && old_cells[#[trigger] spec_idx(cfg.cell_cols as int, y.0, y.1)]
                    == CellState::Unopened && !opened.contains(y)
                ==> stack_has(final(stack)@, y),
{
    let ghost coli = cfg.cell_cols as int;
    let ghost rowi = cfg.cell_rows as int;
    let ghost pxi = px as int;
    let ghost pyi = py as int;
    let ghost pns = neighbors_of(coli, rowi, pxi, pyi);
    proof {
        lemma_neighbors_of(coli, rowi, pxi, pyi);
    }
    let nbrs = do_surrounding(cfg, px, py);
    let mut k: usize = 0;
    while k < nbrs.len()
        invariant
            0 <= k <= nbrs.len(),
            forall|j: int| 0 <= j < stack@.len()
                ==> spec_in_bounds(coli, rowi, (#[trigger] stack@[j]).0 as int, stack@[j].1 as int)
                    && old_cells[spec_idx(coli, stack@[j].0 as int, stack@[j].1 as int)]
                        == CellState::Unopened
                    && region.contains((stack@[j].0 as int, stack@[j].1 as int)),
            forall|j: int| 0 <= j < stack@.len()
                ==> exists|x: (int, int)|
                    opened.contains(x) && spec_adj_mines(m1, coli, rowi, x.0, x.1) == 0
                        && adjacent(x.0, x.1, (#[trigger] stack@[j]).0 as int, stack@[j].1 as int),
            forall|y: (int, int)| #[trigger] stack_has(old(stack)@, y) ==> stack_has(stack@, y),
            forall|m: int| 0 <= m < k
                ==> (spec_in_bounds(coli, rowi, (#[trigger] pns[m]).0, pns[m].1)
                    && old_cells[spec_idx(coli, pns[m].0, pns[m].1)] == CellState::Unopened
                    && !opened.contains(pns[m]) ==> stack_has(stack@, pns[m])),
        decreases nbrs.len() - k,
    {
        broadcast use vstd::seq_lib::group_seq_properties;

        let (qx, qy) = nbrs[k];
        proof {
            assert(pns.contains(pns[k as int]));
            lemma_idx_range(coli, rowi, qx as int, qy as int);
        }
        let qi = cfg.cell_coords_to_idx(qx, qy);
        let ghost st1 = stack@;
        if cells[qi] == CellState::Unopened {
            proof {
                assert(old_cells[spec_idx(coli, qx as int, qy as int)] == CellState::Unopened);
                assert(!opened.contains((qx as int, qy as int)));
                assert(region.contains((qx as int, qy as int)));
            }
            stack.push((qx, qy));
            proof {
                assert forall|j: int| 0 <= j < stack@.len()
                    implies exists|x: (int, int)|
                        opened.contains(x) && spec_adj_mines(m1, coli, rowi, x.0, x.1) == 0
                            && adjacent(x.0, x.1, (#[trigger] stack@[j]).0 as int,
                                stack@[j].1 as int) by {
                    if j == stack@.len() - 1 {
                        assert(opened.contains((pxi, pyi)) && spec_adj_mines(m1, coli, rowi, pxi,
                            pyi) == 0 && adjacent(pxi, pyi, stack@[j].0 as int,
                            stack@[j].1 as int));
                    } else {
                        assert(stack@[j] == st1[j]);
                    }
                }
                assert forall|y: (int, int)| #[trigger] stack_has(st1, y)
                    implies stack_has(stack@, y) by {
                    let j = choose|j: int|
                        0 <= j < st1.len() && (#[trigger] st1[j]).0 == y.0 && st1[j].1 == y.1;
                    assert((stack@[j]).0 == y.0 && stack@[j].1 == y.1);
                }
                assert forall|m: int|
                    0 <= m < k + 1 && spec_in_bounds(coli, rowi, (#[trigger] pns[m]).0, pns[m].1)
                        && old_cells[spec_idx(coli, pns[m].0, pns[m].1)] == CellState::Unopened
                        && !opened.contains(pns[m])
                    implies stack_has(stack@, pns[m]) by {
                    if m == k {
                        assert((stack@[stack@.len() - 1]).0 == pns[m].0
                            && stack@[stack@.len() - 1].1 == pns[m].1);
                    } else {
                        assert(stack_has(st1, pns[m]));
                    }
                }
            }
        } else {
            proof {
                if old_cells[spec_idx(coli, qx as int, qy as int)] == CellState::Unopened {
                    assert(opened.contains((qx as int, qy as int)));
                }
            }
        }
        k += 1;
    }
    proof {
        assert forall|y: (int, int)|
            adjacent(pxi, pyi, y.0, y.1) && spec_in_bounds(coli, rowi, y.0, y.1)
                && old_cells[#[trigger] spec_idx(coli, y.0, y.1)] == CellState::Unopened
                && !opened.contains(y)
            implies stack_has(stack@, y) by {
            assert(pns.contains(y));
            let m = choose|m: int| 0 <= m < pns.len() && pns[m] == y;
            assert(spec_in_bounds(coli, rowi, pns[m].0, pns[m].1));
        }
    }
}

/// At a flood pop, the popped cell neighbors an already-opened zero-count
/// cell, so it is mine-free and every relocation candidate for it would
/// change that revealed zero: the anti-guess step does nothing.
proof fn lemma_pop_no_relocation(
    m1: Seq<bool>,
    k1: Seq<u8>,
    cur_cells: Seq<CellState>,
    coli: int,
    rowi: int,
    p: (int, int),
    x: (int, int),
)
    requires
        counts_correct(k1, m1, coli, rowi),
        cur_cells.len() == rowi * coli,
        spec_in_bounds(coli, rowi, p.0, p.1),
        spec_in_bounds(coli, rowi, x.0, x.1),
        adjacent(x.0, x.1, p.0, p.1),
        spec_adj_mines(m1, coli, rowi, x.0, x.1) == 0,
        cur_cells[spec_idx(coli, x.0, x.1)] == CellState::Opened,
    ensures
        !m1[spec_idx(coli, p.0, p.1)],
        accepted_candidate(m1, k1, cur_cells, coli, rowi, p.0, p.1) == None::<(int, int)>,
{
    lemma_neighbors_of(coli, rowi, x.0, x.1);
    let xns = neighbors_of(coli, rowi, x.0, x.1);
    assert(xns.contains((p.0, p.1)));
    let kk = choose|kk: int| 0 <= kk < xns.len() && xns[kk] == (p.0, p.1);
    lemma_count_in_zero(xns, m1, coli, kk);
    assert(!m1[spec_idx(coli, p.0, p.1)]);
    assert(k1[spec_idx(coli, x.0, x.1)] == 0) by {
        lemma_idx_range(coli, rowi, x.0, x.1);
        assert(k1[spec_idx(coli, x.0, x.1)] as int == spec_adj_mines(m1, coli, rowi, x.0, x.1));
    }
    lemma_no_candidate_next_to_opened_zero(m1, k1, cur_cells, coli, rowi, p.0, p.1, x.0, x.1);
}

/// After a pop, the flood completeness invariant carries over: the popped
/// cell is now opened (or already was), its own unopened neighbors are
/// queued if it is a zero cell, and every other queued witness survives in
/// the shrunk-then-grown work list.
proof fn lemma_completeness_preserved(
    st0: Seq<(usize, usize)>,
    st: Seq<(usize, usize)>,
    opened0: Set<(int, int)>,
    opened: Set<(int, int)>,
    p: (int, int),
    m1: Seq<bool>,
    old_cells: Seq<CellState>,
    coli: int,
    rowi: int,
)
    requires
        st0.len() > 0,
        p == ((st0[st0.len() - 1].0 as int, st0[st0.len() - 1].1 as int)),
        opened.contains(p),
        forall|x: (int, int)| #[trigger] opened0.contains(x) ==> opened.contains(x),
        forall|x: (int, int)| #[trigger] opened.contains(x) ==> opened0.contains(x) || x == p,
        forall|x: (int, int), y: (int, int)|
            #![trigger opened0.contains(x), opened0.contains(y)]
            opened0.contains(x) && spec_adj_mines(m1, coli, rowi, x.0, x.1) == 0
                && adjacent(x.0, x.1, y.0, y.1) && spec_in_bounds(coli, rowi, y.0, y.1)
                && old_cells[spec_idx(coli, y.0, y.1)] == CellState::Unopened
                && !opened0.contains(y)
                ==> stack_has(st0, y),
        !opened0.contains(p) && spec_adj_mines(m1, coli, rowi, p.0, p.1) == 0
            ==> forall|y: (int, int)|
                adjacent(p.0, p.1, y.0, y.1) && spec_in_bounds(coli, rowi, y.0, y.1)
                    && old_cells[#[trigger] spec_idx(coli, y.0, y.1)] == CellState::Unopened
                    && !opened.contains(y)
                    ==> stack_has(st, y),
        forall|y: (int, int)| #[trigger] stack_has(st0.drop_last(), y) ==> stack_has(st, y),
    ensures
        forall|x: (int, int), y: (int, int)|
            #![trigger opened.contains(x), opened.contains(y)]
            opened.contains(x) && spec_adj_mines(m1, coli, rowi, x.0, x.1) == 0
                && adjacent(x.0, x.1, y.0, y.1) && spec_in_bounds(coli, rowi, y.0, y.1)
                && old_cells[spec_idx(coli, y.0, y.1)] == CellState::Unopened
                && !opened.contains(y)
                ==> stack_has(st, y),
{
    broadcast use vstd::seq_lib::group_seq_properties;

    assert forall|x: (int, int), y: (int, int)|
        #![trigger opened.contains(x), opened.contains(y)]
        opened.contains(x) && spec_adj_mines(m1, coli, rowi, x.0, x.1) == 0
            && adjacent(x.0, x.1, y.0, y.1) && spec_in_bounds(coli, rowi, y.0, y.1)
            && old_cells[spec_idx(coli, y.0, y.1)] == CellState::Unopened
            && !opened.contains(y)
        implies stack_has(st, y) by {
        if opened0.contains(x) {
            assert(!opened0.contains(y));
            assert(stack_has(st0, y));
            let j = choose|j: int|
                0 <= j < st0.len() && (#[trigger] st0[j]).0 == y.0 && st0[j].1 == y.1;
            if j == st0.len() - 1 {
                assert(y == p);
            } else {
                assert(st0.drop_last()[j] == st0[j]);
                assert(stack_has(st0.drop_last(), y));
            }
        } else {
            assert(x == p);
        }
    }
}

/// Opens one popped flood cell: the anti-guess step provably does nothing
/// here, the cell is marked opened, and if its count is zero its unopened
/// neighbors are queued. Returns the grown opened set.
#[verifier::loop_isolation(false)]
#[verifier::rlimit(100)]
fn open_flood_cell(
    cfg: &Config,
    px: usize,
    py: usize,
    cells: &mut Vec<CellState>,
    mine_counts: &mut Vec<u8>,
    mines: &mut Vec<bool>,
    stack: &mut Vec<(usize, usize)>,
    Ghost(old_cells): Ghost<Seq<CellState>>,
    Ghost(m1): Ghost<Seq<bool>>,
    Ghost(k1): Ghost<Seq<u8>>,
    Ghost(region): Ghost<Set<(int, int)>>,
    Ghost(opened): Ghost<Set<(int, int)>>,
) -> (res: Ghost<Set<(int, int)>>)
    requires
        px < cfg.cell_cols,
        py < cfg.cell_rows,
        cfg.cell_rows * cfg.cell_cols <= usize::MAX,
        old(cells).len() == cfg.cell_rows * cfg.cell_cols,
        old(mine_counts).len() == cfg.cell_rows * cfg.cell_cols,
        old(mines).len() == cfg.cell_rows * cfg.cell_cols,
        old(mines)@ == m1,
        old(mine_counts)@ == k1,
        old_cells.len() == cfg.cell_rows * cfg.cell_cols,
        counts_correct(k1, m1, cfg.cell_cols as int, cfg.cell_rows as int),
        flood_closed(region, old_cells, m1, cfg.cell_cols as int, cfg.cell_rows as int),
        old(cells)@[spec_idx(cfg.cell_cols as int, px as int, py as int)] == CellState::Unopened,
        region.contains((px as int, py as int)),
        forall|p: (int, int)| #[trigger] opened.contains(p)
            ==> spec_in_bounds(cfg.cell_cols as int, cfg.cell_rows as int, p.0, p.1)
                && old_cells[spec_idx(cfg.cell_cols as int, p.0, p.1)] == CellState::Unopened
                && region.contains(p),
        forall|p: (int, int)|
            spec_in_bounds(cfg.cell_cols as int, cfg.cell_rows as int, p.0, p.1)
                ==> old(cells)@[#[trigger] spec_idx(cfg.cell_cols as int, p.0, p.1)] == (
                if opened.contains(p) {
                    CellState::Opened
                } else {
                    old_cells[spec_idx(cfg.cell_cols as int, p.0, p.1)]
                }),
        exists|x: (int, int)|
            opened.contains(x) && spec_adj_mines(m1, cfg.cell_cols as int, cfg.cell_rows as int,
                x.0, x.1) == 0 && adjacent(x.0, x.1, px as int, py as int),
        forall|j: int| 0 <= j < old(stack)@.len()
            ==> spec_in_bounds(cfg.cell_cols as int, cfg.cell_rows as int,
                (#[trigger] old(stack)@[j]).0 as int, old(stack)@[j].1 as int)
                && old_cells[spec_idx(cfg.cell_cols as int, old(stack)@[j].0 as int,
                    old(stack)@[j].1 as int)] == CellState::Unopened
                && region.contains((old(stack)@[j].0 as int, old(stack)@[j].1 as int)),
        forall|j: int| 0 <= j < old(stack)@.len()
            ==> exists|x: (int, int)|
                opened.contains(x) && spec_adj_mines(m1, cfg.cell_cols as int,
                    cfg.cell_rows as int, x.0, x.1) == 0
                    && adjacent(x.0, x.1, (#[trigger] old(stack)@[j]).0 as int,
                        old(stack)@[j].1 as int),
    ensures
        final(cells).len() == old(cells).len(),
        final(mines)@ == m1,
        final(mine_counts)@ == k1,
        res@ == opened.insert((px as int, py as int)),
        count_unopened(final(cells)@) == count_unopened(old(cells)@) - 1,
        forall|p: (int, int)| #[trigger] res@.contains(p)
            ==> spec_in_bounds(cfg.cell_cols as int, cfg.cell_rows as int, p.0, p.1)
                && old_cells[spec_idx(cfg.cell_cols as int, p.0, p.1)] == CellState::Unopened
                && region.contains(p),
        forall|p: (int, int)|
            spec_in_bounds(cfg.cell_cols as int, cfg.cell_rows as int, p.0, p.1)
                ==> final(cells)@[#[trigger] spec_idx(cfg.cell_cols as int, p.0, p.1)] == (
                if res@.contains(p) {
                    CellState::Opened
                } else {
                    old_cells[spec_idx(cfg.cell_cols as int, p.0, p.1)]
                }),
        forall|j: int| 0 <= j < final(stack)@.len()
            ==> spec_in_bounds(cfg.cell_cols as int, cfg.cell_rows as int,
                (#[trigger] final(stack)@[j]).0 as int, final(stack)@[j].1 as int)
                && old_cells[spec_idx(cfg.cell_cols as int, final(stack)@[j].0 as int,
                    final(stack)@[j].1 as int)] == CellState::Unopened
                && region.contains((final(stack)@[j].0 as int, final(stack)@[j].1 as int)),
        forall|j: int| 0 <= j < final(stack)@.len()
            ==> exists|x: (int, int)|
                res@.contains(x) && spec_adj_mines(m1, cfg.cell_cols as int, cfg.cell_rows as int,
                    x.0, x.1) == 0
                    && adjacent(x.0, x.1, (#[trigger] final(stack)@[j]).0 as int,
                        final(stack)@[j].1 as int),
        forall|y: (int, int)| #[trigger] stack_has(old(stack)@, y) ==> stack_has(final(stack)@, y),
        spec_adj_mines(m1, cfg.cell_cols as int, cfg.cell_rows as int, px as int, py as int) == 0
            ==> forall|y: (int, int)|
                adjacent(px as int, py as int, y.0, y.1)
                    && spec_in_bounds(cfg.cell_cols as int, cfg.cell_rows as int, y.0, y.1)
                    && old_cells[#[trigger] spec_idx(cfg.cell_cols as int, y.0, y.1)]
                        == CellState::Unopened && !res@.contains(y)
                    ==> stack_has(final(stack)@, y),
{
    let ghost coli = cfg.cell_cols as int;
    let ghost rowi = cfg.cell_rows as int;
    let ghost pxi = px as int;
    let ghost pyi = py as int;
    proof {
        lemma_idx_range(coli, rowi, pxi, pyi);
        assert(!opened.contains((pxi, pyi)));
        let x = choose|x: (int, int)|
            opened.contains(x) && spec_adj_mines(m1, coli, rowi, x.0, x.1) == 0
                && adjacent(x.0, x.1, pxi, pyi);
        assert(cells@[spec_idx(coli, x.0, x.1)] == CellState::Opened) by {
            lemma_idx_range(coli, rowi, x.0, x.1);
        }
        lemma_pop_no_relocation(m1, k1, cells@, coli, rowi, (pxi, pyi), x);
    }
    let pi = cfg.cell_coords_to_idx(px, py);
    if !mines[pi] {
        let _ = try_move_mine(cfg, px, py, cells, mine_counts, mines);
    }
    proof {
        lemma_count_unopened_update(cells@, spec_idx(coli, pxi, pyi), CellState::Opened);
    }
    cells.set(pi, CellState::Opened);
    let ghost grown: Set<(int, int)> = opened.insert((pxi, pyi));
    proof {
        assert forall|q: (int, int)|
            spec_in_bounds(coli, rowi, q.0, q.1)
            implies cells@[#[trigger] spec_idx(coli, q.0, q.1)] == (if grown.contains(q) {
                CellState::Opened
            } else {
                old_cells[spec_idx(coli, q.0, q.1)]
            }) by {
            lemma_idx_range(coli, rowi, q.0, q.1);
            if spec_idx(coli, q.0, q.1) == spec_idx(coli, pxi, pyi) {
                lemma_idx_injective(coli, rowi, q.0, q.1, pxi, pyi);
            }
        }
        assert forall|j: int| 0 <= j < stack@.len()
            implies exists|x: (int, int)|
                grown.contains(x) && spec_adj_mines(m1, coli, rowi, x.0, x.1) == 0
                    && adjacent(x.0, x.1, (#[trigger] stack@[j]).0 as int, stack@[j].1 as int)
            by {
            let x = choose|x: (int, int)|
                opened.contains(x) && spec_adj_mines(m1, coli, rowi, x.0, x.1) == 0
                    && adjacent(x.0, x.1, stack@[j].0 as int, stack@[j].1 as int);
            assert(grown.contains(x));
        }
    }
    if mine_counts[pi] == 0 {
        proof {
            assert(k1[spec_idx(coli, pxi, pyi)] as int == spec_adj_mines(m1, coli, rowi, pxi,
                pyi));
        }
        push_unopened_neighbors(cfg, px, py, cells, stack, Ghost(old_cells), Ghost(m1),
            Ghost(region), Ghost(grown));
    } else {
        proof {
            assert(spec_adj_mines(m1, coli, rowi, pxi, pyi) != 0) by {
                assert(k1[spec_idx(coli, pxi, pyi)] as int == spec_adj_mines(m1, coli, rowi, pxi,
                    pyi));
            }
        }
    }
    Ghost(grown)
}

/// Opens the cell `(sx, sy)`. A no-op unless the cell is unopened. Otherwise
/// the anti-guess solver may first move a mine onto the cell; the cell is
/// then opened, and if its count is zero the opening floods through the
/// connected zero-count region and its border, skipping flagged cells.
/// Exactly the cells of [`flood_region`] open; everything else -- flags,
/// already-opened cells, and every revealed count -- stays as it was.
#[verifier::loop_isolation(false)]
#[verifier::rlimit(100)]
pub fn open_cell(
    cfg: &Config,
    sx: usize,
    sy: usize,
    cells: &mut Vec<CellState>,
    mine_counts: &mut Vec<u8>,
    mines: &mut Vec<bool>,
)
    requires
        sx < cfg.cell_cols,
        sy < cfg.cell_rows,
        cfg.cell_rows * cfg.cell_cols <= usize::MAX,
        old(cells).len() == cfg.cell_rows * cfg.cell_cols,
        old(mine_counts).len() == cfg.cell_rows * cfg.cell_cols,
        old(mines).len() == cfg.cell_rows * cfg.cell_cols,
        counts_correct(
            old(mine_counts)@,
            old(mines)@,
            cfg.cell_cols as int,
            cfg.cell_rows as int,
        ),
    ensures
        final(cells).len() == old(cells).len(),
        final(mine_counts).len() == old(mine_counts).len(),
        final(mines).len() == old(mines).len(),
        counts_correct(
            final(mine_counts)@,
            final(mines)@,
            cfg.cell_cols as int,
            cfg.cell_rows as int,
        ),
        count_trues(final(mines)@) == count_trues(old(mines)@),
        forall|q: (int, int)|
            spec_in_bounds(cfg.cell_cols as int, cfg.cell_rows as int, q.0, q.1)
                && old(cells)@[#[trigger] spec_idx(cfg.cell_cols as int, q.0, q.1)]
                    == CellState::Opened
                ==> final(mine_counts)@[spec_idx(cfg.cell_cols as int, q.0, q.1)]
                    == old(mine_counts)@[spec_idx(cfg.cell_cols as int, q.0, q.1)],
        old(cells)@[spec_idx(cfg.cell_cols as int, sx as int, sy as int)] != CellState::Unopened
            ==> final(cells)@ == old(cells)@ && final(mines)@ == old(mines)@
                && final(mine_counts)@ == old(mine_counts)@,
        old(cells)@[spec_idx(cfg.cell_cols as int, sx as int, sy as int)] == CellState::Unopened
            ==> final(mines)@ == mines_after_open(
                old(mines)@,
                old(mine_counts)@,
                old(cells)@,
                cfg.cell_cols as int,
                cfg.cell_rows as int,
                sx as int,
                sy as int,
            ) && forall|p: (int, int)|
                spec_in_bounds(cfg.cell_cols as int, cfg.cell_rows as int, p.0, p.1)
                    ==> final(cells)@[#[trigger] spec_idx(cfg.cell_cols as int, p.0, p.1)] == (
                    if flood_region(
                        (sx as int, sy as int),
                        old(cells)@,
                        final(mines)@,
                        cfg.cell_cols as int,
                        cfg.cell_rows as int,
                    ).contains(p) {
                        CellState::Opened
                    } else {
                        old(cells)@[spec_idx(cfg.cell_cols as int, p.0, p.1)]
                    }),
{
    broadcast use vstd::seq_lib::group_seq_properties;

    let ghost coli = cfg.cell_cols as int;
    let ghost rowi = cfg.cell_rows as int;
    let ghost sxi = sx as int;
    let ghost syi = sy as int;
    let ghost old_cells = cells@;
    proof {
        lemma_idx_range(coli, rowi, sxi, syi);
    }
    let idx0 = cfg.cell_coords_to_idx(sx, sy);
    if !(cells[idx0] == CellState::Unopened) {
        return ;
    }

    // Open the clicked cell itself, with an anti-guess attempt when it is
    // mine-free.
    if !mines[idx0] {
        let _ = try_move_mine(cfg, sx, sy, cells, mine_counts, mines);
    }
    proof {
        lemma_count_unopened_update(cells@, spec_idx(coli, sxi, syi), CellState::Opened);
    }
    cells.set(idx0, CellState::Opened);

    let ghost m1 = mines@;
    let ghost k1 = mine_counts@;
    let ghost region = flood_region((sxi, syi), old_cells, m1, coli, rowi);
    proof {
        lemma_flood_region_basics((sxi, syi), old_cells, m1, coli, rowi);
        assert(m1 == mines_after_open(old(mines)@, old(mine_counts)@, old_cells, coli, rowi, sxi,
            syi));
    }
    let ghost mut opened: Set<(int, int)> = Set::empty().insert((sxi, syi));
    proof {
        assert forall|p: (int, int)|
            spec_in_bounds(coli, rowi, p.0, p.1)
            implies cells@[#[trigger] spec_idx(coli, p.0, p.1)] == (if opened.contains(p) {
                CellState::Opened
            } else {
                old_cells[spec_idx(coli, p.0, p.1)]
            }) by {
            lemma_idx_range(coli, rowi, p.0, p.1);
            if spec_idx(coli, p.0, p.1) == spec_idx(coli, sxi, syi) {
                lemma_idx_injective(coli, rowi, p.0, p.1, sxi, syi);
            }
        }
    }

    let mut stack: Vec<(usize, usize)> = Vec::new();
    if mine_counts[idx0] == 0 {
        proof {
            assert(k1[spec_idx(coli, sxi, syi)] as int == spec_adj_mines(m1, coli, rowi, sxi,
                syi));
        }
        push_unopened_neighbors(cfg, sx, sy, cells, &mut stack, Ghost(old_cells), Ghost(m1),
            Ghost(region), Ghost(opened));
        proof {
            assert forall|x: (int, int), y: (int, int)|
                #![trigger opened.contains(x), opened.contains(y)]
                opened.contains(x) && spec_adj_mines(m1, coli, rowi, x.0, x.1) == 0
                    && adjacent(x.0, x.1, y.0, y.1) && spec_in_bounds(coli, rowi, y.0, y.1)
                    && old_cells[spec_idx(coli, y.0, y.1)] == CellState::Unopened
                    && !opened.contains(y)
                implies stack_has(stack@, y) by {
                assert(x == (sxi, syi));
            }
        }
    } else {
        proof {
            assert forall|x: (int, int), y: (int, int)|
                #![trigger opened.contains(x), opened.contains(y)]
                opened.contains(x) && spec_adj_mines(m1, coli, rowi, x.0, x.1) == 0
                    && adjacent(x.0, x.1, y.0, y.1) && spec_in_bounds(coli, rowi, y.0, y.1)
                    && old_cells[spec_idx(coli, y.0, y.1)] == CellState::Unopened
                    && !opened.contains(y)
                implies stack_has(stack@, y) by {
                assert(x == (sxi, syi));
                assert(k1[spec_idx(coli, sxi, syi)] as int == spec_adj_mines(m1, coli, rowi, sxi,
                    syi));
            }
        }
    }

    #[verifier::loop_isolation(true)]
    while stack.len() > 0
        invariant
            coli == cfg.cell_cols as int,
            rowi == cfg.cell_rows as int,
            sxi == sx as int,
            syi == sy as int,
            cfg.cell_rows * cfg.cell_cols <= usize::MAX,
            old_cells.len() == cfg.cell_rows * cfg.cell_cols,
            counts_correct(k1, m1, coli, rowi),
            flood_closed(region, old_cells, m1, coli, rowi),
            cells.len() == cfg.cell_rows * cfg.cell_cols,
            mine_counts.len() == cfg.cell_rows * cfg.cell_cols,
            mines.len() == cfg.cell_rows * cfg.cell_cols,
            mines@ == m1,
            mine_counts@ == k1,
            opened.contains((sxi, syi)),
            forall|p: (int, int)| #[trigger] opened.contains(p)
                ==> spec_in_bounds(coli, rowi, p.0, p.1)
                    && old_cells[spec_idx(coli, p.0, p.1)] == CellState::Unopened
                    && region.contains(p),
            forall|p: (int, int)|
                spec_in_bounds(coli, rowi, p.0, p.1)
                    ==> cells@[#[trigger] spec_idx(coli, p.0, p.1)] == (if opened.contains(p) {
                        CellState::Opened
                    } else {
                        old_cells[spec_idx(coli, p.0, p.1)]
                    }),
            forall|j: int| 0 <= j < stack@.len()
                ==> spec_in_bounds(coli, rowi, (#[trigger] stack@[j]).0 as int, stack@[j].1 as int)
                    && old_cells[spec_idx(coli, stack@[j].0 as int, stack@[j].1 as int)]
                        == CellState::Unopened
                    && region.contains((stack@[j].0 as int, stack@[j].1 as int)),
            forall|j: int| 0 <= j < stack@.len()
                ==> exists|x: (int, int)|
                    opened.contains(x) && spec_adj_mines(m1, coli, rowi, x.0, x.1) == 0
                        && adjacent(x.0, x.1, (#[trigger] stack@[j]).0 as int, stack@[j].1 as int),
            forall|x: (int, int), y: (int, int)|
                #![trigger opened.contains(x), opened.contains(y)]
                opened.contains(x) && spec_adj_mines(m1, coli, rowi, x.0, x.1) == 0
                    && adjacent(x.0, x.1, y.0, y.1) && spec_in_bounds(coli, rowi, y.0, y.1)
                    && old_cells[spec_idx(coli, y.0, y.1)] == CellState::Unopened
                    && !opened.contains(y)
                    ==> stack_has(stack@, y),
        decreases count_unopened(cells@), stack@.len(),
    {
        proof {
            lemma_count_unopened_bounds(cells@);
        }
        let ghost st0 = stack@;
        let p = stack.pop().unwrap();
        let (px, py) = p;
        let ghost pxi = px as int;
        let ghost pyi = py as int;
        proof {
            assert(st0[st0.len() - 1] == p);
            assert(spec_in_bounds(coli, rowi, pxi, pyi));
            lemma_idx_range(coli, rowi, pxi, pyi);
        }
        let pi = cfg.cell_coords_to_idx(px, py);
        if cells[pi] == CellState::Unopened {
            let ghost opened0 = opened;
            proof {
                assert(!opened.contains((pxi, pyi)));
            }
            let grown = open_flood_cell(cfg, px, py, cells, mine_counts, mines, &mut stack,
                Ghost(old_cells), Ghost(m1), Ghost(k1), Ghost(region), Ghost(opened));
            proof {
                opened = grown@;
                lemma_count_unopened_bounds(cells@);
                lemma_completeness_preserved(st0, stack@, opened0, opened, (pxi, pyi), m1,
                    old_cells, coli, rowi);
            }
        } else {
            proof {
                // Already opened by an earlier pop: nothing to do, and every
                // queued cell keeps a witness in the shrunk work list.
                assert(opened.contains((pxi, pyi)));
                lemma_completeness_preserved(st0, stack@, opened, opened, (pxi, pyi), m1,
                    old_cells, coli, rowi);
            }
        }
    }

    proof {
        // The work list is empty: the opened set is flood-closed and holds
        // the start, so it coincides with the flood region.
        assert(flood_closed(opened, old_cells, m1, coli, rowi)) by {
            assert forall|x: (int, int), y: (int, int)|
                #![trigger opened.contains(x), opened.contains(y)]
                opened.contains(x) && spec_in_bounds(coli, rowi, x.0, x.1)
                    && spec_adj_mines(m1, coli, rowi, x.0, x.1) == 0
                    && adjacent(x.0, x.1, y.0, y.1) && spec_in_bounds(coli, rowi, y.0, y.1)
                    && old_cells[spec_idx(coli, y.0, y.1)] == CellState::Unopened
                implies opened.contains(y) by {
                if !opened.contains(y) {
                    assert(stack_has(stack@, y));
                }
            }
        }
        assert(region.subset_of(opened));
        assert forall|p: (int, int)| spec_in_bounds(coli, rowi, p.0, p.1)
            implies cells@[#[trigger] spec_idx(coli, p.0, p.1)] == (if region.contains(p) {
                CellState::Opened
            } else {
                old_cells[spec_idx(coli, p.0, p.1)]
            }) by {
            if opened.contains(p) {
                assert(region.contains(p));
            }
            if region.contains(p) {
                assert(opened.contains(p));
            }
        }
    }
}

} // verus!
