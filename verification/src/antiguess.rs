//! The anti-guess solver: relocating a mine onto a just-opened cell.
//!
//! When a mine-free cell is opened, the solver tries to move a mine from one
//! of its neighbors onto the opened cell itself, provided the move changes no
//! count already revealed to the player. Candidates are tried in the fixed
//! order of [`neighbors_of`]; the first one that contradicts nothing wins.

use vstd::prelude::*;
use crate::cell::CellState;
use crate::grid::{
    adjacent, count_in, count_nearby_mines, count_trues, counts_correct, do_surrounding,
    generate_mine_counts, lemma_count_in_bounds, lemma_count_in_update, lemma_count_in_agree,
    lemma_count_trues_update, lemma_idx_injective, lemma_idx_range, lemma_neighbors_of,
    neighbors_of, spec_adj_mines, spec_idx, spec_in_bounds,
};
use crate::shared::Config;

verus! {

/// The mine layout after moving a mine from `(nc, nr)` onto `(cc, cr)`.
pub open spec fn relocated(
    mines: Seq<bool>,
    cols: int,
    cc: int,
    cr: int,
    nc: int,
    nr: int,
) -> Seq<bool> {
    mines.update(spec_idx(cols, cc, cr), true).update(spec_idx(cols, nc, nr), false)
}

/// Whether the cell `q`'s mine count can be affected by moving a mine from
/// `(nc, nr)` to `(cc, cr)`: it neighbors one of the two.
pub open spec fn affects(
    cols: int,
    rows: int,
    cc: int,
    cr: int,
    nc: int,
    nr: int,
    q: (int, int),
) -> bool {
    neighbors_of(cols, rows, cc, cr).contains(q) || neighbors_of(cols, rows, nc, nr).contains(q)
}

/// Whether moving the mine at `(nc, nr)` onto `(cc, cr)` is acceptable:
/// the source holds a mine, and no already-opened cell's displayed count
/// would change.
pub open spec fn candidate_ok(
    mines: Seq<bool>,
    counts: Seq<u8>,
    cells: Seq<CellState>,
    cols: int,
    rows: int,
    cc: int,
    cr: int,
    nc: int,
    nr: int,
) -> bool {
    &&& mines[spec_idx(cols, nc, nr)]
    &&& forall|q: (int, int)|
        #[trigger] affects(cols, rows, cc, cr, nc, nr, q)
            && cells[spec_idx(cols, q.0, q.1)] == CellState::Opened
            ==> spec_adj_mines(relocated(mines, cols, cc, cr, nc, nr), cols, rows, q.0, q.1)
                == counts[spec_idx(cols, q.0, q.1)] as int
}

/// The first acceptable relocation source at position `i` or later of the
/// neighbor enumeration of `(cc, cr)`, if any.
pub open spec fn first_candidate_from(
    mines: Seq<bool>,
    counts: Seq<u8>,
    cells: Seq<CellState>,
    cols: int,
    rows: int,
    cc: int,
    cr: int,
    i: int,
) -> Option<(int, int)>
    decreases neighbors_of(cols, rows, cc, cr).len() - i,
{
    let ns = neighbors_of(cols, rows, cc, cr);
    if i < 0 || i >= ns.len() {
        None
    } else if candidate_ok(mines, counts, cells, cols, rows, cc, cr, ns[i].0, ns[i].1) {
        Some(ns[i])
    } else {
        first_candidate_from(mines, counts, cells, cols, rows, cc, cr, i + 1)
    }
}

/// The relocation source the solver commits to for the opened cell
/// `(cc, cr)`, if any: the first acceptable neighbor in enumeration order.
pub open spec fn accepted_candidate(
    mines: Seq<bool>,
    counts: Seq<u8>,
    cells: Seq<CellState>,
    cols: int,
    rows: int,
    cc: int,
    cr: int,
) -> Option<(int, int)> {
    first_candidate_from(mines, counts, cells, cols, rows, cc, cr, 0)
}

/// A cell list with mine count zero has no mine on it.
pub proof fn lemma_count_in_zero(ps: Seq<(int, int)>, mines: Seq<bool>, cols: int, k: int)
    requires
        count_in(ps, mines, cols) == 0,
        0 <= k < ps.len(),
    ensures
        !mines[spec_idx(cols, ps[k].0, ps[k].1)],
    decreases ps.len(),
{
    lemma_count_in_bounds(ps.drop_last(), mines, cols);
    if k == ps.len() - 1 {
        assert(ps[k] == ps.last());
    } else {
        lemma_count_in_zero(ps.drop_last(), mines, cols, k);
        assert(ps.drop_last()[k] == ps[k]);
    }
}

/// An accepted relocation changes no opened cell's true mine count, whether
/// or not the cell neighbors the move: cells away from both endpoints keep
/// their count because their neighborhood is untouched.
pub proof fn lemma_accepted_preserves_revealed(
    mines: Seq<bool>,
    counts: Seq<u8>,
    cells: Seq<CellState>,
    cols: int,
    rows: int,
    cc: int,
    cr: int,
    nc: int,
    nr: int,
)
    requires
        counts_correct(counts, mines, cols, rows),
        candidate_ok(mines, counts, cells, cols, rows, cc, cr, nc, nr),
        spec_in_bounds(cols, rows, cc, cr),
        spec_in_bounds(cols, rows, nc, nr),
        cells.len() == rows * cols,
    ensures
        forall|q: (int, int)|
            spec_in_bounds(cols, rows, q.0, q.1)
                && cells[#[trigger] spec_idx(cols, q.0, q.1)] == CellState::Opened
                ==> spec_adj_mines(relocated(mines, cols, cc, cr, nc, nr), cols, rows, q.0, q.1)
                    == counts[spec_idx(cols, q.0, q.1)] as int,
{
    broadcast use vstd::seq_lib::group_seq_properties;

    let m2 = relocated(mines, cols, cc, cr, nc, nr);
    lemma_idx_range(cols, rows, cc, cr);
    lemma_idx_range(cols, rows, nc, nr);
    assert forall|q: (int, int)|
        spec_in_bounds(cols, rows, q.0, q.1)
            && cells[#[trigger] spec_idx(cols, q.0, q.1)] == CellState::Opened
        implies spec_adj_mines(m2, cols, rows, q.0, q.1) == counts[spec_idx(cols, q.0, q.1)] as int
        by {
        if affects(cols, rows, cc, cr, nc, nr, q) {
            // Directly guaranteed by the acceptance check.
        } else {
            // `q` neighbors neither endpoint, so no cell of its neighborhood
            // changed its mine bit.
            lemma_neighbors_of(cols, rows, q.0, q.1);
            lemma_neighbors_of(cols, rows, cc, cr);
            lemma_neighbors_of(cols, rows, nc, nr);
            let qs = neighbors_of(cols, rows, q.0, q.1);
            assert forall|k: int| 0 <= k < qs.len()
                implies mines[spec_idx(cols, qs[k].0, qs[k].1)]
                    == m2[#[trigger] spec_idx(cols, qs[k].0, qs[k].1)] by {
                assert(qs.contains(qs[k]));
                let p = qs[k];
                lemma_idx_range(cols, rows, p.0, p.1);
                // `p` is adjacent to `q`; were `p` one of the endpoints, `q`
                // would neighbor that endpoint.
                assert(p != (cc, cr)) by {
                    if p == (cc, cr) {
                        assert(adjacent(q.0, q.1, cc, cr));
                        assert(neighbors_of(cols, rows, cc, cr).contains(q));
                    }
                }
                assert(p != (nc, nr)) by {
                    if p == (nc, nr) {
                        assert(adjacent(q.0, q.1, nc, nr));
                        assert(neighbors_of(cols, rows, nc, nr).contains(q));
                    }
                }
                assert(spec_idx(cols, p.0, p.1) != spec_idx(cols, cc, cr)) by {
                    if spec_idx(cols, p.0, p.1) == spec_idx(cols, cc, cr) {
                        lemma_idx_injective(cols, rows, p.0, p.1, cc, cr);
                    }
                }
                assert(spec_idx(cols, p.0, p.1) != spec_idx(cols, nc, nr)) by {
                    if spec_idx(cols, p.0, p.1) == spec_idx(cols, nc, nr) {
                        lemma_idx_injective(cols, rows, p.0, p.1, nc, nr);
                    }
                }
            }
            lemma_count_in_agree(qs, mines, m2, cols);
        }
    }
}

/// If the cell being opened touches an already-opened cell whose displayed
/// count is zero, no relocation candidate is acceptable: the moved mine
/// would raise that zero.
pub proof fn lemma_no_candidate_next_to_opened_zero(
    mines: Seq<bool>,
    counts: Seq<u8>,
    cells: Seq<CellState>,
    cols: int,
    rows: int,
    cc: int,
    cr: int,
    pc: int,
    pr: int,
)
    requires
        counts_correct(counts, mines, cols, rows),
        cells.len() == rows * cols,
        spec_in_bounds(cols, rows, cc, cr),
        spec_in_bounds(cols, rows, pc, pr),
        adjacent(pc, pr, cc, cr),
        cells[spec_idx(cols, pc, pr)] == CellState::Opened,
        counts[spec_idx(cols, pc, pr)] == 0,
    ensures
        accepted_candidate(mines, counts, cells, cols, rows, cc, cr) == None::<(int, int)>,
{
    broadcast use vstd::seq_lib::group_seq_properties;

    let ns = neighbors_of(cols, rows, cc, cr);
    lemma_neighbors_of(cols, rows, cc, cr);
    lemma_neighbors_of(cols, rows, pc, pr);
    lemma_idx_range(cols, rows, cc, cr);
    lemma_idx_range(cols, rows, pc, pr);
    let ps = neighbors_of(cols, rows, pc, pr);
    assert(spec_adj_mines(mines, cols, rows, pc, pr) == 0);
    assert forall|i: int| 0 <= i < ns.len()
        implies !candidate_ok(mines, counts, cells, cols, rows, cc, cr, #[trigger] ns[i].0, ns[i].1)
        by {
        let n = ns[i];
        assert(ns.contains(n));
        lemma_idx_range(cols, rows, n.0, n.1);
        if mines[spec_idx(cols, n.0, n.1)] {
            let m2 = relocated(mines, cols, cc, cr, n.0, n.1);
            // The opened zero cell neighbors the opened target, so it is
            // among the affected cells ...
            assert(ps.contains((cc, cr)));
            assert(neighbors_of(cols, rows, cc, cr).contains((pc, pr)));
            assert(affects(cols, rows, cc, cr, n.0, n.1, (pc, pr)));
            // ... and its count under the move becomes exactly 1: the moved
            // mine arrives next to it, and the source was not its neighbor.
            assert(!ps.contains((n.0, n.1))) by {
                if ps.contains((n.0, n.1))  {
                    let k = choose|k: int| 0 <= k < ps.len() && ps[k] == (n.0, n.1);
                    lemma_count_in_zero(ps, mines, cols, k);
                }
            }
            assert(!mines[spec_idx(cols, cc, cr)]) by {
                let k = choose|k: int| 0 <= k < ps.len() && ps[k] == (cc, cr);
                lemma_count_in_zero(ps, mines, cols, k);
            }
            assert forall|k: int| 0 <= k < ps.len()
                implies spec_in_bounds(cols, rows, #[trigger] ps[k].0, ps[k].1) by {
                assert(ps.contains(ps[k]));
            }
            lemma_count_in_update(ps, mines, cols, rows, cc, cr, true);
            let m1 = mines.update(spec_idx(cols, cc, cr), true);
            assert(count_in(ps, m1, cols) == 1);
            assert(m1.len() == rows * cols);
            assert(m2 == m1.update(spec_idx(cols, n.0, n.1), false));
            lemma_count_in_update(ps, m1, cols, rows, n.0, n.1, false);
            assert(count_in(ps, m2, cols) == 1);
            assert(spec_adj_mines(m2, cols, rows, pc, pr) == 1);
            assert(counts[spec_idx(cols, pc, pr)] as int == 0);
        }
    }
    lemma_first_candidate_none(mines, counts, cells, cols, rows, cc, cr, 0);
}

/// If no enumeration position from `i` on is acceptable, the search finds
/// nothing.
proof fn lemma_first_candidate_none(
    mines: Seq<bool>,
    counts: Seq<u8>,
    cells: Seq<CellState>,
    cols: int,
    rows: int,
    cc: int,
    cr: int,
    i: int,
)
    requires
        forall|k: int|
            i <= k < neighbors_of(cols, rows, cc, cr).len()
                ==> !candidate_ok(
                    mines,
                    counts,
                    cells,
                    cols,
                    rows,
                    cc,
                    cr,
                    #[trigger] neighbors_of(cols, rows, cc, cr)[k].0,
                    neighbors_of(cols, rows, cc, cr)[k].1,
                ),
    ensures
        first_candidate_from(mines, counts, cells, cols, rows, cc, cr, i) == None::<(int, int)>,
    decreases neighbors_of(cols, rows, cc, cr).len() - i,
{
    let ns = neighbors_of(cols, rows, cc, cr);
    if 0 <= i < ns.len() {
        lemma_first_candidate_none(mines, counts, cells, cols, rows, cc, cr, i + 1);
    }
}

/// Tests whether the candidate layout `new_mines` would change the displayed
/// count of any already-opened cell near the move's two endpoints.
#[verifier::loop_isolation(false)]
fn any_revealed_change(
    cfg: &Config,
    cell_x: usize,
    cell_y: usize,
    nx: usize,
    ny: usize,
    cells: &Vec<CellState>,
    mine_counts: &Vec<u8>,
    new_mines: &Vec<bool>,
) -> (changed: bool)
    requires
        cell_x < cfg.cell_cols,
        cell_y < cfg.cell_rows,
        nx < cfg.cell_cols,
        ny < cfg.cell_rows,
        cfg.cell_rows * cfg.cell_cols <= usize::MAX,
        cells.len() == cfg.cell_rows * cfg.cell_cols,
        mine_counts.len() == cfg.cell_rows * cfg.cell_cols,
        new_mines.len() == cfg.cell_rows * cfg.cell_cols,
    ensures
        !changed <==> forall|q: (int, int)|
            #[trigger] affects(
                cfg.cell_cols as int,
                cfg.cell_rows as int,
                cell_x as int,
                cell_y as int,
                nx as int,
                ny as int,
                q,
            ) && cells@[spec_idx(cfg.cell_cols as int, q.0, q.1)] == CellState::Opened
                ==> spec_adj_mines(new_mines@, cfg.cell_cols as int, cfg.cell_rows as int, q.0, q.1)
                    == mine_counts@[spec_idx(cfg.cell_cols as int, q.0, q.1)] as int,
{
    let ghost coli = cfg.cell_cols as int;
    let ghost rowi = cfg.cell_rows as int;
    let ghost cns = neighbors_of(coli, rowi, cell_x as int, cell_y as int);
    let ghost nns = neighbors_of(coli, rowi, nx as int, ny as int);
    proof {
        lemma_neighbors_of(coli, rowi, cell_x as int, cell_y as int);
        lemma_neighbors_of(coli, rowi, nx as int, ny as int);
    }
    let around_cell = do_surrounding(cfg, cell_x, cell_y);
    let around_src = do_surrounding(cfg, nx, ny);

    let mut k: usize = 0;
    while k < around_cell.len()
        invariant
            0 <= k <= around_cell.len(),
            forall|j: int| 0 <= j < k
                ==> (cells@[spec_idx(coli, #[trigger] cns[j].0, cns[j].1)] == CellState::Opened
                    ==> spec_adj_mines(new_mines@, coli, rowi, cns[j].0, cns[j].1)
                        == mine_counts@[spec_idx(coli, cns[j].0, cns[j].1)] as int),
        decreases around_cell.len() - k,
    {
        let (qx, qy) = around_cell[k];
        proof {
            assert(cns.contains(cns[k as int]));
            lemma_idx_range(coli, rowi, qx as int, qy as int);
        }
        let i = cfg.cell_coords_to_idx(qx, qy);
        if cells[i] == CellState::Opened {
            let true_count = count_nearby_mines(cfg, qx, qy, new_mines);
            if mine_counts[i] != true_count {
                proof {
                    assert(affects(coli, rowi, cell_x as int, cell_y as int, nx as int, ny as int,
                        cns[k as int]));
                }
                return true;
            }
        }
        k += 1;
    }

    let mut k2: usize = 0;
    while k2 < around_src.len()
        invariant
            0 <= k2 <= around_src.len(),
            forall|j: int| 0 <= j < around_cell.len()
                ==> (cells@[spec_idx(coli, #[trigger] cns[j].0, cns[j].1)] == CellState::Opened
                    ==> spec_adj_mines(new_mines@, coli, rowi, cns[j].0, cns[j].1)
                        == mine_counts@[spec_idx(coli, cns[j].0, cns[j].1)] as int),
            forall|j: int| 0 <= j < k2
                ==> (cells@[spec_idx(coli, #[trigger] nns[j].0, nns[j].1)] == CellState::Opened
                    ==> spec_adj_mines(new_mines@, coli, rowi, nns[j].0, nns[j].1)
                        == mine_counts@[spec_idx(coli, nns[j].0, nns[j].1)] as int),
        decreases around_src.len() - k2,
    {
        let (qx, qy) = around_src[k2];
        proof {
            assert(nns.contains(nns[k2 as int]));
            lemma_idx_range(coli, rowi, qx as int, qy as int);
        }
        let i = cfg.cell_coords_to_idx(qx, qy);
        if cells[i] == CellState::Opened {
            let true_count = count_nearby_mines(cfg, qx, qy, new_mines);
            if mine_counts[i] != true_count {
                proof {
                    assert(affects(coli, rowi, cell_x as int, cell_y as int, nx as int, ny as int,
                        nns[k2 as int]));
                }
                return true;
            }
        }
        k2 += 1;
    }

    proof {
        assert forall|q: (int, int)|
            #[trigger] affects(coli, rowi, cell_x as int, cell_y as int, nx as int, ny as int, q)
                && cells@[spec_idx(coli, q.0, q.1)] == CellState::Opened
            implies spec_adj_mines(new_mines@, coli, rowi, q.0, q.1)
                == mine_counts@[spec_idx(coli, q.0, q.1)] as int by {
            if cns.contains(q) {
                let j = choose|j: int| 0 <= j < cns.len() && cns[j] == q;
                assert(cells@[spec_idx(coli, cns[j].0, cns[j].1)] == CellState::Opened);
            } else {
                let j = choose|j: int| 0 <= j < nns.len() && nns[j] == q;
                assert(cells@[spec_idx(coli, nns[j].0, nns[j].1)] == CellState::Opened);
            }
        }
    }
    false
}

/// Copies a mine layout into a fresh vector.
fn copy_mines(src: &Vec<bool>) -> (dst: Vec<bool>)
    ensures
        dst@ == src@,
{
    let mut dst: Vec<bool> = Vec::new();
    let mut i: usize = 0;
    while i < src.len()
        invariant
            0 <= i <= src.len(),
            dst@ =~= src@.take(i as int),
        decreases src.len() - i,
    {
        dst.push(src[i]);
        i += 1;
    }
    proof {
        assert(dst@ =~= src@);
    }
    dst
}

/// Tries to move a mine from a neighbor of the about-to-open, mine-free cell
/// `(cell_x, cell_y)` onto that cell, keeping every already-revealed count
/// intact. Neighbors are tried in enumeration order; the first acceptable one
/// is committed and the whole count map is regenerated. Returns whether a
/// mine was moved.
#[verifier::loop_isolation(false)]
pub fn try_move_mine(
    cfg: &Config,
    cell_x: usize,
    cell_y: usize,
    cells: &Vec<CellState>,
    mine_counts: &mut Vec<u8>,
    mines: &mut Vec<bool>,
) -> (moved: bool)
    requires
        cell_x < cfg.cell_cols,
        cell_y < cfg.cell_rows,
        cfg.cell_rows * cfg.cell_cols <= usize::MAX,
        cells.len() == cfg.cell_rows * cfg.cell_cols,
        old(mine_counts).len() == cfg.cell_rows * cfg.cell_cols,
        old(mines).len() == cfg.cell_rows * cfg.cell_cols,
        !old(mines)@[spec_idx(cfg.cell_cols as int, cell_x as int, cell_y as int)],
        counts_correct(
            old(mine_counts)@,
            old(mines)@,
            cfg.cell_cols as int,
            cfg.cell_rows as int,
        ),
    ensures
        final(mines).len() == old(mines).len(),
        final(mine_counts).len() == old(mine_counts).len(),
        counts_correct(final(mine_counts)@, final(mines)@, cfg.cell_cols as int, cfg.cell_rows as int),
        count_trues(final(mines)@) == count_trues(old(mines)@),
        ({
            let picked = accepted_candidate(
                old(mines)@,
                old(mine_counts)@,
                cells@,
                cfg.cell_cols as int,
                cfg.cell_rows as int,
                cell_x as int,
                cell_y as int,
            );
            match picked {
                None => !moved && final(mines)@ == old(mines)@
                    && final(mine_counts)@ == old(mine_counts)@,
                Some(n) => moved && final(mines)@ == relocated(
                    old(mines)@,
                    cfg.cell_cols as int,
                    cell_x as int,
                    cell_y as int,
                    n.0,
                    n.1,
                ),
            }
        }),
        // No already-opened cell's displayed count changes.
        forall|q: (int, int)|
            spec_in_bounds(cfg.cell_cols as int, cfg.cell_rows as int, q.0, q.1)
                && cells@[#[trigger] spec_idx(cfg.cell_cols as int, q.0, q.1)] == CellState::Opened
                ==> final(mine_counts)@[spec_idx(cfg.cell_cols as int, q.0, q.1)]
                    == old(mine_counts)@[spec_idx(cfg.cell_cols as int, q.0, q.1)],
{
    let ghost coli = cfg.cell_cols as int;
    let ghost rowi = cfg.cell_rows as int;
    let ghost cxi = cell_x as int;
    let ghost cyi = cell_y as int;
    let ghost sns = neighbors_of(coli, rowi, cxi, cyi);
    proof {
        lemma_neighbors_of(coli, rowi, cxi, cyi);
        lemma_idx_range(coli, rowi, cxi, cyi);
    }
    let ns = do_surrounding(cfg, cell_x, cell_y);
    let idx_cell = cfg.cell_coords_to_idx(cell_x, cell_y);

    let mut i: usize = 0;
    while i < ns.len()
        invariant
            0 <= i <= ns.len(),
            mines.len() == cfg.cell_rows * cfg.cell_cols,
            mine_counts.len() == cfg.cell_rows * cfg.cell_cols,
            mines@ == old(mines)@,
            mine_counts@ == old(mine_counts)@,
            first_candidate_from(mines@, mine_counts@, cells@, coli, rowi, cxi, cyi, 0)
                == first_candidate_from(mines@, mine_counts@, cells@, coli, rowi, cxi, cyi, i as int),
        decreases ns.len() - i,
    {
        let (nx, ny) = ns[i];
        proof {
            assert(sns.contains(sns[i as int]));
            lemma_idx_range(coli, rowi, nx as int, ny as int);
        }
        let idx_src = cfg.cell_coords_to_idx(nx, ny);
        if mines[idx_src] {
            let mut new_mines = copy_mines(mines);
            new_mines.set(idx_cell, true);
            new_mines.set(idx_src, false);
            proof {
                assert(new_mines@ == relocated(mines@, coli, cxi, cyi, nx as int, ny as int));
            }
            let changed = any_revealed_change(
                cfg,
                cell_x,
                cell_y,
                nx,
                ny,
                cells,
                mine_counts,
                &new_mines,
            );
            if !changed {
                proof {
                    assert(candidate_ok(mines@, mine_counts@, cells@, coli, rowi, cxi, cyi,
                        nx as int, ny as int));
                    assert(first_candidate_from(mines@, mine_counts@, cells@, coli, rowi, cxi,
                        cyi, i as int) == Some((nx as int, ny as int)));
                }
                let ghost old_m = mines@;
                let ghost old_k = mine_counts@;
                *mines = new_mines;
                generate_mine_counts(cfg, mine_counts, mines);
                proof {
                    // The total count is unchanged: one mine left the source,
                    // one arrived at the target.
                    assert(spec_idx(coli, cxi, cyi) != spec_idx(coli, nx as int, ny as int)) by {
                        if spec_idx(coli, cxi, cyi) == spec_idx(coli, nx as int, ny as int) {
                            lemma_idx_injective(coli, rowi, cxi, cyi, nx as int, ny as int);
                        }
                    }
                    lemma_count_trues_update(old_m, spec_idx(coli, cxi, cyi), true);
                    lemma_count_trues_update(
                        old_m.update(spec_idx(coli, cxi, cyi), true),
                        spec_idx(coli, nx as int, ny as int),
                        false,
                    );
                    // Displayed counts of opened cells are preserved.
                    lemma_accepted_preserves_revealed(old_m, old_k, cells@, coli, rowi, cxi, cyi,
                        nx as int, ny as int);
                    assert forall|q: (int, int)|
                        spec_in_bounds(coli, rowi, q.0, q.1)
                            && cells@[#[trigger] spec_idx(coli, q.0, q.1)] == CellState::Opened
                        implies mine_counts@[spec_idx(coli, q.0, q.1)]
                            == old_k[spec_idx(coli, q.0, q.1)] by {
                        lemma_idx_range(coli, rowi, q.0, q.1);
                        assert(mine_counts@[spec_idx(coli, q.0, q.1)] as int
                            == spec_adj_mines(mines@, coli, rowi, q.0, q.1));
                    }
                }
                return true;
            }
            proof {
                assert(!candidate_ok(mines@, mine_counts@, cells@, coli, rowi, cxi, cyi,
                    nx as int, ny as int));
            }
        } else {
            proof {
                assert(!candidate_ok(mines@, mine_counts@, cells@, coli, rowi, cxi, cyi,
                    nx as int, ny as int));
            }
        }
        i += 1;
    }
    false
}

} // verus!
