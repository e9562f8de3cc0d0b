//! Grid indexing and the neighbor enumerator.
//!
//! All neighbor-dependent logic (counting, flood-opening, chording, the
//! anti-guess solver) routes through [`do_surrounding`] and its mathematical
//! counterpart [`neighbors_of`], so that edge and corner handling is
//! consistent everywhere.

use vstd::prelude::*;
use crate::shared::Config;

verus! {

/// Flat index of the cell `(c, r)` on a board with `cols` columns.
pub open spec fn spec_idx(cols: int, c: int, r: int) -> int {
    r * cols + c
}

/// Whether `(c, r)` lies on a `cols x rows` board.
pub open spec fn spec_in_bounds(cols: int, rows: int, c: int, r: int) -> bool {
    0 <= c < cols && 0 <= r < rows
}

/// Whether two distinct cells touch orthogonally or diagonally
/// (Chebyshev distance exactly 1).
pub open spec fn adjacent(c1: int, r1: int, c2: int, r2: int) -> bool {
    (c1 != c2 || r1 != r2) && -1 <= c1 - c2 <= 1 && -1 <= r1 - r2 <= 1
}

/// The first click's protected 3x3 neighborhood: the clicked cell itself and
/// every adjacent cell.
pub open spec fn in_safe_zone(click_c: int, click_r: int, c: int, r: int) -> bool {
    -1 <= c - click_c <= 1 && -1 <= r - click_r <= 1
}

/// Flat indexing is within range for in-bounds cells.
pub proof fn lemma_idx_range(cols: int, rows: int, c: int, r: int)
    requires
        spec_in_bounds(cols, rows, c, r),
    ensures
        0 <= spec_idx(cols, c, r) < rows * cols,
{
    assert(0 <= r * cols + c < rows * cols) by (nonlinear_arith)
        requires
            0 <= c < cols,
            0 <= r < rows,
    ;
}

/// Flat indexing is injective over in-bounds cells.
pub proof fn lemma_idx_injective(cols: int, rows: int, c1: int, r1: int, c2: int, r2: int)
    requires
        spec_in_bounds(cols, rows, c1, r1),
        spec_in_bounds(cols, rows, c2, r2),
        spec_idx(cols, c1, r1) == spec_idx(cols, c2, r2),
    ensures
        c1 == c2 && r1 == r2,
{
    assert(c1 == c2 && r1 == r2) by (nonlinear_arith)
        requires
            0 <= c1 < cols,
            0 <= r1 < rows,
            0 <= c2 < cols,
            0 <= r2 < rows,
            r1 * cols + c1 == r2 * cols + c2,
    ;
}


/// Decomposing a flat index recovers the cell coordinates.
pub proof fn lemma_idx_decompose(cols: int, rows: int, i: int)
    requires
        cols >= 1,
        rows >= 1,
        0 <= i < rows * cols,
    ensures
        spec_in_bounds(cols, rows, i % cols, i / cols),
        spec_idx(cols, i % cols, i / cols) == i,
{
    assert(0 <= i % cols < cols && 0 <= i / cols < rows && (i / cols) * cols + i % cols == i)
        by (nonlinear_arith)
        requires
            cols >= 1,
            rows >= 1,
            0 <= i < rows * cols,
    ;
}

/// The in-bounds neighbors of `(c, r)`, in row-major order with the center
/// skipped. This fixed order is what makes flood-opening and the anti-guess
/// tie-break deterministic.
pub open spec fn neighbors_of(cols: int, rows: int, c: int, r: int) -> Seq<(int, int)> {
    let s0 = Seq::<(int, int)>::empty();
    let s1 = if spec_in_bounds(cols, rows, c - 1, r - 1) { s0.push((c - 1, r - 1)) } else { s0 };
    let s2 = if spec_in_bounds(cols, rows, c, r - 1) { s1.push((c, r - 1)) } else { s1 };
    let s3 = if spec_in_bounds(cols, rows, c + 1, r - 1) { s2.push((c + 1, r - 1)) } else { s2 };
    let s4 = if spec_in_bounds(cols, rows, c - 1, r) { s3.push((c - 1, r)) } else { s3 };
    let s5 = if spec_in_bounds(cols, rows, c + 1, r) { s4.push((c + 1, r)) } else { s4 };
    let s6 = if spec_in_bounds(cols, rows, c - 1, r + 1) { s5.push((c - 1, r + 1)) } else { s5 };
    let s7 = if spec_in_bounds(cols, rows, c, r + 1) { s6.push((c, r + 1)) } else { s6 };
    if spec_in_bounds(cols, rows, c + 1, r + 1) { s7.push((c + 1, r + 1)) } else { s7 }
}

/// The neighbor enumeration holds exactly the in-bounds adjacent cells, each
/// once, and there are at most 8 of them.
pub proof fn lemma_neighbors_of(cols: int, rows: int, c: int, r: int)
    ensures
        forall|p: (int, int)| #[trigger] neighbors_of(cols, rows, c, r).contains(p)
            <==> (adjacent(p.0, p.1, c, r) && spec_in_bounds(cols, rows, p.0, p.1)),
        neighbors_of(cols, rows, c, r).no_duplicates(),
        neighbors_of(cols, rows, c, r).len() <= 8,
{
    broadcast use vstd::seq_lib::group_seq_properties;

    let ns = neighbors_of(cols, rows, c, r);
    assert forall|p: (int, int)| #[trigger] ns.contains(p)
        implies (adjacent(p.0, p.1, c, r) && spec_in_bounds(cols, rows, p.0, p.1)) by {
        let k = choose|k: int| 0 <= k < ns.len() && ns[k] == p;
    }
    assert forall|p: (int, int)| adjacent(p.0, p.1, c, r) && spec_in_bounds(cols, rows, p.0, p.1)
        implies #[trigger] ns.contains(p) by {
        assert(p == (p.0, p.1));
    }
}

/// Number of mines among a given list of cells.
pub open spec fn count_in(ps: Seq<(int, int)>, mines: Seq<bool>, cols: int) -> int
    decreases ps.len(),
{
    if ps.len() == 0 {
        0
    } else {
        count_in(ps.drop_last(), mines, cols)
            + if mines[spec_idx(cols, ps.last().0, ps.last().1)] { 1int } else { 0int }
    }
}

/// Number of mines adjacent to `(c, r)`: the cell's true mine count.
pub open spec fn spec_adj_mines(mines: Seq<bool>, cols: int, rows: int, c: int, r: int) -> int {
    count_in(neighbors_of(cols, rows, c, r), mines, cols)
}

pub proof fn lemma_count_in_bounds(ps: Seq<(int, int)>, mines: Seq<bool>, cols: int)
    ensures
        0 <= count_in(ps, mines, cols) <= ps.len(),
    decreases ps.len(),
{
    if ps.len() > 0 {
        lemma_count_in_bounds(ps.drop_last(), mines, cols);
    }
}

/// Counting the same cells over two mine layouts that agree on those cells
/// gives the same count.
pub proof fn lemma_count_in_agree(
    ps: Seq<(int, int)>,
    mines1: Seq<bool>,
    mines2: Seq<bool>,
    cols: int,
)
    requires
        forall|k: int| 0 <= k < ps.len()
            ==> mines1[spec_idx(cols, ps[k].0, ps[k].1)]
                == mines2[#[trigger] spec_idx(cols, ps[k].0, ps[k].1)],
    ensures
        count_in(ps, mines1, cols) == count_in(ps, mines2, cols),
    decreases ps.len(),
{
    if ps.len() > 0 {
        assert(spec_idx(cols, ps[ps.len() - 1].0, ps[ps.len() - 1].1)
            == spec_idx(cols, ps.last().0, ps.last().1));
        lemma_count_in_agree(ps.drop_last(), mines1, mines2, cols);
    }
}

/// How a count over a duplicate-free list of in-bounds cells changes when the
/// mine bit of one in-bounds cell is overwritten.
pub proof fn lemma_count_in_update(
    ps: Seq<(int, int)>,
    mines: Seq<bool>,
    cols: int,
    rows: int,
    tc: int,
    tr: int,
    b: bool,
)
    requires
        ps.no_duplicates(),
        forall|k: int| 0 <= k < ps.len()
            ==> spec_in_bounds(cols, rows, #[trigger] ps[k].0, ps[k].1),
        spec_in_bounds(cols, rows, tc, tr),
        mines.len() == rows * cols,
    ensures
        count_in(ps, mines.update(spec_idx(cols, tc, tr), b), cols) == count_in(ps, mines, cols)
            + if ps.contains((tc, tr)) {
                (if b { 1int } else { 0int }) - (if mines[spec_idx(cols, tc, tr)] { 1int } else { 0int })
            } else {
                0int
            },
    decreases ps.len(),
{
    broadcast use vstd::seq_lib::group_seq_properties;

    let t = spec_idx(cols, tc, tr);
    lemma_idx_range(cols, rows, tc, tr);
    if ps.len() > 0 {
        let last = ps.last();
        assert(ps[ps.len() - 1] == last);
        lemma_count_in_update(ps.drop_last(), mines, cols, rows, tc, tr, b);
        if last == (tc, tr) {
            // The dropped prefix cannot contain the target again.
            assert(!ps.drop_last().contains((tc, tr))) by {
                if ps.drop_last().contains((tc, tr)) {
                    let k = choose|k: int|
                        0 <= k < ps.drop_last().len() && ps.drop_last()[k] == (tc, tr);
                    assert(ps[k] == ps[ps.len() - 1]);
                }
            }
            assert(ps.contains((tc, tr)));
        } else {
            assert(spec_idx(cols, last.0, last.1) != t) by {
                if spec_idx(cols, last.0, last.1) == t {
                    lemma_idx_injective(cols, rows, last.0, last.1, tc, tr);
                    assert(last == (tc, tr));
                }
            }
            assert(spec_in_bounds(cols, rows, last.0, last.1)) by {
                assert(ps[ps.len() - 1].0 == last.0 && ps[ps.len() - 1].1 == last.1);
            }
            lemma_idx_range(cols, rows, last.0, last.1);
            assert(mines.update(t, b)[spec_idx(cols, last.0, last.1)]
                == mines[spec_idx(cols, last.0, last.1)]);
            // Membership in `ps` is membership in the dropped prefix.
            assert(ps.contains((tc, tr)) == ps.drop_last().contains((tc, tr))) by {
                if ps.contains((tc, tr)) {
                    let k = choose|k: int| 0 <= k < ps.len() && ps[k] == (tc, tr);
                    assert(k < ps.len() - 1);
                    assert(ps.drop_last()[k] == (tc, tr));
                }
                if ps.drop_last().contains((tc, tr)) {
                    let k = choose|k: int|
                        0 <= k < ps.drop_last().len() && ps.drop_last()[k] == (tc, tr);
                    assert(ps[k] == (tc, tr));
                }
            }
        }
    }
}

/// Total number of mines on the board.
pub open spec fn count_trues(s: Seq<bool>) -> int
    decreases s.len(),
{
    if s.len() == 0 {
        0
    } else {
        count_trues(s.drop_last()) + if s.last() { 1int } else { 0int }
    }
}

pub proof fn lemma_count_trues_zero(s: Seq<bool>)
    requires
        forall|k: int| 0 <= k < s.len() ==> !(#[trigger] s[k]),
    ensures
        count_trues(s) == 0,
    decreases s.len(),
{
    if s.len() > 0 {
        lemma_count_trues_zero(s.drop_last());
    }
}

/// How the total mine count changes when one cell's mine bit is overwritten.
pub proof fn lemma_count_trues_update(s: Seq<bool>, i: int, b: bool)
    requires
        0 <= i < s.len(),
    ensures
        count_trues(s.update(i, b)) == count_trues(s)
            + (if b { 1int } else { 0int }) - (if s[i] { 1int } else { 0int }),
    decreases s.len(),
{
    let su = s.update(i, b);
    if i == s.len() - 1 {
        assert(su.drop_last() =~= s.drop_last());
    } else {
        assert(su.drop_last() =~= s.drop_last().update(i, b));
        lemma_count_trues_update(s.drop_last(), i, b);
    }
}

/// A mine-count map is correct when every cell's entry equals the number of
/// adjacent mines in the given layout.
pub open spec fn counts_correct(counts: Seq<u8>, mines: Seq<bool>, cols: int, rows: int) -> bool {
    &&& counts.len() == rows * cols
    &&& mines.len() == rows * cols
    &&& forall|c: int, r: int|
        spec_in_bounds(cols, rows, c, r)
            ==> #[trigger] counts[spec_idx(cols, c, r)] as int
                == spec_adj_mines(mines, cols, rows, c, r)
}

/// Enumerates the up-to-8 in-bounds cells surrounding `(cell_x, cell_y)`,
/// in the fixed order of [`neighbors_of`].
pub fn do_surrounding(cfg: &Config, cell_x: usize, cell_y: usize) -> (ns: Vec<(usize, usize)>)
    requires
        cell_x < cfg.cell_cols,
        cell_y < cfg.cell_rows,
    ensures
        ns@.len() == neighbors_of(
            cfg.cell_cols as int,
            cfg.cell_rows as int,
            cell_x as int,
            cell_y as int,
        ).len(),
        forall|k: int| 0 <= k < ns@.len()
            ==> #[trigger] neighbors_of(
                cfg.cell_cols as int,
                cfg.cell_rows as int,
                cell_x as int,
                cell_y as int,
            )[k] == (ns@[k].0 as int, ns@[k].1 as int),
{
    let cols = cfg.cell_cols;
    let rows = cfg.cell_rows;
    let mut ns: Vec<(usize, usize)> = Vec::new();
    let ghost ci = cell_x as int;
    let ghost ri = cell_y as int;
    let ghost coli = cols as int;
    let ghost rowi = rows as int;
    if cell_x > 0 && cell_y > 0 {
        ns.push((cell_x - 1, cell_y - 1));
    }
    if cell_y > 0 {
        ns.push((cell_x, cell_y - 1));
    }
    if cell_x + 1 < cols && cell_y > 0 {
        ns.push((cell_x + 1, cell_y - 1));
    }
    if cell_x > 0 {
        ns.push((cell_x - 1, cell_y));
    }
    if cell_x + 1 < cols {
        ns.push((cell_x + 1, cell_y));
    }
    if cell_x > 0 && cell_y + 1 < rows {
        ns.push((cell_x - 1, cell_y + 1));
    }
    if cell_y + 1 < rows {
        ns.push((cell_x, cell_y + 1));
    }
    if cell_x + 1 < cols && cell_y + 1 < rows {
        ns.push((cell_x + 1, cell_y + 1));
    }
    proof {
        let sns = neighbors_of(coli, rowi, ci, ri);
        assert(ns@.len() == sns.len());
        assert forall|k: int| 0 <= k < ns@.len()
            implies #[trigger] sns[k] == (ns@[k].0 as int, ns@[k].1 as int) by {
        }
    }
    ns
}

/// Counts the mines adjacent to `(cell_x, cell_y)`.
#[verifier::loop_isolation(false)]
pub fn count_nearby_mines(cfg: &Config, cell_x: usize, cell_y: usize, mines: &Vec<bool>) -> (count:
    u8)
    requires
        cell_x < cfg.cell_cols,
        cell_y < cfg.cell_rows,
        mines.len() == cfg.cell_rows * cfg.cell_cols,
        cfg.cell_rows * cfg.cell_cols <= usize::MAX,
    ensures
        count as int == spec_adj_mines(
            mines@,
            cfg.cell_cols as int,
            cfg.cell_rows as int,
            cell_x as int,
            cell_y as int,
        ),
        count <= 8,
{
    let ghost coli = cfg.cell_cols as int;
    let ghost rowi = cfg.cell_rows as int;
    let ghost sns = neighbors_of(coli, rowi, cell_x as int, cell_y as int);
    proof {
        lemma_neighbors_of(coli, rowi, cell_x as int, cell_y as int);
    }
    let ns = do_surrounding(cfg, cell_x, cell_y);
    let mut count: u8 = 0;
    let mut k: usize = 0;
    while k < ns.len()
        invariant
            0 <= k <= ns.len(),
            count as int == count_in(sns.take(k as int), mines@, coli),
            count <= k,
        decreases ns.len() - k,
    {
        broadcast use vstd::seq_lib::group_seq_properties;

        let (nx, ny) = ns[k];
        proof {
            assert(sns.contains(sns[k as int]));
            assert(spec_in_bounds(coli, rowi, nx as int, ny as int));
            lemma_idx_range(coli, rowi, nx as int, ny as int);
        }
        let i = cfg.cell_coords_to_idx(nx, ny);
        proof {
            assert(sns.take(k as int + 1).drop_last() =~= sns.take(k as int));
            assert(sns.take(k as int + 1).last() == sns[k as int]);
        }
        if mines[i] {
            count += 1;
        }
        k += 1;
    }
    proof {
        assert(sns.take(sns.len() as int) =~= sns);
    }
    count
}

/// Recomputes the whole mine-count map from the mine layout.
#[verifier::loop_isolation(false)]
pub fn generate_mine_counts(cfg: &Config, mine_counts: &mut Vec<u8>, mines: &Vec<bool>)
    requires
        old(mine_counts).len() == cfg.cell_rows * cfg.cell_cols,
        mines.len() == cfg.cell_rows * cfg.cell_cols,
        cfg.cell_rows * cfg.cell_cols <= usize::MAX,
    ensures
        final(mine_counts).len() == old(mine_counts).len(),
        counts_correct(final(mine_counts)@, mines@, cfg.cell_cols as int, cfg.cell_rows as int),
{
    let ghost coli = cfg.cell_cols as int;
    let ghost rowi = cfg.cell_rows as int;
    let mut cell_y: usize = 0;
    while cell_y < cfg.cell_rows
        invariant
            0 <= cell_y <= cfg.cell_rows,
            mine_counts.len() == cfg.cell_rows * cfg.cell_cols,
            forall|c: int, r: int|
                spec_in_bounds(coli, rowi, c, r) && r < cell_y
                    ==> #[trigger] mine_counts@[spec_idx(coli, c, r)] as int
                        == spec_adj_mines(mines@, coli, rowi, c, r),
        decreases cfg.cell_rows - cell_y,
    {
        let mut cell_x: usize = 0;
        while cell_x < cfg.cell_cols
            invariant
                0 <= cell_x <= cfg.cell_cols,
                mine_counts.len() == cfg.cell_rows * cfg.cell_cols,
                forall|c: int, r: int|
                    spec_in_bounds(coli, rowi, c, r) && (r < cell_y || (r == cell_y && c < cell_x))
                        ==> #[trigger] mine_counts@[spec_idx(coli, c, r)] as int
                            == spec_adj_mines(mines@, coli, rowi, c, r),
            decreases cfg.cell_cols - cell_x,
        {
            let count = count_nearby_mines(cfg, cell_x, cell_y, mines);
            proof {
                lemma_idx_range(coli, rowi, cell_x as int, cell_y as int);
            }
            let i = cfg.cell_coords_to_idx(cell_x, cell_y);
            mine_counts.set(i, count);
            proof {
                assert forall|c: int, r: int|
                    spec_in_bounds(coli, rowi, c, r) && (r < cell_y as int || (r == cell_y as int
                        && c < cell_x + 1))
                    implies #[trigger] mine_counts@[spec_idx(coli, c, r)] as int
                        == spec_adj_mines(mines@, coli, rowi, c, r) by {
                    lemma_idx_range(coli, rowi, c, r);
                    if spec_idx(coli, c, r) == spec_idx(coli, cell_x as int, cell_y as int) {
                        lemma_idx_injective(coli, rowi, c, r, cell_x as int, cell_y as int);
                    }
                }
            }
            cell_x += 1;
        }
        cell_y += 1;
    }
}

} // verus!
