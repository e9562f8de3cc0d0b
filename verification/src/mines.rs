//! Safe-zone-aware random mine placement.

use vstd::prelude::*;
use crate::grid::{
    count_trues, do_surrounding, in_safe_zone, lemma_count_trues_update, lemma_count_trues_zero,
    lemma_idx_range, lemma_neighbors_of, neighbors_of, spec_idx, spec_in_bounds,
};
use crate::rng::choose_indices;
use crate::shared::Config;

verus! {

/// The number of cells that must be free of mines at the start of the game:
/// the first-clicked cell and its up to 8 neighbors.
pub const SAFE_CELLS_FOR_FIRST_CLICK: usize = 9;

/// Tests whether a vector of flat indices holds the given value.
fn index_list_contains(v: &Vec<usize>, x: usize) -> (b: bool)
    ensures
        b == v@.contains(x),
{
    let mut k: usize = 0;
    while k < v.len()
        invariant
            0 <= k <= v.len(),
            forall|j: int| 0 <= j < k ==> v@[j] != x,
        decreases v.len() - k,
    {
        if v[k] == x {
            return true;
        }
        k += 1;
    }
    false
}

/// Places exactly `cfg.mine_count` mines uniformly at random, none of them
/// inside the 3x3 safe zone around the first click. Draws
/// `mine_count + SAFE_CELLS_FOR_FIRST_CLICK` distinct candidate positions so
/// that enough remain after excluding safe-zone collisions, then keeps the
/// first `mine_count` candidates outside the safe zone.
#[verifier::loop_isolation(false)]
pub fn initialize_mines(
    cfg: &Config,
    rng: &mut fastrand::Rng,
    mines: &mut Vec<bool>,
    first_click: (usize, usize),
)
    requires
        old(mines).len() == cfg.cell_rows * cfg.cell_cols,
        cfg.cell_rows * cfg.cell_cols <= usize::MAX,
        first_click.0 < cfg.cell_cols,
        first_click.1 < cfg.cell_rows,
        cfg.mine_count + SAFE_CELLS_FOR_FIRST_CLICK <= cfg.cell_rows * cfg.cell_cols,
    ensures
        final(mines).len() == old(mines).len(),
        count_trues(final(mines)@) == cfg.mine_count as int,
        forall|c: int, r: int|
            spec_in_bounds(cfg.cell_cols as int, cfg.cell_rows as int, c, r)
                && in_safe_zone(first_click.0 as int, first_click.1 as int, c, r)
                ==> !final(mines)@[#[trigger] spec_idx(cfg.cell_cols as int, c, r)],
{
    broadcast use vstd::seq_lib::group_seq_properties;

    let ghost coli = cfg.cell_cols as int;
    let ghost rowi = cfg.cell_rows as int;
    let (click_x, click_y) = first_click;
    let ghost cxi = click_x as int;
    let ghost cyi = click_y as int;

    // Collect the flat indices of the safe zone.
    proof {
        lemma_neighbors_of(coli, rowi, cxi, cyi);
        lemma_idx_range(coli, rowi, cxi, cyi);
    }
    let ghost sns = neighbors_of(coli, rowi, cxi, cyi);
    let mut safe_zone: Vec<usize> = Vec::new();
    safe_zone.push(cfg.cell_coords_to_idx(click_x, click_y));
    let nbrs = do_surrounding(cfg, click_x, click_y);
    let mut k: usize = 0;
    while k < nbrs.len()
        invariant
            0 <= k <= nbrs.len(),
            safe_zone@.len() == 1 + k,
            safe_zone@[0] == spec_idx(coli, cxi, cyi),
            forall|j: int| 0 <= j < k
                ==> safe_zone@[j + 1] == spec_idx(coli, #[trigger] sns[j].0, sns[j].1),
        decreases nbrs.len() - k,
    {
        let (nx, ny) = nbrs[k];
        proof {
            assert(sns.contains(sns[k as int]));
            lemma_idx_range(coli, rowi, nx as int, ny as int);
        }
        safe_zone.push(cfg.cell_coords_to_idx(nx, ny));
        k += 1;
    }
    proof {
        // Every in-bounds safe-zone cell's index is listed.
        assert forall|c: int, r: int|
            spec_in_bounds(coli, rowi, c, r) && in_safe_zone(cxi, cyi, c, r)
            implies safe_zone@.contains(spec_idx(coli, c, r) as usize) by {
            lemma_idx_range(coli, rowi, c, r);
            if c == cxi && r == cyi {
                assert(safe_zone@[0] == spec_idx(coli, c, r));
            } else {
                assert(sns.contains((c, r)));
                let j = choose|j: int| 0 <= j < sns.len() && sns[j] == (c, r);
                assert(safe_zone@[j + 1] == spec_idx(coli, c, r));
            }
        }
    }

    // Start from an empty board.
    let total = cfg.cell_rows * cfg.cell_cols;
    let mut i: usize = 0;
    while i < total
        invariant
            0 <= i <= total,
            mines.len() == total,
            forall|j: int| 0 <= j < i ==> !(#[trigger] mines@[j]),
        decreases total - i,
    {
        mines.set(i, false);
        i += 1;
    }
    proof {
        lemma_count_trues_zero(mines@);
    }

    proof {
        assert forall|c: int, r: int|
            spec_in_bounds(coli, rowi, c, r) && in_safe_zone(cxi, cyi, c, r)
            implies !mines@[spec_idx(coli, c, r)] by {
            lemma_idx_range(coli, rowi, c, r);
        }
    }
    let drawn = choose_indices(rng, total, cfg.mine_count + SAFE_CELLS_FOR_FIRST_CLICK);
    let mut mines_placed: usize = 0;
    if cfg.mine_count > 0 {
        let mut j: usize = 0;
        let ghost mut skipped: Set<usize> = Set::empty();
        while j < drawn.len() && mines_placed < cfg.mine_count
            invariant
                0 <= j <= drawn.len(),
                mines_placed <= cfg.mine_count,
                mines.len() == total,
                count_trues(mines@) == mines_placed as int,
                // Mines sit only where a processed candidate outside the safe
                // zone was placed.
                forall|c: int, r: int|
                    spec_in_bounds(coli, rowi, c, r) && in_safe_zone(cxi, cyi, c, r)
                        ==> !mines@[#[trigger] spec_idx(coli, c, r)],
                // Unprocessed candidates have not been placed yet.
                forall|m: int| j <= m < drawn@.len() ==> !mines@[#[trigger] drawn@[m] as int],
                // Skipped candidates: distinct safe-zone values already seen.
                skipped.finite(),
                skipped.len() == j - mines_placed,
                forall|v: usize| #[trigger] skipped.contains(v) ==> safe_zone@.contains(v),
                forall|v: usize| #[trigger] skipped.contains(v)
                    ==> exists|m: int| 0 <= m < j && drawn@[m] == v,
            decreases drawn.len() - j,
        {
            let d = drawn[j];
            if index_list_contains(&safe_zone, d) {
                proof {
                    assert(!skipped.contains(d)) by {
                        if skipped.contains(d) {
                            let m = choose|m: int| 0 <= m < j && drawn@[m] == d;
                            assert(drawn@[m] == drawn@[j as int]);
                        }
                    }
                    skipped = skipped.insert(d);
                    assert forall|v: usize| #[trigger] skipped.contains(v)
                        implies exists|m: int| 0 <= m < j + 1 && drawn@[m] == v by {
                        if v == d {
                            assert(drawn@[j as int] == v);
                        } else {
                            let m = choose|m: int| 0 <= m < j && drawn@[m] == v;
                            assert(0 <= m < j + 1 && drawn@[m] == v);
                        }
                    }
                }
            } else {
                proof {
                    lemma_count_trues_update(mines@, d as int, true);
                }
                mines.set(d, true);
                mines_placed += 1;
                proof {
                    assert forall|c: int, r: int|
                        spec_in_bounds(coli, rowi, c, r) && in_safe_zone(cxi, cyi, c, r)
                        implies !mines@[#[trigger] spec_idx(coli, c, r)] by {
                        lemma_idx_range(coli, rowi, c, r);
                        assert(safe_zone@.contains(spec_idx(coli, c, r) as usize));
                    }
                }
            }
            j += 1;
        }
        proof {
            if mines_placed < cfg.mine_count {
                // The loop ran through every candidate; at most
                // `SAFE_CELLS_FOR_FIRST_CLICK` of them can have been skipped,
                // so at least `mine_count` were placed: contradiction.
                assert(j == drawn@.len());
                let safe_vals = safe_zone@.to_set();
                assert(skipped.subset_of(safe_vals)) by {
                    assert forall|v: usize| skipped.contains(v)
                        implies safe_vals.contains(v) by {}
                }
                safe_zone@.lemma_cardinality_of_set();
                vstd::set_lib::lemma_len_subset(skipped, safe_vals);
                assert(false);
            }
        }
    }
    proof {
        if cfg.mine_count == 0 {
            lemma_count_trues_zero(mines@);
        }
    }
}

} // verus!
